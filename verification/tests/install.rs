use splaunch::install::{
    candidates, detect, detect_with, engine_candidates, engine_exe, engine_platform, find_engine,
    looks_like_zk_root, override_root, parse_library_folders, steam_roots, Environment, Platform,
};

fn nothing_set() -> Environment {
    Environment {
        shiro_zk_root: None,
        appdata: None,
        local_appdata: None,
        user_profile: None,
        home: None,
        program_files_x86: None,
        program_files: None,
        windows: false,
    }
}

fn with_handed_root(value: Option<&str>) -> Vec<(Vec<String>, String)> {
    let env = Environment { shiro_zk_root: value.map(str::to_string), ..nothing_set() };
    let vdfs = vec![None; steam_roots(&env).len()];
    candidates(&env, &vdfs)
}

#[test]
fn parses_the_nested_libraryfolders_layout() {
    let vdf = r#"
"libraryfolders"
{
	"0"
	{
		"path"		"C:\\Program Files (x86)\\Steam"
		"label"		""
	}
	"1"
	{
		"path"		"D:\\SteamLibrary"
	}
}
"#;
    let got = parse_library_folders(vdf);
    assert_eq!(
        got,
        vec![
            r"C:\Program Files (x86)\Steam".to_string(),
            r"D:\SteamLibrary".to_string(),
        ]
    );
}

#[test]
fn ignores_keys_that_merely_contain_a_path() {
    let vdf = "\t\"contentstatsid\"\t\t\"12345\"\n\t\"path\"\t\t\"/home/u/.local/share/Steam\"\n";
    assert_eq!(
        parse_library_folders(vdf),
        vec!["/home/u/.local/share/Steam".to_string()]
    );
}

#[test]
fn survives_a_truncated_or_empty_vdf() {
    assert!(parse_library_folders("").is_empty());
    assert!(parse_library_folders("\"path\"").is_empty());
    assert!(parse_library_folders("\"path\" \"\"").is_empty());
}

#[test]
fn an_override_is_checked_like_any_other_candidate() {
    // The folder does not exist, so it does not look like an install.
    let err = detect_with(Some("/definitely/not/zero-k"), false).unwrap().unwrap_err();
    assert!(err.contains("not a Zero-K installation"), "{err}");
}

#[test]
fn a_blank_override_falls_through_to_detection() {
    assert!(detect_with(Some("   "), false).is_none());
    if let Err(e) = detect(&[], &[]) {
        assert!(e.contains("No Zero-K installation found"), "{e}");
    }
}

#[test]
fn engine_lookup_reports_the_version_rather_than_a_bare_not_found() {
    let paths: Vec<String> = engine_candidates("/nonexistent/Zero-K", "2025.06.21", Platform::Linux)
        .iter()
        .map(|p| p.join("/"))
        .collect();
    let err = find_engine("/nonexistent/Zero-K", "2025.06.21", &paths, &[false, false, false])
        .unwrap_err();
    assert!(err.contains("2025.06.21"), "{err}");
}

#[test]
fn engine_candidates_lead_with_the_platform_layout() {
    for os in [Platform::Windows, Platform::Mac, Platform::Linux] {
        let paths = engine_candidates("/zk", "2025.06.21", os);
        assert!(paths[0].iter().any(|part| part.contains(engine_platform(os))));
        assert_eq!(paths[0].last().map(String::as_str), Some(engine_exe(os)));
    }
}

#[test]
fn the_handed_root_is_probed_before_anything_guessed() {
    let handed = r"C:\handed\zk";
    let c = with_handed_root(Some(handed));
    assert_eq!(c[0].0, vec![handed.to_string()]);
    assert_eq!(c[0].1, "Shiro");
}

#[test]
fn an_empty_handed_root_is_not_a_candidate() {
    let c = with_handed_root(Some("   "));
    assert!(c.iter().all(|(_, via)| via != "Shiro"),
        "a blank variable must not become a candidate");
}

// ------------------------------------------------------------------ own ---

#[test]
fn the_managed_install_is_probed_even_without_the_variable() {
    let env = Environment {
        appdata: Some(r"C:\Users\test\AppData\Roaming".to_string()),
        ..nothing_set()
    };
    let c = candidates(&env, &vec![None; steam_roots(&env).len()]);
    assert!(c.iter().any(|(p, _)| p.last().map(String::as_str) == Some("zk")
        && p.iter().any(|part| part.contains("info.zero-k.shiro"))));
}

#[test]
fn a_folder_needs_content_beside_the_engine_to_count() {
    assert!(!looks_like_zk_root(true, false, false, false), "engine alone must not qualify");
    assert!(looks_like_zk_root(true, false, true, false));
    assert!(!looks_like_zk_root(false, true, true, true));
}

#[test]
fn every_steam_library_is_a_candidate_after_the_guesses() {
    let env = Environment { home: Some("/home/u".to_string()), ..nothing_set() };
    let roots = steam_roots(&env);
    assert_eq!(roots.len(), 3);
    let mut vdfs = vec![None; roots.len()];
    vdfs[0] = Some("\"path\"\t\t\"/mnt/games\"\n".to_string());
    let c = candidates(&env, &vdfs);
    let sources: Vec<&str> = c.iter().map(|(_, s)| s.as_str()).collect();
    assert_eq!(
        sources,
        vec![
            "home directory",
            "Spring data directory",
            "Spring data directory",
            "Steam",
            "Steam",
            "Steam",
            "Steam",
        ]
    );
    assert_eq!(c[4].0, vec!["/mnt/games", "steamapps", "common", "Zero-K"]);
}

#[test]
fn user_profile_wins_over_home() {
    let env = Environment {
        user_profile: Some(r"C:\Users\u".to_string()),
        home: Some("/home/u".to_string()),
        windows: true,
        program_files: Some(r"C:\Program Files".to_string()),
        ..nothing_set()
    };
    let roots = steam_roots(&env);
    assert_eq!(roots[0], vec![r"C:\Program Files", "Steam"]);
    assert_eq!(roots[1][0], r"C:\Users\u");
}

#[test]
fn the_first_probe_that_looks_like_an_install_wins() {
    let probed = vec![
        ("/a".to_string(), "Shiro".to_string()),
        ("/b".to_string(), "Steam".to_string()),
        ("/c".to_string(), "home directory".to_string()),
    ];
    let found = detect(&probed, &[false, true, true]).unwrap();
    assert_eq!(found.root, "/b");
    assert_eq!(found.source, "Steam");
    let err = detect(&probed, &[false, false, false]).unwrap_err();
    assert_eq!(err, "No Zero-K installation found. Looked in:\n  /a\n  /b\n  /c");
}

#[test]
fn a_typed_root_is_trimmed_and_accepted_when_it_looks_right() {
    assert_eq!(override_root(Some("  /zk  ")).as_deref(), Some("/zk"));
    let found = detect_with(Some("  /zk  "), true).unwrap().unwrap();
    assert_eq!(found.root, "/zk");
    assert_eq!(found.source, "settings");
    assert!(detect_with(None, true).is_none());
}

#[test]
fn the_engine_found_is_the_first_candidate_present() {
    let paths = vec!["a".to_string(), "b".to_string(), "c".to_string()];
    assert_eq!(find_engine("/zk", "1", &paths, &[false, true, true]).unwrap(), "b");
    assert_eq!(
        find_engine("/zk", "2025.06.21", &paths, &[false, false, false]).unwrap_err(),
        "Zero-K is installed at /zk but engine 2025.06.21 is not. Start that game once in the \
         official lobby to download the engine, then try again."
    );
}

#[test]
fn engine_candidates_are_the_three_layouts() {
    let paths = engine_candidates("/zk", "2025.06.21", Platform::Windows);
    assert_eq!(paths[0], vec!["/zk", "engine", "win64", "2025.06.21", "spring.exe"]);
    assert_eq!(paths[1], vec!["/zk", "engine", "2025.06.21", "spring.exe"]);
    assert_eq!(paths[2], vec!["/zk", "engine", "win64", "2025.06.21", "bin", "spring.exe"]);
}

#[test]
fn a_vdf_with_windows_line_endings_still_reads() {
    let vdf = "\t\"path\"\t\t\"D:\\\\Games\"\r\n\t\"label\"\t\t\"\"\r\n";
    assert_eq!(parse_library_folders(vdf), vec![r"D:\Games".to_string()]);
}
