use splaunch::game::{
    map_archive_index,
    archive_name, base_game, build_options, builder_rank, game_info, games_by_name,
    group_by_name, is_game_modtype, is_map_modtype, is_sdz, map_is_installed, map_stem,
    read_cache, resolve_map, table_key, Cached, GameArchive,
};
use splaunch::lua::{lua_field, lua_number};
use splaunch::order::sorted_distinct;
use splaunch::roster::{is_unit_file, units_from_sources};
use splaunch::version::{newest_first, version_key};

/// Three entries verbatim from a real `ArchiveCache20.lua`, trimmed: the
/// game as a rapid package, a map, and a mission mutator. The description
/// carries a brace it does not have in life, because that is the input that
/// breaks a parser which only counts them.
const CACHE: &str = r#"local archiveCache = {

	internalver = 20,

	archives = {  -- count = 3
		{
			name = "06860629e67e11ef60760893bbfb60d5.sdp",
			path = [[C:\Users\me\AppData\Roaming\info.zero-k.shiro\zk\packages\]],
			modified = "1787607601",
			archivedata = {
				description = "Zero-K {the good one}",
				game = "Zero-K",
				modtype = 1,
				mutator = "1",
				name = "Zero-K v1.14.8.0",
				name_pure = "Zero-K",
				shortgame = "ZK",
				shortname = "ZK",
				version = "v1.14.8.0",
			},
		},
		{
			name = "AlienDesert.sd7",
			path = [[C:\Users\me\AppData\Roaming\info.zero-k.shiro\zk\maps\]],
			modified = "1787792768",
			archivedata = {
				mapfile = "maps/AlienDesert.smf",
				modtype = 3,
				name = "AlienDesert",
				name_pure = "AlienDesert",
			},
		},
		{
			name = "quicktutorial.sdz",
			path = [[C:\Users\me\AppData\Roaming\info.zero-k.shiro\zk\games\]],
			modified = "1787607601",
			archivedata = {
				description = "Mission Mutator",
				modtype = 0,
				name = "Quick Tutorial r1",
				name_pure = "Quick Tutorial",
			},
		},
	},
}"#;

#[test]
fn the_engines_index_names_a_rapid_package_the_way_gametype_needs() {
    let mut out = Vec::new();
    read_cache(CACHE, &mut out);
    let zk = out.iter().find(|c| c.modtype == 1).expect("a game");
    assert_eq!(zk.name, "Zero-K v1.14.8.0");
    assert_eq!(zk.file, "06860629e67e11ef60760893bbfb60d5.sdp");
}

#[test]
fn a_map_is_told_apart_from_a_game_by_modtype() {
    let mut out = Vec::new();
    read_cache(CACHE, &mut out);
    assert_eq!(out.len(), 3);
    let map = out.iter().find(|c| c.name == "AlienDesert").expect("a map");
    assert_eq!(map.modtype, 3);
    let mutator = out.iter().find(|c| c.modtype == 0).expect("a mutator");
    assert_eq!(mutator.name, "Quick Tutorial r1");
}

#[test]
fn a_brace_inside_a_description_does_not_end_the_entry() {
    let mut out = Vec::new();
    read_cache(CACHE, &mut out);
    assert_eq!(out.len(), 3, "a brace in free text swallowed the rest");
}

#[test]
fn a_windows_path_in_a_long_string_is_not_read_as_a_field() {
    let mut out = Vec::new();
    read_cache(CACHE, &mut out);
    assert!(out.iter().all(|c| !c.file.contains('\\')), "{out:?}",);
}

#[test]
fn modtype_reads_whether_it_is_quoted_or_not() {
    assert_eq!(lua_number("modtype = 1,", "modtype"), Some(1));
    assert_eq!(lua_number("modtype = \"3\",", "modtype"), Some(3));
    assert_eq!(lua_number("name = \"x\",", "modtype"), None);
    assert_eq!(lua_number("mutator = \"1\",", "modtype"), None);
}

#[test]
fn a_map_name_without_its_version_still_finds_the_archive() {
    let installed = vec!["Comet Catcher Redux v3.1".to_string()];
    assert_eq!(
        resolve_map(&installed, "Comet Catcher Redux").as_deref(),
        Some("Comet Catcher Redux v3.1")
    );
}

#[test]
fn a_filename_matches_the_catalogue_name_it_came_from() {
    let installed = vec!["icy_crater_v4".to_string()];
    assert!(map_is_installed(&installed, "Icy Crater v4"));
}

#[test]
fn the_engines_own_name_is_preferred_over_the_filename() {
    let installed = vec!["Icy Crater v4".to_string(), "icy_crater_v4".to_string()];
    assert_eq!(
        resolve_map(&installed, "Icy Crater v4").as_deref(),
        Some("Icy Crater v4")
    );
}

#[test]
fn two_versions_of_a_map_refuse_to_answer_to_the_bare_name() {
    let installed = vec!["Tabula v6.1".to_string(), "Tabula v6.2".to_string()];
    assert_eq!(resolve_map(&installed, "Tabula"), None);
    assert_eq!(
        resolve_map(&installed, "Tabula v6.2").as_deref(),
        Some("Tabula v6.2")
    );
}

#[test]
fn a_map_that_is_not_there_is_not_invented() {
    let installed = vec!["Icy Crater v4".to_string()];
    assert_eq!(resolve_map(&installed, "Comet Catcher Redux"), None);
    assert_eq!(resolve_map(&installed, ""), None);
}

#[test]
fn the_newest_engine_is_the_newest_by_number_not_by_string() {
    let mut versions = [
        "105.1.1-2511-g1234567 maintenance".to_string(),
        "2025.06.21".to_string(),
        "2024.12.01".to_string(),
    ];
    versions.sort_by_key(|v| std::cmp::Reverse(version_key(v)));
    assert_eq!(versions[0], "2025.06.21");
    assert_eq!(versions[2], "105.1.1-2511-g1234567 maintenance");
}

#[test]
fn an_archive_name_is_the_name_plus_the_version() {
    let modinfo = r#"local modinfo = {
	name = [[Zero-K]],
	shortname = [[ZK]],
	version = [[v1.14.8.0]],
}
return modinfo"#;
    assert_eq!(archive_name(modinfo).as_deref(), Some("Zero-K v1.14.8.0"));
}

#[test]
fn a_name_that_already_carries_its_version_is_not_doubled() {
    let modinfo = r#"local modinfo = {
	name        = [[User Interface Tutorial r22]],
	description = [[Mission Mutator]],
	version     = [[r22]],
}"#;
    assert_eq!(
        archive_name(modinfo).as_deref(),
        Some("User Interface Tutorial r22")
    );
}

#[test]
fn an_archive_with_no_version_keeps_its_name() {
    assert_eq!(archive_name("{ name = \"Bare\" }").as_deref(), Some("Bare"));
}

#[test]
fn quoted_and_bracketed_lua_strings_both_read() {
    assert_eq!(lua_field(r#"name = "Glaive","#, "name").as_deref(), Some("Glaive"));
    assert_eq!(lua_field("name = [[Glaive]],", "name").as_deref(), Some("Glaive"));
    assert_eq!(lua_field("name\t=\t[[Glaive]]", "name").as_deref(), Some("Glaive"));
}

#[test]
fn a_key_is_not_matched_inside_a_longer_key() {
    let source = "unitname = [[cloakraid]],\n  name = [[Glaive]],";
    assert_eq!(lua_field(source, "name").as_deref(), Some("Glaive"));
    assert_eq!(lua_field(source, "unitname").as_deref(), Some("cloakraid"));
}

#[test]
fn a_missing_field_is_absent_rather_than_empty() {
    assert_eq!(lua_field("{ name = [[x]] }", "buildpic"), None);
}

#[test]
fn a_units_name_is_its_table_key_not_its_filename() {
    assert_eq!(
        table_key("return { rocksink = {\n  name = [[Rock]],").as_deref(),
        Some("rocksink")
    );
    assert_eq!(
        table_key("return { cloakraid = {").as_deref(),
        Some("cloakraid")
    );
}

#[test]
fn build_options_are_read_as_a_list() {
    let source = "  buildoptions = {\n    [[cloakcon]],\n    [[cloakraid]],\n  },";
    assert_eq!(build_options(source), vec!["cloakcon", "cloakraid"]);
    assert!(build_options("name = [[Glaive]]").is_empty());
}

#[test]
fn a_factory_outranks_athena_when_both_build_a_unit() {
    assert!(builder_rank("factorycloak") < builder_rank("athena"));
    assert!(builder_rank("factorycloak") < builder_rank("platecloak"));
}

#[test]
fn the_leftovers_are_grouped_by_the_names_zero_k_uses() {
    assert_eq!(group_by_name("turretlaser"), "Defences");
    assert_eq!(group_by_name("energysolar"), "Economy");
    assert_eq!(group_by_name("armcom1"), "Commanders");
    assert_eq!(group_by_name("commsupport1"), "Commanders");
    assert_eq!(group_by_name("dbg_m0r0"), "Test and debug");
    assert_eq!(group_by_name("zenith"), "Other");
}

#[test]
fn a_catalogue_name_matches_the_file_on_disk() {
    let installed = vec!["comet_catcher_redux".to_string(), "Glacies 1.3".to_string()];
    assert!(map_is_installed(&installed, "Comet Catcher Redux"));
    assert!(map_is_installed(&installed, "Glacies 1.3"));
    assert!(!map_is_installed(&installed, "Some Other Map"));
}

// ------------------------------------------------------------------ own ---

fn archive(name: &str, path: &str) -> GameArchive {
    GameArchive { name: name.to_string(), path: path.to_string() }
}

#[test]
fn the_base_game_is_zero_k_in_any_case_before_a_mutator() {
    let games = vec![archive("Quick Tutorial r1", "a"), archive("zero-K v1.14", "b")];
    assert_eq!(base_game(&games).map(|g| g.name), Some("zero-K v1.14".to_string()));
    let alone = vec![archive("Racing Mod", "c")];
    assert_eq!(base_game(&alone).map(|g| g.path), Some("c".to_string()));
    assert!(base_game(&[]).is_none());
}

#[test]
fn game_info_picks_the_newest_engine_and_the_base_game() {
    let info = game_info(
        vec!["2025.06.21".to_string(), "105.1.1".to_string()],
        vec![archive("Mutator", "m"), archive("Zero-K v1.14.8.0", "z")],
        vec!["NullAI".to_string()],
        vec!["Icy Crater v4".to_string()],
    );
    assert_eq!(info.engine.as_deref(), Some("2025.06.21"));
    assert_eq!(info.game.as_deref(), Some("Zero-K v1.14.8.0"));
    let empty = game_info(vec![], vec![], vec![], vec![]);
    assert!(empty.engine.is_none());
    assert!(empty.game.is_none());
}

#[test]
fn newest_first_orders_by_number_and_keeps_one_of_each() {
    let found = vec![
        "105.1.1-2511-g1234567 maintenance".to_string(),
        "2024.12.01".to_string(),
        "2025.06.21".to_string(),
        "2024.12.01".to_string(),
    ];
    assert_eq!(
        newest_first(&found),
        vec!["2025.06.21", "2024.12.01", "105.1.1-2511-g1234567 maintenance"]
    );
}

#[test]
fn a_version_key_is_runs_of_digits_and_the_text_after_them() {
    assert_eq!(
        version_key("105.1.1-2511-g1234567 maintenance"),
        vec![
            (105, ".".to_string()),
            (1, ".".to_string()),
            (1, "-".to_string()),
            (2511, "-g".to_string()),
            (1234567, " maintenance".to_string()),
        ]
    );
    assert_eq!(version_key("abc"), vec![(0, "abc".to_string())]);
    assert_eq!(version_key(""), vec![]);
    // More digits than a u64 holds read as none.
    assert_eq!(version_key("99999999999999999999x"), vec![(0, "x".to_string())]);
}

#[test]
fn names_are_sorted_once_each() {
    let names = vec!["b".to_string(), "a".to_string(), "b".to_string(), "B".to_string()];
    assert_eq!(sorted_distinct(&names), vec!["B", "a", "b"]);
}

#[test]
fn archives_are_listed_once_by_name_in_name_order_keeping_the_first() {
    let games = vec![archive("Zero-K", "first"), archive("Mutator", "m"), archive("Zero-K", "second")];
    let sorted = games_by_name(&games);
    assert_eq!(sorted, vec![archive("Mutator", "m"), archive("Zero-K", "first")]);
}

#[test]
fn map_files_are_known_by_extension_in_any_case() {
    assert_eq!(map_stem("comet_catcher_redux.SD7").as_deref(), Some("comet_catcher_redux"));
    assert_eq!(map_stem("Icy.Crater.smf").as_deref(), Some("Icy.Crater"));
    assert_eq!(map_stem("notes.txt"), None);
    assert_eq!(map_stem(".sd7"), None);
    assert!(is_sdz("zk-stable.SDZ"));
    assert!(!is_sdz("zk-stable.sd7"));
}

#[test]
fn modtypes_tell_games_from_maps() {
    assert!(is_game_modtype(1) && is_game_modtype(0));
    assert!(!is_game_modtype(3));
    assert!(is_map_modtype(3) && !is_map_modtype(1));
}

#[test]
fn a_unit_file_is_a_lua_file_under_units() {
    assert!(is_unit_file("units/cloakraid.lua"));
    assert!(is_unit_file("Units/CloakRaid.LUA"));
    assert!(!is_unit_file("units/cloakraid.txt"));
    assert!(!is_unit_file("weapons/cloakraid.lua"));
}

#[test]
fn the_palette_groups_by_builder_and_sorts_by_group_and_title() {
    let entries = vec![
        (
            "units/athena.lua".to_string(),
            "return { athena = { name = [[Athena]], buildoptions = { [[cloakraid]], }, } }".to_string(),
        ),
        (
            "units/cloakraid.lua".to_string(),
            "return { cloakraid = { name = [[Glaive]], description = [[Light Raider Bot]], } }"
                .to_string(),
        ),
        (
            "units/factorycloak.lua".to_string(),
            "return { factorycloak = { name = [[Cloakbot Factory]], buildoptions = { [[cloakraid]], [[cloakcon]], }, } }"
                .to_string(),
        ),
        (
            "units/damagesinkrock.lua".to_string(),
            "return { rocksink = { name = [[Rock]], } }".to_string(),
        ),
        ("units/turretlaser.lua".to_string(), "{ name = [[Lotus]] }".to_string()),
        ("units/zenith.lua".to_string(), "return { zenith = { } }".to_string()),
    ];
    let units = units_from_sources(&entries);
    let summary: Vec<(&str, &str, &str)> = units
        .iter()
        .map(|u| (u.name.as_str(), u.title.as_str(), u.group.as_str()))
        .collect();
    assert_eq!(
        summary,
        vec![
            ("cloakraid", "Glaive", "Cloakbot Factory"),
            ("turretlaser", "Lotus", "Defences"),
            ("factorycloak", "Cloakbot Factory", "Factories"),
            ("athena", "Athena", "Other"),
            ("rocksink", "Rock", "Other"),
            ("zenith", "zenith", "Other"),
        ]
    );
    assert_eq!(units[0].description, "Light Raider Bot");
}

#[test]
fn a_cached_entry_keeps_file_name_and_modtype() {
    let mut out: Vec<Cached> = Vec::new();
    read_cache(CACHE, &mut out);
    assert_eq!(out[1].file, "AlienDesert.sd7");
}

#[test]
fn a_map_archive_is_found_by_the_name_a_scenario_carries() {
    let stems = vec!["glacies_13".to_string(), "comet_catcher_redux_v3".to_string()];
    assert_eq!(map_archive_index(&stems, "Glacies 1.3"), Some(0));
    assert_eq!(map_archive_index(&stems, "Comet Catcher Redux"), Some(1));
    assert_eq!(map_archive_index(&stems, "Tundra"), None);
}
