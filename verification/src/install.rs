//! Locating an existing Zero-K installation.
//!
//! Nothing is downloaded: the engine, games and maps of whatever Zero-K is
//! already on the machine are reused. What is decided here - where to look,
//! in which order, what counts as an install and what is said when none is
//! found - is decided from plain values: the environment and the answers to
//! "is this a directory" are read by the caller and handed in.
//!
//! A path is a list of parts, the first one a directory as the environment
//! or a setting gave it and each further part joined beneath the one before.
use vstd::prelude::*;
use crate::game::strings_view;
use crate::text::{
    chars_of, concat, lines_of, owned, pieces_view, same_text, split_chars, split_on, string_of,
    text_lines, trim, trimmed,
};

verus! {

/// A Zero-K data directory - the folder holding `engine/`, `games/`,
/// `maps/` - and how it was found, so a person is told "Steam" rather than
/// a bare path.
#[derive(Clone, Debug)]
pub struct Install {
    pub root: String,
    pub source: String,
}

/// The operating system the engine is laid out for.
#[derive(Clone, Copy, Debug, PartialEq, Eq, Structural)]
pub enum Platform {
    Windows,
    Mac,
    Linux,
}

/// The subfolder Zero-K files engines under on `p`.
pub fn engine_platform(p: Platform) -> (r: &'static str)
    ensures
        r@ == spec_engine_platform(p),
{
    match p {
        Platform::Windows => "win64",
        Platform::Mac => "osx64",
        Platform::Linux => "linux64",
    }
}

pub open spec fn spec_engine_platform(p: Platform) -> Seq<char> {
    match p {
        Platform::Windows => "win64"@,
        Platform::Mac => "osx64"@,
        Platform::Linux => "linux64"@,
    }
}

/// The engine binary's file name on `p`.
pub fn engine_exe(p: Platform) -> (r: &'static str)
    ensures
        r@ == spec_engine_exe(p),
{
    match p {
        Platform::Windows => "spring.exe",
        _ => "spring",
    }
}

pub open spec fn spec_engine_exe(p: Platform) -> Seq<char> {
    match p {
        Platform::Windows => "spring.exe"@,
        _ => "spring"@,
    }
}

/// What makes a folder recognisably a Zero-K data directory rather than
/// some unrelated folder that happens to be called Zero-K: an `engine/`, and
/// beside it `games/`, `pool/` or `packages/`. An engine alone is not enough;
/// a bare engine checkout has one too.
pub fn looks_like_zk_root(engine: bool, games: bool, pool: bool, packages: bool) -> (r: bool)
    ensures
        r == (engine && (games || pool || packages)),
{
    engine && (games || pool || packages)
}

// ------------------------------------------------------ libraryfolders ---

/// VDF's escaping undone: every `\\` read left to right is one backslash.
pub open spec fn unescape_backslashes(s: Seq<char>) -> Seq<char>
    decreases s.len(),
{
    if s.len() == 0 {
        Seq::empty()
    } else if s.len() >= 2 && s[0] == '\\' && s[1] == '\\' {
        seq!['\\'] + unescape_backslashes(s.skip(2))
    } else {
        seq![s[0]] + unescape_backslashes(s.skip(1))
    }
}

/// The library a `libraryfolders.vdf` line names: the line's first quoted
/// token is `path`, and the next quoted token, not empty, is the path.
pub open spec fn vdf_path(line: Seq<char>) -> Option<Seq<char>> {
    let parts = split_on(line, '"');
    if parts.len() >= 4 && parts[1] == "path"@ && parts[3].len() > 0 {
        Some(unescape_backslashes(parts[3]))
    } else {
        None
    }
}

/// The libraries named on the first `n` lines.
pub open spec fn vdf_paths(lines: Seq<Seq<char>>, n: int) -> Seq<Seq<char>>
    decreases n,
{
    if n <= 0 || n > lines.len() {
        Seq::empty()
    } else {
        vdf_paths(lines, n - 1) + match vdf_path(lines[n - 1]) {
            Some(p) => seq![p],
            None => Seq::empty(),
        }
    }
}

pub open spec fn spec_library_folders(vdf: Seq<char>) -> Seq<Seq<char>> {
    let lines = text_lines(vdf);
    vdf_paths(lines, lines.len() as int)
}

fn unescaped(s: &[char]) -> (r: Vec<char>)
    ensures
        r@ == unescape_backslashes(s@),
{
    let mut out: Vec<char> = Vec::new();
    let mut i: usize = 0;
    assert(s@.skip(0) =~= s@);
    while i < s.len()
        invariant
            i <= s@.len(),
            out@ + unescape_backslashes(s@.skip(i as int)) == unescape_backslashes(s@),
        decreases s.len() - i,
    {
        let ghost rest = s@.skip(i as int);
        let ghost before = out@;
        if i + 1 < s.len() && s[i] == '\\' && s[i + 1] == '\\' {
            assert(rest[0] == '\\' && rest[1] == '\\');
            assert(rest.skip(2) =~= s@.skip(i + 2));
            out.push('\\');
            i = i + 2;
            assert(out@ + unescape_backslashes(s@.skip(i as int)) =~= before + unescape_backslashes(
                rest,
            ));
        } else {
            assert(rest[0] == s@[i as int]);
            assert(rest.skip(1) =~= s@.skip(i + 1));
            out.push(s[i]);
            i = i + 1;
            assert(out@ + unescape_backslashes(s@.skip(i as int)) =~= before + unescape_backslashes(
                rest,
            ));
        }
    }
    assert(s@.skip(s@.len() as int) =~= Seq::<char>::empty());
    assert(out@ =~= out@ + unescape_backslashes(Seq::<char>::empty()));
    out
}

fn line_path(line: &[char]) -> (r: Option<String>)
    ensures
        match vdf_path(line@) {
            Some(p) => r matches Some(s) && s@ == p,
            None => r is None,
        },
{
    let parts = split_chars(line, '"');
    let ghost pv = split_on(line@, '"');
    if parts.len() < 4 {
        return None;
    }
    assert(pv[1] == parts@[1]@);
    assert(pv[3] == parts@[3]@);
    let key = string_of(parts[1].as_slice());
    if !same_text(key.as_str(), "path") || parts[3].len() == 0 {
        return None;
    }
    let v = unescaped(parts[3].as_slice());
    Some(string_of(v.as_slice()))
}

/// Every library path in Steam's `libraryfolders.vdf`, in order.
///
/// The file is Valve's KeyValues format, and exactly one thing is wanted
/// from it, so the `"path"` key is scanned for rather than the format
/// parsed: both the flat and the nested layouts put the value on the key's
/// own line. VDF escapes backslashes, so `"D:\\Games"` is `D:\Games`.
pub fn parse_library_folders(vdf: &str) -> (r: Vec<String>)
    ensures
        strings_view(r@) == spec_library_folders(vdf@),
{
    let chars = chars_of(vdf);
    let lines = lines_of(chars.as_slice());
    let ghost lv = text_lines(vdf@);
    let mut out: Vec<String> = Vec::new();
    let mut i: usize = 0;
    while i < lines.len()
        invariant
            pieces_view(lines@) == lv,
            lv == text_lines(vdf@),
            i <= lines@.len(),
            strings_view(out@) == vdf_paths(lv, i as int),
        decreases lines.len() - i,
    {
        assert(lv[i as int] == lines@[i as int]@);
        let ghost before = strings_view(out@);
        match line_path(lines[i].as_slice()) {
            Some(p) => {
                out.push(p);
            },
            None => {},
        }
        assert(strings_view(out@) =~= vdf_paths(lv, i + 1));
        i = i + 1;
    }
    out
}

// ------------------------------------------------------------ candidates ---

/// What the environment says, as the caller read it. A variable that is
/// unset, or not valid Unicode, is `None`.
#[derive(Clone, Debug)]
pub struct Environment {
    /// `SHIRO_ZK_ROOT`: the directory Shiro manages, when Shiro started us.
    pub shiro_zk_root: Option<String>,
    /// `APPDATA`.
    pub appdata: Option<String>,
    /// `LOCALAPPDATA`.
    pub local_appdata: Option<String>,
    /// `USERPROFILE`.
    pub user_profile: Option<String>,
    /// `HOME`.
    pub home: Option<String>,
    /// `ProgramFiles(x86)`.
    pub program_files_x86: Option<String>,
    /// `ProgramFiles`.
    pub program_files: Option<String>,
    /// Whether this is Windows, where Steam lives under Program Files.
    pub windows: bool,
}

pub open spec fn candidates_view(v: Seq<(Vec<String>, String)>) -> Seq<(Seq<Seq<char>>, Seq<char>)> {
    v.map_values(|c: (Vec<String>, String)| (strings_view(c.0@), c.1@))
}

pub open spec fn opt_view(o: Option<String>) -> Option<Seq<char>> {
    match o {
        Some(s) => Some(s@),
        None => None,
    }
}

/// The home directory: `USERPROFILE`, and failing that `HOME`.
pub open spec fn spec_home(env: Environment) -> Option<Seq<char>> {
    match env.user_profile {
        Some(u) => Some(u@),
        None => opt_view(env.home),
    }
}

pub open spec fn under(dir: Option<Seq<char>>, part: Seq<char>) -> Seq<Seq<Seq<char>>> {
    match dir {
        Some(d) => seq![seq![d, part]],
        None => Seq::empty(),
    }
}

/// Where Steam is looked for before its own list of libraries is read.
pub open spec fn spec_steam_roots(env: Environment) -> Seq<Seq<Seq<char>>> {
    (if env.windows {
        under(opt_view(env.program_files_x86), "Steam"@) + under(opt_view(env.program_files), "Steam"@)
    } else {
        Seq::empty()
    }) + under(spec_home(env), ".local/share/Steam"@) + under(spec_home(env), ".steam/steam"@)
        + under(spec_home(env), "Library/Application Support/Steam"@)
}

pub open spec fn zk_in_library(lib: Seq<Seq<char>>) -> (Seq<Seq<char>>, Seq<char>) {
    (lib + seq!["steamapps"@, "common"@, "Zero-K"@], "Steam"@)
}

/// The Steam candidates of the first `n` Steam roots: each root's own
/// library, then every library its `libraryfolders.vdf` names.
pub open spec fn steam_candidates(
    roots: Seq<Seq<Seq<char>>>,
    vdfs: Seq<Option<Seq<char>>>,
    n: int,
) -> Seq<(Seq<Seq<char>>, Seq<char>)>
    decreases n,
{
    if n <= 0 || n > roots.len() {
        Seq::empty()
    } else {
        steam_candidates(roots, vdfs, n - 1) + seq![zk_in_library(roots[n - 1])] + match vdfs[n
            - 1] {
            Some(t) => spec_library_folders(t).map_values(|p: Seq<char>| zk_in_library(seq![p])),
            None => Seq::empty(),
        }
    }
}

pub open spec fn named(dir: Option<Seq<char>>, parts: Seq<Seq<char>>, source: Seq<char>) -> Seq<
    (Seq<Seq<char>>, Seq<char>),
> {
    match dir {
        Some(d) => seq![(seq![d] + parts, source)],
        None => Seq::empty(),
    }
}

/// Every place a Zero-K data directory plausibly lives, most specific
/// first: the directory Shiro handed over, Shiro's own managed install, the
/// installer's default, the home directory and Spring's, then every Steam
/// library.
pub open spec fn spec_candidates(env: Environment, vdfs: Seq<Option<Seq<char>>>) -> Seq<
    (Seq<Seq<char>>, Seq<char>),
> {
    let roots = spec_steam_roots(env);
    fixed_candidates(env) + steam_candidates(roots, vdfs, roots.len() as int)
}

/// The candidates that do not depend on what Steam says.
pub open spec fn fixed_candidates(env: Environment) -> Seq<(Seq<Seq<char>>, Seq<char>)> {
    let handed = match env.shiro_zk_root {
        Some(r) => if trim(r@).len() > 0 {
            seq![(seq![trim(r@)], "Shiro"@)]
        } else {
            Seq::empty()
        },
        None => Seq::empty(),
    };
    handed + named(opt_view(env.appdata), seq!["info.zero-k.shiro"@, "zk"@], "Shiro's managed install"@)
        + named(opt_view(env.local_appdata), seq!["Programs"@, "Zero-K"@], "Zero-K installer"@)
        + named(spec_home(env), seq!["Zero-K"@], "home directory"@) + named(
        spec_home(env),
        seq![".config/spring"@],
        "Spring data directory"@,
    ) + named(spec_home(env), seq![".spring"@], "Spring data directory"@)
}

fn home_dir(env: &Environment) -> (r: Option<String>)
    ensures
        opt_view(r) == spec_home(*env),
{
    match &env.user_profile {
        Some(u) => Some(owned(u.as_str())),
        None => match &env.home {
            Some(h) => Some(owned(h.as_str())),
            None => None,
        },
    }
}

fn path2(a: &str, b: &str) -> (r: Vec<String>)
    ensures
        strings_view(r@) == seq![a@, b@],
{
    let mut v: Vec<String> = Vec::new();
    v.push(owned(a));
    v.push(owned(b));
    assert(strings_view(v@) =~= seq![a@, b@]);
    v
}

fn path3(a: &str, b: &str, c: &str) -> (r: Vec<String>)
    ensures
        strings_view(r@) == seq![a@, b@, c@],
{
    let mut v = path2(a, b);
    let ghost before = strings_view(v@);
    v.push(owned(c));
    assert(strings_view(v@) =~= before.push(c@));
    assert(strings_view(v@) =~= seq![a@, b@, c@]);
    v
}

/// Where Steam is looked for: under Program Files on Windows, and in the
/// places Steam lives beneath a home directory.
pub fn steam_roots(env: &Environment) -> (r: Vec<Vec<String>>)
    ensures
        r@.map_values(|p: Vec<String>| strings_view(p@)) == spec_steam_roots(*env),
{
    let mut out: Vec<Vec<String>> = Vec::new();
    if env.windows {
        match &env.program_files_x86 {
            Some(d) => out.push(path2(d.as_str(), "Steam")),
            None => {},
        }
        match &env.program_files {
            Some(d) => out.push(path2(d.as_str(), "Steam")),
            None => {},
        }
    }
    match home_dir(env) {
        Some(h) => {
            out.push(path2(h.as_str(), ".local/share/Steam"));
            out.push(path2(h.as_str(), ".steam/steam"));
            out.push(path2(h.as_str(), "Library/Application Support/Steam"));
        },
        None => {},
    }
    assert(out@.map_values(|p: Vec<String>| strings_view(p@)) =~= spec_steam_roots(*env));
    out
}

fn zk_under(lib: &Vec<String>) -> (r: (Vec<String>, String))
    ensures
        (strings_view(r.0@), r.1@) == zk_in_library(strings_view(lib@)),
{
    let mut p: Vec<String> = Vec::new();
    let mut i: usize = 0;
    while i < lib.len()
        invariant
            i <= lib@.len(),
            strings_view(p@) == strings_view(lib@).take(i as int),
        decreases lib.len() - i,
    {
        let ghost before = strings_view(p@);
        p.push(owned(lib[i].as_str()));
        assert(strings_view(p@) =~= before.push(lib@[i as int]@));
        assert(strings_view(lib@)[i as int] == lib@[i as int]@);
        i = i + 1;
        assert(strings_view(p@) =~= strings_view(lib@).take(i as int));
    }
    let ghost base = strings_view(p@);
    assert(base =~= strings_view(lib@));
    p.push(owned("steamapps"));
    assert(strings_view(p@) =~= base.push("steamapps"@));
    p.push(owned("common"));
    assert(strings_view(p@) =~= base.push("steamapps"@).push("common"@));
    p.push(owned("Zero-K"));
    assert(strings_view(p@) =~= base.push("steamapps"@).push("common"@).push("Zero-K"@));
    assert(strings_view(p@) =~= strings_view(lib@) + seq!["steamapps"@, "common"@, "Zero-K"@]);
    (p, owned("Steam"))
}

fn fixed(env: &Environment) -> (r: Vec<(Vec<String>, String)>)
    ensures
        candidates_view(r@) == fixed_candidates(*env),
{
    let mut out: Vec<(Vec<String>, String)> = Vec::new();
    match &env.shiro_zk_root {
        Some(r) => {
            let t = trimmed(chars_of(r.as_str()).as_slice());
            if t.len() > 0 {
                let mut p: Vec<String> = Vec::new();
                p.push(string_of(t.as_slice()));
                assert(strings_view(p@) =~= seq![trim(r@)]);
                out.push((p, owned("Shiro")));
            }
        },
        None => {},
    }
    let ghost c1 = candidates_view(out@);
    match &env.appdata {
        Some(d) => {
            assert(seq![d@] + seq!["info.zero-k.shiro"@, "zk"@] =~= seq![d@, "info.zero-k.shiro"@, "zk"@]);
            out.push((path3(d.as_str(), "info.zero-k.shiro", "zk"), owned("Shiro's managed install")));
        },
        None => {},
    }
    assert(candidates_view(out@) =~= c1 + named(opt_view(env.appdata), seq!["info.zero-k.shiro"@, "zk"@], "Shiro's managed install"@));
    let ghost c2 = candidates_view(out@);
    match &env.local_appdata {
        Some(d) => {
            assert(seq![d@] + seq!["Programs"@, "Zero-K"@] =~= seq![d@, "Programs"@, "Zero-K"@]);
            out.push((path3(d.as_str(), "Programs", "Zero-K"), owned("Zero-K installer")));
        },
        None => {},
    }
    assert(candidates_view(out@) =~= c2 + named(opt_view(env.local_appdata), seq!["Programs"@, "Zero-K"@], "Zero-K installer"@));
    let ghost c3 = candidates_view(out@);
    match home_dir(env) {
        Some(h) => {
            assert(seq![h@] + seq!["Zero-K"@] =~= seq![h@, "Zero-K"@]);
            assert(seq![h@] + seq![".config/spring"@] =~= seq![h@, ".config/spring"@]);
            assert(seq![h@] + seq![".spring"@] =~= seq![h@, ".spring"@]);
            out.push((path2(h.as_str(), "Zero-K"), owned("home directory")));
            assert(candidates_view(out@) =~= c3.push((seq![h@, "Zero-K"@], "home directory"@)));
            out.push((path2(h.as_str(), ".config/spring"), owned("Spring data directory")));
            assert(candidates_view(out@) =~= c3.push((seq![h@, "Zero-K"@], "home directory"@)).push(
                (seq![h@, ".config/spring"@], "Spring data directory"@),
            ));
            out.push((path2(h.as_str(), ".spring"), owned("Spring data directory")));
            assert(candidates_view(out@) =~= c3.push((seq![h@, "Zero-K"@], "home directory"@)).push(
                (seq![h@, ".config/spring"@], "Spring data directory"@),
            ).push((seq![h@, ".spring"@], "Spring data directory"@)));
        },
        None => {},
    }
    assert(candidates_view(out@) =~= c3 + named(spec_home(*env), seq!["Zero-K"@], "home directory"@) + named(
        spec_home(*env),
        seq![".config/spring"@],
        "Spring data directory"@,
    ) + named(spec_home(*env), seq![".spring"@], "Spring data directory"@));
    assert(candidates_view(out@) =~= fixed_candidates(*env));
    out
}

/// Every place a Zero-K data directory plausibly lives, in the order they
/// are probed; the first that looks like one wins. `vdfs` holds, for each of
/// [`steam_roots`] in turn, the text of its `steamapps/libraryfolders.vdf`
/// where that could be read.
pub fn candidates(env: &Environment, vdfs: &[Option<String>]) -> (r: Vec<(Vec<String>, String)>)
    requires
        vdfs@.len() == spec_steam_roots(*env).len(),
    ensures
        candidates_view(r@) == spec_candidates(*env, vdfs@.map_values(|o: Option<String>| opt_view(o))),
{
    let ghost vv = vdfs@.map_values(|o: Option<String>| opt_view(o));
    let mut out = fixed(env);
    let roots = steam_roots(env);
    let ghost rv = spec_steam_roots(*env);
    let ghost head = candidates_view(out@);
    assert(head =~= fixed_candidates(*env));
    let mut i: usize = 0;
    while i < roots.len()
        invariant
            roots@.map_values(|p: Vec<String>| strings_view(p@)) == rv,
            rv == spec_steam_roots(*env),
            vdfs@.len() == rv.len(),
            vv == vdfs@.map_values(|o: Option<String>| opt_view(o)),
            i <= roots@.len(),
            candidates_view(out@) == head + steam_candidates(rv, vv, i as int),
        decreases roots.len() - i,
    {
        assert(rv[i as int] == strings_view(roots@[i as int]@));
        let ghost before = candidates_view(out@);
        out.push(zk_under(&roots[i]));
        assert(candidates_view(out@) =~= before + seq![zk_in_library(rv[i as int])]);
        let ghost mid = candidates_view(out@);
        match &vdfs[i] {
            Some(text) => {
                assert(vv[i as int] == Some(text@));
                let libs = parse_library_folders(text.as_str());
                let ghost lv = spec_library_folders(text@);
                let mut k: usize = 0;
                while k < libs.len()
                    invariant
                        strings_view(libs@) == lv,
                        k <= libs@.len(),
                        candidates_view(out@) == mid + lv.take(k as int).map_values(
                            |p: Seq<char>| zk_in_library(seq![p]),
                        ),
                    decreases libs.len() - k,
                {
                    let mut one: Vec<String> = Vec::new();
                    one.push(owned(libs[k].as_str()));
                    assert(strings_view(one@) =~= seq![lv[k as int]]);
                    let ghost b2 = candidates_view(out@);
                    out.push(zk_under(&one));
                    assert(candidates_view(out@) =~= b2.push(zk_in_library(seq![lv[k as int]])));
                    assert(lv.take(k + 1).map_values(|p: Seq<char>| zk_in_library(seq![p])) =~= lv.take(
                        k as int,
                    ).map_values(|p: Seq<char>| zk_in_library(seq![p])).push(zk_in_library(seq![lv[k as int]])));
                    k = k + 1;
                    assert(candidates_view(out@) =~= mid + lv.take(k as int).map_values(
                        |p: Seq<char>| zk_in_library(seq![p]),
                    ));
                }
                assert(lv.take(libs@.len() as int) =~= lv);
            },
            None => {
                assert(vv[i as int] is None);
            },
        }
        i = i + 1;
        assert(candidates_view(out@) =~= head + steam_candidates(rv, vv, i as int));
    }
    assert(candidates_view(out@) =~= spec_candidates(*env, vv));
    out
}

// ------------------------------------------------------------- detection ---

/// The root a setting names, where it names one: the typed path trimmed,
/// and nothing where only blanks were typed.
pub open spec fn spec_override_root(o: Option<Seq<char>>) -> Option<Seq<char>> {
    match o {
        Some(r) => if trim(r).len() > 0 {
            Some(trim(r))
        } else {
            None
        },
        None => None,
    }
}

/// The root a setting names, if it names one, for the caller to probe.
pub fn override_root(typed: Option<&str>) -> (r: Option<String>)
    ensures
        opt_view(r) == spec_override_root(
            match typed {
                Some(s) => Some(s@),
                None => None,
            },
        ),
{
    match typed {
        Some(s) => {
            let t = trimmed(chars_of(s).as_slice());
            if t.len() > 0 {
                Some(string_of(t.as_slice()))
            } else {
                None
            }
        },
        None => None,
    }
}

pub open spec fn not_an_install_message(root: Seq<char>) -> Seq<char> {
    root + " is not a Zero-K installation - no engine/ with games, maps or pool beside it."@
}

/// What a path typed into settings comes to, given whether the trimmed path
/// looks like a Zero-K data directory: it is checked like any other
/// candidate rather than trusted, so a typo is told it is not a Zero-K
/// folder instead of failing later at the engine. `None` when no path was
/// typed, and detection decides.
pub fn detect_with(override_root: Option<&str>, looks_like_root: bool) -> (r: Option<
    Result<Install, String>,
>)
    ensures
        match spec_override_root(
            match override_root {
                Some(s) => Some(s@),
                None => None,
            },
        ) {
            Some(root) => match r {
                Some(Ok(i)) => looks_like_root && i.root@ == root && i.source@ == "settings"@,
                Some(Err(e)) => !looks_like_root && e@ == not_an_install_message(root),
                None => false,
            },
            None => r is None,
        },
{
    match crate::install::override_root(override_root) {
        Some(root) => {
            if looks_like_root {
                Some(Ok(Install { root, source: owned("settings") }))
            } else {
                Some(
                    Err(
                        concat(
                            root.as_str(),
                            " is not a Zero-K installation - no engine/ with games, maps or pool beside it.",
                        ),
                    ),
                )
            }
        },
        None => None,
    }
}

/// The probed paths as the message lists them, one to a line.
pub open spec fn looked_in(probed: Seq<(Seq<char>, Seq<char>)>, n: int) -> Seq<char>
    decreases n,
{
    if n <= 0 || n > probed.len() {
        Seq::empty()
    } else if n == 1 {
        "  "@ + probed[0].0
    } else {
        looked_in(probed, n - 1) + "\n  "@ + probed[n - 1].0
    }
}

/// The first probed path that looked like an install, from `i` on.
pub open spec fn first_hit(looks: Seq<bool>, i: int) -> Option<int>
    decreases looks.len() - i,
{
    if i < 0 || i >= looks.len() {
        None
    } else if looks[i] {
        Some(i)
    } else {
        first_hit(looks, i + 1)
    }
}

pub open spec fn probed_view(v: Seq<(String, String)>) -> Seq<(Seq<char>, Seq<char>)> {
    v.map_values(|p: (String, String)| (p.0@, p.1@))
}

/// Which install detection settles on, given each candidate as the path
/// was written out and how it was found, and whether each looked like a
/// Zero-K data directory: the first that did, or a list of everywhere that
/// was looked.
pub fn detect(probed: &[(String, String)], looks: &[bool]) -> (r: Result<Install, String>)
    requires
        looks@.len() == probed@.len(),
    ensures
        match first_hit(looks@, 0) {
            Some(i) => r matches Ok(found) && found.root@ == probed@[i].0@ && found.source@
                == probed@[i].1@,
            None => r matches Err(e) && e@ == "No Zero-K installation found. Looked in:\n"@
                + looked_in(probed_view(probed@), probed@.len() as int),
        },
{
    let mut i: usize = 0;
    while i < probed.len()
        invariant
            looks@.len() == probed@.len(),
            i <= probed@.len(),
            first_hit(looks@, 0) == first_hit(looks@, i as int),
        decreases probed.len() - i,
    {
        if looks[i] {
            return Ok(Install { root: owned(probed[i].0.as_str()), source: owned(probed[i].1.as_str()) });
        }
        i = i + 1;
    }
    let ghost pv = probed_view(probed@);
    let mut listed = String::new();
    let mut k: usize = 0;
    while k < probed.len()
        invariant
            pv == probed_view(probed@),
            k <= probed@.len(),
            listed@ == looked_in(pv, k as int),
        decreases probed.len() - k,
    {
        assert(pv[k as int] == (probed@[k as int].0@, probed@[k as int].1@));
        if k == 0 {
            listed = concat("  ", probed[k].0.as_str());
        } else {
            let line = concat("\n  ", probed[k].0.as_str());
            listed = concat(listed.as_str(), line.as_str());
            assert(listed@ =~= looked_in(pv, k as int) + "\n  "@ + pv[k as int].0);
        }
        k = k + 1;
    }
    Err(concat("No Zero-K installation found. Looked in:\n", listed.as_str()))
}

// ---------------------------------------------------------------- engine ---

/// Where the engine binary for `version` may be, in the order Zero-K's
/// layouts have used: under the platform folder, directly under `engine/`,
/// and under the platform folder's `bin/`.
pub open spec fn spec_engine_candidates(root: Seq<char>, version: Seq<char>, p: Platform) -> Seq<
    Seq<Seq<char>>,
> {
    seq![
        seq![root, "engine"@, spec_engine_platform(p), version, spec_engine_exe(p)],
        seq![root, "engine"@, version, spec_engine_exe(p)],
        seq![root, "engine"@, spec_engine_platform(p), version, "bin"@, spec_engine_exe(p)],
    ]
}

fn path_of(a: &str, b: &str, c: &str, d: &str, e: Option<&str>) -> (r: Vec<String>)
    ensures
        strings_view(r@) == match e {
            Some(x) => seq![a@, b@, c@, d@, x@],
            None => seq![a@, b@, c@, d@],
        },
{
    let mut v: Vec<String> = Vec::new();
    v.push(owned(a));
    v.push(owned(b));
    v.push(owned(c));
    v.push(owned(d));
    match e {
        Some(x) => {
            v.push(owned(x));
        },
        None => {},
    }
    assert(strings_view(v@) =~= match e {
        Some(x) => seq![a@, b@, c@, d@, x@],
        None => seq![a@, b@, c@, d@],
    });
    v
}

/// Where the engine binary for `version` should be. The server names an
/// engine by a bare version string and Zero-K names the directory with
/// exactly that string, so no normalisation is needed.
pub fn engine_candidates(root: &str, version: &str, p: Platform) -> (r: Vec<Vec<String>>)
    ensures
        r@.map_values(|c: Vec<String>| strings_view(c@)) == spec_engine_candidates(root@, version@, p),
{
    let plat = engine_platform(p);
    let exe = engine_exe(p);
    let ghost want = spec_engine_candidates(root@, version@, p);
    let mut out: Vec<Vec<String>> = Vec::new();
    out.push(path_of(root, "engine", plat, version, Some(exe)));
    out.push(path_of(root, "engine", version, exe, None));
    let mut third = path_of(root, "engine", plat, version, Some("bin"));
    let ghost before = strings_view(third@);
    third.push(owned(exe));
    assert(strings_view(third@) =~= before.push(exe@));
    assert(strings_view(third@) =~= want[2]);
    assert(strings_view(out@[0]@) =~= want[0]);
    assert(strings_view(out@[1]@) =~= want[1]);
    out.push(third);
    assert(out@.map_values(|c: Vec<String>| strings_view(c@)) =~= want);
    out
}

pub open spec fn engine_missing_message(root: Seq<char>, version: Seq<char>) -> Seq<char> {
    "Zero-K is installed at "@ + root + " but engine "@ + version
        + " is not. Start that game once in the official lobby to download the engine, then try again."@
}

/// The engine binary, given each of [`engine_candidates`] written out and
/// whether a file is there: the first that is, or a sentence naming the
/// version that is missing rather than a bare "not found".
pub fn find_engine(root: &str, version: &str, candidates: &[String], present: &[bool]) -> (r: Result<
    String,
    String,
>)
    requires
        present@.len() == candidates@.len(),
    ensures
        match first_hit(present@, 0) {
            Some(i) => r matches Ok(path) && path@ == candidates@[i]@,
            None => r matches Err(e) && e@ == engine_missing_message(root@, version@),
        },
{
    let mut i: usize = 0;
    while i < candidates.len()
        invariant
            present@.len() == candidates@.len(),
            i <= candidates@.len(),
            first_hit(present@, 0) == first_hit(present@, i as int),
        decreases candidates.len() - i,
    {
        if present[i] {
            return Ok(owned(candidates[i].as_str()));
        }
        i = i + 1;
    }
    let a = concat("Zero-K is installed at ", root);
    let b = concat(a.as_str(), " but engine ");
    let c = concat(b.as_str(), version);
    Err(
        concat(
            c.as_str(),
            " is not. Start that game once in the official lobby to download the engine, then try again.",
        ),
    )
}

/// Among the candidates `c`, (`path`, `src`) is offered.
pub open spec fn offers(c: Seq<(Seq<Seq<char>>, Seq<char>)>, path: Seq<Seq<char>>, src: Seq<char>) -> bool {
    exists|k: int| 0 <= k < c.len() && #[trigger] c[k] == (path, src)
}

/// Every candidate of `c` that comes from `src` is one of `paths`.
pub open spec fn only_among(
    c: Seq<(Seq<Seq<char>>, Seq<char>)>,
    src: Seq<char>,
    paths: Seq<Seq<Seq<char>>>,
) -> bool {
    forall|k: int| 0 <= k < c.len() && (#[trigger] c[k]).1 == src ==> paths.contains(c[k].0)
}

proof fn lemma_offers_cat(
    a: Seq<(Seq<Seq<char>>, Seq<char>)>,
    b: Seq<(Seq<Seq<char>>, Seq<char>)>,
    path: Seq<Seq<char>>,
    src: Seq<char>,
)
    requires
        offers(a, path, src) || offers(b, path, src),
    ensures
        offers(a + b, path, src),
{
    if offers(a, path, src) {
        let k = choose|k: int| 0 <= k < a.len() && #[trigger] a[k] == (path, src);
        assert((a + b)[k] == a[k]);
    } else {
        let k = choose|k: int| 0 <= k < b.len() && #[trigger] b[k] == (path, src);
        assert((a + b)[a.len() + k] == b[k]);
    }
}

proof fn lemma_only_cat(
    a: Seq<(Seq<Seq<char>>, Seq<char>)>,
    b: Seq<(Seq<Seq<char>>, Seq<char>)>,
    src: Seq<char>,
    paths: Seq<Seq<Seq<char>>>,
)
    requires
        only_among(a, src, paths),
        only_among(b, src, paths),
    ensures
        only_among(a + b, src, paths),
{
    assert forall|k: int| 0 <= k < (a + b).len() && (#[trigger] (a + b)[k]).1 == src implies paths.contains(
        (a + b)[k].0,
    ) by {
        if k < a.len() {
            assert((a + b)[k] == a[k]);
        } else {
            assert((a + b)[k] == b[k - a.len()]);
        }
    }
}

/// The six blocks of fixed candidates, each kept or dropped whole.
proof fn lemma_only_six(
    b1: Seq<(Seq<Seq<char>>, Seq<char>)>,
    b2: Seq<(Seq<Seq<char>>, Seq<char>)>,
    b3: Seq<(Seq<Seq<char>>, Seq<char>)>,
    b4: Seq<(Seq<Seq<char>>, Seq<char>)>,
    b5: Seq<(Seq<Seq<char>>, Seq<char>)>,
    b6: Seq<(Seq<Seq<char>>, Seq<char>)>,
    b7: Seq<(Seq<Seq<char>>, Seq<char>)>,
    src: Seq<char>,
    paths: Seq<Seq<Seq<char>>>,
)
    requires
        only_among(b1, src, paths),
        only_among(b2, src, paths),
        only_among(b3, src, paths),
        only_among(b4, src, paths),
        only_among(b5, src, paths),
        only_among(b6, src, paths),
        only_among(b7, src, paths),
    ensures
        only_among(b1 + b2 + b3 + b4 + b5 + b6 + b7, src, paths),
{
    lemma_only_cat(b1, b2, src, paths);
    lemma_only_cat(b1 + b2, b3, src, paths);
    lemma_only_cat(b1 + b2 + b3, b4, src, paths);
    lemma_only_cat(b1 + b2 + b3 + b4, b5, src, paths);
    lemma_only_cat(b1 + b2 + b3 + b4 + b5, b6, src, paths);
    lemma_only_cat(b1 + b2 + b3 + b4 + b5 + b6, b7, src, paths);
}

proof fn lemma_offers_in(
    b1: Seq<(Seq<Seq<char>>, Seq<char>)>,
    b2: Seq<(Seq<Seq<char>>, Seq<char>)>,
    b3: Seq<(Seq<Seq<char>>, Seq<char>)>,
    b4: Seq<(Seq<Seq<char>>, Seq<char>)>,
    b5: Seq<(Seq<Seq<char>>, Seq<char>)>,
    b6: Seq<(Seq<Seq<char>>, Seq<char>)>,
    b7: Seq<(Seq<Seq<char>>, Seq<char>)>,
    path: Seq<Seq<char>>,
    src: Seq<char>,
)
    requires
        offers(b1, path, src) || offers(b2, path, src) || offers(b3, path, src) || offers(b4, path, src) || offers(
            b5,
            path,
            src,
        ) || offers(b6, path, src),
    ensures
        offers(b1 + b2 + b3 + b4 + b5 + b6 + b7, path, src),
{
    if offers(b1, path, src) || offers(b2, path, src) {
        lemma_offers_cat(b1, b2, path, src);
    }
    if offers(b1 + b2, path, src) || offers(b3, path, src) {
        lemma_offers_cat(b1 + b2, b3, path, src);
    }
    if offers(b1 + b2 + b3, path, src) || offers(b4, path, src) {
        lemma_offers_cat(b1 + b2 + b3, b4, path, src);
    }
    if offers(b1 + b2 + b3 + b4, path, src) || offers(b5, path, src) {
        lemma_offers_cat(b1 + b2 + b3 + b4, b5, path, src);
    }
    if offers(b1 + b2 + b3 + b4 + b5, path, src) || offers(b6, path, src) {
        lemma_offers_cat(b1 + b2 + b3 + b4 + b5, b6, path, src);
    }
    lemma_offers_cat(b1 + b2 + b3 + b4 + b5 + b6, b7, path, src);
}

/// The Zero-K folder inside a Steam library.
pub open spec fn steam_tail() -> Seq<Seq<char>> {
    seq!["steamapps"@, "common"@, "Zero-K"@]
}

/// Every Steam candidate is a library's Zero-K folder.
proof fn lemma_steam_shape(roots: Seq<Seq<Seq<char>>>, vdfs: Seq<Option<Seq<char>>>, n: int)
    ensures
        forall|k: int|
            0 <= k < steam_candidates(roots, vdfs, n).len() ==> {
                let x = #[trigger] steam_candidates(roots, vdfs, n)[k];
                &&& x.1 == "Steam"@
                &&& x.0.len() >= 3
                &&& x.0.subrange(x.0.len() - 3, x.0.len() as int) == steam_tail()
            },
    decreases n,
{
    if n > 0 && n <= roots.len() {
        lemma_steam_shape(roots, vdfs, n - 1);
        let before = steam_candidates(roots, vdfs, n - 1);
        let own = seq![zk_in_library(roots[n - 1])];
        let listed = match vdfs[n - 1] {
            Some(t) => spec_library_folders(t).map_values(|p: Seq<char>| zk_in_library(seq![p])),
            None => Seq::empty(),
        };
        let now = steam_candidates(roots, vdfs, n);
        assert(now == before + own + listed);
        assert forall|k: int| 0 <= k < now.len() implies {
            let x = #[trigger] now[k];
            &&& x.1 == "Steam"@
            &&& x.0.len() >= 3
            &&& x.0.subrange(x.0.len() - 3, x.0.len() as int) == steam_tail()
        } by {
            let x = now[k];
            if k < before.len() {
                assert(x == before[k]);
            } else {
                let lib = if k == before.len() {
                    assert(x == own[0]);
                    roots[n - 1]
                } else {
                    let q = k - before.len() - 1;
                    assert(x == listed[q]);
                    seq![spec_library_folders(vdfs[n - 1]->0)[q]]
                };
                assert(x == zk_in_library(lib));
                assert(x.0.subrange(x.0.len() - 3, x.0.len() as int) =~= steam_tail());
            }
        }
    }
}

/// Where Zero-K is looked for, by who says it lives there: the directory
/// Shiro hands over, when it names one; Shiro's managed install under
/// `APPDATA`; the standalone installer's default, `LOCALAPPDATA` then
/// `Programs` then `Zero-K`; `Zero-K` in the home directory (`USERPROFILE`,
/// else `HOME`); Spring's two data directories there; and each place
/// offered only when the variable it comes from is set. Whatever Steam
/// adds is a library's `steamapps/common/Zero-K`.
#[verifier::spinoff_prover]
#[verifier::rlimit(60)]
pub proof fn law_where_zero_k_is_looked_for(env: Environment, vdfs: Seq<Option<Seq<char>>>)
    ensures
        ({
            let c = spec_candidates(env, vdfs);
            let home = match env.user_profile {
                Some(u) => Some(u@),
                None => match env.home {
                    Some(h) => Some(h@),
                    None => None,
                },
            };
            &&& match env.shiro_zk_root {
                Some(r) if trim(r@).len() > 0 => offers(c, seq![trim(r@)], "Shiro"@) && only_among(
                    c,
                    "Shiro"@,
                    seq![seq![trim(r@)]],
                ),
                _ => only_among(c, "Shiro"@, Seq::empty()),
            }
            &&& match env.appdata {
                Some(a) => offers(c, seq![a@, "info.zero-k.shiro"@, "zk"@], "Shiro's managed install"@)
                    && only_among(c, "Shiro's managed install"@, seq![seq![a@, "info.zero-k.shiro"@, "zk"@]]),
                None => only_among(c, "Shiro's managed install"@, Seq::empty()),
            }
            &&& match env.local_appdata {
                Some(l) => offers(c, seq![l@, "Programs"@, "Zero-K"@], "Zero-K installer"@) && only_among(
                    c,
                    "Zero-K installer"@,
                    seq![seq![l@, "Programs"@, "Zero-K"@]],
                ),
                None => only_among(c, "Zero-K installer"@, Seq::empty()),
            }
            &&& match home {
                Some(h) => {
                    &&& offers(c, seq![h, "Zero-K"@], "home directory"@)
                    &&& only_among(c, "home directory"@, seq![seq![h, "Zero-K"@]])
                    &&& offers(c, seq![h, ".config/spring"@], "Spring data directory"@)
                    &&& offers(c, seq![h, ".spring"@], "Spring data directory"@)
                    &&& only_among(
                        c,
                        "Spring data directory"@,
                        seq![seq![h, ".config/spring"@], seq![h, ".spring"@]],
                    )
                },
                None => only_among(c, "home directory"@, Seq::empty()) && only_among(
                    c,
                    "Spring data directory"@,
                    Seq::empty(),
                ),
            }
            &&& forall|k: int|
                0 <= k < c.len() && (#[trigger] c[k]).1 == "Steam"@ ==> c[k].0.len() >= 3 && c[k].0.subrange(
                    c[k].0.len() - 3,
                    c[k].0.len() as int,
                ) == seq!["steamapps"@, "common"@, "Zero-K"@]
        }),
{
    reveal_strlit("Shiro");
    reveal_strlit("Shiro's managed install");
    reveal_strlit("Zero-K installer");
    reveal_strlit("home directory");
    reveal_strlit("Spring data directory");
    reveal_strlit("Steam");
    let s1 = "Shiro"@;
    let s2 = "Shiro's managed install"@;
    let s3 = "Zero-K installer"@;
    let s4 = "home directory"@;
    let s5 = "Spring data directory"@;
    let st = "Steam"@;
    assert(s1.len() == 5 && s2.len() == 23 && s3.len() == 16 && s4.len() == 14 && s5.len() == 21 && st.len() == 5);
    assert(s1 != st) by {
        assert(s1[1] != st[1]);
    }
    let hv = spec_home(env);
    let handed = match env.shiro_zk_root {
        Some(r) => if trim(r@).len() > 0 {
            seq![(seq![trim(r@)], s1)]
        } else {
            Seq::empty()
        },
        None => Seq::empty(),
    };
    let b2 = named(opt_view(env.appdata), seq!["info.zero-k.shiro"@, "zk"@], s2);
    let b3 = named(opt_view(env.local_appdata), seq!["Programs"@, "Zero-K"@], s3);
    let b4 = named(hv, seq!["Zero-K"@], s4);
    let b5 = named(hv, seq![".config/spring"@], s5);
    let b6 = named(hv, seq![".spring"@], s5);
    let roots = spec_steam_roots(env);
    let b7 = steam_candidates(roots, vdfs, roots.len() as int);
    let c = spec_candidates(env, vdfs);
    assert(c == handed + b2 + b3 + b4 + b5 + b6 + b7);
    lemma_steam_shape(roots, vdfs, roots.len() as int);
    let srcs = seq![s1, s2, s3, s4, s5];
    assert forall|i: int| 0 <= i < 5 implies #[trigger] srcs[i] != st by {}
    // Steam's candidates come from no other source.
    assert forall|i: int, paths: Seq<Seq<Seq<char>>>| 0 <= i < 5 implies #[trigger] only_among(
        b7,
        srcs[i],
        paths,
    ) by {
        assert forall|k: int| 0 <= k < b7.len() && (#[trigger] b7[k]).1 == srcs[i] implies paths.contains(
            b7[k].0,
        ) by {
            assert(b7[k].1 == st);
        }
    }
    assert(srcs[0] == s1 && srcs[1] == s2 && srcs[2] == s3 && srcs[3] == s4 && srcs[4] == s5);
    // The Steam tail.
    assert forall|k: int| 0 <= k < c.len() && (#[trigger] c[k]).1 == st implies c[k].0.len() >= 3
        && c[k].0.subrange(c[k].0.len() - 3, c[k].0.len() as int) == steam_tail() by {
        let f = handed + b2 + b3 + b4 + b5 + b6;
        if k < f.len() {
            assert(c[k] == f[k]);
            assert(only_among(handed, st, Seq::empty()));
            assert(only_among(b2, st, Seq::empty()));
            assert(only_among(b3, st, Seq::empty()));
            assert(only_among(b4, st, Seq::empty()));
            assert(only_among(b5, st, Seq::empty()));
            assert(only_among(b6, st, Seq::empty()));
            lemma_only_cat(handed, b2, st, Seq::empty());
            lemma_only_cat(handed + b2, b3, st, Seq::empty());
            lemma_only_cat(handed + b2 + b3, b4, st, Seq::empty());
            lemma_only_cat(handed + b2 + b3 + b4, b5, st, Seq::empty());
            lemma_only_cat(handed + b2 + b3 + b4 + b5, b6, st, Seq::empty());
            assert(!Seq::<Seq<Seq<char>>>::empty().contains(f[k].0));
        } else {
            assert(c[k] == b7[k - f.len()]);
        }
    }
    // Shiro's hand-over.
    match env.shiro_zk_root {
        Some(r) if trim(r@).len() > 0 => {
            let p = seq![seq![trim(r@)]];
            assert(handed[0] == (seq![trim(r@)], s1));
            assert(offers(handed, seq![trim(r@)], s1));
            lemma_offers_in(handed, b2, b3, b4, b5, b6, b7, seq![trim(r@)], s1);
            assert(p.contains(seq![trim(r@)])) by { assert(p[0] == seq![trim(r@)]); }
            lemma_only_six(handed, b2, b3, b4, b5, b6, b7, s1, p);
        },
        _ => {
            lemma_only_six(handed, b2, b3, b4, b5, b6, b7, s1, Seq::empty());
        },
    }
    // Shiro's managed install.
    match env.appdata {
        Some(a) => {
            let path = seq![a@, "info.zero-k.shiro"@, "zk"@];
            let p = seq![path];
            assert(b2[0] == (path, s2)) by { assert(seq![a@] + seq!["info.zero-k.shiro"@, "zk"@] =~= path); }
            lemma_offers_in(handed, b2, b3, b4, b5, b6, b7, path, s2);
            assert(p.contains(path)) by { assert(p[0] == path); }
            lemma_only_six(handed, b2, b3, b4, b5, b6, b7, s2, p);
        },
        None => {
            lemma_only_six(handed, b2, b3, b4, b5, b6, b7, s2, Seq::empty());
        },
    }
    // The installer's default.
    match env.local_appdata {
        Some(l) => {
            let path = seq![l@, "Programs"@, "Zero-K"@];
            let p = seq![path];
            assert(b3[0] == (path, s3)) by { assert(seq![l@] + seq!["Programs"@, "Zero-K"@] =~= path); }
            lemma_offers_in(handed, b2, b3, b4, b5, b6, b7, path, s3);
            assert(p.contains(path)) by { assert(p[0] == path); }
            lemma_only_six(handed, b2, b3, b4, b5, b6, b7, s3, p);
        },
        None => {
            lemma_only_six(handed, b2, b3, b4, b5, b6, b7, s3, Seq::empty());
        },
    }
    // The home directory and Spring's.
    match hv {
        Some(h) => {
            let p4 = seq![h, "Zero-K"@];
            let pa = seq![h, ".config/spring"@];
            let pb = seq![h, ".spring"@];
            assert(b4[0] == (p4, s4)) by { assert(seq![h] + seq!["Zero-K"@] =~= p4); }
            assert(b5[0] == (pa, s5)) by { assert(seq![h] + seq![".config/spring"@] =~= pa); }
            assert(b6[0] == (pb, s5)) by { assert(seq![h] + seq![".spring"@] =~= pb); }
            lemma_offers_in(handed, b2, b3, b4, b5, b6, b7, p4, s4);
            lemma_offers_in(handed, b2, b3, b4, b5, b6, b7, pa, s5);
            lemma_offers_in(handed, b2, b3, b4, b5, b6, b7, pb, s5);
            let q4 = seq![p4];
            let q5 = seq![pa, pb];
            assert(q4.contains(p4)) by { assert(q4[0] == p4); }
            assert(q5.contains(pa) && q5.contains(pb)) by { assert(q5[0] == pa && q5[1] == pb); }
            lemma_only_six(handed, b2, b3, b4, b5, b6, b7, s4, q4);
            lemma_only_six(handed, b2, b3, b4, b5, b6, b7, s5, q5);
        },
        None => {
            lemma_only_six(handed, b2, b3, b4, b5, b6, b7, s4, Seq::empty());
            lemma_only_six(handed, b2, b3, b4, b5, b6, b7, s5, Seq::empty());
        },
    }
}

proof fn lemma_steam_offers(roots: Seq<Seq<Seq<char>>>, vdfs: Seq<Option<Seq<char>>>, n: int)
    requires
        0 <= n <= roots.len(),
    ensures
        forall|k: int|
            0 <= k < n ==> offers(steam_candidates(roots, vdfs, n), #[trigger] roots[k] + steam_tail(), "Steam"@),
    decreases n,
{
    if n > 0 {
        lemma_steam_offers(roots, vdfs, n - 1);
        let before = steam_candidates(roots, vdfs, n - 1);
        let own = seq![zk_in_library(roots[n - 1])];
        let listed = match vdfs[n - 1] {
            Some(t) => spec_library_folders(t).map_values(|p: Seq<char>| zk_in_library(seq![p])),
            None => Seq::empty(),
        };
        assert(steam_candidates(roots, vdfs, n) == before + own + listed);
        assert forall|k: int| 0 <= k < n implies offers(
            steam_candidates(roots, vdfs, n),
            #[trigger] roots[k] + steam_tail(),
            "Steam"@,
        ) by {
            if k < n - 1 {
                lemma_offers_cat(before, own, roots[k] + steam_tail(), "Steam"@);
            } else {
                assert(own[0] == (roots[k] + steam_tail(), "Steam"@));
                lemma_offers_cat(before, own, roots[k] + steam_tail(), "Steam"@);
            }
            lemma_offers_cat(before + own, listed, roots[k] + steam_tail(), "Steam"@);
        }
    }
}

/// Steam is looked for where it installs - on Windows in `Steam` under
/// `ProgramFiles(x86)` and under `ProgramFiles`; and in the home directory
/// (`USERPROFILE`, else `HOME`) under `.local/share/Steam`, `.steam/steam`
/// and `Library/Application Support/Steam` - and every place Steam is looked
/// for is searched for Zero-K in `steamapps/common/Zero-K`.
pub proof fn law_where_steam_is_looked_for(env: Environment, vdfs: Seq<Option<Seq<char>>>)
    ensures
        ({
            let r = spec_steam_roots(env);
            let home = match env.user_profile {
                Some(u) => Some(u@),
                None => match env.home {
                    Some(h) => Some(h@),
                    None => None,
                },
            };
            &&& env.windows ==> (env.program_files_x86 matches Some(p) ==> r.contains(seq![p@, "Steam"@]))
            &&& env.windows ==> (env.program_files matches Some(p) ==> r.contains(seq![p@, "Steam"@]))
            &&& home matches Some(h) ==> r.contains(seq![h, ".local/share/Steam"@]) && r.contains(
                seq![h, ".steam/steam"@],
            ) && r.contains(seq![h, "Library/Application Support/Steam"@])
            &&& !env.windows ==> forall|k: int| 0 <= k < r.len() ==> home == Some((#[trigger] r[k])[0])
            &&& forall|k: int|
                0 <= k < r.len() ==> offers(
                    spec_candidates(env, vdfs),
                    #[trigger] r[k] + seq!["steamapps"@, "common"@, "Zero-K"@],
                    "Steam"@,
                )
        }),
{
    let r = spec_steam_roots(env);
    let hv = spec_home(env);
    let w = if env.windows {
        under(opt_view(env.program_files_x86), "Steam"@) + under(opt_view(env.program_files), "Steam"@)
    } else {
        Seq::empty()
    };
    let u1 = under(hv, ".local/share/Steam"@);
    let u2 = under(hv, ".steam/steam"@);
    let u3 = under(hv, "Library/Application Support/Steam"@);
    assert(r == w + u1 + u2 + u3);
    if env.windows {
        let a = under(opt_view(env.program_files_x86), "Steam"@);
        let b = under(opt_view(env.program_files), "Steam"@);
        if env.program_files_x86 is Some {
            assert(r[0] == a[0]);
        }
        if env.program_files is Some {
            assert(r[a.len() as int] == b[0]);
        }
    }
    if hv is Some {
        assert(r[w.len() as int] == u1[0]);
        assert(r[w.len() + 1int] == u2[0]);
        assert(r[w.len() + 2int] == u3[0]);
    }
    if !env.windows {
        assert forall|k: int| 0 <= k < r.len() implies hv == Some((#[trigger] r[k])[0]) by {
            if k == 0 {
                assert(r[0] == u1[0]);
            } else if k == 1 {
                assert(r[1] == u2[0]);
            } else {
                assert(r[2] == u3[0]);
            }
        }
    }
    lemma_steam_offers(r, vdfs, r.len() as int);
    let fc = fixed_candidates(env);
    let sc = steam_candidates(r, vdfs, r.len() as int);
    assert(steam_tail() =~= seq!["steamapps"@, "common"@, "Zero-K"@]);
    assert forall|k: int| 0 <= k < r.len() implies offers(
        spec_candidates(env, vdfs),
        #[trigger] r[k] + seq!["steamapps"@, "common"@, "Zero-K"@],
        "Steam"@,
    ) by {
        assert(offers(sc, r[k] + steam_tail(), "Steam"@));
        lemma_offers_cat(fc, sc, r[k] + steam_tail(), "Steam"@);
    }
}

/// The engine binary is `spring.exe` on Windows and `spring` elsewhere, its
/// platform folder `win64`, `osx64` or `linux64`; and it is looked for, in
/// this order, in the versioned folder under the platform's, in the
/// versioned folder alone, and in the `bin` folder under the platform's.
pub proof fn law_where_the_engine_is_looked_for(root: Seq<char>, version: Seq<char>, p: Platform)
    ensures
        ({
            let plat = match p {
                Platform::Windows => "win64"@,
                Platform::Mac => "osx64"@,
                Platform::Linux => "linux64"@,
            };
            let exe = match p {
                Platform::Windows => "spring.exe"@,
                _ => "spring"@,
            };
            &&& spec_engine_platform(p) == plat
            &&& spec_engine_exe(p) == exe
            &&& spec_engine_candidates(root, version, p) == seq![
                seq![root, "engine"@, plat, version, exe],
                seq![root, "engine"@, version, exe],
                seq![root, "engine"@, plat, version, "bin"@, exe],
            ]
        }),
{
}

} // verus!
