//! What the installed Zero-K actually contains.
//!
//! All four answers are on disk already: engine versions are directory names,
//! the game archive's `modinfo.lua` carries the name the engine indexes it
//! under, the roster is `units/*.lua` in that archive, and the AIs are
//! directories. This module holds what reads and decides over those answers;
//! finding the files is the caller's.
//!
//! Everything here degrades rather than fails: a missing archive means an
//! empty list and a sentence saying so, not an error that stops the editor
//! opening. The authority is always the install, never this file.
use crate::lua::{key_char, lemma_find_char, lua_field, lua_number, spec_lua_field, spec_lua_number};
use vstd::string::{StrSliceExecFns, StringExecFns};
use crate::text::{contains, starts_with, text_contains, text_starts_with, chars_of, concat, find, find_char, find_char_from, find_from, is_alphanumeric, lemma_find_from, lower_all, lowercase, occurs_at, owned, same_text, skip_white, string_of, trim, trim_bounds, white_run};
use vstd::prelude::*;

verus! {

/// A game archive the engine would index, and the name it indexes it under.
#[derive(Debug, Clone, PartialEq)]
pub struct GameArchive {
    /// What `GameType` has to be set to. Not the filename.
    pub name: String,
    pub path: String,
}

/// One placeable unit, as the game defines it.
#[derive(Debug, Clone, PartialEq)]
pub struct UnitDef {
    /// The internal name, which is what a start script places.
    pub name: String,
    /// What a player calls it - "Glaive" for `cloakraid`.
    pub title: String,
    pub description: String,
    /// For grouping the palette: the factory that builds it where one does,
    /// and a name-derived group otherwise.
    pub group: String,
}

/// Everything the editor needs to know about the install, in one call.
#[derive(Debug, Clone)]
pub struct GameInfo {
    pub engines: Vec<String>,
    pub games: Vec<GameArchive>,
    pub ais: Vec<String>,
    /// Maps actually on this machine, as opposed to the catalogue's.
    pub maps: Vec<String>,
    /// The defaults the editor should start from, already chosen.
    pub engine: Option<String>,
    pub game: Option<String>,
}

/// The roster, and where it came from: the installed game is authoritative,
/// the vendored copy a pin that may be older than the game on the machine.
#[derive(Debug, Clone)]
pub struct Roster {
    pub source: String,
    pub units: Vec<UnitDef>,
}

// ------------------------------------------------------------ helpers ---

fn chars_range(s: &[char], from: usize, to: usize) -> (r: Vec<char>)
    requires
        from <= to <= s@.len(),
    ensures
        r@ == s@.subrange(from as int, to as int),
{
    let mut r: Vec<char> = Vec::new();
    let mut i = from;
    while i < to
        invariant
            from <= i <= to,
            to <= s@.len(),
            r@ == s@.subrange(from as int, i as int),
        decreases to - i,
    {
        r.push(s[i]);
        i = i + 1;
        assert(r@ =~= s@.subrange(from as int, i as int));
    }
    r
}

/// How many characters from `i` on could belong to a key.
pub open spec fn key_run(s: Seq<char>, i: int) -> int
    decreases s.len() - i,
{
    if 0 <= i < s.len() && key_char(s[i]) {
        1 + key_run(s, i + 1)
    } else {
        0
    }
}

fn key_end(s: &[char], from: usize) -> (r: usize)
    requires
        from <= s@.len(),
    ensures
        r == from + key_run(s@, from as int),
        from <= r <= s@.len(),
{
    let mut i = from;
    while i < s.len() && (is_alphanumeric(s[i]) || s[i] == '_')
        invariant
            from <= i <= s@.len(),
            key_run(s@, from as int) == (i - from) + key_run(s@, i as int),
        decreases s.len() - i,
    {
        i = i + 1;
    }
    i
}

// ---------------------------------------------------------- unit defs ---

/// The internal name a unit definition registers itself under: the key of
/// the table after `return {`, which for one unit in Zero-K is not its
/// filename.
pub open spec fn spec_table_key(src: Seq<char>) -> Option<Seq<char>> {
    match find_from(src, seq!['r', 'e', 't', 'u', 'r', 'n'], 0) {
        None => None,
        Some(p) => {
            let a = p + 6 + white_run(src, p + 6);
            if a >= src.len() || src[a] != '{' {
                None
            } else {
                let b = a + 1 + white_run(src, a + 1);
                let n = key_run(src, b);
                if n > 0 {
                    Some(src.subrange(b, b + n))
                } else {
                    None
                }
            }
        },
    }
}

pub fn table_key(source: &str) -> (r: Option<String>)
    ensures
        match spec_table_key(source@) {
            Some(k) => r matches Some(x) && x@ == k,
            None => r is None,
        },
{
    let src = chars_of(source);
    let ret: [char; 6] = ['r', 'e', 't', 'u', 'r', 'n'];
    assert(ret@ =~= seq!['r', 'e', 't', 'u', 'r', 'n']);
    let p = match find(src.as_slice(), &ret, 0) {
        Some(p) => p,
        None => return None,
    };
    proof {
        lemma_find_from(src@, ret@, 0);
        assert(occurs_at(src@, ret@, p as int));
    }
    assert(p + 6 <= src@.len());
    let a = skip_white(src.as_slice(), p + 6);
    if a >= src.len() || src[a] != '{' {
        return None;
    }
    let b = skip_white(src.as_slice(), a + 1);
    let e = key_end(src.as_slice(), b);
    if e > b {
        Some(string_of(chars_range(src.as_slice(), b, e).as_slice()))
    } else {
        None
    }
}

/// Every `[[name]]` in `body` from `at` on, trimmed, in order.
pub open spec fn bracketed(body: Seq<char>, at: int) -> Seq<Seq<char>>
    decreases body.len() - at,
{
    if at < 0 {
        Seq::empty()
    } else {
        match find_from(body, seq!['[', '['], at) {
            None => Seq::empty(),
            Some(i) => {
                proof {
                    lemma_find_from(body, seq!['[', '['], at);
                    lemma_find_from(body, seq![']', ']'], i + 2);
                }
                match find_from(body, seq![']', ']'], i + 2) {
                    None => Seq::empty(),
                    Some(e) => seq![trim(body.subrange(i + 2, e))] + bracketed(body, e),
                }
            },
        }
    }
}

pub open spec fn buildoptions_word() -> Seq<char> {
    seq!['b', 'u', 'i', 'l', 'd', 'o', 'p', 't', 'i', 'o', 'n', 's']
}

/// The units a definition says it can build: the `[[name]]`s between the
/// braces after `buildoptions`.
pub open spec fn spec_build_options(src: Seq<char>) -> Seq<Seq<char>> {
    match find_from(src, buildoptions_word(), 0) {
        None => Seq::empty(),
        Some(at) => match find_char_from(src, '{', at) {
            None => Seq::empty(),
            Some(open) => match find_char_from(src, '}', open) {
                None => Seq::empty(),
                Some(close) => bracketed(src.subrange(open, close), 0),
            },
        },
    }
}

pub open spec fn strings_view(v: Seq<String>) -> Seq<Seq<char>> {
    v.map_values(|s: String| s@)
}

pub fn build_options(source: &str) -> (r: Vec<String>)
    ensures
        strings_view(r@) == spec_build_options(source@),
{
    let src = chars_of(source);
    let word: [char; 12] = ['b', 'u', 'i', 'l', 'd', 'o', 'p', 't', 'i', 'o', 'n', 's'];
    assert(word@ =~= buildoptions_word());
    let mut out: Vec<String> = Vec::new();
    let at = match find(src.as_slice(), &word, 0) {
        Some(at) => at,
        None => return out,
    };
    proof {
        lemma_find_from(src@, word@, 0);
    }
    let open = match find_char(src.as_slice(), '{', at) {
        Some(o) => o,
        None => return out,
    };
    proof {
        lemma_find_char(src@, '{', at as int);
    }
    let close = match find_char(src.as_slice(), '}', open) {
        Some(c) => c,
        None => return out,
    };
    proof {
        lemma_find_char(src@, '}', open as int);
    }
    let body = chars_range(src.as_slice(), open, close);
    let opening: [char; 2] = ['[', '['];
    let closing: [char; 2] = [']', ']'];
    assert(opening@ =~= seq!['[', '[']);
    assert(closing@ =~= seq![']', ']']);
    assert(bracketed(body@, 0) == spec_build_options(source@));
    let mut pos: usize = 0;
    while pos <= body.len()
        invariant
            pos <= body@.len(),
            bracketed(body@, 0) == spec_build_options(source@),
            opening@ == seq!['[', '['],
            closing@ == seq![']', ']'],
            strings_view(out@) + bracketed(body@, pos as int) == bracketed(body@, 0),
        decreases body.len() - pos,
    {
        let i = match find(body.as_slice(), &opening, pos) {
            Some(i) => i,
            None => {
                assert(out@.len() == strings_view(out@).len());
                assert(strings_view(out@) =~= bracketed(body@, 0));
                return out;
            },
        };
        proof {
            lemma_find_from(body@, opening@, pos as int);
        }
        let start = i + 2;
        let e = match find(body.as_slice(), &closing, start) {
            Some(e) => e,
            None => {
                assert(strings_view(out@) =~= bracketed(body@, 0));
                return out;
            },
        };
        proof {
            lemma_find_from(body@, closing@, start as int);
        }
        let part = vstd::slice::slice_subrange(body.as_slice(), start, e);
        let (a, b) = trim_bounds(part);
        let name = string_of(chars_range(part, a, b).as_slice());
        let ghost before = strings_view(out@);
        out.push(name);
        assert(strings_view(out@) =~= before.push(name@));
        assert(strings_view(out@) + bracketed(body@, e as int) =~= before + bracketed(body@, pos as int));
        pos = e;
    }
    out
}

// ------------------------------------------------------------ archives ---

pub open spec fn ends_with(s: Seq<char>, suffix: Seq<char>) -> bool {
    suffix.len() <= s.len() && s.skip(s.len() - suffix.len()) == suffix
}

pub fn text_ends_with(s: &str, suffix: &str) -> (r: bool)
    ensures
        r == ends_with(s@, suffix@),
{
    let a = chars_of(s);
    let b = chars_of(suffix);
    if b.len() > a.len() {
        return false;
    }
    let off = a.len() - b.len();
    let mut i: usize = 0;
    while i < b.len()
        invariant
            a@ == s@,
            b@ == suffix@,
            off == a@.len() - b@.len(),
            off + b@.len() == a@.len(),
            a@.len() == a.len(),
            i <= b@.len(),
            forall|j: int| 0 <= j < i ==> a@[off + j] == b@[j],
        decreases b.len() - i,
    {
        if a[off + i] != b[i] {
            assert(a@.skip(off as int)[i as int] != b@[i as int]);
            return false;
        }
        i = i + 1;
    }
    assert(a@.skip(off as int) =~= b@);
    true
}

/// The name the engine indexes an archive under: the declared name, with the
/// declared version appended unless the name already ends with it.
pub open spec fn spec_archive_name(modinfo: Seq<char>) -> Option<Seq<char>> {
    match spec_lua_field(modinfo, "name"@) {
        None => None,
        Some(name) => if name.len() == 0 {
            None
        } else {
            match spec_lua_field(modinfo, "version"@) {
                Some(v) => if v.len() > 0 && !ends_with(name, v) {
                    Some(name + seq![' '] + v)
                } else {
                    Some(name)
                },
                None => Some(name),
            }
        },
    }
}

/// The name the engine indexes an archive under, which is what `GameType`
/// has to match exactly: `Zero-K` plus `v1.14.8.0`, but
/// `User Interface Tutorial r22` alone.
pub fn archive_name(modinfo: &str) -> (r: Option<String>)
    ensures
        match spec_archive_name(modinfo@) {
            Some(n) => r matches Some(x) && x@ == n,
            None => r is None,
        },
{
    proof {
        reveal_strlit(" ");
    }
    let name = match lua_field(modinfo, "name") {
        Some(n) => n,
        None => return None,
    };
    if name.as_str().unicode_len() == 0 {
        return None;
    }
    match lua_field(modinfo, "version") {
        Some(version) => {
            if version.as_str().unicode_len() > 0 && !text_ends_with(name.as_str(), version.as_str()) {
                let mut out = concat(name.as_str(), " ");
                out.append(version.as_str());
                Some(out)
            } else {
                Some(name)
            }
        },
        None => Some(name),
    }
}

// ------------------------------------------------------- archive cache ---

/// Where a `"..."` string that opened before `i` ends: at its closing quote,
/// a backslash skipping the character after it.
pub open spec fn quote_end(b: Seq<char>, i: int) -> int
    decreases b.len() + 1 - i,
{
    if i < 0 || i >= b.len() || b[i] == '"' {
        i
    } else if b[i] == '\\' {
        quote_end(b, i + 2)
    } else {
        quote_end(b, i + 1)
    }
}

/// Where a `[[...]]` string that opened before `i` ends: at the first `]` of
/// its `]]`, or at the last character when it never closes.
pub open spec fn long_end(b: Seq<char>, i: int) -> int
    decreases b.len() - i,
{
    if i < 0 || i + 1 >= b.len() || (b[i] == ']' && b[i + 1] == ']') {
        i
    } else {
        long_end(b, i + 1)
    }
}

pub proof fn lemma_quote_end(b: Seq<char>, i: int)
    ensures
        quote_end(b, i) >= i,
        i <= b.len() + 1 ==> quote_end(b, i) <= b.len() + 1,
        0 <= i < b.len() + 2 && quote_end(b, i) < b.len() ==> b[quote_end(b, i)] == '"',
    decreases b.len() + 1 - i,
{
    if 0 <= i < b.len() && b[i] != '"' {
        if b[i] == '\\' {
            lemma_quote_end(b, i + 2);
        } else {
            lemma_quote_end(b, i + 1);
        }
    }
}

pub proof fn lemma_long_end(b: Seq<char>, i: int)
    ensures
        long_end(b, i) >= i,
        i <= b.len() ==> long_end(b, i) <= b.len(),
    decreases b.len() - i,
{
    if 0 <= i && i + 1 < b.len() && !(b[i] == ']' && b[i + 1] == ']') {
        lemma_long_end(b, i + 1);
    }
}

/// Scanning from `i` at brace depth `depth`, where the brace that brings the
/// depth back to zero is - skipping braces inside strings.
pub open spec fn brace_scan(b: Seq<char>, i: int, depth: int) -> Option<int>
    decreases b.len() + 4 - i,
{
    if i < 0 || i >= b.len() {
        None
    } else if b[i] == '"' {
        proof {
            lemma_quote_end(b, i + 1);
        }
        brace_scan(b, quote_end(b, i + 1) + 1, depth)
    } else if b[i] == '[' && i + 1 < b.len() && b[i + 1] == '[' {
        proof {
            lemma_long_end(b, i + 2);
        }
        brace_scan(b, long_end(b, i + 2) + 2, depth)
    } else if b[i] == '{' {
        brace_scan(b, i + 1, depth + 1)
    } else if b[i] == '}' {
        if depth - 1 == 0 {
            Some(i)
        } else {
            brace_scan(b, i + 1, depth - 1)
        }
    } else {
        brace_scan(b, i + 1, depth)
    }
}

/// The closing brace matching the one at `open`, ignoring braces inside
/// `"..."` and `[[...]]` strings: a description is free text, and a brace in
/// one must not end the entry early.
pub open spec fn spec_block_end(b: Seq<char>, open: int) -> Option<int> {
    if 0 <= open < b.len() && b[open] == '{' {
        brace_scan(b, open, 0)
    } else {
        None
    }
}

pub proof fn lemma_brace_scan(b: Seq<char>, i: int, depth: int)
    ensures
        brace_scan(b, i, depth) matches Some(e) ==> i <= e < b.len() && b[e] == '}',
    decreases b.len() + 4 - i,
{
    if 0 <= i < b.len() {
        if b[i] == '"' {
            lemma_quote_end(b, i + 1);
            lemma_brace_scan(b, quote_end(b, i + 1) + 1, depth);
        } else if b[i] == '[' && i + 1 < b.len() && b[i + 1] == '[' {
            lemma_long_end(b, i + 2);
            lemma_brace_scan(b, long_end(b, i + 2) + 2, depth);
        } else if b[i] == '{' {
            lemma_brace_scan(b, i + 1, depth + 1);
        } else if b[i] == '}' {
            if depth - 1 != 0 {
                lemma_brace_scan(b, i + 1, depth - 1);
            }
        } else {
            lemma_brace_scan(b, i + 1, depth);
        }
    }
}

pub fn block_end(s: &[char], open: usize) -> (r: Option<usize>)
    ensures
        match spec_block_end(s@, open as int) {
            Some(e) => r matches Some(x) && x as int == e,
            None => r is None,
        },
        r matches Some(e) ==> open <= e < s@.len(),
{
    if open >= s.len() || s[open] != '{' {
        return None;
    }
    proof {
        lemma_brace_scan(s@, open as int, 0);
    }
    let n = s.len();
    let mut depth: usize = 0;
    let mut i = open;
    while i < n
        invariant
            n == s@.len(),
            open <= i,
            s@[open as int] == '{',
            i > open ==> depth >= 1,
            i == open ==> depth == 0,
            spec_block_end(s@, open as int) == brace_scan(s@, i as int, depth as int),
            depth <= i - open,
        decreases n - i,
    {
        let c = s[i];
        if c == '"' {
            let mut j = i + 1;
            proof {
                lemma_quote_end(s@, j as int);
            }
            while j < n && s[j] != '"'
                invariant
                    i < j,
                    i < n,
                    s@[i as int] == '"',
                    spec_block_end(s@, open as int) == brace_scan(s@, i as int, depth as int),
                    n == s@.len(),
                    quote_end(s@, (i + 1) as int) == quote_end(s@, j as int),
                decreases n - j,
            {
                if s[j] == '\\' {
                    if n - j < 2 {
                        assert(quote_end(s@, j as int) == quote_end(s@, (j + 2) as int));
                        assert(quote_end(s@, (j + 2) as int) == (j + 2) as int);
                        assert(brace_scan(s@, (j + 3) as int, depth as int) is None);
                        assert(brace_scan(s@, i as int, depth as int) == brace_scan(
                            s@,
                            quote_end(s@, (i + 1) as int) + 1,
                            depth as int,
                        ));
                        return None;
                    }
                    j = j + 2;
                } else {
                    j = j + 1;
                }
            }
            if j >= n {
                assert(quote_end(s@, j as int) == j as int);
                assert(brace_scan(s@, (j + 1) as int, depth as int) is None);
                return None;
            }
            assert(quote_end(s@, j as int) == j as int);
            assert(brace_scan(s@, i as int, depth as int) == brace_scan(s@, (j + 1) as int, depth as int));
            i = j + 1;
        } else if c == '[' && n - i >= 2 && s[i + 1] == '[' {
            let mut j = i + 2;
            while j < n && n - j >= 2 && !(s[j] == ']' && s[j + 1] == ']')
                invariant
                    i + 2 <= j,
                    i + 1 < n,
                    s@[i as int] == '[' && s@[i + 1] == '[',
                    spec_block_end(s@, open as int) == brace_scan(s@, i as int, depth as int),
                    n == s@.len(),
                    long_end(s@, (i + 2) as int) == long_end(s@, j as int),
                decreases n - j,
            {
                j = j + 1;
            }
            if j >= n {
                assert(brace_scan(s@, long_end(s@, (i + 2) as int) + 2, depth as int) is None);
                return None;
            }
            if n - j < 2 {
                assert(long_end(s@, j as int) == j);
                assert(brace_scan(s@, j + 2, depth as int) is None);
                return None;
            }
            i = j + 2;
        } else if c == '{' {
            depth = depth + 1;
            i = i + 1;
        } else if c == '}' {
            depth = depth - 1;
            if depth == 0 {
                return Some(i);
            }
            i = i + 1;
        } else {
            i = i + 1;
        }
    }
    None
}

/// What the engine recorded about one archive.
#[derive(Debug, Clone, PartialEq)]
pub struct Cached {
    pub file: String,
    pub name: String,
    pub modtype: i64,
}

pub struct CachedView {
    pub file: Seq<char>,
    pub name: Seq<char>,
    pub modtype: int,
}

impl View for Cached {
    type V = CachedView;

    open spec fn view(&self) -> CachedView {
        CachedView { file: self.file@, name: self.name@, modtype: self.modtype as int }
    }
}

pub open spec fn archivedata_word() -> Seq<char> {
    seq!['a', 'r', 'c', 'h', 'i', 'v', 'e', 'd', 'a', 't', 'a']
}

pub open spec fn archives_word() -> Seq<char> {
    seq!['a', 'r', 'c', 'h', 'i', 'v', 'e', 's']
}

/// One entry of the cache, the text of its braces: the outer `name` is the
/// file, and the `name` inside `archivedata` is what the engine indexes it
/// under. Entries missing either are skipped.
pub open spec fn spec_entry(block: Seq<char>) -> Option<CachedView> {
    match find_from(block, archivedata_word(), 0) {
        None => None,
        Some(i) => match find_char_from(block, '{', i) {
            None => None,
            Some(data_at) => match spec_block_end(block, data_at) {
                None => None,
                Some(data_end) => {
                    let data = block.subrange(data_at, data_end + 1);
                    match (spec_lua_field(block.take(data_at), "name"@), spec_lua_field(data, "name"@)) {
                        (Some(file), Some(name)) => Some(
                            CachedView {
                                file,
                                name,
                                modtype: match spec_lua_number(data, "modtype"@) {
                                    Some(n) => n,
                                    None => -1,
                                },
                            },
                        ),
                        _ => None,
                    }
                },
            },
        },
    }
}

/// The entries between `at` and `close`, each a braced block.
pub open spec fn cache_entries(text: Seq<char>, at: int, close: int) -> Seq<CachedView>
    decreases text.len() + 1 - at,
{
    if at < 0 || at >= close || close > text.len() {
        Seq::empty()
    } else {
        match find_char_from(text.take(close), '{', at) {
            None => Seq::empty(),
            Some(start) => {
                proof {
                    lemma_find_char(text.take(close), '{', at);
                    lemma_brace_scan(text, start, 0);
                }
                match spec_block_end(text, start) {
                    None => Seq::empty(),
                    Some(end) => {
                        let rest = cache_entries(text, end + 1, close);
                        match spec_entry(text.subrange(start, end + 1)) {
                            Some(e) => seq![e] + rest,
                            None => rest,
                        }
                    },
                }
            },
        }
    }
}

/// Every archive an `ArchiveCache<N>.lua` lists, in order.
pub open spec fn spec_read_cache(text: Seq<char>) -> Seq<CachedView> {
    match find_from(text, archives_word(), 0) {
        None => Seq::empty(),
        Some(list) => match find_char_from(text, '{', list) {
            None => Seq::empty(),
            Some(open) => match spec_block_end(text, open) {
                None => Seq::empty(),
                Some(close) => cache_entries(text, open + 1, close),
            },
        },
    }
}

pub open spec fn cached_view(v: Seq<Cached>) -> Seq<CachedView> {
    v.map_values(|c: Cached| c@)
}

fn read_entry(block: &[char]) -> (r: Option<Cached>)
    ensures
        match spec_entry(block@) {
            Some(e) => r matches Some(c) && c@ == e,
            None => r is None,
        },
{
    let word: [char; 11] = ['a', 'r', 'c', 'h', 'i', 'v', 'e', 'd', 'a', 't', 'a'];
    assert(word@ =~= archivedata_word());
    let i = match find(block, &word, 0) {
        Some(i) => i,
        None => return None,
    };
    let data_at = match find_char(block, '{', i) {
        Some(d) => d,
        None => return None,
    };
    proof {
        lemma_find_char(block@, '{', i as int);
    }
    let data_end = match block_end(block, data_at) {
        Some(e) => e,
        None => return None,
    };
    let blen = block.len();
    assert(data_end < blen);
    let head = string_of(chars_range(block, 0, data_at).as_slice());
    assert(head@ =~= block@.take(data_at as int));
    let data = string_of(chars_range(block, data_at, data_end + 1).as_slice());
    let file = match lua_field(head.as_str(), "name") {
        Some(f) => f,
        None => return None,
    };
    let name = match lua_field(data.as_str(), "name") {
        Some(n) => n,
        None => return None,
    };
    let modtype = match lua_number(data.as_str(), "modtype") {
        Some(n) => n,
        None => -1,
    };
    Some(Cached { file, name, modtype })
}

/// Split one `ArchiveCache` into entries, appending them to `out`.
pub fn read_cache(text: &str, out: &mut Vec<Cached>)
    ensures
        cached_view(final(out)@) == cached_view(old(out)@) + spec_read_cache(text@),
{
    let t = chars_of(text);
    let ghost start_view = cached_view(out@);
    let word: [char; 8] = ['a', 'r', 'c', 'h', 'i', 'v', 'e', 's'];
    assert(word@ =~= archives_word());
    let list = match find(t.as_slice(), &word, 0) {
        Some(l) => l,
        None => {
            assert(cached_view(out@) =~= start_view + Seq::<CachedView>::empty());
            return;
        },
    };
    let open = match find_char(t.as_slice(), '{', list) {
        Some(o) => o,
        None => {
            assert(cached_view(out@) =~= start_view + Seq::<CachedView>::empty());
            return;
        },
    };
    let close = match block_end(t.as_slice(), open) {
        Some(c) => c,
        None => {
            assert(cached_view(out@) =~= start_view + Seq::<CachedView>::empty());
            return;
        },
    };
    let ghost whole = spec_read_cache(text@);
    assert(whole == cache_entries(t@, open + 1, close as int));
    let mut at = open + 1;
    while at < close
        invariant
            t@ == text@,
            close < t@.len(),
            open < at,
            at <= t@.len(),
            start_view == cached_view(old(out)@),
            whole == spec_read_cache(text@),
            cached_view(out@) + cache_entries(t@, at as int, close as int) == start_view + whole,
        decreases t@.len() - at,
    {
        let bounded = vstd::slice::slice_subrange(t.as_slice(), 0, close);
        assert(bounded@ =~= t@.take(close as int));
        let start = match find_char(bounded, '{', at) {
            Some(s) => s,
            None => {
                assert(cache_entries(t@, at as int, close as int) =~= Seq::<CachedView>::empty());
                assert(cached_view(out@) =~= start_view + whole);
                return;
            },
        };
        proof {
            lemma_find_char(bounded@, '{', at as int);
        }
        let end = match block_end(t.as_slice(), start) {
            Some(e) => e,
            None => {
                assert(find_char_from(t@.take(close as int), '{', at as int) == Some(start as int));
                assert(cache_entries(t@, at as int, close as int) =~= Seq::<CachedView>::empty());
                assert(cached_view(out@) =~= start_view + whole);
                return;
            },
        };
        let block = vstd::slice::slice_subrange(t.as_slice(), start, end + 1);
        let ghost before = cached_view(out@);
        match read_entry(block) {
            Some(c) => {
                out.push(c);
                assert(cached_view(out@) =~= before.push(c@));
                assert(cached_view(out@) + cache_entries(t@, end + 1, close as int) =~= before
                    + cache_entries(t@, at as int, close as int));
            },
            None => {},
        }
        at = end + 1;
    }
    assert(cache_entries(t@, at as int, close as int) =~= Seq::<CachedView>::empty());
    assert(cached_view(out@) =~= start_view + whole);
}

// --------------------------------------------------------------- units ---

/// Where a builder ranks when it claims a unit for its group: factories
/// first, then their plates, then everything else. Load-bearing: `athena`
/// builds a cross-section of six factories' units and would otherwise take
/// half of one factory's group.
pub open spec fn spec_builder_rank(name: Seq<char>) -> u8 {
    if starts_with(name, "factory"@) {
        0
    } else if starts_with(name, "plate"@) {
        1
    } else {
        2
    }
}

pub fn builder_rank(name: &str) -> (r: u8)
    ensures
        r == spec_builder_rank(name@),
{
    let n = chars_of(name);
    if text_starts_with(n.as_slice(), "factory") {
        0
    } else if text_starts_with(n.as_slice(), "plate") {
        1
    } else {
        2
    }
}

/// The palette group for a unit no builder claims, by the prefixes Zero-K
/// names things with; every commander carries `com`, and no other unit does.
pub open spec fn spec_group_by_name(name: Seq<char>) -> Seq<char> {
    if starts_with(name, "factory"@) {
        "Factories"@
    } else if starts_with(name, "plate"@) {
        "Factories"@
    } else if starts_with(name, "turret"@) {
        "Defences"@
    } else if starts_with(name, "energy"@) {
        "Economy"@
    } else if starts_with(name, "static"@) {
        "Support Structures"@
    } else if starts_with(name, "chicken"@) {
        "Chickens"@
    } else if starts_with(name, "strider"@) {
        "Striders"@
    } else if starts_with(name, "dbg_"@) || starts_with(name, "fakeunit"@) || starts_with(
        name,
        "tiptest"@,
    ) || starts_with(name, "empiricaldps"@) || starts_with(name, "damagesink"@) {
        "Test and debug"@
    } else if contains(name, "com"@) {
        "Commanders"@
    } else {
        "Other"@
    }
}

pub fn group_by_name(name: &str) -> (r: &'static str)
    ensures
        r@ == spec_group_by_name(name@),
{
    let n = chars_of(name);
    let s = n.as_slice();
    if text_starts_with(s, "factory") {
        "Factories"
    } else if text_starts_with(s, "plate") {
        "Factories"
    } else if text_starts_with(s, "turret") {
        "Defences"
    } else if text_starts_with(s, "energy") {
        "Economy"
    } else if text_starts_with(s, "static") {
        "Support Structures"
    } else if text_starts_with(s, "chicken") {
        "Chickens"
    } else if text_starts_with(s, "strider") {
        "Striders"
    } else if text_starts_with(s, "dbg_") || text_starts_with(s, "fakeunit") || text_starts_with(
        s,
        "tiptest",
    ) || text_starts_with(s, "empiricaldps") || text_starts_with(s, "damagesink") {
        "Test and debug"
    } else if text_contains(s, "com") {
        "Commanders"
    } else {
        "Other"
    }
}

/// Whether Zero-K would call this unit a commander: answered by the rule the
/// palette groups by, rather than by a second list that could drift from it.
pub fn is_commander(name: &str) -> (r: bool)
    ensures
        r == (spec_group_by_name(name@) == "Commanders"@),
{
    same_text(group_by_name(name), "Commanders")
}

/// "Other" and the debug units sort last: neither is what somebody opening
/// the palette is looking for.
pub open spec fn spec_sort_rank(group: Seq<char>) -> u8 {
    if group == "Other"@ {
        2
    } else if group == "Test and debug"@ {
        1
    } else {
        0
    }
}

/// The palette's order: rank, then group, then title.
pub fn sort_key(u: &UnitDef) -> (r: (u8, &str, &str))
    ensures
        r.0 == spec_sort_rank(u.group@),
        r.1@ == u.group@,
        r.2@ == u.title@,
{
    let rank = if same_text(u.group.as_str(), "Other") {
        2
    } else if same_text(u.group.as_str(), "Test and debug") {
        1
    } else {
        0
    };
    (rank, u.group.as_str(), u.title.as_str())
}

// ---------------------------------------------------------------- maps ---

/// A map name as it is compared: lower case, without spaces, underscores and
/// hyphens - and without dots where `dots` says so. The catalogue says
/// "Comet Catcher Redux", the file is `comet_catcher_redux.sd7`.
pub open spec fn squash(s: Seq<char>, dots: bool) -> Seq<char>
    decreases s.len(),
{
    if s.len() == 0 {
        Seq::empty()
    } else {
        let c = crate::text::lower(s.last());
        let rest = squash(s.drop_last(), dots);
        if c == ' ' || c == '_' || c == '-' || (dots && c == '.') {
            rest
        } else {
            rest.push(c)
        }
    }
}

pub fn squashed(s: &str, dots: bool) -> (r: Vec<char>)
    ensures
        r@ == squash(s@, dots),
{
    let chars = chars_of(s);
    let mut r: Vec<char> = Vec::new();
    let mut i: usize = 0;
    while i < chars.len()
        invariant
            chars@ == s@,
            i <= chars@.len(),
            r@ == squash(chars@.take(i as int), dots),
        decreases chars.len() - i,
    {
        let c = crate::text::lower_char(chars[i]);
        assert(chars@.take(i + 1).drop_last() =~= chars@.take(i as int));
        if !(c == ' ' || c == '_' || c == '-' || (dots && c == '.')) {
            r.push(c);
        }
        i = i + 1;
    }
    assert(chars@.take(chars@.len() as int) =~= chars@);
    r
}

/// The first name from `i` on whose squashed form is `wanted`.
pub open spec fn exact_from(names: Seq<Seq<char>>, wanted: Seq<char>, dots: bool, i: int) -> Option<int>
    decreases names.len() - i,
{
    if i < 0 || i >= names.len() {
        None
    } else if squash(names[i], dots) == wanted {
        Some(i)
    } else {
        exact_from(names, wanted, dots, i + 1)
    }
}

/// The names from `i` on whose squashed form starts with `wanted`.
pub open spec fn prefixed_from(names: Seq<Seq<char>>, wanted: Seq<char>, dots: bool, i: int) -> Seq<int>
    decreases names.len() - i,
{
    if i < 0 || i >= names.len() {
        Seq::empty()
    } else if starts_with(squash(names[i], dots), wanted) {
        seq![i] + prefixed_from(names, wanted, dots, i + 1)
    } else {
        prefixed_from(names, wanted, dots, i + 1)
    }
}

/// Which of `names` a typed name means: the first whose squashed form is
/// the typed one's, and failing that the only one the typed name is a prefix
/// of. Two prefixed versions side by side answer nothing: starting the wrong
/// map silently is worse than saying so.
pub open spec fn spec_choose_name(names: Seq<Seq<char>>, name: Seq<char>, dots: bool) -> Option<int> {
    let wanted = squash(name, dots);
    if wanted.len() == 0 {
        None
    } else {
        match exact_from(names, wanted, dots, 0) {
            Some(i) => Some(i),
            None => {
                let near = prefixed_from(names, wanted, dots, 0);
                if near.len() == 1 {
                    Some(near[0])
                } else {
                    None
                }
            },
        }
    }
}

fn same_chars(a: &[char], b: &[char]) -> (r: bool)
    ensures
        r == (a@ == b@),
{
    if a.len() != b.len() {
        return false;
    }
    let mut i: usize = 0;
    while i < a.len()
        invariant
            a@.len() == b@.len(),
            i <= a@.len(),
            forall|j: int| 0 <= j < i ==> a@[j] == b@[j],
        decreases a.len() - i,
    {
        if a[i] != b[i] {
            assert(a@[i as int] != b@[i as int]);
            return false;
        }
        i = i + 1;
    }
    assert(a@ =~= b@);
    true
}

fn chars_start_with(s: &[char], p: &[char]) -> (r: bool)
    ensures
        r == starts_with(s@, p@),
{
    if p.len() > s.len() {
        return false;
    }
    let mut i: usize = 0;
    while i < p.len()
        invariant
            p@.len() <= s@.len(),
            i <= p@.len(),
            forall|j: int| 0 <= j < i ==> s@[j] == p@[j],
        decreases p.len() - i,
    {
        if s[i] != p[i] {
            assert(s@.take(p@.len() as int)[i as int] != p@[i as int]);
            return false;
        }
        i = i + 1;
    }
    assert(s@.take(p@.len() as int) =~= p@);
    true
}

proof fn lemma_prefixed_from(names: Seq<Seq<char>>, wanted: Seq<char>, dots: bool, i: int)
    requires
        0 <= i,
    ensures
        forall|k: int| 0 <= k < prefixed_from(names, wanted, dots, i).len() ==> i <= #[trigger] prefixed_from(names, wanted, dots, i)[k] < names.len(),
    decreases names.len() - i,
{
    if i < names.len() {
        lemma_prefixed_from(names, wanted, dots, i + 1);
        let rest = prefixed_from(names, wanted, dots, i + 1);
        if starts_with(squash(names[i], dots), wanted) {
            let all = prefixed_from(names, wanted, dots, i);
            assert(all == seq![i] + rest);
            assert forall|k: int| 0 <= k < all.len() implies i <= #[trigger] all[k] < names.len() by {
                if k > 0 {
                    assert(all[k] == rest[k - 1]);
                }
            }
        }
    }
}

/// The index of the name in `names` that `name` means, by the rule of
/// [`spec_choose_name`].
pub fn choose_name(names: &[String], name: &str, dots: bool) -> (r: Option<usize>)
    ensures
        match spec_choose_name(strings_view(names@), name@, dots) {
            Some(i) => r matches Some(x) && x as int == i,
            None => r is None,
        },
        r matches Some(x) ==> x < names@.len(),
{
    let ghost view = strings_view(names@);
    let wanted = squashed(name, dots);
    if wanted.len() == 0 {
        return None;
    }
    let mut i: usize = 0;
    while i < names.len()
        invariant
            view == strings_view(names@),
            wanted@ == squash(name@, dots),
            wanted@.len() > 0,
            i <= names@.len(),
            exact_from(view, wanted@, dots, 0) == exact_from(view, wanted@, dots, i as int),
        decreases names.len() - i,
    {
        let s = squashed(names[i].as_str(), dots);
        assert(view[i as int] == names@[i as int]@);
        if same_chars(s.as_slice(), wanted.as_slice()) {
            return Some(i);
        }
        i = i + 1;
    }
    let mut first: Option<usize> = None;
    let mut count: usize = 0;
    let mut j: usize = names.len();
    proof {
        lemma_prefixed_from(view, wanted@, dots, 0);
    }
    while j > 0
        invariant
            view == strings_view(names@),
            wanted@ == squash(name@, dots),
            wanted@.len() > 0,
            j <= names@.len(),
            exact_from(view, wanted@, dots, 0) is None,
            count == if prefixed_from(view, wanted@, dots, j as int).len() < 2 {
                prefixed_from(view, wanted@, dots, j as int).len()
            } else {
                2
            },
            count > 0 ==> (first matches Some(f) && f as int == prefixed_from(view, wanted@, dots, j as int)[0]),
            first matches Some(f) ==> f < names@.len(),
        decreases j,
    {
        j = j - 1;
        let s = squashed(names[j].as_str(), dots);
        assert(view[j as int] == names@[j as int]@);
        if chars_start_with(s.as_slice(), wanted.as_slice()) {
            first = Some(j);
            if count < 2 {
                count = count + 1;
            }
        }
    }
    if count == 1 {
        first
    } else {
        None
    }
}

/// The installed archive a scenario's map name refers to, named as the
/// engine names it: the typed name may miss the case, the spaces and the
/// version the archive carries.
pub fn resolve_map(installed: &[String], name: &str) -> (r: Option<String>)
    ensures
        match spec_choose_name(strings_view(installed@), name@, true) {
            Some(i) => r matches Some(x) && x@ == installed@[i]@,
            None => r is None,
        },
{
    match choose_name(installed, name, true) {
        Some(i) => Some(installed[i].clone()),
        None => None,
    }
}

/// Which of the map archives in a `maps/` directory, by their file stems,
/// holds `map`: the same comparison [`resolve_map`] makes, so case, spaces,
/// underscores and dots do not matter and a unique prefix still finds it.
pub fn map_archive_index(stems: &[String], map: &str) -> (r: Option<usize>)
    ensures
        match spec_choose_name(strings_view(stems@), map@, true) {
            Some(i) => r matches Some(x) && x as int == i,
            None => r is None,
        },
        r matches Some(x) ==> x < stems@.len(),
{
    choose_name(stems, map, true)
}

/// Whether a catalogue name matches an installed archive.
pub fn map_is_installed(installed: &[String], name: &str) -> (r: bool)
    ensures
        r == spec_choose_name(strings_view(installed@), name@, true) is Some,
{
    choose_name(installed, name, true).is_some()
}

/// The base game, as opposed to a mutator sitting beside it: the first
/// archive whose name starts with "Zero-K" in any case, and otherwise the
/// first archive, because an install with one game in it should not need
/// the author to know this rule.
pub open spec fn spec_base_game_of(names: Seq<Seq<char>>) -> Option<int> {
    match first_zero_k(names, 0) {
        Some(i) => Some(i),
        None => if names.len() > 0 {
            Some(0)
        } else {
            None
        },
    }
}

pub open spec fn first_zero_k(names: Seq<Seq<char>>, i: int) -> Option<int>
    decreases names.len() - i,
{
    if i < 0 || i >= names.len() {
        None
    } else if starts_with(lower_all(names[i]), "zero-k"@) {
        Some(i)
    } else {
        first_zero_k(names, i + 1)
    }
}

pub open spec fn archive_names(a: Seq<GameArchive>) -> Seq<Seq<char>> {
    a.map_values(|g: GameArchive| g.name@)
}

fn base_game_index(archives: &[GameArchive]) -> (r: Option<usize>)
    ensures
        match spec_base_game_of(archive_names(archives@)) {
            Some(i) => r matches Some(x) && x as int == i && x < archives@.len(),
            None => r is None,
        },
{
    let ghost names = archive_names(archives@);
    let mut i: usize = 0;
    while i < archives.len()
        invariant
            names == archive_names(archives@),
            i <= archives@.len(),
            first_zero_k(names, 0) == first_zero_k(names, i as int),
        decreases archives.len() - i,
    {
        let low = lowercase(chars_of(archives[i].name.as_str()).as_slice());
        if text_starts_with(low.as_slice(), "zero-k") {
            return Some(i);
        }
        i = i + 1;
    }
    if archives.len() > 0 {
        Some(0)
    } else {
        None
    }
}

/// The base game, as opposed to a mission mutator sitting beside it: the
/// first archive whose name starts with "Zero-K" in any case, and otherwise
/// the first archive, because an install with exactly one game in it should
/// not need the author to know this rule.
pub fn base_game(archives: &[GameArchive]) -> (r: Option<GameArchive>)
    ensures
        match spec_base_game_of(archive_names(archives@)) {
            Some(i) => r matches Some(g) && g.name@ == archives@[i].name@ && g.path@ == archives@[i].path@,
            None => r is None,
        },
{
    match base_game_index(archives) {
        Some(i) => Some(
            GameArchive { name: owned(archives[i].name.as_str()), path: owned(archives[i].path.as_str()) },
        ),
        None => None,
    }
}

/// Everything the editor needs about the install, from what was found in
/// it: the engines newest first, the game archives, the AIs and the maps.
/// The defaults are chosen here: the newest engine, and the base game.
pub fn game_info(engines: Vec<String>, games: Vec<GameArchive>, ais: Vec<String>, maps: Vec<String>) -> (r:
    GameInfo)
    ensures
        r.engines@ == engines@,
        r.games@ == games@,
        r.ais@ == ais@,
        r.maps@ == maps@,
        match r.engine {
            Some(e) => engines@.len() > 0 && e@ == engines@[0]@,
            None => engines@.len() == 0,
        },
        match spec_base_game_of(archive_names(games@)) {
            Some(i) => r.game matches Some(g) && g@ == games@[i].name@,
            None => r.game is None,
        },
{
    let engine = if engines.len() > 0 {
        Some(owned(engines[0].as_str()))
    } else {
        None
    };
    let game = match base_game(games.as_slice()) {
        Some(g) => Some(g.name),
        None => None,
    };
    GameInfo { engines, games, ais, maps, engine, game }
}

/// Which archives in the engine's index are games: a game (`modtype` 1),
/// or a mission mutator (0), which is still a launchable game. 3 is a map.
pub fn is_game_modtype(modtype: i64) -> (r: bool)
    ensures
        r == (modtype == 1 || modtype == 0),
{
    modtype == 1 || modtype == 0
}

/// Whether an archive in the engine's index is a map.
pub fn is_map_modtype(modtype: i64) -> (r: bool)
    ensures
        r == (modtype == 3),
{
    modtype == 3
}

// ----------------------------------------------------------- file names ---

/// Where the extension of a file name starts, as `Path::extension` finds
/// it: after the last `.`, unless that dot is the name's first character.
pub open spec fn last_dot(name: Seq<char>, to: int) -> Option<int>
    decreases to,
{
    if to <= 0 || to > name.len() {
        None
    } else if name[to - 1] == '.' {
        if to - 1 == 0 {
            None
        } else {
            Some(to - 1)
        }
    } else {
        last_dot(name, to - 1)
    }
}

/// A file name's stem and extension, where it has an extension.
pub open spec fn stem_and_extension(name: Seq<char>) -> Option<(Seq<char>, Seq<char>)> {
    if name == ".."@ {
        None
    } else {
        match last_dot(name, name.len() as int) {
            Some(k) => Some((name.take(k), name.skip(k + 1))),
            None => None,
        }
    }
}

/// The map a file in `maps/` holds, by its stem: an `.sd7`, `.sdz` or
/// `.smf` in any case.
pub open spec fn spec_map_stem(name: Seq<char>) -> Option<Seq<char>> {
    match stem_and_extension(name) {
        Some((stem, ext)) => if lower_all(ext) == "sd7"@ || lower_all(ext) == "sdz"@ || lower_all(ext)
            == "smf"@ {
            Some(stem)
        } else {
            None
        },
        None => None,
    }
}

fn split_extension(name: &str) -> (r: Option<(Vec<char>, Vec<char>)>)
    ensures
        match stem_and_extension(name@) {
            Some((stem, ext)) => r matches Some(x) && x.0@ == stem && x.1@ == ext,
            None => r is None,
        },
{
    let n = chars_of(name);
    if same_text(name, "..") {
        return None;
    }
    let mut to = n.len();
    while to > 0 && n[to - 1] != '.'
        invariant
            to <= n@.len(),
            n@ == name@,
            last_dot(n@, n@.len() as int) == last_dot(n@, to as int),
        decreases to,
    {
        to = to - 1;
    }
    if to <= 1 {
        return None;
    }
    let k = to - 1;
    let stem = chars_range(n.as_slice(), 0, k);
    let ext = chars_range(n.as_slice(), k + 1, n.len());
    assert(stem@ =~= n@.take(k as int));
    assert(ext@ =~= n@.skip(k + 1));
    Some((stem, ext))
}

/// The map a file in `maps/` holds, by the file's name: its stem where it
/// is an `.sd7`, `.sdz` or `.smf` in any case, and nothing otherwise.
pub fn map_stem(file_name: &str) -> (r: Option<String>)
    ensures
        match spec_map_stem(file_name@) {
            Some(s) => r matches Some(x) && x@ == s,
            None => r is None,
        },
{
    match split_extension(file_name) {
        Some((stem, ext)) => {
            let low = string_of(lowercase(ext.as_slice()).as_slice());
            if same_text(low.as_str(), "sd7") || same_text(low.as_str(), "sdz") || same_text(
                low.as_str(),
                "smf",
            ) {
                Some(string_of(stem.as_slice()))
            } else {
                None
            }
        },
        None => None,
    }
}

/// Whether a file in `games/` is a game this can read: a `.sdz`, which is a
/// zip, in any case. A `.sd7` is 7-zip, and offering a name that could not
/// be read would compile to a script that fails at the whistle.
pub fn is_sdz(file_name: &str) -> (r: bool)
    ensures
        r == (stem_and_extension(file_name@) matches Some(p) && lower_all(p.1) == "sdz"@),
{
    match split_extension(file_name) {
        Some((_stem, ext)) => {
            let low = string_of(lowercase(ext.as_slice()).as_slice());
            same_text(low.as_str(), "sdz")
        },
        None => false,
    }
}

/// The archives among the first `n` whose name was not seen before them,
/// as name and path.
pub open spec fn first_by_name(archives: Seq<GameArchive>, n: int) -> Seq<(Seq<char>, Seq<char>)>
    decreases n,
{
    if n <= 0 || n > archives.len() {
        Seq::empty()
    } else if archive_names(archives).take(n - 1).contains(archives[n - 1].name@) {
        first_by_name(archives, n - 1)
    } else {
        first_by_name(archives, n - 1).push((archives[n - 1].name@, archives[n - 1].path@))
    }
}

proof fn lemma_first_by_name(archives: Seq<GameArchive>, n: int)
    requires
        0 <= n <= archives.len(),
    ensures
        first_by_name(archives, n).map_values(|p: (Seq<char>, Seq<char>)| p.0)
            == crate::order::first_seen(archive_names(archives), n),
    decreases n,
{
    if n > 0 {
        lemma_first_by_name(archives, n - 1);
        assert(archive_names(archives)[n - 1] == archives[n - 1].name@);
        let f = first_by_name(archives, n - 1);
        assert(first_by_name(archives, n).map_values(|p: (Seq<char>, Seq<char>)| p.0) =~= crate::order::first_seen(
            archive_names(archives),
            n,
        ));
    }
}

/// `order` lists the archives once each, in the order of their names.
pub open spec fn by_name_order(d: Seq<(Seq<char>, Seq<char>)>, order: Seq<int>) -> bool {
    crate::order::text_order(d.map_values(|p: (Seq<char>, Seq<char>)| p.0), order)
}

/// The game archives each once by name - the first found under a name - in
/// the order of their names.
pub fn games_by_name(archives: &[GameArchive]) -> (r: Vec<GameArchive>)
    ensures
        ({
            let d = first_by_name(archives@, archives@.len() as int);
            &&& r@.len() == d.len()
            &&& exists|order: Seq<int>|
                by_name_order(d, order) && forall|a: int|
                    0 <= a < r@.len() ==> ((#[trigger] r@[a]).name@, r@[a].path@) == d[order[a]]
        }),
{
    let ghost all = archive_names(archives@);
    let mut names: Vec<String> = Vec::new();
    let mut distinct: Vec<GameArchive> = Vec::new();
    let mut i: usize = 0;
    while i < archives.len()
        invariant
            all == archive_names(archives@),
            i <= archives@.len(),
            strings_view(names@) == all.take(i as int),
            distinct@.map_values(|g: GameArchive| (g.name@, g.path@)) == first_by_name(archives@, i as int),
        decreases archives.len() - i,
    {
        assert(all[i as int] == archives@[i as int].name@);
        assert(strings_view(names@).len() == names@.len());
        assert(strings_view(names@).take(i as int) =~= strings_view(names@));
        let seen = crate::order::seen_before(names.as_slice(), i, archives[i].name.as_str());
        assert(seen == all.take(i as int).contains(archives@[i as int].name@));
        let ghost before = distinct@.map_values(|g: GameArchive| (g.name@, g.path@));
        if !seen {
            distinct.push(GameArchive { name: owned(archives[i].name.as_str()), path: owned(archives[i].path.as_str()) });
        }
        assert(distinct@.map_values(|g: GameArchive| (g.name@, g.path@)) =~= first_by_name(archives@, i + 1));
        let ghost nb = strings_view(names@);
        names.push(owned(archives[i].name.as_str()));
        assert(strings_view(names@) =~= nb.push(all[i as int]));
        i = i + 1;
        assert(strings_view(names@) =~= all.take(i as int));
    }
    let ghost d = first_by_name(archives@, archives@.len() as int);
    let ghost dn = d.map_values(|p: (Seq<char>, Seq<char>)| p.0);
    proof {
        lemma_first_by_name(archives@, archives@.len() as int);
        crate::order::lemma_first_seen_distinct(all, archives@.len() as int);
    }
    let mut keys: Vec<crate::order::TextKey> = Vec::new();
    let mut j: usize = 0;
    while j < distinct.len()
        invariant
            distinct@.map_values(|g: GameArchive| (g.name@, g.path@)) == d,
            dn == d.map_values(|p: (Seq<char>, Seq<char>)| p.0),
            j <= distinct@.len(),
            keys@.len() == j,
            forall|a: int| 0 <= a < j ==> (#[trigger] keys@[a]).text@ == dn[a],
        decreases distinct.len() - j,
    {
        assert(d[j as int] == (distinct@[j as int].name@, distinct@[j as int].path@));
        keys.push(crate::order::TextKey { text: chars_of(distinct[j].name.as_str()) });
        j = j + 1;
    }
    let order = crate::order::stable_order(&keys);
    let mut out: Vec<GameArchive> = Vec::new();
    let mut a: usize = 0;
    while a < order.len()
        invariant
            distinct@.map_values(|g: GameArchive| (g.name@, g.path@)) == d,
            order@.len() == d.len(),
            forall|b: int| 0 <= b < order@.len() ==> #[trigger] order@[b] < d.len(),
            a <= order@.len(),
            out@.len() == a,
            forall|b: int| 0 <= b < a ==> ((#[trigger] out@[b]).name@, out@[b].path@) == d[order@[b] as int],
        decreases order.len() - a,
    {
        let g = &distinct[order[a]];
        assert(d[order@[a as int] as int] == (g.name@, g.path@));
        out.push(GameArchive { name: owned(g.name.as_str()), path: owned(g.path.as_str()) });
        a = a + 1;
    }
    let ghost w = order@.map_values(|x: usize| x as int);
    assert(by_name_order(d, w)) by {
        assert forall|x: int, y: int| 0 <= x < y < w.len() implies crate::order::text_lt(
            dn[#[trigger] w[x]],
            dn[#[trigger] w[y]],
        ) by {
            assert(crate::order::goes_before(keys@, order@[x] as int, order@[y] as int));
            if !crate::order::text_lt(dn[w[x]], dn[w[y]]) {
                crate::order::lemma_text_total(dn[w[x]], dn[w[y]]);
                if w[x] < w[y] {
                    assert(dn[w[x]] != dn[w[y]]);
                } else {
                    assert(dn[w[y]] != dn[w[x]]);
                }
            }
        }
    }
    assert(forall|b: int| 0 <= b < out@.len() ==> ((#[trigger] out@[b]).name@, out@[b].path@) == d[w[b]]);
    out
}

// ------------------------------------------------------------------ laws ---

proof fn lemma_exact_from(names: Seq<Seq<char>>, wanted: Seq<char>, dots: bool, i: int)
    requires
        0 <= i,
    ensures
        match exact_from(names, wanted, dots, i) {
            Some(k) => i <= k < names.len() && squash(names[k], dots) == wanted && forall|j: int|
                i <= j < k ==> squash(#[trigger] names[j], dots) != wanted,
            None => forall|j: int| i <= j < names.len() ==> squash(#[trigger] names[j], dots) != wanted,
        },
    decreases names.len() - i,
{
    if i < names.len() {
        lemma_exact_from(names, wanted, dots, i + 1);
    }
}

proof fn lemma_prefixed_members(names: Seq<Seq<char>>, wanted: Seq<char>, dots: bool, i: int)
    requires
        0 <= i,
    ensures
        forall|k: int|
            0 <= k < prefixed_from(names, wanted, dots, i).len() ==> starts_with(
                squash(names[#[trigger] prefixed_from(names, wanted, dots, i)[k]], dots),
                wanted,
            ),
    decreases names.len() - i,
{
    if i < names.len() {
        lemma_prefixed_members(names, wanted, dots, i + 1);
        let rest = prefixed_from(names, wanted, dots, i + 1);
        let all = prefixed_from(names, wanted, dots, i);
        if starts_with(squash(names[i], dots), wanted) {
            assert forall|k: int| 0 <= k < all.len() implies starts_with(
                squash(names[#[trigger] all[k]], dots),
                wanted,
            ) by {
                if k > 0 {
                    assert(all[k] == rest[k - 1]);
                }
            }
        }
    }
}

/// The archive a typed map name resolves to answers to it: it is one of
/// the names offered, its compared form starts with the typed one's, and an
/// exact match wins - the first exact match, where there is one. Where no
/// name matches exactly, a name the typed one merely begins is the answer
/// only when it is the only such name: two versions of a map side by side
/// answer nothing.
pub proof fn law_a_resolved_name_answers_to_the_typed_one(names: Seq<Seq<char>>, name: Seq<char>, dots: bool)
    ensures
        match spec_choose_name(names, name, dots) {
            Some(i) => {
                &&& 0 <= i < names.len()
                &&& squash(name, dots).len() > 0
                &&& starts_with(squash(names[i], dots), squash(name, dots))
                &&& (exists|j: int| 0 <= j < names.len() && squash(#[trigger] names[j], dots) == squash(name, dots))
                    ==> squash(names[i], dots) == squash(name, dots) && forall|j: int|
                    0 <= j < i ==> squash(#[trigger] names[j], dots) != squash(name, dots)
            },
            None => squash(name, dots).len() == 0 || ((forall|j: int|
                0 <= j < names.len() ==> squash(#[trigger] names[j], dots) != squash(name, dots))
                && prefixed_from(names, squash(name, dots), dots, 0).len() != 1),
        },
{
    let wanted = squash(name, dots);
    lemma_exact_from(names, wanted, dots, 0);
    lemma_prefixed_from(names, wanted, dots, 0);
    lemma_prefixed_members(names, wanted, dots, 0);
    match exact_from(names, wanted, dots, 0) {
        Some(k) => {
            assert(starts_with(squash(names[k], dots), wanted)) by {
                assert(squash(names[k], dots).take(wanted.len() as int) =~= wanted);
            }
        },
        None => {
            let near = prefixed_from(names, wanted, dots, 0);
            if near.len() == 1 {
                assert(starts_with(squash(names[near[0]], dots), wanted));
            }
        },
    }
}

proof fn lemma_leads_with(name: Seq<char>, p: Seq<char>, i: int)
    requires
        starts_with(name, p),
        0 <= i < p.len(),
    ensures
        name[i] == p[i],
{
    assert(name.take(p.len() as int)[i] == name[i]);
}

proof fn lemma_leads_with_three(name: Seq<char>, p: Seq<char>)
    requires
        starts_with(name, p),
        p.len() >= 3,
    ensures
        name[0] == p[0] && name[1] == p[1] && name[2] == p[2],
{
    lemma_leads_with(name, p, 0);
    lemma_leads_with(name, p, 1);
    lemma_leads_with(name, p, 2);
}

/// The groups for units no builder claims, by the name's prefix: factories
/// and their plates, turrets as defences, energy as economy, static
/// buildings as support structures, chickens, striders, and the test and
/// debug units; failing those, anything with `com` in its name is a
/// commander, and the rest is other.
pub proof fn law_a_name_finds_its_group(name: Seq<char>)
    ensures
        starts_with(name, "factory"@) ==> spec_group_by_name(name) == "Factories"@,
        starts_with(name, "plate"@) ==> spec_group_by_name(name) == "Factories"@,
        starts_with(name, "turret"@) ==> spec_group_by_name(name) == "Defences"@,
        starts_with(name, "energy"@) ==> spec_group_by_name(name) == "Economy"@,
        starts_with(name, "static"@) ==> spec_group_by_name(name) == "Support Structures"@,
        starts_with(name, "chicken"@) ==> spec_group_by_name(name) == "Chickens"@,
        starts_with(name, "strider"@) ==> spec_group_by_name(name) == "Striders"@,
        starts_with(name, "dbg_"@) ==> spec_group_by_name(name) == "Test and debug"@,
        starts_with(name, "fakeunit"@) ==> spec_group_by_name(name) == "Test and debug"@,
        starts_with(name, "tiptest"@) ==> spec_group_by_name(name) == "Test and debug"@,
        starts_with(name, "empiricaldps"@) ==> spec_group_by_name(name) == "Test and debug"@,
        starts_with(name, "damagesink"@) ==> spec_group_by_name(name) == "Test and debug"@,
        ({
            &&& !starts_with(name, "factory"@) && !starts_with(name, "plate"@) && !starts_with(name, "turret"@)
            &&& !starts_with(name, "energy"@) && !starts_with(name, "static"@) && !starts_with(name, "chicken"@)
            &&& !starts_with(name, "strider"@) && !starts_with(name, "dbg_"@) && !starts_with(name, "fakeunit"@)
            &&& !starts_with(name, "tiptest"@) && !starts_with(name, "empiricaldps"@) && !starts_with(
                name,
                "damagesink"@,
            )
        }) ==> spec_group_by_name(name) == if contains(name, "com"@) {
            "Commanders"@
        } else {
            "Other"@
        },
{
    reveal_strlit("factory");
    reveal_strlit("plate");
    reveal_strlit("turret");
    reveal_strlit("energy");
    reveal_strlit("static");
    reveal_strlit("chicken");
    reveal_strlit("strider");
    reveal_strlit("dbg_");
    reveal_strlit("fakeunit");
    reveal_strlit("tiptest");
    reveal_strlit("empiricaldps");
    reveal_strlit("damagesink");
    let ps = seq![
        "factory"@,
        "plate"@,
        "turret"@,
        "energy"@,
        "static"@,
        "chicken"@,
        "strider"@,
        "dbg_"@,
        "fakeunit"@,
        "tiptest"@,
        "empiricaldps"@,
        "damagesink"@,
    ];
    assert forall|j: int| 0 <= j < ps.len() && starts_with(name, #[trigger] ps[j]) implies name[0] == ps[j][0]
        && name[1] == ps[j][1] && name[2] == ps[j][2] by {
        lemma_leads_with_three(name, ps[j]);
    }
    assert(ps[0] == "factory"@ && ps[1] == "plate"@ && ps[2] == "turret"@ && ps[3] == "energy"@);
    assert(ps[4] == "static"@ && ps[5] == "chicken"@ && ps[6] == "strider"@ && ps[7] == "dbg_"@);
    assert(ps[8] == "fakeunit"@ && ps[9] == "tiptest"@ && ps[10] == "empiricaldps"@ && ps[11] == "damagesink"@);
}

/// Which builder's claim wins: a factory's over anything else, a plate's
/// over anything but a factory, and the rest level with each other.
pub proof fn law_factories_claim_first(a: Seq<char>, b: Seq<char>)
    ensures
        starts_with(a, "factory"@) && !starts_with(b, "factory"@) ==> spec_builder_rank(a) < spec_builder_rank(b),
        starts_with(a, "plate"@) && !starts_with(b, "factory"@) && !starts_with(b, "plate"@) ==> spec_builder_rank(a)
            < spec_builder_rank(b),
        !starts_with(a, "factory"@) && !starts_with(a, "plate"@) && !starts_with(b, "factory"@) && !starts_with(
            b,
            "plate"@,
        ) ==> spec_builder_rank(a) == spec_builder_rank(b),
        starts_with(a, "factory"@) && starts_with(b, "factory"@) ==> spec_builder_rank(a) == spec_builder_rank(b),
        starts_with(a, "plate"@) && starts_with(b, "plate"@) ==> spec_builder_rank(a) == spec_builder_rank(b),
{
    reveal_strlit("factory");
    reveal_strlit("plate");
    if starts_with(a, "plate"@) {
        lemma_leads_with(a, "plate"@, 0);
        if starts_with(a, "factory"@) {
            lemma_leads_with(a, "factory"@, 0);
        }
    }
    if starts_with(b, "plate"@) {
        lemma_leads_with(b, "plate"@, 0);
        if starts_with(b, "factory"@) {
            lemma_leads_with(b, "factory"@, 0);
        }
    }
}

/// The palette's groups come in three bands: every named group first,
/// then the test and debug units, then everything else last.
pub proof fn law_other_comes_last(g: Seq<char>)
    ensures
        g != "Other"@ && g != "Test and debug"@ ==> spec_sort_rank(g) < spec_sort_rank("Test and debug"@)
            && spec_sort_rank("Test and debug"@) < spec_sort_rank("Other"@),
        forall|h: Seq<char>|
            g != "Other"@ && g != "Test and debug"@ && h != "Other"@ && h != "Test and debug"@ ==> spec_sort_rank(g)
                == #[trigger] spec_sort_rank(h),
{
    reveal_strlit("Other");
    reveal_strlit("Test and debug");
    assert("Other"@ != "Test and debug"@) by {
        assert("Other"@.len() != "Test and debug"@.len());
    }
}

proof fn lemma_first_zero_k(names: Seq<Seq<char>>, i: int)
    requires
        0 <= i,
    ensures
        first_zero_k(names, i) matches Some(k) ==> i <= k < names.len() && starts_with(lower_all(names[k]), "zero-k"@)
            && forall|j: int| i <= j < k ==> !starts_with(lower_all(#[trigger] names[j]), "zero-k"@),
        first_zero_k(names, i) is None ==> forall|j: int|
            i <= j < names.len() ==> !starts_with(lower_all(#[trigger] names[j]), "zero-k"@),
    decreases names.len() - i,
{
    if i < names.len() && !starts_with(lower_all(names[i]), "zero-k"@) {
        lemma_first_zero_k(names, i + 1);
    }
}

/// The base game is the first archive whose name starts with `Zero-K`, in
/// any case; where none does, the first archive; and there is none only
/// when there are no archives.
pub proof fn law_the_base_game_is_zero_k_first(names: Seq<Seq<char>>)
    ensures
        spec_base_game_of(names) is None <==> names.len() == 0,
        spec_base_game_of(names) matches Some(i) ==> 0 <= i < names.len(),
        (exists|j: int| 0 <= j < names.len() && starts_with(lower_all(#[trigger] names[j]), "zero-k"@)) ==> (
        spec_base_game_of(names) matches Some(i) && starts_with(lower_all(names[i]), "zero-k"@) && forall|j: int|
            0 <= j < i ==> !starts_with(lower_all(#[trigger] names[j]), "zero-k"@)),
        (forall|j: int| 0 <= j < names.len() ==> !starts_with(lower_all(#[trigger] names[j]), "zero-k"@))
            && names.len() > 0 ==> spec_base_game_of(names) == Some(0int),
{
    lemma_first_zero_k(names, 0);
}

} // verus!
