//! Reading values out of the flat Lua tables Zero-K and the engine write.
//!
//! Deliberately not a Lua parser. `modinfo.lua`, unit definitions and the
//! engine's `ArchiveCache` are flat tables of literals, and the forms that
//! appear are `key = [[text]]`, `key = "text"`, `key = 'text'` and, for
//! numbers, `key = 3` or `key = "3"`. Anything that finds nothing returns
//! `None` and the caller says so rather than guessing.
use crate::text::{chars_of, find, find_char, find_from, find_char_from, is_alphanumeric, lemma_find_from, lower_all, lowercase, skip_white, string_of, trim, trim_bounds, unicode_alphanumeric, white_run};
use vstd::prelude::*;

verus! {

// ------------------------------------------------------------- fields ---

/// What follows a key: `Skip` when it is not an assignment of a string the
/// reader knows, so the search goes on; `Done` with the value, or with
/// `None` for a string that never closes.
pub enum Step {
    Skip,
    Done(Option<Seq<char>>),
}

/// A character that would make a match part of a longer key.
pub open spec fn key_char(c: char) -> bool {
    unicode_alphanumeric(c) || c == '_'
}

/// The string value assigned at `from`: `= [[text]]`, `= "text"` or
/// `= 'text'`, whitespace allowed around the `=`, the text trimmed.
pub open spec fn spec_string_value(src: Seq<char>, from: int) -> Step {
    let a = from + white_run(src, from);
    if a >= src.len() || src[a] != '=' {
        Step::Skip
    } else {
        let b = a + 1 + white_run(src, a + 1);
        if b < src.len() && src.len() - b >= 2 && src[b] == '[' && src[b + 1] == '[' {
            Step::Done(
                match find_from(src, seq![']', ']'], b + 2) {
                    Some(e) => Some(trim(src.subrange(b + 2, e))),
                    None => None,
                },
            )
        } else if b < src.len() && (src[b] == '"' || src[b] == '\'') {
            Step::Done(
                match find_char_from(src, src[b], b + 1) {
                    Some(e) => Some(trim(src.subrange(b + 1, e))),
                    None => None,
                },
            )
        } else {
            Step::Skip
        }
    }
}

/// Where the next match of the key starts being looked for, after one found
/// at `start`.
pub open spec fn key_at(src: Seq<char>, key: Seq<char>, start: int) -> bool {
    let low = lower_all(src);
    start == 0 || !key_char(low[start - 1])
}

/// The value of the first assignment to `key` at or after `at` that reads,
/// matching the key case-insensitively and never inside a longer key.
pub open spec fn spec_lua_field_from(src: Seq<char>, key: Seq<char>, at: int) -> Option<Seq<char>>
    decreases src.len() - at,
{
    if key.len() == 0 || at < 0 {
        None
    } else {
        match find_from(lower_all(src), lower_all(key), at) {
            None => None,
            Some(start) => {
                proof {
                    lemma_find_from(lower_all(src), lower_all(key), at);
                }
                let next = start + key.len();
                if !key_at(src, key, start) {
                    spec_lua_field_from(src, key, next)
                } else {
                    match spec_string_value(src, next) {
                        Step::Skip => spec_lua_field_from(src, key, next),
                        Step::Done(v) => v,
                    }
                }
            },
        }
    }
}

pub open spec fn spec_lua_field(src: Seq<char>, key: Seq<char>) -> Option<Seq<char>> {
    spec_lua_field_from(src, key, 0)
}

pub enum FoundString {
    Skip,
    Done(Option<Vec<char>>),
}

pub open spec fn found_view(f: FoundString) -> Step {
    match f {
        FoundString::Skip => Step::Skip,
        FoundString::Done(None) => Step::Done(None),
        FoundString::Done(Some(v)) => Step::Done(Some(v@)),
    }
}

fn trimmed_range(src: &[char], from: usize, to: usize) -> (r: Vec<char>)
    requires
        from <= to <= src@.len(),
    ensures
        r@ == trim(src@.subrange(from as int, to as int)),
{
    let part = vstd::slice::slice_subrange(src, from, to);
    let (a, b) = trim_bounds(part);
    let mut r: Vec<char> = Vec::new();
    let mut i = a;
    while i < b
        invariant
            a <= i <= b,
            b <= part@.len(),
            r@ == part@.subrange(a as int, i as int),
        decreases b - i,
    {
        r.push(part[i]);
        i = i + 1;
        assert(r@ =~= part@.subrange(a as int, i as int));
    }
    r
}

fn string_value(src: &[char], from: usize) -> (r: FoundString)
    requires
        from <= src@.len(),
    ensures
        found_view(r) == spec_string_value(src@, from as int),
{
    let a = skip_white(src, from);
    if a >= src.len() || src[a] != '=' {
        return FoundString::Skip;
    }
    let b = skip_white(src, a + 1);
    let close: [char; 2] = [']', ']'];
    if b < src.len() && src.len() - b >= 2 && src[b] == '[' && src[b + 1] == '[' {
        assert(close@ =~= seq![']', ']']);
        return FoundString::Done(
            match find(src, &close, b + 2) {
                Some(e) => {
                    proof {
                        lemma_find_from(src@, close@, (b + 2) as int);
                    }
                    Some(trimmed_range(src, b + 2, e))
                },
                None => None,
            },
        );
    }
    if b < src.len() && (src[b] == '"' || src[b] == '\'') {
        let q = src[b];
        return FoundString::Done(
            match find_char(src, q, b + 1) {
                Some(e) => {
                    proof {
                        lemma_find_char(src@, q, (b + 1) as int);
                    }
                    Some(trimmed_range(src, b + 1, e))
                },
                None => None,
            },
        );
    }
    FoundString::Skip
}

pub proof fn lemma_find_char(s: Seq<char>, c: char, from: int)
    requires
        0 <= from,
    ensures
        find_char_from(s, c, from) matches Some(i) ==> from <= i < s.len() && s[i] == c,
    decreases s.len() - from,
{
    if from < s.len() && s[from] != c {
        lemma_find_char(s, c, from + 1);
    }
}

/// Where the search finds nothing, nothing from `from` on is `c`.
pub proof fn lemma_find_char_none(s: Seq<char>, c: char, from: int, k: int)
    requires
        0 <= from <= k < s.len(),
        find_char_from(s, c, from) is None,
    ensures
        s[k] != c,
    decreases k - from,
{
    if from < k {
        lemma_find_char_none(s, c, from + 1, k);
    }
}

fn is_key_char(c: char) -> (r: bool)
    ensures
        r == key_char(c),
{
    is_alphanumeric(c) || c == '_'
}

fn lua_field_chars(src: &[char], key: &[char]) -> (r: Option<Vec<char>>)
    ensures
        match spec_lua_field(src@, key@) {
            Some(v) => r matches Some(x) && x@ == v,
            None => r is None,
        },
{
    if key.len() == 0 {
        return None;
    }
    let low = lowercase(src);
    let needle = lowercase(key);
    let mut at: usize = 0;
    while at <= src.len()
        invariant
            key@.len() > 0,
            low@ == lower_all(src@),
            needle@ == lower_all(key@),
            needle@.len() == key@.len(),
            at <= src@.len(),
            spec_lua_field(src@, key@) == spec_lua_field_from(src@, key@, at as int),
        decreases src.len() - at,
    {
        match find(&low, &needle, at) {
            None => return None,
            Some(start) => {
                proof {
                    lemma_find_from(low@, needle@, at as int);
                }
                let next = start + needle.len();
                if start > 0 && is_key_char(low[start - 1]) {
                    at = next;
                } else {
                    match string_value(src, next) {
                        FoundString::Skip => {
                            at = next;
                        },
                        FoundString::Done(v) => return v,
                    }
                }
            },
        }
    }
    None
}

/// The value of the first `key = [[text]]`, `key = "text"` or
/// `key = 'text'` in a Lua table body, matched case-insensitively and never
/// inside a longer key: `unitname` does not answer for `name`.
pub fn lua_field(source: &str, key: &str) -> (r: Option<String>)
    ensures
        match spec_lua_field(source@, key@) {
            Some(v) => r matches Some(x) && x@ == v,
            None => r is None,
        },
{
    let src = chars_of(source);
    let k = chars_of(key);
    match lua_field_chars(src.as_slice(), k.as_slice()) {
        Some(v) => Some(string_of(v.as_slice())),
        None => None,
    }
}

// ------------------------------------------------------------ numbers ---

/// The value of a run of ASCII digits.
pub open spec fn digits_value(d: Seq<char>) -> int
    decreases d.len(),
{
    if d.len() == 0 {
        0
    } else {
        digits_value(d.drop_last()) * 10 + (d.last() as int - 48)
    }
}

pub open spec fn all_digits(d: Seq<char>) -> bool {
    forall|i: int| 0 <= i < d.len() ==> crate::text::ascii_digit(#[trigger] d[i])
}

/// `i64::from_str` on text made of digits and `-`: one leading minus at
/// most, at least one digit, and a value `i64` can hold.
pub open spec fn spec_parse_i64(s: Seq<char>) -> Option<int> {
    if s.len() > 0 && s[0] == '-' {
        let d = s.skip(1);
        if d.len() > 0 && all_digits(d) && digits_value(d) <= 0x8000_0000_0000_0000 {
            Some(-digits_value(d))
        } else {
            None
        }
    } else if s.len() > 0 && all_digits(s) && digits_value(s) <= 0x7fff_ffff_ffff_ffff {
        Some(digits_value(s))
    } else {
        None
    }
}

/// How many characters from `i` on are digits or `-`.
pub open spec fn number_run(s: Seq<char>, i: int) -> int
    decreases s.len() - i,
{
    if 0 <= i < s.len() && (crate::text::ascii_digit(s[i]) || s[i] == '-') {
        1 + number_run(s, i + 1)
    } else {
        0
    }
}

/// The number assigned at `from`, quoted or not; `None` to keep looking.
pub open spec fn spec_number_value(src: Seq<char>, from: int) -> Option<int> {
    let a = from + white_run(src, from);
    if a >= src.len() || src[a] != '=' {
        None
    } else {
        let b = a + 1 + white_run(src, a + 1);
        let c = if b < src.len() && src[b] == '"' {
            b + 1
        } else {
            b
        };
        spec_parse_i64(src.subrange(c, c + number_run(src, c)))
    }
}

pub open spec fn spec_lua_number_from(src: Seq<char>, key: Seq<char>, at: int) -> Option<int>
    decreases src.len() - at,
{
    if key.len() == 0 || at < 0 {
        None
    } else {
        match find_from(lower_all(src), lower_all(key), at) {
            None => None,
            Some(start) => {
                proof {
                    lemma_find_from(lower_all(src), lower_all(key), at);
                }
                let next = start + key.len();
                if !key_at(src, key, start) {
                    spec_lua_number_from(src, key, next)
                } else {
                    match spec_number_value(src, next) {
                        Some(n) => Some(n),
                        None => spec_lua_number_from(src, key, next),
                    }
                }
            },
        }
    }
}

pub open spec fn spec_lua_number(src: Seq<char>, key: Seq<char>) -> Option<int> {
    spec_lua_number_from(src, key, 0)
}

proof fn lemma_digits_grow(d: Seq<char>, k: int)
    requires
        0 <= k <= d.len(),
        all_digits(d),
    ensures
        digits_value(d.take(k)) <= digits_value(d),
        0 <= digits_value(d.take(k)),
    decreases d.len() - k,
{
    if k < d.len() {
        lemma_digits_grow(d, k + 1);
        assert(d.take(k + 1).drop_last() =~= d.take(k));
        assert(crate::text::ascii_digit(d[k]));
    } else {
        assert(d.take(k) =~= d);
    }
    lemma_digits_nonneg(d.take(k));
}

proof fn lemma_digits_nonneg(d: Seq<char>)
    requires
        all_digits(d),
    ensures
        0 <= digits_value(d),
    decreases d.len(),
{
    if d.len() > 0 {
        assert(all_digits(d.drop_last()));
        lemma_digits_nonneg(d.drop_last());
        assert(crate::text::ascii_digit(d.last()));
    }
}

/// The value of `s[from..to]` as unsigned digits, when it is at most `limit`.
pub(crate) fn digits_up_to(s: &[char], from: usize, to: usize, limit: u128) -> (r: Option<u128>)
    requires
        from <= to <= s@.len(),
        limit <= 0xffff_ffff_ffff_ffff,
    ensures
        ({
            let d = s@.subrange(from as int, to as int);
            match r {
                Some(v) => all_digits(d) && v == digits_value(d) && v <= limit,
                None => !all_digits(d) || digits_value(d) > limit,
            }
        }),
{
    let ghost d = s@.subrange(from as int, to as int);
    let mut v: u128 = 0;
    let mut i = from;
    while i < to
        invariant
            from <= i <= to,
            to <= s@.len(),
            d == s@.subrange(from as int, to as int),
            limit <= 0xffff_ffff_ffff_ffff,
            all_digits(d.take(i - from)),
            v == digits_value(d.take(i - from)),
            v <= limit,
        decreases to - i,
    {
        let c = s[i];
        assert(d.take(i - from + 1).drop_last() =~= d.take(i - from));
        if !('0' <= c && c <= '9') {
            assert(d[i - from] == c);
            return None;
        }
        let next = v * 10 + ((c as u32) - 48) as u128;
        if next > limit {
            proof {
                assert(all_digits(d.take(i - from + 1)));
                if all_digits(d) {
                    lemma_digits_grow(d, i - from + 1);
                }
            }
            return None;
        }
        v = next;
        i = i + 1;
        assert(all_digits(d.take(i - from)));
    }
    assert(d.take(to - from) =~= d);
    Some(v)
}

fn parse_i64(s: &[char], from: usize, to: usize) -> (r: Option<i64>)
    requires
        from <= to <= s@.len(),
    ensures
        match spec_parse_i64(s@.subrange(from as int, to as int)) {
            Some(n) => r matches Some(x) && x as int == n,
            None => r is None,
        },
{
    let ghost t = s@.subrange(from as int, to as int);
    if from < to && s[from] == '-' {
        assert(t.skip(1) =~= s@.subrange(from + 1, to as int));
        if from + 1 == to {
            return None;
        }
        match digits_up_to(s, from + 1, to, 0x8000_0000_0000_0000) {
            Some(v) => {
                let n: i128 = -(v as i128);
                Some(n as i64)
            },
            None => None,
        }
    } else {
        if from == to {
            return None;
        }
        match digits_up_to(s, from, to, 0x7fff_ffff_ffff_ffff) {
            Some(v) => Some(v as i64),
            None => None,
        }
    }
}

fn number_end(s: &[char], from: usize) -> (r: usize)
    requires
        from <= s@.len(),
    ensures
        r == from + number_run(s@, from as int),
        from <= r <= s@.len(),
{
    let mut i = from;
    while i < s.len() && (('0' <= s[i] && s[i] <= '9') || s[i] == '-')
        invariant
            from <= i <= s@.len(),
            number_run(s@, from as int) == (i - from) + number_run(s@, i as int),
        decreases s.len() - i,
    {
        i = i + 1;
    }
    i
}

fn number_value(src: &[char], from: usize) -> (r: Option<i64>)
    requires
        from <= src@.len(),
    ensures
        match spec_number_value(src@, from as int) {
            Some(n) => r matches Some(x) && x as int == n,
            None => r is None,
        },
{
    let a = skip_white(src, from);
    if a >= src.len() || src[a] != '=' {
        return None;
    }
    let b = skip_white(src, a + 1);
    let c = if b < src.len() && src[b] == '"' {
        b + 1
    } else {
        b
    };
    let e = number_end(src, c);
    parse_i64(src, c, e)
}

/// The first numeric `key = 3` or `key = "3"` in a Lua table body.
///
/// `modtype` is the one field read here that the engine writes unquoted;
/// older caches quote it, so both forms are accepted.
pub fn lua_number(source: &str, key: &str) -> (r: Option<i64>)
    ensures
        match spec_lua_number(source@, key@) {
            Some(n) => r matches Some(x) && x as int == n,
            None => r is None,
        },
{
    let src = chars_of(source);
    let k = chars_of(key);
    if k.len() == 0 {
        return None;
    }
    let low = lowercase(src.as_slice());
    let needle = lowercase(k.as_slice());
    let mut at: usize = 0;
    while at <= src.len()
        invariant
            k@.len() > 0,
            src@ == source@,
            k@ == key@,
            low@ == lower_all(src@),
            needle@ == lower_all(k@),
            needle@.len() == k@.len(),
            at <= src@.len(),
            spec_lua_number(src@, k@) == spec_lua_number_from(src@, k@, at as int),
        decreases src.len() - at,
    {
        match find(low.as_slice(), needle.as_slice(), at) {
            None => return None,
            Some(start) => {
                proof {
                    lemma_find_from(low@, needle@, at as int);
                }
                let next = start + needle.len();
                if start > 0 && is_key_char(low[start - 1]) {
                    at = next;
                } else {
                    match number_value(src.as_slice(), next) {
                        Some(n) => return Some(n),
                        None => {
                            at = next;
                        },
                    }
                }
            },
        }
    }
    None
}

} // verus!
