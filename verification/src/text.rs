//! Character-level text handling shared by the parsers: case folding,
//! whitespace, substring search.
//!
//! Text is handled as a sequence of `char`s. The formats read here (Lua
//! tables, VDF, start scripts) are ASCII in every place that matters, and a
//! position counted in characters finds the same match a byte offset would.
use vstd::prelude::*;
use vstd::string::StringExecFns;

verus! {

// ------------------------------------------------------- std wrappers ---

/// The characters of `s` (`str::chars`, collected).
///
/// Trusted: claims only that the vector holds `s`'s characters in order.
#[verifier::external_body]
pub(crate) fn chars_of(s: &str) -> (v: Vec<char>)
    ensures
        v@ == s@,
{
    s.chars().collect()
}

/// A `String` holding exactly `v` (`String::from_iter`).
///
/// Trusted: claims only that the string's characters are `v`'s.
#[verifier::external_body]
pub(crate) fn string_of(v: &[char]) -> (s: String)
    ensures
        s@ == v@,
{
    v.iter().collect()
}

/// Whether Unicode calls `c` alphabetic or numeric (`char::is_alphanumeric`).
pub uninterp spec fn unicode_alphanumeric(c: char) -> bool;

/// `char::is_alphanumeric`.
///
/// Trusted: claims that the answer is a function of `c` alone, and that the
/// ASCII letters and digits are alphanumeric, as the documentation says; the
/// Unicode tables beyond ASCII are not restated.
#[verifier::external_body]
pub(crate) fn is_alphanumeric(c: char) -> (r: bool)
    ensures
        r == unicode_alphanumeric(c),
        ascii_alnum(c) ==> r,
        c == '_' || c == '.' || c == ' ' || c == '-' || c == '"' || c == '=' ==> !r,
{
    c.is_alphanumeric()
}

// ----------------------------------------------------- classification ---

pub open spec fn ascii_digit(c: char) -> bool {
    '0' <= c <= '9'
}

pub open spec fn ascii_alnum(c: char) -> bool {
    ('0' <= c <= '9') || ('a' <= c <= 'z') || ('A' <= c <= 'Z')
}

/// Unicode's White_Space property, which is what `char::is_whitespace` and
/// `str::trim` go by.
pub open spec fn white(c: char) -> bool {
    let u = c as u32;
    (9 <= u <= 13) || u == 32 || u == 0x85 || u == 0xA0 || u == 0x1680 || (0x2000 <= u <= 0x200A)
        || u == 0x2028 || u == 0x2029 || u == 0x202F || u == 0x205F || u == 0x3000
}

pub fn is_white(c: char) -> (r: bool)
    ensures
        r == white(c),
{
    let u = c as u32;
    (9 <= u && u <= 13) || u == 32 || u == 0x85 || u == 0xA0 || u == 0x1680 || (0x2000 <= u && u
        <= 0x200A) || u == 0x2028 || u == 0x2029 || u == 0x202F || u == 0x205F || u == 0x3000
}

pub fn is_ascii_alnum(c: char) -> (r: bool)
    ensures
        r == ascii_alnum(c),
{
    ('0' <= c && c <= '9') || ('a' <= c && c <= 'z') || ('A' <= c && c <= 'Z')
}

// ------------------------------------------------------- case folding ---

/// `char::to_ascii_lowercase`.
pub open spec fn lower(c: char) -> char {
    if 'A' <= c <= 'Z' {
        ((c as u32) + 32) as char
    } else {
        c
    }
}

pub open spec fn lower_all(s: Seq<char>) -> Seq<char> {
    s.map_values(|c: char| lower(c))
}

pub fn lower_char(c: char) -> (r: char)
    ensures
        r == lower(c),
{
    if 'A' <= c && c <= 'Z' {
        ((c as u8) + 32) as char
    } else {
        c
    }
}

/// `str::to_ascii_lowercase`, over characters.
pub fn lowercase(s: &[char]) -> (r: Vec<char>)
    ensures
        r@ == lower_all(s@),
{
    let mut r: Vec<char> = Vec::new();
    let mut i: usize = 0;
    while i < s.len()
        invariant
            i <= s@.len(),
            r@ == lower_all(s@.take(i as int)),
        decreases s.len() - i,
    {
        r.push(lower_char(s[i]));
        i = i + 1;
        assert(r@ =~= lower_all(s@.take(i as int)));
    }
    assert(s@.take(s@.len() as int) =~= s@);
    r
}

// ----------------------------------------------------------- searching ---

/// `needle` sits in `hay` at `i`.
pub open spec fn occurs_at(hay: Seq<char>, needle: Seq<char>, i: int) -> bool {
    0 <= i && i + needle.len() <= hay.len() && hay.subrange(i, i + needle.len()) == needle
}

/// The first place at or after `from` where `needle` sits in `hay`.
pub open spec fn find_from(hay: Seq<char>, needle: Seq<char>, from: int) -> Option<int>
    decreases hay.len() + 1 - from,
{
    if from < 0 || from + needle.len() > hay.len() {
        None
    } else if occurs_at(hay, needle, from) {
        Some(from)
    } else {
        find_from(hay, needle, from + 1)
    }
}

pub proof fn lemma_find_from(hay: Seq<char>, needle: Seq<char>, from: int)
    requires
        0 <= from,
    ensures
        find_from(hay, needle, from) matches Some(i) ==> from <= i && occurs_at(hay, needle, i)
            && forall|j: int| from <= j < i ==> !occurs_at(hay, needle, j),
        find_from(hay, needle, from) is None ==> forall|j: int|
            from <= j ==> !occurs_at(hay, needle, j),
    decreases hay.len() + 1 - from,
{
    if from + needle.len() <= hay.len() && !occurs_at(hay, needle, from) {
        lemma_find_from(hay, needle, from + 1);
    }
}

/// Whether `needle` sits in `hay` at `at`.
pub fn matches_at(hay: &[char], needle: &[char], at: usize) -> (r: bool)
    ensures
        r == occurs_at(hay@, needle@, at as int),
{
    if at > hay.len() || needle.len() > hay.len() - at {
        return false;
    }
    let mut j: usize = 0;
    while j < needle.len()
        invariant
            at + needle@.len() <= hay@.len(),
            hay@.len() == hay.len(),
            needle@.len() == needle.len(),
            j <= needle@.len(),
            forall|t: int| 0 <= t < j ==> hay@[at + t] == needle@[t],
        decreases needle.len() - j,
    {
        if hay[at + j] != needle[j] {
            assert(hay@.subrange(at as int, at + needle@.len())[j as int] != needle@[j as int]);
            return false;
        }
        j = j + 1;
    }
    assert(hay@.subrange(at as int, at + needle@.len()) =~= needle@);
    true
}

/// `str::find` from a starting position.
pub fn find(hay: &[char], needle: &[char], from: usize) -> (r: Option<usize>)
    ensures
        match find_from(hay@, needle@, from as int) {
            Some(i) => r matches Some(x) && x as int == i,
            None => r is None,
        },
        r matches Some(x) ==> from <= x && occurs_at(hay@, needle@, x as int) && x + needle@.len()
            <= hay@.len(),
{
    proof {
        lemma_find_from(hay@, needle@, from as int);
    }
    if from > hay.len() || needle.len() > hay.len() - from {
        return None;
    }
    let last = hay.len() - needle.len();
    let mut i = from;
    while i <= last
        invariant
            from <= i,
            last == hay@.len() - needle@.len(),
            i <= last,
            find_from(hay@, needle@, from as int) == find_from(hay@, needle@, i as int),
        decreases last + 1 - i,
    {
        if matches_at(hay, needle, i) {
            return Some(i);
        }
        if i == last {
            assert(find_from(hay@, needle@, i + 1) is None);
            return None;
        }
        i = i + 1;
    }
    None
}

/// The first index at or after `from` holding `c`.
pub open spec fn find_char_from(s: Seq<char>, c: char, from: int) -> Option<int>
    decreases s.len() - from,
{
    if from < 0 || from >= s.len() {
        None
    } else if s[from] == c {
        Some(from)
    } else {
        find_char_from(s, c, from + 1)
    }
}

pub fn find_char(s: &[char], c: char, from: usize) -> (r: Option<usize>)
    ensures
        match find_char_from(s@, c, from as int) {
            Some(i) => r matches Some(x) && x as int == i,
            None => r is None,
        },
        r matches Some(x) ==> from <= x < s@.len() && s@[x as int] == c,
{
    let mut i = from;
    while i < s.len()
        invariant
            from <= i,
            find_char_from(s@, c, from as int) == find_char_from(s@, c, i as int),
        decreases s.len() - i,
    {
        if s[i] == c {
            return Some(i);
        }
        i = i + 1;
    }
    None
}

// ------------------------------------------------------------ trimming ---

/// How many characters from `from` on are whitespace.
pub open spec fn white_run(s: Seq<char>, from: int) -> int
    decreases s.len() - from,
{
    if from < 0 || from >= s.len() || !white(s[from]) {
        0
    } else {
        1 + white_run(s, from + 1)
    }
}

/// The index just past the last non-whitespace character before `to`.
pub open spec fn trim_end_at(s: Seq<char>, to: int) -> int
    decreases to,
{
    if to <= 0 || to > s.len() || !white(s[to - 1]) {
        to
    } else {
        trim_end_at(s, to - 1)
    }
}

/// `str::trim_start`.
pub open spec fn trim_start(s: Seq<char>) -> Seq<char> {
    s.skip(white_run(s, 0))
}

/// `str::trim`.
pub open spec fn trim(s: Seq<char>) -> Seq<char> {
    let st = trim_start(s);
    st.take(trim_end_at(st, st.len() as int))
}

pub proof fn lemma_white_run(s: Seq<char>, from: int)
    requires
        0 <= from <= s.len(),
    ensures
        0 <= white_run(s, from) <= s.len() - from,
    decreases s.len() - from,
{
    if from < s.len() && white(s[from]) {
        lemma_white_run(s, from + 1);
    }
}

pub proof fn lemma_trim_end_at(s: Seq<char>, to: int)
    requires
        0 <= to <= s.len(),
    ensures
        0 <= trim_end_at(s, to) <= to,
    decreases to,
{
    if to > 0 && white(s[to - 1]) {
        lemma_trim_end_at(s, to - 1);
    }
}

/// Where the leading whitespace from `from` ends.
pub fn skip_white(s: &[char], from: usize) -> (r: usize)
    requires
        from <= s@.len(),
    ensures
        r == from + white_run(s@, from as int),
        r <= s@.len(),
{
    let mut i = from;
    proof {
        lemma_white_run(s@, from as int);
    }
    while i < s.len() && is_white(s[i])
        invariant
            from <= i <= s@.len(),
            white_run(s@, from as int) == (i - from) + white_run(s@, i as int),
        decreases s.len() - i,
    {
        i = i + 1;
    }
    i
}

/// Where `str::trim` would cut `s`: `s[start..end]` is the trimmed text.
pub fn trim_bounds(s: &[char]) -> (r: (usize, usize))
    ensures
        r.0 <= r.1 <= s@.len(),
        s@.subrange(r.0 as int, r.1 as int) == trim(s@),
{
    let start = skip_white(s, 0);
    let mut end = s.len();
    proof {
        lemma_white_run(s@, 0);
    }
    let ghost st = s@.skip(start as int);
    while end > start && is_white(s[end - 1])
        invariant
            start <= end <= s@.len(),
            st == s@.skip(start as int),
            trim_end_at(st, st.len() as int) == trim_end_at(st, end - start),
        decreases end,
    {
        assert(st[end - start - 1] == s@[end - 1]);
        end = end - 1;
    }
    proof {
        if end > start {
            assert(st[end - start - 1] == s@[end - 1]);
        }
    }
    assert(s@.subrange(start as int, end as int) =~= trim(s@));
    (start, end)
}

/// `str::trim`, over characters.
pub fn trimmed(s: &[char]) -> (r: Vec<char>)
    ensures
        r@ == trim(s@),
{
    let (start, end) = trim_bounds(s);
    let mut r: Vec<char> = Vec::new();
    let mut i = start;
    while i < end
        invariant
            start <= i <= end,
            end <= s@.len(),
            r@ == s@.subrange(start as int, i as int),
        decreases end - i,
    {
        r.push(s[i]);
        i = i + 1;
        assert(r@ =~= s@.subrange(start as int, i as int));
    }
    r
}

/// Whether two texts hold the same characters.
pub fn same_text(a: &str, b: &str) -> (r: bool)
    ensures
        r == (a@ == b@),
{
    let x = chars_of(a);
    let y = chars_of(b);
    if x.len() != y.len() {
        return false;
    }
    let mut i: usize = 0;
    while i < x.len()
        invariant
            x@.len() == y@.len(),
            x@ == a@,
            y@ == b@,
            i <= x@.len(),
            forall|j: int| 0 <= j < i ==> x@[j] == y@[j],
        decreases x.len() - i,
    {
        if x[i] != y[i] {
            assert(x@[i as int] != y@[i as int]);
            return false;
        }
        i = i + 1;
    }
    assert(x@ =~= y@);
    true
}

/// `str::starts_with`.
pub open spec fn starts_with(s: Seq<char>, prefix: Seq<char>) -> bool {
    prefix.len() <= s.len() && s.take(prefix.len() as int) == prefix
}

pub fn text_starts_with(s: &[char], prefix: &str) -> (r: bool)
    ensures
        r == starts_with(s@, prefix@),
{
    let p = chars_of(prefix);
    if p.len() > s.len() {
        return false;
    }
    let mut i: usize = 0;
    while i < p.len()
        invariant
            p@ == prefix@,
            p@.len() <= s@.len(),
            i <= p@.len(),
            forall|j: int| 0 <= j < i ==> s@[j] == p@[j],
        decreases p.len() - i,
    {
        if s[i] != p[i] {
            assert(s@.take(p@.len() as int)[i as int] != p@[i as int]);
            return false;
        }
        i = i + 1;
    }
    assert(s@.take(p@.len() as int) =~= p@);
    true
}

/// `str::contains` of a piece of text.
pub open spec fn contains(s: Seq<char>, piece: Seq<char>) -> bool {
    exists|i: int| occurs_at(s, piece, i)
}

pub fn text_contains(s: &[char], piece: &str) -> (r: bool)
    ensures
        r == contains(s@, piece@),
{
    let p = chars_of(piece);
    proof {
        lemma_find_from(s@, p@, 0);
    }
    match find(s, p.as_slice(), 0) {
        Some(i) => {
            assert(occurs_at(s@, p@, i as int));
            true
        },
        None => {
            assert forall|i: int| !occurs_at(s@, piece@, i) by {
                if i >= 0 {
                    assert(!occurs_at(s@, p@, i));
                }
            }
            false
        },
    }
}

// ------------------------------------------------------------ splitting ---

/// `s` cut at every `c`, as `str::split` cuts it: one more piece than there
/// are separators, empty pieces included.
pub open spec fn split_on(s: Seq<char>, c: char) -> Seq<Seq<char>>
    decreases s.len(),
{
    if s.len() == 0 {
        seq![Seq::empty()]
    } else {
        let p = split_on(s.drop_last(), c);
        if s.last() == c {
            p.push(Seq::empty())
        } else {
            p.update(p.len() - 1, p.last().push(s.last()))
        }
    }
}

pub proof fn lemma_split_on_len(s: Seq<char>, c: char)
    ensures
        split_on(s, c).len() >= 1,
    decreases s.len(),
{
    if s.len() > 0 {
        lemma_split_on_len(s.drop_last(), c);
    }
}

pub open spec fn pieces_view(v: Seq<Vec<char>>) -> Seq<Seq<char>> {
    v.map_values(|p: Vec<char>| p@)
}

/// `str::split` on one character.
pub fn split_chars(s: &[char], c: char) -> (r: Vec<Vec<char>>)
    ensures
        pieces_view(r@) == split_on(s@, c),
{
    let mut done: Vec<Vec<char>> = Vec::new();
    let mut cur: Vec<char> = Vec::new();
    let mut i: usize = 0;
    while i < s.len()
        invariant
            i <= s@.len(),
            pieces_view(done@).push(cur@) == split_on(s@.take(i as int), c),
        decreases s.len() - i,
    {
        proof {
            lemma_split_on_len(s@.take(i as int), c);
        }
        assert(s@.take(i + 1).drop_last() =~= s@.take(i as int));
        if s[i] == c {
            let finished = cur;
            done.push(finished);
            cur = Vec::new();
            assert(pieces_view(done@).push(cur@) =~= split_on(s@.take(i + 1), c));
        } else {
            cur.push(s[i]);
            assert(pieces_view(done@).push(cur@) =~= split_on(s@.take(i + 1), c));
        }
        i = i + 1;
    }
    assert(s@.take(s@.len() as int) =~= s@);
    done.push(cur);
    assert(pieces_view(done@) =~= split_on(s@, c));
    done
}

/// A piece of a text split at `'\n'`, as `str::lines` gives it: a `'\r'`
/// before the newline is not part of the line, and a bare one at the very end
/// is. Unlike `str::lines`, a text ending in a newline has one more, empty,
/// line; none of the readers here take anything from an empty line.
pub open spec fn line_of(pieces: Seq<Seq<char>>, i: int) -> Seq<char> {
    let p = pieces[i];
    if i + 1 < pieces.len() && p.len() > 0 && p.last() == '\r' {
        p.drop_last()
    } else {
        p
    }
}

pub open spec fn text_lines(s: Seq<char>) -> Seq<Seq<char>> {
    let pieces = split_on(s, '\n');
    Seq::new(pieces.len(), |i: int| line_of(pieces, i))
}

/// The lines of `s`, by [`text_lines`].
pub fn lines_of(s: &[char]) -> (r: Vec<Vec<char>>)
    ensures
        pieces_view(r@) == text_lines(s@),
{
    let pieces = split_chars(s, '\n');
    let ghost pv = split_on(s@, '\n');
    let mut out: Vec<Vec<char>> = Vec::new();
    let mut i: usize = 0;
    while i < pieces.len()
        invariant
            pieces_view(pieces@) == pv,
            pv == split_on(s@, '\n'),
            i <= pieces@.len(),
            pieces_view(out@) == text_lines(s@).take(i as int),
        decreases pieces.len() - i,
    {
        let p = &pieces[i];
        assert(pv[i as int] == p@);
        let mut line: Vec<char> = Vec::new();
        let n = p.len();
        let keep = if i + 1 < pieces.len() && n > 0 && p[n - 1] == '\r' {
            n - 1
        } else {
            n
        };
        let mut j: usize = 0;
        while j < keep
            invariant
                keep <= p@.len(),
                j <= keep,
                line@ == p@.take(j as int),
            decreases keep - j,
        {
            line.push(p[j]);
            j = j + 1;
            assert(line@ =~= p@.take(j as int));
        }
        assert(line@ =~= line_of(pv, i as int));
        assert(text_lines(s@)[i as int] == line_of(pv, i as int));
        let ghost before = pieces_view(out@);
        out.push(line);
        assert(pieces_view(out@) =~= before.push(line_of(pv, i as int)));
        i = i + 1;
        assert(pieces_view(out@) =~= text_lines(s@).take(i as int));
    }
    assert(text_lines(s@).take(pieces@.len() as int) =~= text_lines(s@));
    out
}

// ----------------------------------------------------------- building ---

/// An owned copy of `s`.
pub fn owned(s: &str) -> (r: String)
    ensures
        r@ == s@,
{
    <String as vstd::string::StringExecFns>::from_str(s)
}

/// `a` followed by `b`.
pub fn concat(a: &str, b: &str) -> (r: String)
    ensures
        r@ == a@ + b@,
{
    let mut r = owned(a);
    r.append(b);
    r
}

/// The decimal digits of `n`, as `u64`'s `Display` writes them.
pub open spec fn decimal(n: nat) -> Seq<char>
    decreases n,
{
    if n < 10 {
        seq![(48 + n) as char]
    } else {
        decimal(n / 10).push((48 + n % 10) as char)
    }
}

/// `n.to_string()`, for any unsigned integer widened to `u128`.
pub fn decimal_string(n: u128) -> (r: String)
    ensures
        r@ == decimal(n as nat),
    decreases n,
{
    if n < 10 {
        let mut r = String::new();
        crate::codec::push_char(&mut r, ((48 + n) as u8) as char);
        assert(r@ =~= decimal(n as nat));
        r
    } else {
        let mut r = decimal_string(n / 10);
        crate::codec::push_char(&mut r, ((48 + n % 10) as u8) as char);
        r
    }
}

/// The decimal digits of `n`, with a minus sign where it is negative, as
/// `i64`'s `Display` writes them.
pub open spec fn signed_decimal(n: int) -> Seq<char> {
    if n < 0 {
        seq!['-'] + decimal((-n) as nat)
    } else {
        decimal(n as nat)
    }
}

/// `n.to_string()`.
pub fn signed_decimal_string(n: i64) -> (r: String)
    ensures
        r@ == signed_decimal(n as int),
{
    if n < 0 {
        let magnitude: u128 = (0i128 - (n as i128)) as u128;
        let digits = decimal_string(magnitude);
        proof {
            reveal_strlit("-");
        }
        let r = concat("-", digits.as_str());
        assert(r@ =~= signed_decimal(n as int));
        r
    } else {
        decimal_string(n as u128)
    }
}

/// `parts` joined with `sep` between each two, as `[&str]::join` does.
pub open spec fn joined(parts: Seq<Seq<char>>, sep: Seq<char>) -> Seq<char>
    decreases parts.len(),
{
    if parts.len() == 0 {
        Seq::empty()
    } else if parts.len() == 1 {
        parts[0]
    } else {
        joined(parts.drop_last(), sep) + sep + parts.last()
    }
}

} // verus!
