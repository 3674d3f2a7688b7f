//! The two base64 dialects this crate speaks.
//!
//! Images and metal maps travel to the frontend as standard base64 (`+`, `/`,
//! `=` padding). Share codes arrive as base64url, where padding is optional
//! and the reader also takes the standard alphabet's two extra letters, since
//! both kinds circulate; the mission payloads leave as base64url, unpadded.
use vstd::prelude::*;
use vstd::string::StringSliceAdditionalSpecFns;

verus! {

// ------------------------------------------------------------- strings ---

/// Appends one character to a `String` (`String::push`).
///
/// Trusted: claims only that the new contents are the old ones followed by
/// `c`, which is what the standard library documents.
#[verifier::external_body]
pub(crate) fn push_char(s: &mut String, c: char)
    ensures
        final(s)@ == old(s)@.push(c),
{
    s.push(c);
}

// ------------------------------------------------------ standard encode ---

/// The standard alphabet: `A-Z`, `a-z`, `0-9`, `+`, `/`.
pub open spec fn std_letter(v: int) -> char {
    if v < 26 {
        (65 + v) as char
    } else if v < 52 {
        (97 + v - 26) as char
    } else if v < 62 {
        (48 + v - 52) as char
    } else if v == 62 {
        '+'
    } else {
        '/'
    }
}

/// The four letters a whole group of three bytes becomes.
pub open spec fn std_quad(b0: int, b1: int, b2: int) -> Seq<char> {
    seq![
        std_letter(b0 / 4),
        std_letter((b0 % 4) * 16 + b1 / 16),
        std_letter((b1 % 16) * 4 + b2 / 64),
        std_letter(b2 % 64),
    ]
}

/// The first `n` whole groups of `b`, encoded.
pub open spec fn std_groups(b: Seq<u8>, n: nat) -> Seq<char>
    decreases n,
{
    if n == 0 {
        Seq::empty()
    } else {
        let k = (n - 1) as nat;
        let at = 3 * k as int;
        std_groups(b, k) + std_quad(b[at] as int, b[at + 1] as int, b[at + 2] as int)
    }
}

/// The one or two bytes left over after the whole groups, padded with `=`.
pub open spec fn std_tail(b: Seq<u8>) -> Seq<char> {
    let full = 3 * (b.len() / 3) as int;
    if b.len() % 3 == 1 {
        let b0 = b[full] as int;
        seq![std_letter(b0 / 4), std_letter((b0 % 4) * 16), '=', '=']
    } else if b.len() % 3 == 2 {
        let b0 = b[full] as int;
        let b1 = b[full + 1] as int;
        seq![std_letter(b0 / 4), std_letter((b0 % 4) * 16 + b1 / 16), std_letter((b1 % 16) * 4), '=']
    } else {
        Seq::empty()
    }
}

/// Standard base64 (RFC 4648, section 4) of `b`, padded.
pub open spec fn spec_base64_standard(b: Seq<u8>) -> Seq<char> {
    std_groups(b, b.len() / 3) + std_tail(b)
}

fn letter(v: u8) -> (c: char)
    requires
        v < 64,
    ensures
        c == std_letter(v as int),
{
    if v < 26 {
        (65 + v) as char
    } else if v < 52 {
        (97 + v - 26) as char
    } else if v < 62 {
        (48 + v - 52) as char
    } else if v == 62 {
        '+'
    } else {
        '/'
    }
}

/// Standard base64 of `data`, padded, as the frontend's `atob` reads it.
pub fn base64_standard(data: &[u8]) -> (text: String)
    ensures
        text@ == spec_base64_standard(data@),
{
    let mut out = String::new();
    let n = data.len();
    let groups = n / 3;
    let mut g: usize = 0;
    while g < groups
        invariant
            n == data@.len(),
            groups == n / 3,
            g <= groups,
            out@ == std_groups(data@, g as nat),
        decreases groups - g,
    {
        let b0 = data[3 * g];
        let b1 = data[3 * g + 1];
        let b2 = data[3 * g + 2];
        push_char(&mut out, letter(b0 / 4));
        push_char(&mut out, letter((b0 % 4) * 16 + b1 / 16));
        push_char(&mut out, letter((b1 % 16) * 4 + b2 / 64));
        push_char(&mut out, letter(b2 % 64));
        g = g + 1;
    }
    let full = 3 * groups;
    if n % 3 == 1 {
        let b0 = data[full];
        push_char(&mut out, letter(b0 / 4));
        push_char(&mut out, letter((b0 % 4) * 16));
        push_char(&mut out, '=');
        push_char(&mut out, '=');
    } else if n % 3 == 2 {
        let b0 = data[full];
        let b1 = data[full + 1];
        push_char(&mut out, letter(b0 / 4));
        push_char(&mut out, letter((b0 % 4) * 16 + b1 / 16));
        push_char(&mut out, letter((b1 % 16) * 4));
        push_char(&mut out, '=');
    }
    assert(out@ =~= spec_base64_standard(data@));
    out
}

// ----------------------------------------------------------- url encode ---

/// The URL-safe alphabet: `A-Z`, `a-z`, `0-9`, `-`, `_`.
pub open spec fn url_letter(v: int) -> char {
    if v < 26 {
        (65 + v) as char
    } else if v < 52 {
        (97 + v - 26) as char
    } else if v < 62 {
        (48 + v - 52) as char
    } else if v == 62 {
        '-'
    } else {
        '_'
    }
}

/// The four sextets of a whole group of three bytes.
pub open spec fn sextets(b0: int, b1: int, b2: int) -> Seq<int> {
    seq![b0 / 4, (b0 % 4) * 16 + b1 / 16, (b1 % 16) * 4 + b2 / 64, b2 % 64]
}

/// The first `n` whole groups of `b`, in the URL-safe alphabet.
pub open spec fn url_groups(b: Seq<u8>, n: nat) -> Seq<char>
    decreases n,
{
    if n == 0 {
        Seq::empty()
    } else {
        let k = (n - 1) as nat;
        let at = 3 * k as int;
        url_groups(b, k) + sextets(b[at] as int, b[at + 1] as int, b[at + 2] as int).map_values(
            |v: int| url_letter(v),
        )
    }
}

/// The one or two bytes left over after the whole groups, unpadded.
pub open spec fn url_tail(b: Seq<u8>) -> Seq<char> {
    let full = 3 * (b.len() / 3) as int;
    if b.len() % 3 == 1 {
        let b0 = b[full] as int;
        seq![url_letter(b0 / 4), url_letter((b0 % 4) * 16)]
    } else if b.len() % 3 == 2 {
        let b0 = b[full] as int;
        let b1 = b[full + 1] as int;
        seq![url_letter(b0 / 4), url_letter((b0 % 4) * 16 + b1 / 16), url_letter((b1 % 16) * 4)]
    } else {
        Seq::empty()
    }
}

/// base64url (RFC 4648, section 5) of `b`, without padding.
pub open spec fn spec_base64url(b: Seq<u8>) -> Seq<char> {
    url_groups(b, b.len() / 3) + url_tail(b)
}

fn url_letter_of(v: u8) -> (c: char)
    requires
        v < 64,
    ensures
        c == url_letter(v as int),
{
    if v < 26 {
        (65 + v) as char
    } else if v < 52 {
        (97 + v - 26) as char
    } else if v < 62 {
        (48 + v - 52) as char
    } else if v == 62 {
        '-'
    } else {
        '_'
    }
}

/// base64url of `data`, without padding.
pub fn base64url_encode(data: &[u8]) -> (text: String)
    ensures
        text@ == spec_base64url(data@),
{
    let mut out = String::new();
    let n = data.len();
    let groups = n / 3;
    let mut g: usize = 0;
    while g < groups
        invariant
            n == data@.len(),
            groups == n / 3,
            g <= groups,
            out@ == url_groups(data@, g as nat),
        decreases groups - g,
    {
        let b0 = data[3 * g];
        let b1 = data[3 * g + 1];
        let b2 = data[3 * g + 2];
        let ghost before = out@;
        push_char(&mut out, url_letter_of(b0 / 4));
        push_char(&mut out, url_letter_of((b0 % 4) * 16 + b1 / 16));
        push_char(&mut out, url_letter_of((b1 % 16) * 4 + b2 / 64));
        push_char(&mut out, url_letter_of(b2 % 64));
        g = g + 1;
        assert(out@ =~= url_groups(data@, g as nat));
    }
    let full = 3 * groups;
    if n % 3 == 1 {
        let b0 = data[full];
        push_char(&mut out, url_letter_of(b0 / 4));
        push_char(&mut out, url_letter_of((b0 % 4) * 16));
    } else if n % 3 == 2 {
        let b0 = data[full];
        let b1 = data[full + 1];
        push_char(&mut out, url_letter_of(b0 / 4));
        push_char(&mut out, url_letter_of((b0 % 4) * 16 + b1 / 16));
        push_char(&mut out, url_letter_of((b1 % 16) * 4));
    }
    assert(out@ =~= spec_base64url(data@));
    out
}

/// A byte that Zero-K's decoder takes back unharmed wherever it falls: a
/// printable ASCII character other than `?`. No sextet of such bytes is 63,
/// the value whose letter, `_`, that decoder reads as the end of the data.
pub open spec fn survives(b: u8) -> bool {
    32 <= b <= 126 && b != 63
}

/// A letter of the URL-safe alphabet.
pub open spec fn url_alphabet(c: char) -> bool {
    ('A' <= c <= 'Z') || ('a' <= c <= 'z') || ('0' <= c <= '9') || c == '-' || c == '_'
}

proof fn lemma_url_letter(v: int)
    requires
        0 <= v < 64,
    ensures
        url_alphabet(url_letter(v)),
        url_letter(v) == '_' <==> v == 63,
{
}

proof fn lemma_sextets(b0: u8, b1: u8, b2: u8)
    ensures
        forall|i: int| 0 <= i < 4 ==> 0 <= #[trigger] sextets(b0 as int, b1 as int, b2 as int)[i] < 64,
        survives(b0) && survives(b1) && survives(b2) ==> forall|i: int|
            0 <= i < 4 ==> #[trigger] sextets(b0 as int, b1 as int, b2 as int)[i] != 63,
{
    let s = sextets(b0 as int, b1 as int, b2 as int);
    assert(s[0] == b0 / 4);
    assert(s[1] == (b0 % 4) * 16 + b1 / 16);
    assert(s[2] == (b1 % 16) * 4 + b2 / 64);
    assert(s[3] == b2 % 64);
}

proof fn lemma_url_groups(b: Seq<u8>, n: nat)
    requires
        3 * n <= b.len(),
    ensures
        url_groups(b, n).len() == 4 * n,
        forall|i: int| 0 <= i < url_groups(b, n).len() ==> url_alphabet(#[trigger] url_groups(b, n)[i]),
        (forall|j: int| 0 <= j < b.len() ==> survives(#[trigger] b[j])) ==> forall|i: int|
            0 <= i < url_groups(b, n).len() ==> #[trigger] url_groups(b, n)[i] != '_',
    decreases n,
{
    if n > 0 {
        let k = (n - 1) as nat;
        let at = 3 * k as int;
        lemma_url_groups(b, k);
        let s = sextets(b[at] as int, b[at + 1] as int, b[at + 2] as int);
        lemma_sextets(b[at], b[at + 1], b[at + 2]);
        let q = s.map_values(|v: int| url_letter(v));
        assert forall|i: int| 0 <= i < 4 implies url_alphabet(#[trigger] q[i]) && (q[i] == '_' <==> s[i] == 63) by {
            lemma_url_letter(s[i]);
        }
        let whole = url_groups(b, n);
        assert(whole == url_groups(b, k) + q);
        if forall|j: int| 0 <= j < b.len() ==> survives(#[trigger] b[j]) {
            assert(survives(b[at]) && survives(b[at + 1]) && survives(b[at + 2]));
        }
    }
}

/// Every letter base64url writes is a letter of its alphabet, so none is a
/// brace or a `;`; and where every byte survives, none is `_`.
pub proof fn law_base64url_letters(b: Seq<u8>)
    ensures
        forall|i: int| 0 <= i < spec_base64url(b).len() ==> url_alphabet(#[trigger] spec_base64url(b)[i]),
        (forall|j: int| 0 <= j < b.len() ==> survives(#[trigger] b[j])) ==> forall|i: int|
            0 <= i < spec_base64url(b).len() ==> #[trigger] spec_base64url(b)[i] != '_',
{
    let n = b.len() / 3;
    lemma_url_groups(b, n);
    let full = 3 * n as int;
    let t = url_tail(b);
    if b.len() % 3 == 1 {
        lemma_url_letter(b[full] as int / 4);
        lemma_url_letter((b[full] as int % 4) * 16);
    } else if b.len() % 3 == 2 {
        lemma_url_letter(b[full] as int / 4);
        lemma_url_letter((b[full] as int % 4) * 16 + b[full + 1] as int / 16);
        lemma_url_letter((b[full + 1] as int % 16) * 4);
    }
    assert forall|i: int| 0 <= i < t.len() implies url_alphabet(#[trigger] t[i]) by {}
    if forall|j: int| 0 <= j < b.len() ==> survives(#[trigger] b[j]) {
        if b.len() % 3 != 0 {
            assert(survives(b[full]));
        }
        if b.len() % 3 == 2 {
            assert(survives(b[full + 1]));
        }
        assert forall|i: int| 0 <= i < t.len() implies #[trigger] t[i] != '_' by {}
    }
    assert(spec_base64url(b) == url_groups(b, n) + t);
}

// -------------------------------------------------------- url decode ---

/// A base64url letter's value; the standard alphabet's `+` and `/` are read
/// as its `-` and `_`.
pub open spec fn url_value(c: u8) -> Option<int> {
    if 65 <= c <= 90 {
        Some(c - 65)
    } else if 97 <= c <= 122 {
        Some(c - 97 + 26)
    } else if 48 <= c <= 57 {
        Some(c - 48 + 52)
    } else if c == 45 || c == 43 {
        Some(62)
    } else if c == 95 || c == 47 {
        Some(63)
    } else {
        None
    }
}

/// `u8::is_ascii_whitespace`: space, tab, line feed, form feed, return.
pub open spec fn ascii_whitespace(c: u8) -> bool {
    c == 32 || c == 9 || c == 10 || c == 12 || c == 13
}

/// The bytes a decoder reads: everything but whitespace and `=` padding.
pub open spec fn url_kept(b: Seq<u8>) -> Seq<u8>
    decreases b.len(),
{
    if b.len() == 0 {
        Seq::empty()
    } else {
        let rest = url_kept(b.drop_last());
        if ascii_whitespace(b.last()) || b.last() == 61 {
            rest
        } else {
            rest.push(b.last())
        }
    }
}

/// The value of letter `i` of a chunk, and 0 past its end.
pub open spec fn chunk_value(c: Seq<u8>, i: int) -> int {
    if i < c.len() {
        url_value(c[i]).unwrap()
    } else {
        0
    }
}

/// One chunk of up to four letters: four carry three bytes, three carry two,
/// two carry one, and one carries none.
pub open spec fn url_chunk(c: Seq<u8>) -> Option<Seq<u8>> {
    if forall|i: int| 0 <= i < c.len() ==> (#[trigger] url_value(c[i])) is Some {
        let (v0, v1, v2, v3) = (chunk_value(c, 0), chunk_value(c, 1), chunk_value(c, 2), chunk_value(c, 3));
        let bytes = seq![
            (v0 * 4 + v1 / 16) as u8,
            ((v1 % 16) * 16 + v2 / 4) as u8,
            ((v2 % 4) * 64 + v3) as u8,
        ];
        Some(bytes.take(c.len() - 1))
    } else {
        None
    }
}

/// Chunk `k` (counting from 0) of the kept letters.
pub open spec fn url_chunk_at(c: Seq<u8>, k: int) -> Seq<u8> {
    c.subrange(4 * k, if 4 * k + 4 <= c.len() { 4 * k + 4 } else { c.len() as int })
}

/// The first `k` chunks, decoded and joined; `None` as soon as one holds a
/// letter outside the alphabet.
pub open spec fn url_chunks(c: Seq<u8>, k: nat) -> Option<Seq<u8>>
    decreases k,
{
    if k == 0 {
        Some(Seq::empty())
    } else {
        match url_chunks(c, (k - 1) as nat) {
            Some(p) => match url_chunk(url_chunk_at(c, k - 1)) {
                Some(q) => Some(p + q),
                None => None,
            },
            None => None,
        }
    }
}

/// base64url, padding optional: `None` for text with no letters or with a
/// byte outside the alphabet.
pub open spec fn spec_base64url_decode(text: Seq<u8>) -> Option<Seq<u8>> {
    let c = url_kept(text);
    if c.len() == 0 {
        None
    } else {
        url_chunks(c, ((c.len() + 3) / 4) as nat)
    }
}

proof fn lemma_url_chunks_stay_none(c: Seq<u8>, k: nat, m: nat)
    requires
        k <= m,
        url_chunks(c, k) is None,
    ensures
        url_chunks(c, m) is None,
    decreases m - k,
{
    if k < m {
        lemma_url_chunks_stay_none(c, k, (m - 1) as nat);
    }
}

fn url_letter_value(c: u8) -> (v: Option<u32>)
    ensures
        match url_value(c) {
            Some(x) => v == Some(x as u32),
            None => v is None,
        },
{
    if 65 <= c && c <= 90 {
        Some((c - 65) as u32)
    } else if 97 <= c && c <= 122 {
        Some((c - 97 + 26) as u32)
    } else if 48 <= c && c <= 57 {
        Some((c - 48 + 52) as u32)
    } else if c == 45 || c == 43 {
        Some(62)
    } else if c == 95 || c == 47 {
        Some(63)
    } else {
        None
    }
}

/// Decode base64url text, `None` when it holds no letters or a byte outside
/// the alphabet.
pub fn base64url_decode(text: &str) -> (out: Option<Vec<u8>>)
    ensures
        match spec_base64url_decode(text.spec_bytes()) {
            Some(b) => out matches Some(v) && v@ == b,
            None => out is None,
        },
{
    let bytes = text.as_bytes();
    let mut chars: Vec<u8> = Vec::new();
    let mut i: usize = 0;
    while i < bytes.len()
        invariant
            i <= bytes@.len(),
            chars@ == url_kept(bytes@.take(i as int)),
        decreases bytes.len() - i,
    {
        let c = bytes[i];
        assert(bytes@.take(i + 1).drop_last() =~= bytes@.take(i as int));
        if !(c == 32 || c == 9 || c == 10 || c == 12 || c == 13) && c != 61 {
            chars.push(c);
        }
        i = i + 1;
    }
    assert(bytes@.take(bytes@.len() as int) =~= bytes@);
    assert(chars@ == url_kept(text.spec_bytes()));
    let len = chars.len();
    if len == 0 {
        return None;
    }
    let chunks = len / 4 + if len % 4 != 0 { 1 } else { 0 };
    assert(chunks == (len + 3) / 4);
    let mut out: Vec<u8> = Vec::new();
    let mut k: usize = 0;
    while k < chunks
        invariant
            len == chars@.len(),
            len > 0,
            chunks == (len + 3) / 4,
            k <= chunks,
            url_chunks(chars@, k as nat) == Some(out@),
            url_kept(text.spec_bytes()) == chars@,
        decreases chunks - k,
    {
        assert(4 * k < len) by (nonlinear_arith)
            requires
                k < chunks,
                chunks == (len + 3) / 4,
        ;
        let at = 4 * k;
        let end = if len - at >= 4 { at + 4 } else { len };
        let ghost chunk = url_chunk_at(chars@, k as int);
        assert(chunk.len() == end - at);
        let mut vals: [u32; 4] = [0, 0, 0, 0];
        let mut j: usize = 0;
        while j < end - at
            invariant
                at == 4 * k,
                k < chunks,
                chunks == (len + 3) / 4,
                url_chunks(chars@, k as nat) == Some(out@),
                url_kept(text.spec_bytes()) == chars@,
                len > 0,
                chunk == url_chunk_at(chars@, k as int),
                end <= len,
                at < end <= at + 4,
                len == chars@.len(),
                chunk == chars@.subrange(at as int, end as int),
                j <= end - at,
                forall|t: int| 0 <= t < j ==> (#[trigger] url_value(chunk[t])) is Some,
                forall|t: int| 0 <= t < j ==> vals[t] as int == chunk_value(chunk, t),
                forall|t: int| j <= t < 4 ==> vals[t] == 0,
            decreases end - at - j,
        {
            match url_letter_value(chars[at + j]) {
                Some(v) => {
                    vals[j] = v;
                },
                None => {
                    proof {
                        assert(url_value(chunk[j as int]) is None);
                        assert(url_chunk(chunk) is None);
                        lemma_url_chunks_stay_none(chars@, (k + 1) as nat, chunks as nat);
                    }
                    return None;
                },
            }
            j = j + 1;
        }
        assert(forall|t: int| 0 <= t < 4 ==> vals[t] as int == chunk_value(chunk, t));
        let (v0, v1, v2, v3) = (vals[0], vals[1], vals[2], vals[3]);
        let count = end - at - 1;
        let ghost before = out@;
        if count >= 1 {
            out.push((v0 * 4 + v1 / 16) as u8);
        }
        if count >= 2 {
            out.push(((v1 % 16) * 16 + v2 / 4) as u8);
        }
        if count >= 3 {
            out.push(((v2 % 4) * 64 + v3) as u8);
        }
        assert(url_chunk(chunk) == Some(out@.subrange(before.len() as int, out@.len() as int)));
        assert(out@ =~= before + out@.subrange(before.len() as int, out@.len() as int));
        k = k + 1;
    }
    Some(out)
}

// ------------------------------------------------------------- laws ---

/// Characters as the bytes of their (ASCII) encoding.
pub open spec fn ascii_bytes(s: Seq<char>) -> Seq<u8> {
    s.map_values(|c: char| c as u8)
}

/// The letters of the leftover bytes, without their padding.
spec fn std_tail_letters(b: Seq<u8>) -> Seq<char> {
    let t = std_tail(b);
    if b.len() % 3 == 1 {
        t.take(2)
    } else if b.len() % 3 == 2 {
        t.take(3)
    } else {
        t
    }
}

spec fn clean(c: u8) -> bool {
    !ascii_whitespace(c) && c != 61
}

proof fn lemma_letter_reads_back(v: int)
    requires
        0 <= v < 64,
    ensures
        url_value(std_letter(v) as u8) == Some(v),
        clean(std_letter(v) as u8),
{
}

proof fn lemma_kept_clean(s: Seq<u8>)
    requires
        forall|i: int| 0 <= i < s.len() ==> clean(#[trigger] s[i]),
    ensures
        url_kept(s) == s,
    decreases s.len(),
{
    if s.len() > 0 {
        lemma_kept_clean(s.drop_last());
        assert(s.drop_last().push(s.last()) =~= s);
    }
}

proof fn lemma_groups_len(b: Seq<u8>, n: nat)
    requires
        3 * n <= b.len(),
    ensures
        std_groups(b, n).len() == 4 * n,
    decreases n,
{
    if n > 0 {
        lemma_groups_len(b, (n - 1) as nat);
    }
}

/// Group `k` of the encoding is the quad of bytes `3k..3k+3`.
proof fn lemma_groups_at(b: Seq<u8>, n: nat, k: int)
    requires
        3 * n <= b.len(),
        0 <= k < n,
    ensures
        std_groups(b, n).subrange(4 * k, 4 * k + 4) == std_quad(
            b[3 * k] as int,
            b[3 * k + 1] as int,
            b[3 * k + 2] as int,
        ),
    decreases n,
{
    lemma_groups_len(b, n);
    lemma_groups_len(b, (n - 1) as nat);
    if k < n - 1 {
        lemma_groups_at(b, (n - 1) as nat, k);
        assert(std_groups(b, n).subrange(4 * k, 4 * k + 4) =~= std_groups(b, (n - 1) as nat).subrange(
            4 * k,
            4 * k + 4,
        ));
    } else {
        assert(std_groups(b, n).subrange(4 * k, 4 * k + 4) =~= std_quad(
            b[3 * k] as int,
            b[3 * k + 1] as int,
            b[3 * k + 2] as int,
        ));
    }
}

proof fn lemma_quad_values(b0: int, b1: int, b2: int)
    requires
        0 <= b0 < 256,
        0 <= b1 < 256,
        0 <= b2 < 256,
    ensures
        ({
            let (v0, v1, v2, v3) = (b0 / 4, (b0 % 4) * 16 + b1 / 16, (b1 % 16) * 4 + b2 / 64, b2 % 64);
            &&& 0 <= v0 < 64 && 0 <= v1 < 64 && 0 <= v2 < 64 && 0 <= v3 < 64
            &&& v0 * 4 + v1 / 16 == b0
            &&& (v1 % 16) * 16 + v2 / 4 == b1
            &&& (v2 % 4) * 64 + v3 == b2
        }),
{
    assert(0 <= b0 / 4 < 64 && b0 / 4 * 4 + b0 % 4 == b0) by (nonlinear_arith)
        requires 0 <= b0 < 256;
    assert(0 <= b1 / 16 < 16 && b1 / 16 * 16 + b1 % 16 == b1) by (nonlinear_arith)
        requires 0 <= b1 < 256;
    assert(0 <= b2 / 64 < 4 && b2 / 64 * 64 + b2 % 64 == b2) by (nonlinear_arith)
        requires 0 <= b2 < 256;
    let v1 = (b0 % 4) * 16 + b1 / 16;
    assert(v1 / 16 == b0 % 4 && v1 % 16 == b1 / 16) by (nonlinear_arith)
        requires v1 == (b0 % 4) * 16 + b1 / 16, 0 <= b0 % 4 < 4, 0 <= b1 / 16 < 16;
    let v2 = (b1 % 16) * 4 + b2 / 64;
    assert(v2 / 4 == b1 % 16 && v2 % 4 == b2 / 64) by (nonlinear_arith)
        requires v2 == (b1 % 16) * 4 + b2 / 64, 0 <= b1 % 16 < 16, 0 <= b2 / 64 < 4;
}

proof fn lemma_group_letters(b: Seq<u8>, n: nat)
    requires
        n == b.len() / 3,
    ensures
        std_groups(b, n).len() == 4 * n,
        forall|i: int|
            0 <= i < std_groups(b, n).len() ==> (url_value(#[trigger] std_groups(b, n)[i] as u8)) is Some
                && clean(std_groups(b, n)[i] as u8),
{
    let g = std_groups(b, n);
    lemma_groups_len(b, n);
    assert forall|i: int| 0 <= i < g.len() implies (url_value(#[trigger] g[i] as u8)) is Some && clean(
        g[i] as u8,
    ) by {
        let q = i / 4;
        assert(0 <= q < n && 4 * q <= i < 4 * q + 4) by (nonlinear_arith)
            requires 0 <= i < 4 * n, q == i / 4;
        lemma_groups_at(b, n, q);
        assert(g[i] == g.subrange(4 * q, 4 * q + 4)[i - 4 * q]);
        lemma_quad_values(b[3 * q] as int, b[3 * q + 1] as int, b[3 * q + 2] as int);
        let (b0, b1, b2) = (b[3 * q] as int, b[3 * q + 1] as int, b[3 * q + 2] as int);
        lemma_letter_reads_back(b0 / 4);
        lemma_letter_reads_back((b0 % 4) * 16 + b1 / 16);
        lemma_letter_reads_back((b1 % 16) * 4 + b2 / 64);
        lemma_letter_reads_back(b2 % 64);
    }
}

proof fn lemma_tail_letters(b: Seq<u8>)
    requires
        b.len() % 3 != 0,
    ensures
        ({
            let t = std_tail_letters(b);
            let full = 3 * (b.len() / 3) as int;
            &&& t.len() == b.len() % 3 + 1
            &&& forall|i: int| 0 <= i < t.len() ==> clean(#[trigger] t[i] as u8)
            &&& url_chunk(ascii_bytes(t)) == Some(b.subrange(full, b.len() as int))
        }),
{
    let t = std_tail_letters(b);
    let full = 3 * (b.len() / 3) as int;
    let last = ascii_bytes(t);
    if b.len() % 3 == 1 {
        lemma_quad_values(b[full] as int, 0, 0);
        lemma_letter_reads_back(b[full] as int / 4);
        lemma_letter_reads_back((b[full] as int % 4) * 16);
        assert(forall|i: int| 0 <= i < last.len() ==> (#[trigger] url_value(last[i])) is Some);
        assert(seq![
            (chunk_value(last, 0) * 4 + chunk_value(last, 1) / 16) as u8,
            ((chunk_value(last, 1) % 16) * 16 + chunk_value(last, 2) / 4) as u8,
            ((chunk_value(last, 2) % 4) * 64 + chunk_value(last, 3)) as u8,
        ].take(1) =~= b.subrange(full, b.len() as int));
    } else {
        lemma_quad_values(b[full] as int, b[full + 1] as int, 0);
        lemma_letter_reads_back(b[full] as int / 4);
        lemma_letter_reads_back((b[full] as int % 4) * 16 + b[full + 1] as int / 16);
        lemma_letter_reads_back((b[full + 1] as int % 16) * 4);
        assert(forall|i: int| 0 <= i < last.len() ==> (#[trigger] url_value(last[i])) is Some);
        assert(seq![
            (chunk_value(last, 0) * 4 + chunk_value(last, 1) / 16) as u8,
            ((chunk_value(last, 1) % 16) * 16 + chunk_value(last, 2) / 4) as u8,
            ((chunk_value(last, 2) % 4) * 64 + chunk_value(last, 3)) as u8,
        ].take(2) =~= b.subrange(full, b.len() as int));
    }
}

/// The padding of a standard encoding is skipped on the way in.
proof fn lemma_kept_standard(b: Seq<u8>)
    requires
        b.len() > 0,
    ensures
        url_kept(ascii_bytes(spec_base64_standard(b))) == ascii_bytes(
            std_groups(b, (b.len() / 3) as nat) + std_tail_letters(b),
        ),
{
    let n = (b.len() / 3) as nat;
    let g = std_groups(b, n);
    let t = std_tail_letters(b);
    let k_seq = ascii_bytes(g + t);
    lemma_group_letters(b, n);
    if b.len() % 3 != 0 {
        lemma_tail_letters(b);
    }
    assert forall|i: int| 0 <= i < k_seq.len() implies clean(#[trigger] k_seq[i]) by {
        if i >= g.len() {
            assert(k_seq[i] == t[i - g.len()] as u8);
        } else {
            assert(k_seq[i] == g[i] as u8);
        }
    }
    lemma_kept_clean(k_seq);
    let whole = ascii_bytes(spec_base64_standard(b));
    if b.len() % 3 == 1 {
        let p1 = ascii_bytes(g + std_tail(b).take(3));
        assert(whole.drop_last() =~= p1);
        assert(p1.drop_last() =~= k_seq);
        assert(whole.last() == 61u8);
        assert(p1.last() == 61u8);
        assert(url_kept(whole) == url_kept(p1));
        assert(url_kept(p1) == url_kept(k_seq));
    } else if b.len() % 3 == 2 {
        assert(whole.drop_last() =~= k_seq);
        assert(whole.last() == 61u8);
        assert(url_kept(whole) == url_kept(k_seq));
    } else {
        assert(whole =~= k_seq);
    }
}

/// What base64 encodes, base64url decodes: the reader takes the standard
/// alphabet's `+` and `/` and skips its padding, so any non-empty byte string
/// written by [`base64_standard`] reads back from [`base64url_decode`] as
/// itself.
pub proof fn law_standard_base64_reads_back(b: Seq<u8>)
    requires
        b.len() > 0,
    ensures
        spec_base64url_decode(ascii_bytes(spec_base64_standard(b))) == Some(b),
{
    let n = (b.len() / 3) as nat;
    let g = std_groups(b, n);
    let t = std_tail_letters(b);
    let k_seq = ascii_bytes(g + t);
    lemma_group_letters(b, n);
    lemma_kept_standard(b);
    lemma_chunks_read_back(b, k_seq, n, n);
    let m = ((k_seq.len() + 3) / 4) as nat;
    if b.len() % 3 == 0 {
        assert(m == n);
        assert(b.take((3 * n) as int) =~= b);
    } else {
        lemma_tail_letters(b);
        assert(m == n + 1);
        let full = (3 * n) as int;
        let last = url_chunk_at(k_seq, n as int);
        assert(last =~= ascii_bytes(t));
        assert(b.take(full) + b.subrange(full, b.len() as int) =~= b);
    }
}

proof fn lemma_chunks_read_back(b: Seq<u8>, k_seq: Seq<u8>, n: nat, k: nat)
    requires
        n == b.len() / 3,
        k <= n,
        k_seq == ascii_bytes(std_groups(b, n) + std_tail_letters(b)),
        std_groups(b, n).len() == 4 * n,
        forall|i: int|
            0 <= i < std_groups(b, n).len() ==> (url_value(#[trigger] std_groups(b, n)[i] as u8)) is Some,
    ensures
        url_chunks(k_seq, k) == Some(b.take((3 * k) as int)),
    decreases k,
{
    if k > 0 {
        let j = (k - 1) as int;
        lemma_chunks_read_back(b, k_seq, n, (k - 1) as nat);
        let g = std_groups(b, n);
        lemma_groups_at(b, n, j);
        let chunk = url_chunk_at(k_seq, j);
        assert(4 * j + 4 <= k_seq.len());
        assert(chunk =~= ascii_bytes(g.subrange(4 * j, 4 * j + 4)));
        let (b0, b1, b2) = (b[3 * j] as int, b[3 * j + 1] as int, b[3 * j + 2] as int);
        lemma_quad_values(b0, b1, b2);
        lemma_letter_reads_back(b0 / 4);
        lemma_letter_reads_back((b0 % 4) * 16 + b1 / 16);
        lemma_letter_reads_back((b1 % 16) * 4 + b2 / 64);
        lemma_letter_reads_back(b2 % 64);
        assert(forall|i: int| 0 <= i < chunk.len() ==> (#[trigger] url_value(chunk[i])) is Some);
        assert(url_chunk(chunk) == Some(seq![b[3 * j], b[3 * j + 1], b[3 * j + 2]])) by {
            assert(seq![
                (chunk_value(chunk, 0) * 4 + chunk_value(chunk, 1) / 16) as u8,
                ((chunk_value(chunk, 1) % 16) * 16 + chunk_value(chunk, 2) / 4) as u8,
                ((chunk_value(chunk, 2) % 4) * 64 + chunk_value(chunk, 3)) as u8,
            ].take(3) =~= seq![b[3 * j], b[3 * j + 1], b[3 * j + 2]]);
        }
        assert(b.take(3 * j) + seq![b[3 * j], b[3 * j + 1], b[3 * j + 2]] =~= b.take((3 * k) as int));
    }
}

proof fn lemma_url_letter_reads_back(v: int)
    requires
        0 <= v < 64,
    ensures
        url_value(url_letter(v) as u8) == Some(v),
        clean(url_letter(v) as u8),
{
}

/// Two texts that read as the same letter values at every position.
spec fn same_values(x: Seq<u8>, y: Seq<u8>) -> bool {
    &&& x.len() == y.len()
    &&& forall|i: int| 0 <= i < x.len() ==> url_value(#[trigger] x[i]) == url_value(y[i])
}

proof fn lemma_chunks_by_value(x: Seq<u8>, y: Seq<u8>, k: nat)
    requires
        same_values(x, y),
        4 * k <= x.len() + 3,
    ensures
        url_chunks(x, k) == url_chunks(y, k),
    decreases k,
{
    if k > 0 {
        lemma_chunks_by_value(x, y, (k - 1) as nat);
        let cx = url_chunk_at(x, k - 1);
        let cy = url_chunk_at(y, k - 1);
        let lo = 4 * (k - 1);
        let hi = if 4 * (k - 1) + 4 <= x.len() {
            4 * (k - 1) + 4
        } else {
            x.len() as int
        };
        assert(0 <= lo <= hi <= x.len());
        assert(cx == x.subrange(lo, hi));
        assert(cy == y.subrange(lo, hi));
        assert(cx.len() == cy.len());
        assert forall|i: int| 0 <= i < cx.len() implies url_value(#[trigger] cx[i]) == url_value(cy[i]) by {
            assert(cx[i] == x[lo + i]);
            assert(cy[i] == y[lo + i]);
        }
        assert forall|i: int| 0 <= i < 4 implies chunk_value(cx, i) == chunk_value(cy, i) by {}
        assert(url_chunk(cx) == url_chunk(cy));
    }
}

/// The URL-safe groups read as the standard ones do, letter for letter.
proof fn lemma_groups_same_values(b: Seq<u8>, n: nat)
    requires
        3 * n <= b.len(),
    ensures
        same_values(ascii_bytes(url_groups(b, n)), ascii_bytes(std_groups(b, n))),
        forall|i: int| 0 <= i < url_groups(b, n).len() ==> clean(#[trigger] url_groups(b, n)[i] as u8),
    decreases n,
{
    lemma_url_groups(b, n);
    lemma_groups_len(b, n);
    if n > 0 {
        let k = (n - 1) as nat;
        let at = 3 * k as int;
        lemma_groups_same_values(b, k);
        lemma_url_groups(b, k);
        lemma_groups_len(b, k);
        let sx = sextets(b[at] as int, b[at + 1] as int, b[at + 2] as int);
        lemma_sextets(b[at], b[at + 1], b[at + 2]);
        let qu = sx.map_values(|v: int| url_letter(v));
        let qs = std_quad(b[at] as int, b[at + 1] as int, b[at + 2] as int);
        assert forall|r: int| 0 <= r < 4 implies url_value(#[trigger] qu[r] as u8) == url_value(qs[r] as u8)
            && clean(qu[r] as u8) by {
            lemma_url_letter_reads_back(sx[r]);
            lemma_letter_reads_back(sx[r]);
        }
        let u = url_groups(b, n);
        let st = std_groups(b, n);
        assert(u == url_groups(b, k) + qu);
        assert(st == std_groups(b, k) + qs);
        let au = ascii_bytes(u);
        let ast = ascii_bytes(st);
        assert forall|i: int| 0 <= i < au.len() implies url_value(#[trigger] au[i]) == url_value(ast[i]) by {
            if i < 4 * k {
                assert(au[i] == ascii_bytes(url_groups(b, k))[i]);
                assert(ast[i] == ascii_bytes(std_groups(b, k))[i]);
            } else {
                assert(au[i] == qu[i - 4 * k] as u8);
                assert(ast[i] == qs[i - 4 * k] as u8);
            }
        }
        assert forall|i: int| 0 <= i < u.len() implies clean(#[trigger] u[i] as u8) by {
            if i >= 4 * k {
                assert(u[i] == qu[i - 4 * k]);
            }
        }
    }
}

/// What base64url writes, it reads back: [`base64url_encode`] and
/// [`base64url_decode`] undo each other on every non-empty byte string.
pub proof fn law_base64url_reads_back(b: Seq<u8>)
    requires
        b.len() > 0,
    ensures
        spec_base64url_decode(ascii_bytes(spec_base64url(b))) == Some(b),
        spec_base64url_decode(vstd::utf8::encode_utf8(spec_base64url(b))) == Some(b),
{
    lemma_reads_back_letters(b);
    lemma_url_text_is_ascii(b);
}

proof fn lemma_reads_back_letters(b: Seq<u8>)
    requires
        b.len() > 0,
    ensures
        spec_base64url_decode(ascii_bytes(spec_base64url(b))) == Some(b),
{
    let n = (b.len() / 3) as nat;
    law_standard_base64_reads_back(b);
    lemma_kept_standard(b);
    lemma_groups_same_values(b, n);
    lemma_groups_len(b, n);
    lemma_url_groups(b, n);
    let t = std_tail_letters(b);
    let ut = url_tail(b);
    let full = 3 * n as int;
    if b.len() % 3 != 0 {
        lemma_tail_letters(b);
    }
    if b.len() % 3 == 1 {
        lemma_url_letter_reads_back(b[full] as int / 4);
        lemma_url_letter_reads_back((b[full] as int % 4) * 16);
        lemma_letter_reads_back(b[full] as int / 4);
        lemma_letter_reads_back((b[full] as int % 4) * 16);
        lemma_quad_values(b[full] as int, 0, 0);
    } else if b.len() % 3 == 2 {
        lemma_url_letter_reads_back(b[full] as int / 4);
        lemma_url_letter_reads_back((b[full] as int % 4) * 16 + b[full + 1] as int / 16);
        lemma_url_letter_reads_back((b[full + 1] as int % 16) * 4);
        lemma_letter_reads_back(b[full] as int / 4);
        lemma_letter_reads_back((b[full] as int % 4) * 16 + b[full + 1] as int / 16);
        lemma_letter_reads_back((b[full + 1] as int % 16) * 4);
        lemma_quad_values(b[full] as int, b[full + 1] as int, 0);
    }
    assert(ut.len() == t.len());
    assert forall|i: int| 0 <= i < ut.len() implies url_value(#[trigger] ut[i] as u8) == url_value(t[i] as u8)
        && clean(ut[i] as u8) by {}
    let g = url_groups(b, n);
    let sg = std_groups(b, n);
    let x = ascii_bytes(g + ut);
    let y = ascii_bytes(sg + t);
    assert(ascii_bytes(spec_base64url(b)) == x);
    assert forall|i: int| 0 <= i < x.len() implies url_value(#[trigger] x[i]) == url_value(y[i]) by {
        if i < g.len() {
            assert(x[i] == ascii_bytes(g)[i]);
            assert(y[i] == ascii_bytes(sg)[i]);
        } else {
            assert(x[i] == ut[i - g.len()] as u8);
            assert(y[i] == t[i - g.len()] as u8);
        }
    }
    assert forall|i: int| 0 <= i < x.len() implies clean(#[trigger] x[i]) by {
        if i < g.len() {
            assert(x[i] == g[i] as u8);
        } else {
            assert(x[i] == ut[i - g.len()] as u8);
        }
    }
    lemma_kept_clean(x);
    let m = ((x.len() + 3) / 4) as nat;
    lemma_chunks_by_value(x, y, m);
}

/// base64url's letters are ASCII, so the text's UTF-8 bytes are its
/// letters' codes.
proof fn lemma_url_text_is_ascii(b: Seq<u8>)
    ensures
        vstd::utf8::encode_utf8(spec_base64url(b)) == ascii_bytes(spec_base64url(b)),
{
    let t = spec_base64url(b);
    law_base64url_letters(b);
    assert(vstd::utf8::is_ascii_chars(t)) by {
        assert forall|i: int| 0 <= i < t.len() implies '\0' <= #[trigger] t[i] <= '\u{7f}' by {
            assert(url_alphabet(t[i]));
        }
    }
    vstd::utf8::is_ascii_chars_encode_utf8(t);
    assert(vstd::utf8::encode_utf8(t) =~= ascii_bytes(t));
}

proof fn lemma_chunks_some(c: Seq<u8>, k: nat)
    requires
        4 * k <= c.len() + 3,
        forall|i: int| 0 <= i < c.len() ==> (#[trigger] url_value(c[i])) is Some,
    ensures
        url_chunks(c, k) is Some,
    decreases k,
{
    if k > 0 {
        lemma_chunks_some(c, (k - 1) as nat);
        let lo = 4 * (k - 1);
        let hi = if 4 * (k - 1) + 4 <= c.len() {
            4 * (k - 1) + 4
        } else {
            c.len() as int
        };
        let ch = url_chunk_at(c, k - 1);
        assert(ch == c.subrange(lo, hi));
        assert forall|i: int| 0 <= i < ch.len() implies (#[trigger] url_value(ch[i])) is Some by {
            assert(ch[i] == c[lo + i]);
        }
    }
}

proof fn lemma_chunks_none(c: Seq<u8>, k: nat, j: int)
    requires
        0 <= j < c.len(),
        url_value(c[j]) is None,
        j < 4 * k,
        4 * k <= c.len() + 3,
    ensures
        url_chunks(c, k) is None,
    decreases k,
{
    let q = j / 4;
    if q < k - 1 {
        lemma_chunks_none(c, (k - 1) as nat, j);
    } else {
        let lo = 4 * (k - 1);
        let hi = if 4 * (k - 1) + 4 <= c.len() {
            4 * (k - 1) + 4
        } else {
            c.len() as int
        };
        let ch = url_chunk_at(c, k - 1);
        assert(ch == c.subrange(lo, hi));
        assert(ch[j - lo] == c[j]);
        assert(url_chunk(ch) is None);
    }
}

/// base64url refuses exactly what holds no letter, and what holds a byte
/// outside both alphabets once whitespace and padding are set aside.
pub proof fn law_base64url_refuses(text: Seq<u8>)
    ensures
        spec_base64url_decode(text) is None <==> (url_kept(text).len() == 0 || exists|j: int|
            0 <= j < url_kept(text).len() && (#[trigger] url_value(url_kept(text)[j])) is None),
{
    let c = url_kept(text);
    let k = ((c.len() + 3) / 4) as nat;
    if c.len() > 0 {
        if exists|j: int| 0 <= j < c.len() && (#[trigger] url_value(c[j])) is None {
            let j = choose|j: int| 0 <= j < c.len() && (#[trigger] url_value(c[j])) is None;
            lemma_chunks_none(c, k, j);
        } else {
            lemma_chunks_some(c, k);
        }
    }
}

} // verus!
