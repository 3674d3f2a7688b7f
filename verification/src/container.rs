//! Coilbox's container envelope, which is the contract for anything shared.
//!
//! ```text
//! { format: "coilbox", container: 1, kind: "preset", kindVersion: 1, payload: {...} }
//! ```
//!
//! Two independent version numbers rather than semver, deliberately.
//! `container` versions the envelope and `kindVersion` the payload, so a reader
//! can tell "this is a preset I am too old to read" from "this is not a
//! container at all" and say so, instead of half-reading it. [`identify`]
//! answers that without looking inside the payload, which is what lets a
//! refusal be polite.
//!
//! The text arrives in one of three forms: raw JSON, which is what "Share to
//! file" writes; the `cbz1.` code, DEFLATE then base64url; and a bare base64url
//! payload with no prefix, which upstream still reads because it wrote some
//! before the prefix existed.
use crate::codec::{base64url_decode, spec_base64url_decode};
use crate::text::{
    chars_of, concat, decimal, decimal_string, owned, trim, trim_bounds,
};
use std::io::Read;
use vstd::prelude::*;
use vstd::string::{StrSliceExecFns, StringExecFns, StringSliceAdditionalSpecFns};

verus! {

/// The envelope version this build writes and reads.
pub const CONTAINER_VERSION: u32 = 1;

/// The most a share code may become once decompressed: a preset is a few
/// kilobytes of JSON, and DEFLATE will turn a few megabytes of the right input
/// into gigabytes.
pub const MAX_INFLATED: u64 = 8388608;

/// The only value `format` ever takes. Present so a stray JSON file is refused
/// by name rather than by a confusing field-level error.
pub fn container_format() -> (r: String)
    ensures
        r@ == "coilbox"@,
{
    owned("coilbox")
}

/// Prefix on the compressed, pasteable form: DEFLATE, then base64url.
pub fn code_prefix() -> (r: String)
    ensures
        r@ == "cbz1."@,
{
    owned("cbz1.")
}

/// One shared artefact, envelope and all.
pub struct Container<P> {
    pub format: String,
    pub container: u32,
    pub kind: String,
    pub kind_version: u32,
    pub payload: P,
}

impl<P> Container<P> {
    /// Wrap a payload for sharing.
    pub fn new(kind: &str, kind_version: u32, payload: P) -> (c: Self)
        ensures
            c.format@ == "coilbox"@,
            c.container == CONTAINER_VERSION,
            c.kind@ == kind@,
            c.kind_version == kind_version,
            c.payload == payload,
    {
        Container {
            format: container_format(),
            container: CONTAINER_VERSION,
            kind: owned(kind),
            kind_version,
            payload,
        }
    }
}

/// Whether this build can read a container, and if not, why not.
#[derive(PartialEq, Eq, Structural, Clone, Copy, Debug)]
pub enum Compatibility {
    /// Readable.
    Supported,
    /// Written by something newer. Refuse, do not guess.
    Newer,
    /// A container, but of a kind this build has no reader for.
    UnknownKind,
}

/// What a container says it is, without validating what is inside it.
#[derive(Debug, Clone, PartialEq)]
pub struct Identity {
    pub kind: String,
    pub kind_version: u32,
    pub container: u32,
    pub compatibility: Compatibility,
}

pub struct IdentityView {
    pub kind: Seq<char>,
    pub kind_version: u32,
    pub container: u32,
    pub compatibility: Compatibility,
}

impl View for Identity {
    type V = IdentityView;

    open spec fn view(&self) -> IdentityView {
        IdentityView {
            kind: self.kind@,
            kind_version: self.kind_version,
            container: self.container,
            compatibility: self.compatibility,
        }
    }
}

// ------------------------------------------------------------ outside ---

/// One top-level member of a JSON document, as far as an envelope reads it.
pub enum JsonField {
    /// The text is not JSON; what the parser said.
    Invalid(String),
    /// JSON, but not an object.
    NotObject,
    /// An object without that member.
    Absent,
    /// A string member.
    Text(String),
    /// A member holding a number that fits a `u64`.
    Count(u64),
    /// A member holding anything else.
    Other,
}

pub enum JsonFieldView {
    Invalid(Seq<char>),
    NotObject,
    Absent,
    Text(Seq<char>),
    Count(u64),
    Other,
}

impl View for JsonField {
    type V = JsonFieldView;

    open spec fn view(&self) -> JsonFieldView {
        match self {
            JsonField::Invalid(e) => JsonFieldView::Invalid(e@),
            JsonField::NotObject => JsonFieldView::NotObject,
            JsonField::Absent => JsonFieldView::Absent,
            JsonField::Text(s) => JsonFieldView::Text(s@),
            JsonField::Count(n) => JsonFieldView::Count(*n),
            JsonField::Other => JsonFieldView::Other,
        }
    }
}

/// What `serde_json` reads as member `key` of the document `json`.
pub uninterp spec fn json_member(json: Seq<u8>, key: Seq<char>) -> JsonFieldView;

/// Parse `json` with `serde_json::from_slice` and read member `key` of it.
///
/// Trusted: claims that the answer is a function of the bytes and the key
/// alone. Which texts serde_json accepts, and the wording of its errors, are
/// not restated.
#[verifier::external_body]
fn member(json: &[u8], key: &str) -> (r: JsonField)
    ensures
        r@ == json_member(json@, key@),
{
    let value: serde_json::Value = match serde_json::from_slice(json) {
        Ok(v) => v,
        Err(e) => return JsonField::Invalid(e.to_string()),
    };
    match value.as_object().map(|o| o.get(key)) {
        None => JsonField::NotObject,
        Some(None) => JsonField::Absent,
        Some(Some(serde_json::Value::String(s))) => JsonField::Text(s.clone()),
        Some(Some(v)) => match v.as_u64() {
            Some(n) => JsonField::Count(n),
            None => JsonField::Other,
        },
    }
}

/// How `str`'s `Debug` writes `s`: quoted, with escapes.
pub uninterp spec fn debug_quoted(s: Seq<char>) -> Seq<char>;

/// `format!("{:?}", s)` for a string.
///
/// Trusted: claims only that the result is a function of `s`; the escaping
/// rules of `str::escape_debug` are not restated.
#[verifier::external_body]
fn debug_str(s: &str) -> (r: String)
    ensures
        r@ == debug_quoted(s@),
{
    format!("{:?}", s)
}

/// What `flate2`'s raw DEFLATE reader yields from `data`, read through
/// `take(limit)`.
pub uninterp spec fn deflate_read(data: Seq<u8>, limit: nat) -> Result<Seq<u8>, Seq<char>>;

/// What `flate2`'s zlib reader yields from `data`, read through `take(limit)`.
pub uninterp spec fn zlib_read(data: Seq<u8>, limit: nat) -> Result<Seq<u8>, Seq<char>>;

/// `flate2::read::DeflateDecoder`, read to the end through `Read::take`.
///
/// Trusted: claims that the result is a function of the input and the limit,
/// and that no more than `limit` bytes come out, which is what `take` is for.
#[verifier::external_body]
fn read_deflate(data: &[u8], limit: u64) -> (r: Result<Vec<u8>, String>)
    ensures
        match r {
            Ok(v) => deflate_read(data@, limit as nat) == Ok::<Seq<u8>, Seq<char>>(v@) && v@.len()
                <= limit,
            Err(e) => deflate_read(data@, limit as nat) == Err::<Seq<u8>, Seq<char>>(e@),
        },
{
    let mut out = Vec::new();
    match flate2::read::DeflateDecoder::new(data).take(limit).read_to_end(&mut out) {
        Ok(_) => Ok(out),
        Err(e) => Err(e.to_string()),
    }
}

/// `flate2::read::ZlibDecoder`, read to the end through `Read::take`.
///
/// Trusted: as for [`read_deflate`].
#[verifier::external_body]
fn read_zlib(data: &[u8], limit: u64) -> (r: Result<Vec<u8>, String>)
    ensures
        match r {
            Ok(v) => zlib_read(data@, limit as nat) == Ok::<Seq<u8>, Seq<char>>(v@) && v@.len()
                <= limit,
            Err(e) => zlib_read(data@, limit as nat) == Err::<Seq<u8>, Seq<char>>(e@),
        },
{
    let mut out = Vec::new();
    match flate2::read::ZlibDecoder::new(data).take(limit).read_to_end(&mut out) {
        Ok(_) => Ok(out),
        Err(e) => Err(e.to_string()),
    }
}

// ------------------------------------------------------------ inflate ---

pub open spec fn too_big() -> Seq<char> {
    "that share code expands to far more than a preset can be"@
}

/// What a share code decompresses to, given what the raw DEFLATE reader and
/// the zlib reader made of it.
///
/// Raw DEFLATE is tried first and zlib only when that fails or yields nothing,
/// because which one a producer used is not visible from the bytes.
pub open spec fn spec_inflate_outcome(
    raw: Result<Seq<u8>, Seq<char>>,
    zlib: Result<Seq<u8>, Seq<char>>,
) -> Result<Seq<u8>, Seq<char>> {
    let chosen = match raw {
        Ok(out) if out.len() > 0 => Ok(out),
        _ => match zlib {
            Ok(out) => Ok(out),
            Err(e) => Err("that share code did not decompress: "@ + e),
        },
    };
    match chosen {
        Ok(out) => if out.len() > MAX_INFLATED {
            Err(too_big())
        } else {
            Ok(out)
        },
        Err(e) => Err(e),
    }
}

pub open spec fn result_view(r: Result<Vec<u8>, String>) -> Result<Seq<u8>, Seq<char>> {
    match r {
        Ok(v) => Ok(v@),
        Err(e) => Err(e@),
    }
}

/// Settle a decompression from what the two readers produced.
pub fn inflate_outcome(raw: Result<Vec<u8>, String>, zlib: Result<Vec<u8>, String>) -> (r: Result<
    Vec<u8>,
    String,
>)
    ensures
        result_view(r) == spec_inflate_outcome(result_view(raw), result_view(zlib)),
{
    let chosen = match raw {
        Ok(out) if out.len() > 0 => Ok(out),
        _ => match zlib {
            Ok(out) => Ok(out),
            Err(e) => Err(concat("that share code did not decompress: ", e.as_str())),
        },
    };
    match chosen {
        Ok(out) => if out.len() as u64 > MAX_INFLATED {
            Err(owned("that share code expands to far more than a preset can be"))
        } else {
            Ok(out)
        },
        Err(e) => Err(e),
    }
}

pub open spec fn spec_inflate(data: Seq<u8>) -> Result<Seq<u8>, Seq<char>> {
    spec_inflate_outcome(
        deflate_read(data, (MAX_INFLATED + 1) as nat),
        zlib_read(data, (MAX_INFLATED + 1) as nat),
    )
}

/// Raw DEFLATE, which is what upstream compresses a share code with, and
/// zlib-wrapped DEFLATE when that does not read.
fn inflate(data: &[u8]) -> (r: Result<Vec<u8>, String>)
    ensures
        result_view(r) == spec_inflate(data@),
{
    let raw = read_deflate(data, MAX_INFLATED + 1);
    let usable = match &raw {
        Ok(out) => out.len() > 0,
        Err(_) => false,
    };
    if usable {
        // The zlib reading is never consulted when the raw one yields bytes.
        let unused: Result<Vec<u8>, String> = Ok(Vec::new());
        let r = inflate_outcome(raw, unused);
        r
    } else {
        let zlib = read_zlib(data, MAX_INFLATED + 1);
        inflate_outcome(raw, zlib)
    }
}

// --------------------------------------------------------- share text ---

/// Where the JSON of a container's text comes from: the text itself, or the
/// bytes a share code decodes to. `true` for a share code.
pub open spec fn spec_share_json(text: Seq<char>) -> Result<(Seq<u8>, bool), Seq<char>> {
    let t = trim(text);
    if t.len() > 0 && t[0] == '{' {
        Ok((vstd::utf8::encode_utf8(t), false))
    } else {
        let compressed = t.len() >= 5 && t.take(5) == "cbz1."@;
        let body = if compressed {
            t.skip(5)
        } else {
            t
        };
        match spec_base64url_decode(vstd::utf8::encode_utf8(body)) {
            None => Err("that is neither JSON nor a Coilbox share code"@),
            Some(raw) => if compressed {
                match spec_inflate(raw) {
                    Ok(bytes) => Ok((bytes, true)),
                    Err(e) => Err(e),
                }
            } else {
                Ok((raw, true))
            },
        }
    }
}

/// The JSON inside a container's text, in any of the three forms upstream
/// accepts, and whether it came from a share code.
pub fn share_json(text: &str) -> (r: Result<(Vec<u8>, bool), String>)
    ensures
        match spec_share_json(text@) {
            Ok((bytes, code)) => r matches Ok((v, c)) && v@ == bytes && c == code,
            Err(e) => r matches Err(m) && m@ == e,
        },
{
    let chars = chars_of(text);
    let (start, end) = trim_bounds(chars.as_slice());
    let trimmed = text.substring_char(start, end);
    assert(trimmed@ == trim(text@));
    if end > start && chars[start] == '{' {
        let bytes = vstd::slice::slice_to_vec(trimmed.as_bytes());
        return Ok((bytes, false));
    }
    let n = end - start;
    let compressed = n >= 5 && chars[start] == 'c' && chars[start + 1] == 'b' && chars[start + 2]
        == 'z' && chars[start + 3] == '1' && chars[start + 4] == '.';
    proof {
        reveal_strlit("cbz1.");
        assert(trimmed@ =~= chars@.subrange(start as int, end as int));
        if n >= 5 {
            let t5 = trimmed@.take(5);
            assert(t5[0] == chars@[start as int] && t5[1] == chars@[start + 1] && t5[2] == chars@[start
                + 2] && t5[3] == chars@[start + 3] && t5[4] == chars@[start + 4]);
            if compressed {
                assert(t5 =~= "cbz1."@);
            } else if t5 == "cbz1."@ {
                assert(t5[0] == 'c' && t5[1] == 'b' && t5[2] == 'z' && t5[3] == '1' && t5[4] == '.');
            }
        }
    }
    let body = if compressed {
        trimmed.substring_char(5, n)
    } else {
        trimmed
    };
    let raw = match base64url_decode(body) {
        Some(raw) => raw,
        None => return Err(owned("that is neither JSON nor a Coilbox share code")),
    };
    if compressed {
        match inflate(raw.as_slice()) {
            Ok(bytes) => Ok((bytes, true)),
            Err(e) => Err(e),
        }
    } else {
        Ok((raw, true))
    }
}

// ----------------------------------------------------------- identify ---

pub open spec fn text_or_empty(f: JsonFieldView) -> Seq<char> {
    match f {
        JsonFieldView::Text(s) => s,
        _ => Seq::empty(),
    }
}

/// A number member as the envelope reads it: a `u64` cut to 32 bits, and 0
/// for anything else.
pub open spec fn count_or_zero(f: JsonFieldView) -> u32 {
    match f {
        JsonFieldView::Count(n) => n as u32,
        _ => 0,
    }
}

/// The kinds this build reads, and the highest payload version of each.
/// Upstream defines seven kinds; the rest are deliberately absent here rather
/// than half-supported.
pub open spec fn highest_supported(kind: Seq<char>) -> Option<u32> {
    if kind == "preset"@ {
        Some(1)
    } else {
        None
    }
}

pub open spec fn spec_compatibility(container: u32, kind: Seq<char>, kind_version: u32) -> Compatibility {
    if container > CONTAINER_VERSION {
        Compatibility::Newer
    } else {
        match highest_supported(kind) {
            None => Compatibility::UnknownKind,
            Some(highest) => if kind_version > highest {
                Compatibility::Newer
            } else {
                Compatibility::Supported
            },
        }
    }
}

pub open spec fn spec_identify_members(
    format: JsonFieldView,
    container: JsonFieldView,
    kind: JsonFieldView,
    kind_version: JsonFieldView,
) -> Result<IdentityView, Seq<char>> {
    let f = text_or_empty(format);
    if f != "coilbox"@ {
        Err("that is not a Coilbox file - its format says "@ + debug_quoted(f)
            + " rather than \"coilbox\""@)
    } else {
        let c = count_or_zero(container);
        let k = text_or_empty(kind);
        let kv = count_or_zero(kind_version);
        Ok(
            IdentityView {
                kind: k,
                kind_version: kv,
                container: c,
                compatibility: spec_compatibility(c, k, kv),
            },
        )
    }
}

fn is_preset(kind: &str) -> (r: bool)
    ensures
        r == (kind@ == "preset"@),
{
    let c = chars_of(kind);
    proof {
        reveal_strlit("preset");
    }
    let r = c.len() == 6 && c[0] == 'p' && c[1] == 'r' && c[2] == 'e' && c[3] == 's' && c[4]
        == 'e' && c[5] == 't';
    if c.len() == 6 {
        assert(r == (c@ =~= "preset"@));
    }
    r
}

fn is_coilbox(s: &str) -> (r: bool)
    ensures
        r == (s@ == "coilbox"@),
{
    let c = chars_of(s);
    proof {
        reveal_strlit("coilbox");
    }
    let r = c.len() == 7 && c[0] == 'c' && c[1] == 'o' && c[2] == 'i' && c[3] == 'l' && c[4]
        == 'b' && c[5] == 'o' && c[6] == 'x';
    if c.len() == 7 {
        assert(r == (c@ =~= "coilbox"@));
    }
    r
}

/// Whether this build reads a container of `kind`, written at these versions.
pub fn compatibility(container: u32, kind: &str, kind_version: u32) -> (r: Compatibility)
    ensures
        r == spec_compatibility(container, kind@, kind_version),
{
    if container > CONTAINER_VERSION {
        Compatibility::Newer
    } else if !is_preset(kind) {
        Compatibility::UnknownKind
    } else if kind_version > 1 {
        Compatibility::Newer
    } else {
        Compatibility::Supported
    }
}

/// An envelope's identity from its members, as [`identify`] reads them: a
/// missing or mistyped `container` or `kindVersion` counts as 0 and a
/// missing `kind` as empty, but the format has to say `coilbox`.
pub fn identify_members(
    format: &JsonField,
    container: &JsonField,
    kind: &JsonField,
    kind_version: &JsonField,
) -> (r: Result<Identity, String>)
    ensures
        match spec_identify_members(format@, container@, kind@, kind_version@) {
            Ok(id) => r matches Ok(i) && i@ == id,
            Err(e) => r matches Err(m) && m@ == e,
        },
{
    let f = match format {
        JsonField::Text(s) => s.clone(),
        _ => String::new(),
    };
    if !is_coilbox(f.as_str()) {
        let said = debug_str(f.as_str());
        let head = concat("that is not a Coilbox file - its format says ", said.as_str());
        return Err(concat(head.as_str(), " rather than \"coilbox\""));
    }
    let c: u32 = match container {
        JsonField::Count(n) => *n as u32,
        _ => 0,
    };
    let k = match kind {
        JsonField::Text(s) => s.clone(),
        _ => String::new(),
    };
    let kv: u32 = match kind_version {
        JsonField::Count(n) => *n as u32,
        _ => 0,
    };
    let compatibility = compatibility(c, k.as_str(), kv);
    Ok(Identity { kind: k, kind_version: kv, container: c, compatibility })
}

pub open spec fn spec_identify(text: Seq<char>) -> Result<IdentityView, Seq<char>> {
    match spec_share_json(text) {
        Err(e) => Err(e),
        Ok((json, code)) => match json_member(json, "format"@) {
            JsonFieldView::Invalid(e) => Err(
                if code {
                    "that share code does not hold JSON: "@
                } else {
                    "that is not valid JSON: "@
                } + e,
            ),
            JsonFieldView::NotObject => Err("that file is not a container"@),
            f => spec_identify_members(
                f,
                json_member(json, "container"@),
                json_member(json, "kind"@),
                json_member(json, "kindVersion"@),
            ),
        },
    }
}

/// Read the envelope and say whether it can be opened.
///
/// Deliberately tolerant of the payload: a preset carrying a field this build
/// has never heard of is still a preset, and refusing it here would make every
/// upstream addition a breaking change.
pub fn identify(text: &str) -> (r: Result<Identity, String>)
    ensures
        match spec_identify(text@) {
            Ok(id) => r matches Ok(i) && i@ == id,
            Err(e) => r matches Err(m) && m@ == e,
        },
{
    let (json, code) = match share_json(text) {
        Ok(found) => found,
        Err(e) => return Err(e),
    };
    let format = member(json.as_slice(), "format");
    match format {
        JsonField::Invalid(e) => {
            let head = if code {
                "that share code does not hold JSON: "
            } else {
                "that is not valid JSON: "
            };
            return Err(concat(head, e.as_str()));
        },
        JsonField::NotObject => return Err(owned("that file is not a container")),
        _ => {},
    }
    let container = member(json.as_slice(), "container");
    let kind = member(json.as_slice(), "kind");
    let kind_version = member(json.as_slice(), "kindVersion");
    identify_members(&format, &container, &kind, &kind_version)
}

// --------------------------------------------------------------- open ---

pub open spec fn spec_check_envelope(text: Seq<char>, want: Seq<char>) -> Result<IdentityView, Seq<char>> {
    match spec_identify(text) {
        Err(e) => Err(e),
        Ok(id) => match id.compatibility {
            Compatibility::Newer => Err(
                "this "@ + id.kind + " was written by a newer Coilbox (container "@ + decimal(
                    id.container as nat,
                ) + ", payload "@ + decimal(id.kind_version as nat)
                    + "). Splaunch reads container 1."@,
            ),
            Compatibility::UnknownKind => Err(
                "Splaunch does not read Coilbox "@ + debug_quoted(id.kind)
                    + " files yet - only preset."@,
            ),
            Compatibility::Supported => if id.kind != want {
                Err("that is a "@ + debug_quoted(id.kind) + " file, not a "@ + want + "."@)
            } else {
                Ok(id)
            },
        },
    }
}

/// The checks that come before reading a container of a known kind: that it
/// is a container, that nothing newer wrote it, and that it is the kind
/// wanted. What passes is safe to hand to a deserializer.
pub fn check_envelope(text: &str, want: &str) -> (r: Result<Identity, String>)
    ensures
        match spec_check_envelope(text@, want@) {
            Ok(id) => r matches Ok(i) && i@ == id,
            Err(e) => r matches Err(m) && m@ == e,
        },
{
    let id = match identify(text) {
        Ok(id) => id,
        Err(e) => return Err(e),
    };
    match id.compatibility {
        Compatibility::Newer => {
            let mut m = concat("this ", id.kind.as_str());
            m.append(" was written by a newer Coilbox (container ");
            m.append(decimal_string(id.container as u128).as_str());
            m.append(", payload ");
            m.append(decimal_string(id.kind_version as u128).as_str());
            m.append("). Splaunch reads container 1.");
            Err(m)
        },
        Compatibility::UnknownKind => {
            let mut m = owned("Splaunch does not read Coilbox ");
            m.append(debug_str(id.kind.as_str()).as_str());
            m.append(" files yet - only preset.");
            Err(m)
        },
        Compatibility::Supported => {
            let same = crate::text::same_text(id.kind.as_str(), want);
            if !same {
                let mut m = owned("that is a ");
                m.append(debug_str(id.kind.as_str()).as_str());
                m.append(" file, not a ");
                m.append(want);
                m.append(".");
                Err(m)
            } else {
                Ok(id)
            }
        },
    }
}

// ------------------------------------------------------------------ laws ---

/// What passes the envelope check can be read in full: it is the kind
/// asked for, nothing newer than this build wrote its envelope, and its
/// payload is of a version this build reads. A container from a newer
/// Coilbox is refused rather than half read.
pub proof fn law_what_opens_is_readable(text: Seq<char>, want: Seq<char>)
    ensures
        spec_check_envelope(text, want) matches Ok(id) ==> {
            &&& id.kind == want
            &&& id.container <= CONTAINER_VERSION
            &&& highest_supported(want) matches Some(h) && id.kind_version <= h
        },
{
}

/// Which containers this build reads: envelope version 1 or older, of the
/// one kind it knows, `preset`, at payload version 1 or older. An envelope
/// or payload from a later Coilbox is newer; any other kind is unknown.
pub proof fn law_what_this_build_reads(container: u32, kind: Seq<char>, kind_version: u32)
    ensures
        spec_compatibility(container, kind, kind_version) == Compatibility::Supported <==> container <= 1 && kind
            == "preset"@ && kind_version <= 1,
        spec_compatibility(container, kind, kind_version) == Compatibility::Newer <==> container > 1 || (kind
            == "preset"@ && kind_version > 1),
        spec_compatibility(container, kind, kind_version) == Compatibility::UnknownKind <==> container <= 1 && kind
            != "preset"@,
{
}

} // verus!
