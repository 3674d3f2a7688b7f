//! The payloads the mission gadget reads out of modoptions and custom keys:
//! a Lua table constructor, base64url-encoded.
//!
//! Zero-K's decoder rewrites `_` to `=` before decoding and stops at the
//! first `=`, so a payload holding the letter for sextet 63 loses everything
//! after it, and a truncated Lua literal loses the whole table. The table
//! text is therefore written in printable ASCII other than `?`: every
//! string is quoted with the bytes outside that range written as `\ddd`, and
//! a key that is not a plain Lua name is written as a quoted string too.
//! No three such bytes make a sextet of 63, so no payload this module
//! writes carries a `_`.
use vstd::prelude::*;
use vstd::string::StringSliceAdditionalSpecFns;
use vstd::utf8::{encode_utf8, is_ascii_chars, is_ascii_chars_encode_utf8};
use crate::codec::{base64url_encode, law_base64url_letters, push_char, spec_base64url, survives, url_alphabet};
use crate::game::strings_view;
use crate::scenario::{fields_view, FieldValue, FieldView};
use crate::script::pairs_of;
use crate::text::{chars_of, decimal, decimal_string, same_text};

verus! {

// ---------------------------------------------------------------- text ---

/// A character written into the table text as itself.
pub open spec fn printable(c: char) -> bool {
    ' ' <= c <= '~' && c != '?'
}

/// Every character of `s` is printable.
pub open spec fn printable_text(s: Seq<char>) -> bool {
    forall|i: int| 0 <= i < s.len() ==> printable(#[trigger] s[i])
}

pub open spec fn digit(d: int) -> char {
    (48 + d) as char
}

/// A byte as Lua's decimal escape: a backslash and exactly three digits.
pub open spec fn byte_escape(b: u8) -> Seq<char> {
    seq!['\\', digit((b / 100) as int), digit(((b / 10) % 10) as int), digit((b % 10) as int)]
}

pub open spec fn bytes_escaped(b: Seq<u8>) -> Seq<char>
    decreases b.len(),
{
    if b.len() == 0 {
        Seq::empty()
    } else {
        bytes_escaped(b.drop_last()) + byte_escape(b.last())
    }
}

/// One character of a quoted string: a quote or a backslash behind a
/// backslash, a printable character as itself, and anything else as the
/// decimal escapes of its UTF-8 bytes.
pub open spec fn char_escaped(c: char) -> Seq<char> {
    if c == '"' || c == '\\' {
        seq!['\\', c]
    } else if printable(c) {
        seq![c]
    } else {
        bytes_escaped(encode_utf8(seq![c]))
    }
}

pub open spec fn escaped_chars(s: Seq<char>) -> Seq<char>
    decreases s.len(),
{
    if s.len() == 0 {
        Seq::empty()
    } else {
        escaped_chars(s.drop_last()) + char_escaped(s.last())
    }
}

/// `s` as a Lua string literal.
pub open spec fn lua_string(s: Seq<char>) -> Seq<char> {
    seq!['"'] + escaped_chars(s) + seq!['"']
}

/// A character a decimal number is written with.
pub open spec fn numeral_char(c: char) -> bool {
    ('0' <= c <= '9') || c == '.' || c == '-' || c == '+' || c == 'e' || c == 'E'
}

pub open spec fn numeral_chars(s: Seq<char>) -> Seq<char>
    decreases s.len(),
{
    if s.len() == 0 {
        Seq::empty()
    } else {
        numeral_chars(s.drop_last()) + if numeral_char(s.last()) {
            seq![s.last()]
        } else {
            Seq::empty()
        }
    }
}

/// A number the caller wrote out: its numeral characters, or `0` where it
/// has none.
pub open spec fn lua_number(s: Seq<char>) -> Seq<char> {
    if numeral_chars(s).len() == 0 {
        seq!['0']
    } else {
        numeral_chars(s)
    }
}

pub open spec fn braced(inner: Seq<char>) -> Seq<char> {
    seq!['{'] + inner + seq!['}']
}

pub open spec fn ident_char(c: char) -> bool {
    ('a' <= c <= 'z') || ('A' <= c <= 'Z') || ('0' <= c <= '9') || c == '_'
}

/// Lua's reserved words, which cannot name a field bare.
pub open spec fn lua_keyword(k: Seq<char>) -> bool {
    k == "and"@ || k == "break"@ || k == "do"@ || k == "else"@ || k == "elseif"@ || k == "end"@ || k
        == "false"@ || k == "for"@ || k == "function"@ || k == "if"@ || k == "in"@ || k == "local"@ || k
        == "nil"@ || k == "not"@ || k == "or"@ || k == "repeat"@ || k == "return"@ || k == "then"@ || k
        == "true"@ || k == "until"@ || k == "while"@
}

/// A name Lua takes bare as a field's key.
pub open spec fn identifier(k: Seq<char>) -> bool {
    &&& k.len() > 0
    &&& !('0' <= k[0] <= '9')
    &&& forall|i: int| 0 <= i < k.len() ==> ident_char(#[trigger] k[i])
    &&& !lua_keyword(k)
}

/// The key of a table field: `k=` where `k` is a name Lua takes bare, and
/// `["k"]=` otherwise.
pub open spec fn key_text(k: Seq<char>) -> Seq<char> {
    if identifier(k) {
        k + seq!['=']
    } else {
        seq!['['] + lua_string(k) + seq![']', '=']
    }
}

/// `[n]=`, the key of an array's `n`th element, counting from 1.
pub open spec fn slot(n: nat) -> Seq<char> {
    seq!['['] + decimal(n) + seq![']', '=']
}

pub open spec fn name_items(v: Seq<Seq<char>>) -> Seq<char>
    decreases v.len(),
{
    if v.len() == 0 {
        Seq::empty()
    } else {
        name_items(v.drop_last()) + slot(v.len()) + lua_string(v.last()) + seq![',']
    }
}

pub open spec fn point_text(p: (Seq<char>, Seq<char>)) -> Seq<char> {
    braced(slot(1) + lua_number(p.0) + seq![','] + slot(2) + lua_number(p.1) + seq![','])
}

pub open spec fn point_items(v: Seq<(Seq<char>, Seq<char>)>) -> Seq<char>
    decreases v.len(),
{
    if v.len() == 0 {
        Seq::empty()
    } else {
        point_items(v.drop_last()) + slot(v.len()) + point_text(v.last()) + seq![',']
    }
}

pub open spec fn note_text(n: Seq<char>) -> Seq<char> {
    braced(key_text("text"@) + lua_string(n))
}

pub open spec fn note_items(v: Seq<Seq<char>>) -> Seq<char>
    decreases v.len(),
{
    if v.len() == 0 {
        Seq::empty()
    } else {
        note_items(v.drop_last()) + slot(v.len()) + note_text(v.last()) + seq![',']
    }
}

/// A field's value as Lua.
pub open spec fn lua_value(v: FieldView) -> Seq<char> {
    match v {
        FieldView::Number(n) => decimal(n as nat),
        FieldView::Flag(b) => if b {
            "true"@
        } else {
            "false"@
        },
        FieldView::Text(t) => lua_string(t),
        FieldView::Names(names) => braced(name_items(names)),
        FieldView::Decimal(d) => lua_number(d),
        FieldView::Points(p) => braced(point_items(p)),
        FieldView::Notes(n) => braced(note_items(n)),
    }
}

pub open spec fn record_items(f: Seq<(Seq<char>, FieldView)>) -> Seq<char>
    decreases f.len(),
{
    if f.len() == 0 {
        Seq::empty()
    } else {
        record_items(f.drop_last()) + key_text(f.last().0) + lua_value(f.last().1) + seq![',']
    }
}

/// A table of named fields, in order.
pub open spec fn lua_record(f: Seq<(Seq<char>, FieldView)>) -> Seq<char> {
    braced(record_items(f))
}

pub open spec fn list_items(rows: Seq<Seq<(Seq<char>, FieldView)>>) -> Seq<char>
    decreases rows.len(),
{
    if rows.len() == 0 {
        Seq::empty()
    } else {
        list_items(rows.drop_last()) + slot(rows.len()) + lua_record(rows.last()) + seq![',']
    }
}

/// An array of tables, in order.
pub open spec fn lua_list(rows: Seq<Seq<(Seq<char>, FieldView)>>) -> Seq<char> {
    braced(list_items(rows))
}

pub open spec fn indexed_items(rows: Seq<(u32, Seq<(Seq<char>, FieldView)>)>) -> Seq<char>
    decreases rows.len(),
{
    if rows.len() == 0 {
        Seq::empty()
    } else {
        indexed_items(rows.drop_last()) + slot(rows.last().0 as nat) + lua_record(rows.last().1) + seq![',']
    }
}

/// A table of tables under numeric keys, in order.
pub open spec fn lua_indexed(rows: Seq<(u32, Seq<(Seq<char>, FieldView)>)>) -> Seq<char> {
    braced(indexed_items(rows))
}

pub open spec fn rows_view(rows: Seq<Vec<(String, FieldValue)>>) -> Seq<Seq<(Seq<char>, FieldView)>> {
    rows.map_values(|r: Vec<(String, FieldValue)>| fields_view(r@))
}

pub open spec fn indexed_view(rows: Seq<(u32, Vec<(String, FieldValue)>)>) -> Seq<
    (u32, Seq<(Seq<char>, FieldView)>),
> {
    rows.map_values(|r: (u32, Vec<(String, FieldValue)>)| (r.0, fields_view(r.1@)))
}

/// The payload a table's text travels as: its UTF-8 bytes in base64url.
pub open spec fn spec_encode(text: Seq<char>) -> Seq<char> {
    spec_base64url(encode_utf8(text))
}

// ---------------------------------------------------------------- exec ---

fn append_text(out: &mut String, piece: &str)
    ensures
        final(out)@ == old(out)@ + piece@,
{
    out.append(piece);
}

fn push_digit(out: &mut String, d: u8)
    requires
        d < 10,
    ensures
        final(out)@ == old(out)@.push(digit(d as int)),
{
    push_char(out, (48 + d) as char);
}

fn push_byte_escape(out: &mut String, b: u8)
    ensures
        final(out)@ == old(out)@ + byte_escape(b),
{
    let ghost start = out@;
    push_char(out, '\\');
    push_digit(out, b / 100);
    push_digit(out, (b / 10) % 10);
    push_digit(out, b % 10);
    assert(out@ =~= start + byte_escape(b));
}

fn push_escaped_char(out: &mut String, c: char)
    ensures
        final(out)@ == old(out)@ + char_escaped(c),
{
    let ghost start = out@;
    if c == '"' || c == '\\' {
        push_char(out, '\\');
        push_char(out, c);
        assert(out@ =~= start + char_escaped(c));
    } else if ' ' <= c && c <= '~' && c != '?' {
        push_char(out, c);
        assert(out@ =~= start + char_escaped(c));
    } else {
        let mut one = String::new();
        push_char(&mut one, c);
        assert(one@ =~= seq![c]);
        let bytes = one.as_str().as_bytes();
        let mut i: usize = 0;
        while i < bytes.len()
            invariant
                bytes@ == encode_utf8(seq![c]),
                i <= bytes@.len(),
                out@ == start + bytes_escaped(bytes@.take(i as int)),
            decreases bytes.len() - i,
        {
            push_byte_escape(out, bytes[i]);
            assert(bytes@.take(i + 1).drop_last() =~= bytes@.take(i as int));
            i = i + 1;
        }
        assert(bytes@.take(bytes@.len() as int) =~= bytes@);
    }
}

fn push_lua_string(out: &mut String, s: &str)
    ensures
        final(out)@ == old(out)@ + lua_string(s@),
{
    let ghost start = out@;
    push_char(out, '"');
    let cs = chars_of(s);
    let mut i: usize = 0;
    while i < cs.len()
        invariant
            cs@ == s@,
            i <= cs@.len(),
            out@ == start + seq!['"'] + escaped_chars(cs@.take(i as int)),
        decreases cs.len() - i,
    {
        push_escaped_char(out, cs[i]);
        assert(cs@.take(i + 1).drop_last() =~= cs@.take(i as int));
        i = i + 1;
    }
    assert(cs@.take(cs@.len() as int) =~= cs@);
    push_char(out, '"');
    assert(out@ =~= start + lua_string(s@));
}

fn push_number(out: &mut String, s: &str)
    ensures
        final(out)@ == old(out)@ + lua_number(s@),
{
    let ghost start = out@;
    let cs = chars_of(s);
    let mut wrote = false;
    let mut i: usize = 0;
    while i < cs.len()
        invariant
            cs@ == s@,
            i <= cs@.len(),
            out@ == start + numeral_chars(cs@.take(i as int)),
            wrote <==> numeral_chars(cs@.take(i as int)).len() > 0,
        decreases cs.len() - i,
    {
        let c = cs[i];
        assert(cs@.take(i + 1).drop_last() =~= cs@.take(i as int));
        if ('0' <= c && c <= '9') || c == '.' || c == '-' || c == '+' || c == 'e' || c == 'E' {
            push_char(out, c);
            wrote = true;
        }
        i = i + 1;
        assert(out@ =~= start + numeral_chars(cs@.take(i as int)));
    }
    assert(cs@.take(cs@.len() as int) =~= cs@);
    if !wrote {
        push_char(out, '0');
        assert(out@ =~= start + lua_number(s@));
    }
}

fn is_keyword(k: &str) -> (r: bool)
    ensures
        r == lua_keyword(k@),
{
    same_text(k, "and") || same_text(k, "break") || same_text(k, "do") || same_text(k, "else")
        || same_text(k, "elseif") || same_text(k, "end") || same_text(k, "false") || same_text(k, "for")
        || same_text(k, "function") || same_text(k, "if") || same_text(k, "in") || same_text(k, "local")
        || same_text(k, "nil") || same_text(k, "not") || same_text(k, "or") || same_text(k, "repeat")
        || same_text(k, "return") || same_text(k, "then") || same_text(k, "true") || same_text(k, "until")
        || same_text(k, "while")
}

fn is_identifier(k: &str) -> (r: bool)
    ensures
        r == identifier(k@),
{
    let cs = chars_of(k);
    if cs.len() == 0 {
        return false;
    }
    if '0' <= cs[0] && cs[0] <= '9' {
        return false;
    }
    let mut i: usize = 0;
    while i < cs.len()
        invariant
            cs@ == k@,
            i <= cs@.len(),
            forall|j: int| 0 <= j < i ==> ident_char(#[trigger] cs@[j]),
        decreases cs.len() - i,
    {
        let c = cs[i];
        if !(('a' <= c && c <= 'z') || ('A' <= c && c <= 'Z') || ('0' <= c && c <= '9') || c == '_') {
            return false;
        }
        i = i + 1;
    }
    !is_keyword(k)
}

fn push_key(out: &mut String, k: &str)
    ensures
        final(out)@ == old(out)@ + key_text(k@),
{
    let ghost start = out@;
    if is_identifier(k) {
        append_text(out, k);
        push_char(out, '=');
    } else {
        push_char(out, '[');
        push_lua_string(out, k);
        push_char(out, ']');
        push_char(out, '=');
    }
    assert(out@ =~= start + key_text(k@));
}

fn push_slot(out: &mut String, n: usize)
    ensures
        final(out)@ == old(out)@ + slot(n as nat),
{
    let ghost start = out@;
    push_char(out, '[');
    let d = decimal_string(n as u128);
    append_text(out, d.as_str());
    push_char(out, ']');
    push_char(out, '=');
    assert(out@ =~= start + slot(n as nat));
}

fn push_names(out: &mut String, names: &Vec<String>)
    ensures
        final(out)@ == old(out)@ + braced(name_items(strings_view(names@))),
{
    let ghost start = out@;
    let ghost v = strings_view(names@);
    push_char(out, '{');
    let mut i: usize = 0;
    while i < names.len()
        invariant
            v == strings_view(names@),
            i <= names@.len(),
            out@ == start + seq!['{'] + name_items(v.take(i as int)),
        decreases names.len() - i,
    {
        let ghost before = out@;
        push_slot(out, i + 1);
        push_lua_string(out, names[i].as_str());
        push_char(out, ',');
        assert(v.take(i + 1).drop_last() =~= v.take(i as int));
        assert(out@ =~= before + slot((i + 1) as nat) + lua_string(v[i as int]) + seq![',']);
        assert(v[i as int] == names@[i as int]@);
        i = i + 1;
        assert(out@ =~= start + seq!['{'] + name_items(v.take(i as int)));
    }
    assert(v.take(v.len() as int) =~= v);
    push_char(out, '}');
    assert(out@ =~= start + braced(name_items(v)));
}

fn push_point(out: &mut String, x: &str, z: &str)
    ensures
        final(out)@ == old(out)@ + point_text((x@, z@)),
{
    let ghost start = out@;
    push_char(out, '{');
    push_slot(out, 1);
    push_number(out, x);
    push_char(out, ',');
    push_slot(out, 2);
    push_number(out, z);
    push_char(out, ',');
    push_char(out, '}');
    assert(out@ =~= start + point_text((x@, z@)));
}

fn push_points(out: &mut String, points: &Vec<(String, String)>)
    ensures
        final(out)@ == old(out)@ + braced(point_items(pairs_of(points@))),
{
    let ghost start = out@;
    let ghost v = pairs_of(points@);
    push_char(out, '{');
    let mut i: usize = 0;
    while i < points.len()
        invariant
            v == pairs_of(points@),
            i <= points@.len(),
            out@ == start + seq!['{'] + point_items(v.take(i as int)),
        decreases points.len() - i,
    {
        let ghost before = out@;
        push_slot(out, i + 1);
        push_point(out, points[i].0.as_str(), points[i].1.as_str());
        push_char(out, ',');
        assert(v[i as int] == (points@[i as int].0@, points@[i as int].1@));
        assert(out@ =~= before + slot((i + 1) as nat) + point_text(v[i as int]) + seq![',']);
        assert(v.take(i + 1).drop_last() =~= v.take(i as int));
        i = i + 1;
        assert(out@ =~= start + seq!['{'] + point_items(v.take(i as int)));
    }
    assert(v.take(v.len() as int) =~= v);
    push_char(out, '}');
    assert(out@ =~= start + braced(point_items(v)));
}

fn push_notes(out: &mut String, notes: &Vec<String>)
    ensures
        final(out)@ == old(out)@ + braced(note_items(strings_view(notes@))),
{
    let ghost start = out@;
    let ghost v = strings_view(notes@);
    push_char(out, '{');
    let mut i: usize = 0;
    while i < notes.len()
        invariant
            v == strings_view(notes@),
            i <= notes@.len(),
            out@ == start + seq!['{'] + note_items(v.take(i as int)),
        decreases notes.len() - i,
    {
        let ghost before = out@;
        push_slot(out, i + 1);
        push_char(out, '{');
        push_key(out, "text");
        push_lua_string(out, notes[i].as_str());
        push_char(out, '}');
        push_char(out, ',');
        assert(v[i as int] == notes@[i as int]@);
        assert(out@ =~= before + slot((i + 1) as nat) + note_text(v[i as int]) + seq![',']);
        assert(v.take(i + 1).drop_last() =~= v.take(i as int));
        i = i + 1;
        assert(out@ =~= start + seq!['{'] + note_items(v.take(i as int)));
    }
    assert(v.take(v.len() as int) =~= v);
    push_char(out, '}');
    assert(out@ =~= start + braced(note_items(v)));
}

fn push_value(out: &mut String, v: &FieldValue)
    ensures
        final(out)@ == old(out)@ + lua_value(v@),
{
    match v {
        FieldValue::Number(n) => {
            let d = decimal_string(*n as u128);
            append_text(out, d.as_str());
        },
        FieldValue::Flag(b) => {
            if *b {
                append_text(out, "true");
            } else {
                append_text(out, "false");
            }
        },
        FieldValue::Text(t) => {
            push_lua_string(out, t.as_str());
        },
        FieldValue::Names(names) => {
            push_names(out, names);
        },
        FieldValue::Decimal(d) => {
            push_number(out, d.as_str());
        },
        FieldValue::Points(p) => {
            push_points(out, p);
        },
        FieldValue::Notes(n) => {
            push_notes(out, n);
        },
    }
}

fn push_record(out: &mut String, fields: &Vec<(String, FieldValue)>)
    ensures
        final(out)@ == old(out)@ + lua_record(fields_view(fields@)),
{
    let ghost start = out@;
    let ghost f = fields_view(fields@);
    push_char(out, '{');
    let mut i: usize = 0;
    while i < fields.len()
        invariant
            f == fields_view(fields@),
            i <= fields@.len(),
            out@ == start + seq!['{'] + record_items(f.take(i as int)),
        decreases fields.len() - i,
    {
        let ghost before = out@;
        push_key(out, fields[i].0.as_str());
        push_value(out, &fields[i].1);
        push_char(out, ',');
        assert(f[i as int] == (fields@[i as int].0@, fields@[i as int].1@));
        assert(f.take(i + 1).drop_last() =~= f.take(i as int));
        i = i + 1;
        assert(out@ =~= start + seq!['{'] + record_items(f.take(i as int)));
    }
    assert(f.take(f.len() as int) =~= f);
    push_char(out, '}');
    assert(out@ =~= start + lua_record(f));
}

/// The Lua text of a table of named fields.
pub fn lua_record_text(fields: &Vec<(String, FieldValue)>) -> (r: String)
    ensures
        r@ == lua_record(fields_view(fields@)),
{
    let mut out = String::new();
    push_record(&mut out, fields);
    assert(out@ =~= lua_record(fields_view(fields@)));
    out
}

/// The Lua text of the array of tables `rows[lo..hi]`.
pub fn lua_list_range(rows: &[Vec<(String, FieldValue)>], lo: usize, hi: usize) -> (r: String)
    requires
        lo <= hi <= rows@.len(),
    ensures
        r@ == lua_list(rows_view(rows@).subrange(lo as int, hi as int)),
{
    let ghost v = rows_view(rows@).subrange(lo as int, hi as int);
    let mut out = String::new();
    push_char(&mut out, '{');
    let mut i: usize = lo;
    while i < hi
        invariant
            lo <= i <= hi <= rows@.len(),
            v == rows_view(rows@).subrange(lo as int, hi as int),
            out@ == seq!['{'] + list_items(v.take(i - lo)),
        decreases hi - i,
    {
        let ghost before = out@;
        push_slot(&mut out, i - lo + 1);
        push_record(&mut out, &rows[i]);
        push_char(&mut out, ',');
        assert(v[i - lo] == fields_view(rows@[i as int]@));
        assert(out@ =~= before + slot((i - lo + 1) as nat) + lua_record(v[i - lo]) + seq![',']);
        assert(v.take(i + 1 - lo).drop_last() =~= v.take(i - lo));
        i = i + 1;
        assert(out@ =~= seq!['{'] + list_items(v.take(i - lo)));
    }
    assert(v.take(hi - lo) =~= v);
    push_char(&mut out, '}');
    assert(out@ =~= lua_list(v));
    out
}

/// The Lua text of an array of tables.
pub fn lua_list_text(rows: &[Vec<(String, FieldValue)>]) -> (r: String)
    ensures
        r@ == lua_list(rows_view(rows@)),
{
    let r = lua_list_range(rows, 0, rows.len());
    assert(rows_view(rows@).subrange(0, rows@.len() as int) =~= rows_view(rows@));
    r
}

/// The Lua text of tables under numeric keys.
pub fn lua_indexed_text(rows: &[(u32, Vec<(String, FieldValue)>)]) -> (r: String)
    ensures
        r@ == lua_indexed(indexed_view(rows@)),
{
    let ghost v = indexed_view(rows@);
    let mut out = String::new();
    push_char(&mut out, '{');
    let mut i: usize = 0;
    while i < rows.len()
        invariant
            v == indexed_view(rows@),
            i <= rows@.len(),
            out@ == seq!['{'] + indexed_items(v.take(i as int)),
        decreases rows.len() - i,
    {
        let ghost before = out@;
        push_slot(&mut out, rows[i].0 as usize);
        push_record(&mut out, &rows[i].1);
        push_char(&mut out, ',');
        assert(v.take(i + 1).drop_last() =~= v.take(i as int));
        i = i + 1;
        assert(out@ =~= seq!['{'] + indexed_items(v.take(i as int)));
    }
    assert(v.take(v.len() as int) =~= v);
    push_char(&mut out, '}');
    assert(out@ =~= lua_indexed(v));
    out
}

/// The payload a table's text travels as.
pub fn encode(text: &str) -> (r: String)
    ensures
        r@ == spec_encode(text@),
{
    base64url_encode(text.as_bytes())
}

// ---------------------------------------------------------------- laws ---

proof fn lemma_cat(a: Seq<char>, b: Seq<char>)
    requires
        printable_text(a),
        printable_text(b),
    ensures
        printable_text(a + b),
{
    assert forall|i: int| 0 <= i < (a + b).len() implies printable(#[trigger] (a + b)[i]) by {
        if i < a.len() {
            assert((a + b)[i] == a[i]);
        } else {
            assert((a + b)[i] == b[i - a.len()]);
        }
    }
}

proof fn lemma_digit(d: int)
    requires
        0 <= d < 10,
    ensures
        printable(digit(d)),
{
}

proof fn lemma_bytes_escaped(b: Seq<u8>)
    ensures
        printable_text(bytes_escaped(b)),
    decreases b.len(),
{
    if b.len() > 0 {
        let x = b.last();
        lemma_bytes_escaped(b.drop_last());
        lemma_digit((x / 100) as int);
        lemma_digit(((x / 10) % 10) as int);
        lemma_digit((x % 10) as int);
        let e = byte_escape(x);
        assert(printable_text(e)) by {
            assert forall|i: int| 0 <= i < e.len() implies printable(#[trigger] e[i]) by {}
        }
        lemma_cat(bytes_escaped(b.drop_last()), e);
    }
}

proof fn lemma_escaped_chars(s: Seq<char>)
    ensures
        printable_text(escaped_chars(s)),
    decreases s.len(),
{
    if s.len() > 0 {
        let c = s.last();
        lemma_escaped_chars(s.drop_last());
        let e = char_escaped(c);
        if c == '"' || c == '\\' {
            assert(printable_text(e)) by {
                assert forall|i: int| 0 <= i < e.len() implies printable(#[trigger] e[i]) by {}
            }
        } else if printable(c) {
            assert(printable_text(e)) by {
                assert forall|i: int| 0 <= i < e.len() implies printable(#[trigger] e[i]) by {}
            }
        } else {
            lemma_bytes_escaped(encode_utf8(seq![c]));
        }
        lemma_cat(escaped_chars(s.drop_last()), e);
    }
}

proof fn lemma_chars(s: Seq<char>)
    requires
        forall|i: int| 0 <= i < s.len() ==> printable(#[trigger] s[i]),
    ensures
        printable_text(s),
{
}

proof fn lemma_lua_string(s: Seq<char>)
    ensures
        printable_text(lua_string(s)),
{
    lemma_escaped_chars(s);
    lemma_chars(seq!['"']);
    lemma_cat(seq!['"'], escaped_chars(s));
    lemma_cat(seq!['"'] + escaped_chars(s), seq!['"']);
}

proof fn lemma_numeral_chars(s: Seq<char>)
    ensures
        printable_text(numeral_chars(s)),
    decreases s.len(),
{
    if s.len() > 0 {
        lemma_numeral_chars(s.drop_last());
        let tail = if numeral_char(s.last()) {
            seq![s.last()]
        } else {
            Seq::<char>::empty()
        };
        assert(printable_text(tail)) by {
            assert forall|i: int| 0 <= i < tail.len() implies printable(#[trigger] tail[i]) by {}
        }
        lemma_cat(numeral_chars(s.drop_last()), tail);
    }
}

proof fn lemma_lua_number(s: Seq<char>)
    ensures
        printable_text(lua_number(s)),
{
    lemma_numeral_chars(s);
    lemma_chars(seq!['0']);
}

proof fn lemma_decimal(n: nat)
    ensures
        printable_text(decimal(n)),
    decreases n,
{
    if n >= 10 {
        lemma_decimal(n / 10);
        lemma_digit((n % 10) as int);
        assert(digit((n % 10) as int) == (48 + n % 10) as char);
        lemma_chars(seq![(48 + n % 10) as char]);
        lemma_cat(decimal(n / 10), seq![(48 + n % 10) as char]);
        assert(decimal(n) == decimal(n / 10) + seq![(48 + n % 10) as char]);
    } else {
        lemma_digit(n as int);
        assert(digit(n as int) == (48 + n) as char);
        lemma_chars(decimal(n));
    }
}

proof fn lemma_braced(inner: Seq<char>)
    requires
        printable_text(inner),
    ensures
        printable_text(braced(inner)),
{
    lemma_chars(seq!['{']);
    lemma_chars(seq!['}']);
    lemma_cat(seq!['{'], inner);
    lemma_cat(seq!['{'] + inner, seq!['}']);
}

proof fn lemma_key_text(k: Seq<char>)
    ensures
        printable_text(key_text(k)),
{
    if identifier(k) {
        assert(printable_text(k)) by {
            assert forall|i: int| 0 <= i < k.len() implies printable(#[trigger] k[i]) by {
                assert(ident_char(k[i]));
            }
        }
        lemma_chars(seq!['=']);
        lemma_cat(k, seq!['=']);
    } else {
        lemma_lua_string(k);
        lemma_chars(seq!['[']);
        lemma_chars(seq![']', '=']);
        lemma_cat(seq!['['], lua_string(k));
        lemma_cat(seq!['['] + lua_string(k), seq![']', '=']);
    }
}

proof fn lemma_slot(n: nat)
    ensures
        printable_text(slot(n)),
{
    lemma_decimal(n);
    lemma_chars(seq!['[']);
    lemma_chars(seq![']', '=']);
    lemma_cat(seq!['['], decimal(n));
    lemma_cat(seq!['['] + decimal(n), seq![']', '=']);
}

/// `a`, then `b`, then `c`, then a comma: printable where the three are.
proof fn lemma_item(a: Seq<char>, b: Seq<char>, c: Seq<char>)
    requires
        printable_text(a),
        printable_text(b),
        printable_text(c),
    ensures
        printable_text(a + b + c + seq![',']),
{
    lemma_chars(seq![',']);
    lemma_cat(a, b);
    lemma_cat(a + b, c);
    lemma_cat(a + b + c, seq![',']);
}

proof fn lemma_name_items(v: Seq<Seq<char>>)
    ensures
        printable_text(name_items(v)),
    decreases v.len(),
{
    if v.len() > 0 {
        lemma_name_items(v.drop_last());
        lemma_lua_string(v.last());
        lemma_slot(v.len());
        lemma_item(name_items(v.drop_last()), slot(v.len()), lua_string(v.last()));
    }
}

proof fn lemma_point_items(v: Seq<(Seq<char>, Seq<char>)>)
    ensures
        printable_text(point_items(v)),
    decreases v.len(),
{
    if v.len() > 0 {
        let p = v.last();
        lemma_point_items(v.drop_last());
        lemma_lua_number(p.0);
        lemma_lua_number(p.1);
        lemma_slot(1);
        lemma_slot(2);
        lemma_chars(Seq::<char>::empty());
        lemma_item(Seq::<char>::empty(), slot(1), lua_number(p.0));
        lemma_item(Seq::<char>::empty() + slot(1) + lua_number(p.0) + seq![','], slot(2), lua_number(p.1));
        assert(slot(1) + lua_number(p.0) + seq![','] + slot(2) + lua_number(p.1) + seq![','] =~= Seq::<char>::empty()
            + slot(1) + lua_number(p.0) + seq![','] + slot(2) + lua_number(p.1) + seq![',']);
        lemma_braced(slot(1) + lua_number(p.0) + seq![','] + slot(2) + lua_number(p.1) + seq![',']);
        lemma_slot(v.len());
        lemma_item(point_items(v.drop_last()), slot(v.len()), point_text(p));
    }
}

proof fn lemma_note_items(v: Seq<Seq<char>>)
    ensures
        printable_text(note_items(v)),
    decreases v.len(),
{
    if v.len() > 0 {
        lemma_note_items(v.drop_last());
        lemma_key_text("text"@);
        lemma_lua_string(v.last());
        lemma_cat(key_text("text"@), lua_string(v.last()));
        lemma_braced(key_text("text"@) + lua_string(v.last()));
        lemma_slot(v.len());
        lemma_item(note_items(v.drop_last()), slot(v.len()), note_text(v.last()));
    }
}

proof fn lemma_value(v: FieldView)
    ensures
        printable_text(lua_value(v)),
{
    match v {
        FieldView::Number(n) => {
            lemma_decimal(n as nat);
        },
        FieldView::Flag(b) => {
            reveal_strlit("true");
            reveal_strlit("false");
            lemma_chars(lua_value(v));
        },
        FieldView::Text(t) => {
            lemma_lua_string(t);
        },
        FieldView::Names(names) => {
            lemma_name_items(names);
            lemma_braced(name_items(names));
        },
        FieldView::Decimal(d) => {
            lemma_lua_number(d);
        },
        FieldView::Points(p) => {
            lemma_point_items(p);
            lemma_braced(point_items(p));
        },
        FieldView::Notes(n) => {
            lemma_note_items(n);
            lemma_braced(note_items(n));
        },
    }
}

proof fn lemma_record(f: Seq<(Seq<char>, FieldView)>)
    ensures
        printable_text(record_items(f)),
        printable_text(lua_record(f)),
    decreases f.len(),
{
    if f.len() > 0 {
        let last = f.last();
        lemma_record(f.drop_last());
        lemma_key_text(last.0);
        lemma_value(last.1);
        lemma_chars(seq![',']);
        lemma_cat(record_items(f.drop_last()), key_text(last.0));
        lemma_cat(record_items(f.drop_last()) + key_text(last.0), lua_value(last.1));
        lemma_cat(record_items(f.drop_last()) + key_text(last.0) + lua_value(last.1), seq![',']);
    }
    lemma_braced(record_items(f));
}

proof fn lemma_list(rows: Seq<Seq<(Seq<char>, FieldView)>>)
    ensures
        printable_text(list_items(rows)),
    decreases rows.len(),
{
    if rows.len() > 0 {
        lemma_list(rows.drop_last());
        lemma_record(rows.last());
        lemma_slot(rows.len());
        lemma_item(list_items(rows.drop_last()), slot(rows.len()), lua_record(rows.last()));
    }
}

proof fn lemma_indexed(rows: Seq<(u32, Seq<(Seq<char>, FieldView)>)>)
    ensures
        printable_text(indexed_items(rows)),
    decreases rows.len(),
{
    if rows.len() > 0 {
        let last = rows.last();
        lemma_indexed(rows.drop_last());
        lemma_slot(last.0 as nat);
        lemma_record(last.1);
        lemma_item(indexed_items(rows.drop_last()), slot(last.0 as nat), lua_record(last.1));
    }
}

/// Every table this module writes is printable ASCII other than `?`,
/// whatever the strings in it hold.
pub proof fn law_tables_are_printable(
    fields: Seq<(Seq<char>, FieldView)>,
    rows: Seq<Seq<(Seq<char>, FieldView)>>,
    indexed: Seq<(u32, Seq<(Seq<char>, FieldView)>)>,
)
    ensures
        printable_text(lua_record(fields)),
        printable_text(lua_list(rows)),
        printable_text(lua_indexed(indexed)),
{
    lemma_record(fields);
    lemma_list(rows);
    lemma_braced(list_items(rows));
    lemma_indexed(indexed);
    lemma_braced(indexed_items(indexed));
}

/// A printable table's payload is written in the URL-safe alphabet and
/// holds no `_`, so Zero-K's decoder reads all of it; nor, being letters,
/// digits and `-`, does it hold a brace or a `;` that could end a line or a
/// section of the start script it stands in.
pub proof fn law_a_printable_payload_survives(text: Seq<char>)
    requires
        printable_text(text),
    ensures
        forall|i: int| 0 <= i < spec_encode(text).len() ==> url_alphabet(#[trigger] spec_encode(text)[i]),
        forall|i: int| 0 <= i < spec_encode(text).len() ==> #[trigger] spec_encode(text)[i] != '_',
{
    assert(is_ascii_chars(text)) by {
        assert forall|i: int| 0 <= i < text.len() implies '\0' <= #[trigger] text[i] <= '\u{7f}' by {
            assert(printable(text[i]));
        }
    }
    is_ascii_chars_encode_utf8(text);
    let b = encode_utf8(text);
    assert forall|j: int| 0 <= j < b.len() implies survives(#[trigger] b[j]) by {
        assert(printable(text[j]));
        assert(text[j] as u8 == b[j]);
    }
    law_base64url_letters(b);
}

} // verus!
