//! The JSON text handed back to the viewer: string escaping, the error and
//! success documents, and the buffer that holds the last result.
use vstd::prelude::*;
use crate::chars::{self, chars_of, push_chars};

verus! {

/// Whether `c` is a control character (Unicode category `Cc`, what
/// `char::is_control` tests): U+0000 to U+001F and U+007F to U+009F.
pub open spec fn is_control(c: char) -> bool {
    (c as u32) <= 0x1f || (0x7f <= (c as u32) && (c as u32) <= 0x9f)
}

/// The lower-case hexadecimal digit for a value below sixteen.
pub open spec fn hex_digit(d: int) -> char {
    if d < 10 {
        ((d + 48) as u32) as char
    } else {
        ((d + 87) as u32) as char
    }
}

/// The JSON form of one character inside a string literal: backslash,
/// quote, newline, carriage return and tab get their short escapes, other
/// control characters a `\u` escape with four lower-case hex digits, and
/// every other character stands for itself.
pub open spec fn escape_char(c: char) -> Seq<char> {
    if c == '\\' {
        seq!['\\', '\\']
    } else if c == '"' {
        seq!['\\', '"']
    } else if c == '\n' {
        seq!['\\', 'n']
    } else if c == '\r' {
        seq!['\\', 'r']
    } else if c == '\t' {
        seq!['\\', 't']
    } else if is_control(c) {
        let n = c as int;
        seq![
            '\\',
            'u',
            hex_digit((n / 4096) % 16),
            hex_digit((n / 256) % 16),
            hex_digit((n / 16) % 16),
            hex_digit(n % 16),
        ]
    } else {
        seq![c]
    }
}

/// The JSON string-literal body for `s`, character by character.
pub open spec fn json_escaped(s: Seq<char>) -> Seq<char>
    decreases s.len(),
{
    if s.len() == 0 {
        seq![]
    } else {
        escape_char(s[0]) + json_escaped(s.skip(1))
    }
}

fn hex_digit_exec(d: u32) -> (c: char)
    requires
        d < 16,
    ensures
        c == hex_digit(d as int),
{
    if d < 10 {
        chars::char_of_ascii(d + 48)
    } else {
        chars::char_of_ascii(d + 87)
    }
}

/// Appends the JSON form of `c` (see `escape_char`).
fn push_escaped(out: &mut Vec<char>, c: char)
    ensures
        final(out)@ == old(out)@ + escape_char(c),
{
    if c == '\\' {
        out.push('\\');
        out.push('\\');
    } else if c == '"' {
        out.push('\\');
        out.push('"');
    } else if c == '\n' {
        out.push('\\');
        out.push('n');
    } else if c == '\r' {
        out.push('\\');
        out.push('r');
    } else if c == '\t' {
        out.push('\\');
        out.push('t');
    } else if (c as u32) <= 0x1f || (0x7f <= (c as u32) && (c as u32) <= 0x9f) {
        let n: u32 = c as u32;
        out.push('\\');
        out.push('u');
        out.push(hex_digit_exec((n / 4096) % 16));
        out.push(hex_digit_exec((n / 256) % 16));
        out.push(hex_digit_exec((n / 16) % 16));
        out.push(hex_digit_exec(n % 16));
    } else {
        out.push(c);
    }
    assert(out@ =~= old(out)@ + escape_char(c));
}

/// Appends the JSON string-literal body for `v`.
fn push_json_escaped(out: &mut Vec<char>, v: &Vec<char>)
    ensures
        final(out)@ == old(out)@ + json_escaped(v@),
{
    let ghost start = out@;
    let mut i: usize = 0;
    assert(v@.skip(0) =~= v@);
    while i < v.len()
        invariant
            i <= v.len(),
            start + json_escaped(v@) == out@ + json_escaped(v@.skip(i as int)),
        decreases v.len() - i,
    {
        let ghost rest = v@.skip(i as int);
        assert(rest.skip(1) =~= v@.skip(i + 1));
        let ghost before = out@;
        push_escaped(out, v[i]);
        assert(before + json_escaped(rest) =~= out@ + json_escaped(v@.skip(i + 1)));
        i += 1;
    }
    assert(json_escaped(v@.skip(i as int)) =~= Seq::<char>::empty());
    assert(start + json_escaped(v@) =~= out@);
}

/// The JSON string-literal body for `value`: backslash, quote, newline,
/// carriage return and tab get their short escapes, other control
/// characters `\u` and four lower-case hex digits.
pub fn json_escape(value: &str) -> (r: String)
    ensures
        r@ == json_escaped(value@),
{
    let v = chars_of(value);
    let mut out: Vec<char> = Vec::new();
    push_json_escaped(&mut out, &v);
    assert(out@ =~= json_escaped(value@));
    chars::string_of(&out)
}

/// The error document for `message`.
pub open spec fn error_document(message: Seq<char>) -> Seq<char> {
    "{\"ok\":false,\"error\":\""@ + json_escaped(message) + "\",\"warnings\":[]}"@
}

/// The JSON document that reports a failed parse with `message` and no
/// warnings: `{"ok":false,"error":"<message>","warnings":[]}`.
pub fn error_json(message: &str) -> (r: String)
    ensures
        r@ == error_document(message@),
{
    let escaped = json_escape(message);
    let mut out = String::from_str("{\"ok\":false,\"error\":\"");
    out.append(escaped.as_str());
    out.append("\",\"warnings\":[]}");
    out
}

/// A freshly started result buffer: it holds no bytes.
pub fn result_buf() -> (buf: Vec<u8>)
    ensures
        buf@ == Seq::<u8>::empty(),
{
    Vec::new()
}

/// Replaces the contents of the result buffer by the UTF-8 bytes of `json`.
pub fn write_result_json(buf: &mut Vec<u8>, json: String)
    ensures
        final(buf)@ == vstd::utf8::encode_utf8(json@),
{
    let bytes: &[u8] = json.as_str().as_bytes();
    buf.clear();
    let mut i: usize = 0;
    while i < bytes.len()
        invariant
            i <= bytes.len(),
            bytes@ == vstd::utf8::encode_utf8(json@),
            buf@ == bytes@.take(i as int),
        decreases bytes.len() - i,
    {
        buf.push(bytes[i]);
        i += 1;
        assert(buf@ =~= bytes@.take(i as int));
    }
    assert(bytes@.take(i as int) =~= bytes@);
}

/// One vertex of an entity as the JSON document writes it: its three
/// coordinates, each already written as a JSON number.
pub struct VertexJson {
    pub x: String,
    pub y: String,
    pub z: String,
}

/// One entity as the JSON document writes it. `kind` is written as it
/// stands; `layer` and `text` are escaped; `text_height` and the vertex
/// coordinates are already written as JSON numbers.
pub struct EntityJson {
    pub kind: String,
    pub layer: Option<String>,
    pub text: Option<String>,
    pub text_height: Option<String>,
    pub vertices: Vec<VertexJson>,
}

/// A quoted, escaped JSON string, or `null`.
pub open spec fn string_or_null(o: Option<String>) -> Seq<char> {
    match o {
        Some(s) => "\""@ + json_escaped(s@) + "\""@,
        None => "null"@,
    }
}

/// A quoted, escaped JSON string.
pub open spec fn quoted(s: String) -> Seq<char> {
    "\""@ + json_escaped(s@) + "\""@
}

/// A vertex as the array `[x,y,z]`.
pub open spec fn vertex_document(v: VertexJson) -> Seq<char> {
    "["@ + v.x@ + ","@ + v.y@ + ","@ + v.z@ + "]"@
}

/// An entity as a JSON object with the members `kind`, `layer`, `text`,
/// `textHeight` and `vertices`, in that order.
pub open spec fn entity_document(e: EntityJson) -> Seq<char> {
    "{\"kind\":\""@ + e.kind@ + "\","@ + "\"layer\":"@ + string_or_null(e.layer) + ","@
        + "\"text\":"@ + string_or_null(e.text) + ","@ + "\"textHeight\":"@ + (match e.text_height {
        Some(h) => h@,
        None => "null"@,
    }) + ","@ + "\"vertices\":["@ + chars::join_with(
        e.vertices@.map_values(|v: VertexJson| vertex_document(v)),
        seq![','],
    ) + "]}"@
}

/// The document that reports a successful parse: the entities, then the
/// warnings as escaped strings.
pub open spec fn success_document(entities: Seq<EntityJson>, warnings: Seq<String>) -> Seq<char> {
    "{\"ok\":true,\"entities\":["@ + chars::join_with(
        entities.map_values(|e: EntityJson| entity_document(e)),
        seq![','],
    ) + "],\"warnings\":["@ + chars::join_with(
        warnings.map_values(|w: String| quoted(w)),
        seq![','],
    ) + "]}"@
}

/// Appends the characters of `s`.
fn push_str(out: &mut Vec<char>, s: &str)
    ensures
        final(out)@ == old(out)@ + s@,
{
    let v = chars_of(s);
    let mut i: usize = 0;
    let ghost start = out@;
    while i < v.len()
        invariant
            i <= v.len(),
            v@ == s@,
            out@ == start + v@.take(i as int),
        decreases v.len() - i,
    {
        out.push(v[i]);
        i += 1;
        assert(out@ =~= start + v@.take(i as int));
    }
    assert(v@.take(i as int) =~= v@);
}

fn push_string_or_null(out: &mut Vec<char>, o: &Option<String>)
    ensures
        final(out)@ == old(out)@ + string_or_null(*o),
{
    match o {
        Some(s) => {
            push_str(out, "\"");
            let v = chars_of(s.as_str());
            push_json_escaped(out, &v);
            push_str(out, "\"");
        },
        None => {
            push_str(out, "null");
        },
    }
    assert(out@ =~= old(out)@ + string_or_null(*o));
}

fn push_entity(out: &mut Vec<char>, e: &EntityJson)
    ensures
        final(out)@ == old(out)@ + entity_document(*e),
{
    push_str(out, "{\"kind\":\"");
    push_str(out, e.kind.as_str());
    push_str(out, "\",");
    push_str(out, "\"layer\":");
    push_string_or_null(out, &e.layer);
    push_str(out, ",");
    push_str(out, "\"text\":");
    push_string_or_null(out, &e.text);
    push_str(out, ",");
    push_str(out, "\"textHeight\":");
    match &e.text_height {
        Some(h) => push_str(out, h.as_str()),
        None => push_str(out, "null"),
    }
    push_str(out, ",");
    push_str(out, "\"vertices\":[");
    let ghost head = out@;
    let ghost docs = e.vertices@.map_values(|v: VertexJson| vertex_document(v));
    let mut i: usize = 0;
    while i < e.vertices.len()
        invariant
            i <= e.vertices.len(),
            docs == e.vertices@.map_values(|v: VertexJson| vertex_document(v)),
            out@ == head + chars::join_with(docs.take(i as int), seq![',']),
        decreases e.vertices.len() - i,
    {
        let ghost before = out@;
        if i > 0 {
            out.push(',');
        }
        let v = &e.vertices[i];
        push_str(out, "[");
        push_str(out, v.x.as_str());
        push_str(out, ",");
        push_str(out, v.y.as_str());
        push_str(out, ",");
        push_str(out, v.z.as_str());
        push_str(out, "]");
        proof {
            assert(docs.take(i + 1) =~= docs.take(i as int).push(docs[i as int]));
            chars::lemma_join_with_push(docs.take(i as int), seq![','], docs[i as int]);
            assert(docs[i as int] == vertex_document(e.vertices@[i as int]));
            assert(out@ =~= head + chars::join_with(docs.take(i + 1), seq![',']));
        }
        i += 1;
    }
    assert(docs.take(i as int) =~= docs);
    push_str(out, "]}");
    assert(out@ =~= old(out)@ + entity_document(*e));
}

/// The document for a successful parse:
/// `{"ok":true,"entities":[...],"warnings":[...]}`, the entities as JSON
/// objects and the warnings as escaped strings, each in the given order.
pub fn success_json(entities: &[EntityJson], warnings: &[String]) -> (r: String)
    ensures
        r@ == success_document(entities@, warnings@),
{
    let mut out: Vec<char> = Vec::new();
    push_str(&mut out, "{\"ok\":true,\"entities\":[");
    let ghost head = out@;
    let ghost docs = entities@.map_values(|e: EntityJson| entity_document(e));
    let mut i: usize = 0;
    while i < entities.len()
        invariant
            i <= entities.len(),
            docs == entities@.map_values(|e: EntityJson| entity_document(e)),
            out@ == head + chars::join_with(docs.take(i as int), seq![',']),
        decreases entities.len() - i,
    {
        if i > 0 {
            out.push(',');
        }
        push_entity(&mut out, &entities[i]);
        proof {
            assert(docs.take(i + 1) =~= docs.take(i as int).push(docs[i as int]));
            chars::lemma_join_with_push(docs.take(i as int), seq![','], docs[i as int]);
            assert(out@ =~= head + chars::join_with(docs.take(i + 1), seq![',']));
        }
        i += 1;
    }
    assert(docs.take(i as int) =~= docs);
    push_str(&mut out, "],\"warnings\":[");
    let ghost mid = out@;
    let ghost wdocs = warnings@.map_values(|w: String| quoted(w));
    let mut k: usize = 0;
    while k < warnings.len()
        invariant
            k <= warnings.len(),
            wdocs == warnings@.map_values(|w: String| quoted(w)),
            out@ == mid + chars::join_with(wdocs.take(k as int), seq![',']),
        decreases warnings.len() - k,
    {
        if k > 0 {
            out.push(',');
        }
        push_str(&mut out, "\"");
        let v = chars_of(warnings[k].as_str());
        push_json_escaped(&mut out, &v);
        push_str(&mut out, "\"");
        proof {
            assert(wdocs.take(k + 1) =~= wdocs.take(k as int).push(wdocs[k as int]));
            chars::lemma_join_with_push(wdocs.take(k as int), seq![','], wdocs[k as int]);
            assert(out@ =~= mid + chars::join_with(wdocs.take(k + 1), seq![',']));
        }
        k += 1;
    }
    assert(wdocs.take(k as int) =~= wdocs);
    push_str(&mut out, "]}");
    assert(out@ =~= success_document(entities@, warnings@));
    chars::string_of(&out)
}

/// The value of a hexadecimal digit of either case.
pub open spec fn hex_value(c: char) -> Option<int> {
    if '0' <= c && c <= '9' {
        Some(c as int - 48)
    } else if 'a' <= c && c <= 'f' {
        Some(c as int - 87)
    } else if 'A' <= c && c <= 'F' {
        Some(c as int - 55)
    } else {
        None
    }
}

/// The character that a two-character JSON escape `\c` stands for.
pub open spec fn short_escape(c: char) -> Option<char> {
    if c == '"' {
        Some('"')
    } else if c == '\\' {
        Some('\\')
    } else if c == '/' {
        Some('/')
    } else if c == 'b' {
        Some('\u{8}')
    } else if c == 'f' {
        Some('\u{c}')
    } else if c == 'n' {
        Some('\n')
    } else if c == 'r' {
        Some('\r')
    } else if c == 't' {
        Some('\t')
    } else {
        None
    }
}

/// `c` in front of a decoded rest, if the rest decodes.
pub open spec fn prepend_char(c: char, rest: Option<Seq<char>>) -> Option<Seq<char>> {
    match rest {
        Some(r) => Some(seq![c] + r),
        None => None,
    }
}

/// The value of the four hex digits at `t[2..6]`, if they are hex digits.
pub open spec fn unicode_escape_value(t: Seq<char>) -> Option<int> {
    match (hex_value(t[2]), hex_value(t[3]), hex_value(t[4]), hex_value(t[5])) {
        (Some(a), Some(b), Some(c), Some(d)) => Some(4096 * a + 256 * b + 16 * c + d),
        _ => None,
    }
}

/// The characters that the body `t` of a JSON string literal stands for, as
/// RFC 8259 reads it (a `\u` escape of a lone surrogate is refused); `None`
/// when `t` is no valid body.
pub open spec fn json_unescape(t: Seq<char>) -> Option<Seq<char>>
    decreases t.len(),
{
    if t.len() == 0 {
        Some(seq![])
    } else if t[0] == '\\' {
        if t.len() >= 2 && short_escape(t[1]) is Some {
            prepend_char(short_escape(t[1])->0, json_unescape(t.skip(2)))
        } else if t.len() >= 6 && t[1] == 'u' && unicode_escape_value(t) is Some {
            let v = unicode_escape_value(t)->0;
            if v < 0xd800 || v > 0xdfff {
                prepend_char((v as u32) as char, json_unescape(t.skip(6)))
            } else {
                None
            }
        } else {
            None
        }
    } else if t[0] == '"' || (t[0] as u32) < 0x20 {
        None
    } else {
        prepend_char(t[0], json_unescape(t.skip(1)))
    }
}

pub(crate) proof fn lemma_hex_digit_value(d: int)
    requires
        0 <= d < 16,
    ensures
        hex_value(hex_digit(d)) == Some(d),
{
}

proof fn lemma_unescape_char(c: char, rest: Seq<char>)
    ensures
        json_unescape(escape_char(c) + rest) == prepend_char(c, json_unescape(rest)),
{
    let t = escape_char(c) + rest;
    let k = escape_char(c).len() as int;
    assert(t.skip(k) =~= rest);
    if is_control(c) && !(c == '\n' || c == '\r' || c == '\t') {
        let n = c as int;
        assert(n < 160);
        assert((n / 4096) % 16 == 0);
        assert((n / 256) % 16 == 0);
        assert((n / 16) % 16 == n / 16);
        lemma_hex_digit_value(0);
        lemma_hex_digit_value(n / 16);
        lemma_hex_digit_value(n % 16);
        assert(t[2] == hex_digit(0));
        assert(t[3] == hex_digit(0));
        assert(t[4] == hex_digit(n / 16));
        assert(t[5] == hex_digit(n % 16));
        assert(unicode_escape_value(t) == Some(16 * (n / 16) + n % 16));
        assert(16 * (n / 16) + n % 16 == n);
        assert(((n as u32) as char) == c);
    }
}

/// Escaping a text and reading the escaped form back as the body of a JSON
/// string literal gives the text again.
pub proof fn lemma_json_escape_round_trip(s: Seq<char>)
    ensures
        json_unescape(json_escaped(s)) == Some(s),
    decreases s.len(),
{
    if s.len() > 0 {
        lemma_json_escape_round_trip(s.skip(1));
        lemma_unescape_char(s[0], json_escaped(s.skip(1)));
        assert(seq![s[0]] + s.skip(1) =~= s);
    }
}

} // verus!
