//! Reading JSON text back: a model of JSON values, a reader for JSON text
//! (RFC 8259, with the white space it allows between tokens), and the proof
//! that the success document reads back as the entities and warnings it was
//! written from.
use vstd::prelude::*;
use crate::json::{
    EntityJson, VertexJson, escape_char, is_control, json_escaped, short_escape,
    unicode_escape_value, hex_digit,
};

verus! {

/// A JSON value; a number is kept as the text of its literal.
pub enum JsonValue {
    Null,
    Boolean(bool),
    Number(Seq<char>),
    Text(Seq<char>),
    Array(Seq<JsonValue>),
    Object(Seq<(Seq<char>, JsonValue)>),
}

/// The white space that JSON allows between tokens.
pub open spec fn is_json_space(c: char) -> bool {
    c == ' ' || c == '\t' || c == '\n' || c == '\r'
}

/// `t` without its leading JSON white space.
pub open spec fn skip_space(t: Seq<char>) -> Seq<char>
    decreases t.len(),
{
    if t.len() > 0 && is_json_space(t[0]) {
        skip_space(t.skip(1))
    } else {
        t
    }
}

/// The states of the reader of a number literal.
pub enum NumState {
    Start,
    Sign,
    Zero,
    Whole,
    Point,
    Fraction,
    Exponent,
    ExponentSign,
    ExponentDigits,
}

/// The state after reading `c` in state `st`, `None` where the number
/// grammar allows no `c`.
pub open spec fn number_step(st: NumState, c: char) -> Option<NumState> {
    let digit = '0' <= c && c <= '9';
    match st {
        NumState::Start => if c == '-' {
            Some(NumState::Sign)
        } else if c == '0' {
            Some(NumState::Zero)
        } else if digit {
            Some(NumState::Whole)
        } else {
            None
        },
        NumState::Sign => if c == '0' {
            Some(NumState::Zero)
        } else if digit {
            Some(NumState::Whole)
        } else {
            None
        },
        NumState::Zero => if c == '.' {
            Some(NumState::Point)
        } else if c == 'e' || c == 'E' {
            Some(NumState::Exponent)
        } else {
            None
        },
        NumState::Whole => if digit {
            Some(NumState::Whole)
        } else if c == '.' {
            Some(NumState::Point)
        } else if c == 'e' || c == 'E' {
            Some(NumState::Exponent)
        } else {
            None
        },
        NumState::Point => if digit {
            Some(NumState::Fraction)
        } else {
            None
        },
        NumState::Fraction => if digit {
            Some(NumState::Fraction)
        } else if c == 'e' || c == 'E' {
            Some(NumState::Exponent)
        } else {
            None
        },
        NumState::Exponent => if c == '+' || c == '-' {
            Some(NumState::ExponentSign)
        } else if digit {
            Some(NumState::ExponentDigits)
        } else {
            None
        },
        NumState::ExponentSign => if digit {
            Some(NumState::ExponentDigits)
        } else {
            None
        },
        NumState::ExponentDigits => if digit {
            Some(NumState::ExponentDigits)
        } else {
            None
        },
    }
}

/// The state after reading all of `s` from state `st`.
pub open spec fn number_run(st: NumState, s: Seq<char>) -> Option<NumState>
    decreases s.len(),
{
    if s.len() == 0 {
        Some(st)
    } else {
        match number_step(st, s[0]) {
            Some(next) => number_run(next, s.skip(1)),
            None => None,
        }
    }
}

/// Whether `s` is a JSON number literal: an optional minus, an integer part
/// without leading zeros, an optional fraction and an optional exponent.
pub open spec fn is_json_number(s: Seq<char>) -> bool {
    match number_run(NumState::Start, s) {
        Some(st) => st is Zero || st is Whole || st is Fraction || st is ExponentDigits,
        None => false,
    }
}

/// The characters that can occur in a number literal.
pub open spec fn is_number_char(c: char) -> bool {
    ('0' <= c && c <= '9') || c == '-' || c == '+' || c == '.' || c == 'e' || c == 'E'
}

/// The length of the run of number characters that starts `t`.
pub open spec fn number_len(t: Seq<char>) -> nat
    decreases t.len(),
{
    if t.len() > 0 && is_number_char(t[0]) {
        1 + number_len(t.skip(1))
    } else {
        0
    }
}

/// The number literal that starts `t`, and the text after it: the run of
/// number characters there must be one literal (in a JSON text no number
/// character can follow a number).
pub open spec fn read_number(t: Seq<char>) -> Option<(JsonValue, Seq<char>)> {
    let k = number_len(t) as int;
    if is_json_number(t.take(k)) {
        Some((JsonValue::Number(t.take(k)), t.skip(k)))
    } else {
        None
    }
}

/// `c` in front of the characters of a read string body.
pub open spec fn prepend_body(c: char, r: Option<(Seq<char>, Seq<char>)>) -> Option<(Seq<char>, Seq<char>)> {
    match r {
        Some((s, rest)) => Some((seq![c] + s, rest)),
        None => None,
    }
}

/// The characters of the string literal whose body starts `t`, up to its
/// closing quote, and the text after that quote (a `\u` escape of a lone
/// surrogate is refused).
pub open spec fn string_body(t: Seq<char>) -> Option<(Seq<char>, Seq<char>)>
    decreases t.len(),
{
    if t.len() == 0 {
        None
    } else if t[0] == '"' {
        Some((seq![], t.skip(1)))
    } else if t[0] == '\\' {
        if t.len() >= 2 && short_escape(t[1]) is Some {
            prepend_body(short_escape(t[1])->0, string_body(t.skip(2)))
        } else if t.len() >= 6 && t[1] == 'u' && unicode_escape_value(t) is Some {
            let v = unicode_escape_value(t)->0;
            if v < 0xd800 || v > 0xdfff {
                prepend_body((v as u32) as char, string_body(t.skip(6)))
            } else {
                None
            }
        } else {
            None
        }
    } else if (t[0] as u32) < 0x20 {
        None
    } else {
        prepend_body(t[0], string_body(t.skip(1)))
    }
}

/// The JSON value that starts `t` (after white space), and the text after it.
pub open spec fn read_value(t: Seq<char>) -> Option<(JsonValue, Seq<char>)>
    decreases t.len(), 0nat,
{
    if t.len() == 0 {
        None
    } else if is_json_space(t[0]) {
        read_value(t.skip(1))
    } else if t[0] == '"' {
        match string_body(t.skip(1)) {
            Some((s, r)) => Some((JsonValue::Text(s), r)),
            None => None,
        }
    } else if t[0] == '[' {
        match read_elements(t.skip(1)) {
            Some((vs, r)) => Some((JsonValue::Array(vs), r)),
            None => None,
        }
    } else if t[0] == '{' {
        match read_members(t.skip(1)) {
            Some((ms, r)) => Some((JsonValue::Object(ms), r)),
            None => None,
        }
    } else if t[0] == '-' || ('0' <= t[0] && t[0] <= '9') {
        read_number(t)
    } else if t.len() >= 4 && t.take(4) == "null"@ {
        Some((JsonValue::Null, t.skip(4)))
    } else if t.len() >= 4 && t.take(4) == "true"@ {
        Some((JsonValue::Boolean(true), t.skip(4)))
    } else if t.len() >= 5 && t.take(5) == "false"@ {
        Some((JsonValue::Boolean(false), t.skip(5)))
    } else {
        None
    }
}

/// The elements of an array whose opening bracket came just before `t`,
/// and the text after its closing bracket.
pub open spec fn read_elements(t: Seq<char>) -> Option<(Seq<JsonValue>, Seq<char>)>
    decreases t.len(), 2nat,
{
    let u = skip_space(t);
    if u.len() > 0 && u[0] == ']' {
        Some((seq![], u.skip(1)))
    } else {
        read_items(t)
    }
}

/// One or more array elements separated by commas, up to and past the
/// closing bracket. (A value always takes at least one character, so the
/// comparison of lengths only keeps the recursion visibly well-founded.)
pub open spec fn read_items(t: Seq<char>) -> Option<(Seq<JsonValue>, Seq<char>)>
    decreases t.len(), 1nat,
{
    match read_value(t) {
        Some((v, r)) => {
            let u = skip_space(r);
            if u.len() > 0 && u[0] == ']' {
                Some((seq![v], u.skip(1)))
            } else if u.len() > 0 && u[0] == ',' && u.len() <= t.len() {
                match read_items(u.skip(1)) {
                    Some((vs, r2)) => Some((seq![v] + vs, r2)),
                    None => None,
                }
            } else {
                None
            }
        },
        None => None,
    }
}

/// The members of an object whose opening brace came just before `t`, and
/// the text after its closing brace.
pub open spec fn read_members(t: Seq<char>) -> Option<(Seq<(Seq<char>, JsonValue)>, Seq<char>)>
    decreases t.len(), 2nat,
{
    let u = skip_space(t);
    if u.len() > 0 && u[0] == '}' {
        Some((seq![], u.skip(1)))
    } else {
        read_fields(t)
    }
}

/// One or more `"key":value` members separated by commas, up to and past
/// the closing brace.
pub open spec fn read_fields(t: Seq<char>) -> Option<(Seq<(Seq<char>, JsonValue)>, Seq<char>)>
    decreases t.len(), 1nat,
{
    let u = skip_space(t);
    if u.len() > 0 && u[0] == '"' {
        match string_body(u.skip(1)) {
            Some((k, r)) => {
                let w = skip_space(r);
                if w.len() > 0 && w[0] == ':' && w.len() <= t.len() {
                    match read_value(w.skip(1)) {
                        Some((v, r2)) => {
                            let x = skip_space(r2);
                            if x.len() > 0 && x[0] == '}' {
                                Some((seq![(k, v)], x.skip(1)))
                            } else if x.len() > 0 && x[0] == ',' && x.len() <= t.len() {
                                match read_fields(x.skip(1)) {
                                    Some((ms, r3)) => Some((seq![(k, v)] + ms, r3)),
                                    None => None,
                                }
                            } else {
                                None
                            }
                        },
                        None => None,
                    }
                } else {
                    None
                }
            },
            None => None,
        }
    } else {
        None
    }
}

/// The value of a JSON text: one value with nothing but white space
/// around it; `None` when `t` is no JSON text.
pub open spec fn json_document(t: Seq<char>) -> Option<JsonValue> {
    match read_value(t) {
        Some((v, r)) => if skip_space(r).len() == 0 {
            Some(v)
        } else {
            None
        },
        None => None,
    }
}

/// Whether no character of `s` needs an escape inside a string literal.
pub open spec fn plain_text(s: Seq<char>) -> bool {
    forall|i: int| 0 <= i < s.len() ==> #[trigger] s[i] != '"' && s[i] != '\\' && (s[i] as u32) >= 0x20
}

/// Whether `r` starts with what may follow a value inside an array or an object.
spec fn closes_value(r: Seq<char>) -> bool {
    r.len() > 0 && (r[0] == ',' || r[0] == ']' || r[0] == '}')
}

/// `d` is the text of the value `v`, whatever closing text follows it.
spec fn reads_as(d: Seq<char>, v: JsonValue) -> bool {
    &&& d.len() > 0 && d[0] != ']' && d[0] != '}' && !is_json_space(d[0])
    &&& forall|r: Seq<char>| closes_value(r) ==> #[trigger] read_value(d + r) == Some((v, r))
}

proof fn lemma_skip_space_none(t: Seq<char>)
    requires
        t.len() == 0 || !is_json_space(t[0]),
    ensures
        skip_space(t) == t,
{
}

proof fn lemma_body_char(c: char, rest: Seq<char>)
    ensures
        string_body(escape_char(c) + rest) == prepend_body(c, string_body(rest)),
{
    let t = escape_char(c) + rest;
    let k = escape_char(c).len() as int;
    assert(t.skip(k) =~= rest);
    if is_control(c) && !(c == '\n' || c == '\r' || c == '\t') {
        let n = c as int;
        assert(n < 160);
        assert((n / 4096) % 16 == 0);
        assert((n / 256) % 16 == 0);
        assert((n / 16) % 16 == n / 16);
        crate::json::lemma_hex_digit_value(0);
        crate::json::lemma_hex_digit_value(n / 16);
        crate::json::lemma_hex_digit_value(n % 16);
        assert(t[2] == hex_digit(0));
        assert(t[3] == hex_digit(0));
        assert(t[4] == hex_digit(n / 16));
        assert(t[5] == hex_digit(n % 16));
        assert(unicode_escape_value(t) == Some(16 * (n / 16) + n % 16));
        assert(16 * (n / 16) + n % 16 == n);
        assert(((n as u32) as char) == c);
    }
}

/// An escaped text followed by a quote reads back as the text.
proof fn lemma_escaped_body(s: Seq<char>, rest: Seq<char>)
    ensures
        string_body(json_escaped(s) + (seq!['"'] + rest)) == Some((s, rest)),
    decreases s.len(),
{
    let q = seq!['"'] + rest;
    if s.len() == 0 {
        assert(json_escaped(s) + q =~= q);
        assert(q.skip(1) =~= rest);
    } else {
        lemma_escaped_body(s.skip(1), rest);
        lemma_body_char(s[0], json_escaped(s.skip(1)) + q);
        assert(json_escaped(s) + q =~= escape_char(s[0]) + (json_escaped(s.skip(1)) + q));
        assert(seq![s[0]] + s.skip(1) =~= s);
    }
}

/// A plain text followed by a quote reads back as itself.
proof fn lemma_plain_body(s: Seq<char>, rest: Seq<char>)
    requires
        plain_text(s),
    ensures
        string_body(s + (seq!['"'] + rest)) == Some((s, rest)),
    decreases s.len(),
{
    let q = seq!['"'] + rest;
    if s.len() == 0 {
        assert(s + q =~= q);
        assert(q.skip(1) =~= rest);
    } else {
        let t = s + q;
        assert(s[0] != '"' && s[0] != '\\' && (s[0] as u32) >= 0x20);
        assert(plain_text(s.skip(1))) by {
            assert forall|i: int| 0 <= i < s.skip(1).len() implies #[trigger] s.skip(1)[i] != '"'
                && s.skip(1)[i] != '\\' && (s.skip(1)[i] as u32) >= 0x20 by {
                assert(s.skip(1)[i] == s[i + 1]);
            }
        }
        lemma_plain_body(s.skip(1), rest);
        assert(t.skip(1) =~= s.skip(1) + q);
        assert(seq![s[0]] + s.skip(1) =~= s);
    }
}

/// A quoted escaped text reads as that text.
proof fn lemma_escaped_reads(s: Seq<char>)
    ensures
        reads_as(seq!['"'] + json_escaped(s) + seq!['"'], JsonValue::Text(s)),
{
    let d = seq!['"'] + json_escaped(s) + seq!['"'];
    assert forall|r: Seq<char>| closes_value(r) implies #[trigger] read_value(d + r) == Some((JsonValue::Text(s), r)) by {
        let t = d + r;
        assert(t.skip(1) =~= json_escaped(s) + (seq!['"'] + r));
        lemma_escaped_body(s, r);
    }
}

/// A quoted plain text reads as that text.
proof fn lemma_plain_reads(s: Seq<char>)
    requires
        plain_text(s),
    ensures
        reads_as(seq!['"'] + s + seq!['"'], JsonValue::Text(s)),
{
    let d = seq!['"'] + s + seq!['"'];
    assert forall|r: Seq<char>| closes_value(r) implies #[trigger] read_value(d + r) == Some((JsonValue::Text(s), r)) by {
        let t = d + r;
        assert(t.skip(1) =~= s + (seq!['"'] + r));
        lemma_plain_body(s, r);
    }
}

proof fn lemma_number_run_chars(st: NumState, n: Seq<char>)
    requires
        number_run(st, n) is Some,
    ensures
        forall|i: int| 0 <= i < n.len() ==> is_number_char(#[trigger] n[i]),
    decreases n.len(),
{
    if n.len() > 0 {
        let next = number_step(st, n[0])->0;
        lemma_number_run_chars(next, n.skip(1));
        assert forall|i: int| 0 <= i < n.len() implies is_number_char(#[trigger] n[i]) by {
            if i > 0 {
                assert(n[i] == n.skip(1)[i - 1]);
            }
        }
    }
}

proof fn lemma_number_len(n: Seq<char>, rest: Seq<char>)
    requires
        forall|i: int| 0 <= i < n.len() ==> is_number_char(#[trigger] n[i]),
        rest.len() == 0 || !is_number_char(rest[0]),
    ensures
        number_len(n + rest) == n.len(),
    decreases n.len(),
{
    if n.len() == 0 {
        assert(n + rest =~= rest);
    } else {
        assert forall|i: int| 0 <= i < n.skip(1).len() implies is_number_char(#[trigger] n.skip(1)[i]) by {
            assert(n.skip(1)[i] == n[i + 1]);
        }
        lemma_number_len(n.skip(1), rest);
        assert((n + rest).skip(1) =~= n.skip(1) + rest);
        assert((n + rest)[0] == n[0]);
    }
}

/// A number literal reads as that number.
proof fn lemma_number_reads(n: Seq<char>)
    requires
        is_json_number(n),
    ensures
        reads_as(n, JsonValue::Number(n)),
{
    assert(n.len() > 0);
    assert(number_step(NumState::Start, n[0]) is Some);
    lemma_number_run_chars(NumState::Start, n);
    assert forall|r: Seq<char>| closes_value(r) implies #[trigger] read_value(n + r) == Some((JsonValue::Number(n), r)) by {
        let t = n + r;
        assert(t[0] == n[0]);
        lemma_number_len(n, r);
        assert(t.take(n.len() as int) =~= n);
        assert(t.skip(n.len() as int) =~= r);
    }
}

/// `null` reads as null.
proof fn lemma_null_reads()
    ensures
        reads_as("null"@, JsonValue::Null),
{
    reveal_strlit("null");
    assert forall|r: Seq<char>| closes_value(r) implies #[trigger] read_value("null"@ + r) == Some((JsonValue::Null, r)) by {
        let t = "null"@ + r;
        assert(t.take(4) =~= "null"@);
        assert(t.skip(4) =~= r);
    }
}

proof fn lemma_item_step(d: Seq<char>, v: JsonValue, rest: Seq<char>)
    requires
        reads_as(d, v),
        closes_value(rest),
    ensures
        read_items(d + rest) == if rest[0] == ']' {
            Some((seq![v], rest.skip(1)))
        } else if rest[0] == ',' {
            match read_items(rest.skip(1)) {
                Some((vs, r2)) => Some((seq![v] + vs, r2)),
                None => None,
            }
        } else {
            None
        },
{
    assert(read_value(d + rest) == Some((v, rest)));
    lemma_skip_space_none(rest);
}

/// The first text and the rest of a joined list of texts.
proof fn lemma_join_front(cs: Seq<Seq<char>>, sep: Seq<char>)
    requires
        cs.len() >= 2,
    ensures
        crate::chars::join_with(cs, sep) == cs[0] + sep + crate::chars::join_with(cs.drop_first(), sep),
    decreases cs.len(),
{
    let j = crate::chars::join_with(cs, sep);
    assert(j == crate::chars::join_with(cs.drop_last(), sep) + sep + cs.last());
    if cs.len() == 2 {
        assert(crate::chars::join_with(cs.drop_last(), sep) == cs.drop_last()[0]);
        assert(crate::chars::join_with(cs.drop_first(), sep) == cs.drop_first()[0]);
    } else {
        lemma_join_front(cs.drop_last(), sep);
        assert(cs.drop_first().drop_last() =~= cs.drop_last().drop_first());
        assert(crate::chars::join_with(cs.drop_first(), sep) == crate::chars::join_with(
            cs.drop_first().drop_last(),
            sep,
        ) + sep + cs.drop_first().last());
        assert(j =~= cs[0] + sep + crate::chars::join_with(cs.drop_first(), sep));
    }
}

/// The texts of one or more values, joined by commas and followed by a
/// closing bracket, read as those values.
proof fn lemma_items(docs: Seq<Seq<char>>, vals: Seq<JsonValue>, rest: Seq<char>)
    requires
        docs.len() == vals.len() >= 1,
        forall|i: int| 0 <= i < docs.len() ==> reads_as(#[trigger] docs[i], vals[i]),
    ensures
        read_items(crate::chars::join_with(docs, seq![',']) + (seq![']'] + rest)) == Some((vals, rest)),
    decreases docs.len(),
{
    let close = seq![']'] + rest;
    assert(reads_as(docs[0], vals[0]));
    if docs.len() == 1 {
        assert(close.skip(1) =~= rest);
        lemma_item_step(docs[0], vals[0], close);
        assert(vals =~= seq![vals[0]]);
    } else {
        lemma_join_front(docs, seq![',']);
        let tail = crate::chars::join_with(docs.drop_first(), seq![',']);
        let after = seq![','] + (tail + close);
        assert(crate::chars::join_with(docs, seq![',']) + close =~= docs[0] + after);
        assert(after.skip(1) =~= tail + close);
        assert forall|i: int| 0 <= i < docs.drop_first().len() implies reads_as(
            #[trigger] docs.drop_first()[i],
            vals.drop_first()[i],
        ) by {
            assert(reads_as(docs[i + 1], vals[i + 1]));
        }
        lemma_items(docs.drop_first(), vals.drop_first(), rest);
        lemma_item_step(docs[0], vals[0], after);
        assert(seq![vals[0]] + vals.drop_first() =~= vals);
    }
}

/// A bracketed list of value texts joined by commas reads as the array of
/// those values.
proof fn lemma_array_reads(docs: Seq<Seq<char>>, vals: Seq<JsonValue>)
    requires
        docs.len() == vals.len(),
        forall|i: int| 0 <= i < docs.len() ==> reads_as(#[trigger] docs[i], vals[i]),
    ensures
        reads_as(seq!['['] + crate::chars::join_with(docs, seq![',']) + seq![']'], JsonValue::Array(vals)),
{
    let j = crate::chars::join_with(docs, seq![',']);
    let d = seq!['['] + j + seq![']'];
    assert forall|r: Seq<char>| closes_value(r) implies #[trigger] read_value(d + r) == Some((JsonValue::Array(vals), r)) by {
        let t = d + r;
        let inner = j + (seq![']'] + r);
        assert(t.skip(1) =~= inner);
        if docs.len() == 0 {
            assert(j =~= Seq::<char>::empty());
            assert(inner =~= seq![']'] + r);
            assert(inner.skip(1) =~= r);
            lemma_skip_space_none(inner);
            assert(vals =~= Seq::<JsonValue>::empty());
        } else {
            assert(reads_as(docs[0], vals[0]));
            if docs.len() >= 2 {
                lemma_join_front(docs, seq![',']);
            }
            assert(j[0] == docs[0][0]);
            assert(inner[0] == docs[0][0]);
            lemma_skip_space_none(inner);
            lemma_items(docs, vals, r);
            assert(read_elements(inner) == read_items(inner));
            assert(read_elements(inner) == Some((vals, r)));
        }
        assert(t[0] == '[');
        assert(read_value(t) == Some((JsonValue::Array(vals), r)));
    }
}

/// The text of an object member: the quoted key, a colon and the value's text.
pub open spec fn member_text(k: Seq<char>, d: Seq<char>) -> Seq<char> {
    seq!['"'] + k + seq!['"', ':'] + d
}

proof fn lemma_field_step(k: Seq<char>, d: Seq<char>, v: JsonValue, rest: Seq<char>)
    requires
        plain_text(k),
        reads_as(d, v),
        closes_value(rest),
    ensures
        read_fields(member_text(k, d) + rest) == if rest[0] == '}' {
            Some((seq![(k, v)], rest.skip(1)))
        } else if rest[0] == ',' {
            match read_fields(rest.skip(1)) {
                Some((ms, r2)) => Some((seq![(k, v)] + ms, r2)),
                None => None,
            }
        } else {
            None
        },
{
    let t = member_text(k, d) + rest;
    lemma_skip_space_none(t);
    let after_key = seq![':'] + (d + rest);
    assert(t.skip(1) =~= k + (seq!['"'] + after_key));
    lemma_plain_body(k, after_key);
    lemma_skip_space_none(after_key);
    assert(after_key.skip(1) =~= d + rest);
    assert(read_value(d + rest) == Some((v, rest)));
    lemma_skip_space_none(rest);
}

/// `true` reads as true.
proof fn lemma_true_reads()
    ensures
        reads_as("true"@, JsonValue::Boolean(true)),
{
    reveal_strlit("true");
    reveal_strlit("null");
    assert forall|r: Seq<char>| closes_value(r) implies #[trigger] read_value("true"@ + r) == Some((JsonValue::Boolean(true), r)) by {
        let t = "true"@ + r;
        assert(t.take(4) =~= "true"@);
        assert(t.take(4) != "null"@) by {
            assert(t.take(4)[0] != "null"@[0]);
        }
        assert(t.skip(4) =~= r);
    }
}

/// A text as a JSON string, or null.
pub open spec fn text_or_null(o: Option<String>) -> JsonValue {
    match o {
        Some(s) => JsonValue::Text(s@),
        None => JsonValue::Null,
    }
}

/// A vertex as the array of its three coordinates.
pub open spec fn vertex_value(v: VertexJson) -> JsonValue {
    JsonValue::Array(seq![JsonValue::Number(v.x@), JsonValue::Number(v.y@), JsonValue::Number(v.z@)])
}

/// An entity as the object of its kind, layer, text, text height and vertices.
pub open spec fn entity_value(e: EntityJson) -> JsonValue {
    JsonValue::Object(
        seq![
            ("kind"@, JsonValue::Text(e.kind@)),
            ("layer"@, text_or_null(e.layer)),
            ("text"@, text_or_null(e.text)),
            ("textHeight"@, match e.text_height {
                Some(h) => JsonValue::Number(h@),
                None => JsonValue::Null,
            }),
            ("vertices"@, JsonValue::Array(e.vertices@.map_values(|v: VertexJson| vertex_value(v)))),
        ],
    )
}

/// The value of a success report: `ok` is true, then the entities and the
/// warnings in their order.
pub open spec fn success_value(entities: Seq<EntityJson>, warnings: Seq<String>) -> JsonValue {
    JsonValue::Object(
        seq![
            ("ok"@, JsonValue::Boolean(true)),
            ("entities"@, JsonValue::Array(entities.map_values(|e: EntityJson| entity_value(e)))),
            ("warnings"@, JsonValue::Array(warnings.map_values(|w: String| JsonValue::Text(w@)))),
        ],
    )
}

/// Whether the coordinates of `v` are written as JSON number literals.
pub open spec fn vertex_writable(v: VertexJson) -> bool {
    is_json_number(v.x@) && is_json_number(v.y@) && is_json_number(v.z@)
}

/// Whether `e` can be written as it stands: its kind needs no escape, and
/// its text height and coordinates are written as JSON number literals.
pub open spec fn entity_writable(e: EntityJson) -> bool {
    &&& plain_text(e.kind@)
    &&& match e.text_height {
        Some(h) => is_json_number(h@),
        None => true,
    }
    &&& forall|i: int| 0 <= i < e.vertices@.len() ==> vertex_writable(#[trigger] e.vertices@[i])
}

proof fn lemma_vertex_reads(v: VertexJson)
    requires
        vertex_writable(v),
    ensures
        reads_as(crate::json::vertex_document(v), vertex_value(v)),
{
    reveal_strlit("[");
    reveal_strlit(",");
    reveal_strlit("]");
    let docs = seq![v.x@, v.y@, v.z@];
    let vals = seq![JsonValue::Number(v.x@), JsonValue::Number(v.y@), JsonValue::Number(v.z@)];
    lemma_number_reads(v.x@);
    lemma_number_reads(v.y@);
    lemma_number_reads(v.z@);
    assert(docs.drop_last() =~= seq![v.x@, v.y@]);
    assert(docs.drop_last().drop_last() =~= seq![v.x@]);
    let j = crate::chars::join_with(docs, seq![',']);
    assert(crate::chars::join_with(docs.drop_last(), seq![',']) == crate::chars::join_with(
        docs.drop_last().drop_last(),
        seq![','],
    ) + seq![','] + v.y@);
    assert(j =~= v.x@ + seq![','] + v.y@ + seq![','] + v.z@);
    assert(crate::json::vertex_document(v) =~= seq!['['] + j + seq![']']);
    lemma_array_reads(docs, vals);
}

proof fn lemma_string_or_null_reads(o: Option<String>)
    ensures
        reads_as(crate::json::string_or_null(o), text_or_null(o)),
{
    reveal_strlit("\"");
    match o {
        Some(s) => {
            assert(crate::json::string_or_null(o) =~= seq!['"'] + json_escaped(s@) + seq!['"']);
            lemma_escaped_reads(s@);
        },
        None => {
            lemma_null_reads();
        },
    }
}

/// The members `i..` of an object, from the texts of their keys and values,
/// with the closing brace and then `r` after them.
spec fn fields_from(ks: Seq<Seq<char>>, ds: Seq<Seq<char>>, i: int, r: Seq<char>) -> Seq<char>
    decreases ks.len() - i,
{
    if i < 0 || i + 1 >= ks.len() {
        member_text(ks[i], ds[i]) + (seq!['}'] + r)
    } else {
        member_text(ks[i], ds[i]) + (seq![','] + fields_from(ks, ds, i + 1, r))
    }
}

/// The members `i..` of an object, from their keys and values.
spec fn pairs_from(ks: Seq<Seq<char>>, vs: Seq<JsonValue>, i: int) -> Seq<(Seq<char>, JsonValue)> {
    Seq::new((ks.len() - i) as nat, |j: int| (ks[i + j], vs[i + j]))
}

proof fn lemma_fields_from(ks: Seq<Seq<char>>, ds: Seq<Seq<char>>, vs: Seq<JsonValue>, i: int, r: Seq<char>)
    requires
        0 <= i < ks.len(),
        ks.len() == ds.len() == vs.len(),
        forall|j: int| 0 <= j < ks.len() ==> plain_text(#[trigger] ks[j]) && reads_as(ds[j], vs[j]),
    ensures
        read_fields(fields_from(ks, ds, i, r)) == Some((pairs_from(ks, vs, i), r)),
    decreases ks.len() - i,
{
    assert(plain_text(ks[i]) && reads_as(ds[i], vs[i]));
    if i + 1 >= ks.len() {
        let rest = seq!['}'] + r;
        assert(rest.skip(1) =~= r);
        lemma_field_step(ks[i], ds[i], vs[i], rest);
        assert(pairs_from(ks, vs, i) =~= seq![(ks[i], vs[i])]);
    } else {
        let rest = seq![','] + fields_from(ks, ds, i + 1, r);
        assert(rest.skip(1) =~= fields_from(ks, ds, i + 1, r));
        lemma_fields_from(ks, ds, vs, i + 1, r);
        lemma_field_step(ks[i], ds[i], vs[i], rest);
        assert(seq![(ks[i], vs[i])] + pairs_from(ks, vs, i + 1) =~= pairs_from(ks, vs, i));
    }
}

proof fn lemma_fields_from_append(ks: Seq<Seq<char>>, ds: Seq<Seq<char>>, i: int, r: Seq<char>)
    ensures
        fields_from(ks, ds, i, r) == fields_from(ks, ds, i, seq![]) + r,
    decreases ks.len() - i,
{
    if i < 0 || i + 1 >= ks.len() {
        assert(member_text(ks[i], ds[i]) + (seq!['}'] + r) =~= member_text(ks[i], ds[i]) + (seq!['}']
            + Seq::<char>::empty()) + r);
    } else {
        lemma_fields_from_append(ks, ds, i + 1, r);
        assert(member_text(ks[i], ds[i]) + (seq![','] + fields_from(ks, ds, i + 1, r)) =~= member_text(
            ks[i],
            ds[i],
        ) + (seq![','] + fields_from(ks, ds, i + 1, seq![])) + r);
    }
}

/// An object from the texts of its keys and values.
spec fn object_text(ks: Seq<Seq<char>>, ds: Seq<Seq<char>>) -> Seq<char> {
    seq!['{'] + fields_from(ks, ds, 0, seq![])
}

proof fn lemma_object_value(ks: Seq<Seq<char>>, ds: Seq<Seq<char>>, vs: Seq<JsonValue>, r: Seq<char>)
    requires
        ks.len() >= 1,
        ks.len() == ds.len() == vs.len(),
        forall|j: int| 0 <= j < ks.len() ==> plain_text(#[trigger] ks[j]) && reads_as(ds[j], vs[j]),
    ensures
        read_value(object_text(ks, ds) + r) == Some((JsonValue::Object(pairs_from(ks, vs, 0)), r)),
{
    let t = object_text(ks, ds) + r;
    lemma_fields_from_append(ks, ds, 0, r);
    let f = fields_from(ks, ds, 0, r);
    assert(t.skip(1) =~= f);
    assert(f[0] == '"');
    lemma_skip_space_none(f);
    lemma_fields_from(ks, ds, vs, 0, r);
    assert(read_members(f) == read_fields(f));
    assert(t[0] == '{');
    assert(t.len() > 0 && !is_json_space(t[0]));
}

proof fn lemma_object_reads(ks: Seq<Seq<char>>, ds: Seq<Seq<char>>, vs: Seq<JsonValue>)
    requires
        ks.len() >= 1,
        ks.len() == ds.len() == vs.len(),
        forall|j: int| 0 <= j < ks.len() ==> plain_text(#[trigger] ks[j]) && reads_as(ds[j], vs[j]),
    ensures
        reads_as(object_text(ks, ds), JsonValue::Object(pairs_from(ks, vs, 0))),
{
    let doc = object_text(ks, ds);
    assert forall|r: Seq<char>| closes_value(r) implies #[trigger] read_value(doc + r) == Some((JsonValue::Object(pairs_from(ks, vs, 0)), r)) by {
        lemma_object_value(ks, ds, vs, r);
    }
}

/// An object of five members, from the texts of its keys and values.
spec fn object5_text(ks: Seq<Seq<char>>, ds: Seq<Seq<char>>) -> Seq<char> {
    seq!['{'] + member_text(ks[0], ds[0]) + seq![','] + member_text(ks[1], ds[1]) + seq![',']
        + member_text(ks[2], ds[2]) + seq![','] + member_text(ks[3], ds[3]) + seq![',']
        + member_text(ks[4], ds[4]) + seq!['}']
}

proof fn lemma_object5_text(ks: Seq<Seq<char>>, ds: Seq<Seq<char>>)
    requires
        ks.len() == 5 && ds.len() == 5,
    ensures
        object5_text(ks, ds) == object_text(ks, ds),
{
    let e = Seq::<char>::empty();
    assert(fields_from(ks, ds, 4, e) == member_text(ks[4], ds[4]) + (seq!['}'] + e));
    assert(fields_from(ks, ds, 3, e) == member_text(ks[3], ds[3]) + (seq![','] + fields_from(ks, ds, 4, e)));
    assert(fields_from(ks, ds, 2, e) == member_text(ks[2], ds[2]) + (seq![','] + fields_from(ks, ds, 3, e)));
    assert(fields_from(ks, ds, 1, e) == member_text(ks[1], ds[1]) + (seq![','] + fields_from(ks, ds, 2, e)));
    assert(fields_from(ks, ds, 0, e) == member_text(ks[0], ds[0]) + (seq![','] + fields_from(ks, ds, 1, e)));
    assert(object5_text(ks, ds) =~= object_text(ks, ds));
}

#[verifier::rlimit(40)]
proof fn lemma_entity_text(e: EntityJson)
    ensures
        crate::json::entity_document(e) == object5_text(
            seq!["kind"@, "layer"@, "text"@, "textHeight"@, "vertices"@],
            seq![
                seq!['"'] + e.kind@ + seq!['"'],
                crate::json::string_or_null(e.layer),
                crate::json::string_or_null(e.text),
                match e.text_height {
                    Some(h) => h@,
                    None => "null"@,
                },
                seq!['['] + crate::chars::join_with(
                    e.vertices@.map_values(|v: VertexJson| crate::json::vertex_document(v)),
                    seq![','],
                ) + seq![']'],
            ],
        ),
{
    reveal_strlit("{\"kind\":\"");
    reveal_strlit("\",");
    reveal_strlit("\"layer\":");
    reveal_strlit(",");
    reveal_strlit("\"text\":");
    reveal_strlit("\"textHeight\":");
    reveal_strlit("\"vertices\":[");
    reveal_strlit("]}");
    reveal_strlit("kind");
    reveal_strlit("layer");
    reveal_strlit("text");
    reveal_strlit("textHeight");
    reveal_strlit("vertices");
    assert("{\"kind\":\""@ =~= seq!['{'] + seq!['"'] + "kind"@ + seq!['"', ':'] + seq!['"']);
    assert("\","@ =~= seq!['"'] + seq![',']);
    assert("\"layer\":"@ =~= seq!['"'] + "layer"@ + seq!['"', ':']);
    assert(","@ =~= seq![',']);
    assert("\"text\":"@ =~= seq!['"'] + "text"@ + seq!['"', ':']);
    assert("\"textHeight\":"@ =~= seq!['"'] + "textHeight"@ + seq!['"', ':']);
    assert("\"vertices\":["@ =~= seq!['"'] + "vertices"@ + seq!['"', ':'] + seq!['[']);
    assert("]}"@ =~= seq![']'] + seq!['}']);
    let ks = seq!["kind"@, "layer"@, "text"@, "textHeight"@, "vertices"@];
    let ds = seq![
        seq!['"'] + e.kind@ + seq!['"'],
        crate::json::string_or_null(e.layer),
        crate::json::string_or_null(e.text),
        match e.text_height {
            Some(h) => h@,
            None => "null"@,
        },
        seq!['['] + crate::chars::join_with(
            e.vertices@.map_values(|v: VertexJson| crate::json::vertex_document(v)),
            seq![','],
        ) + seq![']'],
    ];
    assert(crate::json::entity_document(e) =~= object5_text(ks, ds));
}

proof fn lemma_entity_reads(e: EntityJson)
    requires
        entity_writable(e),
    ensures
        reads_as(crate::json::entity_document(e), entity_value(e)),
{
    reveal_strlit("kind");
    reveal_strlit("layer");
    reveal_strlit("text");
    reveal_strlit("textHeight");
    reveal_strlit("vertices");
    let ks = seq!["kind"@, "layer"@, "text"@, "textHeight"@, "vertices"@];
    let vdocs = e.vertices@.map_values(|v: VertexJson| crate::json::vertex_document(v));
    let vvals = e.vertices@.map_values(|v: VertexJson| vertex_value(v));
    let ds = seq![
        seq!['"'] + e.kind@ + seq!['"'],
        crate::json::string_or_null(e.layer),
        crate::json::string_or_null(e.text),
        match e.text_height {
            Some(h) => h@,
            None => "null"@,
        },
        seq!['['] + crate::chars::join_with(vdocs, seq![',']) + seq![']'],
    ];
    let vs = seq![
        JsonValue::Text(e.kind@),
        text_or_null(e.layer),
        text_or_null(e.text),
        match e.text_height {
            Some(h) => JsonValue::Number(h@),
            None => JsonValue::Null,
        },
        JsonValue::Array(vvals),
    ];
    lemma_plain_reads(e.kind@);
    lemma_string_or_null_reads(e.layer);
    lemma_string_or_null_reads(e.text);
    match e.text_height {
        Some(h) => lemma_number_reads(h@),
        None => lemma_null_reads(),
    }
    assert forall|i: int| 0 <= i < vdocs.len() implies reads_as(#[trigger] vdocs[i], vvals[i]) by {
        lemma_vertex_reads(e.vertices@[i]);
    }
    lemma_array_reads(vdocs, vvals);
    assert forall|i: int| 0 <= i < 5 implies plain_text(#[trigger] ks[i]) && reads_as(ds[i], vs[i]) by {
        assert(plain_text(ks[i]));
    }
    lemma_object_reads(ks, ds, vs);
    lemma_entity_text(e);
    lemma_object5_text(ks, ds);
    assert(pairs_from(ks, vs, 0) =~= seq![
        ("kind"@, JsonValue::Text(e.kind@)),
        ("layer"@, text_or_null(e.layer)),
        ("text"@, text_or_null(e.text)),
        ("textHeight"@, match e.text_height {
            Some(h) => JsonValue::Number(h@),
            None => JsonValue::Null,
        }),
        ("vertices"@, JsonValue::Array(e.vertices@.map_values(|v: VertexJson| vertex_value(v)))),
    ]);
}

#[verifier::rlimit(40)]
proof fn lemma_success_text(entities: Seq<EntityJson>, warnings: Seq<String>)
    ensures
        crate::json::success_document(entities, warnings) == object_text(
            seq!["ok"@, "entities"@, "warnings"@],
            seq![
                "true"@,
                seq!['['] + crate::chars::join_with(
                    entities.map_values(|e: EntityJson| crate::json::entity_document(e)),
                    seq![','],
                ) + seq![']'],
                seq!['['] + crate::chars::join_with(
                    warnings.map_values(|w: String| crate::json::quoted(w)),
                    seq![','],
                ) + seq![']'],
            ],
        ),
{
    reveal_strlit("{\"ok\":true,\"entities\":[");
    reveal_strlit("],\"warnings\":[");
    reveal_strlit("]}");
    reveal_strlit("ok");
    reveal_strlit("entities");
    reveal_strlit("warnings");
    reveal_strlit("true");
    let ks = seq!["ok"@, "entities"@, "warnings"@];
    let je = crate::chars::join_with(
        entities.map_values(|e: EntityJson| crate::json::entity_document(e)),
        seq![','],
    );
    let jw = crate::chars::join_with(warnings.map_values(|w: String| crate::json::quoted(w)), seq![',']);
    let ds = seq!["true"@, seq!['['] + je + seq![']'], seq!['['] + jw + seq![']']];
    let e = Seq::<char>::empty();
    assert(fields_from(ks, ds, 2, e) == member_text(ks[2], ds[2]) + (seq!['}'] + e));
    assert(fields_from(ks, ds, 1, e) == member_text(ks[1], ds[1]) + (seq![','] + fields_from(ks, ds, 2, e)));
    assert(fields_from(ks, ds, 0, e) == member_text(ks[0], ds[0]) + (seq![','] + fields_from(ks, ds, 1, e)));
    assert("{\"ok\":true,\"entities\":["@ =~= seq!['{'] + seq!['"'] + "ok"@ + seq!['"', ':'] + "true"@
        + seq![','] + seq!['"'] + "entities"@ + seq!['"', ':'] + seq!['[']);
    assert("],\"warnings\":["@ =~= seq![']'] + seq![','] + seq!['"'] + "warnings"@ + seq!['"', ':']
        + seq!['[']);
    assert("]}"@ =~= seq![']'] + seq!['}']);
    assert(crate::json::success_document(entities, warnings) =~= object_text(ks, ds));
}

/// The document that reports a successful parse is one JSON value, which
/// reads back as an object whose `ok` is true, whose `entities` are the
/// given entities (kind, layer and text as strings or null, text height and
/// coordinates as the number literals they were written as) and whose
/// `warnings` are the given warnings, each in its order. It holds of every
/// entity whose kind needs no escape and whose numbers are written as JSON
/// number literals.
pub proof fn lemma_success_document_reads_back(entities: Seq<EntityJson>, warnings: Seq<String>)
    requires
        forall|i: int| 0 <= i < entities.len() ==> entity_writable(#[trigger] entities[i]),
    ensures
        json_document(crate::json::success_document(entities, warnings)) == Some(
            success_value(entities, warnings),
        ),
{
    reveal_strlit("ok");
    reveal_strlit("entities");
    reveal_strlit("warnings");
    let ks = seq!["ok"@, "entities"@, "warnings"@];
    let edocs = entities.map_values(|e: EntityJson| crate::json::entity_document(e));
    let evals = entities.map_values(|e: EntityJson| entity_value(e));
    let wdocs = warnings.map_values(|w: String| crate::json::quoted(w));
    let wvals = warnings.map_values(|w: String| JsonValue::Text(w@));
    assert forall|i: int| 0 <= i < edocs.len() implies reads_as(#[trigger] edocs[i], evals[i]) by {
        lemma_entity_reads(entities[i]);
    }
    assert forall|i: int| 0 <= i < wdocs.len() implies reads_as(#[trigger] wdocs[i], wvals[i]) by {
        reveal_strlit("\"");
        assert(wdocs[i] =~= seq!['"'] + json_escaped(warnings[i]@) + seq!['"']);
        lemma_escaped_reads(warnings[i]@);
    }
    lemma_array_reads(edocs, evals);
    lemma_array_reads(wdocs, wvals);
    lemma_true_reads();
    let ds = seq![
        "true"@,
        seq!['['] + crate::chars::join_with(edocs, seq![',']) + seq![']'],
        seq!['['] + crate::chars::join_with(wdocs, seq![',']) + seq![']'],
    ];
    let vs = seq![JsonValue::Boolean(true), JsonValue::Array(evals), JsonValue::Array(wvals)];
    assert forall|j: int| 0 <= j < 3 implies plain_text(#[trigger] ks[j]) && reads_as(ds[j], vs[j]) by {
        assert(plain_text(ks[j]));
    }
    lemma_success_text(entities, warnings);
    let doc = object_text(ks, ds);
    lemma_object_value(ks, ds, vs, seq![]);
    assert(doc + Seq::<char>::empty() =~= doc);
    assert(pairs_from(ks, vs, 0) =~= seq![
        ("ok"@, JsonValue::Boolean(true)),
        ("entities"@, JsonValue::Array(evals)),
        ("warnings"@, JsonValue::Array(wvals)),
    ]);
    assert(skip_space(Seq::<char>::empty()) == Seq::<char>::empty());
}

/// `false` reads as false.
proof fn lemma_false_reads()
    ensures
        reads_as("false"@, JsonValue::Boolean(false)),
{
    reveal_strlit("false");
    reveal_strlit("true");
    reveal_strlit("null");
    assert forall|r: Seq<char>| closes_value(r) implies #[trigger] read_value("false"@ + r) == Some((JsonValue::Boolean(false), r)) by {
        let t = "false"@ + r;
        assert(t.take(5) =~= "false"@);
        assert(t.take(4) != "null"@) by {
            assert(t.take(4)[0] != "null"@[0]);
        }
        assert(t.take(4) != "true"@) by {
            assert(t.take(4)[0] != "true"@[0]);
        }
        assert(t.skip(5) =~= r);
    }
}

/// The value of an error report: `ok` is false, `error` is the message and
/// `warnings` is empty.
pub open spec fn error_value(message: Seq<char>) -> JsonValue {
    JsonValue::Object(
        seq![
            ("ok"@, JsonValue::Boolean(false)),
            ("error"@, JsonValue::Text(message)),
            ("warnings"@, JsonValue::Array(seq![])),
        ],
    )
}

/// The document that reports a failed parse is one JSON value, which reads
/// back as an object whose `ok` is false, whose `error` is the message and
/// whose `warnings` are empty.
pub proof fn lemma_error_document_reads_back(message: Seq<char>)
    ensures
        json_document(crate::json::error_document(message)) == Some(error_value(message)),
{
    reveal_strlit("{\"ok\":false,\"error\":\"");
    reveal_strlit("\",\"warnings\":[]}");
    reveal_strlit("ok");
    reveal_strlit("error");
    reveal_strlit("warnings");
    reveal_strlit("false");
    let ks = seq!["ok"@, "error"@, "warnings"@];
    let empty_docs = Seq::<Seq<char>>::empty();
    let ds = seq![
        "false"@,
        seq!['"'] + json_escaped(message) + seq!['"'],
        seq!['['] + crate::chars::join_with(empty_docs, seq![',']) + seq![']'],
    ];
    let vs = seq![JsonValue::Boolean(false), JsonValue::Text(message), JsonValue::Array(seq![])];
    lemma_false_reads();
    lemma_escaped_reads(message);
    lemma_array_reads(empty_docs, Seq::<JsonValue>::empty());
    assert(crate::chars::join_with(empty_docs, seq![',']) == Seq::<char>::empty());
    assert forall|j: int| 0 <= j < 3 implies plain_text(#[trigger] ks[j]) && reads_as(ds[j], vs[j]) by {
        assert(plain_text(ks[j]));
    }
    let e = Seq::<char>::empty();
    assert(fields_from(ks, ds, 2, e) == member_text(ks[2], ds[2]) + (seq!['}'] + e));
    assert(fields_from(ks, ds, 1, e) == member_text(ks[1], ds[1]) + (seq![','] + fields_from(ks, ds, 2, e)));
    assert(fields_from(ks, ds, 0, e) == member_text(ks[0], ds[0]) + (seq![','] + fields_from(ks, ds, 1, e)));
    assert("{\"ok\":false,\"error\":\""@ =~= seq!['{'] + seq!['"'] + "ok"@ + seq!['"', ':'] + "false"@
        + seq![','] + seq!['"'] + "error"@ + seq!['"', ':'] + seq!['"']);
    assert("\",\"warnings\":[]}"@ =~= seq!['"'] + seq![','] + seq!['"'] + "warnings"@ + seq!['"', ':']
        + seq!['[', ']'] + seq!['}']);
    let doc = object_text(ks, ds);
    assert(crate::json::error_document(message) =~= doc);
    lemma_object_value(ks, ds, vs, seq![]);
    assert(doc + Seq::<char>::empty() =~= doc);
    assert(pairs_from(ks, vs, 0) =~= seq![
        ("ok"@, JsonValue::Boolean(false)),
        ("error"@, JsonValue::Text(message)),
        ("warnings"@, JsonValue::Array(seq![])),
    ]);
    assert(skip_space(Seq::<char>::empty()) == Seq::<char>::empty());
}

} // verus!
