//! Text values: the clean-up applied to every displayed string and the
//! selection of text among the pairs of an entity.
use vstd::prelude::*;
use crate::chars::{self, chars_of, push_chars, string_of, trim_chars};
use crate::pairs::{Pair, pairs_view};

verus! {

/// `s` with every `\\m` (two backslashes and the character `m`) replaced by a
/// space, matches taken from the left without overlap (`str::replace`).
pub open spec fn replace_marker(s: Seq<char>, m: char) -> Seq<char>
    decreases s.len(),
{
    if s.len() == 0 {
        s
    } else if s.len() >= 3 && s[0] == '\\' && s[1] == '\\' && s[2] == m {
        seq![' '] + replace_marker(s.skip(3), m)
    } else {
        seq![s[0]] + replace_marker(s.skip(1), m)
    }
}

/// `s` without the characters `{` and `}`.
pub open spec fn strip_braces(s: Seq<char>) -> Seq<char>
    decreases s.len(),
{
    if s.len() == 0 {
        s
    } else if s.last() == '{' || s.last() == '}' {
        strip_braces(s.drop_last())
    } else {
        strip_braces(s.drop_last()).push(s.last())
    }
}

/// The displayed form of a raw text value: the paragraph and space markers
/// `\\P`, `\\p` and `\\~` become spaces (in that order of passes), braces are
/// dropped, and surrounding white space is trimmed.
pub open spec fn normalized(s: Seq<char>) -> Seq<char> {
    chars::trim(
        strip_braces(replace_marker(replace_marker(replace_marker(s, 'P'), 'p'), '~')),
    )
}

fn replace_marker_exec(v: &Vec<char>, m: char) -> (r: Vec<char>)
    ensures
        r@ == replace_marker(v@, m),
{
    let mut out: Vec<char> = Vec::new();
    let mut i: usize = 0;
    assert(v@.skip(0) =~= v@);
    while i < v.len()
        invariant
            i <= v.len(),
            replace_marker(v@, m) == out@ + replace_marker(v@.skip(i as int), m),
        decreases v.len() - i,
    {
        let ghost rest = v@.skip(i as int);
        if v.len() - i >= 3 && v[i] == '\\' && v[i + 1] == '\\' && v[i + 2] == m {
            assert(rest.skip(3) =~= v@.skip(i + 3));
            assert(replace_marker(rest, m) == seq![' '] + replace_marker(rest.skip(3), m));
            out.push(' ');
            assert(out@ + replace_marker(v@.skip(i + 3), m) =~= (out@.drop_last() + seq![' '])
                + replace_marker(v@.skip(i + 3), m));
            i += 3;
        } else {
            assert(rest.skip(1) =~= v@.skip(i + 1));
            assert(replace_marker(rest, m) == seq![rest[0]] + replace_marker(rest.skip(1), m));
            out.push(v[i]);
            i += 1;
        }
    }
    assert(v@.skip(i as int) =~= Seq::<char>::empty());
    assert(out@ + Seq::<char>::empty() =~= out@);
    out
}

fn strip_braces_exec(v: &Vec<char>) -> (r: Vec<char>)
    ensures
        r@ == strip_braces(v@),
{
    let mut out: Vec<char> = Vec::new();
    let mut i: usize = 0;
    while i < v.len()
        invariant
            i <= v.len(),
            out@ == strip_braces(v@.take(i as int)),
        decreases v.len() - i,
    {
        assert(v@.take(i + 1).drop_last() =~= v@.take(i as int));
        if v[i] != '{' && v[i] != '}' {
            out.push(v[i]);
        }
        i += 1;
    }
    assert(v@.take(i as int) =~= v@);
    out
}

/// The displayed form of the characters `v` (see `normalized`).
pub fn normalize_chars(v: &Vec<char>) -> (r: Vec<char>)
    ensures
        r@ == normalized(v@),
{
    let a = replace_marker_exec(v, 'P');
    let b = replace_marker_exec(&a, 'p');
    let c = replace_marker_exec(&b, '~');
    let d = strip_braces_exec(&c);
    trim_chars(&d)
}

/// The displayed form of a raw text value: `\\P`, `\\p` and `\\~` become
/// spaces, braces are dropped and surrounding white space is trimmed.
pub fn normalize_text(value: &str) -> (r: String)
    ensures
        r@ == normalized(value@),
{
    let v = chars_of(value);
    let n = normalize_chars(&v);
    string_of(&n)
}

/// The first pair of `ps` with group code `code` whose displayed value is not
/// empty, as that displayed value.
pub open spec fn first_text_for_code(ps: Seq<(i32, Seq<char>)>, code: i32) -> Option<Seq<char>>
    decreases ps.len(),
{
    if ps.len() == 0 {
        None
    } else if ps[0].0 == code && normalized(ps[0].1).len() > 0 {
        Some(normalized(ps[0].1))
    } else {
        first_text_for_code(ps.drop_first(), code)
    }
}

/// The first non-empty displayed value among the pairs of `ps`, trying the
/// group codes of `codes` in their order.
pub open spec fn first_text(ps: Seq<(i32, Seq<char>)>, codes: Seq<i32>) -> Option<Seq<char>>
    decreases codes.len(),
{
    if codes.len() == 0 {
        None
    } else {
        match first_text_for_code(ps, codes[0]) {
            Some(t) => Some(t),
            None => first_text(ps, codes.drop_first()),
        }
    }
}

/// The views of an optional `String`.
pub open spec fn opt_view(o: Option<String>) -> Option<Seq<char>> {
    match o {
        Some(s) => Some(s@),
        None => None,
    }
}

/// The displayed value of the first pair, among `payload`, that carries the
/// first group code of `codes` with a non-empty displayed value; codes are
/// tried in order, pairs in order for each code.
pub fn first_non_empty_text(payload: &[Pair], codes: &[i32]) -> (r: Option<String>)
    ensures
        opt_view(r) == first_text(pairs_view(payload@), codes@),
{
    let ghost ps = pairs_view(payload@);
    let mut k: usize = 0;
    assert(codes@.skip(0) =~= codes@);
    while k < codes.len()
        invariant
            k <= codes.len(),
            ps == pairs_view(payload@),
            first_text(ps, codes@) == first_text(ps, codes@.skip(k as int)),
        decreases codes.len() - k,
    {
        let code = codes[k];
        let mut j: usize = 0;
        assert(ps.skip(0) =~= ps);
        while j < payload.len()
            invariant
                j <= payload.len(),
                ps == pairs_view(payload@),
                k < codes.len(),
                code == codes@[k as int],
                first_text(ps, codes@) == first_text(ps, codes@.skip(k as int)),
                first_text_for_code(ps, code) == first_text_for_code(ps.skip(j as int), code),
            decreases payload.len() - j,
        {
            assert(ps.skip(j as int).drop_first() =~= ps.skip(j + 1));
            assert(ps.skip(j as int)[0] == payload@[j as int]@);
            if payload[j].code == code {
                let v = chars_of(payload[j].value.as_str());
                let cleaned = normalize_chars(&v);
                if cleaned.len() > 0 {
                    assert(codes@.skip(k as int)[0] == code);
                    return Some(string_of(&cleaned));
                }
            }
            j += 1;
        }
        assert(ps.skip(j as int).len() == 0);
        assert(codes@.skip(k as int).drop_first() =~= codes@.skip(k + 1));
        k += 1;
    }
    None
}

/// The non-empty displayed values of the pairs whose group code is one of
/// `codes`, in the order of the pairs.
pub open spec fn text_chunks(ps: Seq<(i32, Seq<char>)>, codes: Seq<i32>) -> Seq<Seq<char>>
    decreases ps.len(),
{
    if ps.len() == 0 {
        seq![]
    } else {
        let rest = text_chunks(ps.drop_last(), codes);
        let p = ps.last();
        if codes.contains(p.0) && normalized(p.1).len() > 0 {
            rest.push(normalized(p.1))
        } else {
            rest
        }
    }
}

/// The texts of `cs` joined with single spaces between them.
pub open spec fn join_spaced(cs: Seq<Seq<char>>) -> Seq<char> {
    chars::join_with(cs, seq![' '])
}

/// Whether `codes` holds `code`.
fn contains_code(codes: &[i32], code: i32) -> (r: bool)
    ensures
        r == codes@.contains(code),
{
    let mut i: usize = 0;
    while i < codes.len()
        invariant
            i <= codes.len(),
            forall|k: int| 0 <= k < i ==> codes@[k] != code,
        decreases codes.len() - i,
    {
        if codes[i] == code {
            assert(codes@[i as int] == code);
            return true;
        }
        i += 1;
    }
    false
}

/// All non-empty displayed values of the pairs whose group code is among
/// `preferred_codes`, in the order of the pairs, joined with single spaces;
/// `None` when there is none.
pub fn collect_text_chunks_ordered(payload: &[Pair], preferred_codes: &[i32]) -> (r: Option<
    String,
>)
    ensures
        opt_view(r) == (if text_chunks(pairs_view(payload@), preferred_codes@).len() == 0 {
            None
        } else {
            Some(join_spaced(text_chunks(pairs_view(payload@), preferred_codes@)))
        }),
{
    let ghost ps = pairs_view(payload@);
    let mut joined: String = String::new();
    let mut count: usize = 0;
    let mut j: usize = 0;
    while j < payload.len()
        invariant
            j <= payload.len(),
            ps == pairs_view(payload@),
            count == text_chunks(ps.take(j as int), preferred_codes@).len(),
            joined@ == join_spaced(text_chunks(ps.take(j as int), preferred_codes@)),
            count <= j,
        decreases payload.len() - j,
    {
        assert(ps.take(j + 1).drop_last() =~= ps.take(j as int));
        assert(ps.take(j + 1).last() == payload@[j as int]@);
        if contains_code(preferred_codes, payload[j].code) {
            let v = chars_of(payload[j].value.as_str());
            let cleaned = normalize_chars(&v);
            if cleaned.len() > 0 {
                let ghost cs = text_chunks(ps.take(j as int), preferred_codes@);
                let ghost before = joined@;
                if count > 0 {
                    joined.append(" ");
                }
                push_chars(&mut joined, &cleaned);
                count += 1;
                proof {
                    reveal_strlit(" ");
                    chars::lemma_join_with_push(cs, seq![' '], cleaned@);
                    assert(joined@ =~= join_spaced(cs.push(cleaned@)));
                }
            }
        }
        j += 1;
    }
    assert(ps.take(j as int) =~= ps);
    if count == 0 {
        None
    } else {
        Some(joined)
    }
}

/// The displayed form of `raw`, when it is not empty.
pub open spec fn label_of(raw: Seq<char>) -> Option<Seq<char>> {
    if normalized(raw).len() > 0 {
        Some(normalized(raw))
    } else {
        None
    }
}

/// The displayed form of `raw`, or `None` when it is empty.
pub fn text_label(raw: &str) -> (r: Option<String>)
    ensures
        opt_view(r) == label_of(raw@),
{
    let n = normalize_text(raw);
    if n.as_str().is_empty() {
        None
    } else {
        Some(n)
    }
}

/// The raw content of an `MTEXT`: the values of its groups 3 and 1 in order,
/// run together; `None` when it has none.
pub open spec fn mtext_chunks(ps: Seq<(i32, Seq<char>)>) -> Seq<Seq<char>>
    decreases ps.len(),
{
    if ps.len() == 0 {
        seq![]
    } else if ps.last().0 == 3 || ps.last().0 == 1 {
        mtext_chunks(ps.drop_last()).push(ps.last().1)
    } else {
        mtext_chunks(ps.drop_last())
    }
}

/// The raw content of an `MTEXT` (see `mtext_chunks`), or `None` when it
/// has no group 3 or 1.
pub fn mtext_content(payload: &[Pair]) -> (r: Option<String>)
    ensures
        opt_view(r) == (if mtext_chunks(pairs_view(payload@)).len() == 0 {
            None
        } else {
            Some(chars::join_with(mtext_chunks(pairs_view(payload@)), seq![]))
        }),
{
    let ghost ps = pairs_view(payload@);
    let mut out = String::new();
    let mut count: usize = 0;
    let mut j: usize = 0;
    while j < payload.len()
        invariant
            j <= payload.len(),
            ps == pairs_view(payload@),
            count == mtext_chunks(ps.take(j as int)).len(),
            count <= j,
            out@ == chars::join_with(mtext_chunks(ps.take(j as int)), seq![]),
        decreases payload.len() - j,
    {
        assert(ps.take(j + 1).drop_last() =~= ps.take(j as int));
        assert(ps.take(j + 1).last() == payload@[j as int]@);
        if payload[j].code == 3 || payload[j].code == 1 {
            let ghost cs = mtext_chunks(ps.take(j as int));
            out.append(payload[j].value.as_str());
            count += 1;
            proof {
                chars::lemma_join_with_push(cs, seq![], payload@[j as int].value@);
                assert(out@ =~= chars::join_with(cs.push(payload@[j as int].value@), seq![]));
            }
        }
        j += 1;
    }
    assert(ps.take(j as int) =~= ps);
    if count == 0 {
        None
    } else {
        Some(out)
    }
}

/// The raw text of an `ATTDEF` or `ATTRIB`: its value (the last group 1),
/// or when it has none its tag (the last group 2).
pub open spec fn attribute_raw(ps: Seq<(i32, Seq<char>)>) -> Option<Seq<char>> {
    match crate::scan::last_value(ps, 1) {
        Some(v) => Some(v),
        None => crate::scan::last_value(ps, 2),
    }
}

/// The displayed text of an `ATTDEF` or `ATTRIB` (see `attribute_raw`),
/// `None` when it is missing or displays as nothing.
pub fn attribute_label(payload: &[Pair]) -> (r: Option<String>)
    ensures
        opt_view(r) == match attribute_raw(pairs_view(payload@)) {
            Some(raw) => label_of(raw),
            None => None,
        },
{
    let raw = match crate::plans::last_value_of(payload, 1) {
        Some(v) => Some(v),
        None => crate::plans::last_value_of(payload, 2),
    };
    match raw {
        Some(v) => text_label(v.as_str()),
        None => None,
    }
}

proof fn lemma_strip_braces_free(s: Seq<char>)
    ensures
        forall|i: int|
            0 <= i < strip_braces(s).len() ==> #[trigger] strip_braces(s)[i] != '{' && strip_braces(
                s,
            )[i] != '}',
    decreases s.len(),
{
    if s.len() > 0 {
        lemma_strip_braces_free(s.drop_last());
        let r = strip_braces(s.drop_last());
        if !(s.last() == '{' || s.last() == '}') {
            assert forall|i: int| 0 <= i < strip_braces(s).len() implies #[trigger] strip_braces(s)[i]
                != '{' && strip_braces(s)[i] != '}' by {
                if i < r.len() {
                    assert(strip_braces(s)[i] == r[i]);
                }
            }
        }
    }
}

proof fn lemma_trim_start_suffix(s: Seq<char>) -> (k: int)
    ensures
        0 <= k <= s.len(),
        chars::trim_start(s) == s.skip(k),
        chars::trim_start(s).len() > 0 ==> !chars::is_white_space(chars::trim_start(s)[0]),
    decreases s.len(),
{
    if s.len() > 0 && chars::is_white_space(s[0]) {
        let k = lemma_trim_start_suffix(s.drop_first());
        assert(s.drop_first().skip(k) =~= s.skip(k + 1));
        k + 1
    } else {
        assert(s.skip(0) =~= s);
        0
    }
}

proof fn lemma_trim_end_prefix(s: Seq<char>) -> (k: int)
    ensures
        0 <= k <= s.len(),
        chars::trim_end(s) == s.take(k),
        chars::trim_end(s).len() > 0 ==> !chars::is_white_space(chars::trim_end(s).last()),
    decreases s.len(),
{
    if s.len() > 0 && chars::is_white_space(s.last()) {
        let k = lemma_trim_end_prefix(s.drop_last());
        assert(s.drop_last().take(k) =~= s.take(k));
        k
    } else {
        assert(s.take(s.len() as int) =~= s);
        s.len() as int
    }
}

/// The displayed form of a text holds no brace, and neither starts nor
/// ends with white space.
pub proof fn lemma_normalized_shape(s: Seq<char>)
    ensures
        forall|i: int|
            0 <= i < normalized(s).len() ==> #[trigger] normalized(s)[i] != '{' && normalized(s)[i]
                != '}',
        normalized(s).len() > 0 ==> !chars::is_white_space(normalized(s)[0])
            && !chars::is_white_space(normalized(s).last()),
{
    let b = strip_braces(replace_marker(replace_marker(replace_marker(s, 'P'), 'p'), '~'));
    lemma_strip_braces_free(replace_marker(replace_marker(replace_marker(s, 'P'), 'p'), '~'));
    let k1 = lemma_trim_start_suffix(b);
    let t = chars::trim_start(b);
    let k2 = lemma_trim_end_prefix(t);
    let n = normalized(s);
    assert(n == t.take(k2));
    assert forall|i: int| 0 <= i < n.len() implies #[trigger] n[i] != '{' && n[i] != '}' by {
        assert(n[i] == b[k1 + i]);
    }
    if n.len() > 0 {
        assert(n[0] == t[0]);
    }
}

/// Whether the marker `\\m` starts at index `i` of `t`.
spec fn marker_at(t: Seq<char>, i: int, m: char) -> bool {
    0 <= i && i + 2 < t.len() && t[i] == '\\' && t[i + 1] == '\\' && t[i + 2] == m
}

/// Whether `t` holds no brace.
spec fn brace_free(t: Seq<char>) -> bool {
    forall|i: int| 0 <= i < t.len() ==> #[trigger] t[i] != '{' && t[i] != '}'
}

/// The first character of `replace_marker(u, m)`: a space for a marker,
/// else the first character of `u`, followed by the rest of `u` replaced.
proof fn lemma_replace_marker_head(u: Seq<char>, m: char)
    requires
        u.len() > 0,
    ensures
        replace_marker(u, m).len() > 0,
        replace_marker(u, m)[0] == ' ' || (!marker_at(u, 0, m) && replace_marker(u, m) == seq![
            u[0]] + replace_marker(u.skip(1), m)),
{
}

proof fn lemma_replace_marker_empty(u: Seq<char>, m: char)
    ensures
        replace_marker(u, m).len() == 0 <==> u.len() == 0,
{
}

/// Replacing the markers `\\m` leaves none of them, and creates no marker
/// `\\m2` that `t` did not hold.
proof fn lemma_replace_marker_clears(t: Seq<char>, m: char, m2: char)
    requires
        m2 != ' ',
        m2 == m || forall|i: int| !#[trigger] marker_at(t, i, m2),
    ensures
        forall|i: int| !#[trigger] marker_at(replace_marker(t, m), i, m2),
    decreases t.len(),
{
    if t.len() > 0 {
        let r = replace_marker(t, m);
        if marker_at(t, 0, m) {
            let rest = t.skip(3);
            assert forall|i: int| !#[trigger] marker_at(rest, i, m2) || m2 == m by {
                if marker_at(rest, i, m2) && m2 != m {
                    assert(marker_at(t, i + 3, m2));
                }
            }
            lemma_replace_marker_clears(rest, m, m2);
            let rr = replace_marker(rest, m);
            assert(r == seq![' '] + rr);
            assert forall|i: int| !#[trigger] marker_at(r, i, m2) by {
                if marker_at(r, i, m2) && i > 0 {
                    assert(marker_at(rr, i - 1, m2));
                }
            }
        } else {
            let rest = t.skip(1);
            assert forall|i: int| !#[trigger] marker_at(rest, i, m2) || m2 == m by {
                if marker_at(rest, i, m2) && m2 != m {
                    assert(marker_at(t, i + 1, m2));
                }
            }
            lemma_replace_marker_clears(rest, m, m2);
            let rr = replace_marker(rest, m);
            assert(r == seq![t[0]] + rr);
            assert forall|i: int| !#[trigger] marker_at(r, i, m2) by {
                if marker_at(r, i, m2) {
                    if i > 0 {
                        assert(marker_at(rr, i - 1, m2));
                    } else {
                        lemma_replace_marker_head(rest, m);
                        assert(rr[0] == '\\');
                        assert(rr == seq![rest[0]] + replace_marker(rest.skip(1), m));
                        let r2 = replace_marker(rest.skip(1), m);
                        lemma_replace_marker_empty(rest.skip(1), m);
                        lemma_replace_marker_head(rest.skip(1), m);
                        assert(r2[0] == m2);
                        assert(r2 == seq![rest.skip(1)[0]] + replace_marker(rest.skip(1).skip(1), m));
                        assert(t[2] == rest.skip(1)[0]);
                        assert(marker_at(t, 0, m2));
                    }
                }
            }
        }
    }
}

/// Replacing markers in a text with no marker changes nothing.
proof fn lemma_replace_marker_none(t: Seq<char>, m: char)
    requires
        forall|i: int| !#[trigger] marker_at(t, i, m),
    ensures
        replace_marker(t, m) == t,
    decreases t.len(),
{
    if t.len() > 0 {
        let rest = t.skip(1);
        assert forall|i: int| !#[trigger] marker_at(rest, i, m) by {
            if marker_at(rest, i, m) {
                assert(marker_at(t, i + 1, m));
            }
        }
        assert(!marker_at(t, 0, m));
        lemma_replace_marker_none(rest, m);
        assert(seq![t[0]] + rest =~= t);
    }
}

/// Replacing markers adds no brace.
proof fn lemma_replace_marker_brace_free(t: Seq<char>, m: char)
    requires
        brace_free(t),
    ensures
        brace_free(replace_marker(t, m)),
    decreases t.len(),
{
    if t.len() > 0 {
        let r = replace_marker(t, m);
        let k: int = if marker_at(t, 0, m) { 3 } else { 1 };
        let rest = t.skip(k);
        assert(brace_free(rest)) by {
            assert forall|i: int| 0 <= i < rest.len() implies #[trigger] rest[i] != '{' && rest[i] != '}' by {
                assert(rest[i] == t[i + k]);
            }
        }
        lemma_replace_marker_brace_free(rest, m);
        let rr = replace_marker(rest, m);
        assert forall|i: int| 0 <= i < r.len() implies #[trigger] r[i] != '{' && r[i] != '}' by {
            if i > 0 {
                assert(r[i] == rr[i - 1]);
            }
        }
    }
}

/// Dropping the braces of a text with no brace changes nothing.
proof fn lemma_strip_braces_none(t: Seq<char>)
    requires
        brace_free(t),
    ensures
        strip_braces(t) == t,
    decreases t.len(),
{
    if t.len() > 0 {
        let d = t.drop_last();
        assert(brace_free(d)) by {
            assert forall|i: int| 0 <= i < d.len() implies #[trigger] d[i] != '{' && d[i] != '}' by {
                assert(d[i] == t[i]);
            }
        }
        assert(t.last() == t[t.len() - 1]);
        lemma_strip_braces_none(d);
        assert(d.push(t.last()) =~= t);
    }
}

/// Showing a text that holds no brace a second time changes nothing: its
/// displayed form is its own displayed form. (A brace can hide a marker:
/// `\\{\\P` shows as `\\P`, which shows as nothing.)
pub proof fn lemma_normalized_idempotent(s: Seq<char>)
    requires
        forall|i: int| 0 <= i < s.len() ==> #[trigger] s[i] != '{' && s[i] != '}',
    ensures
        normalized(normalized(s)) == normalized(s),
{
    let r1 = replace_marker(s, 'P');
    let r2 = replace_marker(r1, 'p');
    let r3 = replace_marker(r2, '~');
    lemma_replace_marker_clears(s, 'P', 'P');
    lemma_replace_marker_clears(r1, 'p', 'P');
    lemma_replace_marker_clears(r2, '~', 'P');
    lemma_replace_marker_clears(r1, 'p', 'p');
    lemma_replace_marker_clears(r2, '~', 'p');
    lemma_replace_marker_clears(r2, '~', '~');
    assert(brace_free(s));
    lemma_replace_marker_brace_free(s, 'P');
    lemma_replace_marker_brace_free(r1, 'p');
    lemma_replace_marker_brace_free(r2, '~');
    lemma_strip_braces_none(r3);
    let k1 = lemma_trim_start_suffix(r3);
    let t = chars::trim_start(r3);
    let k2 = lemma_trim_end_prefix(t);
    let n = normalized(s);
    assert(n == t.take(k2));
    assert(forall|i: int| 0 <= i < n.len() ==> n[i] == r3[k1 + i]);
    assert forall|m: char, i: int| (m == 'P' || m == 'p' || m == '~') implies !#[trigger] marker_at(n, i, m) by {
        if marker_at(n, i, m) {
            assert(marker_at(r3, k1 + i, m));
        }
    }
    assert(brace_free(n)) by {
        assert forall|i: int| 0 <= i < n.len() implies #[trigger] n[i] != '{' && n[i] != '}' by {
            assert(n[i] == r3[k1 + i]);
        }
    }
    lemma_replace_marker_none(n, 'P');
    lemma_replace_marker_none(n, 'p');
    lemma_replace_marker_none(n, '~');
    lemma_strip_braces_none(n);
    lemma_normalized_shape(s);
    assert(chars::trim_start(n) == n);
    assert(chars::trim_end(n) == n);
}

} // verus!
