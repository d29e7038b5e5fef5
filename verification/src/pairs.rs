//! Group-code pairs: the line structure of a DXF text file. Every two lines
//! form a pair, a numeric group code and its value.
use vstd::prelude::*;
use crate::chars::{self, chars_of, parse_i32, push_chars, push_decimal, string_of, trim_chars};

verus! {

/// One group-code pair of a DXF file: a group code and the value that
/// follows it, both trimmed of surrounding white space.
#[derive(Debug)]
pub struct Pair {
    pub code: i32,
    pub value: String,
}

impl View for Pair {
    type V = (i32, Seq<char>);

    open spec fn view(&self) -> (i32, Seq<char>) {
        (self.code, self.value@)
    }
}

/// The views of a sequence of pairs.
pub open spec fn pairs_view(ps: Seq<Pair>) -> Seq<(i32, Seq<char>)> {
    ps.map_values(|p: Pair| p@)
}

/// `s` with every line break written as `\n`: a `\r\n` becomes `\n`, and a
/// `\r` that no `\n` follows becomes `\n` too.
pub open spec fn unify_line_breaks(s: Seq<char>) -> Seq<char>
    decreases s.len(),
{
    if s.len() == 0 {
        s
    } else if s.last() == '\n' && s.len() >= 2 && s[s.len() - 2] == '\r' {
        unify_line_breaks(s.drop_last())
    } else if s.last() == '\r' {
        unify_line_breaks(s.drop_last()).push('\n')
    } else {
        unify_line_breaks(s.drop_last()).push(s.last())
    }
}

/// Reading `s` from the left: the lines that a `\n` has ended, and the
/// line that is still open.
pub open spec fn line_fold(s: Seq<char>) -> (Seq<Seq<char>>, Seq<char>)
    decreases s.len(),
{
    if s.len() == 0 {
        (seq![], seq![])
    } else {
        let (done, open) = line_fold(s.drop_last());
        if s.last() == '\n' {
            (done.push(open), seq![])
        } else {
            (done, open.push(s.last()))
        }
    }
}

/// The lines of `s` split at `\n`, as `str::lines` gives them: a final
/// `\n` ends the last line and opens no empty one.
pub open spec fn lines(s: Seq<char>) -> Seq<Seq<char>> {
    let (done, open) = line_fold(s);
    if open.len() == 0 {
        done
    } else {
        done.push(open)
    }
}

/// The lines of a DXF text once its line breaks are unified.
pub open spec fn text_lines(t: Seq<char>) -> Seq<Seq<char>> {
    lines(unify_line_breaks(t))
}

/// The message for a text with fewer than two lines.
pub open spec fn too_short_message() -> Seq<char> {
    "DXF input is too short to parse group code pairs."@
}

/// The message for a group-code line that is no `i32`; `line` counts from 1.
pub open spec fn invalid_code_message(code_raw: Seq<char>, line: nat) -> Seq<char> {
    "Invalid group code '"@ + code_raw + "' at line "@ + chars::decimal(line) + "."@
}

/// The pairs read from the lines `ls`, from line `i` on: line `i` holds a
/// group code and line `i + 1` its value; a last line without a partner is
/// ignored, and the first group code that is not an `i32` is an error.
pub open spec fn pairs_from_lines(ls: Seq<Seq<char>>, i: int) -> Result<
    Seq<(i32, Seq<char>)>,
    Seq<char>,
>
    decreases ls.len() - i,
{
    if i < 0 || i + 1 >= ls.len() {
        Ok(seq![])
    } else {
        match chars::i32_value(chars::trim(ls[i])) {
            None => Err(invalid_code_message(chars::trim(ls[i]), (i + 1) as nat)),
            Some(code) => match pairs_from_lines(ls, i + 2) {
                Ok(rest) => Ok(seq![(code as i32, chars::trim(ls[i + 1]))] + rest),
                Err(e) => Err(e),
            },
        }
    }
}

/// The group-code pairs of a DXF text, or the message that says why it has none.
pub open spec fn pairs_of_text(t: Seq<char>) -> Result<Seq<(i32, Seq<char>)>, Seq<char>> {
    let ls = text_lines(t);
    if ls.len() < 2 {
        Err(too_short_message())
    } else {
        pairs_from_lines(ls, 0)
    }
}

/// The views of a vector of lines.
pub open spec fn lines_view(ls: Seq<Vec<char>>) -> Seq<Seq<char>> {
    ls.map_values(|l: Vec<char>| l@)
}

/// The lines of `text` once its line breaks are unified.
pub fn split_lines(text: &str) -> (ls: Vec<Vec<char>>)
    ensures
        lines_view(ls@) == text_lines(text@),
{
    let v = chars_of(text);
    let mut done: Vec<Vec<char>> = Vec::new();
    let mut open: Vec<char> = Vec::new();
    let mut i: usize = 0;
    while i < v.len()
        invariant
            i <= v.len(),
            v@ == text@,
            (lines_view(done@), open@) == line_fold(unify_line_breaks(v@.take(i as int))),
        decreases v.len() - i,
    {
        let c = v[i];
        let ghost before = unify_line_breaks(v@.take(i as int));
        proof {
            assert(v@.take(i + 1).drop_last() =~= v@.take(i as int));
        }
        if c == '\n' && i > 0 && v[i - 1] == '\r' {
            assert(unify_line_breaks(v@.take(i + 1)) == before);
        } else if c == '\n' || c == '\r' {
            assert(unify_line_breaks(v@.take(i + 1)) == before.push('\n'));
            assert(before.push('\n').drop_last() =~= before);
            let finished = open;
            done.push(finished);
            open = Vec::new();
            assert(lines_view(done@) =~= line_fold(before).0.push(line_fold(before).1));
        } else {
            assert(unify_line_breaks(v@.take(i + 1)) == before.push(c));
            assert(before.push(c).drop_last() =~= before);
            open.push(c);
        }
        i += 1;
    }
    assert(v@.take(i as int) =~= v@);
    if open.len() > 0 {
        done.push(open);
        assert(lines_view(done@) =~= text_lines(text@));
    }
    done
}

/// Combines the pairs read so far with the result of reading the rest.
pub open spec fn prepend_pairs(
    front: Seq<(i32, Seq<char>)>,
    rest: Result<Seq<(i32, Seq<char>)>, Seq<char>>,
) -> Result<Seq<(i32, Seq<char>)>, Seq<char>> {
    match rest {
        Ok(r) => Ok(front + r),
        Err(e) => Err(e),
    }
}

/// Reads the group-code pairs of a DXF text. The text is split into lines
/// (`\r\n`, `\r` and `\n` each end a line); lines `0, 1`, then `2, 3` and so
/// on form the pairs, each line trimmed of white space. An odd last line is
/// ignored. Fails on a text with fewer than two lines, and on the first group
/// code that is not an `i32`, naming that line.
pub fn parse_pairs(text: &str) -> (r: Result<Vec<Pair>, String>)
    ensures
        match r {
            Ok(ps) => pairs_of_text(text@) == Ok::<_, Seq<char>>(pairs_view(ps@)),
            Err(e) => pairs_of_text(text@) == Err::<Seq<(i32, Seq<char>)>, _>(e@),
        },
{
    let ls = split_lines(text);
    let ghost lv = text_lines(text@);
    if ls.len() < 2 {
        assert(lv.len() == ls@.len());
        return Err(String::from_str("DXF input is too short to parse group code pairs."));
    }
    let mut pairs: Vec<Pair> = Vec::new();
    let mut i: usize = 0;
    assert(lines_view(ls@).len() == ls@.len());
    assert(pairs_view(pairs@) =~= seq![]);
    assert(prepend_pairs(seq![], pairs_from_lines(lv, 0)) =~= pairs_from_lines(lv, 0));
    while i + 1 < ls.len()
        invariant
            lines_view(ls@) == lv,
            lv.len() == ls@.len(),
            ls.len() >= 2,
            lv == text_lines(text@),
            i % 2 == 0,
            i <= ls.len() + 1,
            pairs_from_lines(lv, 0) == prepend_pairs(pairs_view(pairs@), pairs_from_lines(lv, i as int)),
        decreases ls.len() + 1 - i,
    {
        let code_raw = trim_chars(&ls[i]);
        let value = trim_chars(&ls[i + 1]);
        assert(lv[i as int] == ls@[i as int]@);
        assert(lv[i + 1] == ls@[i + 1]@);
        match parse_i32(&code_raw) {
            None => {
                let mut msg: Vec<char> = Vec::new();
                let mut out = String::from_str("Invalid group code '");
                push_chars(&mut out, &code_raw);
                out.append("' at line ");
                push_decimal(&mut msg, (i + 1) as u64);
                push_chars(&mut out, &msg);
                out.append(".");
                assert(out@ =~= invalid_code_message(chars::trim(lv[i as int]), (i + 1) as nat));
                assert(pairs_from_lines(lv, i as int) == Err::<Seq<(i32, Seq<char>)>, Seq<char>>(
                    out@,
                ));
                assert(pairs_of_text(text@) == pairs_from_lines(lv, 0));
                return Err(out);
            },
            Some(code) => {
                let ghost prev = pairs_view(pairs@);
                pairs.push(Pair { code, value: string_of(&value) });
                proof {
                    let x = (code, chars::trim(lv[i + 1]));
                    assert(pairs_view(pairs@) =~= prev.push(x));
                    match pairs_from_lines(lv, i + 2) {
                        Ok(r) => {
                            assert(prev.push(x) + r =~= prev + (seq![x] + r));
                        },
                        Err(e) => {},
                    }
                }
                i += 2;
            },
        }
    }
    assert(pairs_from_lines(lv, i as int) == Ok::<_, Seq<char>>(Seq::<(i32, Seq<char>)>::empty()));
    assert(pairs_view(pairs@) + Seq::<(i32, Seq<char>)>::empty() =~= pairs_view(pairs@));
    Ok(pairs)
}

proof fn lemma_pairs_from_lines(ls: Seq<Seq<char>>, i: int)
    requires
        0 <= i,
    ensures
        pairs_from_lines(ls, i) matches Ok(ps) ==> {
            &&& ps.len() == (if i + 1 < ls.len() { (ls.len() - i) / 2 } else { 0 })
            &&& forall|k: int|
                0 <= k < ps.len() ==> chars::i32_value(chars::trim(ls[i + 2 * k])) == Some(
                    (#[trigger] ps[k]).0 as int,
                ) && ps[k].1 == chars::trim(ls[i + 2 * k + 1])
        },
    decreases ls.len() - i,
{
    if i + 1 < ls.len() {
        lemma_pairs_from_lines(ls, i + 2);
        match pairs_from_lines(ls, i) {
            Ok(ps) => {
                let rest = pairs_from_lines(ls, i + 2)->Ok_0;
                assert(ps == seq![(chars::i32_value(chars::trim(ls[i]))->0 as i32, chars::trim(ls[i + 1]))] + rest);
                assert forall|k: int|
                    0 <= k < ps.len() implies chars::i32_value(chars::trim(ls[i + 2 * k])) == Some(
                    (#[trigger] ps[k]).0 as int,
                ) && ps[k].1 == chars::trim(ls[i + 2 * k + 1]) by {
                    if k > 0 {
                        assert(ps[k] == rest[k - 1]);
                        assert(i + 2 + 2 * (k - 1) == i + 2 * k);
                    }
                }
            },
            Err(_) => {},
        }
    }
}

/// Every two lines of a DXF text make one pair: when the text reads, it
/// gives one pair for each two lines, and pair `k` holds the group code read
/// from line `2k` and the trimmed line `2k + 1`.
pub proof fn lemma_pairs_are_line_pairs(t: Seq<char>)
    ensures
        pairs_of_text(t) matches Ok(ps) ==> {
            &&& ps.len() == text_lines(t).len() / 2
            &&& forall|k: int|
                0 <= k < ps.len() ==> chars::i32_value(chars::trim(text_lines(t)[2 * k])) == Some(
                    (#[trigger] ps[k]).0 as int,
                ) && ps[k].1 == chars::trim(text_lines(t)[2 * k + 1])
        },
{
    lemma_pairs_from_lines(text_lines(t), 0);
}

} // verus!
