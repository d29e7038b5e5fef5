//! The decisions that block references make: which block an `INSERT` or a
//! `DIMENSION` draws, how many times, and the warnings they give; and the
//! text that annotation entities show.
use vstd::prelude::*;
use crate::chars::{self, chars_of, parse_i32, push_chars, push_decimal_i32, string_of, trim_chars};
use crate::pairs::{Pair, pairs_view};
use crate::scan::{BlockRecord, PairV, blocks_view, last_value, last_value_in};
use crate::text::{normalize_chars, opt_view};

verus! {

/// The value of the first pair of `ps` with group code `code`.
pub open spec fn first_value(ps: Seq<PairV>, code: i32) -> Option<Seq<char>>
    decreases ps.len(),
{
    if ps.len() == 0 {
        None
    } else if ps[0].0 == code {
        Some(ps[0].1)
    } else {
        first_value(ps.drop_first(), code)
    }
}

/// The value of the first pair of `payload` with group code `code`.
pub fn first_value_of(payload: &[Pair], code: i32) -> (r: Option<String>)
    ensures
        opt_view(r) == first_value(pairs_view(payload@), code),
{
    let ghost ps = pairs_view(payload@);
    let mut k: usize = 0;
    assert(ps.skip(0) =~= ps);
    while k < payload.len()
        invariant
            k <= payload.len(),
            ps == pairs_view(payload@),
            first_value(ps, code) == first_value(ps.skip(k as int), code),
        decreases payload.len() - k,
    {
        assert(ps.skip(k as int)[0] == payload@[k as int]@);
        assert(ps.skip(k as int).drop_first() =~= ps.skip(k + 1));
        if payload[k].code == code {
            return Some(payload[k].value.clone());
        }
        k += 1;
    }
    None
}

/// The value of the last pair of `payload` with group code `code`.
pub fn last_value_of(payload: &[Pair], code: i32) -> (r: Option<String>)
    ensures
        opt_view(r) == last_value(pairs_view(payload@), code),
{
    let r = last_value_in(payload, 0, payload.len(), code);
    assert(pairs_view(payload@).subrange(0, payload@.len() as int) =~= pairs_view(payload@));
    r
}

/// The names of a sequence of block views.
pub open spec fn block_names(bs: Seq<crate::scan::BlockV>) -> Seq<Option<Seq<char>>> {
    bs.map_values(|b: crate::scan::BlockV| b.0)
}

/// The block that a reference to `name` finds: the last definition with
/// that exact name (a later definition replaces an earlier one).
pub open spec fn block_index(names: Seq<Option<Seq<char>>>, name: Seq<char>) -> Option<int>
    decreases names.len(),
{
    if names.len() == 0 {
        None
    } else if names.last() == Some(name) {
        Some(names.len() - 1)
    } else {
        block_index(names.drop_last(), name)
    }
}

pub proof fn lemma_block_index(names: Seq<Option<Seq<char>>>, name: Seq<char>)
    ensures
        block_index(names, name) matches Some(b) ==> 0 <= b < names.len() && names[b] == Some(name),
    decreases names.len(),
{
    if names.len() > 0 {
        lemma_block_index(names.drop_last(), name);
    }
}

/// The block that a reference to `name` finds (see `block_index`).
pub fn find_block(blocks: &[BlockRecord], name: &str) -> (r: Option<usize>)
    ensures
        match r {
            Some(b) => block_index(block_names(blocks_view(blocks@)), name@) == Some(b as int),
            None => block_index(block_names(blocks_view(blocks@)), name@) is None,
        },
{
    let ghost names = block_names(blocks_view(blocks@));
    let target = chars_of(name);
    let mut k: usize = blocks.len();
    assert(names.take(k as int) =~= names);
    while k > 0
        invariant
            k <= blocks.len(),
            names == block_names(blocks_view(blocks@)),
            target@ == name@,
            block_index(names, name@) == block_index(names.take(k as int), name@),
        decreases k,
    {
        assert(names.take(k as int).drop_last() =~= names.take(k - 1));
        assert(names.take(k as int).last() == opt_view(blocks@[k - 1].name));
        match &blocks[k - 1].name {
            Some(n) => {
                let v = chars_of(n.as_str());
                if chars::same_chars(&v, &target) {
                    return Some(k - 1);
                }
            },
            None => {},
        }
        k -= 1;
    }
    None
}

/// The number of rows (group 71) or columns (group 70) of an `INSERT`
/// array: the last such pair read as an `i32`, 1 when it is no `i32` or
/// missing, and at least 1.
pub open spec fn grid_count(ps: Seq<PairV>, code: i32) -> int {
    let n = match last_value(ps, code) {
        Some(v) => match chars::i32_value(v) {
            Some(n) => n,
            None => 1,
        },
        None => 1,
    };
    if n < 1 {
        1
    } else {
        n
    }
}

/// What an `INSERT` with payload `ps` does, given the names of the block
/// definitions: without a name (the last group 2) it is malformed; a name
/// that no block has is malformed too; otherwise it draws that block in a
/// grid of rows by columns, with a note when the grid has more than one cell.
pub open spec fn insert_plan(ps: Seq<PairV>, names: Seq<Option<Seq<char>>>) -> (
    Option<(int, int, int)>,
    Option<Seq<char>>,
) {
    match last_value(ps, 2) {
        None => (None, Some("INSERT is missing block name (code 2)."@)),
        Some(name) => match block_index(names, name) {
            None => (None, Some("Unknown block reference in INSERT: "@ + name)),
            Some(b) => {
                let rows = grid_count(ps, 71);
                let cols = grid_count(ps, 70);
                (
                    Some((b, rows, cols)),
                    if rows > 1 || cols > 1 {
                        Some(
                            "INSERT array expanded for block "@ + name + ": "@ + chars::decimal_int(
                                rows,
                            ) + " row(s) x "@ + chars::decimal_int(cols) + " column(s)."@,
                        )
                    } else {
                        None
                    },
                )
            },
        },
    }
}

/// The block an `INSERT` draws and the size of its grid.
pub struct InsertPlan {
    pub block: usize,
    pub rows: i32,
    pub cols: i32,
}

/// The grid count for `code` (see `grid_count`).
fn grid_count_of(payload: &[Pair], code: i32) -> (r: i32)
    ensures
        r as int == grid_count(pairs_view(payload@), code),
        r >= 1,
{
    let n: i32 = match last_value_of(payload, code) {
        Some(v) => {
            let c = chars_of(v.as_str());
            match parse_i32(&c) {
                Some(n) => n,
                None => 1,
            }
        },
        None => 1,
    };
    if n < 1 {
        1
    } else {
        n
    }
}

/// What an `INSERT` does (see `insert_plan`): the block it draws and its
/// grid, or nothing when it is malformed; and the warning it gives, if any.
pub fn plan_insert(payload: &[Pair], blocks: &[BlockRecord]) -> (r: (Option<InsertPlan>, Option<String>))
    ensures
        ({
            let (plan, note) = insert_plan(pairs_view(payload@), block_names(blocks_view(blocks@)));
            &&& opt_view(r.1) == note
            &&& match r.0 {
                Some(p) => plan == Some((p.block as int, p.rows as int, p.cols as int)),
                None => plan is None,
            }
        }),
{
    let name = match last_value_of(payload, 2) {
        Some(n) => n,
        None => {
            return (None, Some(String::from_str("INSERT is missing block name (code 2).")));
        },
    };
    let block = match find_block(blocks, name.as_str()) {
        Some(b) => b,
        None => {
            let mut msg = String::from_str("Unknown block reference in INSERT: ");
            msg.append(name.as_str());
            return (None, Some(msg));
        },
    };
    let rows = grid_count_of(payload, 71);
    let cols = grid_count_of(payload, 70);
    let note = if rows > 1 || cols > 1 {
        let mut msg = String::from_str("INSERT array expanded for block ");
        msg.append(name.as_str());
        msg.append(": ");
        let mut digits: Vec<char> = Vec::new();
        push_decimal_i32(&mut digits, rows);
        push_chars(&mut msg, &digits);
        msg.append(" row(s) x ");
        let mut digits2: Vec<char> = Vec::new();
        push_decimal_i32(&mut digits2, cols);
        push_chars(&mut msg, &digits2);
        msg.append(" column(s).");
        Some(msg)
    } else {
        None
    };
    (Some(InsertPlan { block, rows, cols }), note)
}

/// The block name of a `DIMENSION`: its first group 2, when not empty.
pub open spec fn dimension_block_name(ps: Seq<PairV>) -> Option<Seq<char>> {
    match first_value(ps, 2) {
        Some(v) => if v.len() > 0 {
            Some(v)
        } else {
            None
        },
        None => None,
    }
}

/// What a `DIMENSION` with payload `ps` draws, given the names of the block
/// definitions and whether each holds any drawable entity: the block it
/// names when that block exists and holds something; otherwise its own
/// fallback geometry, with a warning when it named a block.
pub open spec fn dimension_plan(
    ps: Seq<PairV>,
    names: Seq<Option<Seq<char>>>,
    filled: Seq<bool>,
) -> (Option<int>, Option<Seq<char>>) {
    match dimension_block_name(ps) {
        Some(name) => match block_index(names, name) {
            Some(b) => if filled[b] {
                (Some(b), None)
            } else {
                (
                    None,
                    Some(
                        "DIMENSION block "@ + name
                            + " did not contain renderable entities; using fallback geometry."@,
                    ),
                )
            },
            None => (
                None,
                Some("Unknown block reference in DIMENSION: "@ + name + "; using fallback geometry."@),
            ),
        },
        None => (None, None),
    }
}

/// What a `DIMENSION` draws (see `dimension_plan`): the block to draw, if
/// any, and the warning it gives. `filled[b]` tells whether block `b` holds
/// a drawable entity.
pub fn plan_dimension(payload: &[Pair], blocks: &[BlockRecord], filled: &[bool]) -> (r: (
    Option<usize>,
    Option<String>,
))
    requires
        filled.len() == blocks.len(),
    ensures
        ({
            let (b, note) = dimension_plan(
                pairs_view(payload@),
                block_names(blocks_view(blocks@)),
                filled@,
            );
            &&& opt_view(r.1) == note
            &&& match r.0 {
                Some(k) => b == Some(k as int),
                None => b is None,
            }
        }),
{
    let name = match first_value_of(payload, 2) {
        Some(n) => n,
        None => {
            return (None, None);
        },
    };
    if name.as_str().is_empty() {
        return (None, None);
    }
    match find_block(blocks, name.as_str()) {
        Some(b) => {
            proof {
                lemma_block_index(block_names(blocks_view(blocks@)), name@);
            }
            if filled[b] {
                (Some(b), None)
            } else {
                let mut msg = String::from_str("DIMENSION block ");
                msg.append(name.as_str());
                msg.append(" did not contain renderable entities; using fallback geometry.");
                (None, Some(msg))
            }
        },
        None => {
            let mut msg = String::from_str("Unknown block reference in DIMENSION: ");
            msg.append(name.as_str());
            msg.append("; using fallback geometry.");
            (None, Some(msg))
        },
    }
}

/// The text a fallback `DIMENSION` shows: its first group 1, trimmed; when
/// that is missing, empty or `<>`, `None` (the measured length is shown);
/// otherwise its displayed form.
pub open spec fn dimension_label(ps: Seq<PairV>) -> Option<Seq<char>> {
    match first_value(ps, 1) {
        Some(v) => {
            let t = chars::trim(v);
            if t.len() == 0 || t == "<>"@ {
                None
            } else {
                Some(crate::text::normalized(t))
            }
        },
        None => None,
    }
}

/// The text a fallback `DIMENSION` shows (see `dimension_label`); `None`
/// means the measured length.
pub fn dimension_text(payload: &[Pair]) -> (r: Option<String>)
    ensures
        opt_view(r) == dimension_label(pairs_view(payload@)),
{
    match first_value_of(payload, 1) {
        Some(v) => {
            let c = chars_of(v.as_str());
            let t = trim_chars(&c);
            if t.len() == 0 || crate::scan::chars_equal(&t, "<>") {
                None
            } else {
                let n = normalize_chars(&t);
                Some(string_of(&n))
            }
        },
        None => None,
    }
}

/// A reference finds the last block definition with its name: a later
/// definition with the same name replaces an earlier one, and a name that
/// no definition has finds nothing.
pub proof fn lemma_block_index_is_last(names: Seq<Option<Seq<char>>>, name: Seq<char>)
    ensures
        match block_index(names, name) {
            Some(b) => 0 <= b < names.len() && names[b] == Some(name) && forall|j: int|
                b < j < names.len() ==> #[trigger] names[j] != Some(name),
            None => forall|j: int| 0 <= j < names.len() ==> #[trigger] names[j] != Some(name),
        },
    decreases names.len(),
{
    if names.len() > 0 {
        lemma_block_index_is_last(names.drop_last(), name);
        if names.last() != Some(name) {
            assert forall|j: int| 0 <= j < names.len() - 1 implies #[trigger] names[j] == names.drop_last()[j] by {}
        }
    }
}

} // verus!
