//! The warnings of a parse: what each entity record yields once its
//! geometry has been worked out, the tally of entity types that are not
//! drawn, the warnings of the block definitions, and the notice for a
//! drawing without entities.
use vstd::prelude::*;
use crate::chars::{self, push_chars, push_decimal, string_of};
use crate::scan::{BlockRecord, Record, chars_equal, records_view};
use crate::text::opt_view;

verus! {

/// What the geometry of one entity record came to: how many entities it
/// drew (`None` when the entity was malformed and drew nothing), whether a
/// boundary was drawn only in part (for `HATCH`), and a note to report
/// (for `INSERT` and `DIMENSION`).
pub struct Outcome {
    pub produced: Option<usize>,
    pub partial: bool,
    pub note: Option<String>,
}

/// The view of an outcome.
pub type OutcomeV = (Option<usize>, bool, Option<Seq<char>>);

impl View for Outcome {
    type V = OutcomeV;

    open spec fn view(&self) -> OutcomeV {
        (self.produced, self.partial, opt_view(self.note))
    }
}

/// The views of a sequence of outcomes.
pub open spec fn outcomes_view(os: Seq<Outcome>) -> Seq<OutcomeV> {
    os.map_values(|o: Outcome| o@)
}

/// The name that a warning about a malformed entity of type `kind` gives,
/// for the types drawn from the `ENTITIES` section; `None` for other types.
pub open spec fn entity_label(kind: Seq<char>) -> Option<Seq<char>> {
    if kind == "POINT"@ || kind == "LINE"@ || kind == "LWPOLYLINE"@ || kind == "CIRCLE"@ || kind
        == "ARC"@ || kind == "ELLIPSE"@ || kind == "SPLINE"@ || kind == "3DFACE"@ || kind
        == "SOLID"@ || kind == "TRACE"@ || kind == "HATCH"@ || kind == "INSERT"@ || kind
        == "DIMENSION"@ || kind == "XLINE"@ || kind == "RAY"@ || kind == "LEADER"@ || kind
        == "TEXT"@ || kind == "MTEXT"@ || kind == "ATTDEF"@ || kind == "ATTRIB"@ || kind
        == "POLYLINE"@ {
        Some(kind)
    } else if kind == "MULTILEADER"@ || kind == "MLEADER"@ {
        Some("MULTILEADER"@)
    } else {
        None
    }
}

/// The warning for a `HATCH` drawn with part of its boundary.
pub open spec fn partial_hatch_warning() -> Seq<char> {
    "HATCH entity contains unsupported boundary edges; rendered partial boundary."@
}

/// The warnings that one entity record of the `ENTITIES` section yields: a
/// malformed entity is reported as skipped; a `HATCH` drawn in part says
/// so; an `INSERT` or a `DIMENSION` first gives its note.
pub open spec fn record_warnings(kind: Seq<char>, o: OutcomeV) -> Seq<Seq<char>> {
    match entity_label(kind) {
        None => seq![],
        Some(label) => {
            let skipped = "Skipped malformed "@ + label + " entity."@;
            if kind == "HATCH"@ {
                if o.0 is Some {
                    if o.1 {
                        seq![partial_hatch_warning()]
                    } else {
                        seq![]
                    }
                } else {
                    seq![skipped]
                }
            } else {
                let note = if kind == "INSERT"@ || kind == "DIMENSION"@ {
                    match o.2 {
                        Some(n) => seq![n],
                        None => seq![],
                    }
                } else {
                    seq![]
                };
                note + if o.0 is None {
                    seq![skipped]
                } else {
                    seq![]
                }
            }
        },
    }
}

/// The warnings of the first `n` records, in order.
pub open spec fn records_warnings(
    rs: Seq<(Seq<char>, int, int)>,
    os: Seq<OutcomeV>,
    n: int,
) -> Seq<Seq<char>>
    decreases n,
{
    if n <= 0 {
        seq![]
    } else {
        records_warnings(rs, os, n - 1) + record_warnings(rs[n - 1].0, os[n - 1])
    }
}

/// The types of the first `n` records that are not drawn, in order.
pub open spec fn unsupported_kinds(rs: Seq<(Seq<char>, int, int)>, n: int) -> Seq<Seq<char>>
    decreases n,
{
    if n <= 0 {
        seq![]
    } else if entity_label(rs[n - 1].0) is None {
        unsupported_kinds(rs, n - 1).push(rs[n - 1].0)
    } else {
        unsupported_kinds(rs, n - 1)
    }
}

/// Whether some of the first `n` records drew at least one entity.
pub open spec fn any_drawn(rs: Seq<(Seq<char>, int, int)>, os: Seq<OutcomeV>, n: int) -> bool
    decreases n,
{
    if n <= 0 {
        false
    } else {
        any_drawn(rs, os, n - 1) || (entity_label(rs[n - 1].0) is Some && os[n - 1].0 is Some
            && os[n - 1].0->0 > 0)
    }
}

/// Text order: the order of `String`, character by character.
pub open spec fn text_less(a: Seq<char>, b: Seq<char>) -> bool
    decreases a.len(),
{
    if a.len() == 0 {
        b.len() > 0
    } else if b.len() == 0 {
        false
    } else if a[0] != b[0] {
        a[0] < b[0]
    } else {
        text_less(a.drop_first(), b.drop_first())
    }
}

/// `t` with one more occurrence of `k`: `t` is kept ordered by text order
/// with one entry for each text, as an ordered map of counts.
pub open spec fn tally_insert(t: Seq<(Seq<char>, nat)>, k: Seq<char>) -> Seq<(Seq<char>, nat)>
    decreases t.len(),
{
    if t.len() == 0 {
        seq![(k, 1nat)]
    } else if t[0].0 == k {
        seq![(k, t[0].1 + 1)] + t.drop_first()
    } else if text_less(k, t[0].0) {
        seq![(k, 1nat)] + t
    } else {
        seq![t[0]] + tally_insert(t.drop_first(), k)
    }
}

/// The tally of `ks`: each text once, in text order, with the number of
/// times it occurs.
pub open spec fn tally(ks: Seq<Seq<char>>) -> Seq<(Seq<char>, nat)>
    decreases ks.len(),
{
    if ks.len() == 0 {
        seq![]
    } else {
        tally_insert(tally(ks.drop_last()), ks.last())
    }
}

/// The warning line for an entity type that was not drawn.
pub open spec fn unsupported_line(e: (Seq<char>, nat)) -> Seq<char> {
    "Unsupported entity type "@ + e.0 + " encountered "@ + chars::decimal(e.1) + " time(s)."@
}

/// The notice for a drawing without entities.
pub open spec fn empty_notice() -> Seq<char> {
    "No renderable entities were found in ENTITIES section."@
}

/// All warnings of a parse: those of the entity records in order, one line
/// for each entity type that was not drawn (in text order), the warnings of
/// the block definitions, and the notice when nothing was drawn.
pub open spec fn all_warnings(
    rs: Seq<(Seq<char>, int, int)>,
    os: Seq<OutcomeV>,
    block_warnings: Seq<Seq<char>>,
) -> Seq<Seq<char>> {
    records_warnings(rs, os, rs.len() as int) + tally(unsupported_kinds(rs, rs.len() as int)).map_values(
        |e: (Seq<char>, nat)| unsupported_line(e),
    ) + block_warnings + if any_drawn(rs, os, rs.len() as int) {
        seq![]
    } else {
        seq![empty_notice()]
    }
}

/// How a record's type is reported.
enum LabelKind {
    /// Drawn, and named by its own type.
    Own,
    /// Drawn, and named `MULTILEADER`.
    MultiLeader,
    /// Not drawn.
    Unsupported,
}

/// How `kind` is reported (see `entity_label`).
fn entity_label_exec(kind: &[char]) -> (r: LabelKind)
    ensures
        match r {
            LabelKind::Own => entity_label(kind@) == Some(kind@),
            LabelKind::MultiLeader => entity_label(kind@) == Some("MULTILEADER"@),
            LabelKind::Unsupported => entity_label(kind@) is None,
        },
{
    if chars_equal(kind, "POINT") || chars_equal(kind, "LINE") || chars_equal(kind, "LWPOLYLINE")
        || chars_equal(kind, "CIRCLE") || chars_equal(kind, "ARC") || chars_equal(kind, "ELLIPSE")
        || chars_equal(kind, "SPLINE") || chars_equal(kind, "3DFACE") || chars_equal(kind, "SOLID")
        || chars_equal(kind, "TRACE") || chars_equal(kind, "HATCH") || chars_equal(kind, "INSERT")
        || chars_equal(kind, "DIMENSION") || chars_equal(kind, "XLINE") || chars_equal(kind, "RAY")
        || chars_equal(kind, "LEADER") || chars_equal(kind, "TEXT") || chars_equal(kind, "MTEXT")
        || chars_equal(kind, "ATTDEF") || chars_equal(kind, "ATTRIB") || chars_equal(kind, "POLYLINE") {
        LabelKind::Own
    } else if chars_equal(kind, "MULTILEADER") || chars_equal(kind, "MLEADER") {
        LabelKind::MultiLeader
    } else {
        LabelKind::Unsupported
    }
}

/// Whether `a` comes before `b` in text order (see `text_less`).
pub fn text_less_exec(a: &[char], b: &[char]) -> (r: bool)
    ensures
        r == text_less(a@, b@),
{
    let mut i: usize = 0;
    assert(a@.skip(0) =~= a@);
    assert(b@.skip(0) =~= b@);
    while i < a.len() && i < b.len() && a[i] == b[i]
        invariant
            i <= a.len(),
            i <= b.len(),
            text_less(a@, b@) == text_less(a@.skip(i as int), b@.skip(i as int)),
        decreases a.len() - i,
    {
        assert(a@.skip(i as int).drop_first() =~= a@.skip(i + 1));
        assert(b@.skip(i as int).drop_first() =~= b@.skip(i + 1));
        i += 1;
    }
    if i == a.len() {
        i < b.len()
    } else if i == b.len() {
        false
    } else {
        a[i] < b[i]
    }
}

/// The view of a tally kept as keys and counts side by side.
pub open spec fn tally_view(keys: Seq<Vec<char>>, counts: Seq<usize>) -> Seq<(Seq<char>, nat)> {
    Seq::new(keys.len(), |i: int| (keys[i]@, counts[i] as nat))
}

/// Adds one occurrence of `k` to the tally (see `tally_insert`).
fn tally_add(keys: &mut Vec<Vec<char>>, counts: &mut Vec<usize>, k: Vec<char>, bound: usize)
    requires
        old(keys).len() == old(counts).len(),
        bound >= 1,
        forall|q: int| 0 <= q < old(counts).len() ==> old(counts)@[q] < bound,
    ensures
        final(keys).len() == final(counts).len(),
        tally_view(final(keys)@, final(counts)@) == tally_insert(tally_view(old(keys)@, old(counts)@), k@),
        forall|q: int| 0 <= q < final(counts).len() ==> final(counts)@[q] <= bound,
{
    let ghost t = tally_view(keys@, counts@);
    let mut p: usize = 0;
    assert(t.skip(0) =~= t);
    assert(t.take(0) + tally_insert(t.skip(0), k@) =~= tally_insert(t, k@));
    while p < keys.len()
        invariant
            p <= keys.len() == counts.len(),
            keys@ == old(keys)@,
            counts@ == old(counts)@,
            bound >= 1,
            forall|q: int| 0 <= q < counts.len() ==> counts@[q] < bound,
            t == tally_view(keys@, counts@),
            tally_insert(t, k@) == t.take(p as int) + tally_insert(t.skip(p as int), k@),
        decreases keys.len() - p,
    {
        let ghost rest = t.skip(p as int);
        assert(rest[0] == t[p as int]);
        assert(rest.drop_first() =~= t.skip(p + 1));
        if crate::chars::same_chars(&keys[p], &k) {
            let c = counts[p];
            counts.set(p, c + 1);
            proof {
                assert(tally_view(keys@, counts@) =~= t.take(p as int) + (seq![(k@, t[p as int].1 + 1)]
                    + rest.drop_first()));
            }
            return;
        }
        if text_less_exec(&k, &keys[p]) {
            keys.insert(p, k);
            counts.insert(p, 1);
            proof {
                assert(tally_view(keys@, counts@) =~= t.take(p as int) + (seq![(k@, 1nat)] + rest));
            }
            return;
        }
        proof {
            assert(t.take(p + 1) =~= t.take(p as int).push(t[p as int]));
            assert(t.take(p as int) + (seq![t[p as int]] + tally_insert(rest.drop_first(), k@))
                =~= t.take(p + 1) + tally_insert(t.skip(p + 1), k@));
        }
        p += 1;
    }
    assert(t.skip(p as int) =~= Seq::<(Seq<char>, nat)>::empty());
    assert(t.take(p as int) =~= t);
    keys.push(k);
    counts.push(1);
    assert(tally_view(keys@, counts@) =~= t + seq![(k@, 1nat)]);
}

/// The views of a sequence of warnings.
pub open spec fn strings_view(ws: Seq<String>) -> Seq<Seq<char>> {
    ws.map_values(|w: String| w@)
}

/// Appends the warnings of one record (see `record_warnings`).
fn push_record_warnings(out: &mut Vec<String>, r: &Record, o: &Outcome)
    ensures
        strings_view(final(out)@) == strings_view(old(out)@) + record_warnings(r.kind@, o@),
{
    let kind = crate::chars::chars_of(r.kind.as_str());
    let ghost before = strings_view(out@);
    let label: &str = match entity_label_exec(&kind) {
        LabelKind::Unsupported => {
            assert(strings_view(out@) =~= before + record_warnings(r.kind@, o@));
            return;
        },
        LabelKind::Own => r.kind.as_str(),
        LabelKind::MultiLeader => "MULTILEADER",
    };
    let ghost lab = entity_label(r.kind@)->0;
    assert(label@ == lab);
    let mut skipped = String::from_str("Skipped malformed ");
    skipped.append(label);
    skipped.append(" entity.");
    if chars_equal(&kind, "HATCH") {
        if o.produced.is_some() {
            if o.partial {
                out.push(String::from_str(
                    "HATCH entity contains unsupported boundary edges; rendered partial boundary.",
                ));
            }
        } else {
            out.push(skipped);
        }
    } else {
        if chars_equal(&kind, "INSERT") || chars_equal(&kind, "DIMENSION") {
            match &o.note {
                Some(n) => {
                    out.push(n.clone());
                },
                None => {},
            }
        }
        if o.produced.is_none() {
            out.push(skipped);
        }
    }
    assert(strings_view(out@) =~= before + record_warnings(r.kind@, o@));
}

/// The warning line for one entry of the tally (see `unsupported_line`).
fn unsupported_line_exec(kind: &Vec<char>, count: usize) -> (r: String)
    ensures
        r@ == unsupported_line((kind@, count as nat)),
{
    let mut line = String::from_str("Unsupported entity type ");
    push_chars(&mut line, kind);
    line.append(" encountered ");
    let mut digits: Vec<char> = Vec::new();
    push_decimal(&mut digits, count as u64);
    push_chars(&mut line, &digits);
    line.append(" time(s).");
    line
}

/// All warnings of a parse (see `all_warnings`): `records` are the entity
/// records of the `ENTITIES` section and `outcomes[k]` what the geometry of
/// `records[k]` came to; `block_warnings` are the warnings of the block
/// definitions.
pub fn assemble_warnings(records: &[Record], outcomes: &[Outcome], block_warnings: Vec<String>) -> (r:
    Vec<String>)
    requires
        outcomes.len() == records.len(),
    ensures
        strings_view(r@) == all_warnings(
            records_view(records@),
            outcomes_view(outcomes@),
            strings_view(block_warnings@),
        ),
{
    let ghost rs = records_view(records@);
    let ghost os = outcomes_view(outcomes@);
    let mut out: Vec<String> = Vec::new();
    let mut keys: Vec<Vec<char>> = Vec::new();
    let mut counts: Vec<usize> = Vec::new();
    let mut drawn = false;
    let mut k: usize = 0;
    assert(strings_view(out@) =~= records_warnings(rs, os, 0));
    assert(tally_view(keys@, counts@) =~= tally(unsupported_kinds(rs, 0)));
    while k < records.len()
        invariant
            k <= records.len() == outcomes.len(),
            rs == records_view(records@),
            os == outcomes_view(outcomes@),
            keys.len() == counts.len(),
            forall|q: int| 0 <= q < counts.len() ==> counts@[q] <= k,
            strings_view(out@) == records_warnings(rs, os, k as int),
            tally_view(keys@, counts@) == tally(unsupported_kinds(rs, k as int)),
            drawn == any_drawn(rs, os, k as int),
        decreases records.len() - k,
    {
        let r = &records[k];
        let o = &outcomes[k];
        assert(rs[k as int] == r@);
        assert(os[k as int] == o@);
        push_record_warnings(&mut out, r, o);
        let kind = crate::chars::chars_of(r.kind.as_str());
        assert(kind@ == rs[k as int].0);
        let label = entity_label_exec(&kind);
        match label {
            LabelKind::Unsupported => {
                assert(unsupported_kinds(rs, k + 1) == unsupported_kinds(rs, k as int).push(kind@));
                assert(unsupported_kinds(rs, k as int).push(kind@).drop_last() =~= unsupported_kinds(
                    rs,
                    k as int,
                ));
                tally_add(&mut keys, &mut counts, kind, k + 1);
            },
            _ => {
                assert(unsupported_kinds(rs, k + 1) == unsupported_kinds(rs, k as int));
                match o.produced {
                    Some(n) => {
                        if n > 0 {
                            drawn = true;
                        }
                    },
                    None => {},
                }
            },
        }
        k += 1;
    }
    let ghost lines = tally(unsupported_kinds(rs, rs.len() as int)).map_values(
        |e: (Seq<char>, nat)| unsupported_line(e),
    );
    let mut q: usize = 0;
    let ghost head = strings_view(out@);
    while q < keys.len()
        invariant
            q <= keys.len() == counts.len(),
            k == records.len(),
            rs.len() == records.len(),
            tally_view(keys@, counts@) == tally(unsupported_kinds(rs, rs.len() as int)),
            lines == tally(unsupported_kinds(rs, rs.len() as int)).map_values(
                |e: (Seq<char>, nat)| unsupported_line(e),
            ),
            strings_view(out@) == head + lines.take(q as int),
        decreases keys.len() - q,
    {
        let line = unsupported_line_exec(&keys[q], counts[q]);
        assert(tally_view(keys@, counts@)[q as int] == (keys@[q as int]@, counts@[q as int] as nat));
        assert(lines[q as int] == unsupported_line((keys@[q as int]@, counts@[q as int] as nat)));
        let ghost before = out@;
        let ghost lv = line@;
        out.push(line);
        assert(strings_view(out@) =~= strings_view(before).push(lv));
        assert(lines.take(q + 1) =~= lines.take(q as int).push(lines[q as int]));
        assert(strings_view(out@) =~= head + lines.take(q + 1));
        q += 1;
    }
    assert(lines.take(q as int) =~= lines);
    let ghost mid = strings_view(out@);
    let mut bw = block_warnings;
    let ghost bws = strings_view(bw@);
    out.append(&mut bw);
    assert(strings_view(out@) =~= mid + bws);
    if !drawn {
        out.push(String::from_str("No renderable entities were found in ENTITIES section."));
    }
    assert(strings_view(out@) =~= all_warnings(rs, os, bws));
    out
}

/// Whether a block body draws entities of type `kind`.
pub open spec fn drawn_in_block(kind: Seq<char>) -> bool {
    kind == "POINT"@ || kind == "LINE"@ || kind == "LWPOLYLINE"@ || kind == "CIRCLE"@ || kind
        == "ARC"@ || kind == "ELLIPSE"@ || kind == "SPLINE"@ || kind == "3DFACE"@ || kind
        == "SOLID"@ || kind == "TRACE"@ || kind == "HATCH"@ || kind == "TEXT"@ || kind == "MTEXT"@
        || kind == "ATTDEF"@ || kind == "ATTRIB"@ || kind == "XLINE"@ || kind == "RAY"@ || kind
        == "LEADER"@ || kind == "MULTILEADER"@ || kind == "MLEADER"@ || kind == "POLYLINE"@
}

/// How warnings name a block.
pub open spec fn block_label(name: Option<Seq<char>>) -> Seq<char> {
    match name {
        Some(n) => n,
        None => "<unnamed>"@,
    }
}

/// The warnings that one record of a block body yields: a `HATCH` drawn in
/// part, or a nested `INSERT`, which is not expanded.
pub open spec fn block_record_warnings(name: Option<Seq<char>>, kind: Seq<char>, o: OutcomeV) -> Seq<
    Seq<char>,
> {
    if kind == "HATCH"@ && o.0 is Some && o.1 {
        seq!["BLOCK "@ + block_label(name) + " contains partial HATCH boundary rendering."@]
    } else if kind == "INSERT"@ {
        seq!["Nested INSERT in BLOCK "@ + block_label(name) + " is not expanded."@]
    } else {
        seq![]
    }
}

/// The warnings of the first `n` records of a block body.
pub open spec fn block_records_warnings(
    name: Option<Seq<char>>,
    rs: Seq<(Seq<char>, int, int)>,
    os: Seq<OutcomeV>,
    n: int,
) -> Seq<Seq<char>>
    decreases n,
{
    if n <= 0 {
        seq![]
    } else {
        block_records_warnings(name, rs, os, n - 1) + block_record_warnings(name, rs[n - 1].0, os[n - 1])
    }
}

/// The warnings of one block definition: those of its records, then one for
/// a block without a name.
pub open spec fn block_warnings_of(b: crate::scan::BlockV, os: Seq<OutcomeV>) -> Seq<Seq<char>> {
    block_records_warnings(b.0, b.3, os, b.3.len() as int) + if b.0 is None {
        seq!["Encountered BLOCK without a valid name."@]
    } else {
        seq![]
    }
}

/// The warnings of the first `n` block definitions.
pub open spec fn blocks_warnings(bs: Seq<crate::scan::BlockV>, oss: Seq<Seq<OutcomeV>>, n: int) -> Seq<
    Seq<char>,
>
    decreases n,
{
    if n <= 0 {
        seq![]
    } else {
        blocks_warnings(bs, oss, n - 1) + block_warnings_of(bs[n - 1], oss[n - 1])
    }
}

/// Whether one of the first `n` records of a block body drew an entity.
pub open spec fn block_drawn(rs: Seq<(Seq<char>, int, int)>, os: Seq<OutcomeV>, n: int) -> bool
    decreases n,
{
    if n <= 0 {
        false
    } else {
        block_drawn(rs, os, n - 1) || (drawn_in_block(rs[n - 1].0) && os[n - 1].0 is Some && os[n
            - 1].0->0 > 0)
    }
}

fn drawn_in_block_exec(kind: &[char]) -> (r: bool)
    ensures
        r == drawn_in_block(kind@),
{
    chars_equal(kind, "POINT") || chars_equal(kind, "LINE") || chars_equal(kind, "LWPOLYLINE")
        || chars_equal(kind, "CIRCLE") || chars_equal(kind, "ARC") || chars_equal(kind, "ELLIPSE")
        || chars_equal(kind, "SPLINE") || chars_equal(kind, "3DFACE") || chars_equal(kind, "SOLID")
        || chars_equal(kind, "TRACE") || chars_equal(kind, "HATCH") || chars_equal(kind, "TEXT")
        || chars_equal(kind, "MTEXT") || chars_equal(kind, "ATTDEF") || chars_equal(kind, "ATTRIB")
        || chars_equal(kind, "XLINE") || chars_equal(kind, "RAY") || chars_equal(kind, "LEADER")
        || chars_equal(kind, "MULTILEADER") || chars_equal(kind, "MLEADER") || chars_equal(kind, "POLYLINE")
}

/// The warnings of the block definitions (see `blocks_warnings`) and, for
/// each block, whether it draws any entity; `outcomes[b][k]` is what the
/// geometry of record `k` of block `b` came to.
pub fn block_report(blocks: &[BlockRecord], outcomes: &[Vec<Outcome>]) -> (r: (Vec<String>, Vec<bool>))
    requires
        outcomes.len() == blocks.len(),
        forall|b: int| 0 <= b < blocks.len() ==> (#[trigger] outcomes@[b]).len() == blocks@[b].records.len(),
    ensures
        strings_view(r.0@) == blocks_warnings(
            crate::scan::blocks_view(blocks@),
            outcomes@.map_values(|v: Vec<Outcome>| outcomes_view(v@)),
            blocks.len() as int,
        ),
        r.1.len() == blocks.len(),
        forall|b: int|
            0 <= b < blocks.len() ==> r.1@[b] == block_drawn(
                records_view(blocks@[b].records@),
                outcomes_view(outcomes@[b]@),
                blocks@[b].records.len() as int,
            ),
{
    let ghost bs = crate::scan::blocks_view(blocks@);
    let ghost oss = outcomes@.map_values(|v: Vec<Outcome>| outcomes_view(v@));
    let mut warnings: Vec<String> = Vec::new();
    let mut filled: Vec<bool> = Vec::new();
    let mut b: usize = 0;
    assert(strings_view(warnings@) =~= blocks_warnings(bs, oss, 0));
    while b < blocks.len()
        invariant
            b <= blocks.len() == outcomes.len(),
            bs == crate::scan::blocks_view(blocks@),
            oss == outcomes@.map_values(|v: Vec<Outcome>| outcomes_view(v@)),
            forall|q: int| 0 <= q < blocks.len() ==> (#[trigger] outcomes@[q]).len() == blocks@[q].records.len(),
            strings_view(warnings@) == blocks_warnings(bs, oss, b as int),
            filled.len() == b,
            forall|q: int|
                0 <= q < b ==> filled@[q] == block_drawn(
                    records_view(blocks@[q].records@),
                    outcomes_view(outcomes@[q]@),
                    blocks@[q].records.len() as int,
                ),
        decreases blocks.len() - b,
    {
        let block = &blocks[b];
        let outs = &outcomes[b];
        let ghost name = opt_view(block.name);
        let ghost rs = records_view(block.records@);
        let ghost os = outcomes_view(outs@);
        let ghost head = strings_view(warnings@);
        assert(bs[b as int] == block@);
        assert(oss[b as int] == os);
        let mut drawn = false;
        let mut k: usize = 0;
        assert(head + block_records_warnings(name, rs, os, 0) =~= head);
        while k < block.records.len()
            invariant
                k <= block.records.len() == outs.len(),
                name == opt_view(block.name),
                rs == records_view(block.records@),
                os == outcomes_view(outs@),
                strings_view(warnings@) == head + block_records_warnings(name, rs, os, k as int),
                drawn == block_drawn(rs, os, k as int),
            decreases block.records.len() - k,
        {
            let r = &block.records[k];
            let o = &outs[k];
            assert(rs[k as int] == r@);
            assert(os[k as int] == o@);
            let kind = crate::chars::chars_of(r.kind.as_str());
            let ghost before = strings_view(warnings@);
            if chars_equal(&kind, "HATCH") && o.produced.is_some() && o.partial {
                let mut w = String::from_str("BLOCK ");
                match &block.name {
                    Some(n) => w.append(n.as_str()),
                    None => w.append("<unnamed>"),
                }
                w.append(" contains partial HATCH boundary rendering.");
                warnings.push(w);
            } else if chars_equal(&kind, "INSERT") {
                let mut w = String::from_str("Nested INSERT in BLOCK ");
                match &block.name {
                    Some(n) => w.append(n.as_str()),
                    None => w.append("<unnamed>"),
                }
                w.append(" is not expanded.");
                warnings.push(w);
            }
            assert(strings_view(warnings@) =~= before + block_record_warnings(name, rs[k as int].0, os[k as int]));
            if drawn_in_block_exec(&kind) {
                match o.produced {
                    Some(n) => {
                        if n > 0 {
                            drawn = true;
                        }
                    },
                    None => {},
                }
            }
            k += 1;
        }
        let ghost mid = strings_view(warnings@);
        assert(bs[b as int].3 == rs);
        assert(bs[b as int].0 == name);
        assert(rs.len() == k);
        if block.name.is_none() {
            warnings.push(String::from_str("Encountered BLOCK without a valid name."));
            assert(strings_view(warnings@) =~= mid + seq!["Encountered BLOCK without a valid name."@]);
        } else {
            assert(strings_view(warnings@) =~= mid + Seq::<Seq<char>>::empty());
        }
        assert(strings_view(warnings@) =~= head + block_warnings_of(bs[b as int], oss[b as int]));
        filled.push(drawn);
        b += 1;
    }
    (warnings, filled)
}

/// The number of times `k` occurs in `ks`.
pub open spec fn occurrences(ks: Seq<Seq<char>>, k: Seq<char>) -> nat
    decreases ks.len(),
{
    if ks.len() == 0 {
        0
    } else {
        occurrences(ks.drop_last(), k) + if ks.last() == k {
            1nat
        } else {
            0nat
        }
    }
}

/// The count that the entries of `t` give to `k`, summed.
pub open spec fn tally_count(t: Seq<(Seq<char>, nat)>, k: Seq<char>) -> nat
    decreases t.len(),
{
    if t.len() == 0 {
        0
    } else {
        (if t[0].0 == k {
            t[0].1
        } else {
            0nat
        }) + tally_count(t.drop_first(), k)
    }
}

/// Whether the texts of `t` ascend strictly in text order (so that no text
/// occurs twice) and every count is positive.
pub open spec fn tally_ordered(t: Seq<(Seq<char>, nat)>) -> bool {
    &&& forall|i: int, j: int| 0 <= i < j < t.len() ==> text_less(#[trigger] t[i].0, #[trigger] t[j].0)
    &&& forall|i: int| 0 <= i < t.len() ==> (#[trigger] t[i]).1 > 0
}

proof fn lemma_text_less_irreflexive(a: Seq<char>)
    ensures
        !text_less(a, a),
    decreases a.len(),
{
    if a.len() > 0 {
        lemma_text_less_irreflexive(a.drop_first());
    }
}

proof fn lemma_text_less_transitive(a: Seq<char>, b: Seq<char>, c: Seq<char>)
    requires
        text_less(a, b),
        text_less(b, c),
    ensures
        text_less(a, c),
    decreases a.len(),
{
    if a.len() > 0 && b.len() > 0 && c.len() > 0 && a[0] == b[0] && b[0] == c[0] {
        lemma_text_less_transitive(a.drop_first(), b.drop_first(), c.drop_first());
    }
}

proof fn lemma_text_less_total(a: Seq<char>, b: Seq<char>)
    requires
        a != b,
    ensures
        text_less(a, b) || text_less(b, a),
    decreases a.len(),
{
    if a.len() > 0 && b.len() > 0 && a[0] == b[0] {
        if a.drop_first() == b.drop_first() {
            assert(a =~= seq![a[0]] + a.drop_first());
            assert(b =~= seq![b[0]] + b.drop_first());
        }
        lemma_text_less_total(a.drop_first(), b.drop_first());
    } else if a.len() == 0 && b.len() == 0 {
        assert(a =~= b);
    }
}

proof fn lemma_tally_insert(t: Seq<(Seq<char>, nat)>, k: Seq<char>)
    requires
        tally_ordered(t),
    ensures
        tally_ordered(tally_insert(t, k)),
        forall|x: Seq<char>|
            #[trigger] tally_count(tally_insert(t, k), x) == tally_count(t, x) + if x == k {
                1nat
            } else {
                0nat
            },
        forall|i: int|
            0 <= i < tally_insert(t, k).len() ==> (#[trigger] tally_insert(t, k)[i]).0 == k || exists|
                j: int,
            |
                0 <= j < t.len() && #[trigger] t[j].0 == tally_insert(t, k)[i].0,
    decreases t.len(),
{
    let ins = tally_insert(t, k);
    if t.len() == 0 {
        assert forall|x: Seq<char>| #[trigger] tally_count(ins, x) == tally_count(t, x) + if x == k {
            1nat
        } else {
            0nat
        } by {
            assert(ins == seq![(k, 1nat)]);
            assert(ins.len() == 1);
            assert(ins[0] == (k, 1nat));
            assert(ins.drop_first() =~= Seq::<(Seq<char>, nat)>::empty());
            assert(tally_count(ins.drop_first(), x) == 0);
            assert(tally_count(t, x) == 0);
        }
    } else if t[0].0 == k {
        assert(ins.drop_first() =~= t.drop_first());
        assert forall|x: Seq<char>| #[trigger] tally_count(ins, x) == tally_count(t, x) + if x == k {
            1nat
        } else {
            0nat
        } by {
            assert(ins[0] == (k, t[0].1 + 1));
        }
        assert forall|i: int, j: int| 0 <= i < j < ins.len() implies text_less(
            #[trigger] ins[i].0,
            #[trigger] ins[j].0,
        ) by {
            assert(ins[i].0 == t[i].0);
            assert(ins[j].0 == t[j].0);
        }
        assert forall|i: int| 0 <= i < ins.len() implies (#[trigger] ins[i]).0 == k || exists|j: int|
            0 <= j < t.len() && #[trigger] t[j].0 == ins[i].0 by {
            assert(t[i].0 == ins[i].0);
        }
    } else if text_less(k, t[0].0) {
        assert(ins.drop_first() =~= t);
        assert forall|x: Seq<char>| #[trigger] tally_count(ins, x) == tally_count(t, x) + if x == k {
            1nat
        } else {
            0nat
        } by {
            assert(ins[0] == (k, 1nat));
        }
        assert forall|i: int, j: int| 0 <= i < j < ins.len() implies text_less(
            #[trigger] ins[i].0,
            #[trigger] ins[j].0,
        ) by {
            if i == 0 {
                if j > 1 {
                    lemma_text_less_transitive(k, t[0].0, t[j - 1].0);
                }
            } else {
                assert(ins[i] == t[i - 1]);
                assert(ins[j] == t[j - 1]);
            }
        }
        assert forall|i: int| 0 <= i < ins.len() implies (#[trigger] ins[i]).0 == k || exists|j: int|
            0 <= j < t.len() && #[trigger] t[j].0 == ins[i].0 by {
            if i > 0 {
                assert(t[i - 1].0 == ins[i].0);
            }
        }
    } else {
        let rest = t.drop_first();
        lemma_text_less_total(k, t[0].0);
        assert(tally_ordered(rest)) by {
            assert forall|i: int, j: int| 0 <= i < j < rest.len() implies text_less(
                #[trigger] rest[i].0,
                #[trigger] rest[j].0,
            ) by {
                assert(rest[i] == t[i + 1]);
                assert(rest[j] == t[j + 1]);
            }
        }
        lemma_tally_insert(rest, k);
        let sub = tally_insert(rest, k);
        assert(ins.drop_first() =~= sub);
        assert(ins[0] == t[0]);
        assert forall|x: Seq<char>| #[trigger] tally_count(ins, x) == tally_count(t, x) + if x == k {
            1nat
        } else {
            0nat
        } by {
            assert(tally_count(sub, x) == tally_count(rest, x) + if x == k {
                1nat
            } else {
                0nat
            });
        }
        assert forall|i: int, j: int| 0 <= i < j < ins.len() implies text_less(
            #[trigger] ins[i].0,
            #[trigger] ins[j].0,
        ) by {
            assert(ins[j] == sub[j - 1]);
            if i == 0 {
                if sub[j - 1].0 != k {
                    let q = choose|q: int| 0 <= q < rest.len() && #[trigger] rest[q].0 == sub[j - 1].0;
                    assert(rest[q] == t[q + 1]);
                }
            } else {
                assert(ins[i] == sub[i - 1]);
            }
        }
        assert forall|i: int| 0 <= i < ins.len() implies (#[trigger] ins[i]).0 == k || exists|j: int|
            0 <= j < t.len() && #[trigger] t[j].0 == ins[i].0 by {
            if i == 0 {
                assert(t[0].0 == ins[0].0);
            } else {
                assert(ins[i] == sub[i - 1]);
                if sub[i - 1].0 != k {
                    let q = choose|q: int| 0 <= q < rest.len() && #[trigger] rest[q].0 == sub[i - 1].0;
                    assert(t[q + 1].0 == ins[i].0);
                }
            }
        }
    }
}

/// The tally of the entity types that are not drawn holds each type once,
/// in text order (the order of `String`), with the number of times the type
/// occurs.
pub proof fn lemma_tally_is_ordered_count(ks: Seq<Seq<char>>)
    ensures
        tally_ordered(tally(ks)),
        forall|k: Seq<char>| #[trigger] tally_count(tally(ks), k) == occurrences(ks, k),
    decreases ks.len(),
{
    if ks.len() > 0 {
        lemma_tally_is_ordered_count(ks.drop_last());
        lemma_tally_insert(tally(ks.drop_last()), ks.last());
    }
}

proof fn lemma_clean_records(rs: Seq<(Seq<char>, int, int)>, os: Seq<OutcomeV>, n: int)
    requires
        0 <= n <= rs.len(),
        n <= os.len(),
        forall|k: int|
            0 <= k < n ==> entity_label((#[trigger] rs[k]).0) is Some && os[k].0 is Some && !os[k].1
                && os[k].2 is None,
    ensures
        records_warnings(rs, os, n) == Seq::<Seq<char>>::empty(),
        unsupported_kinds(rs, n) == Seq::<Seq<char>>::empty(),
    decreases n,
{
    if n > 0 {
        lemma_clean_records(rs, os, n - 1);
        assert(entity_label(rs[n - 1].0) is Some);
        assert(record_warnings(rs[n - 1].0, os[n - 1]) =~= Seq::<Seq<char>>::empty());
        assert(records_warnings(rs, os, n) =~= Seq::<Seq<char>>::empty());
    }
}

/// A parse whose every entity is of a drawn type and drew without a note
/// or a partial boundary, and that drew something, reports only the
/// warnings of its block definitions.
pub proof fn lemma_clean_parse_reports_only_block_warnings(
    rs: Seq<(Seq<char>, int, int)>,
    os: Seq<OutcomeV>,
    block_warnings: Seq<Seq<char>>,
)
    requires
        os.len() == rs.len(),
        forall|k: int|
            0 <= k < rs.len() ==> entity_label((#[trigger] rs[k]).0) is Some && os[k].0 is Some
                && !os[k].1 && os[k].2 is None,
        any_drawn(rs, os, rs.len() as int),
    ensures
        all_warnings(rs, os, block_warnings) == block_warnings,
{
    lemma_clean_records(rs, os, rs.len() as int);
    assert(tally(Seq::<Seq<char>>::empty()) =~= Seq::<(Seq<char>, nat)>::empty());
    assert(all_warnings(rs, os, block_warnings) =~= block_warnings);
}

/// A drawing without entity records and without block warnings reports one
/// warning: that nothing was found to draw.
pub proof fn lemma_no_records_reports_empty_notice(os: Seq<OutcomeV>)
    ensures
        all_warnings(Seq::empty(), os, Seq::empty()) == seq![empty_notice()],
{
    let rs = Seq::<(Seq<char>, int, int)>::empty();
    assert(records_warnings(rs, os, 0) =~= Seq::<Seq<char>>::empty());
    assert(unsupported_kinds(rs, 0) =~= Seq::<Seq<char>>::empty());
    assert(tally(Seq::<Seq<char>>::empty()) =~= Seq::<(Seq<char>, nat)>::empty());
    assert(!any_drawn(rs, os, 0));
    assert(all_warnings(rs, os, Seq::empty()) =~= seq![empty_notice()]);
}

/// The types that the warnings treat as drawn are the types the reader
/// draws: a marker has a warning label exactly when it names a known entity
/// type.
pub proof fn lemma_labels_follow_entity_types(kind: Seq<char>)
    ensures
        entity_label(kind) is Some <==> crate::scan::entity_type_of(kind)
            != crate::scan::EntityType::Other,
{
}

} // verus!
