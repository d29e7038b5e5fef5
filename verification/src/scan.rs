//! The section structure of a DXF file: which pairs open an entity, where
//! each entity's payload ends, the parts of a `POLYLINE` sequence, and the
//! block definitions of the `BLOCKS` section.
use vstd::prelude::*;
use crate::chars::{self, chars_of, eq_ignore_case_exec, parse_i32, string_of, upper_chars};
use crate::pairs::{Pair, pairs_view};

verus! {

/// The view of a pair: its group code and its value.
pub type PairV = (i32, Seq<char>);

/// The first index from `j` on whose pair has group code 0 (an entity
/// marker), or the number of pairs when there is none.
pub open spec fn marker_end(ps: Seq<PairV>, j: int) -> int
    decreases ps.len() - j,
{
    if j < 0 || j >= ps.len() {
        if j < 0 { 0 } else { ps.len() as int }
    } else if ps[j].0 == 0 {
        j
    } else {
        marker_end(ps, j + 1)
    }
}

pub proof fn lemma_marker_end_bounds(ps: Seq<PairV>, j: int)
    requires
        0 <= j <= ps.len(),
    ensures
        j <= marker_end(ps, j) <= ps.len(),
        marker_end(ps, j) < ps.len() ==> ps[marker_end(ps, j)].0 == 0,
        forall|k: int| j <= k < marker_end(ps, j) ==> ps[k].0 != 0,
    decreases ps.len() - j,
{
    if j < ps.len() && ps[j].0 != 0 {
        lemma_marker_end_bounds(ps, j + 1);
    }
}

/// Whether pair `i` is a group code 0 whose value is `word`, ignoring case.
pub open spec fn is_marker(ps: Seq<PairV>, i: int, word: Seq<char>) -> bool {
    0 <= i < ps.len() && ps[i].0 == 0 && chars::eq_ignore_case(ps[i].1, word)
}

/// Whether pairs `i` and `i + 1` open the section `name`: `0/SECTION`
/// followed by `2/<name>`, both ignoring case.
pub open spec fn opens_section(ps: Seq<PairV>, i: int, name: Seq<char>) -> bool {
    &&& is_marker(ps, i, "SECTION"@)
    &&& i + 1 < ps.len()
    &&& ps[i + 1].0 == 2
    &&& chars::eq_ignore_case(ps[i + 1].1, name)
}

/// The value of the last pair of `ps` with group code `code`.
pub open spec fn last_value(ps: Seq<PairV>, code: i32) -> Option<Seq<char>>
    decreases ps.len(),
{
    if ps.len() == 0 {
        None
    } else if ps.last().0 == code {
        Some(ps.last().1)
    } else {
        last_value(ps.drop_last(), code)
    }
}

/// The `i32` read from the last pair of `ps` with group code `code` whose
/// value reads as an `i32`.
pub open spec fn last_flag(ps: Seq<PairV>, code: i32) -> Option<int>
    decreases ps.len(),
{
    if ps.len() == 0 {
        None
    } else if ps.last().0 == code && chars::i32_value(ps.last().1) is Some {
        chars::i32_value(ps.last().1)
    } else {
        last_flag(ps.drop_last(), code)
    }
}

/// `last_flag`, or 0 when there is none.
pub open spec fn flag_or_zero(ps: Seq<PairV>, code: i32) -> i32 {
    match last_flag(ps, code) {
        Some(f) => f as i32,
        None => 0,
    }
}

/// A polyline is closed when bit 1 or bit 32 of its flags is set.
pub open spec fn polyline_closed(flags: i32) -> bool {
    (flags & 1) == 1 || (flags & 32) == 32
}

/// A vertex is a face record of a polyface mesh (no drawable point) when the
/// polyline's flags have bit 64 and the vertex's flags bit 128.
pub open spec fn is_face_record(header_flags: i32, vertex_flags: i32) -> bool {
    (header_flags & 64) == 64 && (vertex_flags & 128) == 128
}

/// The `VERTEX` records that follow a polyline header from index `c`: the
/// payload range of each, whether a `SEQEND` closed the run, and the index
/// after the run.
pub open spec fn vertex_walk(ps: Seq<PairV>, c: int) -> (Seq<(int, int)>, bool, int)
    decreases ps.len() - c,
{
    if c < 0 || c >= ps.len() || ps[c].0 != 0 {
        (seq![], false, c)
    } else if chars::upper(ps[c].1) == "VERTEX"@ {
        let e = marker_end(ps, c + 1);
        proof {
            lemma_marker_end_bounds(ps, c + 1);
        }
        let (vs, saw, next) = vertex_walk(ps, e);
        (seq![(c + 1, e)] + vs, saw, next)
    } else if chars::upper(ps[c].1) == "SEQEND"@ {
        (seq![], true, c + 1)
    } else {
        (seq![], false, c)
    }
}

pub proof fn lemma_vertex_walk_bounds(ps: Seq<PairV>, c: int)
    requires
        0 <= c <= ps.len(),
    ensures
        c <= vertex_walk(ps, c).2 <= ps.len(),
        forall|k: int|
            0 <= k < vertex_walk(ps, c).0.len() ==> c < (#[trigger] vertex_walk(ps, c).0[k]).0
                <= vertex_walk(ps, c).0[k].1 <= ps.len(),
    decreases ps.len() - c,
{
    if c < ps.len() && ps[c].0 == 0 && chars::upper(ps[c].1) == "VERTEX"@ {
        lemma_marker_end_bounds(ps, c + 1);
        let e = marker_end(ps, c + 1);
        lemma_vertex_walk_bounds(ps, e);
        let (vs, saw, next) = vertex_walk(ps, e);
        assert forall|k: int|
            0 <= k < vertex_walk(ps, c).0.len() implies c < (#[trigger] vertex_walk(
            ps,
            c,
        ).0[k]).0 <= vertex_walk(ps, c).0[k].1 <= ps.len() by {
            if k > 0 {
                assert(vertex_walk(ps, c).0[k] == vs[k - 1]);
            }
        }
    }
}

/// The index where the header of the polyline at `i` ends.
pub open spec fn polyline_header_end(ps: Seq<PairV>, i: int) -> int {
    marker_end(ps, i + 1)
}

/// The flags of the polyline at `i`: its last group 70 that reads as an `i32`.
pub open spec fn polyline_flags(ps: Seq<PairV>, i: int) -> i32 {
    flag_or_zero(ps.subrange(i + 1, polyline_header_end(ps, i)), 70)
}

/// The index after the polyline sequence that starts at `i`.
pub open spec fn polyline_next(ps: Seq<PairV>, i: int) -> int {
    vertex_walk(ps, polyline_header_end(ps, i)).2
}

pub proof fn lemma_polyline_next_bounds(ps: Seq<PairV>, i: int)
    requires
        0 <= i < ps.len(),
    ensures
        i < polyline_next(ps, i) <= ps.len(),
        i < polyline_header_end(ps, i) <= polyline_next(ps, i),
{
    lemma_marker_end_bounds(ps, i + 1);
    lemma_vertex_walk_bounds(ps, polyline_header_end(ps, i));
}

/// The entity records of the `ENTITIES` sections, reading from pair `i` on
/// with `inside` telling whether an `ENTITIES` section is open: each record
/// is the upper-cased marker, the marker's index and the index where the
/// entity ends (for `POLYLINE`, after its vertex sequence).
pub open spec fn entity_records(ps: Seq<PairV>, i: int, inside: bool) -> Seq<(Seq<char>, int, int)>
    decreases ps.len() - i,
{
    if i < 0 || i >= ps.len() {
        seq![]
    } else if opens_section(ps, i, "ENTITIES"@) {
        entity_records(ps, i + 2, true)
    } else if is_marker(ps, i, "ENDSEC"@) {
        entity_records(ps, i + 1, false)
    } else if inside && ps[i].0 == 0 {
        let kind = chars::upper(ps[i].1);
        let end = if kind == "POLYLINE"@ {
            polyline_next(ps, i)
        } else {
            marker_end(ps, i + 1)
        };
        proof {
            lemma_polyline_next_bounds(ps, i);
            lemma_marker_end_bounds(ps, i + 1);
        }
        seq![(kind, i, end)] + entity_records(ps, end, true)
    } else {
        entity_records(ps, i + 1, inside)
    }
}

/// One entity of the `ENTITIES` section: its upper-cased marker, the index
/// of the marker pair and the index where the entity ends; its payload is
/// the pairs from `start + 1` up to `end`.
pub struct Record {
    pub kind: String,
    pub start: usize,
    pub end: usize,
}

impl View for Record {
    type V = (Seq<char>, int, int);

    open spec fn view(&self) -> (Seq<char>, int, int) {
        (self.kind@, self.start as int, self.end as int)
    }
}

/// The views of a sequence of records.
pub open spec fn records_view(rs: Seq<Record>) -> Seq<(Seq<char>, int, int)> {
    rs.map_values(|r: Record| r@)
}

/// The index of the first entity marker from `j` on (see `marker_end`).
pub fn find_marker(pairs: &[Pair], j: usize) -> (r: usize)
    requires
        j <= pairs.len(),
    ensures
        r == marker_end(pairs_view(pairs@), j as int),
{
    let ghost ps = pairs_view(pairs@);
    let mut k = j;
    while k < pairs.len() && pairs[k].code != 0
        invariant
            j <= k <= pairs.len(),
            ps == pairs_view(pairs@),
            marker_end(ps, j as int) == marker_end(ps, k as int),
        decreases pairs.len() - k,
    {
        assert(ps[k as int].0 == pairs@[k as int].code);
        k += 1;
    }
    proof {
        if k < pairs.len() {
            assert(ps[k as int].0 == pairs@[k as int].code);
        }
    }
    k
}

/// Whether the value of `p` is `word`, ignoring ASCII case.
pub fn value_is(p: &Pair, word: &str) -> (r: bool)
    ensures
        r == chars::eq_ignore_case(p.value@, word@),
{
    let v = chars_of(p.value.as_str());
    let w = chars_of(word);
    eq_ignore_case_exec(&v, &w)
}

/// Whether `v` holds exactly the characters of `word`.
pub fn chars_equal(v: &[char], word: &str) -> (r: bool)
    ensures
        r == (v@ == word@),
{
    let w = chars_of(word);
    if v.len() != w.len() {
        return false;
    }
    let mut i: usize = 0;
    while i < v.len()
        invariant
            i <= v.len() == w.len(),
            w@ == word@,
            forall|k: int| 0 <= k < i ==> v@[k] == w@[k],
        decreases v.len() - i,
    {
        if v[i] != w[i] {
            return false;
        }
        i += 1;
    }
    assert(v@ =~= w@);
    true
}

/// Whether pairs `i` and `i + 1` open the section `name`.
pub fn section_opens(pairs: &[Pair], i: usize, name: &str) -> (r: bool)
    requires
        i < pairs.len(),
    ensures
        r == opens_section(pairs_view(pairs@), i as int, name@),
{
    let ghost ps = pairs_view(pairs@);
    assert(ps[i as int] == pairs@[i as int]@);
    if pairs[i].code == 0 && value_is(&pairs[i], "SECTION") && i + 1 < pairs.len() {
        assert(ps[i + 1] == pairs@[i + 1]@);
        pairs[i + 1].code == 2 && value_is(&pairs[i + 1], name)
    } else {
        false
    }
}

/// The upper-cased value of `p`.
pub fn kind_of(p: &Pair) -> (r: Vec<char>)
    ensures
        r@ == chars::upper(p.value@),
{
    let v = chars_of(p.value.as_str());
    upper_chars(&v)
}

/// The value of the last pair with group code `code` among `pairs[a..b]`.
pub fn last_value_in(pairs: &[Pair], a: usize, b: usize, code: i32) -> (r: Option<String>)
    requires
        a <= b <= pairs.len(),
    ensures
        crate::text::opt_view(r) == last_value(pairs_view(pairs@).subrange(a as int, b as int), code),
{
    let ghost ps = pairs_view(pairs@);
    let mut found: Option<String> = None;
    let mut k = a;
    while k < b
        invariant
            a <= k <= b <= pairs.len(),
            ps == pairs_view(pairs@),
            crate::text::opt_view(found) == last_value(ps.subrange(a as int, k as int), code),
        decreases b - k,
    {
        assert(ps.subrange(a as int, k + 1).drop_last() =~= ps.subrange(a as int, k as int));
        assert(ps.subrange(a as int, k + 1).last() == pairs@[k as int]@);
        if pairs[k].code == code {
            found = Some(pairs[k].value.clone());
        }
        k += 1;
    }
    found
}

/// The last group `code` among `pairs[a..b]` that reads as an `i32`, or 0.
pub fn flag_in(pairs: &[Pair], a: usize, b: usize, code: i32) -> (r: i32)
    requires
        a <= b <= pairs.len(),
    ensures
        r == flag_or_zero(pairs_view(pairs@).subrange(a as int, b as int), code),
{
    let ghost ps = pairs_view(pairs@);
    let mut found: Option<i32> = None;
    let mut k = a;
    while k < b
        invariant
            a <= k <= b <= pairs.len(),
            ps == pairs_view(pairs@),
            match found {
                Some(f) => last_flag(ps.subrange(a as int, k as int), code) == Some(f as int),
                None => last_flag(ps.subrange(a as int, k as int), code) is None,
            },
        decreases b - k,
    {
        assert(ps.subrange(a as int, k + 1).drop_last() =~= ps.subrange(a as int, k as int));
        assert(ps.subrange(a as int, k + 1).last() == pairs@[k as int]@);
        if pairs[k].code == code {
            let v = chars_of(pairs[k].value.as_str());
            match parse_i32(&v) {
                Some(f) => {
                    found = Some(f);
                },
                None => {},
            }
        }
        k += 1;
    }
    match found {
        Some(f) => f,
        None => 0,
    }
}

/// One `VERTEX` of a polyline sequence: its payload is `pairs[start..end]`;
/// `face` tells that it is a face record of a polyface mesh, which draws no
/// point.
pub struct VertexSpan {
    pub start: usize,
    pub end: usize,
    pub face: bool,
}

/// The structure of a `POLYLINE` sequence: the header's layer and flags,
/// whether the flags close the outline, the vertices, whether a `SEQEND`
/// ended the run, and the index after the sequence.
pub struct PolylineScan {
    pub layer: Option<String>,
    pub flags: i32,
    pub closed: bool,
    pub vertices: Vec<VertexSpan>,
    pub complete: bool,
    pub next: usize,
}

/// What `vertex_walk` says of a vertex, with the face flag worked out.
pub open spec fn vertex_view(ps: Seq<PairV>, header_flags: i32, r: (int, int)) -> (int, int, bool) {
    (r.0, r.1, is_face_record(header_flags, flag_or_zero(ps.subrange(r.0, r.1), 70)))
}

/// The vertex views of a polyline at `i`.
pub open spec fn polyline_vertices(ps: Seq<PairV>, i: int) -> Seq<(int, int, bool)> {
    vertex_walk(ps, polyline_header_end(ps, i)).0.map_values(
        |r: (int, int)| vertex_view(ps, polyline_flags(ps, i), r),
    )
}

/// Whether `scan` is the structure of the polyline sequence at `i`.
pub open spec fn is_polyline_scan(ps: Seq<PairV>, i: int, scan: PolylineScan) -> bool {
    let h = polyline_header_end(ps, i);
    &&& crate::text::opt_view(scan.layer) == last_value(ps.subrange(i + 1, h), 8)
    &&& scan.flags == polyline_flags(ps, i)
    &&& scan.closed == polyline_closed(scan.flags)
    &&& scan.vertices@.map_values(|v: VertexSpan| (v.start as int, v.end as int, v.face))
        == polyline_vertices(ps, i)
    &&& scan.complete == vertex_walk(ps, h).1
    &&& scan.next == polyline_next(ps, i)
}

/// The structure of the `POLYLINE` sequence whose marker is pair `i`: the
/// header (pairs up to the next marker) gives the layer (group 8) and the
/// flags (group 70); then come `VERTEX` entities, and a `SEQEND` ends the run.
pub fn scan_polyline(pairs: &[Pair], i: usize) -> (r: PolylineScan)
    requires
        i < pairs.len(),
    ensures
        is_polyline_scan(pairs_view(pairs@), i as int, r),
        i < r.next <= pairs.len(),
        r.closed == ((r.flags & 1) == 1 || (r.flags & 32) == 32),
{
    let ghost ps = pairs_view(pairs@);
    proof {
        lemma_polyline_next_bounds(ps, i as int);
    }
    let h = find_marker(pairs, i + 1);
    let layer = last_value_in(pairs, i + 1, h, 8);
    let flags = flag_in(pairs, i + 1, h, 70);
    let closed = (flags & 1) == 1 || (flags & 32) == 32;
    let mut vertices: Vec<VertexSpan> = Vec::new();
    let mut c = h;
    let ghost views = polyline_vertices(ps, i as int);
    proof {
        lemma_vertex_walk_bounds(ps, h as int);
    }
    while c < pairs.len() && pairs[c].code == 0 && chars_equal(&kind_of(&pairs[c]), "VERTEX")
        invariant
            h <= c <= pairs.len(),
            ps == pairs_view(pairs@),
            h == polyline_header_end(ps, i as int),
            flags == polyline_flags(ps, i as int),
            vertex_walk(ps, h as int).0 == vertex_walk(ps, h as int).0.take(vertices.len() as int)
                + vertex_walk(ps, c as int).0,
            vertex_walk(ps, h as int).1 == vertex_walk(ps, c as int).1,
            vertex_walk(ps, h as int).2 == vertex_walk(ps, c as int).2,
            vertices@.map_values(|v: VertexSpan| (v.start as int, v.end as int, v.face))
                == vertex_walk(ps, h as int).0.take(vertices.len() as int).map_values(
                |r: (int, int)| vertex_view(ps, flags, r),
            ),
            vertices.len() <= vertex_walk(ps, h as int).0.len(),
        decreases pairs.len() - c,
    {
        assert(ps[c as int] == pairs@[c as int]@);
        let e = find_marker(pairs, c + 1);
        proof {
            lemma_marker_end_bounds(ps, c + 1);
            lemma_vertex_walk_bounds(ps, e as int);
        }
        let vflags = flag_in(pairs, c + 1, e, 70);
        let face = (flags & 64) == 64 && (vflags & 128) == 128;
        let ghost n = vertices.len() as int;
        let ghost all = vertex_walk(ps, h as int).0;
        let ghost before = vertices@;
        vertices.push(VertexSpan { start: c + 1, end: e, face });
        proof {
            assert(vertex_walk(ps, c as int).0 == seq![(c + 1, e as int)] + vertex_walk(ps, e as int).0);
            assert(all[n] == (c + 1, e as int));
            assert(all.take(n + 1) =~= all.take(n).push((c + 1, e as int)));
            assert(all =~= all.take(n + 1) + vertex_walk(ps, e as int).0);
            assert(vertices@ == before.push(VertexSpan { start: (c + 1) as usize, end: e, face }));
            assert(vertex_view(ps, flags, (c + 1, e as int)) == ((c + 1) as int, e as int, face));
            assert(all.take(n + 1).map_values(|r: (int, int)| vertex_view(ps, flags, r))
                =~= all.take(n).map_values(|r: (int, int)| vertex_view(ps, flags, r)).push(
                vertex_view(ps, flags, (c + 1, e as int)),
            ));
            assert(vertices@.map_values(|v: VertexSpan| (v.start as int, v.end as int, v.face))
                =~= before.map_values(|v: VertexSpan| (v.start as int, v.end as int, v.face)).push(
                ((c + 1) as int, e as int, face),
            ));
        }
        c = e;
    }
    let mut complete = false;
    if c < pairs.len() && pairs[c].code == 0 && chars_equal(&kind_of(&pairs[c]), "SEQEND") {
        assert(ps[c as int] == pairs@[c as int]@);
        complete = true;
        c = c + 1;
    } else {
        proof {
            if c < pairs.len() {
                assert(ps[c as int] == pairs@[c as int]@);
            }
        }
    }
    proof {
        let all = vertex_walk(ps, h as int).0;
        assert(all.take(vertices.len() as int) =~= all);
    }
    PolylineScan { layer, flags, closed, vertices, complete, next: c }
}

/// The entity records of the `ENTITIES` sections of `pairs`, in file order.
/// `0/SECTION` then `2/ENTITIES` opens such a section and any `0/ENDSEC`
/// closes the open section; inside, every group code 0 opens an entity whose
/// payload runs to the next group code 0, except that a `POLYLINE` takes in
/// its `VERTEX` run and `SEQEND`.
pub fn scan_entities(pairs: &[Pair]) -> (records: Vec<Record>)
    ensures
        records_view(records@) == entity_records(pairs_view(pairs@), 0, false),
        forall|k: int|
            0 <= k < records@.len() ==> (#[trigger] records@[k]).start < records@[k].end
                <= pairs@.len(),
{
    let ghost ps = pairs_view(pairs@);
    let mut records: Vec<Record> = Vec::new();
    let mut inside = false;
    let mut i: usize = 0;
    assert(records_view(records@) + entity_records(ps, 0, false) =~= entity_records(ps, 0, false));
    while i < pairs.len()
        invariant
            i <= pairs.len(),
            ps == pairs_view(pairs@),
            entity_records(ps, 0, false) == records_view(records@) + entity_records(
                ps,
                i as int,
                inside,
            ),
            forall|k: int|
                0 <= k < records@.len() ==> (#[trigger] records@[k]).start < records@[k].end
                    <= pairs@.len(),
        decreases pairs.len() - i,
    {
        assert(ps[i as int] == pairs@[i as int]@);
        if section_opens(pairs, i, "ENTITIES") {
            inside = true;
            i += 2;
        } else if pairs[i].code == 0 && value_is(&pairs[i], "ENDSEC") {
            inside = false;
            i += 1;
        } else if inside && pairs[i].code == 0 {
            let kind = kind_of(&pairs[i]);
            let end = if chars_equal(&kind, "POLYLINE") {
                let scan = scan_polyline(pairs, i);
                scan.next
            } else {
                proof {
                    lemma_marker_end_bounds(ps, i + 1);
                }
                find_marker(pairs, i + 1)
            };
            let ghost before = records_view(records@);
            let r = Record { kind: string_of(&kind), start: i, end };
            records.push(r);
            proof {
                assert(records_view(records@) =~= before.push((kind@, i as int, end as int)));
                assert(before.push((kind@, i as int, end as int)) + entity_records(ps, end as int, true)
                    =~= before + (seq![(kind@, i as int, end as int)] + entity_records(ps, end as int, true)));
            }
            i = end;
        } else {
            i += 1;
        }
    }
    assert(records_view(records@) + entity_records(ps, i as int, inside) =~= records_view(records@));
    records
}

/// The entity records of a block body read from pair `c` on, and the index
/// after the body: an `ENDBLK` marker ends the body, pairs with a non-zero
/// group code are passed over, and every other marker opens an entity as in
/// the `ENTITIES` section.
pub open spec fn block_body(ps: Seq<PairV>, c: int) -> (Seq<(Seq<char>, int, int)>, int)
    decreases ps.len() - c,
{
    if c < 0 || c >= ps.len() {
        (seq![], c)
    } else if is_marker(ps, c, "ENDBLK"@) {
        (seq![], c + 1)
    } else if ps[c].0 != 0 {
        block_body(ps, c + 1)
    } else {
        let kind = chars::upper(ps[c].1);
        let end = if kind == "POLYLINE"@ {
            polyline_next(ps, c)
        } else {
            marker_end(ps, c + 1)
        };
        proof {
            lemma_polyline_next_bounds(ps, c);
            lemma_marker_end_bounds(ps, c + 1);
        }
        let (rs, next) = block_body(ps, end);
        (seq![(kind, c, end)] + rs, next)
    }
}

pub proof fn lemma_block_body_bounds(ps: Seq<PairV>, c: int)
    requires
        0 <= c <= ps.len(),
    ensures
        c <= block_body(ps, c).1 <= ps.len(),
        forall|k: int|
            0 <= k < block_body(ps, c).0.len() ==> c <= (#[trigger] block_body(ps, c).0[k]).1
                < block_body(ps, c).0[k].2 <= ps.len(),
    decreases ps.len() - c,
{
    if c < ps.len() && !is_marker(ps, c, "ENDBLK"@) {
        if ps[c].0 != 0 {
            lemma_block_body_bounds(ps, c + 1);
        } else {
            lemma_polyline_next_bounds(ps, c);
            lemma_marker_end_bounds(ps, c + 1);
            let kind = chars::upper(ps[c].1);
            let end = if kind == "POLYLINE"@ {
                polyline_next(ps, c)
            } else {
                marker_end(ps, c + 1)
            };
            lemma_block_body_bounds(ps, end);
            let rs = block_body(ps, end).0;
            assert forall|k: int|
                0 <= k < block_body(ps, c).0.len() implies c <= (#[trigger] block_body(
                ps,
                c,
            ).0[k]).1 < block_body(ps, c).0[k].2 <= ps.len() by {
                if k > 0 {
                    assert(block_body(ps, c).0[k] == rs[k - 1]);
                }
            }
        }
    }
}

/// The view of a block definition: its name (the last group 2 of its
/// header), the range of its header pairs, and its entity records.
pub type BlockV = (Option<Seq<char>>, int, int, Seq<(Seq<char>, int, int)>);

/// The block definitions of the `BLOCKS` sections, reading from pair `i` on
/// with `inside` telling whether a `BLOCKS` section is open.
pub open spec fn block_records(ps: Seq<PairV>, i: int, inside: bool) -> Seq<BlockV>
    decreases ps.len() - i,
{
    if i < 0 || i >= ps.len() {
        seq![]
    } else if opens_section(ps, i, "BLOCKS"@) {
        block_records(ps, i + 2, true)
    } else if inside && is_marker(ps, i, "ENDSEC"@) {
        block_records(ps, i + 1, false)
    } else if !inside {
        block_records(ps, i + 1, false)
    } else if is_marker(ps, i, "BLOCK"@) {
        let h = marker_end(ps, i + 1);
        proof {
            lemma_marker_end_bounds(ps, i + 1);
            lemma_block_body_bounds(ps, h);
        }
        let (rs, next) = block_body(ps, h);
        seq![(last_value(ps.subrange(i + 1, h), 2), i + 1, h, rs)] + block_records(ps, next, true)
    } else {
        block_records(ps, i + 1, true)
    }
}

/// One block definition: its name (the last group 2 of its header, if any),
/// its header pairs `pairs[header_start..header_end]` (they give the base
/// point) and the entity records of its body.
pub struct BlockRecord {
    pub name: Option<String>,
    pub header_start: usize,
    pub header_end: usize,
    pub records: Vec<Record>,
}

impl View for BlockRecord {
    type V = BlockV;

    open spec fn view(&self) -> BlockV {
        (
            crate::text::opt_view(self.name),
            self.header_start as int,
            self.header_end as int,
            records_view(self.records@),
        )
    }
}

/// The views of a sequence of block records.
pub open spec fn blocks_view(bs: Seq<BlockRecord>) -> Seq<BlockV> {
    bs.map_values(|b: BlockRecord| b@)
}

/// The entity records of a block body starting at `c`, and the index after it.
fn scan_block_body(pairs: &[Pair], c0: usize) -> (r: (Vec<Record>, usize))
    requires
        c0 <= pairs.len(),
    ensures
        records_view(r.0@) == block_body(pairs_view(pairs@), c0 as int).0,
        r.1 == block_body(pairs_view(pairs@), c0 as int).1,
        c0 <= r.1 <= pairs.len(),
        forall|k: int|
            0 <= k < r.0@.len() ==> (#[trigger] r.0@[k]).start < r.0@[k].end <= pairs@.len(),
{
    let ghost ps = pairs_view(pairs@);
    let mut records: Vec<Record> = Vec::new();
    let mut c = c0;
    proof {
        lemma_block_body_bounds(ps, c0 as int);
    }
    assert(records_view(records@) + block_body(ps, c0 as int).0 =~= block_body(ps, c0 as int).0);
    while c < pairs.len()
        invariant
            c0 <= c <= pairs.len(),
            ps == pairs_view(pairs@),
            block_body(ps, c0 as int).0 == records_view(records@) + block_body(ps, c as int).0,
            block_body(ps, c0 as int).1 == block_body(ps, c as int).1,
            forall|k: int|
                0 <= k < records@.len() ==> (#[trigger] records@[k]).start < records@[k].end
                    <= pairs@.len(),
        decreases pairs.len() - c,
    {
        assert(ps[c as int] == pairs@[c as int]@);
        if pairs[c].code == 0 && value_is(&pairs[c], "ENDBLK") {
            c += 1;
            assert(block_body(ps, c0 as int).0 =~= records_view(records@));
            proof {
                lemma_block_body_bounds(ps, c0 as int);
            }
            return (records, c);
        }
        if pairs[c].code != 0 {
            c += 1;
        } else {
            let kind = kind_of(&pairs[c]);
            proof {
                lemma_marker_end_bounds(ps, c + 1);
            }
            let end = if chars_equal(&kind, "POLYLINE") {
                let scan = scan_polyline(pairs, c);
                scan.next
            } else {
                find_marker(pairs, c + 1)
            };
            let ghost before = records_view(records@);
            records.push(Record { kind: string_of(&kind), start: c, end });
            proof {
                assert(records_view(records@) =~= before.push((kind@, c as int, end as int)));
                assert(before.push((kind@, c as int, end as int)) + block_body(ps, end as int).0
                    =~= before + (seq![(kind@, c as int, end as int)] + block_body(ps, end as int).0));
            }
            c = end;
        }
    }
    assert(records_view(records@) + block_body(ps, c as int).0 =~= records_view(records@));
    (records, c)
}

/// The block definitions of the `BLOCKS` sections of `pairs`, in file order.
/// `0/SECTION` then `2/BLOCKS` opens such a section and `0/ENDSEC` closes it;
/// inside, `0/BLOCK` opens a definition whose header runs to the next marker
/// and whose body runs to its `ENDBLK`.
pub fn scan_blocks(pairs: &[Pair]) -> (blocks: Vec<BlockRecord>)
    ensures
        blocks_view(blocks@) == block_records(pairs_view(pairs@), 0, false),
        forall|b: int, k: int|
            0 <= b < blocks@.len() && 0 <= k < blocks@[b].records@.len() ==> (
            #[trigger] blocks@[b].records@[k]).start < blocks@[b].records@[k].end <= pairs@.len(),
        forall|b: int|
            0 <= b < blocks@.len() ==> (#[trigger] blocks@[b]).header_start
                <= blocks@[b].header_end <= pairs@.len(),
{
    let ghost ps = pairs_view(pairs@);
    let mut blocks: Vec<BlockRecord> = Vec::new();
    let mut inside = false;
    let mut i: usize = 0;
    assert(blocks_view(blocks@) + block_records(ps, 0, false) =~= block_records(ps, 0, false));
    while i < pairs.len()
        invariant
            i <= pairs.len(),
            ps == pairs_view(pairs@),
            block_records(ps, 0, false) == blocks_view(blocks@) + block_records(ps, i as int, inside),
            forall|b: int, k: int|
                0 <= b < blocks@.len() && 0 <= k < blocks@[b].records@.len() ==> (
                #[trigger] blocks@[b].records@[k]).start < blocks@[b].records@[k].end
                    <= pairs@.len(),
            forall|b: int|
                0 <= b < blocks@.len() ==> (#[trigger] blocks@[b]).header_start
                    <= blocks@[b].header_end <= pairs@.len(),
        decreases pairs.len() - i,
    {
        assert(ps[i as int] == pairs@[i as int]@);
        if section_opens(pairs, i, "BLOCKS") {
            inside = true;
            i += 2;
        } else if inside && pairs[i].code == 0 && value_is(&pairs[i], "ENDSEC") {
            inside = false;
            i += 1;
        } else if !inside {
            i += 1;
        } else if pairs[i].code == 0 && value_is(&pairs[i], "BLOCK") {
            proof {
                lemma_marker_end_bounds(ps, i + 1);
            }
            let h = find_marker(pairs, i + 1);
            let name = last_value_in(pairs, i + 1, h, 2);
            let (records, next) = scan_block_body(pairs, h);
            proof {
                lemma_block_body_bounds(ps, h as int);
            }
            let ghost before = blocks_view(blocks@);
            let block = BlockRecord { name, header_start: i + 1, header_end: h, records };
            let ghost bv = block@;
            blocks.push(block);
            proof {
                assert(blocks_view(blocks@) =~= before.push(bv));
                assert(before.push(bv) + block_records(ps, next as int, true) =~= before + (seq![bv]
                    + block_records(ps, next as int, true)));
            }
            i = next;
        } else {
            i += 1;
        }
    }
    assert(blocks_view(blocks@) + block_records(ps, i as int, inside) =~= blocks_view(blocks@));
    blocks
}

/// The entity records lie in file order without overlapping: each opens at
/// a pair with group code 0 whose upper-cased value is its type, ends after
/// it, and the next record opens at or after that end; the payload of a
/// record other than `POLYLINE` holds no group code 0.
pub proof fn lemma_entity_records_ordered(ps: Seq<PairV>, i: int, inside: bool)
    requires
        0 <= i <= ps.len(),
    ensures
        ({
            let rs = entity_records(ps, i, inside);
            &&& forall|k: int|
                0 <= k < rs.len() ==> i <= (#[trigger] rs[k]).1 < rs[k].2 <= ps.len() && ps[rs[k].1].0
                    == 0 && rs[k].0 == chars::upper(ps[rs[k].1].1)
            &&& forall|k: int| 0 <= k < rs.len() - 1 ==> (#[trigger] rs[k]).2 <= rs[k + 1].1
            &&& forall|k: int, j: int|
                0 <= k < rs.len() && (#[trigger] rs[k]).0 != "POLYLINE"@ && rs[k].1 < j < rs[k].2
                    ==> (#[trigger] ps[j]).0 != 0
        }),
    decreases ps.len() - i,
{
    if i < ps.len() {
        if opens_section(ps, i, "ENTITIES"@) {
            lemma_entity_records_ordered(ps, i + 2, true);
            assert(entity_records(ps, i, inside) == entity_records(ps, i + 2, true));
        } else if is_marker(ps, i, "ENDSEC"@) {
            lemma_entity_records_ordered(ps, i + 1, false);
            assert(entity_records(ps, i, inside) == entity_records(ps, i + 1, false));
        } else if inside && ps[i].0 == 0 {
            let kind = chars::upper(ps[i].1);
            lemma_polyline_next_bounds(ps, i);
            lemma_marker_end_bounds(ps, i + 1);
            let end = if kind == "POLYLINE"@ {
                polyline_next(ps, i)
            } else {
                marker_end(ps, i + 1)
            };
            lemma_entity_records_ordered(ps, end, true);
            let rest = entity_records(ps, end, true);
            let rs = entity_records(ps, i, inside);
            assert(rs == seq![(kind, i, end)] + rest);
            assert forall|k: int|
                0 <= k < rs.len() implies i <= (#[trigger] rs[k]).1 < rs[k].2 <= ps.len() && ps[rs[k].1].0
                    == 0 && rs[k].0 == chars::upper(ps[rs[k].1].1) by {
                if k > 0 {
                    assert(rs[k] == rest[k - 1]);
                }
            }
            assert forall|k: int| 0 <= k < rs.len() - 1 implies (#[trigger] rs[k]).2 <= rs[k + 1].1 by {
                assert(rs[k + 1] == rest[k]);
                if k > 0 {
                    assert(rs[k] == rest[k - 1]);
                }
            }
            assert forall|k: int, j: int|
                0 <= k < rs.len() && (#[trigger] rs[k]).0 != "POLYLINE"@ && rs[k].1 < j < rs[k].2
                    implies (#[trigger] ps[j]).0 != 0 by {
                if k > 0 {
                    assert(rs[k] == rest[k - 1]);
                }
            }
        } else {
            lemma_entity_records_ordered(ps, i + 1, inside);
            assert(entity_records(ps, i, inside) == entity_records(ps, i + 1, inside));
        }
    }
}

/// The types of entity the reader knows how to draw, by the geometry they
/// need; `Other` for every other marker.
#[derive(PartialEq, Eq, Structural, Clone, Copy, Debug)]
pub enum EntityType {
    Point,
    Line,
    LwPolyline,
    Circle,
    Arc,
    Ellipse,
    Spline,
    Face3d,
    Solid,
    Hatch,
    Insert,
    Dimension,
    XLine,
    Ray,
    Leader,
    MultiLeader,
    Text,
    MText,
    Attribute,
    Polyline,
    Other,
}

/// The type of entity that an upper-cased marker names: `SOLID` and `TRACE`
/// are drawn alike, as are `MULTILEADER` and `MLEADER`, and `ATTDEF` and
/// `ATTRIB`.
pub open spec fn entity_type_of(kind: Seq<char>) -> EntityType {
    if kind == "POINT"@ {
        EntityType::Point
    } else if kind == "LINE"@ {
        EntityType::Line
    } else if kind == "LWPOLYLINE"@ {
        EntityType::LwPolyline
    } else if kind == "CIRCLE"@ {
        EntityType::Circle
    } else if kind == "ARC"@ {
        EntityType::Arc
    } else if kind == "ELLIPSE"@ {
        EntityType::Ellipse
    } else if kind == "SPLINE"@ {
        EntityType::Spline
    } else if kind == "3DFACE"@ {
        EntityType::Face3d
    } else if kind == "SOLID"@ || kind == "TRACE"@ {
        EntityType::Solid
    } else if kind == "HATCH"@ {
        EntityType::Hatch
    } else if kind == "INSERT"@ {
        EntityType::Insert
    } else if kind == "DIMENSION"@ {
        EntityType::Dimension
    } else if kind == "XLINE"@ {
        EntityType::XLine
    } else if kind == "RAY"@ {
        EntityType::Ray
    } else if kind == "LEADER"@ {
        EntityType::Leader
    } else if kind == "MULTILEADER"@ || kind == "MLEADER"@ {
        EntityType::MultiLeader
    } else if kind == "TEXT"@ {
        EntityType::Text
    } else if kind == "MTEXT"@ {
        EntityType::MText
    } else if kind == "ATTDEF"@ || kind == "ATTRIB"@ {
        EntityType::Attribute
    } else if kind == "POLYLINE"@ {
        EntityType::Polyline
    } else {
        EntityType::Other
    }
}

/// Each marker the reader knows is read as the type it names, and only
/// that marker: `CIRCLE` is a circle, `ARC` an arc, `SOLID` and `TRACE` a
/// solid, and so on; every other marker is `Other`.
pub proof fn lemma_entity_type_names(kind: Seq<char>)
    ensures
        (entity_type_of(kind) == EntityType::Point) == (kind == "POINT"@),
        (entity_type_of(kind) == EntityType::Line) == (kind == "LINE"@),
        (entity_type_of(kind) == EntityType::LwPolyline) == (kind == "LWPOLYLINE"@),
        (entity_type_of(kind) == EntityType::Circle) == (kind == "CIRCLE"@),
        (entity_type_of(kind) == EntityType::Arc) == (kind == "ARC"@),
        (entity_type_of(kind) == EntityType::Ellipse) == (kind == "ELLIPSE"@),
        (entity_type_of(kind) == EntityType::Spline) == (kind == "SPLINE"@),
        (entity_type_of(kind) == EntityType::Face3d) == (kind == "3DFACE"@),
        (entity_type_of(kind) == EntityType::Solid) == (kind == "SOLID"@ || kind == "TRACE"@),
        (entity_type_of(kind) == EntityType::Hatch) == (kind == "HATCH"@),
        (entity_type_of(kind) == EntityType::Insert) == (kind == "INSERT"@),
        (entity_type_of(kind) == EntityType::Dimension) == (kind == "DIMENSION"@),
        (entity_type_of(kind) == EntityType::XLine) == (kind == "XLINE"@),
        (entity_type_of(kind) == EntityType::Ray) == (kind == "RAY"@),
        (entity_type_of(kind) == EntityType::Leader) == (kind == "LEADER"@),
        (entity_type_of(kind) == EntityType::MultiLeader) == (kind == "MULTILEADER"@ || kind == "MLEADER"@),
        (entity_type_of(kind) == EntityType::Text) == (kind == "TEXT"@),
        (entity_type_of(kind) == EntityType::MText) == (kind == "MTEXT"@),
        (entity_type_of(kind) == EntityType::Attribute) == (kind == "ATTDEF"@ || kind == "ATTRIB"@),
        (entity_type_of(kind) == EntityType::Polyline) == (kind == "POLYLINE"@),
        (entity_type_of(kind) == EntityType::Other) == !(kind == "POINT"@ || kind == "LINE"@ || kind == "LWPOLYLINE"@ || kind == "CIRCLE"@ || kind == "ARC"@ || kind == "ELLIPSE"@ || kind == "SPLINE"@ || kind == "3DFACE"@ || kind == "SOLID"@ || kind == "TRACE"@ || kind == "HATCH"@ || kind == "INSERT"@ || kind == "DIMENSION"@ || kind == "XLINE"@ || kind == "RAY"@ || kind == "LEADER"@ || kind == "MULTILEADER"@ || kind == "MLEADER"@ || kind == "TEXT"@ || kind == "MTEXT"@ || kind == "ATTDEF"@ || kind == "ATTRIB"@ || kind == "POLYLINE"@),
{
    reveal_strlit("POINT");
    reveal_strlit("LINE");
    reveal_strlit("LWPOLYLINE");
    reveal_strlit("CIRCLE");
    reveal_strlit("ARC");
    reveal_strlit("ELLIPSE");
    reveal_strlit("SPLINE");
    reveal_strlit("3DFACE");
    reveal_strlit("SOLID");
    reveal_strlit("TRACE");
    reveal_strlit("HATCH");
    reveal_strlit("INSERT");
    reveal_strlit("DIMENSION");
    reveal_strlit("XLINE");
    reveal_strlit("RAY");
    reveal_strlit("LEADER");
    reveal_strlit("MULTILEADER");
    reveal_strlit("MLEADER");
    reveal_strlit("TEXT");
    reveal_strlit("MTEXT");
    reveal_strlit("ATTDEF");
    reveal_strlit("ATTRIB");
    reveal_strlit("POLYLINE");
    assert("POINT"@.len() == 5);
    assert("LINE"@.len() == 4);
    assert("LWPOLYLINE"@.len() == 10);
    assert("CIRCLE"@.len() == 6);
    assert("ARC"@.len() == 3);
    assert("ELLIPSE"@.len() == 7);
    assert("SPLINE"@.len() == 6);
    assert("3DFACE"@.len() == 6);
    assert("SOLID"@.len() == 5);
    assert("TRACE"@.len() == 5);
    assert("HATCH"@.len() == 5);
    assert("INSERT"@.len() == 6);
    assert("DIMENSION"@.len() == 9);
    assert("XLINE"@.len() == 5);
    assert("RAY"@.len() == 3);
    assert("LEADER"@.len() == 6);
    assert("MULTILEADER"@.len() == 11);
    assert("MLEADER"@.len() == 7);
    assert("TEXT"@.len() == 4);
    assert("MTEXT"@.len() == 5);
    assert("ATTDEF"@.len() == 6);
    assert("ATTRIB"@.len() == 6);
    assert("POLYLINE"@.len() == 8);
    assert("POINT"@[0] != "SOLID"@[0]);
    assert("POINT"@[0] != "TRACE"@[0]);
    assert("POINT"@[0] != "HATCH"@[0]);
    assert("POINT"@[0] != "XLINE"@[0]);
    assert("POINT"@[0] != "MTEXT"@[0]);
    assert("LINE"@[0] != "TEXT"@[0]);
    assert("CIRCLE"@[0] != "SPLINE"@[0]);
    assert("CIRCLE"@[0] != "3DFACE"@[0]);
    assert("CIRCLE"@[0] != "INSERT"@[0]);
    assert("CIRCLE"@[0] != "LEADER"@[0]);
    assert("CIRCLE"@[0] != "ATTDEF"@[0]);
    assert("CIRCLE"@[0] != "ATTRIB"@[0]);
    assert("ARC"@[0] != "RAY"@[0]);
    assert("ELLIPSE"@[0] != "MLEADER"@[0]);
    assert("SPLINE"@[0] != "3DFACE"@[0]);
    assert("SPLINE"@[0] != "INSERT"@[0]);
    assert("SPLINE"@[0] != "LEADER"@[0]);
    assert("SPLINE"@[0] != "ATTDEF"@[0]);
    assert("SPLINE"@[0] != "ATTRIB"@[0]);
    assert("3DFACE"@[0] != "INSERT"@[0]);
    assert("3DFACE"@[0] != "LEADER"@[0]);
    assert("3DFACE"@[0] != "ATTDEF"@[0]);
    assert("3DFACE"@[0] != "ATTRIB"@[0]);
    assert("SOLID"@[0] != "TRACE"@[0]);
    assert("SOLID"@[0] != "HATCH"@[0]);
    assert("SOLID"@[0] != "XLINE"@[0]);
    assert("SOLID"@[0] != "MTEXT"@[0]);
    assert("TRACE"@[0] != "HATCH"@[0]);
    assert("TRACE"@[0] != "XLINE"@[0]);
    assert("TRACE"@[0] != "MTEXT"@[0]);
    assert("HATCH"@[0] != "XLINE"@[0]);
    assert("HATCH"@[0] != "MTEXT"@[0]);
    assert("INSERT"@[0] != "LEADER"@[0]);
    assert("INSERT"@[0] != "ATTDEF"@[0]);
    assert("INSERT"@[0] != "ATTRIB"@[0]);
    assert("XLINE"@[0] != "MTEXT"@[0]);
    assert("LEADER"@[0] != "ATTDEF"@[0]);
    assert("LEADER"@[0] != "ATTRIB"@[0]);
    assert("ATTDEF"@[3] != "ATTRIB"@[3]);
    assert(forall|x: Seq<char>, y: Seq<char>| x == y ==> x.len() == y.len());
}

/// The type of entity that the upper-cased marker `kind` names (see
/// `entity_type_of`).
pub fn entity_type(kind: &str) -> (r: EntityType)
    ensures
        r == entity_type_of(kind@),
        (r == EntityType::Point) == (kind@ == "POINT"@),
        (r == EntityType::Line) == (kind@ == "LINE"@),
        (r == EntityType::LwPolyline) == (kind@ == "LWPOLYLINE"@),
        (r == EntityType::Circle) == (kind@ == "CIRCLE"@),
        (r == EntityType::Arc) == (kind@ == "ARC"@),
        (r == EntityType::Ellipse) == (kind@ == "ELLIPSE"@),
        (r == EntityType::Spline) == (kind@ == "SPLINE"@),
        (r == EntityType::Face3d) == (kind@ == "3DFACE"@),
        (r == EntityType::Solid) == (kind@ == "SOLID"@ || kind@ == "TRACE"@),
        (r == EntityType::Hatch) == (kind@ == "HATCH"@),
        (r == EntityType::Insert) == (kind@ == "INSERT"@),
        (r == EntityType::Dimension) == (kind@ == "DIMENSION"@),
        (r == EntityType::XLine) == (kind@ == "XLINE"@),
        (r == EntityType::Ray) == (kind@ == "RAY"@),
        (r == EntityType::Leader) == (kind@ == "LEADER"@),
        (r == EntityType::MultiLeader) == (kind@ == "MULTILEADER"@ || kind@ == "MLEADER"@),
        (r == EntityType::Text) == (kind@ == "TEXT"@),
        (r == EntityType::MText) == (kind@ == "MTEXT"@),
        (r == EntityType::Attribute) == (kind@ == "ATTDEF"@ || kind@ == "ATTRIB"@),
        (r == EntityType::Polyline) == (kind@ == "POLYLINE"@),
{
    proof {
        lemma_entity_type_names(kind@);
    }
    let k = chars_of(kind);
    if chars_equal(&k, "POINT") {
        EntityType::Point
    } else if chars_equal(&k, "LINE") {
        EntityType::Line
    } else if chars_equal(&k, "LWPOLYLINE") {
        EntityType::LwPolyline
    } else if chars_equal(&k, "CIRCLE") {
        EntityType::Circle
    } else if chars_equal(&k, "ARC") {
        EntityType::Arc
    } else if chars_equal(&k, "ELLIPSE") {
        EntityType::Ellipse
    } else if chars_equal(&k, "SPLINE") {
        EntityType::Spline
    } else if chars_equal(&k, "3DFACE") {
        EntityType::Face3d
    } else if chars_equal(&k, "SOLID") || chars_equal(&k, "TRACE") {
        EntityType::Solid
    } else if chars_equal(&k, "HATCH") {
        EntityType::Hatch
    } else if chars_equal(&k, "INSERT") {
        EntityType::Insert
    } else if chars_equal(&k, "DIMENSION") {
        EntityType::Dimension
    } else if chars_equal(&k, "XLINE") {
        EntityType::XLine
    } else if chars_equal(&k, "RAY") {
        EntityType::Ray
    } else if chars_equal(&k, "LEADER") {
        EntityType::Leader
    } else if chars_equal(&k, "MULTILEADER") || chars_equal(&k, "MLEADER") {
        EntityType::MultiLeader
    } else if chars_equal(&k, "TEXT") {
        EntityType::Text
    } else if chars_equal(&k, "MTEXT") {
        EntityType::MText
    } else if chars_equal(&k, "ATTDEF") || chars_equal(&k, "ATTRIB") {
        EntityType::Attribute
    } else if chars_equal(&k, "POLYLINE") {
        EntityType::Polyline
    } else {
        EntityType::Other
    }
}

/// A DXF text read into its pairs, the block definitions of its `BLOCKS`
/// section and the entity records of its `ENTITIES` section.
pub struct Drawing {
    pub pairs: Vec<Pair>,
    pub blocks: Vec<BlockRecord>,
    pub records: Vec<Record>,
}

/// Reads `text` into its pairs, block definitions and entity records. The
/// reading fails exactly when the text does not split into group-code and
/// value pairs, and then with that error; on every other text it succeeds,
/// whatever its entities hold (what cannot be drawn only adds warnings).
pub fn read_drawing(text: &str) -> (r: Result<Drawing, String>)
    ensures
        match r {
            Ok(d) => {
                &&& crate::pairs::pairs_of_text(text@) == Ok::<_, Seq<char>>(pairs_view(d.pairs@))
                &&& blocks_view(d.blocks@) == block_records(pairs_view(d.pairs@), 0, false)
                &&& records_view(d.records@) == entity_records(pairs_view(d.pairs@), 0, false)
                &&& forall|k: int|
                    0 <= k < d.records@.len() ==> (#[trigger] d.records@[k]).start
                        < d.records@[k].end <= d.pairs@.len()
                &&& forall|b: int, k: int|
                    0 <= b < d.blocks@.len() && 0 <= k < d.blocks@[b].records@.len() ==> (
                    #[trigger] d.blocks@[b].records@[k]).start < d.blocks@[b].records@[k].end
                        <= d.pairs@.len()
                &&& forall|b: int|
                    0 <= b < d.blocks@.len() ==> (#[trigger] d.blocks@[b]).header_start
                        <= d.blocks@[b].header_end <= d.pairs@.len()
            },
            Err(e) => crate::pairs::pairs_of_text(text@) == Err::<Seq<(i32, Seq<char>)>, _>(e@),
        },
{
    match crate::pairs::parse_pairs(text) {
        Ok(pairs) => {
            let blocks = scan_blocks(&pairs);
            let records = scan_entities(&pairs);
            Ok(Drawing { pairs, blocks, records })
        },
        Err(e) => Err(e),
    }
}

} // verus!
