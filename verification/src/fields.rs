//! Reading the numeric fields of an entity's payload. A payload is a run of
//! pairs together with the number each value reads as (`None` for a value
//! that is no number); what a number is stays open here, so that these rules
//! hold whatever number type the caller reads values into.
use vstd::prelude::*;
use crate::pairs::{Pair, pairs_view};
use crate::scan::PairV;
use crate::chars::{self, chars_of, parse_i32};

verus! {

/// The first index from `from` on whose pair has group code `code`, or the
/// length of `ps`.
pub open spec fn next_with_code(ps: Seq<PairV>, from: int, code: i32) -> int
    decreases ps.len() - from,
{
    if from < 0 || from >= ps.len() {
        if from < 0 { 0 } else { ps.len() as int }
    } else if ps[from].0 == code {
        from
    } else {
        next_with_code(ps, from + 1, code)
    }
}

pub proof fn lemma_next_with_code_bounds(ps: Seq<PairV>, from: int, code: i32)
    requires
        0 <= from <= ps.len(),
    ensures
        from <= next_with_code(ps, from, code) <= ps.len(),
        next_with_code(ps, from, code) < ps.len() ==> ps[next_with_code(ps, from, code)].0 == code,
        forall|k: int| from <= k < next_with_code(ps, from, code) ==> ps[k].0 != code,
    decreases ps.len() - from,
{
    if from < ps.len() && ps[from].0 != code {
        lemma_next_with_code_bounds(ps, from + 1, code);
    }
}

/// The number of the first pair with group code `code` (whether or not it
/// reads as a number); `None` when no pair has that code.
pub open spec fn first_number<N>(ps: Seq<PairV>, nums: Seq<Option<N>>, code: i32) -> Option<N> {
    let k = next_with_code(ps, 0, code);
    if k < ps.len() {
        nums[k]
    } else {
        None
    }
}

/// The number of the last pair among `a..b` with group code `code` (whether
/// or not it reads as a number), or `default` when none has that code.
pub open spec fn last_number<N>(
    ps: Seq<PairV>,
    nums: Seq<Option<N>>,
    a: int,
    b: int,
    code: i32,
    default: Option<N>,
) -> Option<N>
    decreases b - a,
{
    if b <= a {
        default
    } else if ps[b - 1].0 == code {
        nums[b - 1]
    } else {
        last_number(ps, nums, a, b - 1, code, default)
    }
}

/// The last number among `a..b` read from a pair with group code `code`,
/// passing over values that are no number; `default` when there is none.
pub open spec fn last_read<N>(
    ps: Seq<PairV>,
    nums: Seq<Option<N>>,
    a: int,
    b: int,
    code: i32,
    default: N,
) -> N
    decreases b - a,
{
    if b <= a {
        default
    } else if ps[b - 1].0 == code && nums[b - 1] is Some {
        nums[b - 1]->0
    } else {
        last_read(ps, nums, a, b - 1, code, default)
    }
}

/// The number of the first pair with group code `code` in `payload`, when
/// there is such a pair and its value reads as a number.
pub fn number_for_code<N: Copy>(payload: &[Pair], nums: &[Option<N>], code: i32) -> (r: Option<N>)
    requires
        nums.len() == payload.len(),
    ensures
        r == first_number(pairs_view(payload@), nums@, code),
{
    let ghost ps = pairs_view(payload@);
    let mut k: usize = 0;
    while k < payload.len() && payload[k].code != code
        invariant
            k <= payload.len(),
            ps == pairs_view(payload@),
            next_with_code(ps, 0, code) == next_with_code(ps, k as int, code),
        decreases payload.len() - k,
    {
        assert(ps[k as int].0 == payload@[k as int].code);
        k += 1;
    }
    if k < payload.len() {
        assert(ps[k as int].0 == payload@[k as int].code);
        nums[k]
    } else {
        None
    }
}

/// The number of the last pair with group code `code` among
/// `payload[a..b]`, or `default` when none has that code.
pub fn last_number_in<N: Copy>(
    payload: &[Pair],
    nums: &[Option<N>],
    a: usize,
    b: usize,
    code: i32,
    default: Option<N>,
) -> (r: Option<N>)
    requires
        nums.len() == payload.len(),
        a <= b <= payload.len(),
    ensures
        r == last_number(pairs_view(payload@), nums@, a as int, b as int, code, default),
{
    let ghost ps = pairs_view(payload@);
    let mut r = default;
    let mut k = a;
    while k < b
        invariant
            a <= k <= b <= payload.len(),
            nums.len() == payload.len(),
            ps == pairs_view(payload@),
            r == last_number(ps, nums@, a as int, k as int, code, default),
        decreases b - k,
    {
        assert(ps[k as int].0 == payload@[k as int].code);
        if payload[k].code == code {
            r = nums[k];
        }
        k += 1;
    }
    r
}

/// The last number read from a pair with group code `code` among
/// `payload[a..b]`, passing over values that are no number; `default` when
/// there is none.
pub fn last_read_in<N: Copy>(
    payload: &[Pair],
    nums: &[Option<N>],
    a: usize,
    b: usize,
    code: i32,
    default: N,
) -> (r: N)
    requires
        nums.len() == payload.len(),
        a <= b <= payload.len(),
    ensures
        r == last_read(pairs_view(payload@), nums@, a as int, b as int, code, default),
{
    let ghost ps = pairs_view(payload@);
    let mut r = default;
    let mut k = a;
    while k < b
        invariant
            a <= k <= b <= payload.len(),
            nums.len() == payload.len(),
            ps == pairs_view(payload@),
            r == last_read(ps, nums@, a as int, k as int, code, default),
        decreases b - k,
    {
        assert(ps[k as int].0 == payload@[k as int].code);
        if payload[k].code == code {
            match nums[k] {
                Some(v) => {
                    r = v;
                },
                None => {},
            }
        }
        k += 1;
    }
    r
}

/// A point read from three group codes: the first `x_code` and `y_code`
/// pairs must read as numbers; the first `z_code` pair gives the third
/// coordinate when it reads as one, and `zero` stands in otherwise.
pub open spec fn point_for<N>(
    ps: Seq<PairV>,
    nums: Seq<Option<N>>,
    x_code: i32,
    y_code: i32,
    z_code: i32,
    zero: N,
) -> Option<(N, N, N)> {
    match (first_number(ps, nums, x_code), first_number(ps, nums, y_code)) {
        (Some(x), Some(y)) => Some(
            (
                x,
                y,
                match first_number(ps, nums, z_code) {
                    Some(z) => z,
                    None => zero,
                },
            ),
        ),
        _ => None,
    }
}

/// The point made of the first pairs with the three group codes (see `point_for`).
pub fn point_for_codes<N: Copy>(
    payload: &[Pair],
    nums: &[Option<N>],
    x_code: i32,
    y_code: i32,
    z_code: i32,
    zero: N,
) -> (r: Option<(N, N, N)>)
    requires
        nums.len() == payload.len(),
    ensures
        r == point_for(pairs_view(payload@), nums@, x_code, y_code, z_code, zero),
{
    let x = number_for_code(payload, nums, x_code);
    let y = number_for_code(payload, nums, y_code);
    match (x, y) {
        (Some(x), Some(y)) => {
            let z = match number_for_code(payload, nums, z_code) {
                Some(z) => z,
                None => zero,
            };
            Some((x, y, z))
        },
        _ => None,
    }
}

/// The point that starts at pair `j` (an `x_code` pair) of a point sequence:
/// its value must read as a number; the pairs up to the next `x_code` pair
/// give the y coordinate (the last `y_code` pair, which must read as a
/// number) and the z coordinate (the last `z_code` number, else `zero`).
pub open spec fn point_at<N>(
    ps: Seq<PairV>,
    nums: Seq<Option<N>>,
    j: int,
    x_code: i32,
    y_code: i32,
    z_code: i32,
    zero: N,
) -> Option<(N, N, N)> {
    let e = next_with_code(ps, j + 1, x_code);
    match nums[j] {
        None => None,
        Some(x) => match last_number(ps, nums, j + 1, e, y_code, None) {
            None => None,
            Some(y) => Some((x, y, last_read(ps, nums, j + 1, e, z_code, zero))),
        },
    }
}

/// The points that the `x_code` pairs among the first `n` pairs start.
pub open spec fn point_sequence<N>(
    ps: Seq<PairV>,
    nums: Seq<Option<N>>,
    n: int,
    x_code: i32,
    y_code: i32,
    z_code: i32,
    zero: N,
) -> Seq<(N, N, N)>
    decreases n,
{
    if n <= 0 {
        seq![]
    } else {
        let rest = point_sequence(ps, nums, n - 1, x_code, y_code, z_code, zero);
        if ps[n - 1].0 == x_code {
            match point_at(ps, nums, n - 1, x_code, y_code, z_code, zero) {
                Some(p) => rest.push(p),
                None => rest,
            }
        } else {
            rest
        }
    }
}

/// The first index from `from` on whose pair has group code `code`, or the
/// length of `payload`.
pub fn next_code_index(payload: &[Pair], from: usize, code: i32) -> (r: usize)
    requires
        from <= payload.len(),
    ensures
        r == next_with_code(pairs_view(payload@), from as int, code),
{
    let ghost ps = pairs_view(payload@);
    let mut k = from;
    while k < payload.len() && payload[k].code != code
        invariant
            from <= k <= payload.len(),
            ps == pairs_view(payload@),
            next_with_code(ps, from as int, code) == next_with_code(ps, k as int, code),
        decreases payload.len() - k,
    {
        assert(ps[k as int].0 == payload@[k as int].code);
        k += 1;
    }
    proof {
        if k < payload.len() {
            assert(ps[k as int].0 == payload@[k as int].code);
        }
    }
    k
}

/// The points of a sequence of coordinates given by the three group codes
/// (control points, fit points, leader vertices): every `x_code` pair that
/// reads as a number starts a point (see `point_at`).
pub fn collect_point_sequence<N: Copy>(
    payload: &[Pair],
    nums: &[Option<N>],
    x_code: i32,
    y_code: i32,
    z_code: i32,
    zero: N,
) -> (r: Vec<(N, N, N)>)
    requires
        nums.len() == payload.len(),
    ensures
        r@ == point_sequence(pairs_view(payload@), nums@, payload@.len() as int, x_code, y_code, z_code, zero),
{
    let ghost ps = pairs_view(payload@);
    let mut points: Vec<(N, N, N)> = Vec::new();
    let mut j: usize = 0;
    while j < payload.len()
        invariant
            j <= payload.len(),
            nums.len() == payload.len(),
            ps == pairs_view(payload@),
            points@ == point_sequence(ps, nums@, j as int, x_code, y_code, z_code, zero),
        decreases payload.len() - j,
    {
        assert(ps[j as int].0 == payload@[j as int].code);
        if payload[j].code == x_code {
            match nums[j] {
                Some(x) => {
                    proof {
                        lemma_next_with_code_bounds(ps, j + 1, x_code);
                    }
                    let e = next_code_index(payload, j + 1, x_code);
                    let y = last_number_in(payload, nums, j + 1, e, y_code, None);
                    let z = last_read_in(payload, nums, j + 1, e, z_code, zero);
                    match y {
                        Some(y) => {
                            points.push((x, y, z));
                        },
                        None => {},
                    }
                },
                None => {},
            }
        }
        j += 1;
    }
    points
}

/// `points`, closed by repeating the first point when `closed` is set and
/// there are more than two points; `None` when fewer than two points remain.
pub open spec fn closed_outline<T>(points: Seq<T>, closed: bool) -> Option<Seq<T>> {
    let pts = if closed && points.len() > 2 {
        points.push(points[0])
    } else {
        points
    };
    if pts.len() < 2 {
        None
    } else {
        Some(pts)
    }
}

/// Finishes an outline: a closed one with more than two points repeats its
/// first point at the end, and an outline of fewer than two points is
/// dropped.
pub fn close_outline<T: Copy>(points: Vec<T>, closed: bool) -> (r: Option<Vec<T>>)
    ensures
        match r {
            Some(v) => closed_outline(points@, closed) == Some(v@),
            None => closed_outline(points@, closed) is None,
        },
{
    let mut pts = points;
    if closed && pts.len() > 2 {
        let first = pts[0];
        pts.push(first);
    }
    if pts.len() < 2 {
        None
    } else {
        Some(pts)
    }
}

/// The state of an `LWPOLYLINE` read over its first `n` pairs: the points so
/// far, the x coordinate waiting for its y, the elevation (group 38) and
/// whether the flags (group 70, bit 1) close the outline.
pub open spec fn lw_fold<N>(ps: Seq<PairV>, nums: Seq<Option<N>>, n: int, zero: N) -> (
    Seq<(N, N, N)>,
    Option<N>,
    N,
    bool,
)
    decreases n,
{
    if n <= 0 {
        (seq![], None, zero, false)
    } else {
        let (pts, pending, elevation, closed) = lw_fold(ps, nums, n - 1, zero);
        let code = ps[n - 1].0;
        if code == 10 {
            (pts, nums[n - 1], elevation, closed)
        } else if code == 20 {
            match (pending, nums[n - 1]) {
                (Some(x), Some(y)) => (pts.push((x, y, elevation)), None, elevation, closed),
                _ => (pts, None, elevation, closed),
            }
        } else if code == 38 && nums[n - 1] is Some {
            (pts, pending, nums[n - 1]->0, closed)
        } else if code == 70 && chars::i32_value(ps[n - 1].1) is Some {
            (pts, pending, elevation, ((chars::i32_value(ps[n - 1].1)->0 as i32) & 1) == 1)
        } else {
            (pts, pending, elevation, closed)
        }
    }
}

proof fn lemma_lw_fold_closed<N>(ps: Seq<PairV>, nums: Seq<Option<N>>, n: int, zero: N)
    requires
        0 <= n <= ps.len(),
    ensures
        lw_fold(ps, nums, n, zero).3 == (crate::scan::last_flag(ps.take(n), 70) matches Some(f) && ((
        f as i32) & 1) == 1),
    decreases n,
{
    if n > 0 {
        lemma_lw_fold_closed(ps, nums, n - 1, zero);
        assert(ps.take(n).drop_last() =~= ps.take(n - 1));
        assert(ps.take(n).last() == ps[n - 1]);
    }
}

/// An `LWPOLYLINE` is closed exactly when its last group 70 that reads as an
/// `i32` has bit 1 set; without such a group, or with a value such as 128
/// that lacks bit 1, it stays open.
pub proof fn lemma_lwpolyline_closed_by_bit1<N>(ps: Seq<PairV>, nums: Seq<Option<N>>, zero: N)
    ensures
        lw_fold(ps, nums, ps.len() as int, zero).3 == (crate::scan::last_flag(ps, 70) matches Some(f)
            && ((f as i32) & 1) == 1),
{
    lemma_lw_fold_closed(ps, nums, ps.len() as int, zero);
    assert(ps.take(ps.len() as int) =~= ps);
}

/// The vertices of an `LWPOLYLINE` and whether its flags close it: a group
/// 10 sets the pending x, a group 20 pairs it with a y at the current
/// elevation (both must read as numbers) and clears it, a group 38 that reads
/// as a number sets the elevation, and a group 70 that reads as an `i32` sets
/// the closed flag from its bit 1.
pub fn lwpolyline_points<N: Copy>(payload: &[Pair], nums: &[Option<N>], zero: N) -> (r: (
    Vec<(N, N, N)>,
    bool,
))
    requires
        nums.len() == payload.len(),
    ensures
        r.0@ == lw_fold(pairs_view(payload@), nums@, payload@.len() as int, zero).0,
        r.1 == lw_fold(pairs_view(payload@), nums@, payload@.len() as int, zero).3,
        r.1 == (crate::scan::last_flag(pairs_view(payload@), 70) matches Some(f) && ((f as i32) & 1)
            == 1),
{
    proof {
        lemma_lwpolyline_closed_by_bit1(pairs_view(payload@), nums@, zero);
    }
    let ghost ps = pairs_view(payload@);
    let mut points: Vec<(N, N, N)> = Vec::new();
    let mut pending: Option<N> = None;
    let mut elevation = zero;
    let mut closed = false;
    let mut j: usize = 0;
    while j < payload.len()
        invariant
            j <= payload.len(),
            nums.len() == payload.len(),
            ps == pairs_view(payload@),
            (points@, pending, elevation, closed) == lw_fold(ps, nums@, j as int, zero),
        decreases payload.len() - j,
    {
        assert(ps[j as int] == payload@[j as int]@);
        let code = payload[j].code;
        if code == 10 {
            pending = nums[j];
        } else if code == 20 {
            match (pending, nums[j]) {
                (Some(x), Some(y)) => {
                    points.push((x, y, elevation));
                },
                _ => {},
            }
            pending = None;
        } else if code == 38 {
            match nums[j] {
                Some(z) => {
                    elevation = z;
                },
                None => {},
            }
        } else if code == 70 {
            let v = chars_of(payload[j].value.as_str());
            match parse_i32(&v) {
                Some(f) => {
                    closed = (f & 1) == 1;
                },
                None => {},
            }
        }
        j += 1;
    }
    (points, closed)
}

/// From pair `j` on, the y coordinate that a boundary vertex takes: the
/// first group 20 before any group 10 (its number, if it reads as one), and
/// the index where the search stopped.
pub open spec fn y_lookahead<N>(ps: Seq<PairV>, nums: Seq<Option<N>>, j: int) -> (Option<N>, int)
    decreases ps.len() - j,
{
    if j < 0 || j >= ps.len() {
        (None, if j < 0 { 0 } else { ps.len() as int })
    } else if ps[j].0 == 10 {
        (None, j)
    } else if ps[j].0 == 20 {
        (nums[j], j)
    } else {
        y_lookahead(ps, nums, j + 1)
    }
}

pub proof fn lemma_y_lookahead_bounds<N>(ps: Seq<PairV>, nums: Seq<Option<N>>, j: int)
    requires
        0 <= j <= ps.len(),
    ensures
        j <= y_lookahead(ps, nums, j).1 <= ps.len(),
    decreases ps.len() - j,
{
    if j < ps.len() && ps[j].0 != 10 && ps[j].0 != 20 {
        lemma_y_lookahead_bounds(ps, nums, j + 1);
    }
}

/// The vertices of a polyline boundary path of a `HATCH` read from pair `i`
/// on, and the last closed flag set from there on: a group 73 that reads as
/// an `i32` sets the flag (closed when it is 1); a group 10 that reads as a
/// number is a vertex when a group 20 follows it before the next group 10;
/// the pairs searched over for that group 20 are not read otherwise.
pub open spec fn hatch_walk<N>(ps: Seq<PairV>, nums: Seq<Option<N>>, i: int, zero: N) -> (
    Seq<(N, N, N)>,
    Option<bool>,
)
    decreases ps.len() - i,
{
    if i < 0 || i >= ps.len() {
        (seq![], None)
    } else if ps[i].0 == 73 {
        let (pts, c) = hatch_walk(ps, nums, i + 1, zero);
        (
            pts,
            if c is Some {
                c
            } else {
                match chars::i32_value(ps[i].1) {
                    Some(f) => Some(f == 1),
                    None => None,
                }
            },
        )
    } else if ps[i].0 == 10 && nums[i] is Some {
        let x = nums[i]->0;
        let (y, j) = y_lookahead(ps, nums, i + 1);
        proof {
            lemma_y_lookahead_bounds(ps, nums, i + 1);
        }
        let (pts, c) = hatch_walk(ps, nums, j, zero);
        (
            match y {
                Some(y) => seq![(x, y, zero)] + pts,
                None => pts,
            },
            c,
        )
    } else {
        hatch_walk(ps, nums, i + 1, zero)
    }
}

/// The outline of a polyline boundary path of a `HATCH` (see `hatch_walk`),
/// closed by repeating its first vertex when its flag says so and it has more
/// than two vertices; `None` when fewer than two vertices remain.
pub open spec fn hatch_polyline_outline<N>(ps: Seq<PairV>, nums: Seq<Option<N>>, zero: N) -> Option<
    Seq<(N, N, N)>,
> {
    let (pts, c) = hatch_walk(ps, nums, 0, zero);
    closed_outline(
        pts,
        match c {
            Some(b) => b,
            None => false,
        },
    )
}

/// The outline of the polyline boundary path held by `segment` (see
/// `hatch_polyline_outline`).
pub fn parse_hatch_polyline_path<N: Copy>(segment: &[Pair], nums: &[Option<N>], zero: N) -> (r:
    Option<Vec<(N, N, N)>>)
    requires
        nums.len() == segment.len(),
    ensures
        match r {
            Some(v) => hatch_polyline_outline(pairs_view(segment@), nums@, zero) == Some(v@),
            None => hatch_polyline_outline(pairs_view(segment@), nums@, zero) is None,
        },
{
    let ghost ps = pairs_view(segment@);
    let mut vertices: Vec<(N, N, N)> = Vec::new();
    let mut setting: Option<bool> = None;
    let mut i: usize = 0;
    while i < segment.len()
        invariant
            i <= segment.len(),
            nums.len() == segment.len(),
            ps == pairs_view(segment@),
            hatch_walk(ps, nums@, 0, zero).0 == vertices@ + hatch_walk(ps, nums@, i as int, zero).0,
            hatch_walk(ps, nums@, 0, zero).1 == (if hatch_walk(ps, nums@, i as int, zero).1 is Some {
                hatch_walk(ps, nums@, i as int, zero).1
            } else {
                setting
            }),
        decreases segment.len() - i,
    {
        assert(ps[i as int] == segment@[i as int]@);
        let code = segment[i].code;
        if code == 73 {
            let v = chars_of(segment[i].value.as_str());
            match parse_i32(&v) {
                Some(f) => {
                    setting = Some(f == 1);
                },
                None => {},
            }
            i += 1;
        } else if code == 10 && nums[i].is_some() {
            let x = match nums[i] {
                Some(x) => x,
                None => zero,
            };
            let mut y: Option<N> = None;
            let mut j = i + 1;
            proof {
                lemma_y_lookahead_bounds(ps, nums@, i + 1);
            }
            while j < segment.len()
                invariant_except_break
                    y is None,
                    y_lookahead(ps, nums@, i + 1) == y_lookahead(ps, nums@, j as int),
                invariant
                    i < j <= segment.len(),
                    nums.len() == segment.len(),
                    ps == pairs_view(segment@),
                ensures
                    y_lookahead(ps, nums@, i + 1) == (y, j as int),
                decreases segment.len() - j,
            {
                assert(ps[j as int] == segment@[j as int]@);
                if segment[j].code == 10 {
                    assert(y_lookahead(ps, nums@, j as int) == (y, j as int));
                    break;
                }
                if segment[j].code == 20 {
                    y = nums[j];
                    assert(y_lookahead(ps, nums@, j as int) == (y, j as int));
                    break;
                }
                j += 1;
            }
            let ghost before = vertices@;
            match y {
                Some(y) => {
                    vertices.push((x, y, zero));
                    proof {
                        assert(before.push((x, y, zero)) + hatch_walk(ps, nums@, j as int, zero).0
                            =~= before + (seq![(x, y, zero)] + hatch_walk(ps, nums@, j as int, zero).0));
                    }
                },
                None => {},
            }
            i = j;
        } else {
            i += 1;
        }
    }
    assert(vertices@ + hatch_walk(ps, nums@, i as int, zero).0 =~= vertices@);
    let closed = match setting {
        Some(b) => b,
        None => false,
    };
    close_outline(vertices, closed)
}

/// The `i32` that a value reads as, or 0.
pub open spec fn flag_or_zero_of(v: Seq<char>) -> i32 {
    match chars::i32_value(v) {
        Some(f) => f as i32,
        None => 0,
    }
}

/// The runs of `ps` from `i` on that each pair with group code `code` opens:
/// the opening pair's value read as an `i32` (0 when it is none) and the range
/// of pairs up to the next pair with that code.
pub open spec fn runs(ps: Seq<PairV>, i: int, code: i32) -> Seq<(i32, int, int)>
    decreases ps.len() - i,
{
    if i < 0 || i >= ps.len() {
        seq![]
    } else if ps[i].0 != code {
        runs(ps, i + 1, code)
    } else {
        let e = next_with_code(ps, i + 1, code);
        proof {
            lemma_next_with_code_bounds(ps, i + 1, code);
        }
        seq![(flag_or_zero_of(ps[i].1), i + 1, e)] + runs(ps, e, code)
    }
}

/// One run of pairs opened by a given group code: the opener's value read as
/// an `i32` (0 when it is none) and the run's pairs `start..end`.
pub struct Run {
    pub flag: i32,
    pub start: usize,
    pub end: usize,
}

/// The runs that the pairs with group code `code` open in `payload`: the
/// boundary paths of a `HATCH` (group 92) or the edges of a path (group 72).
pub fn split_runs(payload: &[Pair], code: i32) -> (r: Vec<Run>)
    ensures
        r@.map_values(|x: Run| (x.flag, x.start as int, x.end as int)) == runs(
            pairs_view(payload@),
            0,
            code,
        ),
        forall|k: int| 0 <= k < r@.len() ==> (#[trigger] r@[k]).start <= r@[k].end <= payload@.len(),
{
    let ghost ps = pairs_view(payload@);
    let mut out: Vec<Run> = Vec::new();
    let mut i: usize = 0;
    assert(out@.map_values(|x: Run| (x.flag, x.start as int, x.end as int)) + runs(ps, 0, code)
        =~= runs(ps, 0, code));
    while i < payload.len()
        invariant
            i <= payload.len(),
            ps == pairs_view(payload@),
            runs(ps, 0, code) == out@.map_values(|x: Run| (x.flag, x.start as int, x.end as int))
                + runs(ps, i as int, code),
            forall|k: int|
                0 <= k < out@.len() ==> (#[trigger] out@[k]).start <= out@[k].end <= payload@.len(),
        decreases payload.len() - i,
    {
        assert(ps[i as int] == payload@[i as int]@);
        if payload[i].code != code {
            i += 1;
        } else {
            proof {
                lemma_next_with_code_bounds(ps, i + 1, code);
            }
            let e = next_code_index(payload, i + 1, code);
            let v = chars_of(payload[i].value.as_str());
            let flag = match parse_i32(&v) {
                Some(f) => f,
                None => 0,
            };
            let ghost before = out@.map_values(|x: Run| (x.flag, x.start as int, x.end as int));
            out.push(Run { flag, start: i + 1, end: e });
            proof {
                let item = (flag, i + 1, e as int);
                assert(out@.map_values(|x: Run| (x.flag, x.start as int, x.end as int)) =~= before.push(item));
                assert(before.push(item) + runs(ps, e as int, code) =~= before + (seq![item] + runs(ps, e as int, code)));
            }
            i = e;
        }
    }
    assert(out@.map_values(|x: Run| (x.flag, x.start as int, x.end as int)) + runs(ps, i as int, code)
        =~= out@.map_values(|x: Run| (x.flag, x.start as int, x.end as int)));
    out
}

/// Whether a boundary path with path-type flags `flag` is a polyline path
/// (bit 2 set); every other path is made of edges.
pub open spec fn polyline_path(flag: i32) -> bool {
    flag & 2 == 2
}

/// A boundary path is a polyline path exactly when bit 2 of its flags is
/// set; every flag without bit 2 (such as 1, 4, 5 or 16) makes an edge path.
pub proof fn lemma_polyline_path_is_bit2(flag: i32)
    ensures
        polyline_path(flag) <==> (flag & 2) == 2,
        (flag & 2) == 0 ==> !polyline_path(flag),
{
    assert((flag & 2) == 0 || (flag & 2) == 2) by (bit_vector);
}

/// Whether a boundary path with path-type flags `flag` is a polyline path.
pub fn is_polyline_path(flag: i32) -> (r: bool)
    ensures
        r == polyline_path(flag),
        r == ((flag & 2) == 2),
{
    flag & 2 == 2
}

/// Whether a hatch is drawn only in part: some path of `paths` is made of
/// edges and met an edge that could not be drawn (`edge_partial[k]` for the
/// `k`-th path; it is not read for a polyline path).
pub open spec fn hatch_is_partial(paths: Seq<Run>, edge_partial: Seq<bool>) -> bool {
    exists|k: int| 0 <= k < paths.len() && !polyline_path(paths[k].flag) && #[trigger] edge_partial[k]
}

/// Whether a hatch whose boundary paths are `paths` is drawn only in part
/// (see `hatch_is_partial`).
pub fn hatch_partial(paths: &[Run], edge_partial: &[bool]) -> (r: bool)
    requires
        paths.len() == edge_partial.len(),
    ensures
        r == hatch_is_partial(paths@, edge_partial@),
{
    let mut k: usize = 0;
    while k < paths.len()
        invariant
            k <= paths.len() == edge_partial.len(),
            forall|j: int| 0 <= j < k ==> !(!polyline_path(paths@[j].flag) && #[trigger] edge_partial@[j]),
        decreases paths.len() - k,
    {
        if !is_polyline_path(paths[k].flag) && edge_partial[k] {
            return true;
        }
        k += 1;
    }
    false
}

/// Among candidate boundaries given by their vertex counts (`None` for a
/// path that gave none), the index of the one kept: the first of the longest
/// with at least two vertices.
pub open spec fn longest_index(lens: Seq<Option<usize>>) -> Option<int>
    decreases lens.len(),
{
    if lens.len() == 0 {
        None
    } else {
        let best = longest_index(lens.drop_last());
        let k = lens.len() - 1;
        match lens[k] {
            Some(n) => if n >= 2 && (best is None || n > lens[best->0]->0) {
                Some(k)
            } else {
                best
            },
            None => best,
        }
    }
}

pub proof fn lemma_longest_index(lens: Seq<Option<usize>>)
    ensures
        longest_index(lens) matches Some(k) ==> 0 <= k < lens.len() && lens[k] is Some && lens[k]->0 >= 2,
    decreases lens.len(),
{
    if lens.len() > 0 {
        lemma_longest_index(lens.drop_last());
    }
}

/// The boundary that a `HATCH` keeps among its paths (see `longest_index`).
pub fn choose_boundary(lens: &[Option<usize>]) -> (r: Option<usize>)
    ensures
        match r {
            Some(k) => longest_index(lens@) == Some(k as int),
            None => longest_index(lens@) is None,
        },
{
    let mut best: Option<usize> = None;
    let mut best_len: usize = 0;
    let mut k: usize = 0;
    while k < lens.len()
        invariant
            k <= lens.len(),
            match best {
                Some(b) => longest_index(lens@.take(k as int)) == Some(b as int) && b < k
                    && lens@[b as int] == Some(best_len),
                None => longest_index(lens@.take(k as int)) is None,
            },
        decreases lens.len() - k,
    {
        assert(lens@.take(k + 1).drop_last() =~= lens@.take(k as int));
        proof {
            lemma_longest_index(lens@.take(k as int));
            if let Some(b) = best {
                assert(lens@.take(k + 1)[b as int] == lens@[b as int]);
            }
        }
        match lens[k] {
            Some(n) => {
                if n >= 2 && (best.is_none() || n > best_len) {
                    best = Some(k);
                    best_len = n;
                }
            },
            None => {},
        }
        k += 1;
    }
    assert(lens@.take(k as int) =~= lens@);
    best
}

/// Whether a candidate boundary is long enough to be kept: it gave at least
/// two vertices.
pub open spec fn long_enough(c: Option<usize>) -> bool {
    c matches Some(n) && n >= 2
}

/// The boundary kept is the first of the longest: there is none exactly when
/// no candidate has two vertices or more; otherwise the kept one has two or
/// more, no candidate has more, and every earlier candidate with two or
/// more has fewer.
pub proof fn lemma_longest_is_first_of_longest(lens: Seq<Option<usize>>)
    ensures
        longest_index(lens) is None <==> forall|j: int| 0 <= j < lens.len() ==> !long_enough(#[trigger] lens[j]),
        longest_index(lens) matches Some(k) ==> {
            &&& 0 <= k < lens.len()
            &&& long_enough(lens[k])
            &&& forall|j: int| 0 <= j < lens.len() && long_enough(#[trigger] lens[j]) ==> lens[j]->0 <= lens[k]->0
            &&& forall|j: int| 0 <= j < k && long_enough(#[trigger] lens[j]) ==> lens[j]->0 < lens[k]->0
        },
    decreases lens.len(),
{
    if lens.len() > 0 {
        let d = lens.drop_last();
        lemma_longest_is_first_of_longest(d);
        assert forall|j: int| 0 <= j < d.len() implies #[trigger] d[j] == lens[j] by {}
        let last = lens.len() - 1;
        if longest_index(lens) is None {
            assert forall|j: int| 0 <= j < lens.len() implies !long_enough(#[trigger] lens[j]) by {
                if j < last {
                    assert(d[j] == lens[j]);
                }
            }
        }
        if let Some(k) = longest_index(lens) {
            assert forall|j: int| 0 <= j < lens.len() && long_enough(#[trigger] lens[j]) implies lens[j]->0
                <= lens[k]->0 by {
                if j < last {
                    assert(d[j] == lens[j]);
                }
            }
            assert forall|j: int| 0 <= j < k && long_enough(#[trigger] lens[j]) implies lens[j]->0
                < lens[k]->0 by {
                assert(d[j] == lens[j]);
            }
        }
    }
}

/// The vertex counts of candidate boundaries.
pub open spec fn candidate_lens<T>(cs: Seq<Option<Vec<T>>>) -> Seq<Option<usize>> {
    cs.map_values(|c: Option<Vec<T>>| match c {
        Some(v) => Some(v.len()),
        None => None,
    })
}

/// The boundary that a `HATCH` keeps among the candidates its paths gave
/// (`None` for a path that gave none): the first of the longest with at
/// least two vertices, or none (see `longest_index`).
pub fn pick_boundary<T>(candidates: Vec<Option<Vec<T>>>) -> (r: Option<Vec<T>>)
    ensures
        match longest_index(candidate_lens(candidates@)) {
            Some(k) => r == candidates@[k],
            None => r is None,
        },
{
    let mut lens: Vec<Option<usize>> = Vec::new();
    let mut k: usize = 0;
    while k < candidates.len()
        invariant
            k <= candidates.len(),
            lens@ == candidate_lens(candidates@.take(k as int)),
        decreases candidates.len() - k,
    {
        let n = match &candidates[k] {
            Some(v) => Some(v.len()),
            None => None,
        };
        lens.push(n);
        k += 1;
        assert(lens@ =~= candidate_lens(candidates@.take(k as int)));
    }
    assert(candidates@.take(k as int) =~= candidates@);
    match choose_boundary(&lens) {
        Some(best) => {
            proof {
                lemma_longest_index(lens@);
            }
            let mut cs = candidates;
            cs.remove(best)
        },
        None => None,
    }
}

/// A point read from the last pairs with three group codes: the last
/// `x_code` and `y_code` pairs must read as numbers; the last `z_code` pair
/// gives the third coordinate, and `zero` stands in when there is no such
/// pair or it is no number.
pub open spec fn point_from_last_spec<N>(
    ps: Seq<PairV>,
    nums: Seq<Option<N>>,
    x_code: i32,
    y_code: i32,
    z_code: i32,
    zero: N,
) -> Option<(N, N, N)> {
    let n = ps.len() as int;
    match (last_number(ps, nums, 0, n, x_code, None), last_number(ps, nums, 0, n, y_code, None)) {
        (Some(x), Some(y)) => Some(
            (
                x,
                y,
                match last_number(ps, nums, 0, n, z_code, Some(zero)) {
                    Some(z) => z,
                    None => zero,
                },
            ),
        ),
        _ => None,
    }
}

/// The point made of the last pairs with the three group codes (see
/// `point_from_last_spec`).
pub fn point_from_last<N: Copy>(
    payload: &[Pair],
    nums: &[Option<N>],
    x_code: i32,
    y_code: i32,
    z_code: i32,
    zero: N,
) -> (r: Option<(N, N, N)>)
    requires
        nums.len() == payload.len(),
    ensures
        r == point_from_last_spec(pairs_view(payload@), nums@, x_code, y_code, z_code, zero),
{
    let n = payload.len();
    let x = last_number_in(payload, nums, 0, n, x_code, None);
    let y = last_number_in(payload, nums, 0, n, y_code, None);
    match (x, y) {
        (Some(x), Some(y)) => {
            let z = match last_number_in(payload, nums, 0, n, z_code, Some(zero)) {
                Some(z) => z,
                None => zero,
            };
            Some((x, y, z))
        },
        _ => None,
    }
}

/// The two end points of a `LINE`: groups 10, 20, 30 and 11, 21, 31, the
/// last of each (see `point_from_last_spec`).
pub fn line_points<N: Copy>(payload: &[Pair], nums: &[Option<N>], zero: N) -> (r: Option<(
    (N, N, N),
    (N, N, N),
)>)
    requires
        nums.len() == payload.len(),
    ensures
        r == match (
            point_from_last_spec(pairs_view(payload@), nums@, 10, 20, 30, zero),
            point_from_last_spec(pairs_view(payload@), nums@, 11, 21, 31, zero),
        ) {
            (Some(a), Some(b)) => Some((a, b)),
            _ => None,
        },
{
    match (
        point_from_last(payload, nums, 10, 20, 30, zero),
        point_from_last(payload, nums, 11, 21, 31, zero),
    ) {
        (Some(a), Some(b)) => Some((a, b)),
        _ => None,
    }
}

/// The outline of a `SOLID` or `TRACE`: its four corners (groups 10 to 13
/// with 20 to 23 and 30 to 33, first of each) in the order 1, 2, 4, 3 and
/// back to 1; `None` when a corner is missing.
pub open spec fn solid_outline_spec<N>(ps: Seq<PairV>, nums: Seq<Option<N>>, zero: N) -> Option<
    Seq<(N, N, N)>,
> {
    match (
        point_for(ps, nums, 10, 20, 30, zero),
        point_for(ps, nums, 11, 21, 31, zero),
        point_for(ps, nums, 12, 22, 32, zero),
        point_for(ps, nums, 13, 23, 33, zero),
    ) {
        (Some(p1), Some(p2), Some(p3), Some(p4)) => Some(seq![p1, p2, p4, p3, p1]),
        _ => None,
    }
}

/// The outline of a `SOLID` or `TRACE` (see `solid_outline_spec`).
pub fn solid_outline<N: Copy>(payload: &[Pair], nums: &[Option<N>], zero: N) -> (r: Option<
    Vec<(N, N, N)>,
>)
    requires
        nums.len() == payload.len(),
    ensures
        match r {
            Some(v) => solid_outline_spec(pairs_view(payload@), nums@, zero) == Some(v@),
            None => solid_outline_spec(pairs_view(payload@), nums@, zero) is None,
        },
{
    let p1 = point_for_codes(payload, nums, 10, 20, 30, zero);
    let p2 = point_for_codes(payload, nums, 11, 21, 31, zero);
    let p3 = point_for_codes(payload, nums, 12, 22, 32, zero);
    let p4 = point_for_codes(payload, nums, 13, 23, 33, zero);
    match (p1, p2, p3, p4) {
        (Some(p1), Some(p2), Some(p3), Some(p4)) => {
            let mut v: Vec<(N, N, N)> = Vec::new();
            v.push(p1);
            v.push(p2);
            v.push(p4);
            v.push(p3);
            v.push(p1);
            assert(v@ =~= seq![p1, p2, p4, p3, p1]);
            Some(v)
        },
        _ => None,
    }
}

/// Whether the last group 70 that reads as an `i32` has bit 1 set.
pub open spec fn flag_bit1(ps: Seq<PairV>) -> bool {
    match crate::scan::last_flag(ps, 70) {
        Some(f) => ((f as i32) & 1) == 1,
        None => false,
    }
}

/// The outline of a `SPLINE`: its fit points (groups 11, 21, 31) when there
/// are at least two, else its control points (groups 10, 20, 30), closed
/// when bit 1 of its flags is set (see `closed_outline`).
pub open spec fn spline_outline_spec<N>(ps: Seq<PairV>, nums: Seq<Option<N>>, zero: N) -> Option<
    Seq<(N, N, N)>,
> {
    let fit = point_sequence(ps, nums, ps.len() as int, 11, 21, 31, zero);
    let pts = if fit.len() >= 2 {
        fit
    } else {
        point_sequence(ps, nums, ps.len() as int, 10, 20, 30, zero)
    };
    closed_outline(pts, flag_bit1(ps))
}

/// A `SPLINE` is closed exactly when its last group 70 that reads as an
/// `i32` has bit 1 set. Its outline is then its points with the first
/// repeated at the end (when there are more than two); otherwise (a value
/// such as 8, or no flags at all) it is its points as they stand, when there
/// are at least two.
pub proof fn lemma_spline_closed_by_bit1<N>(ps: Seq<PairV>, nums: Seq<Option<N>>, zero: N)
    ensures
        flag_bit1(ps) == (crate::scan::last_flag(ps, 70) matches Some(f) && ((f as i32) & 1) == 1),
        ({
            let fit = point_sequence(ps, nums, ps.len() as int, 11, 21, 31, zero);
            let pts = if fit.len() >= 2 {
                fit
            } else {
                point_sequence(ps, nums, ps.len() as int, 10, 20, 30, zero)
            };
            let bit1 = crate::scan::last_flag(ps, 70) matches Some(f) && ((f as i32) & 1) == 1;
            &&& !bit1 ==> spline_outline_spec(ps, nums, zero) == if pts.len() >= 2 {
                Some(pts)
            } else {
                None
            }
            &&& bit1 && pts.len() > 2 ==> spline_outline_spec(ps, nums, zero) == Some(pts.push(pts[0]))
        }),
{
}

/// Whether the last group 70 of `payload` that reads as an `i32` has bit 1 set.
fn closed_by_flags(payload: &[Pair]) -> (r: bool)
    ensures
        r == flag_bit1(pairs_view(payload@)),
        r == (crate::scan::last_flag(pairs_view(payload@), 70) matches Some(f) && ((f as i32) & 1) == 1),
{
    let ghost ps = pairs_view(payload@);
    let mut closed = false;
    let mut j: usize = 0;
    while j < payload.len()
        invariant
            j <= payload.len(),
            ps == pairs_view(payload@),
            closed == flag_bit1(ps.take(j as int)),
        decreases payload.len() - j,
    {
        assert(ps.take(j + 1).drop_last() =~= ps.take(j as int));
        assert(ps.take(j + 1).last() == payload@[j as int]@);
        if payload[j].code == 70 {
            let v = chars_of(payload[j].value.as_str());
            match parse_i32(&v) {
                Some(f) => {
                    closed = (f & 1) == 1;
                },
                None => {},
            }
        }
        j += 1;
    }
    assert(ps.take(j as int) =~= ps);
    closed
}

/// The outline of a `SPLINE` (see `spline_outline_spec`).
pub fn spline_outline<N: Copy>(payload: &[Pair], nums: &[Option<N>], zero: N) -> (r: Option<
    Vec<(N, N, N)>,
>)
    requires
        nums.len() == payload.len(),
    ensures
        match r {
            Some(v) => spline_outline_spec(pairs_view(payload@), nums@, zero) == Some(v@),
            None => spline_outline_spec(pairs_view(payload@), nums@, zero) is None,
        },
{
    let closed = closed_by_flags(payload);
    let fit = collect_point_sequence(payload, nums, 11, 21, 31, zero);
    let pts = if fit.len() >= 2 {
        fit
    } else {
        collect_point_sequence(payload, nums, 10, 20, 30, zero)
    };
    close_outline(pts, closed)
}

/// The two end points of a line edge of a `HATCH` boundary: the last groups
/// 10 and 20, and 11 and 21, all of which must read as numbers; the third
/// coordinate is `zero`.
pub open spec fn line_edge_spec<N>(ps: Seq<PairV>, nums: Seq<Option<N>>, zero: N) -> Option<
    ((N, N, N), (N, N, N)),
> {
    let n = ps.len() as int;
    match (
        last_number(ps, nums, 0, n, 10, None),
        last_number(ps, nums, 0, n, 20, None),
        last_number(ps, nums, 0, n, 11, None),
        last_number(ps, nums, 0, n, 21, None),
    ) {
        (Some(x1), Some(y1), Some(x2), Some(y2)) => Some(((x1, y1, zero), (x2, y2, zero))),
        _ => None,
    }
}

/// The end points of a line edge of a `HATCH` boundary (see `line_edge_spec`).
pub fn line_edge_points<N: Copy>(edge: &[Pair], nums: &[Option<N>], zero: N) -> (r: Option<(
    (N, N, N),
    (N, N, N),
)>)
    requires
        nums.len() == edge.len(),
    ensures
        r == line_edge_spec(pairs_view(edge@), nums@, zero),
{
    let n = edge.len();
    let x1 = last_number_in(edge, nums, 0, n, 10, None);
    let y1 = last_number_in(edge, nums, 0, n, 20, None);
    let x2 = last_number_in(edge, nums, 0, n, 11, None);
    let y2 = last_number_in(edge, nums, 0, n, 21, None);
    match (x1, y1, x2, y2) {
        (Some(x1), Some(y1), Some(x2), Some(y2)) => Some(((x1, y1, zero), (x2, y2, zero))),
        _ => None,
    }
}

/// A finished outline keeps the points in their order; a closed one with
/// more than two points ends with its first point once more, and an outline
/// with fewer than two points is dropped.
pub proof fn lemma_closed_outline_shape<T>(points: Seq<T>, closed: bool)
    ensures
        points.len() < 2 ==> closed_outline(points, closed) is None,
        points.len() >= 2 ==> (closed_outline(points, closed) matches Some(v) && v.take(
            points.len() as int,
        ) == points && (if closed && points.len() > 2 {
            v.len() == points.len() + 1 && v.last() == points[0]
        } else {
            v.len() == points.len()
        })),
{
    if points.len() >= 2 {
        let v = closed_outline(points, closed)->0;
        if closed && points.len() > 2 {
            assert(v.take(points.len() as int) =~= points);
        } else {
            assert(v.take(points.len() as int) =~= points);
        }
    }
}

/// Whether an arc or elliptic edge of a `HATCH` boundary runs
/// counter-clockwise: its first group 73, read as an `i32`, is not 0; when
/// that pair is missing or is no `i32`, it does.
pub open spec fn edge_ccw_spec(ps: Seq<PairV>) -> bool {
    match crate::plans::first_value(ps, 73) {
        Some(v) => match chars::i32_value(v) {
            Some(n) => n != 0,
            None => true,
        },
        None => true,
    }
}

/// Whether an arc or elliptic edge runs counter-clockwise (see `edge_ccw_spec`).
pub fn edge_ccw(edge: &[Pair]) -> (r: bool)
    ensures
        r == edge_ccw_spec(pairs_view(edge@)),
{
    match crate::plans::first_value_of(edge, 73) {
        Some(v) => {
            let c = chars_of(v.as_str());
            match parse_i32(&c) {
                Some(n) => n != 0,
                None => true,
            }
        },
        None => true,
    }
}

proof fn lemma_last_number_subrange<N>(
    ps: Seq<PairV>,
    nums: Seq<Option<N>>,
    a: int,
    b: int,
    code: i32,
    default: Option<N>,
)
    requires
        0 <= a <= b <= ps.len(),
        nums.len() == ps.len(),
    ensures
        last_number(ps.subrange(a, b), nums.subrange(a, b), 0, b - a, code, default) == last_number(
            ps,
            nums,
            a,
            b,
            code,
            default,
        ),
    decreases b - a,
{
    if a < b {
        lemma_last_number_subrange(ps, nums, a, b - 1, code, default);
        let sp = ps.subrange(a, b);
        let sn = nums.subrange(a, b);
        lemma_last_number_prefix(sp, sn, b - a - 1, code, default);
        assert(ps.subrange(a, b - 1) =~= sp.subrange(0, b - a - 1));
        assert(nums.subrange(a, b - 1) =~= sn.subrange(0, b - a - 1));
    }
}

proof fn lemma_last_number_prefix<N>(ps: Seq<PairV>, nums: Seq<Option<N>>, m: int, code: i32, default: Option<N>)
    requires
        0 <= m <= ps.len(),
        nums.len() == ps.len(),
    ensures
        last_number(ps.subrange(0, m), nums.subrange(0, m), 0, m, code, default) == last_number(
            ps,
            nums,
            0,
            m,
            code,
            default,
        ),
    decreases m,
{
    if m > 0 {
        lemma_last_number_prefix(ps, nums, m - 1, code, default);
        let sp = ps.subrange(0, m);
        let sn = nums.subrange(0, m);
        lemma_last_number_prefix(sp, sn, m - 1, code, default);
        assert(sp.subrange(0, m - 1) =~= ps.subrange(0, m - 1));
        assert(sn.subrange(0, m - 1) =~= nums.subrange(0, m - 1));
    }
}

/// The point of the pairs `a..b` (see `point_from_last_spec`).
fn point_from_range<N: Copy>(pairs: &[Pair], nums: &[Option<N>], a: usize, b: usize, zero: N) -> (r: Option<(N, N, N)>)
    requires
        nums.len() == pairs.len(),
        a <= b <= pairs.len(),
    ensures
        r == point_from_last_spec(
            pairs_view(pairs@).subrange(a as int, b as int),
            nums@.subrange(a as int, b as int),
            10,
            20,
            30,
            zero,
        ),
{
    let ghost ps = pairs_view(pairs@);
    let x = last_number_in(pairs, nums, a, b, 10, None);
    let y = last_number_in(pairs, nums, a, b, 20, None);
    let z = last_number_in(pairs, nums, a, b, 30, Some(zero));
    proof {
        lemma_last_number_subrange(ps, nums@, a as int, b as int, 10, None);
        lemma_last_number_subrange(ps, nums@, a as int, b as int, 20, None);
        lemma_last_number_subrange(ps, nums@, a as int, b as int, 30, Some(zero));
        assert(ps.subrange(a as int, b as int).len() == b - a);
    }
    match (x, y) {
        (Some(x), Some(y)) => Some(
            (
                x,
                y,
                match z {
                    Some(z) => z,
                    None => zero,
                },
            ),
        ),
        _ => None,
    }
}

/// The points of the polyline vertices `vs` (payload range and face flag of
/// each), in order: a face record gives none, nor does a vertex whose point
/// does not read (see `point_from_last_spec` over its payload).
pub open spec fn vertex_points<N>(
    ps: Seq<PairV>,
    nums: Seq<Option<N>>,
    vs: Seq<(int, int, bool)>,
    zero: N,
) -> Seq<(N, N, N)>
    decreases vs.len(),
{
    if vs.len() == 0 {
        seq![]
    } else {
        let prev = vertex_points(ps, nums, vs.drop_last(), zero);
        let v = vs.last();
        if v.2 {
            prev
        } else {
            match point_from_last_spec(ps.subrange(v.0, v.1), nums.subrange(v.0, v.1), 10, 20, 30, zero) {
                Some(p) => prev.push(p),
                None => prev,
            }
        }
    }
}

/// The outline of the `POLYLINE` sequence whose marker is pair `i`: none
/// when no `SEQEND` ends its vertices; otherwise the points of its vertices,
/// closed as its flags say (see `closed_outline`).
pub open spec fn polyline_outline<N>(ps: Seq<PairV>, nums: Seq<Option<N>>, i: int, zero: N) -> Option<
    Seq<(N, N, N)>,
> {
    if !crate::scan::vertex_walk(ps, crate::scan::polyline_header_end(ps, i)).1 {
        None
    } else {
        closed_outline(
            vertex_points(ps, nums, crate::scan::polyline_vertices(ps, i), zero),
            crate::scan::polyline_closed(crate::scan::polyline_flags(ps, i)),
        )
    }
}

/// A `POLYLINE` is closed exactly when its header flags have bit 1 or bit 32
/// set. With a `SEQEND`, its outline is then its vertex points with the
/// first repeated at the end (when there are more than two); with other
/// flags (such as 8, a 3D polyline, or 0) it is its vertex points as they
/// stand, when there are at least two. Without a `SEQEND` there is none.
pub proof fn lemma_polyline_closed_by_flags<N>(ps: Seq<PairV>, nums: Seq<Option<N>>, i: int, zero: N)
    ensures
        ({
            let f = crate::scan::polyline_flags(ps, i);
            let pts = vertex_points(ps, nums, crate::scan::polyline_vertices(ps, i), zero);
            let complete = crate::scan::vertex_walk(ps, crate::scan::polyline_header_end(ps, i)).1;
            let closing = (f & 1) == 1 || (f & 32) == 32;
            &&& crate::scan::polyline_closed(f) == closing
            &&& !complete ==> polyline_outline(ps, nums, i, zero) is None
            &&& complete && !closing ==> polyline_outline(ps, nums, i, zero) == if pts.len() >= 2 {
                Some(pts)
            } else {
                None
            }
            &&& complete && closing && pts.len() > 2 ==> polyline_outline(ps, nums, i, zero) == Some(
                pts.push(pts[0]),
            )
        }),
{
}

/// Reads the `POLYLINE` sequence whose marker is pair `i`: its structure
/// (see `scan_polyline`) and its outline (see `polyline_outline`).
pub fn read_polyline<N: Copy>(pairs: &[Pair], nums: &[Option<N>], i: usize, zero: N) -> (r: (
    crate::scan::PolylineScan,
    Option<Vec<(N, N, N)>>,
))
    requires
        i < pairs.len(),
        nums.len() == pairs.len(),
    ensures
        crate::scan::is_polyline_scan(pairs_view(pairs@), i as int, r.0),
        i < r.0.next <= pairs.len(),
        match r.1 {
            Some(v) => polyline_outline(pairs_view(pairs@), nums@, i as int, zero) == Some(v@),
            None => polyline_outline(pairs_view(pairs@), nums@, i as int, zero) is None,
        },
{
    let ghost ps = pairs_view(pairs@);
    let scan = crate::scan::scan_polyline(pairs, i);
    if !scan.complete {
        return (scan, None);
    }
    let ghost views = crate::scan::polyline_vertices(ps, i as int);
    let ghost h = crate::scan::polyline_header_end(ps, i as int);
    proof {
        crate::scan::lemma_polyline_next_bounds(ps, i as int);
        crate::scan::lemma_vertex_walk_bounds(ps, h);
        assert forall|k: int| 0 <= k < views.len() implies (#[trigger] views[k]).0 <= views[k].1 <= ps.len() by {
            assert(views[k].0 == crate::scan::vertex_walk(ps, h).0[k].0);
        }
    }
    let mut points: Vec<(N, N, N)> = Vec::new();
    let mut k: usize = 0;
    while k < scan.vertices.len()
        invariant
            k <= scan.vertices.len(),
            ps == pairs_view(pairs@),
            nums.len() == pairs.len(),
            views == scan.vertices@.map_values(|v: crate::scan::VertexSpan| (v.start as int, v.end as int, v.face)),
            forall|j: int| 0 <= j < views.len() ==> (#[trigger] views[j]).0 <= views[j].1 <= ps.len(),
            points@ == vertex_points(ps, nums@, views.take(k as int), zero),
        decreases scan.vertices.len() - k,
    {
        let v = &scan.vertices[k];
        assert(views[k as int] == (v.start as int, v.end as int, v.face));
        assert(views.take(k + 1).drop_last() =~= views.take(k as int));
        assert(views.take(k + 1).last() == views[k as int]);
        if !v.face {
            match point_from_range(pairs, nums, v.start, v.end, zero) {
                Some(p) => points.push(p),
                None => {},
            }
        }
        k += 1;
    }
    assert(views.take(k as int) =~= views);
    let closed = scan.closed;
    let outline = close_outline(points, closed);
    (scan, outline)
}

/// The number of the first group code among `codes` that has one (see
/// `first_number`), or `default` when none has.
pub open spec fn first_number_among<N>(ps: Seq<PairV>, nums: Seq<Option<N>>, codes: Seq<i32>, default: N) -> N
    decreases codes.len(),
{
    if codes.len() == 0 {
        default
    } else {
        match first_number(ps, nums, codes[0]) {
            Some(n) => n,
            None => first_number_among(ps, nums, codes.drop_first(), default),
        }
    }
}

/// The number of the first group code among `codes` that has one in
/// `payload`, or `default`: how a text height is chosen (for a `DIMENSION`
/// groups 140 then 40, for a `LEADER` group 40, for a `MULTILEADER` groups
/// 41, 40 then 45).
pub fn number_among<N: Copy>(payload: &[Pair], nums: &[Option<N>], codes: &[i32], default: N) -> (r: N)
    requires
        nums.len() == payload.len(),
    ensures
        r == first_number_among(pairs_view(payload@), nums@, codes@, default),
{
    let ghost ps = pairs_view(payload@);
    let mut k: usize = 0;
    assert(codes@.skip(0) =~= codes@);
    while k < codes.len()
        invariant
            k <= codes.len(),
            nums.len() == payload.len(),
            ps == pairs_view(payload@),
            first_number_among(ps, nums@, codes@, default) == first_number_among(
                ps,
                nums@,
                codes@.skip(k as int),
                default,
            ),
        decreases codes.len() - k,
    {
        assert(codes@.skip(k as int).drop_first() =~= codes@.skip(k + 1));
        match number_for_code(payload, nums, codes[k]) {
            Some(n) => {
                return n;
            },
            None => {},
        }
        k += 1;
    }
    default
}

/// Where the label of a leader stands: the point of groups 11, 21 and 31,
/// else the last vertex, else `fallback`.
pub open spec fn label_anchor_spec<N>(
    ps: Seq<PairV>,
    nums: Seq<Option<N>>,
    vertices: Seq<(N, N, N)>,
    fallback: Option<(N, N, N)>,
    zero: N,
) -> Option<(N, N, N)> {
    match point_for(ps, nums, 11, 21, 31, zero) {
        Some(p) => Some(p),
        None => if vertices.len() > 0 {
            Some(vertices.last())
        } else {
            fallback
        },
    }
}

/// Where the label of a `LEADER` or `MULTILEADER` stands (see
/// `label_anchor_spec`); a `LEADER` falls back to the origin, a
/// `MULTILEADER` to the point of groups 10, 20 and 30.
pub fn label_anchor<N: Copy>(
    payload: &[Pair],
    nums: &[Option<N>],
    vertices: &[(N, N, N)],
    fallback: Option<(N, N, N)>,
    zero: N,
) -> (r: Option<(N, N, N)>)
    requires
        nums.len() == payload.len(),
    ensures
        r == label_anchor_spec(pairs_view(payload@), nums@, vertices@, fallback, zero),
{
    match point_for_codes(payload, nums, 11, 21, 31, zero) {
        Some(p) => Some(p),
        None => if vertices.len() > 0 {
            Some(vertices[vertices.len() - 1])
        } else {
            fallback
        },
    }
}

} // verus!
