//! The **shadow footprint** decisions around the boundary tracer: where the footprint lies on the
//! scan, the traced loops with the refusal of a footprint that runs off the span, whether one
//! loop sits inside another, and the verdict on the certified loops.
use vstd::prelude::*;
use crate::columns::{
    column, has_edge, lemma_traced_kept, matched_rail, merge_justified, pair_traced, rail_of, relabel, total,
    trace_columns, traced_pair, untangled, vid, Side, Traced,
};
use crate::cut::CutFitFault;
use crate::loops::{
    close_loops, degree, degree_fault, disjoint_loops, is_loop, on_some_loop, opened, opens_loop, root_ends, short,
};
use crate::union_find::{is_forest, root};
use crate::verdict::Verdict;

verus! {

/// `k` is the first sample of the scan that meets the footprint.
pub open spec fn first_hit(nonempty: Seq<bool>, k: int) -> bool {
    0 <= k < nonempty.len() && nonempty[k] && forall|j: int| 0 <= j < k ==> !#[trigger] nonempty[j]
}

/// `k` is the last sample of the scan that meets the footprint.
pub open spec fn last_hit(nonempty: Seq<bool>, k: int) -> bool {
    0 <= k < nonempty.len() && nonempty[k] && forall|j: int| k < j < nonempty.len() ==> !#[trigger] nonempty[j]
}

/// The tracer's refusals before any sampling, on its σ-window `[lo, hi)` (as order keys) and the
/// number of cutter walls: an empty or reversed window is [`CutFitFault::DegenerateSpan`], a
/// cutter without walls [`CutFitFault::DegenerateSurface`], in that order.
pub fn trace_inputs(lo: u64, hi: u64, walls: usize) -> (res: Result<(), CutFitFault>)
    ensures
        res == if hi <= lo {
            Err::<(), CutFitFault>(CutFitFault::DegenerateSpan)
        } else if walls == 0 {
            Err::<(), CutFitFault>(CutFitFault::DegenerateSurface)
        } else {
            Ok::<(), CutFitFault>(())
        },
{
    if hi <= lo {
        Err(CutFitFault::DegenerateSpan)
    } else if walls == 0 {
        Err(CutFitFault::DegenerateSurface)
    } else {
        Ok(())
    }
}

/// Localise the footprint on the scan: `nonempty[k]` says whether the `k`-th sampled ruling
/// meets the cutter. Returns the first and last samples that do. A footprint the scan never meets
/// is [`CutFitFault::DegenerateSpan`]; one reaching the scan's own first or last sample has no
/// closing boundary there and is [`CutFitFault::ShadowUnbounded`].
pub fn footprint_extent(nonempty: &Vec<bool>) -> (res: Result<(usize, usize), CutFitFault>)
    ensures
        (forall|k: int| 0 <= k < nonempty@.len() ==> !#[trigger] nonempty@[k]) <==> res
            == Err::<(usize, usize), CutFitFault>(CutFitFault::DegenerateSpan),
        (exists|k: int| 0 <= k < nonempty@.len() && #[trigger] nonempty@[k]) ==> (
        res == Err::<(usize, usize), CutFitFault>(CutFitFault::ShadowUnbounded) <==> (nonempty@[0]
            || nonempty@.last())),
        res matches Ok((f, l)) ==> first_hit(nonempty@, f as int) && last_hit(nonempty@, l as int)
            && 0 < f && l < nonempty@.len() - 1,
{
    let n = nonempty.len();
    let mut first: Option<usize> = None;
    let mut last: usize = 0;
    let mut k: usize = 0;
    while k < n
        invariant
            k <= n,
            n == nonempty@.len(),
            first is None <==> forall|j: int| 0 <= j < k ==> !#[trigger] nonempty@[j],
            first matches Some(f) ==> first_hit(nonempty@, f as int) && f <= last < k && nonempty@[last as int]
                && forall|j: int| last < j < k ==> !#[trigger] nonempty@[j],
        decreases n - k,
    {
        if nonempty[k] {
            if first.is_none() {
                first = Some(k);
            }
            last = k;
        }
        k = k + 1;
    }
    match first {
        None => Err(CutFitFault::DegenerateSpan),
        Some(f) => {
            if f == 0 || last == n - 1 {
                proof {
                    if !nonempty@[0] {
                        assert(f != 0);
                    }
                }
                Err(CutFitFault::ShadowUnbounded)
            } else {
                assert(!nonempty@[0]);
                assert(!nonempty@[n - 1]);
                Ok((f, last))
            }
        },
    }
}

/// Trace the footprint's boundary over its sampled columns and read its closed loops off.
///
/// The scan's two flanking columns must be empty — the footprint closes inside the span — or
/// the trace is [`CutFitFault::ShadowUnbounded`]. Otherwise the columns are matched and joined
/// ([`trace_columns`]), refused as [`CutFitFault::ShadowEventTangled`] exactly when some adjacent
/// pair tangles. The tracer's graph — its edges exactly the matching's rails, each once, its
/// ends identified through sound joins only — is then returned, its union-find compressed,
/// together with what [`close_loops`] reads off it: [`CutFitFault::ShadowLoopOpen`] exactly when some vertex
/// of the graph carries a number of rails other than none or two,
/// [`CutFitFault::DegenerateSpan`] exactly when otherwise every component has fewer than three
/// vertices, and else the loops — each a simple cycle of the graph, no two sharing a vertex,
/// every vertex carrying two rails on one of them unless its component has fewer than three
/// vertices, and the loops in the order their rails are first met.
pub fn trace_footprint(cols: &Vec<Vec<(u64, u64)>>) -> (res: Result<
    (Traced, Result<Vec<Vec<usize>>, CutFitFault>),
    CutFitFault,
>)
    requires
        forall|c: int| 0 <= c < cols@.len() ==> column(#[trigger] cols@[c]@),
        total(cols@, cols@.len() as nat) < usize::MAX / 8,
    ensures
        res == Err::<(Traced, Result<Vec<Vec<usize>>, CutFitFault>), CutFitFault>(CutFitFault::ShadowUnbounded)
            <==> cols@.len() > 0 && (cols@[0]@.len() > 0 || cols@.last()@.len() > 0),
        // With the flanks empty, refused as tangled exactly when some adjacent pair tangles.
        res == Err::<(Traced, Result<Vec<Vec<usize>>, CutFitFault>), CutFitFault>(CutFitFault::ShadowEventTangled)
            <==> !(cols@.len() > 0 && (cols@[0]@.len() > 0 || cols@.last()@.len() > 0)) && exists|c: int|
            0 <= c < cols@.len() - 1 && !#[trigger] untangled(cols@[c]@, cols@[c + 1]@),
        res matches Err(f) ==> f == CutFitFault::ShadowUnbounded || f == CutFitFault::ShadowEventTangled,
        res matches Ok((t, loops)) ==> {
            &&& t.parent@.len() == 2 * total(cols@, cols@.len() as nat)
            &&& is_forest(t.parent@)
            &&& forall|e: int| 0 <= e < t.edges@.len() ==> rail_of(cols@, #[trigger] t.edges@[e])
            // The edges are exactly the matching's rails, each once.
            &&& forall|e: int| 0 <= e < t.edges@.len() ==> matched_rail(cols@, #[trigger] t.edges@[e])
            &&& forall|e1: int, e2: int| 0 <= e1 < e2 < t.edges@.len() ==> (#[trigger] t.edges@[e1]).0 < (
            #[trigger] t.edges@[e2]).0
            &&& forall|c: int, k1: int, k2: int, side: Side|
                0 <= c < cols@.len() - 1 && 0 <= k1 < cols@[c]@.len() && 0 <= k2 < cols@[c + 1]@.len()
                    && #[trigger] traced_pair(cols@, c, k1, k2, side) ==> has_edge(
                    t.edges@,
                    vid(cols@, c, k1, side),
                    vid(cols@, c + 1, k2, side),
                )
            &&& forall|c: int| 0 <= c < cols@.len() - 1 ==> #[trigger] pair_traced(cols@, t.edges@, t.parent@, c)
            &&& forall|x: int| 0 <= x < t.parent@.len() ==> #[trigger] root(t.parent@, x) == relabel(
                t.merges@,
                t.merges@.len(),
                x,
            )
            &&& forall|g: int| 0 <= g < t.merges@.len() ==> #[trigger] merge_justified(cols@, t.merges@, g)
            // The loops of the graph, or why there are none.
            &&& loops == Err::<Vec<Vec<usize>>, CutFitFault>(CutFitFault::ShadowLoopOpen) <==> degree_fault(
                root_ends(t.parent@, t.edges@),
                t.parent@.len() as nat,
            )
            &&& loops == Err::<Vec<Vec<usize>>, CutFitFault>(CutFitFault::DegenerateSpan) <==> !degree_fault(
                root_ends(t.parent@, t.edges@),
                t.parent@.len() as nat,
            ) && forall|x: int|
                0 <= x < t.parent@.len() && #[trigger] degree(root_ends(t.parent@, t.edges@), x, t.edges@.len() as nat)
                    == 2 ==> short(root_ends(t.parent@, t.edges@), x)
            &&& loops matches Err(f) ==> f == CutFitFault::ShadowLoopOpen || f == CutFitFault::DegenerateSpan
            &&& loops matches Ok(cycles) ==> {
                &&& cycles@.len() > 0
                &&& forall|i: int| 0 <= i < cycles@.len() ==> is_loop(root_ends(t.parent@, t.edges@), #[trigger] cycles@[i]@)
                &&& forall|i: int, j: int| 0 <= i < cycles@.len() && 0 <= j < cycles@[i]@.len()
                    ==> #[trigger] cycles@[i]@[j] < t.parent@.len()
                &&& disjoint_loops(cycles@)
                &&& forall|i: int| 0 <= i < cycles@.len() ==> opened(root_ends(t.parent@, t.edges@), #[trigger] cycles@[i]@)
                &&& forall|i: int, j: int, fi: int, fj: int|
                    0 <= i < j < cycles@.len() && #[trigger] opens_loop(root_ends(t.parent@, t.edges@), cycles@[i]@, fi)
                        && #[trigger] opens_loop(root_ends(t.parent@, t.edges@), cycles@[j]@, fj) ==> fi < fj
                &&& forall|x: int|
                    0 <= x < t.parent@.len() && #[trigger] degree(root_ends(t.parent@, t.edges@), x, t.edges@.len() as nat)
                        == 2 ==> on_some_loop(cycles@, x) || short(root_ends(t.parent@, t.edges@), x)
            }
        },
{
    let nc = cols.len();
    if nc > 0 && (cols[0].len() > 0 || cols[nc - 1].len() > 0) {
        return Err(CutFitFault::ShadowUnbounded);
    }
    let traced = match trace_columns(cols) {
        Ok(t) => t,
        Err(f) => return Err(f),
    };
    let Traced { mut parent, edges, merges } = traced;
    let ghost p0 = parent@;
    let loops = close_loops(&mut parent, &edges);
    proof {
        assert(parent@.len() == p0.len());
        assert(root_ends(parent@, edges@) =~= root_ends(p0, edges@));
        assert forall|c: int| 0 <= c < cols@.len() - 1 implies #[trigger] pair_traced(cols@, edges@, parent@, c) by {
            lemma_traced_kept(cols@, edges@, p0, edges@, parent@, c);
        }
    }
    Ok((Traced { parent, edges, merges }, loops))
}

/// A boundary vertex on the emitted dyadic grid, as integer multiples of the grid step: both
/// coordinates stay below `2^62` in size, so the exact crossing test fits in 128 bits.
pub open spec fn on_grid(q: (i64, i64)) -> bool {
    -0x4000_0000_0000_0000 < q.0 < 0x4000_0000_0000_0000 && -0x4000_0000_0000_0000 < q.1
        < 0x4000_0000_0000_0000
}

/// The edge from `a` to `b` (σ, µ̂) crosses the upward ray from `p`: `p`'s σ lies in the edge's
/// half-open σ-span `[lo, hi)` — so a ray through a vertex is counted once — and the edge's µ̂
/// at that σ lies above `p`'s. The comparison is multiplied through by the span's positive width,
/// so it is exact.
pub open spec fn crosses(a: (i64, i64), b: (i64, i64), p: (i64, i64)) -> bool {
    let (lo, hi, mlo, mhi) = if a.0 < b.0 {
        (a.0, b.0, a.1, b.1)
    } else {
        (b.0, a.0, b.1, a.1)
    };
    lo <= p.0 && p.0 < hi && mlo * (hi - lo) + (mhi - mlo) * (p.0 - lo) > p.1 * (hi - lo)
}

/// Twice the signed area of the triangle `u`, `v`, `w`: positive when `w` lies to the left of
/// the line from `u` to `v`, negative when to the right.
pub open spec fn orient(u: (i64, i64), v: (i64, i64), w: (i64, i64)) -> int {
    (v.0 - u.0) * (w.1 - u.1) - (v.1 - u.1) * (w.0 - u.0)
}

/// **A crossing is a point below the edge.** The upward ray from `p` crosses the edge exactly
/// when `p`'s σ lies in the edge's half-open σ-span and `p` lies strictly to the right of the
/// edge run from its lower-σ end to its higher-σ end — strictly below the edge.
pub proof fn lemma_crossing_is_below_the_edge(a: (i64, i64), b: (i64, i64), p: (i64, i64))
    ensures
        crosses(a, b, p) <==> if a.0 < b.0 {
            a.0 <= p.0 < b.0 && orient(a, b, p) < 0
        } else {
            b.0 <= p.0 < a.0 && orient(b, a, p) < 0
        },
{
    let (u, v) = if a.0 < b.0 {
        (a, b)
    } else {
        (b, a)
    };
    let w: int = v.0 - u.0;
    let d: int = p.0 - u.0;
    let dm: int = v.1 - u.1;
    assert(orient(u, v, p) == w * p.1 - (u.1 * w + dm * d)) by (nonlinear_arith)
        requires
            w == v.0 - u.0,
            d == p.0 - u.0,
            dm == v.1 - u.1,
    {
    }
    assert(p.1 * w == w * p.1) by (nonlinear_arith);
    assert(crosses(a, b, p) <==> (u.0 <= p.0 < v.0 && u.1 * w + dm * d > p.1 * w));
}

/// **Below a vertex, the crossing is decided by that vertex.** For the upward ray from a point at
/// the σ of an edge's lower-σ end, the edge is crossed exactly when the point lies strictly below
/// that end.
pub proof fn lemma_crossing_at_the_lower_end(a: (i64, i64), b: (i64, i64), p: (i64, i64))
    requires
        a.0 != b.0,
        p.0 == if a.0 < b.0 { a.0 } else { b.0 },
    ensures
        crosses(a, b, p) <==> p.1 < if a.0 < b.0 { a.1 } else { b.1 },
{
    let (u, v) = if a.0 < b.0 {
        (a, b)
    } else {
        (b, a)
    };
    let w: int = v.0 - u.0;
    assert(w > 0);
    assert((u.1 * w > p.1 * w) <==> (p.1 < u.1)) by (nonlinear_arith)
        requires
            w > 0,
    {
    }
}

proof fn lemma_orient_swap(u: (i64, i64), v: (i64, i64), w: (i64, i64))
    ensures
        orient(v, u, w) == -orient(u, v, w),
{
    assert(orient(v, u, w) == -orient(u, v, w)) by (nonlinear_arith);
}

/// Orientation seen from `w`: the cross product of the offsets of `u` and `v` from `w`.
proof fn lemma_orient_from(u: (i64, i64), v: (i64, i64), w: (i64, i64))
    ensures
        orient(u, v, w) == (u.0 - w.0) * (v.1 - w.1) - (u.1 - w.1) * (v.0 - w.0),
{
    let (ux, uy, vx, vy, wx, wy) = (u.0 as int, u.1 as int, v.0 as int, v.1 as int, w.0 as int, w.1 as int);
    assert((vx - ux) * (wy - uy) - (vy - uy) * (wx - ux) == (ux - wx) * (vy - wy) - (uy - wy) * (vx - wx))
        by (nonlinear_arith);
}

/// The barycentric identity, in offsets from the point.
proof fn lemma_balance(ax: int, ay: int, bx: int, by_: int, cx: int, cy: int)
    ensures
        (bx * cy - by_ * cx) * ax + (cx * ay - cy * ax) * bx + (ax * by_ - ay * bx) * cx == 0,
{
    assert((bx * cy - by_ * cx) * ax + (cx * ay - cy * ax) * bx + (ax * by_ - ay * bx) * cx == 0) by (nonlinear_arith);
}

/// A point strictly on one side of all three sides of a triangle lies strictly within its
/// σ-range: some vertex is at or left of it and some strictly right.
proof fn lemma_inside_is_between(a: (i64, i64), b: (i64, i64), c: (i64, i64), p: (i64, i64))
    requires
        (orient(a, b, p) > 0 && orient(b, c, p) > 0 && orient(c, a, p) > 0) || (orient(a, b, p) < 0 && orient(b, c, p)
            < 0 && orient(c, a, p) < 0),
    ensures
        a.0 <= p.0 || b.0 <= p.0 || c.0 <= p.0,
        a.0 > p.0 || b.0 > p.0 || c.0 > p.0,
{
    lemma_orient_from(a, b, p);
    lemma_orient_from(b, c, p);
    lemma_orient_from(c, a, p);
    let (ax, ay) = (a.0 - p.0, a.1 - p.1);
    let (bx, by_) = (b.0 - p.0, b.1 - p.1);
    let (cx, cy) = (c.0 - p.0, c.1 - p.1);
    let oab = ax * by_ - ay * bx;
    let obc = bx * cy - by_ * cx;
    let oca = cx * ay - cy * ax;
    assert(oab == orient(a, b, p) && obc == orient(b, c, p) && oca == orient(c, a, p));
    lemma_balance(ax, ay, bx, by_, cx, cy);
    assert(obc * ax + oca * bx + oab * cx == 0);
    if (ax > 0 && bx > 0 && cx > 0) || (ax <= 0 && bx <= 0 && cx <= 0) {
        // Equal-signed weights on same-signed offsets cannot balance, but for offsets all zero —
        // three vertices on one σ, a flat triangle no point is strictly inside.
        if oab > 0 {
            assert(obc * ax + oca * bx + oab * cx != 0 || (ax == 0 && bx == 0 && cx == 0)) by (nonlinear_arith)
                requires
                    oab > 0,
                    obc > 0,
                    oca > 0,
                    (ax > 0 && bx > 0 && cx > 0) || (ax <= 0 && bx <= 0 && cx <= 0),
            ;
        } else {
            assert(obc * ax + oca * bx + oab * cx != 0 || (ax == 0 && bx == 0 && cx == 0)) by (nonlinear_arith)
                requires
                    oab < 0,
                    obc < 0,
                    oca < 0,
                    (ax > 0 && bx > 0 && cx > 0) || (ax <= 0 && bx <= 0 && cx <= 0),
            ;
        }
        assert(ax == 0 && bx == 0 && cx == 0);
        assert(oab == 0) by (nonlinear_arith)
            requires
                oab == ax * by_ - ay * bx,
                ax == 0,
                bx == 0,
        ;
    }
}

/// With `p` strictly left of the edge from `u` to `v` (or strictly right, when `!left`), the
/// upward ray from `p` crosses it exactly when the edge runs over `p`'s σ leftward (or, when
/// `!left`, rightward).
proof fn lemma_crossing_by_side(u: (i64, i64), v: (i64, i64), p: (i64, i64), left: bool)
    requires
        if left {
            orient(u, v, p) > 0
        } else {
            orient(u, v, p) < 0
        },
    ensures
        crosses(u, v, p) <==> if left {
            v.0 <= p.0 < u.0
        } else {
            u.0 <= p.0 < v.0
        },
{
    lemma_crossing_is_below_the_edge(u, v, p);
    lemma_orient_swap(u, v, p);
}

/// **A point strictly inside a triangle is enclosed.** For a loop of three vertices and a point
/// strictly on the same side of all three of its sides (inside it, whichever way the loop runs),
/// the even-odd cast finds the point enclosed.
pub proof fn lemma_inside_a_triangle_is_enclosed(c: Seq<usize>, pos: Seq<(i64, i64)>, p: (i64, i64))
    requires
        c.len() == 3,
        forall|j: int| 0 <= j < 3 ==> (#[trigger] c[j]) < pos.len(),
        (orient(pos[c[0] as int], pos[c[1] as int], p) > 0 && orient(pos[c[1] as int], pos[c[2] as int], p) > 0
            && orient(pos[c[2] as int], pos[c[0] as int], p) > 0) || (orient(pos[c[0] as int], pos[c[1] as int], p)
            < 0 && orient(pos[c[1] as int], pos[c[2] as int], p) < 0 && orient(pos[c[2] as int], pos[c[0] as int], p)
            < 0),
    ensures
        encloses(c, pos, p),
{
    let a = pos[c[0] as int];
    let b = pos[c[1] as int];
    let d = pos[c[2] as int];
    let left = orient(a, b, p) > 0;
    lemma_inside_is_between(a, b, d, p);
    lemma_crossing_by_side(a, b, p, left);
    lemma_crossing_by_side(b, d, p, left);
    lemma_crossing_by_side(d, a, p, left);
    reveal_with_fuel(crossings, 4);
    assert((0int + 1) % 3int == 1);
    assert((1int + 1) % 3int == 2);
    assert((2int + 1) % 3int == 0);
    assert(crossings(c, pos, p, 3) == (if crosses(a, b, p) { 1nat } else { 0nat }) + (if crosses(b, d, p) {
        1nat
    } else {
        0nat
    }) + (if crosses(d, a, p) { 1nat } else { 0nat }));
}

/// How many of the first `m` edges of the closed loop `c` cross the upward ray from `p`.
pub open spec fn crossings(c: Seq<usize>, pos: Seq<(i64, i64)>, p: (i64, i64), m: nat) -> nat
    decreases m,
{
    if m == 0 {
        0
    } else {
        let k = m - 1;
        crossings(c, pos, p, k as nat) + if crosses(pos[c[k] as int], pos[c[(k + 1) % (c.len() as int)] as int], p) {
            1nat
        } else {
            0nat
        }
    }
}

/// The closed loop `c` encloses `p` by the even-odd rule.
pub open spec fn encloses(c: Seq<usize>, pos: Seq<(i64, i64)>, p: (i64, i64)) -> bool {
    crossings(c, pos, p, c.len()) % 2 == 1
}

/// Some loop's first vertex lies inside another loop: the loops are nested.
pub open spec fn nested(cycles: Seq<Vec<usize>>, pos: Seq<(i64, i64)>) -> bool {
    exists|a: int, b: int|
        0 <= a < cycles.len() && 0 <= b < cycles.len() && a != b && #[trigger] encloses(
            cycles[b]@,
            pos,
            pos[cycles[a]@[0] as int],
        )
}

/// Every loop is non-empty and names vertices of `pos`, all on the grid.
pub open spec fn loops_on_grid(cycles: Seq<Vec<usize>>, pos: Seq<(i64, i64)>) -> bool {
    &&& forall|i: int| 0 <= i < cycles.len() ==> (#[trigger] cycles[i])@.len() > 0
    &&& forall|i: int, j: int| 0 <= i < cycles.len() && 0 <= j < cycles[i]@.len() ==> (#[trigger] cycles[i]@[j])
        < pos.len()
    &&& forall|q: int| 0 <= q < pos.len() ==> on_grid(#[trigger] pos[q])
}

proof fn lemma_product_bound(x: int, y: int, bx: int, by_: int)
    by (nonlinear_arith)
    requires
        -bx < x < bx,
        0 <= y < by_,
    ensures
        -bx * by_ < x * y < bx * by_,
{
}

fn edge_crosses(a: (i64, i64), b: (i64, i64), p: (i64, i64)) -> (c: bool)
    requires
        on_grid(a),
        on_grid(b),
        on_grid(p),
    ensures
        c == crosses(a, b, p),
{
    let (lo, hi, mlo, mhi) = if a.0 < b.0 {
        (a.0, b.0, a.1, b.1)
    } else {
        (b.0, a.0, b.1, a.1)
    };
    if !(lo <= p.0 && p.0 < hi) {
        return false;
    }
    let w: i128 = hi as i128 - lo as i128;
    let d: i128 = p.0 as i128 - lo as i128;
    let dm: i128 = mhi as i128 - mlo as i128;
    proof {
        let g: int = 0x4000_0000_0000_0000;
        lemma_product_bound(mlo as int, w as int, g, 2 * g);
        lemma_product_bound(dm as int, d as int, 2 * g, 2 * g);
        lemma_product_bound(p.1 as int, w as int, g, 2 * g);
    }
    let left: i128 = mlo as i128 * w + dm * d;
    let right: i128 = p.1 as i128 * w;
    left > right
}

/// Whether the closed loop `c` over the vertices `pos` encloses `p`, by an exact even-odd ray
/// cast upward in µ̂.
pub fn encloses_point(c: &Vec<usize>, pos: &Vec<(i64, i64)>, p: (i64, i64)) -> (odd: bool)
    requires
        forall|j: int| 0 <= j < c@.len() ==> (#[trigger] c@[j]) < pos@.len(),
        forall|q: int| 0 <= q < pos@.len() ==> on_grid(#[trigger] pos@[q]),
        on_grid(p),
    ensures
        odd == encloses(c@, pos@, p),
{
    let n = c.len();
    let mut odd = false;
    let mut k: usize = 0;
    while k < n
        invariant
            k <= n,
            n == c@.len(),
            forall|j: int| 0 <= j < c@.len() ==> (#[trigger] c@[j]) < pos@.len(),
            forall|q: int| 0 <= q < pos@.len() ==> on_grid(#[trigger] pos@[q]),
            on_grid(p),
            odd == (crossings(c@, pos@, p, k as nat) % 2 == 1),
        decreases n - k,
    {
        let a = pos[c[k]];
        let b = pos[c[(k + 1) % n]];
        if edge_crosses(a, b, p) {
            odd = !odd;
        }
        k = k + 1;
    }
    odd
}

/// Whether the traced loops are **nested** — a loop's first vertex enclosed by another loop.
/// Nested loops are a ring, a different feature: a hole with a hole of its own leaves an island of
/// material floating free, so the tracer refuses them as [`CutFitFault::ShadowNested`].
pub fn loops_nested(cycles: &Vec<Vec<usize>>, pos: &Vec<(i64, i64)>) -> (res: bool)
    requires
        loops_on_grid(cycles@, pos@),
    ensures
        res == nested(cycles@, pos@),
{
    let n = cycles.len();
    let mut a: usize = 0;
    while a < n
        invariant
            a <= n,
            n == cycles@.len(),
            loops_on_grid(cycles@, pos@),
            forall|x: int, y: int| 0 <= x < a && 0 <= y < n && x != y ==> !#[trigger] encloses(
                cycles@[y]@,
                pos@,
                pos@[cycles@[x]@[0] as int],
            ),
        decreases n - a,
    {
        let p = pos[cycles[a][0]];
        let mut b: usize = 0;
        while b < n
            invariant
                a < n,
                b <= n,
                n == cycles@.len(),
                loops_on_grid(cycles@, pos@),
                p == pos@[cycles@[a as int]@[0] as int],
                forall|x: int, y: int| 0 <= x < a && 0 <= y < n && x != y ==> !#[trigger] encloses(
                    cycles@[y]@,
                    pos@,
                    pos@[cycles@[x]@[0] as int],
                ),
                forall|y: int| 0 <= y < b && a != y ==> !#[trigger] encloses(cycles@[y]@, pos@, p),
            decreases n - b,
        {
            if a != b {
                if encloses_point(&cycles[b], pos, p) {
                    return true;
                }
            }
            b = b + 1;
        }
        a = a + 1;
    }
    false
}

/// `k` is the last of the greatest keys.
pub open spec fn last_max(s: Seq<u64>, k: int) -> bool {
    &&& 0 <= k < s.len()
    &&& forall|i: int| 0 <= i < s.len() ==> #[trigger] s[i] <= s[k]
    &&& forall|i: int| k < i < s.len() ==> #[trigger] s[i] < s[k]
}

/// The verdict on a shadow cut's certified loops, from each loop's bound `ε` and the DRC
/// threshold (half the clearance), all as order keys: no loop is
/// [`CutFitFault::DegenerateSpan`]; every `ε` below the threshold is `Verified`; otherwise the cut
/// is `Unresolved`, reporting the loop of greatest `ε` (the last of them, as a running maximum
/// over the loops keeps).
pub fn loops_verdict(eps: &Vec<u64>, drc: u64) -> (res: Verdict<(), CutFitFault, usize>)
    ensures
        eps@.len() == 0 <==> res == Verdict::<(), CutFitFault, usize>::Refuted(CutFitFault::DegenerateSpan),
        res is Verified <==> eps@.len() > 0 && forall|i: int| 0 <= i < eps@.len() ==> #[trigger] eps@[i] < drc,
        res matches Verdict::Unresolved(k) ==> last_max(eps@, k as int) && drc <= eps@[k as int],
        res matches Verdict::Refuted(f) ==> f == CutFitFault::DegenerateSpan,
{
    let n = eps.len();
    if n == 0 {
        return Verdict::Refuted(CutFitFault::DegenerateSpan);
    }
    let mut worst: usize = 0;
    let mut k: usize = 1;
    while k < n
        invariant
            1 <= k <= n,
            n == eps@.len(),
            worst < k,
            forall|i: int| 0 <= i < k ==> #[trigger] eps@[i] <= eps@[worst as int],
            forall|i: int| worst < i < k ==> #[trigger] eps@[i] < eps@[worst as int],
        decreases n - k,
    {
        if eps[k] >= eps[worst] {
            worst = k;
        }
        k = k + 1;
    }
    if eps[worst] < drc {
        Verdict::Verified(())
    } else {
        Verdict::Unresolved(worst)
    }
}

/// The bounds `ε` of certified loops, each carried beside its loop.
pub open spec fn loop_eps(loops: Seq<(Vec<usize>, u64)>) -> Seq<u64> {
    Seq::new(loops.len(), |i: int| loops[i].1)
}

/// The verdict of a shadow cut: the tracer's refusal passes through as `Refuted`; otherwise the
/// traced loops, each with its certified bound `ε` (as order keys, like the DRC threshold `drc`,
/// half the clearance), are judged as [`loops_verdict`] judges them — none is
/// [`CutFitFault::DegenerateSpan`], all under the threshold is `Verified` with the loops
/// unchanged, and otherwise `Unresolved` at the last loop of greatest `ε`.
pub fn shadow_cut_verdict(traced: Result<Vec<(Vec<usize>, u64)>, CutFitFault>, drc: u64) -> (res: Verdict<
    Vec<(Vec<usize>, u64)>,
    CutFitFault,
    usize,
>)
    ensures
        traced matches Err(f) ==> res == Verdict::<Vec<(Vec<usize>, u64)>, CutFitFault, usize>::Refuted(f),
        traced matches Ok(loops) ==> {
            &&& loops@.len() == 0 <==> res == Verdict::<Vec<(Vec<usize>, u64)>, CutFitFault, usize>::Refuted(
                CutFitFault::DegenerateSpan,
            )
            &&& res is Verified <==> loops@.len() > 0 && forall|i: int|
                0 <= i < loops@.len() ==> #[trigger] loop_eps(loops@)[i] < drc
            &&& res matches Verdict::Verified(l) ==> l == loops
            &&& res matches Verdict::Unresolved(k) ==> last_max(loop_eps(loops@), k as int) && drc <= loop_eps(
                loops@,
            )[k as int]
            &&& res matches Verdict::Refuted(f) ==> f == CutFitFault::DegenerateSpan
        },
{
    match traced {
        Err(f) => Verdict::Refuted(f),
        Ok(loops) => {
            let n = loops.len();
            let mut eps: Vec<u64> = Vec::new();
            let mut k: usize = 0;
            while k < n
                invariant
                    k <= n,
                    n == loops@.len(),
                    eps@ == loop_eps(loops@).subrange(0, k as int),
                decreases n - k,
            {
                eps.push(loops[k].1);
                k = k + 1;
            }
            proof {
                assert(eps@ =~= loop_eps(loops@));
            }
            match loops_verdict(&eps, drc) {
                Verdict::Verified(_) => Verdict::Verified(loops),
                Verdict::Refuted(f) => Verdict::Refuted(f),
                Verdict::Unresolved(k) => Verdict::Unresolved(k),
            }
        },
    }
}

/// Piece `k` of the closed loop `c` runs between two vertices of the same σ.
pub open spec fn flat_piece(c: Seq<usize>, sigma: Seq<u64>, k: int) -> bool {
    sigma[c[k] as int] == sigma[c[(k + 1) % (c.len() as int)] as int]
}

/// The first piece of a traced loop whose two ends share a σ, given the vertices' σ as order
/// keys. Consecutive vertices share a σ only if a rail was dropped, and an open or doubled loop is
/// worse downstream than a refusal, so the tracer refuses such a loop as
/// [`CutFitFault::ShadowLoopOpen`].
pub fn first_flat_piece(c: &Vec<usize>, sigma: &Vec<u64>) -> (res: Option<usize>)
    requires
        forall|j: int| 0 <= j < c@.len() ==> (#[trigger] c@[j]) < sigma@.len(),
    ensures
        res is None <==> forall|k: int| 0 <= k < c@.len() ==> !#[trigger] flat_piece(c@, sigma@, k),
        res matches Some(k) ==> k < c@.len() && flat_piece(c@, sigma@, k as int) && forall|i: int|
            0 <= i < k ==> !#[trigger] flat_piece(c@, sigma@, i),
{
    let n = c.len();
    let mut k: usize = 0;
    while k < n
        invariant
            k <= n,
            n == c@.len(),
            forall|j: int| 0 <= j < c@.len() ==> (#[trigger] c@[j]) < sigma@.len(),
            forall|i: int| 0 <= i < k ==> !#[trigger] flat_piece(c@, sigma@, i),
        decreases n - k,
    {
        if sigma[c[k]] == sigma[c[(k + 1) % n]] {
            assert(flat_piece(c@, sigma@, k as int));
            return Some(k);
        }
        k = k + 1;
    }
    None
}

} // verus!
