//! Reading the **closed boundary loops** off the footprint tracer's graph.
//!
//! The tracer's boundary ends are identified through a union-find; each rail is an edge between
//! two ends. After identification every boundary vertex must carry exactly two rails, and the
//! loops are then the cycles of that graph — read here, with the two refusals of a boundary that
//! does not close.

use vstd::prelude::*;
use crate::cut::CutFitFault;
use crate::union_find::{is_forest, lemma_root_is_root, root, uf_find};

verus! {

/// Edge `e` has `v` as an end.
pub open spec fn touches(ends: Seq<(usize, usize)>, e: int, v: int) -> bool {
    ends[e].0 as int == v || ends[e].1 as int == v
}

/// How many of `e`'s two ends are `v` (a loop at `v` counts twice).
pub open spec fn incidence(ends: Seq<(usize, usize)>, e: int, v: int) -> nat {
    (if ends[e].0 as int == v { 1nat } else { 0nat }) + (if ends[e].1 as int == v { 1nat } else { 0nat })
}

/// The degree of `v` among the first `k` edges.
pub open spec fn degree(ends: Seq<(usize, usize)>, v: int, k: nat) -> nat
    decreases k,
{
    if k == 0 {
        0
    } else {
        degree(ends, v, (k - 1) as nat) + incidence(ends, k - 1, v)
    }
}

/// Some vertex carries a number of rails other than none or two: a boundary that does not close.
pub open spec fn degree_fault(ends: Seq<(usize, usize)>, n: nat) -> bool {
    exists|v: int| 0 <= v < n && #[trigger] degree(ends, v, ends.len()) != 0 && degree(ends, v, ends.len()) != 2
}

/// The edges between identified vertices: each rail's two ends, replaced by their roots.
pub open spec fn root_ends(p: Seq<usize>, edges: Seq<(usize, usize)>) -> Seq<(usize, usize)> {
    Seq::new(edges.len(), |e: int| (root(p, edges[e].0 as int) as usize, root(p, edges[e].1 as int) as usize))
}

/// Some edge joins `x` and `y`.
pub open spec fn joined(ends: Seq<(usize, usize)>, x: int, y: int) -> bool {
    exists|e: int|
        0 <= e < ends.len() && ((#[trigger] ends[e].0 as int == x && ends[e].1 as int == y) || (
        ends[e].0 as int == y && ends[e].1 as int == x))
}

/// A closed loop of at least three vertices, each joined to the next and the last to the first.
pub open spec fn is_loop(ends: Seq<(usize, usize)>, c: Seq<usize>) -> bool {
    &&& c.len() >= 3
    &&& forall|i: int| 0 <= i < c.len() - 1 ==> joined(ends, #[trigger] c[i] as int, c[i + 1] as int)
    &&& joined(ends, c.last() as int, c[0] as int)
}

/// The slots of the vertices record the incident edges of the first `k` edges: every vertex
/// whose degree is at most two has its incident edges in its slots.
pub open spec fn slots_ok(
    ends: Seq<(usize, usize)>,
    k: nat,
    deg: Seq<usize>,
    s0: Seq<usize>,
    s1: Seq<usize>,
) -> bool {
    &&& forall|v: int| 0 <= v < deg.len() ==> #[trigger] deg[v] as nat == degree(ends, v, k)
    &&& forall|v: int| 0 <= v < deg.len() && deg[v] >= 1 ==> (#[trigger] s0[v] as int) < k && touches(ends, s0[v] as int, v)
    &&& forall|v: int| 0 <= v < deg.len() && deg[v] >= 2 ==> (#[trigger] s1[v] as int) < k && touches(ends, s1[v] as int, v)
    &&& forall|v: int, e: int|
        0 <= v < deg.len() && 0 <= e < k && #[trigger] touches(ends, e, v) && deg[v] <= 2
            ==> e == s0[v] as int || e == s1[v] as int
    &&& forall|v: int| 0 <= v < deg.len() && #[trigger] deg[v] == 1 ==> incidence(ends, s0[v] as int, v) == 1
    &&& forall|v: int| 0 <= v < deg.len() && #[trigger] deg[v] == 2 ==> (s0[v] == s1[v] <==> incidence(ends, s0[v] as int, v) == 2)
    &&& forall|v: int| 0 <= v < deg.len() && #[trigger] deg[v] == 2 && s0[v] != s1[v] ==> incidence(ends, s0[v] as int, v) == 1 && incidence(ends, s1[v] as int, v) == 1
}

/// Record one end `x` of edge `e` in the slot tables.
fn record(deg: &mut Vec<usize>, s0: &mut Vec<usize>, s1: &mut Vec<usize>, x: usize, e: usize)
    requires
        x < old(deg)@.len(),
        old(s0)@.len() == old(deg)@.len(),
        old(s1)@.len() == old(deg)@.len(),
        old(deg)@[x as int] < usize::MAX,
    ensures
        final(deg)@ == old(deg)@.update(x as int, (old(deg)@[x as int] + 1) as usize),
        final(s0)@ == if old(deg)@[x as int] == 0 { old(s0)@.update(x as int, e) } else { old(s0)@ },
        final(s1)@ == if old(deg)@[x as int] == 1 { old(s1)@.update(x as int, e) } else { old(s1)@ },
{
    let d = deg[x];
    if d == 0 {
        s0.set(x, e);
    } else if d == 1 {
        s1.set(x, e);
    }
    deg.set(x, d + 1);
}

/// Build the edge ends and the slot tables: each rail's two ends, identified, and every
/// vertex's degree and first two incident rails.
fn build_tables(parent: &mut [usize], edges: &Vec<(usize, usize)>) -> (res: (
    Vec<(usize, usize)>,
    Vec<usize>,
    Vec<usize>,
    Vec<usize>,
))
    requires
        is_forest(old(parent)@),
        forall|e: int|
            0 <= e < edges@.len() ==> (#[trigger] edges@[e]).0 < old(parent)@.len() && edges@[e].1
                < old(parent)@.len(),
        edges@.len() < usize::MAX / 2,
    ensures
        final(parent)@.len() == old(parent)@.len(),
        is_forest(final(parent)@),
        forall|y: int| 0 <= y < old(parent)@.len() ==> #[trigger] root(final(parent)@, y) == root(old(parent)@, y),
        res.0@ == root_ends(old(parent)@, edges@),
        res.1@.len() == old(parent)@.len(),
        res.2@.len() == old(parent)@.len(),
        res.3@.len() == old(parent)@.len(),
        slots_ok(res.0@, edges@.len() as nat, res.1@, res.2@, res.3@),
        forall|e: int| 0 <= e < edges@.len() ==> (#[trigger] res.0@[e]).0 < old(parent)@.len() && res.0@[e].1 < old(parent)@.len(),
{
    let ghost p0 = parent@;
    let n = parent.len();
    let mut deg: Vec<usize> = Vec::new();
    let mut s0: Vec<usize> = Vec::new();
    let mut s1: Vec<usize> = Vec::new();
    let mut v: usize = 0;
    while v < n
        invariant
            v <= n,
            n == parent@.len(),
            deg@.len() == v,
            s0@.len() == v,
            s1@.len() == v,
            forall|i: int| 0 <= i < v ==> #[trigger] deg@[i] == 0,
        decreases n - v,
    {
        deg.push(0);
        s0.push(0);
        s1.push(0);
        v = v + 1;
    }
    let ghost all = root_ends(p0, edges@);
    let mut ends: Vec<(usize, usize)> = Vec::new();
    let mut k: usize = 0;
    while k < edges.len()
        invariant
            k <= edges@.len(),
            edges@.len() < usize::MAX / 2,
            n == parent@.len(),
            n == p0.len(),
            is_forest(parent@),
            forall|y: int| 0 <= y < n ==> #[trigger] root(parent@, y) == root(p0, y),
            forall|e: int|
                0 <= e < edges@.len() ==> (#[trigger] edges@[e]).0 < n && edges@[e].1 < n,
            all == root_ends(p0, edges@),
            ends@ == all.subrange(0, k as int),
            deg@.len() == n,
            s0@.len() == n,
            s1@.len() == n,
            forall|i: int| 0 <= i < n ==> #[trigger] deg@[i] <= 2 * k,
            slots_ok(all, k as nat, deg@, s0@, s1@),
        decreases edges@.len() - k,
    {
        let (a, b) = edges[k];
        let ra = uf_find(parent, a);
        let rb = uf_find(parent, b);
        proof {
            assert(all[k as int] == (ra, rb));
        }
        let ghost d0 = deg@;
        let ghost t0 = s0@;
        let ghost t1 = s1@;
        record(&mut deg, &mut s0, &mut s1, ra, k);
        let ghost d1 = deg@;
        let ghost u0 = s0@;
        let ghost u1 = s1@;
        record(&mut deg, &mut s0, &mut s1, rb, k);
        ends.push((ra, rb));
        proof {
            lemma_slots_step(all, k as nat, d0, t0, t1, d1, u0, u1, deg@, s0@, s1@, ra, rb);
            assert(ends@ =~= all.subrange(0, k + 1));
            assert forall|i: int| 0 <= i < n implies #[trigger] deg@[i] <= 2 * (k + 1) by {
                assert(d0[i] <= 2 * k);
            }
        }
        k = k + 1;
    }
    proof {
        assert(ends@ =~= all);
        assert forall|e: int| 0 <= e < edges@.len() implies (#[trigger] all[e]).0 < n && all[e].1 < n by {
            lemma_root_is_root(p0, edges@[e].0 as int);
            lemma_root_is_root(p0, edges@[e].1 as int);
        }
    }
    (ends, deg, s0, s1)
}

/// An edge touching `v` adds to its degree; two distinct ones, or one loop, make it at least two.
proof fn lemma_degree_lower(all: Seq<(usize, usize)>, v: int, k: nat, e1: int, e2: int)
    requires
        0 <= e1 < k,
        0 <= e2 < k,
        k <= all.len(),
        touches(all, e1, v),
        touches(all, e2, v),
    ensures
        degree(all, v, k) >= incidence(all, e1, v) >= 1,
        e1 != e2 ==> degree(all, v, k) >= 2,
    decreases k,
{
    let km = (k - 1) as nat;
    if e1 < km && e2 < km {
        lemma_degree_lower(all, v, km, e1, e2);
    } else if e1 < km {
        lemma_degree_lower(all, v, km, e1, e1);
    } else if e2 < km {
        lemma_degree_lower(all, v, km, e2, e2);
    }
}

/// Three distinct edges touching `v` make its degree at least three.
proof fn lemma_degree_three(all: Seq<(usize, usize)>, v: int, k: nat, e1: int, e2: int, e3: int)
    requires
        0 <= e1 < k,
        0 <= e2 < k,
        0 <= e3 < k,
        k <= all.len(),
        e1 != e2 && e2 != e3 && e1 != e3,
        touches(all, e1, v),
        touches(all, e2, v),
        touches(all, e3, v),
    ensures
        degree(all, v, k) >= 3,
    decreases k,
{
    let km = (k - 1) as nat;
    if e1 == km {
        lemma_degree_lower(all, v, km, e2, e3);
    } else if e2 == km {
        lemma_degree_lower(all, v, km, e1, e3);
    } else if e3 == km {
        lemma_degree_lower(all, v, km, e1, e2);
    } else {
        lemma_degree_three(all, v, km, e1, e2, e3);
    }
}

/// A loop at `v` and one more edge touching it make its degree at least three.
proof fn lemma_degree_loop(all: Seq<(usize, usize)>, v: int, k: nat, e1: int, e2: int)
    requires
        0 <= e1 < k,
        0 <= e2 < k,
        k <= all.len(),
        e1 != e2,
        self_loop(all, e1, v),
        touches(all, e2, v),
    ensures
        degree(all, v, k) >= 3,
    decreases k,
{
    let km = (k - 1) as nat;
    if e1 == km {
        lemma_degree_lower(all, v, km, e2, e2);
    } else if e2 == km {
        lemma_degree_lower(all, v, km, e1, e1);
    } else {
        lemma_degree_loop(all, v, km, e1, e2);
    }
}

/// The first vertex of a simple loop of at least three vertices, carrying no more than two
/// rails, is on no short component.
proof fn lemma_loop_not_short(all: Seq<(usize, usize)>, c: Seq<usize>)
    requires
        is_loop(all, c),
        forall|a: int, b: int| 0 <= a < b < c.len() ==> #[trigger] c[a] != #[trigger] c[b],
        degree(all, c[0] as int, all.len()) <= 2,
    ensures
        !short(all, c[0] as int),
{
    let x = c[0] as int;
    let y = c[1] as int;
    let z = c.last() as int;
    assert(c[0] != c[1]);
    assert(c[1] != c[c.len() - 1]);
    assert(c[0] != c[c.len() - 1]);
    assert(joined(all, c[0] as int, c[1] as int));
    let f1 = choose|e: int|
        0 <= e < all.len() && ((#[trigger] all[e].0 as int == x && all[e].1 as int == y) || (all[e].0 as int == y
            && all[e].1 as int == x));
    let f2 = choose|e: int|
        0 <= e < all.len() && ((#[trigger] all[e].0 as int == z && all[e].1 as int == x) || (all[e].0 as int == x
            && all[e].1 as int == z));
    assert(touches(all, f1, x) && touches(all, f2, x));
    if exists|e: int| 0 <= e < all.len() && #[trigger] self_loop(all, e, x) {
        let e = choose|e: int| 0 <= e < all.len() && #[trigger] self_loop(all, e, x);
        lemma_degree_loop(all, x, all.len(), e, f1);
    }
    if exists|e1: int, e2: int|
        0 <= e1 < all.len() && 0 <= e2 < all.len() && #[trigger] parallel(all, e1, e2) && touches(all, e1, x) {
        let (e1, e2) = choose|e1: int, e2: int|
            0 <= e1 < all.len() && 0 <= e2 < all.len() && #[trigger] parallel(all, e1, e2) && touches(all, e1, x);
        assert(touches(all, e2, x));
        if self_loop(all, e1, x) {
            lemma_degree_loop(all, x, all.len(), e1, f1);
        } else {
            // Both parallel rails run from `x` to one other vertex; `y` and `z` cannot both be it.
            if f1 != e1 && f1 != e2 {
                lemma_degree_three(all, x, all.len(), e1, e2, f1);
            } else {
                lemma_degree_three(all, x, all.len(), e1, e2, f2);
            }
        }
    }
}

/// One edge recorded at both its ends keeps the slot tables right.
proof fn lemma_slots_step(
    all: Seq<(usize, usize)>,
    k: nat,
    d0: Seq<usize>,
    t0: Seq<usize>,
    t1: Seq<usize>,
    d1: Seq<usize>,
    u0: Seq<usize>,
    u1: Seq<usize>,
    d2: Seq<usize>,
    w0: Seq<usize>,
    w1: Seq<usize>,
    ra: usize,
    rb: usize,
)
    requires
        k < all.len(),
        k < usize::MAX,
        all[k as int] == (ra, rb),
        ra < d0.len(),
        rb < d0.len(),
        d0[ra as int] + 2 < usize::MAX,
        d0[rb as int] + 2 < usize::MAX,
        t0.len() == d0.len(),
        t1.len() == d0.len(),
        slots_ok(all, k, d0, t0, t1),
        d1 == d0.update(ra as int, (d0[ra as int] + 1) as usize),
        u0 == if d0[ra as int] == 0 { t0.update(ra as int, k as usize) } else { t0 },
        u1 == if d0[ra as int] == 1 { t1.update(ra as int, k as usize) } else { t1 },
        d2 == d1.update(rb as int, (d1[rb as int] + 1) as usize),
        w0 == if d1[rb as int] == 0 { u0.update(rb as int, k as usize) } else { u0 },
        w1 == if d1[rb as int] == 1 { u1.update(rb as int, k as usize) } else { u1 },
    ensures
        slots_ok(all, k + 1, d2, w0, w1),
{
    let kk = k as int;
    let (a, b) = (ra as int, rb as int);
    assert(all[kk].0 == ra && all[kk].1 == rb);
    // The new degrees, and where the slots changed.
    assert forall|v: int| 0 <= v < d2.len() implies {
        &&& d2[v] as int == d0[v] as int + incidence(all, kk, v) as int
        &&& (w0[v] != t0[v] ==> d0[v] == 0 && w0[v] as int == kk)
        &&& (w1[v] != t1[v] ==> (d0[v] == 1 || (d0[v] == 0 && v == a && v == b)) && w1[v] as int == kk)
    } by {
        if v == a && v == b {
        } else if v == a {
        } else if v == b {
        } else {
        }
    }
    assert forall|v: int| 0 <= v < d2.len() implies #[trigger] d2[v] as nat == degree(all, v, k + 1) by {
        assert(degree(all, v, k + 1) == degree(all, v, k) + incidence(all, kk, v));
        assert(d0[v] as nat == degree(all, v, k));
    }
    assert forall|v: int| 0 <= v < d2.len() && d2[v] >= 1 implies (#[trigger] w0[v] as int) < k + 1 && touches(all, w0[v] as int, v) by {
        if w0[v] == t0[v] && d0[v] == 0 {
            assert(incidence(all, kk, v) >= 1);
        }
    }
    assert forall|v: int| 0 <= v < d2.len() && d2[v] >= 2 implies (#[trigger] w1[v] as int) < k + 1 && touches(all, w1[v] as int, v) by {
        if w1[v] == t1[v] && d0[v] < 2 {
            assert(incidence(all, kk, v) >= 1);
        }
    }
    assert forall|v: int, e: int|
        0 <= v < d2.len() && 0 <= e < k + 1 && #[trigger] touches(all, e, v) && d2[v] <= 2
            implies e == w0[v] as int || e == w1[v] as int by {
        if e < k {
            lemma_degree_lower(all, v, k, e, e);
            assert(d0[v] >= 1);
            assert(e == t0[v] as int || e == t1[v] as int);
            if d0[v] == 1 && e != t0[v] as int {
                lemma_degree_lower(all, v, k, e, t0[v] as int);
            }
        }
    }
    assert forall|v: int| 0 <= v < d2.len() && #[trigger] d2[v] == 1 implies incidence(all, w0[v] as int, v) == 1 by {
    }
    assert forall|v: int| 0 <= v < d2.len() && #[trigger] d2[v] == 2 implies (w0[v] == w1[v] <==> incidence(all, w0[v] as int, v) == 2) by {
        if d0[v] == 1 {
            assert(incidence(all, t0[v] as int, v) == 1);
            assert((t0[v] as int) < k);
        }
    }
    assert forall|v: int| 0 <= v < d2.len() && #[trigger] d2[v] == 2 && w0[v] != w1[v] implies incidence(all, w0[v] as int, v) == 1 && incidence(all, w1[v] as int, v) == 1 by {
        if d0[v] == 1 {
            assert(incidence(all, t0[v] as int, v) == 1);
            assert((t0[v] as int) < k);
        }
    }
}

/// How many of the first `k` flags are unset.
pub open spec fn unset(s: Seq<bool>, k: nat) -> nat
    decreases k,
{
    if k == 0 {
        0
    } else {
        unset(s, (k - 1) as nat) + if s[k - 1] { 0nat } else { 1nat }
    }
}

proof fn lemma_unset_mark(s: Seq<bool>, i: int, k: nat)
    requires
        0 <= i < s.len(),
        k <= s.len(),
        !s[i],
    ensures
        i < k ==> unset(s.update(i, true), k) + 1 == unset(s, k),
        k <= i ==> unset(s.update(i, true), k) == unset(s, k),
    decreases k,
{
    if k > 0 {
        lemma_unset_mark(s, i, (k - 1) as nat);
    }
}

/// A vertex's two rails are both walked or both not.
pub open spec fn clean(used: Seq<bool>, s0: Seq<usize>, s1: Seq<usize>, v: int) -> bool {
    used[s0[v] as int] == used[s1[v] as int]
}

/// A vertex's two rails are distinct and exactly one of them is walked.
pub open spec fn half(used: Seq<bool>, s0: Seq<usize>, s1: Seq<usize>, v: int) -> bool {
    s0[v] != s1[v] && used[s0[v] as int] != used[s1[v] as int]
}

/// Both of a vertex's rails are walked.
pub open spec fn full(used: Seq<bool>, s0: Seq<usize>, s1: Seq<usize>, v: int) -> bool {
    &&& s0[v] < used.len() && used[s0[v] as int]
    &&& s1[v] < used.len() && used[s1[v] as int]
}

/// Each loop lists a vertex once, and no vertex is on two loops.
pub open spec fn disjoint_loops(cycles: Seq<Vec<usize>>) -> bool {
    &&& forall|i: int, a: int, b: int|
        0 <= i < cycles.len() && 0 <= a < b < cycles[i]@.len() ==> #[trigger] cycles[i]@[a] != #[trigger] cycles[i]@[b]
    &&& forall|i: int, j: int, a: int, b: int|
        0 <= i < j < cycles.len() && 0 <= a < cycles[i]@.len() && 0 <= b < cycles[j]@.len() ==> #[trigger] cycles[i]@[a]
            != #[trigger] cycles[j]@[b]
}

/// Edge `e` is a loop at `x`: both its ends are `x`.
pub open spec fn self_loop(ends: Seq<(usize, usize)>, e: int, x: int) -> bool {
    ends[e].0 as int == x && ends[e].1 as int == x
}

/// Edges `e1` and `e2` are two different rails between the same two vertices.
pub open spec fn parallel(ends: Seq<(usize, usize)>, e1: int, e2: int) -> bool {
    &&& e1 != e2
    &&& (ends[e1].0 == ends[e2].0 && ends[e1].1 == ends[e2].1) || (ends[e1].0 == ends[e2].1 && ends[e1].1
        == ends[e2].0)
}

/// `x` lies on a component of fewer than three vertices: a loop at `x`, or two parallel rails
/// at `x`.
pub open spec fn short(ends: Seq<(usize, usize)>, x: int) -> bool {
    ||| exists|e: int| 0 <= e < ends.len() && #[trigger] self_loop(ends, e, x)
    ||| exists|e1: int, e2: int|
        0 <= e1 < ends.len() && 0 <= e2 < ends.len() && #[trigger] parallel(ends, e1, e2) && touches(ends, e1, x)
}

/// `x` is listed on one of the loops.
pub open spec fn on_some_loop(cycles: Seq<Vec<usize>>, x: int) -> bool {
    exists|c: int, j: int| 0 <= c < cycles.len() && 0 <= j < cycles[c]@.len() && #[trigger] cycles[c]@[j] as int == x
}

/// Rail `f` opens the loop `c`: it runs from `c`'s first vertex to its second, and no earlier rail
/// touches a vertex of `c`.
pub open spec fn opens_loop(ends: Seq<(usize, usize)>, c: Seq<usize>, f: int) -> bool {
    &&& 0 <= f < ends.len()
    &&& c.len() >= 2
    &&& ends[f].0 == c[0] && ends[f].1 == c[1]
    &&& forall|e: int, j: int| 0 <= e < f && 0 <= j < c.len() ==> !#[trigger] touches(ends, e, c[j] as int)
}

/// Some rail opens the loop `c`.
pub open spec fn opened(ends: Seq<(usize, usize)>, c: Seq<usize>) -> bool {
    exists|f: int| #[trigger] opens_loop(ends, c, f)
}

/// A loop has one opening rail.
proof fn lemma_opens_unique(ends: Seq<(usize, usize)>, c: Seq<usize>, f1: int, f2: int)
    requires
        opens_loop(ends, c, f1),
        opens_loop(ends, c, f2),
    ensures
        f1 == f2,
{
    if f1 < f2 {
        assert(touches(ends, f1, c[0] as int));
    } else if f2 < f1 {
        assert(touches(ends, f2, c[0] as int));
    }
}

/// Every vertex carrying rails has both walked or neither, except `x` and `y`.
pub open spec fn clean_except(
    used: Seq<bool>,
    deg: Seq<usize>,
    s0: Seq<usize>,
    s1: Seq<usize>,
    x: int,
    y: int,
) -> bool {
    forall|w: int| 0 <= w < deg.len() && #[trigger] deg[w] == 2 && w != x && w != y ==> clean(used, s0, s1, w)
}

/// Read the closed boundary loops off the tracer's graph — its rails `edges`, between boundary
/// ends identified through the union-find `parent`.
///
/// Refuses [`CutFitFault::ShadowLoopOpen`] exactly when some identified vertex carries a number
/// of rails other than none or two (a boundary that does not close). Otherwise every component
/// of the graph is a cycle, and each of at least three vertices is returned — a simple loop, no
/// two sharing a vertex — in the order its rails are first met, each walked from the first end of
/// its first rail along that rail; if there is none,
/// [`CutFitFault::DegenerateSpan`].
pub fn close_loops(parent: &mut [usize], edges: &Vec<(usize, usize)>) -> (res: Result<
    Vec<Vec<usize>>,
    CutFitFault,
>)
    requires
        is_forest(old(parent)@),
        forall|e: int|
            0 <= e < edges@.len() ==> (#[trigger] edges@[e]).0 < old(parent)@.len() && edges@[e].1
                < old(parent)@.len(),
        edges@.len() < usize::MAX / 2,
    ensures
        final(parent)@.len() == old(parent)@.len(),
        is_forest(final(parent)@),
        forall|y: int| 0 <= y < old(parent)@.len() ==> #[trigger] root(final(parent)@, y) == root(old(parent)@, y),
        res == Err::<Vec<Vec<usize>>, CutFitFault>(CutFitFault::ShadowLoopOpen) <==> degree_fault(
            root_ends(old(parent)@, edges@),
            old(parent)@.len() as nat,
        ),
        res matches Err(f) ==> f == CutFitFault::ShadowLoopOpen || f == CutFitFault::DegenerateSpan,
        res matches Ok(cycles) ==> cycles@.len() > 0 && forall|i: int|
            0 <= i < cycles@.len() ==> is_loop(root_ends(old(parent)@, edges@), #[trigger] cycles@[i]@),
        res matches Ok(cycles) ==> forall|i: int, j: int|
            0 <= i < cycles@.len() && 0 <= j < cycles@[i]@.len() ==> #[trigger] cycles@[i]@[j] < old(parent)@.len(),
        // Each loop is simple, and no two loops share a vertex.
        res matches Ok(cycles) ==> disjoint_loops(cycles@),
        // The loops come in the order their rails are first met: each opens at its first rail,
        // walked from that rail's first end to its second, and their first rails increase.
        res matches Ok(cycles) ==> forall|i: int|
            0 <= i < cycles@.len() ==> opened(root_ends(old(parent)@, edges@), #[trigger] cycles@[i]@),
        res matches Ok(cycles) ==> forall|i: int, j: int, fi: int, fj: int|
            0 <= i < j < cycles@.len() && #[trigger] opens_loop(root_ends(old(parent)@, edges@), cycles@[i]@, fi)
                && #[trigger] opens_loop(root_ends(old(parent)@, edges@), cycles@[j]@, fj) ==> fi < fj,
        // Every vertex carrying two rails is on a returned loop, unless its component is short.
        res matches Ok(cycles) ==> forall|x: int|
            0 <= x < old(parent)@.len() && #[trigger] degree(root_ends(old(parent)@, edges@), x, edges@.len() as nat) == 2
                ==> on_some_loop(cycles@, x) || short(root_ends(old(parent)@, edges@), x),
        // No loop at all exactly when the boundary closes but every component is short.
        res == Err::<Vec<Vec<usize>>, CutFitFault>(CutFitFault::DegenerateSpan) <==> !degree_fault(
            root_ends(old(parent)@, edges@),
            old(parent)@.len() as nat,
        ) && forall|x: int|
            0 <= x < old(parent)@.len() && #[trigger] degree(root_ends(old(parent)@, edges@), x, edges@.len() as nat) == 2
                ==> short(root_ends(old(parent)@, edges@), x),
{
    let ghost p0 = parent@;
    let n = parent.len();
    let m = edges.len();
    let (ends, deg, s0, s1) = build_tables(parent, edges);
    let ghost all = root_ends(p0, edges@);
    // Every identified vertex must carry none or two rails.
    let mut v: usize = 0;
    while v < n
        invariant
            p0 == old(parent)@,
            n == p0.len(),
            all == root_ends(p0, edges@),
            is_forest(parent@),
            parent@.len() == p0.len(),
            forall|y: int| 0 <= y < p0.len() ==> #[trigger] root(parent@, y) == root(p0, y),
            v <= n,
            n == deg@.len(),
            ends@ == all,
            m == ends@.len(),
            slots_ok(all, m as nat, deg@, s0@, s1@),
            forall|w: int| 0 <= w < v ==> #[trigger] deg@[w] == 0 || deg@[w] == 2,
        decreases n - v,
    {
        if deg[v] != 0 && deg[v] != 2 {
            proof {
                assert(degree(all, v as int, all.len()) != 0);
                assert(deg@[v as int] as nat == degree(all, v as int, m as nat));
                assert(degree_fault(all, n as nat));
            }
            return Err(CutFitFault::ShadowLoopOpen);
        }
        v = v + 1;
    }
    proof {
        assert(!degree_fault(all, n as nat)) by {
            assert forall|w: int| 0 <= w < n implies !(#[trigger] degree(all, w, all.len()) != 0 && degree(all, w, all.len()) != 2) by {
                assert(deg@[w] as nat == degree(all, w, m as nat));
            }
        }
    }
    // Every component is now a cycle: walk each from its first unwalked rail.
    let mut used: Vec<bool> = Vec::new();
    let mut i: usize = 0;
    while i < m
        invariant
            is_forest(parent@),
            parent@.len() == p0.len(),
            forall|y: int| 0 <= y < p0.len() ==> #[trigger] root(parent@, y) == root(p0, y),
            i <= m,
            used@.len() == i,
            forall|j: int| 0 <= j < i ==> !#[trigger] used@[j],
        decreases m - i,
    {
        used.push(false);
        i = i + 1;
    }
    let mut cycles: Vec<Vec<usize>> = Vec::new();
    let ghost mut firsts: Seq<int> = Seq::empty();
    let mut e0: usize = 0;
    while e0 < m
        invariant
            firsts.len() == cycles@.len(),
            forall|c: int| 0 <= c < cycles@.len() ==> opens_loop(all, #[trigger] cycles@[c]@, firsts[c]),
            forall|c: int| 0 <= c < firsts.len() ==> #[trigger] firsts[c] < e0,
            forall|a: int, b: int| 0 <= a < b < cycles@.len() ==> #[trigger] firsts[a] < #[trigger] firsts[b],
            p0 == old(parent)@,
            n == p0.len(),
            all == root_ends(p0, edges@),
            !degree_fault(all, n as nat),
            is_forest(parent@),
            parent@.len() == p0.len(),
            forall|y: int| 0 <= y < p0.len() ==> #[trigger] root(parent@, y) == root(p0, y),
            e0 <= m,
            m == ends@.len(),
            n == deg@.len(),
            ends@ == all,
            used@.len() == m,
            s0@.len() == n,
            s1@.len() == n,
            slots_ok(all, m as nat, deg@, s0@, s1@),
            forall|w: int| 0 <= w < n ==> #[trigger] deg@[w] == 0 || deg@[w] == 2,
            forall|e: int| 0 <= e < m ==> (#[trigger] all[e]).0 < n && all[e].1 < n,
            clean_except(used@, deg@, s0@, s1@, -1, -1),
            forall|c: int| 0 <= c < cycles@.len() ==> is_loop(all, #[trigger] cycles@[c]@),
            forall|c: int, j: int| 0 <= c < cycles@.len() && 0 <= j < cycles@[c]@.len() ==> #[trigger] cycles@[c]@[j] < n,
            forall|c: int, j: int| 0 <= c < cycles@.len() && 0 <= j < cycles@[c]@.len() ==> full(
                used@,
                s0@,
                s1@,
                #[trigger] cycles@[c]@[j] as int,
            ),
            disjoint_loops(cycles@),
            forall|e: int| 0 <= e < e0 ==> #[trigger] used@[e],
            forall|x: int|
                0 <= x < n && deg@[x] == 2 && #[trigger] full(used@, s0@, s1@, x) ==> on_some_loop(cycles@, x) || short(all, x),
        decreases m - e0,
    {
        if used[e0] {
            proof {
            }
            e0 = e0 + 1;
            continue;
        }
        let start = ends[e0].0;
        let mut verts: Vec<usize> = Vec::new();
        verts.push(start);
        let mut v = start;
        let mut e = e0;
        proof {
            lemma_degree_lower(all, start as int, m as nat, e0 as int, e0 as int);
            assert(deg@[start as int] as nat == degree(all, start as int, m as nat));
            assert(touches(all, e0 as int, start as int));
            assert(!full(used@, s0@, s1@, start as int));
            assert forall|c: int, t: int, j: int| 0 <= c < cycles@.len() && 0 <= t < cycles@[c]@.len() && 0 <= j
                < verts@.len() implies #[trigger] cycles@[c]@[t] != #[trigger] verts@[j] by {
                assert(full(used@, s0@, s1@, cycles@[c]@[t] as int));
            }
        }
        let ghost u0 = used@;
        loop
            invariant_except_break
                e < m,
                !used@[e as int],
                verts@.len() == 1 ==> e == e0 && used@ == u0,
                verts@.len() >= 2 ==> all[e0 as int].1 == verts@[1],
                touches(all, e as int, v as int) && (e == s0@[v as int] || e == s1@[v as int]),
                verts@.len() >= 2 ==> used@[e0 as int] && touches(all, e0 as int, start as int) && touches(
                    all,
                    e0 as int,
                    verts@[1] as int,
                ),
                touches(all, e as int, v as int),
                v < n,
                deg@[v as int] == 2,
                v == start ==> clean_except(used@, deg@, s0@, s1@, -1, -1) && verts@.len() == 1,
                v != start ==> half(used@, s0@, s1@, start as int) && half(used@, s0@, s1@, v as int)
                    && clean_except(used@, deg@, s0@, s1@, start as int, v as int),
                verts@.len() >= 1,
                verts@.last() == v,
                forall|j: int| 1 <= j < verts@.len() - 1 ==> full(used@, s0@, s1@, #[trigger] verts@[j] as int),
            invariant
                p0 == old(parent)@,
                n == p0.len(),
                all == root_ends(p0, edges@),
                !degree_fault(all, n as nat),
                is_forest(parent@),
                parent@.len() == p0.len(),
                forall|y: int| 0 <= y < p0.len() ==> #[trigger] root(parent@, y) == root(p0, y),
                m == ends@.len(),
                n == deg@.len(),
                ends@ == all,
                used@.len() == m,
                s0@.len() == n,
                s1@.len() == n,
                slots_ok(all, m as nat, deg@, s0@, s1@),
                forall|w: int| 0 <= w < n ==> #[trigger] deg@[w] == 0 || deg@[w] == 2,
                forall|e: int| 0 <= e < m ==> (#[trigger] all[e]).0 < n && all[e].1 < n,
                start < n,
                deg@[start as int] == 2,
                verts@[0] == start,
                forall|j: int| 0 <= j < verts@.len() ==> #[trigger] verts@[j] < n,
                forall|j: int| 0 <= j < verts@.len() - 1 ==> joined(all, #[trigger] verts@[j] as int, verts@[j + 1] as int),
                forall|a: int, b: int| 0 <= a < b < verts@.len() ==> #[trigger] verts@[a] != #[trigger] verts@[b],
                forall|c: int, t: int| 0 <= c < cycles@.len() && 0 <= t < cycles@[c]@.len() ==> full(
                    used@,
                    s0@,
                    s1@,
                    #[trigger] cycles@[c]@[t] as int,
                ),
                forall|c: int, t: int, j: int| 0 <= c < cycles@.len() && 0 <= t < cycles@[c]@.len() && 0 <= j
                    < verts@.len() ==> #[trigger] cycles@[c]@[t] != #[trigger] verts@[j],
                disjoint_loops(cycles@),
                e0 < m,
                u0.len() == m,
                forall|y: int| 0 <= y < m && u0[y] ==> #[trigger] used@[y],
                all[e0 as int].0 == start,
                firsts.len() == cycles@.len(),
                forall|c: int| 0 <= c < cycles@.len() ==> opens_loop(all, #[trigger] cycles@[c]@, firsts[c]),
            forall|c: int| 0 <= c < firsts.len() ==> #[trigger] firsts[c] < e0,
                forall|a: int, b: int| 0 <= a < b < cycles@.len() ==> #[trigger] firsts[a] < #[trigger] firsts[b],
                clean_except(u0, deg@, s0@, s1@, -1, -1),
                forall|y: int| 0 <= y < e0 ==> #[trigger] u0[y],
                forall|j: int| 0 <= j < verts@.len() ==> !u0[s0@[#[trigger] verts@[j] as int] as int] && !u0[s1@[verts@[j] as int] as int],
                forall|x: int|
                    0 <= x < n && deg@[x] == 2 && #[trigger] full(used@, s0@, s1@, x) ==> full(u0, s0@, s1@, x) || exists|j: int|
                        0 <= j < verts@.len() && #[trigger] verts@[j] as int == x,
            ensures
                used@[e0 as int],
                verts@.len() >= 2 ==> all[e0 as int].1 == verts@[1],
                forall|j: int| 0 <= j < verts@.len() ==> !u0[s0@[#[trigger] verts@[j] as int] as int] && !u0[s1@[verts@[j] as int] as int],
                verts@.len() < 3 ==> forall|j: int| 0 <= j < verts@.len() ==> short(all, #[trigger] verts@[j] as int),
                clean_except(used@, deg@, s0@, s1@, -1, -1),
                verts@.len() >= 1,
                joined(all, verts@.last() as int, start as int),
                forall|j: int| 0 <= j < verts@.len() ==> full(used@, s0@, s1@, #[trigger] verts@[j] as int),
            decreases unset(used@, m as nat),
        {
            let ghost before = used@;
            proof {
                lemma_unset_mark(before, e as int, m as nat);
            }
            used.set(e, true);
            let (a, b) = ends[e];
            let w = if a == v { b } else { a };
            proof {
                lemma_walk_step(all, m as nat, deg@, s0@, s1@, before, e as int, v as int, w as int, start as int);
                // `e` is a slot of both its ends, and was not yet walked.
                assert(touches(all, e as int, w as int));
                assert(e as int == s0@[w as int] as int || e as int == s1@[w as int] as int);
                assert(e as int == s0@[v as int] as int || e as int == s1@[v as int] as int);
                assert(!full(before, s0@, s1@, w as int));
                // Walking keeps walked rails walked.
                assert forall|x: int| 0 <= x < n && full(before, s0@, s1@, x) implies full(used@, s0@, s1@, x) by {}
                if v != start {
                    assert(full(used@, s0@, s1@, v as int));
                    if w as int == v as int {
                        assert(incidence(all, e as int, v as int) == 2);
                    }
                } else if w == start {
                    assert(incidence(all, e as int, v as int) == 2);
                    assert(s0@[v as int] == s1@[v as int]);
                }
                if w == start && v != start {
                    assert(full(used@, s0@, s1@, start as int));
                }
            }
            proof {
                // Only the two ends of the walked rail can become fully walked.
                assert forall|x: int|
                    0 <= x < n && deg@[x] == 2 && #[trigger] full(used@, s0@, s1@, x) implies full(u0, s0@, s1@, x)
                        || exists|j: int| 0 <= j < verts@.len() && #[trigger] verts@[j] as int == x
                        || x == w as int by {
                    if x != v as int && x != w as int {
                        assert(full(before, s0@, s1@, x));
                    } else if x == v as int {
                        assert(verts@[verts@.len() - 1] as int == x);
                    }
                }
            }
            if w == start {
                proof {
                    assert forall|j: int| 0 <= j < verts@.len() implies full(used@, s0@, s1@, #[trigger] verts@[j] as int) by {
                        if 1 <= j < verts@.len() - 1 {
                            assert(full(before, s0@, s1@, verts@[j] as int));
                        }
                    }
                    assert(verts@[0] as int == w as int);
                    if verts@.len() == 1 {
                        assert(v == start);
                        assert(self_loop(all, e as int, start as int));
                    } else if verts@.len() == 2 {
                        assert(v == verts@[1]);
                        assert(verts@[0] != verts@[1]);
                        assert(e != e0);
                        assert(parallel(all, e0 as int, e as int));
                        assert(touches(all, e0 as int, start as int));
                        assert(touches(all, e0 as int, v as int));
                    }
                }
                break;
            }
            let ghost verts0 = verts@;
            verts.push(w);
            proof {
                assert(verts@[verts@.len() - 1] == w);
                assert forall|x: int|
                    0 <= x < n && deg@[x] == 2 && #[trigger] full(used@, s0@, s1@, x) implies full(u0, s0@, s1@, x)
                        || exists|j: int| 0 <= j < verts@.len() && #[trigger] verts@[j] as int == x by {
                    if !full(u0, s0@, s1@, x) && x != w as int {
                        let j = choose|j: int| 0 <= j < verts0.len() && #[trigger] verts0[j] as int == x;
                        assert(verts@[j] == verts0[j]);
                    }
                }
                if verts0.len() == 1 {
                    assert(v == start);
                    assert(verts@[1] == w);
                } else {
                    assert(verts@[1] == verts0[1]);
                }
                assert forall|j: int| 1 <= j < verts@.len() - 1 implies full(used@, s0@, s1@, #[trigger] verts@[j] as int) by {
                    if j < verts0.len() - 1 {
                        assert(verts@[j] == verts0[j]);
                        assert(full(before, s0@, s1@, verts0[j] as int));
                    } else {
                        assert(verts@[j] == v);
                    }
                }
                assert forall|a: int, b: int| 0 <= a < b < verts@.len() implies #[trigger] verts@[a] != #[trigger] verts@[b] by {
                    if b == verts@.len() - 1 {
                        assert(verts@[b] == w);
                        assert(verts@[a] == verts0[a]);
                        if 1 <= a < verts0.len() - 1 {
                            assert(full(before, s0@, s1@, verts0[a] as int));
                        }
                    } else {
                        assert(verts@[a] == verts0[a] && verts@[b] == verts0[b]);
                    }
                }
                assert forall|c: int, t: int, j: int| 0 <= c < cycles@.len() && 0 <= t < cycles@[c]@.len() && 0 <= j
                    < verts@.len() implies #[trigger] cycles@[c]@[t] != #[trigger] verts@[j] by {
                    if j == verts@.len() - 1 {
                        assert(full(before, s0@, s1@, cycles@[c]@[t] as int));
                    } else {
                        assert(verts@[j] == verts0[j]);
                    }
                }
            }
            v = w;
            if !used[s0[v]] {
                e = s0[v];
            } else if !used[s1[v]] {
                e = s1[v];
            } else {
                return Err(CutFitFault::ShadowLoopOpen);
            }
        }
        let ghost cycles_pre = cycles@;
        let ghost vs = verts@;
        if verts.len() >= 3 {
            let ghost cycles0 = cycles@;
            proof {
                // No rail before `e0` touches the new loop: each of its vertices had both rails
                // unwalked when the walk began, and every rail before `e0` was walked.
                assert forall|e: int, j: int| 0 <= e < e0 && 0 <= j < verts@.len() implies !#[trigger] touches(
                    all,
                    e,
                    verts@[j] as int,
                ) by {
                    if touches(all, e, verts@[j] as int) {
                        let x = verts@[j] as int;
                        assert(deg@[x] == 2);
                        assert(e == s0@[x] as int || e == s1@[x] as int);
                        assert(u0[e]);
                    }
                }
                assert(opens_loop(all, verts@, e0 as int));
            }
            cycles.push(verts);
            let ghost firsts0 = firsts;
            proof {
                firsts = firsts.push(e0 as int);
                assert forall|a: int, b: int| 0 <= a < b < cycles@.len() implies #[trigger] firsts[a] < #[trigger] firsts[b] by {
                    assert(firsts[a] == firsts0[a]);
                    if b < firsts0.len() {
                        assert(firsts[b] == firsts0[b]);
                    } else {
                        assert(cycles@[a] == cycles0[a]);
                        assert(firsts0[a] < e0);
                    }
                }
                assert forall|c: int| 0 <= c < cycles@.len() implies opens_loop(all, #[trigger] cycles@[c]@, firsts[c]) by {
                    if c < cycles0.len() {
                        assert(cycles@[c] == cycles0[c]);
                    }
                }
                assert forall|c: int| 0 <= c < firsts.len() implies #[trigger] firsts[c] < e0 + 1 by {
                    if c < firsts0.len() {
                        assert(firsts[c] == firsts0[c]);
                    }
                }
            }
            proof {
                assert forall|c: int, j: int| 0 <= c < cycles@.len() && 0 <= j < cycles@[c]@.len() implies full(
                    used@,
                    s0@,
                    s1@,
                    #[trigger] cycles@[c]@[j] as int,
                ) by {
                    if c < cycles0.len() {
                        assert(cycles@[c] == cycles0[c]);
                    }
                }
                assert(disjoint_loops(cycles@)) by {
                    assert forall|i: int, a: int, b: int|
                        0 <= i < cycles@.len() && 0 <= a < b < cycles@[i]@.len() implies #[trigger] cycles@[i]@[a]
                            != #[trigger] cycles@[i]@[b] by {
                        if i < cycles0.len() {
                            assert(cycles@[i] == cycles0[i]);
                        }
                    }
                    assert forall|i: int, j: int, a: int, b: int|
                        0 <= i < j < cycles@.len() && 0 <= a < cycles@[i]@.len() && 0 <= b < cycles@[j]@.len()
                            implies #[trigger] cycles@[i]@[a] != #[trigger] cycles@[j]@[b] by {
                        assert(cycles@[i] == cycles0[i]);
                        if j < cycles0.len() {
                            assert(cycles@[j] == cycles0[j]);
                        }
                    }
                }
            }
        }
        proof {
            assert forall|c: int| 0 <= c < cycles@.len() implies opens_loop(all, #[trigger] cycles@[c]@, firsts[c]) by {
                if c < cycles_pre.len() {
                    assert(cycles@[c] == cycles_pre[c]);
                }
            }
            assert forall|y: int| 0 <= y < e0 + 1 implies #[trigger] used@[y] by {
                if y < e0 {
                    assert(u0[y]);
                }
            }
            assert forall|x: int|
                0 <= x < n && deg@[x] == 2 && #[trigger] full(used@, s0@, s1@, x) implies on_some_loop(cycles@, x) || short(
                    all,
                    x,
                ) by {
                if full(u0, s0@, s1@, x) {
                    if on_some_loop(cycles_pre, x) {
                        let (c, j) = choose|c: int, j: int|
                            0 <= c < cycles_pre.len() && 0 <= j < cycles_pre[c]@.len() && #[trigger] cycles_pre[c]@[j] as int
                                == x;
                        assert(cycles@[c] == cycles_pre[c]);
                        assert(cycles@[c]@[j] as int == x);
                    }
                } else {
                    let j = choose|j: int| 0 <= j < vs.len() && #[trigger] vs[j] as int == x;
                    if vs.len() >= 3 {
                        assert(cycles@[cycles@.len() - 1]@ == vs);
                        assert(cycles@[cycles@.len() - 1]@[j] as int == x);
                    } else {
                        assert(short(all, vs[j] as int));
                    }
                }
            }
        }
        e0 = e0 + 1;
    }
    proof {
        assert forall|x: int| 0 <= x < n && #[trigger] degree(all, x, m as nat) == 2 implies on_some_loop(cycles@, x)
            || short(all, x) by {
            assert(deg@[x] as nat == degree(all, x, m as nat));
            assert(full(used@, s0@, s1@, x));
        }
    }
    if cycles.len() == 0 {
        return Err(CutFitFault::DegenerateSpan);
    }
    proof {
        assert(all == root_ends(p0, edges@));
        assert forall|i: int| 0 <= i < cycles@.len() implies opened(root_ends(p0, edges@), #[trigger] cycles@[i]@) by {
            assert(opens_loop(root_ends(p0, edges@), cycles@[i]@, firsts[i]));
        }
        assert forall|i: int, j: int, fi: int, fj: int|
            0 <= i < j < cycles@.len() && #[trigger] opens_loop(all, cycles@[i]@, fi) && #[trigger] opens_loop(
                all,
                cycles@[j]@,
                fj,
            ) implies fi < fj by {
            lemma_opens_unique(all, cycles@[i]@, fi, firsts[i]);
            lemma_opens_unique(all, cycles@[j]@, fj, firsts[j]);
        }
    }
    proof {
        // The first vertex of the first loop carries two rails and is on no short component.
        let c = cycles@[0]@;
        let x = c[0] as int;
        assert(joined(all, c[0] as int, c[1] as int));
        let f = choose|e: int|
            0 <= e < all.len() && ((#[trigger] all[e].0 as int == x && all[e].1 as int == c[1] as int) || (all[e].0 as int
                == c[1] as int && all[e].1 as int == x));
        lemma_degree_lower(all, x, m as nat, f, f);
        assert(x < n);
        assert(degree(all, x, all.len()) == 2);
        lemma_loop_not_short(all, c);
    }
    Ok(cycles)
}

/// Walking one unwalked rail `e` from `v` to its other end `w` keeps the parity picture of the
/// walk: the rails are the slots of exactly their ends, so only `v` and `w` change.
proof fn lemma_walk_step(
    all: Seq<(usize, usize)>,
    m: nat,
    deg: Seq<usize>,
    s0: Seq<usize>,
    s1: Seq<usize>,
    used: Seq<bool>,
    e: int,
    v: int,
    w: int,
    start: int,
)
    requires
        m == all.len(),
        used.len() == m,
        s0.len() == deg.len(),
        s1.len() == deg.len(),
        slots_ok(all, m, deg, s0, s1),
        forall|x: int| 0 <= x < deg.len() ==> #[trigger] deg[x] == 0 || deg[x] == 2,
        forall|x: int| 0 <= x < m ==> (#[trigger] all[x]).0 < deg.len() && all[x].1 < deg.len(),
        0 <= e < m,
        !used[e],
        touches(all, e, v),
        w == if all[e].0 as int == v { all[e].1 as int } else { all[e].0 as int },
        0 <= v < deg.len(),
        0 <= start < deg.len(),
        deg[v] == 2,
        deg[start] == 2,
        v == start ==> clean_except(used, deg, s0, s1, -1, -1),
        v != start ==> half(used, s0, s1, start) && half(used, s0, s1, v) && clean_except(used, deg, s0, s1, start, v),
    ensures
        0 <= w < deg.len(),
        deg[w] == 2,
        joined(all, v, w),
        w == start ==> clean_except(used.update(e, true), deg, s0, s1, -1, -1),
        w != start ==> half(used.update(e, true), s0, s1, start) && half(used.update(e, true), s0, s1, w)
            && clean_except(used.update(e, true), deg, s0, s1, start, w),
        w != start ==> touches(all, s0[w] as int, w) && touches(all, s1[w] as int, w),
        w != start ==> (s0[w] as int) < m && (s1[w] as int) < m,
        w != start ==> !used.update(e, true)[s0[w] as int] || !used.update(e, true)[s1[w] as int],
        forall|x: int|
            0 <= x < deg.len() && deg[x] == 2 && x != v && x != w ==> (#[trigger] full(used.update(e, true), s0, s1, x)
                <==> full(used, s0, s1, x)),
{
    let u = used.update(e, true);
    assert(touches(all, e, w));
    lemma_degree_lower(all, w, m, e, e);
    assert(deg[w] as nat == degree(all, w, m));
    assert(joined(all, v, w));
    // `e` is a slot of exactly its ends.
    assert forall|x: int| 0 <= x < deg.len() && deg[x] == 2 && (s0[x] as int == e || s1[x] as int == e) implies touches(all, e, x) by {}
    assert(e == s0[v] as int || e == s1[v] as int);
    assert(e == s0[w] as int || e == s1[w] as int);
    assert forall|x: int| 0 <= x < deg.len() && #[trigger] deg[x] == 2 && x != v && x != w implies u[s0[x] as int] == used[s0[x] as int] && u[s1[x] as int] == used[s1[x] as int] by {
        if s0[x] as int == e {
            assert(touches(all, e, x));
        }
        if s1[x] as int == e {
            assert(touches(all, e, x));
        }
    }
    if v == w {
        // A loop: both of its end's slots are this one rail.
        assert(incidence(all, e, v) == 2);
        assert(s0[v] == s1[v]);
    } else {
        assert(incidence(all, e, v) == 1);
        assert(incidence(all, e, w) == 1);
        assert(s0[v] != s1[v]);
        assert(s0[w] != s1[w]);
    }
}

} // verus!
