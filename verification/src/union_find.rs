//! Union-find over a parent array, with path halving — the identification structure the
//! footprint tracer closes its boundary loops with.
//!
//! A parent array is a **forest** when some ranking of its nodes grows strictly along every
//! parent link; the root of a node is then where following parent links ends. The operations
//! here keep the forest a forest and are stated over [`root`].

use vstd::prelude::*;
use vstd::set_lib::*;

verus! {

/// Every parent link stays inside the array.
pub open spec fn closed(p: Seq<usize>) -> bool {
    forall|i: int| 0 <= i < p.len() ==> (#[trigger] p[i] as int) < p.len()
}

/// `rank` grows strictly along every non-root parent link.
pub open spec fn ranked(p: Seq<usize>, rank: Seq<nat>) -> bool {
    &&& rank.len() == p.len()
    &&& closed(p)
    &&& forall|i: int| 0 <= i < p.len() && #[trigger] p[i] as int != i ==> rank[i] < rank[p[i] as int]
}

/// The parent array is a forest: following parent links always ends at a root.
pub open spec fn is_forest(p: Seq<usize>) -> bool {
    exists|rank: Seq<nat>| ranked(p, rank)
}

/// `x` is a root: its own parent.
pub open spec fn is_root(p: Seq<usize>, x: int) -> bool {
    p[x] as int == x
}

/// The node reached from `x` by following `k` parent links.
pub open spec fn follow(p: Seq<usize>, x: int, k: nat) -> int
    decreases k,
{
    if k == 0 {
        x
    } else {
        p[follow(p, x, (k - 1) as nat)] as int
    }
}

/// The root of `x`'s tree: no path in a forest of `n` nodes is longer than `n` links.
pub open spec fn root(p: Seq<usize>, x: int) -> int {
    follow(p, x, p.len())
}

proof fn lemma_follow_in_range(p: Seq<usize>, x: int, k: nat)
    requires
        closed(p),
        0 <= x < p.len(),
    ensures
        0 <= follow(p, x, k) < p.len(),
    decreases k,
{
    if k > 0 {
        lemma_follow_in_range(p, x, (k - 1) as nat);
    }
}

proof fn lemma_follow_shift(p: Seq<usize>, x: int, k: nat)
    requires
        closed(p),
        0 <= x < p.len(),
    ensures
        follow(p, p[x] as int, k) == follow(p, x, k + 1),
    decreases k,
{
    if k == 0 {
        assert(follow(p, x, 1) == p[follow(p, x, 0)] as int);
    } else {
        lemma_follow_shift(p, x, (k - 1) as nat);
        assert(follow(p, x, k + 1) == p[follow(p, x, k)] as int);
    }
}

proof fn lemma_root_stays(p: Seq<usize>, x: int, k: nat, j: nat)
    requires
        closed(p),
        0 <= x < p.len(),
        is_root(p, follow(p, x, k)),
        k <= j,
    ensures
        follow(p, x, j) == follow(p, x, k),
    decreases j,
{
    if j > k {
        lemma_root_stays(p, x, k, (j - 1) as nat);
    }
}

proof fn lemma_rank_increases(p: Seq<usize>, rank: Seq<nat>, x: int, k: nat)
    requires
        ranked(p, rank),
        0 <= x < p.len(),
        forall|i: nat| i < k ==> !is_root(p, #[trigger] follow(p, x, i)),
    ensures
        forall|i: nat, j: nat|
            i < j <= k ==> rank[#[trigger] follow(p, x, i)] < rank[#[trigger] follow(p, x, j)],
    decreases k,
{
    if k > 0 {
        let km = (k - 1) as nat;
        lemma_rank_increases(p, rank, x, km);
        lemma_follow_in_range(p, x, km);
        assert(!is_root(p, follow(p, x, km)));
        assert forall|i: nat, j: nat| i < j <= k implies rank[#[trigger] follow(p, x, i)] < rank[
            #[trigger] follow(p, x, j)
        ] by {
            if j == k && i < km {
                assert(rank[follow(p, x, i)] < rank[follow(p, x, km)]);
            }
        }
    }
}

/// In a forest every node reaches its root within `n` links.
pub proof fn lemma_root_is_root(p: Seq<usize>, x: int)
    requires
        is_forest(p),
        0 <= x < p.len(),
    ensures
        0 <= root(p, x) < p.len(),
        is_root(p, root(p, x)),
{
    let rank = choose|rank: Seq<nat>| ranked(p, rank);
    let n = p.len();
    lemma_follow_in_range(p, x, n);
    if !is_root(p, root(p, x)) {
        assert forall|i: nat| i < n + 1 implies !is_root(p, #[trigger] follow(p, x, i)) by {
            if is_root(p, follow(p, x, i)) {
                lemma_follow_in_range(p, x, i);
                lemma_root_stays(p, x, i, n);
            }
        }
        lemma_rank_increases(p, rank, x, n + 1);
        let s = Seq::new(n + 1, |i: int| follow(p, x, i as nat));
        assert(s.no_duplicates()) by {
            assert forall|i: int, j: int| 0 <= i < s.len() && 0 <= j < s.len() && i != j implies s[i]
                != s[j] by {
                if i < j {
                    assert(rank[follow(p, x, i as nat)] < rank[follow(p, x, j as nat)]);
                } else {
                    assert(rank[follow(p, x, j as nat)] < rank[follow(p, x, i as nat)]);
                }
            }
        }
        s.unique_seq_to_set();
        assert(s.to_set().subset_of(set_int_range(0, n as int))) by {
            assert forall|v: int| s.to_set().contains(v) implies set_int_range(0, n as int).contains(
                v,
            ) by {
                let i = choose|i: int| 0 <= i < s.len() && s[i] == v;
                lemma_follow_in_range(p, x, i as nat);
            }
        }
        lemma_int_range(0, n as int);
        lemma_len_subset(s.to_set(), set_int_range(0, n as int));
    }
}

/// Following links past the root stays at the root.
proof fn lemma_root_far(p: Seq<usize>, x: int, j: nat)
    requires
        is_forest(p),
        0 <= x < p.len(),
        p.len() <= j,
    ensures
        follow(p, x, j) == root(p, x),
{
    lemma_root_is_root(p, x);
    lemma_root_stays(p, x, p.len(), j);
}

/// A root is its own root.
pub proof fn lemma_root_of_root(p: Seq<usize>, x: int)
    requires
        closed(p),
        0 <= x < p.len(),
        is_root(p, x),
    ensures
        root(p, x) == x,
{
    lemma_root_stays(p, x, 0, p.len());
}

/// A node and its parent share a root.
pub proof fn lemma_root_of_parent(p: Seq<usize>, x: int)
    requires
        is_forest(p),
        0 <= x < p.len(),
    ensures
        root(p, p[x] as int) == root(p, x),
{
    let rank = choose|rank: Seq<nat>| ranked(p, rank);
    assert(closed(p));
    lemma_follow_shift(p, x, p.len());
    lemma_root_far(p, x, p.len() + 1);
}

/// Tracks a path of the halved array along the array before halving.
proof fn lemma_halve_track(p: Seq<usize>, x: int, y: int, k: nat) -> (j: nat)
    requires
        closed(p),
        0 <= x < p.len(),
        0 <= y < p.len(),
    ensures
        k <= j,
        follow(p.update(x, p[p[x] as int]), y, k) == follow(p, y, j),
    decreases k,
{
    let q = p.update(x, p[p[x] as int]);
    if k == 0 {
        0
    } else {
        let km = (k - 1) as nat;
        let jm = lemma_halve_track(p, x, y, km);
        let z = follow(p, y, jm);
        lemma_follow_in_range(p, y, jm);
        if z == x {
            assert(follow(p, y, jm + 1) == p[x] as int);
            (jm + 2) as nat
        } else {
            (jm + 1) as nat
        }
    }
}

/// Path halving keeps the forest and every node's root.
proof fn lemma_halve(p: Seq<usize>, rank: Seq<nat>, x: int)
    requires
        ranked(p, rank),
        0 <= x < p.len(),
        !is_root(p, x),
    ensures
        ranked(p.update(x, p[p[x] as int]), rank),
        forall|y: int|
            0 <= y < p.len() ==> #[trigger] root(p.update(x, p[p[x] as int]), y) == root(p, y),
        rank[x] < rank[p[p[x] as int] as int],
{
    let q = p.update(x, p[p[x] as int]);
    let px = p[x] as int;
    assert(rank[x] < rank[px]);
    assert(rank[px] <= rank[p[px] as int]) by {
        if p[px] as int != px {
        }
    }
    assert(ranked(q, rank));
    assert(is_forest(p));
    assert(is_forest(q));
    assert forall|y: int| 0 <= y < p.len() implies #[trigger] root(q, y) == root(p, y) by {
        let j = lemma_halve_track(p, x, y, p.len());
        lemma_root_far(p, y, j);
    }
}

/// Where a halving walk from `x` stands after `k` steps: two parent links per step.
pub open spec fn hop2(p: Seq<usize>, x: int, k: nat) -> int {
    follow(p, x, 2 * k)
}

/// `y` is a node the halving walk from `x` stands on before its `i`-th step, short of the root.
pub open spec fn walked_before(p: Seq<usize>, x: int, y: int, i: nat) -> bool {
    exists|k: nat| k < i && #[trigger] hop2(p, x, k) == y && !is_root(p, y)
}

/// `y` is a node the halving walk from `x` stands on short of the root: the nodes it relinks.
pub open spec fn halving_walk(p: Seq<usize>, x: int, y: int) -> bool {
    exists|k: nat| #[trigger] hop2(p, x, k) == y && !is_root(p, y)
}

/// The root of `x`, halving the path on the way: the walk goes from `x` two links at a time, and
/// every node it stands on short of the root is relinked to its grandparent, so later finds are
/// shorter. Every other entry is left as it was, and every node keeps its root.
pub fn uf_find(parent: &mut [usize], x: usize) -> (r: usize)
    requires
        is_forest(old(parent)@),
        x < old(parent)@.len(),
    ensures
        final(parent)@.len() == old(parent)@.len(),
        is_forest(final(parent)@),
        r as int == root(old(parent)@, x as int),
        r < final(parent)@.len(),
        is_root(final(parent)@, r as int),
        forall|y: int|
            0 <= y < old(parent)@.len() ==> #[trigger] root(final(parent)@, y) == root(
                old(parent)@,
                y,
            ),
        // Path halving: exactly the nodes the walk stands on are relinked, to their grandparents.
        forall|y: int|
            0 <= y < old(parent)@.len() ==> #[trigger] final(parent)@[y] == if halving_walk(
                old(parent)@,
                x as int,
                y,
            ) {
                old(parent)@[old(parent)@[y] as int]
            } else {
                old(parent)@[y]
            },
{
    let ghost p0 = parent@;
    let ghost rank = choose|rank: Seq<nat>| ranked(p0, rank);
    let ghost b = rank_bound(rank);
    let ghost x0 = x as int;
    let ghost mut i: nat = 0;
    let mut x = x;
    proof {
        assert(hop2(p0, x0, 0) == x0);
    }
    while parent[x] != x
        invariant
            parent@.len() == p0.len(),
            ranked(p0, rank),
            ranked(parent@, rank),
            forall|i: int| 0 <= i < rank.len() ==> rank[i] < b,
            x < parent@.len(),
            root(parent@, x as int) == root(p0, x0),
            0 <= x0 < p0.len(),
            forall|y: int| 0 <= y < p0.len() ==> #[trigger] root(parent@, y) == root(p0, y),
            x as int == hop2(p0, x0, i),
            forall|k: nat| k < i ==> !is_root(p0, #[trigger] hop2(p0, x0, k)) && rank[hop2(p0, x0, k)] < rank[x as int],
            forall|y: int| 0 <= y < p0.len() ==> #[trigger] parent@[y] == if walked_before(p0, x0, y, i) {
                p0[p0[y] as int]
            } else {
                p0[y]
            },
        decreases b - rank[x as int],
    {
        let ghost before = parent@;
        proof {
            // `x` is not yet walked, nor is its parent: both outrank every walked node.
            assert(!walked_before(p0, x0, x as int, i)) by {
                if walked_before(p0, x0, x as int, i) {
                    let k = choose|k: nat| k < i && #[trigger] hop2(p0, x0, k) == x as int && !is_root(p0, x as int);
                }
            }
            assert(before[x as int] == p0[x as int]);
            assert(!is_root(p0, x as int));
            let px = p0[x as int] as int;
            assert(rank[x as int] < rank[px]);
            assert(!walked_before(p0, x0, px, i)) by {
                if walked_before(p0, x0, px, i) {
                    let k = choose|k: nat| k < i && #[trigger] hop2(p0, x0, k) == px && !is_root(p0, px);
                }
            }
            assert(before[px] == p0[px]);
            lemma_halve(before, rank, x as int);
            assert(is_forest(before));
            lemma_follow_shift(before, x as int, before.len());
            lemma_follow_shift(before, before[x as int] as int, before.len());
            lemma_root_far(before, x as int, before.len() + 2);
            lemma_root_of_parent(before, x as int);
            lemma_root_of_parent(before, before[x as int] as int);
        }
        let g = parent[parent[x]];
        parent[x] = g;
        proof {
            let px = p0[x as int] as int;
            assert(g as int == p0[px]);
            // The walk's next stand is two links further along the original array.
            assert(follow(p0, x0, 2 * i + 1) == px);
            assert(follow(p0, x0, 2 * i + 2) == p0[px] as int);
            assert(hop2(p0, x0, i + 1) == g as int);
            assert(rank[px] <= rank[g as int]) by {
                if p0[px] as int != px {
                }
            }
            assert forall|k: nat| k < i + 1 implies !is_root(p0, #[trigger] hop2(p0, x0, k)) && rank[hop2(p0, x0, k)]
                < rank[g as int] by {
                if k == i {
                    assert(hop2(p0, x0, k) == x as int);
                }
            }
            assert forall|y: int| 0 <= y < p0.len() implies #[trigger] parent@[y] == if walked_before(p0, x0, y, i + 1) {
                p0[p0[y] as int]
            } else {
                p0[y]
            } by {
                if y == x as int {
                    assert(hop2(p0, x0, i) == y);
                    assert(walked_before(p0, x0, y, i + 1));
                } else {
                    assert(parent@[y] == before[y]);
                    if walked_before(p0, x0, y, i + 1) {
                        let k = choose|k: nat| k < i + 1 && #[trigger] hop2(p0, x0, k) == y && !is_root(p0, y);
                        assert(k != i);
                        assert(walked_before(p0, x0, y, i));
                    } else {
                        if walked_before(p0, x0, y, i) {
                            let k = choose|k: nat| k < i && #[trigger] hop2(p0, x0, k) == y && !is_root(p0, y);
                            assert(k < i + 1);
                        }
                    }
                }
            }
            i = i + 1;
        }
        x = g;
    }
    proof {
        assert(is_forest(parent@));
        lemma_root_stays(parent@, x as int, 0, parent@.len());
        assert(root(parent@, x as int) == x as int);
        // The walk ended on the root of the original array: past it, it stands there for good.
        assert(!walked_before(p0, x0, x as int, i)) by {
            if walked_before(p0, x0, x as int, i) {
                let k = choose|k: nat| k < i && #[trigger] hop2(p0, x0, k) == x as int && !is_root(p0, x as int);
            }
        }
        assert(is_root(p0, x as int));
        assert forall|y: int| 0 <= y < p0.len() implies halving_walk(p0, x0, y) == walked_before(p0, x0, y, i) by {
            if halving_walk(p0, x0, y) {
                let k = choose|k: nat| #[trigger] hop2(p0, x0, k) == y && !is_root(p0, y);
                if k >= i {
                    lemma_root_stays(p0, x0, 2 * i, 2 * k);
                }
                assert(walked_before(p0, x0, y, i));
            }
            if walked_before(p0, x0, y, i) {
                let k = choose|k: nat| k < i && #[trigger] hop2(p0, x0, k) == y && !is_root(p0, y);
                assert(halving_walk(p0, x0, y));
            }
        }
    }
    x
}

/// Tracks a path of the linked array along the array before linking: it agrees until it reaches
/// `rb`, and is at `ra` from then on.
proof fn lemma_link_track(p: Seq<usize>, ra: int, rb: int, y: int, k: nat)
    requires
        closed(p),
        0 <= ra < p.len(),
        0 <= rb < p.len(),
        0 <= y < p.len(),
        is_root(p, ra),
        ra != rb,
    ensures
        follow(p.update(rb, ra as usize), y, k) == follow(p, y, k) || follow(
            p.update(rb, ra as usize),
            y,
            k,
        ) == ra,
        follow(p.update(rb, ra as usize), y, k) == follow(p, y, k) || exists|i: nat|
            i < k && follow(p, y, i) == rb,
    decreases k,
{
    if k > 0 {
        let km = (k - 1) as nat;
        lemma_link_track(p, ra, rb, y, km);
        lemma_follow_in_range(p, y, km);
        let q = p.update(rb, ra as usize);
        if follow(q, y, km) != follow(p, y, km) {
            let i = choose|i: nat| i < km && follow(p, y, i) == rb;
            assert(i < k && follow(p, y, i) == rb);
        }
        if follow(p, y, km) == rb {
            assert(km < k);
        }
    }
}

/// Linking root `rb` under root `ra` keeps a forest; the nodes of `rb`'s tree now have root
/// `ra`, every other node keeps its root.
proof fn lemma_link(p: Seq<usize>, ra: int, rb: int)
    requires
        is_forest(p),
        0 <= ra < p.len(),
        0 <= rb < p.len(),
        is_root(p, ra),
        is_root(p, rb),
        ra != rb,
    ensures
        is_forest(p.update(rb, ra as usize)),
        forall|y: int|
            0 <= y < p.len() ==> #[trigger] root(p.update(rb, ra as usize), y) == if root(p, y)
                == rb {
                ra
            } else {
                root(p, y)
            },
{
    let rank = choose|rank: Seq<nat>| ranked(p, rank);
    let q = p.update(rb, ra as usize);
    let hi = if rank[ra] > rank[rb] { rank[ra] } else { rank[rb] + 1 };
    let rank2 = rank.update(ra, hi);
    assert(ranked(q, rank2)) by {
        assert forall|i: int| 0 <= i < q.len() && #[trigger] q[i] as int != i implies rank2[i]
            < rank2[q[i] as int] by {
            if i != rb {
                assert(p[i] as int != i);
                assert(rank[i] < rank[p[i] as int]);
            }
        }
    }
    assert(is_forest(q));
    assert forall|y: int| 0 <= y < p.len() implies #[trigger] root(q, y) == if root(p, y) == rb {
        ra
    } else {
        root(p, y)
    } by {
        let n = p.len();
        lemma_link_track(p, ra, rb, y, n);
        lemma_root_is_root(q, y);
        lemma_root_is_root(p, y);
        if root(p, y) == rb {
            if root(q, y) != ra {
                assert(root(q, y) == rb);
                assert(q[rb] as int == ra);
            }
        } else {
            if root(q, y) != root(p, y) {
                let i = choose|i: nat| i < n && follow(p, y, i) == rb;
                lemma_follow_in_range(p, y, i);
                lemma_root_stays(p, y, i, n);
            }
        }
    }
}

/// Merge the trees of `a` and `b`: `Some((ra, rb))` when they were two trees, with `rb`'s root
/// now linked under `ra`'s; `None` when they already shared a root. Every node of `rb`'s tree
/// then has root `ra`; every other node keeps its root.
pub fn uf_union(parent: &mut [usize], a: usize, b: usize) -> (res: Option<(usize, usize)>)
    requires
        is_forest(old(parent)@),
        a < old(parent)@.len(),
        b < old(parent)@.len(),
    ensures
        final(parent)@.len() == old(parent)@.len(),
        is_forest(final(parent)@),
        res is None <==> root(old(parent)@, a as int) == root(old(parent)@, b as int),
        res matches Some((ra, rb)) ==> ra as int == root(old(parent)@, a as int) && rb as int
            == root(old(parent)@, b as int) && ra < old(parent)@.len() && rb < old(parent)@.len()
            && ra != rb,
        forall|y: int|
            0 <= y < old(parent)@.len() ==> #[trigger] root(final(parent)@, y) == if root(
                old(parent)@,
                y,
            ) == root(old(parent)@, b as int) {
                root(old(parent)@, a as int)
            } else {
                root(old(parent)@, y)
            },
{
    let ghost p0 = parent@;
    let ra = uf_find(parent, a);
    let rb = uf_find(parent, b);
    if ra == rb {
        return None;
    }
    proof {
        lemma_root_is_root(parent@, a as int);
        lemma_link(parent@, ra as int, rb as int);
    }
    parent[rb] = ra;
    Some((ra, rb))
}

/// Some bound strictly above every rank.
proof fn rank_bound(rank: Seq<nat>) -> (b: nat)
    ensures
        forall|i: int| 0 <= i < rank.len() ==> rank[i] < b,
    decreases rank.len(),
{
    if rank.len() == 0 {
        0
    } else {
        let b0 = rank_bound(rank.drop_last());
        let last = rank.last();
        let b = if b0 > last + 1 { b0 } else { last + 1 };
        assert forall|i: int| 0 <= i < rank.len() implies rank[i] < b by {
            if i < rank.len() - 1 {
                assert(rank[i] == rank.drop_last()[i]);
            }
        }
        b
    }
}

} // verus!
