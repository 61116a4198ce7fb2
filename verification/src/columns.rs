//! **Column matching** — how the stretches a cutter leaves on one sampled ruling continue onto
//! the next.
//!
//! Each column holds the stretches of one ruling lying inside the cutter, in increasing µ̂, as
//! order keys (integers that compare exactly as the µ̂ values they stand for). Between two
//! columns a stretch continues, is born, dies, merges with its neighbours or splits; continuing
//! boundary ends become **rails**, and the ends a birth, death or saddle closes are **joined**.

use vstd::prelude::*;
use crate::cut::CutFitFault;
use crate::union_find::{is_forest, lemma_root_of_root, ranked, root, uf_union};

verus! {

/// Which end of a stretch a boundary end is.
#[derive(Clone, Copy, PartialEq, Eq, Debug, Structural)]
pub enum Side {
    /// The stretch's lower µ̂ end.
    Lo,
    /// The stretch's upper µ̂ end.
    Hi,
}

/// A rail: end `side` of stretch `left` of the left column continues as end `side` of stretch
/// `right` of the right column.
#[derive(Clone, Copy, PartialEq, Eq, Debug, Structural)]
pub struct Rail {
    /// The stretch of the left column.
    pub left: usize,
    /// The stretch of the right column.
    pub right: usize,
    /// Which end of the two stretches continues.
    pub side: Side,
}

/// An identification of two boundary ends within one column (`right` says which).
#[derive(Clone, Copy, PartialEq, Eq, Debug, Structural)]
pub enum Join {
    /// A stretch born or dying between the columns: its two ends close on one vertex.
    Pinch { right: bool, k: usize },
    /// A merge or split saddle: the upper end of stretch `k` meets the lower end of `k + 1`.
    Saddle { right: bool, k: usize },
}

/// How one pair of adjacent columns matches.
#[derive(Debug)]
pub struct ColumnMatch {
    /// The rails, in the order they were found.
    pub rails: Vec<Rail>,
    /// The identifications, in the order they are to be made.
    pub joins: Vec<Join>,
}

/// Two closed µ̂ intervals overlap.
pub open spec fn ov(a: (u64, u64), b: (u64, u64)) -> bool {
    a.0 <= b.1 && b.0 <= a.1
}

/// A column: each stretch an interval, strictly increasing and disjoint.
#[verifier::opaque]
pub open spec fn column(c: Seq<(u64, u64)>) -> bool {
    &&& forall|i: int| 0 <= i < c.len() ==> (#[trigger] c[i]).0 <= c[i].1
    &&& forall|i: int, j: int| 0 <= i < j < c.len() ==> (#[trigger] c[i]).1 < (#[trigger] c[j]).0
}

/// Stretch `x` of `l` overlaps no stretch of `r`.
pub open spec fn lone(l: Seq<(u64, u64)>, x: int, r: Seq<(u64, u64)>) -> bool {
    forall|y: int| 0 <= y < r.len() ==> !ov(l[x], #[trigger] r[y])
}

/// Stretch `a[x]` overlaps one of `b[b0..b1]`.
pub open spec fn reaches(a: Seq<(u64, u64)>, x: int, b: Seq<(u64, u64)>, b0: int, b1: int) -> bool {
    exists|y: int| b0 <= y < b1 && ov(a[x], #[trigger] b[y])
}

/// Every stretch of `a[a0..a1]` overlaps one of `b[b0..b1]`.
pub open spec fn covered(a: Seq<(u64, u64)>, a0: int, a1: int, b: Seq<(u64, u64)>, b0: int, b1: int) -> bool {
    forall|x: int| a0 <= x < a1 ==> #[trigger] reaches(a, x, b, b0, b1)
}

proof fn lemma_covered_widen(
    a: Seq<(u64, u64)>,
    a0: int,
    a1: int,
    b: Seq<(u64, u64)>,
    b0: int,
    b1: int,
    b2: int,
)
    requires
        covered(a, a0, a1, b, b0, b1),
        b1 <= b2,
    ensures
        covered(a, a0, a1, b, b0, b2),
{
    assert forall|x: int| a0 <= x < a1 implies #[trigger] reaches(a, x, b, b0, b2) by {
        assert(reaches(a, x, b, b0, b1));
        let y = choose|y: int| b0 <= y < b1 && ov(a[x], #[trigger] b[y]);
        assert(b0 <= y < b2 && ov(a[x], b[y]));
    }
}

/// Consecutive stretches `a[x]` and `a[x + 1]` both overlap one stretch of `b[b0..b1]`.
pub open spec fn bridged(a: Seq<(u64, u64)>, x: int, b: Seq<(u64, u64)>, b0: int, b1: int) -> bool {
    exists|y: int| b0 <= y < b1 && ov(a[x], #[trigger] b[y]) && ov(a[x + 1], b[y])
}

/// Every consecutive pair of `a[a0..a1]` is bridged by a stretch of `b[b0..b1]`: the group is
/// connected through its overlaps.
pub open spec fn linked(a: Seq<(u64, u64)>, a0: int, a1: int, b: Seq<(u64, u64)>, b0: int, b1: int) -> bool {
    forall|x: int| a0 <= x < a1 - 1 ==> #[trigger] bridged(a, x, b, b0, b1)
}

/// The group `l[i0..ie]`, `r[j0..je]` is closed: a stretch of it overlaps no stretch outside it.
pub open spec fn closed_group(l: Seq<(u64, u64)>, r: Seq<(u64, u64)>, i0: int, ie: int, j0: int, je: int) -> bool {
    forall|x: int, y: int|
        0 <= x < l.len() && 0 <= y < r.len() && #[trigger] ov(l[x], r[y]) ==> ((i0 <= x < ie) <==> (j0 <= y
            < je))
}

/// Stretches `l[i0..ie]` and `r[j0..je]` form one **overlap component** — each overlapping the
/// other side, connected through their overlaps, overlapping nothing outside — with at least two
/// on each side: between the columns the stretches both merge and split.
pub open spec fn tangle(l: Seq<(u64, u64)>, r: Seq<(u64, u64)>, i0: int, ie: int, j0: int, je: int) -> bool {
    &&& 0 <= i0 && i0 + 2 <= ie <= l.len()
    &&& 0 <= j0 && j0 + 2 <= je <= r.len()
    &&& covered(l, i0, ie, r, j0, je)
    &&& covered(r, j0, je, l, i0, ie)
    &&& linked(l, i0, ie, r, j0, je)
    &&& linked(r, j0, je, l, i0, ie)
    &&& closed_group(l, r, i0, ie, j0, je)
}

/// A stretch of `a` overlapping `b[y]` past the group `a[a0..a1]`, when `b[y]` also reaches the
/// group, makes the group's last stretch overlap `b[y]` too: intervals are convex.
proof fn lemma_bridge_new(a: Seq<(u64, u64)>, a0: int, a1: int, b: Seq<(u64, u64)>, y: int)
    requires
        column(a),
        0 <= a0 < a1 < a.len(),
        0 <= y < b.len(),
        ov(a[a1], b[y]),
        reaches(b, y, a, a0, a1),
    ensures
        ov(a[a1 - 1], b[y]),
{
    reveal(column);
    let x = choose|x: int| a0 <= x < a1 && ov(b[y], #[trigger] a[x]);
    if x < a1 - 1 {
        assert(a[x].1 < a[a1 - 1].0);
    }
    assert(a[a1 - 1].1 < a[a1].0);
}

/// Widening the other side keeps a group linked.
proof fn lemma_linked_widen(a: Seq<(u64, u64)>, a0: int, a1: int, b: Seq<(u64, u64)>, b0: int, b1: int, b2: int)
    requires
        linked(a, a0, a1, b, b0, b1),
        b1 <= b2,
    ensures
        linked(a, a0, a1, b, b0, b2),
{
    assert forall|x: int| a0 <= x < a1 - 1 implies #[trigger] bridged(a, x, b, b0, b2) by {
        assert(bridged(a, x, b, b0, b1));
        let y = choose|y: int| b0 <= y < b1 && ov(a[x], #[trigger] b[y]) && ov(a[x + 1], b[y]);
        assert(b0 <= y < b2 && ov(a[x], b[y]) && ov(a[x + 1], b[y]));
    }
}

/// A stretch of a component's left side lies in a closed group that holds one of its stretches.
proof fn lemma_member(
    l: Seq<(u64, u64)>,
    r: Seq<(u64, u64)>,
    i0: int,
    ie: int,
    j0: int,
    je: int,
    a0: int,
    ae: int,
    b0: int,
    be: int,
    s: int,
    x: int,
)
    requires
        closed_group(l, r, i0, ie, j0, je),
        0 <= a0 <= s < ae <= l.len(),
        0 <= b0 <= be <= r.len(),
        linked(l, a0, ae, r, b0, be),
        i0 <= s < ie,
        a0 <= x < ae,
    ensures
        i0 <= x < ie,
    decreases if x >= s { x - s } else { s - x },
{
    if x > s {
        lemma_member(l, r, i0, ie, j0, je, a0, ae, b0, be, s, x - 1);
        assert(bridged(l, x - 1, r, b0, be));
        let y = choose|y: int| b0 <= y < be && ov(l[x - 1], #[trigger] r[y]) && ov(l[x], r[y]);
        assert(ov(l[x - 1], r[y]));
        assert(ov(l[x], r[y]));
    } else if x < s {
        lemma_member(l, r, i0, ie, j0, je, a0, ae, b0, be, s, x + 1);
        assert(bridged(l, x, r, b0, be));
        let y = choose|y: int| b0 <= y < be && ov(l[x], #[trigger] r[y]) && ov(l[x + 1], r[y]);
        assert(ov(l[x + 1], r[y]));
        assert(ov(l[x], r[y]));
    }
}

/// A component sharing a stretch with a closed group lies inside it.
proof fn lemma_tangle_within(
    l: Seq<(u64, u64)>,
    r: Seq<(u64, u64)>,
    i0: int,
    ie: int,
    j0: int,
    je: int,
    a0: int,
    ae: int,
    b0: int,
    be: int,
)
    requires
        closed_group(l, r, i0, ie, j0, je),
        tangle(l, r, a0, ae, b0, be),
        (i0 <= a0 < ie) || (j0 <= b0 < je),
    ensures
        i0 <= a0 && ae <= ie && j0 <= b0 && be <= je,
{
    let s = if i0 <= a0 < ie {
        a0
    } else {
        assert(reaches(r, b0, l, a0, ae));
        let x = choose|x: int| a0 <= x < ae && ov(r[b0], #[trigger] l[x]);
        assert(ov(l[x], r[b0]));
        x
    };
    lemma_member(l, r, i0, ie, j0, je, a0, ae, b0, be, s, a0);
    lemma_member(l, r, i0, ie, j0, je, a0, ae, b0, be, s, ae - 1);
    assert(reaches(r, b0, l, a0, ae));
    let x0 = choose|x: int| a0 <= x < ae && ov(r[b0], #[trigger] l[x]);
    lemma_member(l, r, i0, ie, j0, je, a0, ae, b0, be, s, x0);
    assert(ov(l[x0], r[b0]));
    assert(reaches(r, be - 1, l, a0, ae));
    let x1 = choose|x: int| a0 <= x < ae && ov(r[be - 1], #[trigger] l[x]);
    lemma_member(l, r, i0, ie, j0, je, a0, ae, b0, be, s, x1);
    assert(ov(l[x1], r[be - 1]));
}

/// A rail is sound: it continues an end onto an overlapping stretch of the next column.
pub open spec fn sound_rail(l: Seq<(u64, u64)>, r: Seq<(u64, u64)>, t: Rail) -> bool {
    t.left < l.len() && t.right < r.len() && ov(l[t.left as int], r[t.right as int])
}

/// A rail continues an **outer** end of its overlap group: a lower end between two stretches
/// neither of which overlaps the other's lower neighbour, an upper end likewise upward. The ends
/// inside a merge or a split are saddles, never rails.
pub open spec fn outer_rail(l: Seq<(u64, u64)>, r: Seq<(u64, u64)>, t: Rail) -> bool {
    let x = t.left as int;
    let y = t.right as int;
    match t.side {
        Side::Lo => (x == 0 || !ov(l[x - 1], r[y])) && (y == 0 || !ov(l[x], r[y - 1])),
        Side::Hi => (x + 1 == l.len() || !ov(l[x + 1], r[y])) && (y + 1 == r.len() || !ov(l[x], r[y + 1])),
    }
}

/// A stretch overlapping two stretches of a column overlaps every stretch between them.
proof fn lemma_ov_between(a: (u64, u64), r: Seq<(u64, u64)>, i: int, k: int, j: int)
    requires
        column(r),
        0 <= i <= k <= j < r.len(),
        ov(a, r[i]),
        ov(a, r[j]),
    ensures
        ov(a, r[k]),
{
    reveal(column);
    if i < k {
        assert(r[i].1 < r[k].0);
    }
    if k < j {
        assert(r[k].1 < r[j].0);
    }
}

/// Whatever rails and joins meet the matching's guarantees, every outer end of an overlapping
/// pair of stretches has its rail.
proof fn lemma_outer_rail_present(
    l: Seq<(u64, u64)>,
    r: Seq<(u64, u64)>,
    rails: Seq<Rail>,
    joins: Seq<Join>,
    t: Rail,
)
    requires
        column(l),
        column(r),
        forall|k: int| 0 <= k < rails.len() ==> sound_rail(l, r, #[trigger] rails[k]),
        forall|k: int| 0 <= k < rails.len() ==> outer_rail(l, r, #[trigger] rails[k]),
        forall|k: int| 0 <= k < joins.len() ==> sound_join(l, r, #[trigger] joins[k]),
        forall|x: int| 0 <= x < l.len() && !lone(l, x, r) ==> #[trigger] both_accounted(rails, joins, false, x),
        sound_rail(l, r, t),
        outer_rail(l, r, t),
    ensures
        rails.contains(t),
{
    reveal(column);
    let x = t.left as int;
    let y = t.right as int;
    assert(!lone(l, x, r)) by {
        assert(ov(l[x], r[y]));
    }
    assert(both_accounted(rails, joins, false, x));
    // The end is not a saddle: the stretch across it would overlap a neighbour an outer end excludes.
    match t.side {
        Side::Lo => {
            if x > 0 && joins.contains(Join::Saddle { right: false, k: (x - 1) as usize }) {
                let u = choose|u: int| 0 <= u < joins.len() && joins[u] == Join::Saddle { right: false, k: (x - 1) as usize };
                assert(sound_join(l, r, joins[u]));
                let y2 = choose|y2: int| 0 <= y2 < r.len() && ov(l[x - 1], #[trigger] r[y2]) && ov(l[x], r[y2]);
                if y2 < y {
                    lemma_ov_between(l[x], r, y2, y - 1, y);
                } else if y2 > y {
                    assert(l[x - 1].1 < l[x].0);
                    assert(r[y].1 < r[y2].0);
                }
            }
        },
        Side::Hi => {
            if joins.contains(Join::Saddle { right: false, k: x as usize }) {
                let u = choose|u: int| 0 <= u < joins.len() && joins[u] == Join::Saddle { right: false, k: x as usize };
                assert(sound_join(l, r, joins[u]));
                let y2 = choose|y2: int| 0 <= y2 < r.len() && ov(l[x], #[trigger] r[y2]) && ov(l[x + 1], r[y2]);
                if y2 > y {
                    lemma_ov_between(l[x], r, y, y + 1, y2);
                } else if y2 < y {
                    assert(l[x].1 < l[x + 1].0);
                    assert(r[y2].1 < r[y].0);
                }
            }
        },
    }
    assert(has_rail(rails, false, x, t.side));
    let k = choose|k: int| 0 <= k < rails.len() && #[trigger] rails[k].side == t.side && rails[k].left == x;
    let y3 = rails[k].right as int;
    assert(sound_rail(l, r, rails[k]) && outer_rail(l, r, rails[k]));
    // Both rails continue the same end onto the extreme stretch it overlaps: the same stretch.
    if y3 < y {
        lemma_ov_between(l[x], r, y3, if t.side == Side::Lo { y - 1 } else { y3 + 1 }, y);
    } else if y3 > y {
        lemma_ov_between(l[x], r, y, if t.side == Side::Lo { y3 - 1 } else { y + 1 }, y3);
    }
    assert(rails[k] == t);
}

/// A rail's place in the left column's order of ends.
pub open spec fn rail_key(t: Rail) -> int {
    2 * t.left + if t.side == Side::Hi {
        1int
    } else {
        0int
    }
}

/// A join is sound: a pinch closes a stretch that overlaps nothing across the gap; a saddle
/// joins two consecutive stretches that one stretch across the gap overlaps both of.
pub open spec fn sound_join(l: Seq<(u64, u64)>, r: Seq<(u64, u64)>, j: Join) -> bool {
    match j {
        Join::Pinch { right: false, k } => k < l.len() && lone(l, k as int, r),
        Join::Pinch { right: true, k } => k < r.len() && lone(r, k as int, l),
        Join::Saddle { right: false, k } => k + 1 < l.len() && exists|y: int|
            0 <= y < r.len() && ov(l[k as int], #[trigger] r[y]) && ov(l[k + 1], r[y]),
        Join::Saddle { right: true, k } => k + 1 < r.len() && exists|x: int|
            0 <= x < l.len() && ov(#[trigger] l[x], r[k as int]) && ov(l[x], r[k + 1]),
    }
}

/// The index-matched rails of two columns with as many stretches: both ends of stretch `k`
/// continue onto stretch `k`.
pub open spec fn index_rails(n: nat) -> Seq<Rail>
    decreases n,
{
    if n == 0 {
        Seq::empty()
    } else {
        let k = (n - 1) as usize;
        index_rails((n - 1) as nat).push(Rail { left: k, right: k, side: Side::Lo }).push(
            Rail { left: k, right: k, side: Side::Hi },
        )
    }
}

/// Some stretch of `col[from..to]` overlaps `x`.
fn any_overlap(x: (u64, u64), col: &Vec<(u64, u64)>, from: usize, to: usize) -> (res: bool)
    requires
        from <= to <= col@.len(),
    ensures
        res == exists|y: int| from <= y < to && ov(x, #[trigger] col@[y]),
{
    let mut k = from;
    while k < to
        invariant
            from <= k <= to,
            to <= col@.len(),
            forall|y: int| from <= y < k ==> !ov(x, #[trigger] col@[y]),
        decreases to - k,
    {
        if x.0 <= col[k].1 && col[k].0 <= x.1 {
            return true;
        }
        k = k + 1;
    }
    false
}

/// A stretch of a grown component overlapping a stretch past it would make the component's last
/// stretch overlap the first stretch past it — which the growth ruled out.
proof fn lemma_closed_point(
    l: Seq<(u64, u64)>,
    r: Seq<(u64, u64)>,
    i0: int,
    ie: int,
    j0: int,
    je: int,
    x: int,
    y: int,
)
    requires
        column(l),
        column(r),
        0 <= i0 < ie <= l.len(),
        0 <= j0 < je < r.len(),
        covered(l, i0, ie, r, j0, je),
        forall|a: int| i0 <= a < ie ==> !ov(#[trigger] l[a], r[je]),
        i0 <= x < ie,
        je <= y < r.len(),
    ensures
        !ov(l[x], r[y]),
{
    reveal(column);
    if ov(l[x], r[y]) {
        let t = ie - 1;
        assert(reaches(l, t, r, j0, je));
        let b = choose|b: int| j0 <= b < je && ov(l[t], #[trigger] r[b]);
        assert(l[x].1 <= l[t].1) by {
            if x < t {
                assert(l[x].1 < l[t].0);
                assert(l[t].0 <= l[t].1);
            }
        }
        assert(r[je].0 <= r[y].0) by {
            if y > je {
                assert(r[je].1 < r[y].0);
                assert(r[je].0 <= r[je].1);
            }
        }
        assert(r[b].1 < r[je].0);
        assert(r[je].0 <= r[je].1);
        assert(ov(l[t], r[je]));
    }
}

/// A grown overlap component is closed: nothing it holds overlaps a stretch past it.
proof fn lemma_component_closed(
    l: Seq<(u64, u64)>,
    r: Seq<(u64, u64)>,
    i0: int,
    ie: int,
    j0: int,
    je: int,
)
    requires
        column(l),
        column(r),
        0 <= i0 < ie <= l.len(),
        0 <= j0 < je <= r.len(),
        covered(l, i0, ie, r, j0, je),
        covered(r, j0, je, l, i0, ie),
        ie < l.len() ==> forall|y: int| j0 <= y < je ==> !ov(l[ie], #[trigger] r[y]),
        je < r.len() ==> forall|x: int| i0 <= x < ie ==> !ov(#[trigger] l[x], r[je]),
    ensures
        forall|x: int, y: int| i0 <= x < ie && je <= y < r.len() ==> !ov(#[trigger] l[x], #[trigger] r[y]),
        forall|x: int, y: int| ie <= x < l.len() && j0 <= y < je ==> !ov(#[trigger] l[x], #[trigger] r[y]),
{
    assert forall|x: int, y: int| i0 <= x < ie && je <= y < r.len() implies !ov(#[trigger] l[x], #[trigger] r[y]) by {
        lemma_closed_point(l, r, i0, ie, j0, je, x, y);
    }
    assert forall|x: int, y: int| ie <= x < l.len() && j0 <= y < je implies !ov(#[trigger] l[x], #[trigger] r[y]) by {
        assert forall|a: int| j0 <= a < je implies !ov(#[trigger] r[a], l[ie]) by {}
        lemma_closed_point(r, l, j0, je, i0, ie, y, x);
    }
}

/// The saddle between stretches `k` and `k + 1` of one column is sound.
pub open spec fn saddle_ok(l: Seq<(u64, u64)>, r: Seq<(u64, u64)>, right: bool, k: int) -> bool {
    sound_join(l, r, Join::Saddle { right, k: k as usize })
}

/// Pushing keeps every element a sequence already held.
proof fn lemma_push_keeps<T>(s: Seq<T>, a: T)
    ensures
        forall|x: T| #[trigger] s.contains(x) ==> s.push(a).contains(x),
        s.push(a).contains(a),
{
    assert forall|x: T| #[trigger] s.contains(x) implies s.push(a).contains(x) by {
        let t = choose|t: int| 0 <= t < s.len() && s[t] == x;
        assert(s.push(a)[t] == x);
    }
    assert(s.push(a)[s.len() as int] == a);
}

/// Grow the overlap component of `l[i0]` and `r[j0]`: consecutive stretches on either side that
/// reach it, until neither side reaches further. Returns its ends `(ie, je)`.
fn grow_component(l: &Vec<(u64, u64)>, r: &Vec<(u64, u64)>, i0: usize, j0: usize) -> (res: (usize, usize))
    requires
        column(l@),
        column(r@),
        i0 < l@.len(),
        j0 < r@.len(),
        ov(l@[i0 as int], r@[j0 as int]),
    ensures
        i0 < res.0 <= l@.len(),
        j0 < res.1 <= r@.len(),
        covered(l@, i0 as int, res.0 as int, r@, j0 as int, res.1 as int),
        covered(r@, j0 as int, res.1 as int, l@, i0 as int, res.0 as int),
        forall|x: int, y: int| i0 <= x < res.0 && res.1 <= y < r@.len() ==> !ov(#[trigger] l@[x], #[trigger] r@[y]),
        forall|x: int, y: int| res.0 <= x < l@.len() && j0 <= y < res.1 ==> !ov(#[trigger] l@[x], #[trigger] r@[y]),
        linked(l@, i0 as int, res.0 as int, r@, j0 as int, res.1 as int),
        linked(r@, j0 as int, res.1 as int, l@, i0 as int, res.0 as int),
{
    let p = l.len();
    let q = r.len();
    let mut ie = i0 + 1;
    let mut je = j0 + 1;
    proof {
        assert(reaches(l@, i0 as int, r@, j0 as int, je as int));
        assert(reaches(r@, j0 as int, l@, i0 as int, ie as int));
    }
    loop
        invariant_except_break
            i0 < ie <= p,
            j0 < je <= q,
            covered(l@, i0 as int, ie as int, r@, j0 as int, je as int),
            covered(r@, j0 as int, je as int, l@, i0 as int, ie as int),
            linked(l@, i0 as int, ie as int, r@, j0 as int, je as int),
            linked(r@, j0 as int, je as int, l@, i0 as int, ie as int),
        invariant
            p == l@.len(),
            q == r@.len(),
            column(l@),
            column(r@),
        ensures
            i0 < ie <= p,
            j0 < je <= q,
            covered(l@, i0 as int, ie as int, r@, j0 as int, je as int),
            covered(r@, j0 as int, je as int, l@, i0 as int, ie as int),
            linked(l@, i0 as int, ie as int, r@, j0 as int, je as int),
            linked(r@, j0 as int, je as int, l@, i0 as int, ie as int),
            ie < p ==> forall|y: int| j0 <= y < je ==> !ov(l@[ie as int], #[trigger] r@[y]),
            je < q ==> forall|x: int| i0 <= x < ie ==> !ov(#[trigger] l@[x], r@[je as int]),
        decreases (p - ie) + (q - je),
    {
        let ghost (ie_s, je_s) = (ie, je);
        let mut grew = false;
        while ie < p && any_overlap(l[ie], r, j0, je)
            invariant
                p == l@.len(),
                q == r@.len(),
                i0 < ie <= p,
                j0 < je <= q,
                covered(l@, i0 as int, ie as int, r@, j0 as int, je as int),
                covered(r@, j0 as int, je as int, l@, i0 as int, ie as int),
                linked(l@, i0 as int, ie as int, r@, j0 as int, je as int),
                linked(r@, j0 as int, je as int, l@, i0 as int, ie as int),
                column(l@),
                column(r@),
                je == je_s,
                grew == (ie > ie_s),
                ie >= ie_s,
            decreases p - ie,
        {
            proof {
                assert(reaches(l@, ie as int, r@, j0 as int, je as int));
                assert(covered(l@, i0 as int, ie + 1, r@, j0 as int, je as int));
                lemma_covered_widen(r@, j0 as int, je as int, l@, i0 as int, ie as int, ie + 1);
                let y = choose|y: int| j0 <= y < je && ov(l@[ie as int], #[trigger] r@[y]);
                assert(reaches(r@, y, l@, i0 as int, ie as int));
                lemma_bridge_new(l@, i0 as int, ie as int, r@, y);
                assert(bridged(l@, ie - 1, r@, j0 as int, je as int));
                assert(linked(l@, i0 as int, ie + 1, r@, j0 as int, je as int));
                lemma_linked_widen(r@, j0 as int, je as int, l@, i0 as int, ie as int, ie + 1);
            }
            ie = ie + 1;
            grew = true;
        }
        while je < q && any_overlap(r[je], l, i0, ie)
            invariant
                p == l@.len(),
                q == r@.len(),
                i0 < ie <= p,
                j0 < je <= q,
                covered(l@, i0 as int, ie as int, r@, j0 as int, je as int),
                covered(r@, j0 as int, je as int, l@, i0 as int, ie as int),
                linked(l@, i0 as int, ie as int, r@, j0 as int, je as int),
                linked(r@, j0 as int, je as int, l@, i0 as int, ie as int),
                column(l@),
                column(r@),
                grew == (ie > ie_s || je > je_s),
                ie >= ie_s,
                je >= je_s,
                !grew ==> !(ie < p && exists|y: int| j0 <= y < je && ov(l@[ie as int], #[trigger] r@[y])),
            decreases q - je,
        {
            proof {
                assert(reaches(r@, je as int, l@, i0 as int, ie as int));
                assert(covered(r@, j0 as int, je + 1, l@, i0 as int, ie as int));
                lemma_covered_widen(l@, i0 as int, ie as int, r@, j0 as int, je as int, je + 1);
                let x = choose|x: int| i0 <= x < ie && ov(r@[je as int], #[trigger] l@[x]);
                assert(reaches(l@, x, r@, j0 as int, je as int));
                lemma_bridge_new(r@, j0 as int, je as int, l@, x);
                assert(bridged(r@, je - 1, l@, i0 as int, ie as int));
                assert(linked(r@, j0 as int, je + 1, l@, i0 as int, ie as int));
                lemma_linked_widen(l@, i0 as int, ie as int, r@, j0 as int, je as int, je + 1);
            }
            je = je + 1;
            grew = true;
        }
        if !grew {
            break;
        }
    }
    proof {
        lemma_component_closed(l@, r@, i0 as int, ie as int, j0 as int, je as int);
    }
    (ie, je)
}

/// Some rail continues end `side` of stretch `k` — of the right column if `right`.
pub open spec fn has_rail(rails: Seq<Rail>, right: bool, k: int, side: Side) -> bool {
    exists|t: int|
        0 <= t < rails.len() && #[trigger] rails[t].side == side && (if right {
            rails[t].right == k
        } else {
            rails[t].left == k
        })
}

/// End `side` of stretch `k` (of the right column if `right`) is accounted for: a rail continues
/// it, or a saddle joins it to its neighbour's facing end.
pub open spec fn accounted(rails: Seq<Rail>, joins: Seq<Join>, right: bool, k: int, side: Side) -> bool {
    has_rail(rails, right, k, side) || match side {
        Side::Lo => k > 0 && joins.contains(Join::Saddle { right, k: (k - 1) as usize }),
        Side::Hi => joins.contains(Join::Saddle { right, k: k as usize }),
    }
}

/// Both ends of stretch `k` (of the right column if `right`) are accounted for.
pub open spec fn both_accounted(rails: Seq<Rail>, joins: Seq<Join>, right: bool, k: int) -> bool {
    accounted(rails, joins, right, k, Side::Lo) && accounted(rails, joins, right, k, Side::Hi)
}

proof fn lemma_accounted_grow(rails: Seq<Rail>, joins: Seq<Join>, rails2: Seq<Rail>, joins2: Seq<Join>, right: bool, k: int)
    requires
        both_accounted(rails, joins, right, k),
        rails2.len() >= rails.len(),
        forall|t: int| 0 <= t < rails.len() ==> rails2[t] == rails[t],
        forall|x: Join| #[trigger] joins.contains(x) ==> joins2.contains(x),
    ensures
        both_accounted(rails2, joins2, right, k),
{
    if has_rail(rails, right, k, Side::Lo) {
        let t = choose|t: int|
            0 <= t < rails.len() && #[trigger] rails[t].side == Side::Lo && (if right {
                rails[t].right == k
            } else {
                rails[t].left == k
            });
        assert(rails2[t] == rails[t]);
        assert(has_rail(rails2, right, k, Side::Lo));
    }
    if has_rail(rails, right, k, Side::Hi) {
        let t = choose|t: int|
            0 <= t < rails.len() && #[trigger] rails[t].side == Side::Hi && (if right {
                rails[t].right == k
            } else {
                rails[t].left == k
            });
        assert(rails2[t] == rails[t]);
        assert(has_rail(rails2, right, k, Side::Hi));
    }
}

/// Push the saddles `from..to − 1` of one column.
fn push_saddles(
    joins: &mut Vec<Join>,
    right: bool,
    from: usize,
    to: usize,
    Ghost(l): Ghost<Seq<(u64, u64)>>,
    Ghost(r): Ghost<Seq<(u64, u64)>>,
)
    requires
        from < to,
        forall|k: int| from <= k < to - 1 ==> #[trigger] saddle_ok(l, r, right, k),
        forall|t: int| 0 <= t < old(joins)@.len() ==> sound_join(l, r, #[trigger] old(joins)@[t]),
    ensures
        forall|t: int| 0 <= t < final(joins)@.len() ==> sound_join(l, r, #[trigger] final(joins)@[t]),
        forall|x: Join| #[trigger] old(joins)@.contains(x) ==> final(joins)@.contains(x),
        forall|k: int| from <= k < to - 1 ==> #[trigger] final(joins)@.contains(Join::Saddle { right, k: k as usize }),
{
    let mut k = from;
    while k + 1 < to
        invariant
            from <= k < to,
            forall|t: int| from <= t < to - 1 ==> #[trigger] saddle_ok(l, r, right, t),
            forall|t: int| 0 <= t < joins@.len() ==> sound_join(l, r, #[trigger] joins@[t]),
            forall|x: Join| #[trigger] old(joins)@.contains(x) ==> joins@.contains(x),
            forall|t: int| from <= t < k ==> #[trigger] joins@.contains(Join::Saddle { right, k: t as usize }),
        decreases to - k,
    {
        proof {
            lemma_push_keeps(joins@, Join::Saddle { right, k });
            assert(saddle_ok(l, r, right, k as int));
        }
        let ghost before = joins@;
        joins.push(Join::Saddle { right, k });
        proof {
            assert forall|t: int| from <= t < k + 1 implies #[trigger] joins@.contains(
                Join::Saddle { right, k: t as usize },
            ) by {
                if t < k {
                    assert(before.contains(Join::Saddle { right, k: t as usize }));
                }
            }
        }
        k = k + 1;
    }
}

/// Match the stretches of two adjacent columns `l` and `r`.
///
/// With as many stretches on both, they are matched by µ̂ order: stretches are ordered and
/// disjoint and cannot cross, so index matching is the consistent reading. Otherwise the columns
/// straddle an event, and the stretches are grouped by **overlap**: a stretch overlapping nothing
/// across the gap is born or dies (its ends are pinched together); a group of several stretches
/// overlapping one is a merge or a split (the outer rails continue, each inner pair of ends is a
/// saddle); a group with several on both sides merged **and** split between the two samples,
/// and is refused as [`CutFitFault::ShadowEventTangled`]. The rails come in the left column's
/// order of ends, each continuing an outer end of its group.
pub fn match_columns(l: &Vec<(u64, u64)>, r: &Vec<(u64, u64)>) -> (res: Result<ColumnMatch, CutFitFault>)
    requires
        column(l@),
        column(r@),
    ensures
        l@.len() == r@.len() ==> (res matches Ok(m) && m.rails@ == index_rails(l@.len()) && m.joins@.len() == 0),
        res matches Ok(m) ==> m.rails@.len() <= 2 * l@.len(),
        // The rails come in the left column's order of ends, so no end has two.
        res matches Ok(m) ==> forall|a: int, b: int|
            0 <= a < b < m.rails@.len() ==> rail_key(#[trigger] m.rails@[a]) < rail_key(#[trigger] m.rails@[b]),
        res matches Err(f) ==> f == CutFitFault::ShadowEventTangled,
        // With unequal counts, refused exactly when some overlap component both merges and splits.
        l@.len() != r@.len() ==> (res is Err <==> exists|i0: int, ie: int, j0: int, je: int|
            tangle(l@, r@, i0, ie, j0, je)),
        l@.len() != r@.len() ==> (res matches Ok(m) ==> {
            &&& forall|k: int| 0 <= k < m.rails@.len() ==> sound_rail(l@, r@, #[trigger] m.rails@[k])
            &&& forall|k: int| 0 <= k < m.rails@.len() ==> outer_rail(l@, r@, #[trigger] m.rails@[k])
            &&& forall|k: int| 0 <= k < m.joins@.len() ==> sound_join(l@, r@, #[trigger] m.joins@[k])
            &&& forall|x: int| 0 <= x < l@.len() && #[trigger] lone(l@, x, r@) ==> m.joins@.contains(
                Join::Pinch { right: false, k: x as usize },
            )
            &&& forall|y: int| 0 <= y < r@.len() && #[trigger] lone(r@, y, l@) ==> m.joins@.contains(
                Join::Pinch { right: true, k: y as usize },
            )
            // Every outer end of an overlapping pair has its rail.
            &&& forall|t: Rail| sound_rail(l@, r@, t) && outer_rail(l@, r@, t) ==> #[trigger] m.rails@.contains(t)
            // Every end of a stretch that meets the other column is continued or joined.
            &&& forall|x: int| 0 <= x < l@.len() && !lone(l@, x, r@) ==> #[trigger] both_accounted(
                m.rails@,
                m.joins@,
                false,
                x,
            )
            &&& forall|y: int| 0 <= y < r@.len() && !lone(r@, y, l@) ==> #[trigger] both_accounted(
                m.rails@,
                m.joins@,
                true,
                y,
            )
        }),
{
    let p = l.len();
    let q = r.len();
    let mut rails: Vec<Rail> = Vec::new();
    let mut joins: Vec<Join> = Vec::new();
    if p == q {
        let mut k: usize = 0;
        while k < p
            invariant
                k <= p,
                rails@ == index_rails(k as nat),
                joins@.len() == 0,
                forall|t: int| 0 <= t < rails@.len() ==> (#[trigger] rails@[t]).left < k,
                forall|a: int, b: int|
                    0 <= a < b < rails@.len() ==> rail_key(#[trigger] rails@[a]) < rail_key(#[trigger] rails@[b]),
            decreases p - k,
        {
            rails.push(Rail { left: k, right: k, side: Side::Lo });
            rails.push(Rail { left: k, right: k, side: Side::Hi });
            k = k + 1;
        }
        proof {
            lemma_index_rails_len(p as nat);
        }
        return Ok(ColumnMatch { rails, joins });
    }
    let mut i: usize = 0;
    let mut j: usize = 0;
    while i < p || j < q
        invariant
            p == l@.len(),
            q == r@.len(),
            p != q,
            column(l@),
            column(r@),
            i <= p,
            j <= q,
            rails@.len() <= 2 * i,
            forall|x: int, y: int| 0 <= x < i && j <= y < q ==> !ov(#[trigger] l@[x], #[trigger] r@[y]),
            forall|x: int, y: int| i <= x < p && 0 <= y < j ==> !ov(#[trigger] l@[x], #[trigger] r@[y]),
            forall|k: int| 0 <= k < rails@.len() ==> sound_rail(l@, r@, #[trigger] rails@[k]),
            forall|k: int| 0 <= k < rails@.len() ==> outer_rail(l@, r@, #[trigger] rails@[k]),
            forall|k: int| 0 <= k < rails@.len() ==> (#[trigger] rails@[k]).left < i,
            forall|a: int, b: int|
                0 <= a < b < rails@.len() ==> rail_key(#[trigger] rails@[a]) < rail_key(#[trigger] rails@[b]),
            forall|k: int| 0 <= k < joins@.len() ==> sound_join(l@, r@, #[trigger] joins@[k]),
            forall|x: int| 0 <= x < i && #[trigger] lone(l@, x, r@) ==> joins@.contains(
                Join::Pinch { right: false, k: x as usize },
            ),
            forall|y: int| 0 <= y < j && #[trigger] lone(r@, y, l@) ==> joins@.contains(
                Join::Pinch { right: true, k: y as usize },
            ),
            // No component that merges and splits starts before the walk.
            forall|a0: int, ae: int, b0: int, be: int| #[trigger] tangle(l@, r@, a0, ae, b0, be) ==> i <= a0 && j
                <= b0,
            forall|x: int| 0 <= x < i && !lone(l@, x, r@) ==> #[trigger] both_accounted(rails@, joins@, false, x),
            forall|y: int| 0 <= y < j && !lone(r@, y, l@) ==> #[trigger] both_accounted(rails@, joins@, true, y),
        decreases (p - i) + (q - j),
    {
        let ghost joins0 = joins@;
        let ghost rails0 = rails@;
        if i < p && j < q && l[i].0 <= r[j].1 && r[j].0 <= l[i].1 {
            let (i0, j0) = (i, j);
            let (ie, je) = grow_component(l, r, i0, j0);
            let pc = ie - i0;
            let qc = je - j0;
            proof {
                assert(closed_group(l@, r@, i0 as int, ie as int, j0 as int, je as int));
                assert forall|a0: int, ae: int, b0: int, be: int| #[trigger] tangle(l@, r@, a0, ae, b0, be)
                    && (pc == 1 || qc == 1) implies ie <= a0 && je <= b0 by {
                    if a0 < ie || b0 < je {
                        lemma_tangle_within(l@, r@, i0 as int, ie as int, j0 as int, je as int, a0, ae, b0, be);
                    }
                }
            }
            if pc == 1 && qc == 1 {
                rails.push(Rail { left: i0, right: j0, side: Side::Lo });
                rails.push(Rail { left: i0, right: j0, side: Side::Hi });
                proof {
                    let n0 = rails0.len() as int;
                    assert(rails@[n0].side == Side::Lo && rails@[n0 + 1].side == Side::Hi);
                    assert(both_accounted(rails@, joins@, false, i0 as int));
                    assert(both_accounted(rails@, joins@, true, j0 as int));
                }
            } else if qc == 1 {
                // A merge: the group's outer rails continue, each inner pair of ends is a saddle.
                proof {
                    assert(reaches(l@, ie - 1, r@, j0 as int, je as int));
                    assert forall|k: int| i0 <= k < ie - 1 implies #[trigger] saddle_ok(l@, r@, false, k) by {
                        assert(reaches(l@, k, r@, j0 as int, je as int));
                        assert(reaches(l@, k + 1, r@, j0 as int, je as int));
                        assert(ov(l@[k], r@[j0 as int]) && ov(l@[k + 1], r@[j0 as int]));
                    }
                }
                rails.push(Rail { left: i0, right: j0, side: Side::Lo });
                rails.push(Rail { left: ie - 1, right: j0, side: Side::Hi });
                push_saddles(&mut joins, false, i0, ie, Ghost(l@), Ghost(r@));
                proof {
                    let n0 = rails0.len() as int;
                    assert(rails@[n0].side == Side::Lo && rails@[n0 + 1].side == Side::Hi);
                    assert forall|x: int| i0 <= x < ie implies #[trigger] both_accounted(rails@, joins@, false, x) by {
                        if x > i0 {
                            assert(joins@.contains(Join::Saddle { right: false, k: (x - 1) as usize }));
                        }
                        if x < ie - 1 {
                            assert(joins@.contains(Join::Saddle { right: false, k: x as usize }));
                        }
                    }
                    assert(both_accounted(rails@, joins@, true, j0 as int));
                }
            } else if pc == 1 {
                // A split: the mirror image, with the saddles on the right column.
                proof {
                    assert(reaches(r@, je - 1, l@, i0 as int, ie as int));
                    assert forall|k: int| j0 <= k < je - 1 implies #[trigger] saddle_ok(l@, r@, true, k) by {
                        assert(reaches(r@, k, l@, i0 as int, ie as int));
                        assert(reaches(r@, k + 1, l@, i0 as int, ie as int));
                        assert(ov(l@[i0 as int], r@[k]) && ov(l@[i0 as int], r@[k + 1]));
                    }
                }
                rails.push(Rail { left: i0, right: j0, side: Side::Lo });
                rails.push(Rail { left: i0, right: je - 1, side: Side::Hi });
                push_saddles(&mut joins, true, j0, je, Ghost(l@), Ghost(r@));
                proof {
                    let n0 = rails0.len() as int;
                    assert(rails@[n0].side == Side::Lo && rails@[n0 + 1].side == Side::Hi);
                    assert forall|y: int| j0 <= y < je implies #[trigger] both_accounted(rails@, joins@, true, y) by {
                        if y > j0 {
                            assert(joins@.contains(Join::Saddle { right: true, k: (y - 1) as usize }));
                        }
                        if y < je - 1 {
                            assert(joins@.contains(Join::Saddle { right: true, k: y as usize }));
                        }
                    }
                    assert(both_accounted(rails@, joins@, false, i0 as int));
                }
            } else {
                proof {
                    assert(tangle(l@, r@, i0 as int, ie as int, j0 as int, je as int));
                }
                return Err(CutFitFault::ShadowEventTangled);
            }
            proof {
                assert forall|x: int| 0 <= x < ie && #[trigger] lone(l@, x, r@) implies joins@.contains(
                    Join::Pinch { right: false, k: x as usize },
                ) by {
                    if x >= i0 {
                        assert(reaches(l@, x, r@, j0 as int, je as int));
                        let y = choose|y: int| j0 <= y < je && ov(l@[x], #[trigger] r@[y]);
                        assert(!ov(l@[x], r@[y]));
                    } else {
                        assert(joins0.contains(Join::Pinch { right: false, k: x as usize }));
                    }
                }
                assert forall|y: int| 0 <= y < je && #[trigger] lone(r@, y, l@) implies joins@.contains(
                    Join::Pinch { right: true, k: y as usize },
                ) by {
                    if y >= j0 {
                        assert(reaches(r@, y, l@, i0 as int, ie as int));
                        let x = choose|x: int| i0 <= x < ie && ov(r@[y], #[trigger] l@[x]);
                        assert(!ov(r@[y], l@[x]));
                    } else {
                        assert(joins0.contains(Join::Pinch { right: true, k: y as usize }));
                    }
                }
            }
            proof {
                assert forall|x: int| 0 <= x < i0 && !lone(l@, x, r@) implies #[trigger] both_accounted(
                    rails@,
                    joins@,
                    false,
                    x,
                ) by {
                    lemma_accounted_grow(rails0, joins0, rails@, joins@, false, x);
                }
                assert forall|y: int| 0 <= y < j0 && !lone(r@, y, l@) implies #[trigger] both_accounted(
                    rails@,
                    joins@,
                    true,
                    y,
                ) by {
                    lemma_accounted_grow(rails0, joins0, rails@, joins@, true, y);
                }
            }
            i = ie;
            j = je;
        } else if i < p && (j >= q || l[i].1 < r[j].0) {
            // A death: the stretch's two ends close on one vertex.
            proof {
                reveal(column);
                assert forall|y: int| 0 <= y < q implies !ov(l@[i as int], #[trigger] r@[y]) by {
                    if y > j {
                        assert(r@[j as int].1 < r@[y].0);
                        assert(r@[j as int].0 <= r@[j as int].1);
                    }
                }
                assert(lone(l@, i as int, r@));
                lemma_push_keeps(joins@, Join::Pinch { right: false, k: i });
                assert forall|a0: int, ae: int, b0: int, be: int| #[trigger] tangle(l@, r@, a0, ae, b0, be)
                    implies i + 1 <= a0 && j <= b0 by {
                    if a0 == i {
                        assert(reaches(l@, a0, r@, b0, be));
                        let y = choose|y: int| b0 <= y < be && ov(l@[a0], #[trigger] r@[y]);
                        assert(!ov(l@[i as int], r@[y]));
                    }
                }
            }
            joins.push(Join::Pinch { right: false, k: i });
            proof {
                assert forall|x: int| 0 <= x < i + 1 && !lone(l@, x, r@) implies #[trigger] both_accounted(
                    rails@,
                    joins@,
                    false,
                    x,
                ) by {
                    lemma_accounted_grow(rails0, joins0, rails@, joins@, false, x);
                }
                assert forall|y: int| 0 <= y < j && !lone(r@, y, l@) implies #[trigger] both_accounted(
                    rails@,
                    joins@,
                    true,
                    y,
                ) by {
                    lemma_accounted_grow(rails0, joins0, rails@, joins@, true, y);
                }
            }
            i = i + 1;
        } else {
            // A birth: the same, on the right column.
            proof {
                reveal(column);
                assert forall|x: int| 0 <= x < p implies !ov(#[trigger] l@[x], r@[j as int]) by {
                    if x > i {
                        assert(l@[i as int].1 < l@[x].0);
                        assert(l@[i as int].0 <= l@[i as int].1);
                    }
                }
                assert(lone(r@, j as int, l@));
                lemma_push_keeps(joins@, Join::Pinch { right: true, k: j });
                assert forall|a0: int, ae: int, b0: int, be: int| #[trigger] tangle(l@, r@, a0, ae, b0, be)
                    implies i <= a0 && j + 1 <= b0 by {
                    if b0 == j {
                        assert(reaches(r@, b0, l@, a0, ae));
                        let x = choose|x: int| a0 <= x < ae && ov(r@[b0], #[trigger] l@[x]);
                        assert(!ov(l@[x], r@[j as int]));
                    }
                }
            }
            joins.push(Join::Pinch { right: true, k: j });
            proof {
                assert forall|x: int| 0 <= x < i && !lone(l@, x, r@) implies #[trigger] both_accounted(
                    rails@,
                    joins@,
                    false,
                    x,
                ) by {
                    lemma_accounted_grow(rails0, joins0, rails@, joins@, false, x);
                }
                assert forall|y: int| 0 <= y < j + 1 && !lone(r@, y, l@) implies #[trigger] both_accounted(
                    rails@,
                    joins@,
                    true,
                    y,
                ) by {
                    lemma_accounted_grow(rails0, joins0, rails@, joins@, true, y);
                }
            }
            j = j + 1;
        }
    }
    proof {
        assert forall|t: Rail| sound_rail(l@, r@, t) && outer_rail(l@, r@, t) implies #[trigger] rails@.contains(t) by {
            lemma_outer_rail_present(l@, r@, rails@, joins@, t);
        }
    }
    Ok(ColumnMatch { rails, joins })
}

/// The number of stretches in the first `k` columns.
pub open spec fn total(cols: Seq<Vec<(u64, u64)>>, k: nat) -> nat
    decreases k,
{
    if k == 0 {
        0
    } else {
        total(cols, (k - 1) as nat) + cols[k - 1]@.len()
    }
}

proof fn lemma_total_mono(cols: Seq<Vec<(u64, u64)>>, a: nat, b: nat)
    requires
        a <= b <= cols.len(),
    ensures
        total(cols, a) <= total(cols, b),
    decreases b,
{
    if a < b {
        lemma_total_mono(cols, a, (b - 1) as nat);
    }
}

proof fn lemma_index_rails(n: nat, t: int)
    requires
        0 <= t < index_rails(n).len(),
    ensures
        index_rails(n).len() == 2 * n,
        index_rails(n)[t].left < n,
        index_rails(n)[t].right == index_rails(n)[t].left,
    decreases n,
{
    if n > 0 {
        lemma_index_rails_len((n - 1) as nat);
        if t < index_rails((n - 1) as nat).len() {
            lemma_index_rails((n - 1) as nat, t);
        }
    }
}

/// Both ends of stretch `k` have their index rail.
proof fn lemma_index_rails_at(n: nat, k: int)
    requires
        0 <= k < n,
    ensures
        index_rails(n).len() == 2 * n,
        index_rails(n)[2 * k] == (Rail { left: k as usize, right: k as usize, side: Side::Lo }),
        index_rails(n)[2 * k + 1] == (Rail { left: k as usize, right: k as usize, side: Side::Hi }),
    decreases n,
{
    lemma_index_rails_len(n);
    lemma_index_rails_len((n - 1) as nat);
    if k < n - 1 {
        lemma_index_rails_at((n - 1) as nat, k);
    }
}

proof fn lemma_index_rails_len(n: nat)
    ensures
        index_rails(n).len() == 2 * n,
    decreases n,
{
    if n > 0 {
        lemma_index_rails_len((n - 1) as nat);
    }
}

/// The footprint tracer's boundary graph over all its columns: every stretch end is a vertex
/// (`2·k` and `2·k + 1` for the lower and upper end of the `k`-th stretch, counting through the
/// columns in order), the rails are its edges, and the joins have been made through the
/// union-find `parent`.
pub struct Traced {
    /// The union-find over the boundary ends, after every join.
    pub parent: Vec<usize>,
    /// The rails, as pairs of boundary ends.
    pub edges: Vec<(usize, usize)>,
    /// Each join that merged two trees, as `(kept root, absorbed root)`, in order.
    pub merges: Vec<(usize, usize)>,
}

/// Boundary end `side` of stretch `k` of the column whose first stretch is stretch `base`.
fn end_id(base: usize, k: usize, side: Side) -> (id: usize)
    requires
        base + 2 * k + 1 < usize::MAX,
    ensures
        id == base + 2 * k + if side == Side::Hi { 1int } else { 0int },
{
    base + 2 * k + if side == Side::Hi { 1 } else { 0 }
}

/// The boundary vertex of end `side` of stretch `k` of column `c`, counting the stretch ends
/// through the columns in order.
pub open spec fn vid(cols: Seq<Vec<(u64, u64)>>, c: int, k: int, side: Side) -> int {
    2 * total(cols, c as nat) + 2 * k + if side == Side::Hi {
        1int
    } else {
        0int
    }
}

/// `(a, b)` is a rail from column `c` to column `c + 1`: end `side` of a stretch of `c` continues
/// as the same end of a stretch of `c + 1` — the stretch of the same rank when the counts agree,
/// an overlapping one otherwise.
pub open spec fn rail_between(cols: Seq<Vec<(u64, u64)>>, c: int, a: int, b: int) -> bool {
    exists|k1: int, k2: int, side: Side|
        0 <= k1 < cols[c]@.len() && 0 <= k2 < cols[c + 1]@.len() && a == #[trigger] vid(cols, c, k1, side) && b
            == #[trigger] vid(cols, c + 1, k2, side) && (if cols[c]@.len() == cols[c + 1]@.len() {
            k1 == k2
        } else {
            ov(cols[c]@[k1], cols[c + 1]@[k2])
        })
}

/// Ends `(k1, side)` of column `c` and `(k2, side)` of column `c + 1` are joined by a rail of the
/// matching: the same-rank stretch when the counts agree, an outer end of an overlapping pair
/// otherwise.
pub open spec fn traced_pair(cols: Seq<Vec<(u64, u64)>>, c: int, k1: int, k2: int, side: Side) -> bool {
    if cols[c]@.len() == cols[c + 1]@.len() {
        k1 == k2
    } else {
        sound_rail(cols[c]@, cols[c + 1]@, Rail { left: k1 as usize, right: k2 as usize, side })
            && outer_rail(cols[c]@, cols[c + 1]@, Rail { left: k1 as usize, right: k2 as usize, side })
    }
}

/// `(a, b)` is a rail of the matching between columns `c` and `c + 1`.
pub open spec fn outer_between(cols: Seq<Vec<(u64, u64)>>, c: int, a: int, b: int) -> bool {
    exists|k1: int, k2: int, side: Side|
        0 <= k1 < cols[c]@.len() && 0 <= k2 < cols[c + 1]@.len() && a == #[trigger] vid(cols, c, k1, side) && b
            == #[trigger] vid(cols, c + 1, k2, side) && traced_pair(cols, c, k1, k2, side)
}

/// `e` is a rail of the matching between some two adjacent columns.
pub open spec fn matched_rail(cols: Seq<Vec<(u64, u64)>>, e: (usize, usize)) -> bool {
    exists|c: int| 0 <= c < cols.len() - 1 && #[trigger] outer_between(cols, c, e.0 as int, e.1 as int)
}

/// Some edge runs from `a` to `b`.
pub open spec fn has_edge(edges: Seq<(usize, usize)>, a: int, b: int) -> bool {
    exists|e: int| 0 <= e < edges.len() && (#[trigger] edges[e]).0 as int == a && edges[e].1 as int == b
}

/// `e` is a rail between some two adjacent columns.
pub open spec fn rail_of(cols: Seq<Vec<(u64, u64)>>, e: (usize, usize)) -> bool {
    exists|c: int| 0 <= c < cols.len() - 1 && #[trigger] rail_between(cols, c, e.0 as int, e.1 as int)
}

/// The two boundary ends a join between columns `c` and `c + 1` identifies.
pub open spec fn join_ends(cols: Seq<Vec<(u64, u64)>>, c: int, j: Join) -> (int, int) {
    match j {
        Join::Pinch { right, k } => {
            let cc = if right { c + 1 } else { c };
            (vid(cols, cc, k as int, Side::Lo), vid(cols, cc, k as int, Side::Hi))
        },
        Join::Saddle { right, k } => {
            let cc = if right { c + 1 } else { c };
            (vid(cols, cc, k as int, Side::Hi), vid(cols, cc, k + 1, Side::Lo))
        },
    }
}

/// Two boundary ends are identified: they share a root.
pub open spec fn same_root(p: Seq<usize>, x: int, y: int) -> bool {
    root(p, x) == root(p, y)
}

/// The class of `x` after the first `k` merges, each `(kept, absorbed)` sending the absorbed
/// root's class to the kept root.
pub open spec fn relabel(merges: Seq<(usize, usize)>, k: nat, x: int) -> int
    decreases k,
{
    if k == 0 {
        x
    } else {
        let l = relabel(merges, (k - 1) as nat, x);
        if l == merges[k - 1].1 as int {
            merges[k - 1].0 as int
        } else {
            l
        }
    }
}

/// `(a, b)` are the two ends a sound join identifies, between some two adjacent columns whose
/// stretch counts differ.
pub open spec fn join_of(cols: Seq<Vec<(u64, u64)>>, a: int, b: int) -> bool {
    exists|c: int, j: Join|
        0 <= c < cols.len() - 1 && cols[c]@.len() != cols[c + 1]@.len() && sound_join(cols[c]@, cols[c + 1]@, j)
            && #[trigger] join_ends(cols, c, j) == (a, b)
}

/// Merge `g` united the classes, as they stood before it, of the two ends of a sound join.
pub open spec fn merge_justified(cols: Seq<Vec<(u64, u64)>>, merges: Seq<(usize, usize)>, g: int) -> bool {
    exists|a: int, b: int|
        #[trigger] join_of(cols, a, b) && merges[g].0 as int == relabel(merges, g as nat, a) && merges[g].1 as int
            == relabel(merges, g as nat, b)
}

/// Later merges do not change the classes after the first `k`.
proof fn lemma_relabel_push(merges: Seq<(usize, usize)>, m: (usize, usize), k: nat, x: int)
    requires
        k <= merges.len(),
    ensures
        relabel(merges.push(m), k, x) == relabel(merges, k, x),
    decreases k,
{
    if k > 0 {
        lemma_relabel_push(merges, m, (k - 1) as nat, x);
        assert(merges.push(m)[k - 1] == merges[k - 1]);
    }
}

/// End `side` of stretch `k` of column `c` is carried on to column `c + 1` by a rail, or joined to
/// its neighbour's facing end by a saddle.
pub open spec fn left_done(
    cols: Seq<Vec<(u64, u64)>>,
    edges: Seq<(usize, usize)>,
    p: Seq<usize>,
    c: int,
    k: int,
    side: Side,
) -> bool {
    (exists|e: int| #![trigger edges[e]] 0 <= e < edges.len() && edges[e].0 as int == vid(cols, c, k, side)) || match side {
        Side::Lo => k > 0 && same_root(p, vid(cols, c, k - 1, Side::Hi), vid(cols, c, k, Side::Lo)),
        Side::Hi => k + 1 < cols[c]@.len() && same_root(p, vid(cols, c, k, Side::Hi), vid(cols, c, k + 1, Side::Lo)),
    }
}

/// End `side` of stretch `k` of column `c + 1` is reached by a rail from column `c`, or joined to
/// its neighbour's facing end by a saddle.
pub open spec fn right_done(
    cols: Seq<Vec<(u64, u64)>>,
    edges: Seq<(usize, usize)>,
    p: Seq<usize>,
    c: int,
    k: int,
    side: Side,
) -> bool {
    (exists|e: int| #![trigger edges[e]] 0 <= e < edges.len() && edges[e].1 as int == vid(cols, c + 1, k, side)) || match side {
        Side::Lo => k > 0 && same_root(p, vid(cols, c + 1, k - 1, Side::Hi), vid(cols, c + 1, k, Side::Lo)),
        Side::Hi => k + 1 < cols[c + 1]@.len() && same_root(
            p,
            vid(cols, c + 1, k, Side::Hi),
            vid(cols, c + 1, k + 1, Side::Lo),
        ),
    }
}

/// Between columns `c` and `c + 1` every boundary end is traced: a stretch meeting nothing across
/// the gap (when the counts differ) has its two ends identified; every other end is carried by a
/// rail or joined by a saddle.
pub open spec fn pair_traced(cols: Seq<Vec<(u64, u64)>>, edges: Seq<(usize, usize)>, p: Seq<usize>, c: int) -> bool {
    let (l, r) = (cols[c]@, cols[c + 1]@);
    &&& forall|k: int| 0 <= k < l.len() ==> #[trigger] left_traced(cols, edges, p, c, k)
    &&& forall|k: int| 0 <= k < r.len() ==> #[trigger] right_traced(cols, edges, p, c, k)
}

/// Stretch `k` of column `c` is traced towards column `c + 1`.
pub open spec fn left_traced(cols: Seq<Vec<(u64, u64)>>, edges: Seq<(usize, usize)>, p: Seq<usize>, c: int, k: int) -> bool {
    let (l, r) = (cols[c]@, cols[c + 1]@);
    if l.len() != r.len() && lone(l, k, r) {
        same_root(p, vid(cols, c, k, Side::Lo), vid(cols, c, k, Side::Hi))
    } else {
        left_done(cols, edges, p, c, k, Side::Lo) && left_done(cols, edges, p, c, k, Side::Hi)
    }
}

/// Stretch `k` of column `c + 1` is traced back towards column `c`.
pub open spec fn right_traced(cols: Seq<Vec<(u64, u64)>>, edges: Seq<(usize, usize)>, p: Seq<usize>, c: int, k: int) -> bool {
    let (l, r) = (cols[c]@, cols[c + 1]@);
    if l.len() != r.len() && lone(r, k, l) {
        same_root(p, vid(cols, c + 1, k, Side::Lo), vid(cols, c + 1, k, Side::Hi))
    } else {
        right_done(cols, edges, p, c, k, Side::Lo) && right_done(cols, edges, p, c, k, Side::Hi)
    }
}

/// Boundary ends identified stay identified as the tracer goes on: its graph only gains rails,
/// and its union-find only merges.
pub(crate) proof fn lemma_traced_kept(
    cols: Seq<Vec<(u64, u64)>>,
    edges: Seq<(usize, usize)>,
    p: Seq<usize>,
    edges2: Seq<(usize, usize)>,
    p2: Seq<usize>,
    c: int,
)
    requires
        0 <= c < cols.len() - 1,
        pair_traced(cols, edges, p, c),
        edges.len() <= edges2.len(),
        forall|e: int| 0 <= e < edges.len() ==> edges2[e] == edges[e],
        forall|x: int, y: int|
            0 <= x < 2 * total(cols, cols.len() as nat) && 0 <= y < 2 * total(cols, cols.len() as nat) && same_root(
                p,
                x,
                y,
            ) ==> same_root(p2, x, y),
    ensures
        pair_traced(cols, edges2, p2, c),
{
    let (l, r) = (cols[c]@, cols[c + 1]@);
    lemma_total_mono(cols, (c + 2) as nat, cols.len() as nat);
    assert(total(cols, (c + 1) as nat) == total(cols, c as nat) + l.len());
    assert(total(cols, (c + 2) as nat) == total(cols, (c + 1) as nat) + r.len());
    assert forall|k: int| 0 <= k < l.len() implies #[trigger] left_traced(cols, edges2, p2, c, k) by {
        assert(left_traced(cols, edges, p, c, k));
        if !(l.len() != r.len() && lone(l, k, r)) {
            if exists|e: int| #![trigger edges[e]] 0 <= e < edges.len() && edges[e].0 as int == vid(cols, c, k, Side::Lo) {
                let e = choose|e: int| #![trigger edges[e]] 0 <= e < edges.len() && edges[e].0 as int == vid(cols, c, k, Side::Lo);
                assert(edges2[e] == edges[e]);
            }
            if exists|e: int| #![trigger edges[e]] 0 <= e < edges.len() && edges[e].0 as int == vid(cols, c, k, Side::Hi) {
                let e = choose|e: int| #![trigger edges[e]] 0 <= e < edges.len() && edges[e].0 as int == vid(cols, c, k, Side::Hi);
                assert(edges2[e] == edges[e]);
            }
        }
    }
    assert forall|k: int| 0 <= k < r.len() implies #[trigger] right_traced(cols, edges2, p2, c, k) by {
        assert(right_traced(cols, edges, p, c, k));
        if !(l.len() != r.len() && lone(r, k, l)) {
            if exists|e: int| #![trigger edges[e]] 0 <= e < edges.len() && edges[e].1 as int == vid(cols, c + 1, k, Side::Lo) {
                let e = choose|e: int| #![trigger edges[e]] 0 <= e < edges.len() && edges[e].1 as int == vid(cols, c + 1, k, Side::Lo);
                assert(edges2[e] == edges[e]);
            }
            if exists|e: int| #![trigger edges[e]] 0 <= e < edges.len() && edges[e].1 as int == vid(cols, c + 1, k, Side::Hi) {
                let e = choose|e: int| #![trigger edges[e]] 0 <= e < edges.len() && edges[e].1 as int == vid(cols, c + 1, k, Side::Hi);
                assert(edges2[e] == edges[e]);
            }
        }
    }
}

/// After one pair of columns is matched — its rails pushed as edges from `e_start` on, its joins
/// made — every boundary end between the two columns is traced.
proof fn lemma_pair_traced_now(
    cols: Seq<Vec<(u64, u64)>>,
    c: int,
    rails: Seq<Rail>,
    joins: Seq<Join>,
    edges: Seq<(usize, usize)>,
    e_start: int,
    p: Seq<usize>,
)
    requires
        0 <= c < cols.len() - 1,
        cols[c]@.len() < usize::MAX,
        cols[c + 1]@.len() < usize::MAX,
        cols[c]@.len() == cols[c + 1]@.len() ==> rails == index_rails(cols[c]@.len()) && joins.len() == 0,
        cols[c]@.len() != cols[c + 1]@.len() ==> {
            let (l, r) = (cols[c]@, cols[c + 1]@);
            &&& forall|k: int| 0 <= k < joins.len() ==> sound_join(l, r, #[trigger] joins[k])
            &&& forall|x: int| 0 <= x < l.len() && #[trigger] lone(l, x, r) ==> joins.contains(
                Join::Pinch { right: false, k: x as usize },
            )
            &&& forall|y: int| 0 <= y < r.len() && #[trigger] lone(r, y, l) ==> joins.contains(
                Join::Pinch { right: true, k: y as usize },
            )
            &&& forall|x: int| 0 <= x < l.len() && !lone(l, x, r) ==> #[trigger] both_accounted(rails, joins, false, x)
            &&& forall|y: int| 0 <= y < r.len() && !lone(r, y, l) ==> #[trigger] both_accounted(rails, joins, true, y)
        },
        0 <= e_start,
        e_start + rails.len() <= edges.len(),
        forall|u: int| 0 <= u < rails.len() ==> (#[trigger] edges[e_start + u]).0 as int == vid(
            cols,
            c,
            rails[u].left as int,
            rails[u].side,
        ) && edges[e_start + u].1 as int == vid(cols, c + 1, rails[u].right as int, rails[u].side),
        forall|u: int| 0 <= u < joins.len() ==> same_root(
            p,
            join_ends(cols, c, #[trigger] joins[u]).0,
            join_ends(cols, c, joins[u]).1,
        ),
    ensures
        pair_traced(cols, edges, p, c),
{
    let (l, r) = (cols[c]@, cols[c + 1]@);
    assert forall|k: int| 0 <= k < l.len() implies #[trigger] left_traced(cols, edges, p, c, k) by {
        if l.len() == r.len() {
            lemma_index_rails_at(l.len(), k);
            assert(edges[e_start + 2 * k].0 as int == vid(cols, c, k, Side::Lo));
            assert(edges[e_start + (2 * k + 1)].0 as int == vid(cols, c, k, Side::Hi));
            assert(left_done(cols, edges, p, c, k, Side::Lo));
            assert(left_done(cols, edges, p, c, k, Side::Hi));
        } else if lone(l, k, r) {
            assert(joins.contains(Join::Pinch { right: false, k: k as usize }));
            let u = choose|u: int| 0 <= u < joins.len() && joins[u] == Join::Pinch { right: false, k: k as usize };
            assert(same_root(p, join_ends(cols, c, joins[u]).0, join_ends(cols, c, joins[u]).1));
        } else {
            assert(both_accounted(rails, joins, false, k));
            if has_rail(rails, false, k, Side::Lo) {
                let u = choose|u: int| 0 <= u < rails.len() && #[trigger] rails[u].side == Side::Lo && rails[u].left == k;
                assert(edges[e_start + u].0 as int == vid(cols, c, k, Side::Lo));
            } else {
                let x = Join::Saddle { right: false, k: (k - 1) as usize };
                assert(joins.contains(x));
                let u = choose|u: int| 0 <= u < joins.len() && joins[u] == x;
                assert(same_root(p, join_ends(cols, c, joins[u]).0, join_ends(cols, c, joins[u]).1));
            }
            if has_rail(rails, false, k, Side::Hi) {
                let u = choose|u: int| 0 <= u < rails.len() && #[trigger] rails[u].side == Side::Hi && rails[u].left == k;
                assert(edges[e_start + u].0 as int == vid(cols, c, k, Side::Hi));
            } else {
                let x = Join::Saddle { right: false, k: k as usize };
                assert(joins.contains(x));
                let u = choose|u: int| 0 <= u < joins.len() && joins[u] == x;
                assert(sound_join(l, r, joins[u]));
                assert(same_root(p, join_ends(cols, c, joins[u]).0, join_ends(cols, c, joins[u]).1));
            }
        }
    }
    assert forall|k: int| 0 <= k < r.len() implies #[trigger] right_traced(cols, edges, p, c, k) by {
        if l.len() == r.len() {
            lemma_index_rails_at(l.len(), k);
            assert(edges[e_start + 2 * k].1 as int == vid(cols, c + 1, k, Side::Lo));
            assert(edges[e_start + (2 * k + 1)].1 as int == vid(cols, c + 1, k, Side::Hi));
            assert(right_done(cols, edges, p, c, k, Side::Lo));
            assert(right_done(cols, edges, p, c, k, Side::Hi));
        } else if lone(r, k, l) {
            assert(joins.contains(Join::Pinch { right: true, k: k as usize }));
            let u = choose|u: int| 0 <= u < joins.len() && joins[u] == Join::Pinch { right: true, k: k as usize };
            assert(same_root(p, join_ends(cols, c, joins[u]).0, join_ends(cols, c, joins[u]).1));
        } else {
            assert(both_accounted(rails, joins, true, k));
            if has_rail(rails, true, k, Side::Lo) {
                let u = choose|u: int| 0 <= u < rails.len() && #[trigger] rails[u].side == Side::Lo && rails[u].right == k;
                assert(edges[e_start + u].1 as int == vid(cols, c + 1, k, Side::Lo));
            } else {
                let x = Join::Saddle { right: true, k: (k - 1) as usize };
                assert(joins.contains(x));
                let u = choose|u: int| 0 <= u < joins.len() && joins[u] == x;
                assert(same_root(p, join_ends(cols, c, joins[u]).0, join_ends(cols, c, joins[u]).1));
            }
            if has_rail(rails, true, k, Side::Hi) {
                let u = choose|u: int| 0 <= u < rails.len() && #[trigger] rails[u].side == Side::Hi && rails[u].right == k;
                assert(edges[e_start + u].1 as int == vid(cols, c + 1, k, Side::Hi));
            } else {
                let x = Join::Saddle { right: true, k: k as usize };
                assert(joins.contains(x));
                let u = choose|u: int| 0 <= u < joins.len() && joins[u] == x;
                assert(sound_join(l, r, joins[u]));
                assert(same_root(p, join_ends(cols, c, joins[u]).0, join_ends(cols, c, joins[u]).1));
            }
        }
    }
}

/// Adjacent columns `l` and `r` match: as many stretches on both, or no overlap component that
/// both merges and splits.
pub open spec fn untangled(l: Seq<(u64, u64)>, r: Seq<(u64, u64)>) -> bool {
    l.len() == r.len() || !exists|i0: int, ie: int, j0: int, je: int| tangle(l, r, i0, ie, j0, je)
}

/// Match every pair of adjacent columns and build the boundary graph: rails become edges, joins
/// are made through the union-find, and each join that merged two trees is reported so that the
/// positions of the merged vertices can be updated in the same order. The edges are then exactly
/// the matching's rails between adjacent columns, each once and in order of their first ends, and
/// between every two adjacent columns every boundary end is traced —
/// carried on by a rail, joined to its neighbour by a saddle, or pinched with its partner; and two
/// ends share a root only through the reported merges, each of which united the classes of the two
/// ends of a sound join. Refused with [`CutFitFault::ShadowEventTangled`] exactly when some pair
/// of columns tangles.
pub fn trace_columns(cols: &Vec<Vec<(u64, u64)>>) -> (res: Result<Traced, CutFitFault>)
    requires
        forall|c: int| 0 <= c < cols@.len() ==> column(#[trigger] cols@[c]@),
        total(cols@, cols@.len() as nat) < usize::MAX / 8,
    ensures
        res matches Err(f) ==> f == CutFitFault::ShadowEventTangled,
        res is Err <==> exists|c: int| 0 <= c < cols@.len() - 1 && !#[trigger] untangled(cols@[c]@, cols@[c + 1]@),
        res matches Ok(t) ==> {
            &&& t.parent@.len() == 2 * total(cols@, cols@.len() as nat)
            &&& is_forest(t.parent@)
            &&& t.edges@.len() < usize::MAX / 2
            &&& forall|e: int| 0 <= e < t.edges@.len() ==> (#[trigger] t.edges@[e]).0 < t.parent@.len()
                && t.edges@[e].1 < t.parent@.len()
            &&& forall|g: int| 0 <= g < t.merges@.len() ==> (#[trigger] t.merges@[g]).0 < t.parent@.len()
                && t.merges@[g].1 < t.parent@.len() && t.merges@[g].0 != t.merges@[g].1
            // Every edge is a rail between adjacent columns ...
            &&& forall|e: int| 0 <= e < t.edges@.len() ==> rail_of(cols@, #[trigger] t.edges@[e])
            // ... the edges are exactly the matching's rails, each once, in order of their first ends ...
            &&& forall|e: int| 0 <= e < t.edges@.len() ==> matched_rail(cols@, #[trigger] t.edges@[e])
            &&& forall|e1: int, e2: int| 0 <= e1 < e2 < t.edges@.len() ==> (#[trigger] t.edges@[e1]).0 < (
            #[trigger] t.edges@[e2]).0
            &&& forall|c: int, k1: int, k2: int, side: Side|
                0 <= c < cols@.len() - 1 && 0 <= k1 < cols@[c]@.len() && 0 <= k2 < cols@[c + 1]@.len()
                    && #[trigger] traced_pair(cols@, c, k1, k2, side) ==> has_edge(
                    t.edges@,
                    vid(cols@, c, k1, side),
                    vid(cols@, c + 1, k2, side),
                )
            // ... and between every two adjacent columns every boundary end is traced.
            &&& forall|c: int| 0 <= c < cols@.len() - 1 ==> #[trigger] pair_traced(cols@, t.edges@, t.parent@, c)
            // The identification is exactly the one the merges build, and each merge unites the
            // classes of the two ends of a sound join: no two ends are identified otherwise.
            &&& forall|x: int| 0 <= x < t.parent@.len() ==> #[trigger] root(t.parent@, x) == relabel(
                t.merges@,
                t.merges@.len(),
                x,
            )
            &&& forall|g: int| 0 <= g < t.merges@.len() ==> #[trigger] merge_justified(cols@, t.merges@, g)
        },
{
    let nc = cols.len();
    let ghost all = total(cols@, nc as nat);
    let mut count: usize = 0;
    let mut c: usize = 0;
    while c < nc
        invariant
            c <= nc,
            nc == cols@.len(),
            count == total(cols@, c as nat),
            all == total(cols@, nc as nat),
            all < usize::MAX / 8,
        decreases nc - c,
    {
        proof {
            lemma_total_mono(cols@, (c + 1) as nat, nc as nat);
        }
        count = count + cols[c].len();
        c = c + 1;
    }
    let n = 2 * count;
    let mut parent: Vec<usize> = Vec::new();
    let mut v: usize = 0;
    while v < n
        invariant
            v <= n,
            parent@.len() == v,
            forall|i: int| 0 <= i < v ==> #[trigger] parent@[i] == i,
        decreases n - v,
    {
        parent.push(v);
        v = v + 1;
    }
    proof {
        let rank = Seq::new(n as nat, |i: int| 0nat);
        assert(ranked(parent@, rank));
        assert forall|x: int| 0 <= x < n implies #[trigger] root(parent@, x) == x by {
            lemma_root_of_root(parent@, x);
        }
    }
    let mut edges: Vec<(usize, usize)> = Vec::new();
    let mut merges: Vec<(usize, usize)> = Vec::new();
    assert(forall|x: int| 0 <= x < n ==> #[trigger] root(parent@, x) == relabel(merges@, merges@.len(), x));
    if nc == 0 {
        return Ok(Traced { parent, edges, merges });
    }
    let mut base: usize = 0;
    let mut ci: usize = 0;
    while ci + 1 < nc
        invariant
            nc == cols@.len(),
            ci < nc,
            n == 2 * all,
            all == total(cols@, nc as nat),
            all < usize::MAX / 8,
            forall|c: int| 0 <= c < cols@.len() ==> column(#[trigger] cols@[c]@),
            base == 2 * total(cols@, ci as nat),
            parent@.len() == n,
            is_forest(parent@),
            edges@.len() <= 2 * total(cols@, ci as nat),
            forall|e: int| 0 <= e < edges@.len() ==> (#[trigger] edges@[e]).0 < n && edges@[e].1 < n,
            forall|g: int| 0 <= g < merges@.len() ==> (#[trigger] merges@[g]).0 < n && merges@[g].1 < n
                && merges@[g].0 != merges@[g].1,
            forall|c: int| 0 <= c < ci ==> #[trigger] untangled(cols@[c]@, cols@[c + 1]@),
            forall|e: int| 0 <= e < edges@.len() ==> rail_of(cols@, #[trigger] edges@[e]),
            forall|e: int| 0 <= e < edges@.len() ==> matched_rail(cols@, #[trigger] edges@[e]),
            forall|e: int| 0 <= e < edges@.len() ==> (#[trigger] edges@[e]).0 < base,
            forall|e1: int, e2: int| 0 <= e1 < e2 < edges@.len() ==> (#[trigger] edges@[e1]).0 < (
            #[trigger] edges@[e2]).0,
            forall|c: int, k1: int, k2: int, side: Side|
                0 <= c < ci && 0 <= k1 < cols@[c]@.len() && 0 <= k2 < cols@[c + 1]@.len()
                    && #[trigger] traced_pair(cols@, c, k1, k2, side) ==> has_edge(
                    edges@,
                    vid(cols@, c, k1, side),
                    vid(cols@, c + 1, k2, side),
                ),
            forall|c: int| 0 <= c < ci ==> #[trigger] pair_traced(cols@, edges@, parent@, c),
            forall|x: int| 0 <= x < n ==> #[trigger] root(parent@, x) == relabel(merges@, merges@.len(), x),
            forall|g: int| 0 <= g < merges@.len() ==> #[trigger] merge_justified(cols@, merges@, g),
        decreases nc - ci,
    {
        let l = &cols[ci];
        let r = &cols[ci + 1];
        proof {
            lemma_total_mono(cols@, (ci + 2) as nat, nc as nat);
            assert(total(cols@, (ci + 1) as nat) == total(cols@, ci as nat) + cols@[ci as int]@.len());
            assert(total(cols@, (ci + 2) as nat) == total(cols@, (ci + 1) as nat) + cols@[ci + 1]@.len());
            assert(total(cols@, (ci + 2) as nat) == total(cols@, ci as nat) + l@.len() + r@.len());
        }
        let next = base + 2 * l.len();
        let m = match match_columns(l, r) {
            Ok(m) => m,
            Err(f) => {
                proof {
                    assert(!untangled(cols@[ci as int]@, cols@[ci + 1]@));
                }
                return Err(f);
            },
        };
        let ghost edges0 = edges@;
        let ghost parent0 = parent@;
        let e_start = edges.len();
        proof {
            assert forall|k: int| 0 <= k < m.rails@.len() implies (#[trigger] m.rails@[k]).left < l@.len() by {
                if l@.len() == r@.len() {
                    lemma_index_rails(l@.len(), k);
                } else {
                    assert(sound_rail(l@, r@, m.rails@[k]));
                }
            }
        }
        let mut t: usize = 0;
        while t < m.rails.len()
            invariant
                t <= m.rails@.len(),
                nc == cols@.len(),
                ci + 1 < nc,
                l == &cols@[ci as int],
                r == &cols@[ci + 1],
                n == 2 * all,
                base == 2 * total(cols@, ci as nat),
                next == base + 2 * l@.len(),
                next == 2 * total(cols@, (ci + 1) as nat),
                next + 2 * r@.len() <= n,
                n < usize::MAX / 4,
                l@.len() == r@.len() ==> m.rails@ == index_rails(l@.len()),
                l@.len() != r@.len() ==> forall|k: int| 0 <= k < m.rails@.len() ==> sound_rail(l@, r@, #[trigger] m.rails@[k]),
                l@.len() != r@.len() ==> forall|k: int| 0 <= k < m.rails@.len() ==> outer_rail(l@, r@, #[trigger] m.rails@[k]),
                l@.len() != r@.len() ==> forall|t: Rail| sound_rail(l@, r@, t) && outer_rail(l@, r@, t) ==> #[trigger] m.rails@.contains(t),
                m.rails@.len() <= 2 * l@.len(),
                edges@.len() <= 2 * total(cols@, ci as nat) + t,
                forall|e: int| 0 <= e < edges@.len() ==> (#[trigger] edges@[e]).0 < n && edges@[e].1 < n,
                e_start == edges0.len(),
                edges@.len() == e_start + t,
                forall|e: int| 0 <= e < e_start ==> #[trigger] edges@[e] == edges0[e],
                forall|u: int| 0 <= u < t ==> (#[trigger] edges@[e_start + u]).0 as int == vid(
                    cols@,
                    ci as int,
                    m.rails@[u].left as int,
                    m.rails@[u].side,
                ) && edges@[e_start + u].1 as int == vid(cols@, ci + 1, m.rails@[u].right as int, m.rails@[u].side),
                forall|e: int| 0 <= e < edges@.len() ==> rail_of(cols@, #[trigger] edges@[e]),
                forall|e: int| 0 <= e < edges@.len() ==> matched_rail(cols@, #[trigger] edges@[e]),
                forall|e: int| 0 <= e < e_start ==> (#[trigger] edges@[e]).0 < base,
                forall|u: int| 0 <= u < t ==> (#[trigger] edges@[e_start + u]).0 as int == base + rail_key(m.rails@[u]),
                forall|a: int, b: int|
                    0 <= a < b < m.rails@.len() ==> rail_key(#[trigger] m.rails@[a]) < rail_key(#[trigger] m.rails@[b]),
                forall|e1: int, e2: int| 0 <= e1 < e2 < edges@.len() ==> (#[trigger] edges@[e1]).0 < (
                #[trigger] edges@[e2]).0,
                forall|k: int| 0 <= k < m.rails@.len() ==> (#[trigger] m.rails@[k]).left < l@.len(),
                parent@ == parent0,
            decreases m.rails@.len() - t,
        {
            let rail = m.rails[t];
            proof {
                if l@.len() == r@.len() {
                    lemma_index_rails(l@.len(), t as int);
                }
            }
            let a = end_id(base, rail.left, rail.side);
            let b = end_id(next, rail.right, rail.side);
            let ghost before = edges@;
            edges.push((a, b));
            proof {
                assert(rail_between(cols@, ci as int, a as int, b as int)) by {
                    assert(a as int == vid(cols@, ci as int, rail.left as int, rail.side));
                    assert(b as int == vid(cols@, ci + 1, rail.right as int, rail.side));
                }
                assert forall|e: int| 0 <= e < edges@.len() implies rail_of(cols@, #[trigger] edges@[e]) by {
                    if e < before.len() {
                        assert(edges@[e] == before[e]);
                    } else {
                        assert(rail_between(cols@, ci as int, edges@[e].0 as int, edges@[e].1 as int));
                    }
                }
                assert forall|u: int| 0 <= u < t + 1 implies (#[trigger] edges@[e_start + u]).0 as int == vid(
                    cols@,
                    ci as int,
                    m.rails@[u].left as int,
                    m.rails@[u].side,
                ) && edges@[e_start + u].1 as int == vid(cols@, ci + 1, m.rails@[u].right as int, m.rails@[u].side) by {
                    if u < t {
                        assert(edges@[e_start + u] == before[e_start + u]);
                    }
                }
                // The new edge is a rail of the matching, placed after every earlier one.
                assert(traced_pair(cols@, ci as int, rail.left as int, rail.right as int, rail.side)) by {
                    if l@.len() != r@.len() {
                        assert(sound_rail(l@, r@, m.rails@[t as int]));
                        assert(outer_rail(l@, r@, m.rails@[t as int]));
                    }
                }
                assert(outer_between(cols@, ci as int, a as int, b as int));
                assert forall|e: int| 0 <= e < edges@.len() implies matched_rail(cols@, #[trigger] edges@[e]) by {
                    if e < before.len() {
                        assert(edges@[e] == before[e]);
                    } else {
                        assert(outer_between(cols@, ci as int, edges@[e].0 as int, edges@[e].1 as int));
                    }
                }
                assert(a as int == base + rail_key(rail));
                assert forall|u: int| 0 <= u < t + 1 implies (#[trigger] edges@[e_start + u]).0 as int == base + rail_key(
                    m.rails@[u],
                ) by {
                    if u < t {
                        assert(edges@[e_start + u] == before[e_start + u]);
                    }
                }
                assert forall|e: int| 0 <= e < e_start implies (#[trigger] edges@[e]).0 < base by {
                    assert(edges@[e] == before[e]);
                }
                assert forall|e1: int, e2: int| 0 <= e1 < e2 < edges@.len() implies (#[trigger] edges@[e1]).0 < (
                #[trigger] edges@[e2]).0 by {
                    if e2 < before.len() {
                        assert(edges@[e1] == before[e1] && edges@[e2] == before[e2]);
                    } else {
                        assert(edges@[e2].0 as int == base + rail_key(m.rails@[t as int]));
                        if e1 >= e_start {
                            assert(edges@[e_start + (e1 - e_start)].0 as int == base + rail_key(m.rails@[e1 - e_start]));
                        } else {
                            assert(edges@[e1] == before[e1]);
                        }
                    }
                }
            }
            t = t + 1;
        }
        proof {
            // Every rail of the matching between these two columns is now an edge.
            assert forall|k1: int, k2: int, side: Side|
                0 <= k1 < l@.len() && 0 <= k2 < r@.len() && #[trigger] traced_pair(cols@, ci as int, k1, k2, side)
                    implies has_edge(edges@, vid(cols@, ci as int, k1, side), vid(cols@, ci + 1, k2, side)) by {
                let rl = Rail { left: k1 as usize, right: k2 as usize, side };
                let u = if l@.len() == r@.len() {
                    lemma_index_rails_at(l@.len(), k1);
                    if side == Side::Lo {
                        2 * k1
                    } else {
                        2 * k1 + 1
                    }
                } else {
                    assert(m.rails@.contains(rl));
                    choose|u: int| 0 <= u < m.rails@.len() && m.rails@[u] == rl
                };
                assert(m.rails@[u] == rl);
                assert(edges@[e_start + u].0 as int == vid(cols@, ci as int, k1, side));
            }
            assert forall|c: int, k1: int, k2: int, side: Side|
                0 <= c < ci + 1 && 0 <= k1 < cols@[c]@.len() && 0 <= k2 < cols@[c + 1]@.len()
                    && #[trigger] traced_pair(cols@, c, k1, k2, side) implies has_edge(
                    edges@,
                    vid(cols@, c, k1, side),
                    vid(cols@, c + 1, k2, side),
                ) by {
                if c < ci {
                    assert(has_edge(edges0, vid(cols@, c, k1, side), vid(cols@, c + 1, k2, side)));
                    let e = choose|e: int|
                        0 <= e < edges0.len() && (#[trigger] edges0[e]).0 as int == vid(cols@, c, k1, side)
                            && edges0[e].1 as int == vid(cols@, c + 1, k2, side);
                    assert(edges@[e] == edges0[e]);
                }
            }
            assert forall|e: int| 0 <= e < edges@.len() implies (#[trigger] edges@[e]).0 < next by {
                if e >= e_start {
                    let u = e - e_start;
                    assert(edges@[e_start + u].0 as int == base + rail_key(m.rails@[u]));
                    assert(m.rails@[u].left < l@.len());
                }
            }
        }
        let ghost edges1 = edges@;
        let mut t: usize = 0;
        while t < m.joins.len()
            invariant
                t <= m.joins@.len(),
                nc == cols@.len(),
                ci + 1 < nc,
                l == &cols@[ci as int],
                r == &cols@[ci + 1],
                n == 2 * all,
                all == total(cols@, nc as nat),
                base == 2 * total(cols@, ci as nat),
                next == base + 2 * l@.len(),
                next == 2 * total(cols@, (ci + 1) as nat),
                next + 2 * r@.len() <= n,
                n < usize::MAX / 4,
                l@.len() == r@.len() ==> m.joins@.len() == 0,
                l@.len() != r@.len() ==> forall|k: int| 0 <= k < m.joins@.len() ==> sound_join(l@, r@, #[trigger] m.joins@[k]),
                parent@.len() == n,
                is_forest(parent@),
                forall|g: int| 0 <= g < merges@.len() ==> (#[trigger] merges@[g]).0 < n && merges@[g].1 < n
                    && merges@[g].0 != merges@[g].1,
                edges@ == edges1,
                parent0.len() == n,
                forall|x: int, y: int| 0 <= x < n && 0 <= y < n && same_root(parent0, x, y) ==> same_root(parent@, x, y),
                forall|u: int| 0 <= u < t ==> same_root(
                    parent@,
                    join_ends(cols@, ci as int, #[trigger] m.joins@[u]).0,
                    join_ends(cols@, ci as int, m.joins@[u]).1,
                ),
                forall|x: int| 0 <= x < n ==> #[trigger] root(parent@, x) == relabel(merges@, merges@.len(), x),
                forall|g: int| 0 <= g < merges@.len() ==> #[trigger] merge_justified(cols@, merges@, g),
            decreases m.joins@.len() - t,
        {
            let (a, b) = match m.joins[t] {
                Join::Pinch { right, k } => {
                    let cb = if right { next } else { base };
                    (end_id(cb, k, Side::Lo), end_id(cb, k, Side::Hi))
                },
                Join::Saddle { right, k } => {
                    let cb = if right { next } else { base };
                    (end_id(cb, k, Side::Hi), end_id(cb, k + 1, Side::Lo))
                },
            };
            proof {
                assert(a as int == join_ends(cols@, ci as int, m.joins@[t as int]).0);
                assert(b as int == join_ends(cols@, ci as int, m.joins@[t as int]).1);
            }
            let ghost pb = parent@;
            let ghost mb = merges@;
            proof {
                if l@.len() == r@.len() {
                    assert(m.joins@.len() == 0);
                }
                assert(sound_join(l@, r@, m.joins@[t as int]));
                assert(join_ends(cols@, ci as int, m.joins@[t as int]) == (a as int, b as int));
                assert(join_of(cols@, a as int, b as int));
            }
            match uf_union(&mut parent, a, b) {
                Some(ab) => {
                    merges.push(ab);
                    proof {
                        assert forall|x: int| 0 <= x < n implies #[trigger] root(parent@, x) == relabel(
                            merges@,
                            merges@.len(),
                            x,
                        ) by {
                            lemma_relabel_push(mb, ab, mb.len(), x);
                        }
                        assert forall|g: int| 0 <= g < merges@.len() implies #[trigger] merge_justified(
                            cols@,
                            merges@,
                            g,
                        ) by {
                            if g < mb.len() {
                                assert(merge_justified(cols@, mb, g));
                                let (a2, b2) = choose|a2: int, b2: int|
                                    #[trigger] join_of(cols@, a2, b2) && mb[g].0 as int == relabel(mb, g as nat, a2)
                                        && mb[g].1 as int == relabel(mb, g as nat, b2);
                                lemma_relabel_push(mb, ab, g as nat, a2);
                                lemma_relabel_push(mb, ab, g as nat, b2);
                                assert(merges@[g] == mb[g]);
                            } else {
                                lemma_relabel_push(mb, ab, mb.len(), a as int);
                                lemma_relabel_push(mb, ab, mb.len(), b as int);
                                assert(merges@[g] == ab);
                            }
                        }
                    }
                },
                None => {},
            }
            proof {
                assert(root(parent@, a as int) == root(pb, a as int));
                assert(same_root(parent@, a as int, b as int));
                assert forall|x: int, y: int| 0 <= x < n && 0 <= y < n && same_root(pb, x, y) implies same_root(
                    parent@,
                    x,
                    y,
                ) by {
                    assert(root(parent@, x) == root(parent@, x));
                    assert(root(parent@, y) == root(parent@, y));
                }
            }
            t = t + 1;
        }
        proof {
            assert(total(cols@, (ci + 1) as nat) == total(cols@, ci as nat) + l@.len());
            if l@.len() == r@.len() {
                lemma_index_rails_len(l@.len());
            }
            lemma_pair_traced_now(cols@, ci as int, m.rails@, m.joins@, edges@, e_start as int, parent@);
            assert forall|c: int| 0 <= c < ci + 1 implies #[trigger] pair_traced(cols@, edges@, parent@, c) by {
                if c < ci {
                    lemma_traced_kept(cols@, edges0, parent0, edges@, parent@, c);
                }
            }
        }
        base = next;
        ci = ci + 1;
    }
    proof {
        lemma_total_mono(cols@, ci as nat, nc as nat);
    }
    Ok(Traced { parent, edges, merges })
}

} // verus!
