//! The **turn arc** of a closed cut loop: the contiguous run of the loop's pieces from one
//! junction to another that turns around one or both tangent rulings.
//!
//! A loop traverses `left tangent → upper branch (σ ascending) → right tangent → lower branch
//! (σ descending)`. Which pieces the arc takes is decided from the σ-values at the piece ends (as
//! order keys) and which branch each junction sits on; cutting the two end pieces exactly at the
//! junctions is exact-rational work for the caller.

use vstd::prelude::*;

verus! {

/// One step of a turn arc.
#[derive(Clone, Copy, PartialEq, Eq, Debug, Structural)]
pub enum ArcStep {
    /// Piece `k`, cut at the start junction, keeping the part after it.
    Tail(usize),
    /// Piece `k`, whole.
    Whole(usize),
    /// Piece `k`, cut at the end junction, keeping the part before it.
    Head(usize),
}

/// The `i`-th piece of a walk of `n` pieces starting at piece `b`.
pub open spec fn ord(n: nat, b: nat, i: int) -> int {
    (b + i) % (n as int)
}

/// Step `i > 0` of the walk lands on a σ-extreme piece: the walk turns there.
pub open spec fn is_turn(n: nat, b: nat, amax: nat, amin: nat, i: int) -> bool {
    i > 0 && (ord(n, b, i) == amax || ord(n, b, i) == amin)
}

/// The turns taken in the first `i` steps of the walk.
pub open spec fn turns(n: nat, b: nat, amax: nat, amin: nat, i: int) -> nat
    decreases i,
{
    if i <= 0 {
        0
    } else {
        turns(n, b, amax, amin, i - 1) + if is_turn(n, b, amax, amin, i) { 1nat } else { 0nat }
    }
}

/// The piece's σ-range covers `s`, whichever way it runs.
pub open spec fn spans(e: (u64, u64), s: u64) -> bool {
    (e.0 <= s && s <= e.1) || (e.1 <= s && s <= e.0)
}

/// The first piece whose σ is greatest (`at_max`) or least (`at_min`).
pub open spec fn first_extreme(sig: Seq<u64>, k: int, greatest: bool) -> bool {
    &&& 0 <= k < sig.len()
    &&& forall|j: int| 0 <= j < sig.len() ==> if greatest {
        #[trigger] sig[j] <= sig[k]
    } else {
        sig[k] <= #[trigger] sig[j]
    }
    &&& forall|j: int| 0 <= j < k ==> if greatest {
        #[trigger] sig[j] < sig[k]
    } else {
        sig[k] < #[trigger] sig[j]
    }
}

/// The arc's steps: the start piece cut, the pieces between whole, the end piece cut.
pub open spec fn arc_steps(n: nat, b: nat, s: int, e: int) -> Seq<ArcStep>
    decreases e - s,
{
    if e <= s {
        Seq::empty()
    } else if e == s + 1 {
        seq![ArcStep::Tail(ord(n, b, s) as usize)]
    } else {
        arc_steps(n, b, s, e - 1).push(ArcStep::Whole(ord(n, b, e - 1) as usize))
    }
}

/// Where the walk's arc starts: before any turn, on a piece covering the start junction.
pub open spec fn start_ok(ends: Seq<Option<(u64, u64)>>, n: nat, b: nat, amax: nat, amin: nat, from: u64, i: int) -> bool {
    turns(n, b, amax, amin, i) == 0 && (ends[ord(n, b, i)] matches Some(e) && spans(e, from))
}

/// Where the walk's arc ends: after enough turns, on a piece covering the end junction.
pub open spec fn end_ok(ends: Seq<Option<(u64, u64)>>, n: nat, b: nat, amax: nat, amin: nat, need: nat, to: u64, i: int) -> bool {
    turns(n, b, amax, amin, i) >= need && (ends[ord(n, b, i)] matches Some(e) && spans(e, to))
}

/// The walk begins at the σ-min piece for a run on the upper branch, the σ-max piece otherwise.
pub open spec fn walk_start(from_upper: bool, amax: int, amin: int) -> int {
    if from_upper { amin } else { amax }
}

/// Turns to wrap: one to cross to the other branch, two to come back to the same one.
pub open spec fn turns_needed(from_upper: bool, to_upper: bool) -> nat {
    if from_upper == to_upper { 2 } else { 1 }
}

/// The σ-extremes `amax` and `amin`, the walk's start step `s` and end step `e`, and the plan
/// together describe the turn arc the planner returns: the walk begins at the turn the `from` run
/// starts at, `s` is its first step covering `from` before any turn, `e` the first later step
/// covering `to` after `need` turns, and the plan cuts the pieces at `s` and `e`.
pub open spec fn is_turn_arc(
    sig: Seq<u64>,
    ends: Seq<Option<(u64, u64)>>,
    from: u64,
    from_upper: bool,
    to: u64,
    to_upper: bool,
    amax: int,
    amin: int,
    s: int,
    e: int,
    plan: Seq<ArcStep>,
) -> bool {
    let n = sig.len();
    let b = walk_start(from_upper, amax, amin);
    let need = turns_needed(from_upper, to_upper);
    &&& n >= 4
    &&& first_extreme(sig, amax, true)
    &&& first_extreme(sig, amin, false)
    &&& amax != amin
    &&& 0 <= s < e < 2 * n
    &&& start_ok(ends, n, b as nat, amax as nat, amin as nat, from, s)
    &&& forall|i: int| 0 <= i < s ==> !#[trigger] start_ok(ends, n, b as nat, amax as nat, amin as nat, from, i)
    &&& end_ok(ends, n, b as nat, amax as nat, amin as nat, need, to, e)
    &&& forall|i: int| s < i < e ==> !#[trigger] end_ok(ends, n, b as nat, amax as nat, amin as nat, need, to, i)
    &&& plan == arc_steps(n, b as nat, s, e).push(ArcStep::Head(ord(n, b as nat, e) as usize))
}

/// A turn arc exists and every piece the walk reaches up to its end can be evaluated: the planner
/// then owes one.
pub open spec fn arc_available(
    sig: Seq<u64>,
    ends: Seq<Option<(u64, u64)>>,
    from: u64,
    from_upper: bool,
    to: u64,
    to_upper: bool,
    amax: int,
    amin: int,
    s: int,
    e: int,
) -> bool {
    let n = sig.len();
    let b = walk_start(from_upper, amax, amin);
    let need = turns_needed(from_upper, to_upper);
    &&& n >= 4
    &&& first_extreme(sig, amax, true)
    &&& first_extreme(sig, amin, false)
    &&& amax != amin
    &&& 0 <= s < e < 2 * n
    &&& forall|i: int| 0 <= i <= e ==> #[trigger] ends[ord(n, b as nat, i)] is Some
    &&& start_ok(ends, n, b as nat, amax as nat, amin as nat, from, s)
    &&& end_ok(ends, n, b as nat, amax as nat, amin as nat, need, to, e)
}

/// The first σ-extreme of a sequence is unique.
pub proof fn lemma_first_extreme_unique(sig: Seq<u64>, k1: int, k2: int, greatest: bool)
    requires
        first_extreme(sig, k1, greatest),
        first_extreme(sig, k2, greatest),
    ensures
        k1 == k2,
{
    if k1 < k2 {
        assert(sig[k1] <= sig[k2] && sig[k2] <= sig[k1]);
    } else if k2 < k1 {
        assert(sig[k1] <= sig[k2] && sig[k2] <= sig[k1]);
    }
}

/// Plan the **turn arc** of a closed cut loop of `n` pieces, from the junction at σ-key `from`
/// (on the upper branch if `from_upper`) to the one at `to` (on the upper branch if `to_upper`).
///
/// `sig[k]` is the σ-key of piece `k`'s start, and `ends[k]` the σ-keys of its two ends (`None`
/// when they cannot be evaluated). The walk starts at the turn the `from` run begins at — the
/// σ-min piece for the upper branch, the σ-max piece for the lower — and goes twice round the
/// loop: the arc starts on the first piece covering `from` before any turn, and ends on the
/// first later piece covering `to` once it has wrapped as many tangents as the branch flags
/// imply (one to cross to the other branch, two to come back). `None` if the loop has fewer than
/// four pieces or does not turn, if no such arc exists, or if a piece the walk reaches before the
/// arc's end cannot be evaluated; pieces past the arc's end are never read.
pub fn turn_arc_plan(
    sig: &Vec<u64>,
    ends: &Vec<Option<(u64, u64)>>,
    from: u64,
    from_upper: bool,
    to: u64,
    to_upper: bool,
) -> (res: Option<Vec<ArcStep>>)
    requires
        ends@.len() == sig@.len(),
        sig@.len() < usize::MAX / 4,
    ensures
        res is Some ==> exists|amax: int, amin: int, s: int, e: int|
            #[trigger] is_turn_arc(sig@, ends@, from, from_upper, to, to_upper, amax, amin, s, e, res->0@),
        res is Some <==> exists|amax: int, amin: int, s: int, e: int|
            #[trigger] arc_available(sig@, ends@, from, from_upper, to, to_upper, amax, amin, s, e),
        sig@.len() < 4 ==> res is None,
{
    let n = sig.len();
    if n < 4 {
        return None;
    }
    let mut at_max: usize = 0;
    let mut at_min: usize = 0;
    let mut k: usize = 1;
    while k < n
        invariant
            1 <= k <= n,
            n == sig@.len(),
            first_extreme(sig@.subrange(0, k as int), at_max as int, true),
            first_extreme(sig@.subrange(0, k as int), at_min as int, false),
        decreases n - k,
    {
        if sig[k] > sig[at_max] {
            at_max = k;
        }
        if sig[k] < sig[at_min] {
            at_min = k;
        }
        proof {
            let s0 = sig@.subrange(0, k as int);
            let s1 = sig@.subrange(0, k + 1);
            assert forall|j: int| 0 <= j < k implies #[trigger] s1[j] == s0[j] by {}
        }
        k = k + 1;
    }
    proof {
        assert(sig@.subrange(0, n as int) == sig@);
    }
    if at_max == at_min {
        proof {
            assert forall|amax: int, amin: int, s: int, e: int|
                !#[trigger] arc_available(sig@, ends@, from, from_upper, to, to_upper, amax, amin, s, e) by {
                if first_extreme(sig@, amax, true) && first_extreme(sig@, amin, false) {
                    lemma_first_extreme_unique(sig@, amax, at_max as int, true);
                    lemma_first_extreme_unique(sig@, amin, at_min as int, false);
                }
            }
        }
        return None;
    }
    let begin = if from_upper { at_min } else { at_max };
    let need: usize = if from_upper == to_upper { 2 } else { 1 };
    let ghost gn = n as nat;
    let ghost gb = begin as nat;
    let ghost gmax = at_max as nat;
    let ghost gmin = at_min as nat;
    let mut plan: Vec<ArcStep> = Vec::new();
    let mut started = false;
    let ghost mut first: int = 0;
    let mut turns_taken: usize = 0;
    let mut i: usize = 0;
    while i < 2 * n
        invariant
            n == sig@.len(),
            n == ends@.len(),
            n >= 4,
            n < usize::MAX / 4,
            i <= 2 * n,
            gn == n,
            gb == begin,
            begin < n,
            gmax == at_max,
            gmin == at_min,
            at_max != at_min,
            begin == walk_start(from_upper, at_max as int, at_min as int),
            first_extreme(sig@, at_max as int, true),
            first_extreme(sig@, at_min as int, false),
            turns_taken == turns(gn, gb, gmax, gmin, i as int - 1),
            turns_taken <= i,
            need as nat == turns_needed(from_upper, to_upper),
            forall|j: int| 0 <= j < i ==> #[trigger] ends@[ord(gn, gb, j)] is Some,
            !started ==> plan@.len() == 0 && forall|j: int| 0 <= j < i ==> !#[trigger] start_ok(ends@, gn, gb, gmax, gmin, from, j),
            started ==> 0 <= first < i && start_ok(ends@, gn, gb, gmax, gmin, from, first)
                && (forall|j: int| 0 <= j < first ==> !#[trigger] start_ok(ends@, gn, gb, gmax, gmin, from, j))
                && (forall|j: int| first < j < i ==> !#[trigger] end_ok(ends@, gn, gb, gmax, gmin, need as nat, to, j))
                && plan@ == arc_steps(gn, gb, first, i as int),
        decreases 2 * n - i,
    {
        let k = (begin + i) % n;
        if i > 0 && (k == at_max || k == at_min) {
            turns_taken = turns_taken + 1;
        }
        proof {
            assert(k as int == ord(gn, gb, i as int));
            if i > 0 {
                assert(turns(gn, gb, gmax, gmin, i as int) == turns(gn, gb, gmax, gmin, i as int - 1)
                    + if is_turn(gn, gb, gmax, gmin, i as int) { 1nat } else { 0nat });
            }
        }
        let (a, b) = match ends[k] {
            Some(e) => e,
            None => {
                proof {
                    assert forall|amax: int, amin: int, s: int, e: int|
                        !#[trigger] arc_available(sig@, ends@, from, from_upper, to, to_upper, amax, amin, s, e) by {
                        if arc_available(sig@, ends@, from, from_upper, to, to_upper, amax, amin, s, e) {
                            lemma_first_extreme_unique(sig@, amax, at_max as int, true);
                            lemma_first_extreme_unique(sig@, amin, at_min as int, false);
                            if e >= i {
                                assert(ends@[ord(gn, gb, i as int)] is Some);
                            } else {
                                // An arc ending before this step would have been returned already.
                                assert(start_ok(ends@, gn, gb, gmax, gmin, from, s));
                                assert(end_ok(ends@, gn, gb, gmax, gmin, need as nat, to, e));
                            }
                        }
                    }
                }
                return None;
            },
        };
        let covers_from = (a <= from && from <= b) || (b <= from && from <= a);
        let covers_to = (a <= to && to <= b) || (b <= to && to <= a);
        if !started {
            if turns_taken > 0 || !covers_from {
                i = i + 1;
                continue;
            }
            plan.push(ArcStep::Tail(k));
            started = true;
            proof {
                first = i as int;
                assert(plan@ =~= arc_steps(gn, gb, first, i + 1));
            }
            i = i + 1;
            continue;
        }
        if turns_taken >= need && covers_to {
            plan.push(ArcStep::Head(k));
            let ghost steps = plan@;
            proof {
                assert(end_ok(ends@, gn, gb, gmax, gmin, need as nat, to, i as int));
                assert forall|j: int| 0 <= j <= i implies #[trigger] ends@[ord(gn, gb, j)] is Some by {
                    if j == i {
                        assert(ends@[ord(gn, gb, j)] == ends@[k as int]);
                    }
                }
                assert(arc_available(sig@, ends@, from, from_upper, to, to_upper, gmax as int, gmin as int, first, i as int));
                assert(is_turn_arc(sig@, ends@, from, from_upper, to, to_upper, gmax as int, gmin as int, first, i as int, steps));
            }
            let res = Some(plan);
            proof {
                assert(res->0@ == steps);
            }
            return res;
        }
        plan.push(ArcStep::Whole(k));
        i = i + 1;
    }
    proof {
        assert forall|amax: int, amin: int, s: int, e: int|
            !#[trigger] arc_available(sig@, ends@, from, from_upper, to, to_upper, amax, amin, s, e) by {
            if arc_available(sig@, ends@, from, from_upper, to, to_upper, amax, amin, s, e) {
                lemma_first_extreme_unique(sig@, amax, at_max as int, true);
                lemma_first_extreme_unique(sig@, amin, at_min as int, false);
                assert(start_ok(ends@, gn, gb, gmax, gmin, from, s));
                assert(end_ok(ends@, gn, gb, gmax, gmin, need as nat, to, e));
            }
        }
    }
    None
}

} // verus!
