//! The **design-rule check** and the certificates it gates: a bound is fabricable when it is
//! under half the clearance, and a certificate's bound is the worst of its sub-interval bounds.
//!
//! Bounds are order keys: integers that compare exactly as the rationals they stand for.
use vstd::prelude::*;
use crate::verdict::Verdict;

verus! {

/// What one sub-interval of a certificate gave: an upper bound on the distance there, or a
/// refusal of type `F` (a pole in the evaluated residual, a degenerate surface, a crossed nappe).
#[derive(Debug)]
pub enum Sample<F> {
    /// The distance over the sub-interval is at most this bound.
    Bound(u64),
    /// The sub-interval could not be bounded.
    Fault(F),
}

/// The DRC verdict on a bound `eps` against half the clearance.
pub open spec fn gate(eps: u64, half: u64) -> Verdict<u64, (), u64> {
    if eps < half {
        Verdict::Verified(eps)
    } else {
        Verdict::Unresolved(eps)
    }
}

/// **The design-rule check**: fabricable when the backward error `eps` is under `half` (half the
/// clearance). `Verified(eps)` then, else `Unresolved(eps)` — a loose enclosure is not wrong, only
/// not yet tight enough, so the check never refutes.
pub fn drc(eps: u64, half: u64) -> (res: Verdict<u64, (), u64>)
    ensures
        res == gate(eps, half),
        res is Verified <==> eps < half,
{
    if eps < half {
        Verdict::Verified(eps)
    } else {
        Verdict::Unresolved(eps)
    }
}

/// The first `m` samples are all bounds.
pub open spec fn all_bounds<F>(s: Seq<Sample<F>>, m: int) -> bool {
    forall|i: int| 0 <= i < m ==> #[trigger] s[i] is Bound
}

/// `k` is the first refused sample.
pub open spec fn first_fault<F>(s: Seq<Sample<F>>, k: int) -> bool {
    0 <= k < s.len() && s[k] is Fault && all_bounds(s, k)
}

/// The worst of `start` and the first `m` samples' bounds (refused samples do not count).
pub open spec fn worst<F>(start: u64, s: Seq<Sample<F>>, m: nat) -> u64
    decreases m,
{
    if m == 0 {
        start
    } else {
        let w = worst(start, s, (m - 1) as nat);
        match s[m - 1] {
            Sample::Bound(b) => if w < b {
                b
            } else {
                w
            },
            Sample::Fault(_) => w,
        }
    }
}

proof fn lemma_worst_bounds<F>(start: u64, s: Seq<Sample<F>>, m: nat)
    ensures
        start <= worst(start, s, m),
        forall|i: int| 0 <= i < m ==> ((#[trigger] s[i]) matches Sample::Bound(b) ==> b <= worst(start, s, m)),
        worst(start, s, m) == start || exists|i: int| 0 <= i < m && #[trigger] s[i] == Sample::<F>::Bound(worst(start, s, m)),
    decreases m,
{
    if m > 0 {
        lemma_worst_bounds(start, s, (m - 1) as nat);
        let w = worst(start, s, (m - 1) as nat);
        if let Sample::Bound(b) = s[m - 1] {
            if w < b {
                assert(s[m - 1] == Sample::<F>::Bound(worst(start, s, m)));
            }
        }
    }
}

/// The bound of a certificate from its sub-intervals' samples, in order, starting from `start`
/// (the bound already owed before the sub-intervals, such as a tangent gap): the first refusal
/// refuses the certificate; otherwise the bound is the worst of `start` and every sample. A caller
/// may stop sampling at the first refusal — what follows it does not count.
pub fn worst_bound<F: Copy>(start: u64, samples: &Vec<Sample<F>>) -> (res: Result<u64, F>)
    ensures
        res is Ok <==> all_bounds(samples@, samples@.len() as int),
        res matches Ok(e) ==> e == worst(start, samples@, samples@.len() as nat),
        res matches Err(f) ==> exists|k: int| #[trigger] first_fault(samples@, k) && samples@[k] == Sample::Fault(f),
        // The bound covers everything it was made from, and is one of them.
        res matches Ok(e) ==> start <= e && forall|i: int|
            0 <= i < samples@.len() ==> ((#[trigger] samples@[i]) matches Sample::Bound(b) ==> b <= e),
        res matches Ok(e) ==> e == start || exists|i: int|
            0 <= i < samples@.len() && #[trigger] samples@[i] == Sample::<F>::Bound(e),
{
    let mut eps = start;
    let mut k: usize = 0;
    while k < samples.len()
        invariant
            k <= samples@.len(),
            all_bounds(samples@, k as int),
            eps == worst(start, samples@, k as nat),
        decreases samples@.len() - k,
    {
        match &samples[k] {
            Sample::Bound(b) => {
                if eps < *b {
                    eps = *b;
                }
            },
            Sample::Fault(f) => {
                assert(first_fault(samples@, k as int));
                return Err(*f);
            },
        }
        k = k + 1;
    }
    proof {
        lemma_worst_bounds(start, samples@, samples@.len() as nat);
    }
    Ok(eps)
}

/// Certify a traced cut over its sub-intervals and gate it by the DRC: the first refusal
/// refuses; otherwise `Verified(ε)` when the worst bound `ε` is under `half`, `Unresolved(ε)` when
/// not. A cut that drifts off its surface is `Unresolved`, never a wrong `Verified`: a verified
/// bound is under `half` and covers every sub-interval.
pub fn certify<F: Copy>(start: u64, samples: &Vec<Sample<F>>, half: u64) -> (res: Verdict<u64, F, u64>)
    ensures
        res is Refuted <==> !all_bounds(samples@, samples@.len() as int),
        res matches Verdict::Refuted(f) ==> exists|k: int| #[trigger] first_fault(samples@, k) && samples@[k] == Sample::Fault(f),
        all_bounds(samples@, samples@.len() as int) ==> ({
            let e = worst(start, samples@, samples@.len() as nat);
            res == if e < half {
                Verdict::<u64, F, u64>::Verified(e)
            } else {
                Verdict::<u64, F, u64>::Unresolved(e)
            }
        }),
        res matches Verdict::Verified(e) ==> e < half && start <= e && forall|i: int|
            0 <= i < samples@.len() ==> ((#[trigger] samples@[i]) matches Sample::Bound(b) && b <= e),
{
    match worst_bound(start, samples) {
        Err(f) => Verdict::Refuted(f),
        Ok(eps) => {
            if eps < half {
                Verdict::Verified(eps)
            } else {
                Verdict::Unresolved(eps)
            }
        },
    }
}

} // verus!
