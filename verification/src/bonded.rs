//! The BONDED lap seam — its four invariants and their conjunction.

use vstd::prelude::*;
use crate::verdict::Verdict;

verus! {

/// Why the CLEAR ramp-clearance check was refused.
#[derive(Clone, Copy, Debug, PartialEq, Eq, Structural)]
pub enum ClearFault {
    /// The σ'-box is empty or reversed (`hi ≤ lo`).
    DegenerateBox,
    /// A rail could not be enclosed on a sub-interval (a possible pole).
    PoleInEval,
}

/// Why a SHEAR check refuted.
#[derive(Clone, Copy, Debug, PartialEq, Eq, Structural)]
pub enum ShearFault {
    /// `κ_g` is not constant on the range — the Tier-1 collapse does not apply.
    KappaNotConstant,
    /// `Δ` is not constant — a layer-dropped or pad-topology face.
    DeltaNotConstant,
    /// `κ_g` is not separated from zero (`k² < m`, or `k = 0`).
    KappaTooSmall,
}

/// The combined evidence for a certified BONDED lap seam — all four invariants hold.
pub struct BondedSeam<SW, LW, HW, CW> {
    /// SEP: the plateau separation is the bond gap.
    pub sep: SW,
    /// SLAB: the offset slab's certified positivity margin.
    pub slab: LW,
    /// SHEAR: the Tier-1 identification.
    pub shear: HW,
    /// CLEAR: the ramp min-distance² lower bound.
    pub clear: CW,
}

/// Why [`valid_bonded_seam`] did not certify — the first failing invariant.
#[derive(Debug)]
pub enum BondedSeamFault<SF, LF> {
    /// SEP refuted.
    Sep(SF),
    /// SLAB refuted.
    Slab(LF),
    /// SHEAR refuted.
    Shear(ShearFault),
    /// CLEAR refuted.
    Clear(ClearFault),
}

/// **VALID_bonded-seam** — the conjunction `SEP ∧ SLAB ∧ SHEAR ∧ CLEAR` as a strong-Kleene AND:
/// the first `Refuted`, in that order, wins (wrapped as a [`BondedSeamFault`]); otherwise an
/// `Unresolved` CLEAR propagates its own handle (fail-closed: the ramp clearance was not
/// established within budget); otherwise an `Unresolved` of SEP, SLAB or SHEAR — which are total
/// and never should be — fails closed with the `zero` handle; and only when all four hold is the
/// combined evidence returned.
pub fn valid_bonded_seam<SW, SF, LW, LF, HW, CW, U>(
    sep: Verdict<SW, SF, ()>,
    slab: Verdict<LW, LF, ()>,
    shear: Verdict<HW, ShearFault, ()>,
    clear: Verdict<CW, ClearFault, U>,
    zero: U,
) -> (res: Verdict<BondedSeam<SW, LW, HW, CW>, BondedSeamFault<SF, LF>, U>)
    ensures
        // Verified exactly when all four are, carrying their four witnesses.
        res is Verified <==> (sep is Verified && slab is Verified && shear is Verified
            && clear is Verified),
        res matches Verdict::Verified(b) ==> (sep == Verdict::<SW, SF, ()>::Verified(b.sep)
            && slab == Verdict::<LW, LF, ()>::Verified(b.slab) && shear == Verdict::<
            HW,
            ShearFault,
            (),
        >::Verified(b.shear) && clear == Verdict::<CW, ClearFault, U>::Verified(b.clear)),
        // The first refutation, in the order SEP, SLAB, SHEAR, CLEAR, wins.
        sep matches Verdict::Refuted(f) ==> res == Verdict::<
            BondedSeam<SW, LW, HW, CW>,
            BondedSeamFault<SF, LF>,
            U,
        >::Refuted(BondedSeamFault::Sep(f)),
        !(sep is Refuted) ==> (slab matches Verdict::Refuted(f) ==> res == Verdict::<
            BondedSeam<SW, LW, HW, CW>,
            BondedSeamFault<SF, LF>,
            U,
        >::Refuted(BondedSeamFault::Slab(f))),
        !(sep is Refuted) && !(slab is Refuted) ==> (shear matches Verdict::Refuted(f) ==> res
            == Verdict::<BondedSeam<SW, LW, HW, CW>, BondedSeamFault<SF, LF>, U>::Refuted(
            BondedSeamFault::Shear(f),
        )),
        !(sep is Refuted) && !(slab is Refuted) && !(shear is Refuted) ==> (clear matches Verdict::Refuted(
            f,
        ) ==> res == Verdict::<BondedSeam<SW, LW, HW, CW>, BondedSeamFault<SF, LF>, U>::Refuted(
            BondedSeamFault::Clear(f),
        )),
        // With no refutation, an undecided CLEAR carries its own handle ...
        !(sep is Refuted) && !(slab is Refuted) && !(shear is Refuted) ==> (clear matches Verdict::Unresolved(
            d,
        ) ==> res == Verdict::<BondedSeam<SW, LW, HW, CW>, BondedSeamFault<SF, LF>, U>::Unresolved(
            d,
        )),
        // ... and a decided CLEAR beside an undecided SEP, SLAB or SHEAR fails closed with `zero`.
        !(sep is Refuted) && !(slab is Refuted) && !(shear is Refuted) && clear is Verified && (sep is Unresolved
            || slab is Unresolved || shear is Unresolved) ==> res == Verdict::<
            BondedSeam<SW, LW, HW, CW>,
            BondedSeamFault<SF, LF>,
            U,
        >::Unresolved(zero),
{
    let sep = match sep {
        Verdict::Refuted(f) => return Verdict::Refuted(BondedSeamFault::Sep(f)),
        other => other,
    };
    let slab = match slab {
        Verdict::Refuted(f) => return Verdict::Refuted(BondedSeamFault::Slab(f)),
        other => other,
    };
    let shear = match shear {
        Verdict::Refuted(f) => return Verdict::Refuted(BondedSeamFault::Shear(f)),
        other => other,
    };
    let clear = match clear {
        Verdict::Verified(w) => w,
        Verdict::Refuted(f) => return Verdict::Refuted(BondedSeamFault::Clear(f)),
        Verdict::Unresolved(d) => return Verdict::Unresolved(d),
    };
    match (sep, slab, shear) {
        (Verdict::Verified(sep), Verdict::Verified(slab), Verdict::Verified(shear)) => Verdict::Verified(
            BondedSeam { sep, slab, shear, clear },
        ),
        _ => Verdict::Unresolved(zero),
    }
}

} // verus!
