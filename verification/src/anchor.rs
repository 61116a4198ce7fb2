//! The ANCHOR development certificate — the refusals its certificate check can report, and the full
//! ANCHOR composed of its exact footprint and its transcendental lift bound.

use vstd::prelude::*;
use crate::verdict::Verdict;

verus! {

/// Why the anchor-development check refused a certificate.
#[derive(Clone, Copy, Debug, PartialEq, Eq, Structural)]
pub enum AnchorDevFault {
    /// The `t`-span is empty or degenerate (`t_lo ≥ t_hi`).
    DegenerateSpan,
    /// A rational field had a denominator enclosure straddling zero on a sub-interval — a
    /// possible pole, so the quotient is unbounded there.
    PoleInEval,
}

/// Why the composed full ANCHOR refused.
#[derive(Debug)]
pub enum AnchorFault<EF> {
    /// The exact half (the free-boundary footprint) refused, with its fault.
    Exact(EF),
    /// The transcendental half (the lift bound) refused, with its fault.
    Transcendental(AnchorDevFault),
    /// The anchor's σ-range does not equal the band's σ-span, so the two halves are not
    /// certifying the same footprint.
    SpanMismatch,
}

/// The anchor's σ-range — its σ at the two ends of its span, in either order — is exactly the
/// band's σ-span `[lo, hi]` (all order keys).
pub open spec fn rides_band(ends: (u64, u64), lo: u64, hi: u64) -> bool {
    if ends.0 > ends.1 {
        ends.1 == lo && ends.0 == hi
    } else {
        ends.0 == lo && ends.1 == hi
    }
}

/// `[lo, hi]` is exactly the range the two σ values `ends` span: `lo` is the smaller of them and
/// `hi` the larger.
pub open spec fn spans_exactly(ends: (u64, u64), lo: u64, hi: u64) -> bool {
    &&& lo <= ends.0 && lo <= ends.1 && (ends.0 == lo || ends.1 == lo)
    &&& ends.0 <= hi && ends.1 <= hi && (ends.0 == hi || ends.1 == hi)
}

/// **Riding the band is matching its span exactly**: the anchor rides the band exactly when the
/// smaller of its two end σ values is the band's start and the larger is the band's end.
pub proof fn lemma_rides_band_is_exact_span(ends: (u64, u64), lo: u64, hi: u64)
    ensures
        rides_band(ends, lo, hi) <==> spans_exactly(ends, lo, hi),
{
}

/// The full **ANCHOR**: the exact footprint `exact`, audited against the transcendental half —
/// the anchor's σ at its span's two ends (`None` where it cannot be evaluated) must be the band's
/// σ-span `band` — and then the lift bound `lift`. `Verified` with both evidences only when both
/// halves pass and the spans agree; the exact half's refusal first, then a span mismatch, then the
/// lift's own verdict. The exact half is total: should it ever be undecided, the composition fails
/// closed with the `zero` handle.
pub fn anchor_verdict<A, EF, T, U>(
    exact: Verdict<A, EF, ()>,
    ends: Option<(u64, u64)>,
    band: (u64, u64),
    lift: Verdict<T, AnchorDevFault, U>,
    zero: U,
) -> (res: Verdict<(A, T), AnchorFault<EF>, U>)
    ensures
        exact matches Verdict::Refuted(f) ==> res == Verdict::<(A, T), AnchorFault<EF>, U>::Refuted(
            AnchorFault::Exact(f),
        ),
        exact is Unresolved ==> res == Verdict::<(A, T), AnchorFault<EF>, U>::Unresolved(zero),
        exact is Verified && !(ends matches Some(e) && rides_band(e, band.0, band.1)) ==> res
            == Verdict::<(A, T), AnchorFault<EF>, U>::Refuted(AnchorFault::SpanMismatch),
        exact is Verified && (ends matches Some(e) && rides_band(e, band.0, band.1)) ==> res == match lift {
            Verdict::Verified(t) => Verdict::<(A, T), AnchorFault<EF>, U>::Verified((exact->Verified_0, t)),
            Verdict::Refuted(f) => Verdict::<(A, T), AnchorFault<EF>, U>::Refuted(AnchorFault::Transcendental(f)),
            Verdict::Unresolved(e) => Verdict::<(A, T), AnchorFault<EF>, U>::Unresolved(e),
        },
        // Verified only when the anchor's σ-range is exactly the band's, and then whenever both
        // halves are.
        res is Verified ==> exact is Verified && lift is Verified && (ends matches Some(e) && spans_exactly(
            e,
            band.0,
            band.1,
        )),
        exact is Verified && lift is Verified && (ends matches Some(e) && spans_exactly(e, band.0, band.1))
            ==> res is Verified,
{
    let a = match exact {
        Verdict::Verified(a) => a,
        Verdict::Refuted(f) => return Verdict::Refuted(AnchorFault::Exact(f)),
        Verdict::Unresolved(_) => return Verdict::Unresolved(zero),
    };
    let (s0, s1) = match ends {
        Some(e) => e,
        None => return Verdict::Refuted(AnchorFault::SpanMismatch),
    };
    let (smin, smax) = if s0 > s1 {
        (s1, s0)
    } else {
        (s0, s1)
    };
    if smin != band.0 || smax != band.1 {
        return Verdict::Refuted(AnchorFault::SpanMismatch);
    }
    match lift {
        Verdict::Verified(t) => Verdict::Verified((a, t)),
        Verdict::Refuted(f) => Verdict::Refuted(AnchorFault::Transcendental(f)),
        Verdict::Unresolved(e) => Verdict::Unresolved(e),
    }
}

} // verus!
