//! The certified cone development — which road its closed-form angle integrator takes, and why
//! it may defer.

use vstd::prelude::*;

verus! {

/// Why the general closed-form angle integrator deferred. An angle enclosure is never refuted:
/// a chart whose `ψ′` cannot yet be closed is undecided, not disproved.
#[derive(Clone, Copy, Debug, PartialEq, Eq, Structural)]
pub enum AngleDefer {
    /// The reduced denominator of `ψ′` has degree `d ∉ {0, 2}`: its closed form needs partial
    /// fractions over the algebraic roots of the denominator.
    DenominatorDegree(usize),
    /// The denominator is a quadratic with real roots, so the integration path may cross a pole.
    RealRoots,
    /// The surd radius could not be signed strictly positive at the configured `sqrt_eps`.
    RadiusNotSigned,
}

/// The road the closed-form angle integrator takes for `ψ′ = P/Q`.
#[derive(Clone, Copy, Debug, PartialEq, Eq, Structural)]
pub enum AngleRoute {
    /// `ψ′ ≡ 0` (a cylinder): the flat angle is exactly zero.
    Zero,
    /// A positive-definite quadratic `Q`: complete the square into a log and an arctan.
    CompleteSquare,
    /// Outside the degree-2 positive-definite core: deferred, with the reason.
    Defer(AngleDefer),
}

/// Choose the road for the reduced `ψ′ = P/Q`, from whether `P` is zero, the degree of `Q`
/// (`None` for the zero polynomial) and the sign (`−1`, `0`, `1`) of the quadratic's
/// discriminant, which is read only when `Q` has degree two. The surd radius's own check comes
/// later, on the road taken.
pub fn angle_route(num_zero: bool, den_degree: Option<usize>, disc_sign: i8) -> (route: AngleRoute)
    requires
        -1 <= disc_sign <= 1,
    ensures
        route == if num_zero {
            AngleRoute::Zero
        } else {
            match den_degree {
                None => AngleRoute::Defer(AngleDefer::DenominatorDegree(0)),
                Some(d) => if d != 2 {
                    AngleRoute::Defer(AngleDefer::DenominatorDegree(d))
                } else if disc_sign >= 0 {
                    AngleRoute::Defer(AngleDefer::RealRoots)
                } else {
                    AngleRoute::CompleteSquare
                },
            }
        },
{
    if num_zero {
        return AngleRoute::Zero;
    }
    match den_degree {
        None => AngleRoute::Defer(AngleDefer::DenominatorDegree(0)),
        Some(d) => {
            if d != 2 {
                AngleRoute::Defer(AngleDefer::DenominatorDegree(d))
            } else if disc_sign >= 0 {
                AngleRoute::Defer(AngleDefer::RealRoots)
            } else {
                AngleRoute::CompleteSquare
            }
        },
    }
}

} // verus!
