//! The three-way outcome every certificate check returns.

use vstd::prelude::*;

verus! {

/// A certificate check's outcome: the claim holds (with its evidence), is disproved (with the reason), or
/// could not be settled within the budget (with a handle saying how far off it was).
#[derive(Debug)]
pub enum Verdict<W, F, U> {
    /// The claim holds; the evidence it carries.
    Verified(W),
    /// The claim is false or the input is malformed; why.
    Refuted(F),
    /// Not settled within the budget; how far from settling it was.
    Unresolved(U),
}

} // verus!
