//! Cutter walls swept from profile edges — the refusals a wall build can report.

use vstd::prelude::*;

verus! {

/// Why a wall could not be built. Every one of these is a **refusal** — the authored data does not
/// describe a surface — never a tolerance that a finer subdivision would clear.
#[derive(Clone, Copy, Debug, PartialEq, Eq, Structural)]
pub enum ExtrudeFault {
    /// The apex is `[0 : 0]`, which is not a point of projective space.
    DegenerateApex,
    /// The profile edge is degenerate: a segment with coincident endpoints, or an ellipse whose two
    /// conjugate semi-axes are parallel (so it spans no plane).
    DegenerateProfile,
    /// The generatrices through the edge do not sweep a surface: the apex lies on the segment's
    /// line, or (for `w = 0`) the extrusion direction is parallel to the segment.
    DegenerateWall,
    /// The apex lies in the profile's own plane: a finite apex there sees the profile edge-on and
    /// casts no cone; a direction there extrudes parallel to the plane.
    ApexInPlane,
    /// A frame has no in-plane axis: the ruling it is built from is parallel to its normal.
    DegenerateFrame,
}

} // verus!
