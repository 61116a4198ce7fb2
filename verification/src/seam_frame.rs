//! The seam-frame reparametrization check — the refusals it can report, and its verdict.

use vstd::prelude::*;

verus! {

/// Why a seam frame was refused.
#[derive(Clone, Copy, Debug, PartialEq, Eq, Structural)]
pub enum SeamFrameFault {
    /// The view's frame disagrees with `base ∘ transition` on a frame component:
    /// `0..3` = normal component `x/y/z`, `3..6` = pedal component.
    NotAReparametrization(usize),
    /// The ruling stalls at the seam, so the seam is not a regular point of the view.
    SeamNotRegular,
}

/// The first component that fails to reparametrize, in the order the identities are checked —
/// for each axis `j` in turn, the normal's (reported as `j`) and then the pedal's (`3 + j`).
pub open spec fn first_mismatch(normal_ok: [bool; 3], pedal_ok: [bool; 3]) -> Option<usize> {
    if !normal_ok[0] {
        Some(0)
    } else if !pedal_ok[0] {
        Some(3)
    } else if !normal_ok[1] {
        Some(1)
    } else if !pedal_ok[1] {
        Some(4)
    } else if !normal_ok[2] {
        Some(2)
    } else if !pedal_ok[2] {
        Some(5)
    } else {
        None
    }
}

/// The verdict on a seam frame, from whether each component of the view's normal and pedal is
/// the base's composed with the transition (`normal_ok[j]`, `pedal_ok[j]`), and whether the seam
/// is a regular point of the view (`|n′|² > 0` there). Exactness of a reparametrization is a
/// decidable identity, so there is no undecided outcome: the first failing identity refutes,
/// then an irregular seam; otherwise the frame holds.
pub fn seam_frame_verdict(normal_ok: [bool; 3], pedal_ok: [bool; 3], seam_regular: bool) -> (res: Result<(), SeamFrameFault>)
    ensures
        res == match first_mismatch(normal_ok, pedal_ok) {
            Some(i) => Err(SeamFrameFault::NotAReparametrization(i)),
            None => if seam_regular {
                Ok(())
            } else {
                Err(SeamFrameFault::SeamNotRegular)
            },
        },
{
    let mut j: usize = 0;
    while j < 3
        invariant
            j <= 3,
            forall|i: int| 0 <= i < j ==> normal_ok[i] && pedal_ok[i],
        decreases 3 - j,
    {
        if !normal_ok[j] {
            return Err(SeamFrameFault::NotAReparametrization(j));
        }
        if !pedal_ok[j] {
            return Err(SeamFrameFault::NotAReparametrization(3 + j));
        }
        j = j + 1;
    }
    if seam_regular {
        Ok(())
    } else {
        Err(SeamFrameFault::SeamNotRegular)
    }
}

} // verus!
