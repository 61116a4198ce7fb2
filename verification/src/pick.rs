//! **Ray-picked frames** and the **span** — which of the surfaces a cast ray meets get cut.
//!
//! The hit positions are exact-rational searches; what this module decides from them is plain:
//! which crossings a [`Span`] reaches, whether crossings along a ray are far enough apart to be
//! ordered, which way a picked frame's normal faces, and which coordinate pair solves a hit best.

use vstd::prelude::*;
use crate::extrude::ExtrudeFault;

verus! {

/// Which way the picked frame's normal faces.
#[derive(Clone, Copy, PartialEq, Eq, Debug, Structural)]
pub enum Facing {
    /// The ray's own direction: the sketch is perpendicular to the cast.
    Ray,
    /// The surface normal at the hit, oriented **against** the ray — facing the caster.
    SurfaceToward,
    /// The surface normal at the hit, oriented **with** the ray.
    SurfaceAway,
}

/// Why a pick was refused. None of these is a tolerance a finer search would clear.
#[derive(Clone, Copy, Debug, PartialEq, Eq, Structural)]
pub enum PickFault {
    /// The ray has no direction.
    DegenerateRay,
    /// The σ-span is empty or reversed.
    DegenerateSpan,
    /// A chart field or the coplanarity residual poled at a scan node.
    PoleInScan,
    /// The ray meets no ruling within the span, or fewer than the requested ordinal.
    NoHit,
    /// The ray runs along a ruling, so there is no isolated hit to pick.
    RayAlongRuling,
    /// The ray grazes: for a surface [`Facing`], the normal is perpendicular to the ray.
    Grazing,
    /// The frame the pick produced is degenerate.
    Degenerate(ExtrudeFault),
}

/// A ray search's refusals before any scan, on the signs of the ray direction's three components
/// and the σ-span `[lo, hi)` (as order keys): a direction of three zeros is
/// [`PickFault::DegenerateRay`], an empty or reversed span [`PickFault::DegenerateSpan`], in
/// that order.
pub fn ray_inputs(dir_signs: [i8; 3], lo: u64, hi: u64) -> (res: Result<(), PickFault>)
    ensures
        res == if dir_signs[0] == 0 && dir_signs[1] == 0 && dir_signs[2] == 0 {
            Err::<(), PickFault>(PickFault::DegenerateRay)
        } else if hi <= lo {
            Err::<(), PickFault>(PickFault::DegenerateSpan)
        } else {
            Ok::<(), PickFault>(())
        },
{
    if dir_signs[0] == 0 && dir_signs[1] == 0 && dir_signs[2] == 0 {
        Err(PickFault::DegenerateRay)
    } else if hi <= lo {
        Err(PickFault::DegenerateSpan)
    } else {
        Ok(())
    }
}

/// How deep a cut reaches, counted in surface crossings along the reference ray.
#[derive(Clone, Copy, PartialEq, Eq, Debug, Structural)]
pub enum Span {
    /// The first surface only.
    ToNext,
    /// The first `k`.
    NextN(usize),
    /// Every surface the ray meets.
    Through,
    /// The half-open ordinal range `start..end`.
    Range(usize, usize),
}

/// Why a span could not be resolved.
#[derive(Clone, Copy, Debug, PartialEq, Eq, Structural)]
pub enum SpanFault {
    /// The cast itself was refused.
    Pick(PickFault),
    /// The coplanarity residual's Sturm chain did not verify, so its root count is untrusted.
    ChainUnverified,
    /// The residual has a repeated root over the span: the ray is tangent to the surface.
    Grazing,
    /// Two crossings lie closer along the ray than the clearance.
    Indistinct,
    /// The requested ordinal reaches past the surfaces the ray actually meets.
    OutOfRange,
}

/// The half-open ordinal range a span names, over `n` crossings.
pub open spec fn span_range(span: Span, n: nat) -> (int, int) {
    match span {
        Span::ToNext => (0, 1),
        Span::NextN(k) => (0, k as int),
        Span::Through => (0, n as int),
        Span::Range(a, b) => (a as int, b as int),
    }
}

/// Select the crossings a [`Span`] reaches: the ordinal range it names, or
/// [`SpanFault::OutOfRange`] when that range is reversed or reaches past the crossings — a span
/// reaching past the material is refused, not clamped.
pub fn select<T>(span: Span, crossings: &[T]) -> (res: Result<&[T], SpanFault>)
    ensures
        res is Ok <==> span_range(span, crossings@.len()).0 <= span_range(span, crossings@.len()).1
            <= crossings@.len(),
        res matches Ok(s) ==> s@ == crossings@.subrange(
            span_range(span, crossings@.len()).0,
            span_range(span, crossings@.len()).1,
        ),
        res matches Err(e) ==> e == SpanFault::OutOfRange,
{
    let n = crossings.len();
    let (a, b) = match span {
        Span::ToNext => (0usize, 1usize),
        Span::NextN(k) => (0usize, k),
        Span::Through => (0usize, n),
        Span::Range(a, b) => (a, b),
    };
    if a > b || b > n {
        return Err(SpanFault::OutOfRange);
    }
    Ok(&crossings[a..b])
}

/// Which vector a picked frame takes as its normal.
#[derive(Clone, Copy, PartialEq, Eq, Debug, Structural)]
pub enum NormalChoice {
    /// The ray's direction.
    RayDirection,
    /// The chart's surface normal as it stands.
    SurfaceNormal,
    /// The chart's surface normal, negated.
    ReversedSurfaceNormal,
}

/// The sign of `n·dir` a surface facing asks for: `−1` facing the caster, `+1` facing away.
pub open spec fn wanted_sign(facing: Facing) -> int {
    if facing == Facing::SurfaceToward {
        -1
    } else {
        1
    }
}

/// The sign of the chosen normal's dot product with the ray, given that of the surface normal.
pub open spec fn oriented_sign(choice: NormalChoice, nd_sign: int) -> int {
    match choice {
        NormalChoice::ReversedSurfaceNormal => -nd_sign,
        _ => nd_sign,
    }
}

/// The normal a picked frame takes for `facing`, given the sign (`−1`, `0` or `1`) of the
/// surface normal's dot product with the ray direction at the hit. A surface facing at a hit
/// where the normal is perpendicular to the ray names no side: the cast is tangent there,
/// [`PickFault::Grazing`].
pub fn facing_normal(facing: Facing, nd_sign: i8) -> (res: Result<NormalChoice, PickFault>)
    requires
        -1 <= nd_sign <= 1,
    ensures
        facing == Facing::Ray ==> res == Ok::<NormalChoice, PickFault>(NormalChoice::RayDirection),
        facing != Facing::Ray && nd_sign == 0 ==> res == Err::<NormalChoice, PickFault>(
            PickFault::Grazing,
        ),
        facing != Facing::Ray && nd_sign != 0 ==> res == Ok::<NormalChoice, PickFault>(
            if nd_sign == wanted_sign(facing) {
                NormalChoice::SurfaceNormal
            } else {
                NormalChoice::ReversedSurfaceNormal
            },
        ),
        // A surface facing is honoured: the chosen normal's side of the ray is the one asked for.
        facing != Facing::Ray ==> (res matches Ok(c) ==> oriented_sign(c, nd_sign as int)
            == wanted_sign(facing)),
{
    match facing {
        Facing::Ray => Ok(NormalChoice::RayDirection),
        Facing::SurfaceToward | Facing::SurfaceAway => {
            if nd_sign == 0 {
                return Err(PickFault::Grazing);
            }
            let want: i8 = if facing == Facing::SurfaceToward {
                -1
            } else {
                1
            };
            if nd_sign == want {
                Ok(NormalChoice::SurfaceNormal)
            } else {
                Ok(NormalChoice::ReversedSurfaceNormal)
            }
        },
    }
}

/// The coordinate pairs a hit is solved on, in the order they are tried: `(0,1)`, `(1,2)`, `(2,0)`.
pub open spec fn coordinate_pair(k: int) -> (int, int) {
    if k == 0 {
        (0, 1)
    } else if k == 1 {
        (1, 2)
    } else {
        (2, 0)
    }
}

/// Which of the three coordinate pairs solves a hit best: the first one whose `|det|` (given by
/// order keys, which compare as the magnitudes do) is largest. Returns the index into
/// `(0,1), (1,2), (2,0)` and the pair itself.
pub fn best_conditioned(mag_keys: [u64; 3]) -> (res: (usize, (usize, usize)))
    ensures
        res.0 < 3,
        forall|k: int| 0 <= k < 3 ==> #[trigger] mag_keys[k] <= mag_keys[res.0 as int],
        forall|k: int| 0 <= k < res.0 ==> #[trigger] mag_keys[k] < mag_keys[res.0 as int],
        res.1.0 as int == coordinate_pair(res.0 as int).0,
        res.1.1 as int == coordinate_pair(res.0 as int).1,
{
    let mut best: usize = 0;
    let mut k: usize = 1;
    while k < 3
        invariant
            1 <= k <= 3,
            best < k,
            forall|j: int| 0 <= j < k ==> #[trigger] mag_keys[j] <= mag_keys[best as int],
            forall|j: int| 0 <= j < best ==> #[trigger] mag_keys[j] < mag_keys[best as int],
        decreases 3 - k,
    {
        if mag_keys[best] < mag_keys[k] {
            best = k;
        }
        k = k + 1;
    }
    let pair = if best == 0 {
        (0usize, 1usize)
    } else if best == 1 {
        (1usize, 2usize)
    } else {
        (2usize, 0usize)
    };
    (best, pair)
}

/// The hit an ordinal names among the hits ordered by ray parameter, or
/// [`PickFault::NoHit`] when the ray meets fewer than `nth + 1` rulings.
pub fn nth_hit<T>(hits: &[T], nth: usize) -> (res: Result<&T, PickFault>)
    ensures
        res is Ok <==> nth < hits@.len(),
        res matches Ok(h) ==> *h == hits@[nth as int],
        res matches Err(e) ==> e == PickFault::NoHit,
{
    if nth < hits.len() {
        Ok(&hits[nth])
    } else {
        Err(PickFault::NoHit)
    }
}

/// `k` is the first of the smallest keys.
pub open spec fn first_min(s: Seq<u64>, k: int) -> bool {
    &&& 0 <= k < s.len()
    &&& forall|i: int| 0 <= i < s.len() ==> s[k] <= #[trigger] s[i]
    &&& forall|i: int| 0 <= i < k ==> s[k] < #[trigger] s[i]
}

/// Whether crossings ordered along a ray can be told apart: `gaps[k]` is the distance along the
/// ray between crossings `k` and `k + 1`, and `clearance` the tolerance, as order keys. `None` when
/// every gap is wider than the clearance, so the order is resolvable; otherwise the first
/// narrowest gap, which the caller reports — two surfaces nearer than the clearance are not two
/// surfaces at this tolerance.
pub fn tightest_gap(gaps: &Vec<u64>, clearance: u64) -> (res: Option<usize>)
    ensures
        res is None <==> forall|i: int| 0 <= i < gaps@.len() ==> clearance < #[trigger] gaps@[i],
        res matches Some(k) ==> first_min(gaps@, k as int) && gaps@[k as int] <= clearance,
{
    let n = gaps.len();
    if n == 0 {
        return None;
    }
    let mut best: usize = 0;
    let mut k: usize = 1;
    while k < n
        invariant
            1 <= k <= n,
            n == gaps@.len(),
            best < k,
            forall|i: int| 0 <= i < k ==> gaps@[best as int] <= #[trigger] gaps@[i],
            forall|i: int| 0 <= i < best ==> gaps@[best as int] < #[trigger] gaps@[i],
        decreases n - k,
    {
        if gaps[k] < gaps[best] {
            best = k;
        }
        k = k + 1;
    }
    if gaps[best] <= clearance {
        Some(best)
    } else {
        None
    }
}

} // verus!
