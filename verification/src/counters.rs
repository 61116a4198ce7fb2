//! Deterministic **work counters** for the geometry pipeline.
//!
//! Counting operations instead of timing them catches a complexity regression exactly and
//! identically on every machine. A [`WorkCounters`] value holds the six counters; the pipeline
//! keeps one per thread, so parallel work does not perturb another thread's counts.

use vstd::prelude::*;

verus! {

/// The six work counters, each the number of operations of one kind since the last [`reset`].
pub struct WorkCounters {
    /// Cells of the flat directrix `γ` integrated (grid cells plus partial cells).
    pub gamma_cells: u64,
    /// Evaluations of the directrix velocity `γ′` over an interval.
    pub gamma_velocity: u64,
    /// Sub-interval evaluations performed by the p-curve cut certificate.
    pub cut_evals: u64,
    /// σ-inversions served by a seeded, verified bracket.
    pub bracket_seeded: u64,
    /// σ-inversions that fell back to bisection.
    pub bracket_bisected: u64,
    /// σ-slices whose lid was trimmed through the general polygon channel.
    pub poly_slice_clips: u64,
}

/// The kinds of counted operation, one per counter.
#[derive(PartialEq, Eq, Structural, Clone, Copy, Debug)]
pub enum Counted {
    GammaCell,
    GammaVelocity,
    CutEval,
    BracketSeeded,
    BracketBisected,
    PolySliceClip,
}

/// All six counters at zero.
pub open spec fn zeroed() -> WorkCounters {
    WorkCounters {
        gamma_cells: 0,
        gamma_velocity: 0,
        cut_evals: 0,
        bracket_seeded: 0,
        bracket_bisected: 0,
        poly_slice_clips: 0,
    }
}

/// One more, stopping at `u64::MAX` rather than wrapping.
pub open spec fn sat_inc(x: u64) -> u64 {
    if x < u64::MAX {
        (x + 1) as u64
    } else {
        x
    }
}

/// The value of the counter for operations of kind `k`.
pub open spec fn read(c: WorkCounters, k: Counted) -> u64 {
    match k {
        Counted::GammaCell => c.gamma_cells,
        Counted::GammaVelocity => c.gamma_velocity,
        Counted::CutEval => c.cut_evals,
        Counted::BracketSeeded => c.bracket_seeded,
        Counted::BracketBisected => c.bracket_bisected,
        Counted::PolySliceClip => c.poly_slice_clips,
    }
}

/// The counters after one operation of kind `k`: that counter goes up by one (saturating),
/// every other stays as it was.
pub open spec fn bumped(c: WorkCounters, k: Counted) -> WorkCounters {
    match k {
        Counted::GammaCell => WorkCounters { gamma_cells: sat_inc(c.gamma_cells), ..c },
        Counted::GammaVelocity => WorkCounters { gamma_velocity: sat_inc(c.gamma_velocity), ..c },
        Counted::CutEval => WorkCounters { cut_evals: sat_inc(c.cut_evals), ..c },
        Counted::BracketSeeded => WorkCounters { bracket_seeded: sat_inc(c.bracket_seeded), ..c },
        Counted::BracketBisected => WorkCounters {
            bracket_bisected: sat_inc(c.bracket_bisected),
            ..c
        },
        Counted::PolySliceClip => WorkCounters {
            poly_slice_clips: sat_inc(c.poly_slice_clips),
            ..c
        },
    }
}

/// The counters after a run of operations, in order.
pub open spec fn run(c: WorkCounters, ops: Seq<Counted>) -> WorkCounters
    decreases ops.len(),
{
    if ops.len() == 0 {
        c
    } else {
        bumped(run(c, ops.drop_last()), ops.last())
    }
}

/// How many operations of kind `k` a run holds.
pub open spec fn count(ops: Seq<Counted>, k: Counted) -> nat
    decreases ops.len(),
{
    if ops.len() == 0 {
        0
    } else {
        count(ops.drop_last(), k) + if ops.last() == k { 1nat } else { 0nat }
    }
}

impl WorkCounters {
    /// Fresh counters, all zero.
    pub fn new() -> (c: WorkCounters)
        ensures
            c == zeroed(),
    {
        WorkCounters {
            gamma_cells: 0,
            gamma_velocity: 0,
            cut_evals: 0,
            bracket_seeded: 0,
            bracket_bisected: 0,
            poly_slice_clips: 0,
        }
    }
}

/// Zero every counter. Call at the start of a measurement.
pub fn reset(c: &mut WorkCounters)
    ensures
        *final(c) == zeroed(),
{
    c.gamma_cells = 0;
    c.gamma_velocity = 0;
    c.cut_evals = 0;
    c.bracket_seeded = 0;
    c.bracket_bisected = 0;
    c.poly_slice_clips = 0;
}

/// Cells of the flat directrix `γ` integrated since the last reset.
pub fn gamma_cells(c: &WorkCounters) -> (r: u64)
    ensures
        r == read(*c, Counted::GammaCell),
{
    c.gamma_cells
}

/// Evaluations of the directrix velocity `γ′` since the last reset.
pub fn gamma_velocity(c: &WorkCounters) -> (r: u64)
    ensures
        r == read(*c, Counted::GammaVelocity),
{
    c.gamma_velocity
}

/// Sub-interval evaluations of the p-curve cut certificate since the last reset.
pub fn cut_evals(c: &WorkCounters) -> (r: u64)
    ensures
        r == read(*c, Counted::CutEval),
{
    c.cut_evals
}

/// σ-inversions served by a seeded, verified bracket since the last reset.
pub fn bracket_seeded(c: &WorkCounters) -> (r: u64)
    ensures
        r == read(*c, Counted::BracketSeeded),
{
    c.bracket_seeded
}

/// σ-inversions that fell back to bisection since the last reset.
pub fn bracket_bisected(c: &WorkCounters) -> (r: u64)
    ensures
        r == read(*c, Counted::BracketBisected),
{
    c.bracket_bisected
}

/// σ-slices trimmed through the general polygon channel since the last reset.
pub fn poly_slice_clips(c: &WorkCounters) -> (r: u64)
    ensures
        r == read(*c, Counted::PolySliceClip),
{
    c.poly_slice_clips
}

/// Count one evaluation of `γ′`. This counter does not saturate: one more than `u64::MAX`
/// evaluations is outside what it accepts.
pub fn bump_gamma_velocity(c: &mut WorkCounters)
    requires
        old(c).gamma_velocity < u64::MAX,
    ensures
        *final(c) == bumped(*old(c), Counted::GammaVelocity),
        final(c).gamma_velocity == old(c).gamma_velocity + 1,
{
    c.gamma_velocity = c.gamma_velocity + 1;
}

/// Count one σ-slice trimmed through the polygon channel (saturating).
pub fn bump_poly_slice_clip(c: &mut WorkCounters)
    ensures
        *final(c) == bumped(*old(c), Counted::PolySliceClip),
{
    c.poly_slice_clips = c.poly_slice_clips.saturating_add(1);
}

/// Count one σ-inversion served by a seeded bracket (saturating).
pub fn bump_bracket_seeded(c: &mut WorkCounters)
    ensures
        *final(c) == bumped(*old(c), Counted::BracketSeeded),
{
    c.bracket_seeded = c.bracket_seeded.saturating_add(1);
}

/// Count one σ-inversion that fell back to bisection (saturating).
pub fn bump_bracket_bisected(c: &mut WorkCounters)
    ensures
        *final(c) == bumped(*old(c), Counted::BracketBisected),
{
    c.bracket_bisected = c.bracket_bisected.saturating_add(1);
}

/// Count one integrated `γ` cell (saturating).
pub fn bump_gamma_cell(c: &mut WorkCounters)
    ensures
        *final(c) == bumped(*old(c), Counted::GammaCell),
{
    c.gamma_cells = c.gamma_cells.saturating_add(1);
}

/// Count one cut-certificate sub-interval evaluation (saturating).
pub fn bump_cut_eval(c: &mut WorkCounters)
    ensures
        *final(c) == bumped(*old(c), Counted::CutEval),
{
    c.cut_evals = c.cut_evals.saturating_add(1);
}

/// Counters are independent: after a reset and any run of operations, each counter reads
/// exactly how many operations of its own kind the run held (capped at `u64::MAX`), whatever
/// the operations of the other kinds were and however they were interleaved.
pub proof fn lemma_counts_are_exact(ops: Seq<Counted>, k: Counted)
    ensures
        read(run(zeroed(), ops), k) == if count(ops, k) < u64::MAX as nat {
            count(ops, k)
        } else {
            u64::MAX as nat
        },
    decreases ops.len(),
{
    if ops.len() > 0 {
        lemma_counts_are_exact(ops.drop_last(), k);
    }
}

/// An operation of one kind leaves every counter of another kind untouched.
pub proof fn lemma_bump_is_local(c: WorkCounters, k: Counted, j: Counted)
    requires
        k != j,
    ensures
        read(bumped(c, k), j) == read(c, j),
        read(bumped(c, k), k) == sat_inc(read(c, k)),
{
}

} // verus!
