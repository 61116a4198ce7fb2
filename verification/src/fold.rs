//! The **fold** — flat points carried back onto the developable. The preimage search is exact
//! rational interval work; what this module decides is which σ sub-domain a point folds within,
//! into which pieces a domain is split so the bisection stays faithful, how each two-probe
//! bisection round narrows its bracket, and which of several candidate preimages, if any, is
//! certified.

use vstd::prelude::*;

verus! {

/// Why the fold-inversion refused a flat point.
#[derive(Clone, Copy, Debug, PartialEq, Eq, Structural)]
pub enum FoldFault {
    /// The chart is not a canonical arctangent cone.
    NotACone,
    /// The σ-domain is empty or degenerate (`σ_lo ≥ σ_hi`).
    DegenerateDomain,
    /// The flat point's direction angle lies outside the gore's angular range.
    OutOfGore,
    /// A field denominator straddled zero on the enclosure — a pole risk.
    PoleInEval,
    /// A loop to fold was handed no vertices.
    EmptyLoop,
    /// The chart slice handed to the piecewise fold is not parallel to the gluing's regions.
    ChartMismatch,
    /// Two disjoint σ-enclosures both round-trip within the DRC: the preimage is not unique.
    AmbiguousPreimage,
}

/// Which part of a σ-domain a flat point folds within.
#[derive(Clone, Copy, PartialEq, Eq, Debug, Structural)]
pub enum FoldSide {
    /// The whole domain: it is one-sided already.
    Whole,
    /// `[0, σ_hi]` of a two-sided domain.
    NonNegative,
    /// `[σ_lo, 0]` of a two-sided domain.
    NonPositive,
}

/// The **σ=0 split**: a two-sided domain (`σ_lo < 0 < σ_hi`) is folded within one sign of σ,
/// chosen by the sign of the flat height `y` (`y ≥ 0` ⇒ `[0, σ_hi]`, `y < 0` ⇒ `[σ_lo, 0]`); a
/// one-sided domain passes through unchanged. Takes the signs (`−1`, `0`, `1`) of `σ_lo`, `σ_hi`
/// and `y`.
pub fn split_domain(lo_sign: i8, hi_sign: i8, y_sign: i8) -> (side: FoldSide)
    requires
        -1 <= lo_sign <= 1,
        -1 <= hi_sign <= 1,
        -1 <= y_sign <= 1,
    ensures
        side == if lo_sign < 0 && hi_sign > 0 {
            if y_sign >= 0 {
                FoldSide::NonNegative
            } else {
                FoldSide::NonPositive
            }
        } else {
            FoldSide::Whole
        },
{
    if lo_sign < 0 && hi_sign > 0 {
        if y_sign >= 0 {
            FoldSide::NonNegative
        } else {
            FoldSide::NonPositive
        }
    } else {
        FoldSide::Whole
    }
}

/// One candidate preimage of a flat point: its round-trip error and its σ-enclosure as order
/// keys (which compare as the rationals do), and whether it passed the DRC (`ε < clearance/2`).
#[derive(Clone, Copy, Debug, PartialEq, Eq, Structural)]
pub struct Candidate {
    /// Order key of the round-trip error `ε`.
    pub eps: u64,
    /// Order key of the σ-enclosure's lower end.
    pub sigma_lo: u64,
    /// Order key of the σ-enclosure's upper end.
    pub sigma_hi: u64,
    /// Whether `ε` passed the DRC.
    pub admissible: bool,
}

/// Two σ-enclosures with a gap between them.
pub open spec fn disjoint(a: Candidate, b: Candidate) -> bool {
    a.sigma_hi < b.sigma_lo || b.sigma_hi < a.sigma_lo
}

/// Two DRC-passing candidates separated by a σ-gap: two genuine preimages.
pub open spec fn ambiguous(c: Seq<Candidate>) -> bool {
    exists|i: int, j: int|
        0 <= i < j < c.len() && c[i].admissible && c[j].admissible && #[trigger] disjoint(
            c[i],
            c[j],
        )
}

/// `k` is the first candidate of least `ε`.
pub open spec fn first_min_eps(c: Seq<Candidate>, k: int) -> bool {
    &&& 0 <= k < c.len()
    &&& forall|i: int| 0 <= i < c.len() ==> c[k].eps <= #[trigger] c[i].eps
    &&& forall|i: int| 0 <= i < k ==> c[k].eps < #[trigger] c[i].eps
}

/// The piecewise fold's choice among candidate preimages (every region × faithfulness piece, in
/// search order): [`FoldFault::AmbiguousPreimage`] when two DRC-passing candidates have disjoint
/// σ-enclosures (a min-ε pick between two genuine preimages would be arbitrary); otherwise the
/// first candidate of least `ε`; [`FoldFault::OutOfGore`] when there is none.
pub fn choose_preimage(cands: &Vec<Candidate>) -> (res: Result<usize, FoldFault>)
    ensures
        ambiguous(cands@) ==> res == Err::<usize, FoldFault>(FoldFault::AmbiguousPreimage),
        !ambiguous(cands@) && cands@.len() == 0 ==> res == Err::<usize, FoldFault>(
            FoldFault::OutOfGore,
        ),
        !ambiguous(cands@) && cands@.len() > 0 ==> (res matches Ok(k) && first_min_eps(
            cands@,
            k as int,
        )),
{
    let n = cands.len();
    let mut best: Option<usize> = None;
    let mut k: usize = 0;
    while k < n
        invariant
            k <= n,
            n == cands@.len(),
            k == 0 <==> best is None,
            best matches Some(b) ==> b < k && first_min_eps(cands@.subrange(0, k as int), b as int),
        decreases n - k,
    {
        let better = match best {
            None => true,
            Some(b) => cands[k].eps < cands[b].eps,
        };
        if better {
            best = Some(k);
        }
        proof {
            let s1 = cands@.subrange(0, k + 1);
            let s0 = cands@.subrange(0, k as int);
            assert forall|i: int| 0 <= i < k implies #[trigger] s1[i] == s0[i] by {}
        }
        k = k + 1;
    }
    assert(cands@.subrange(0, n as int) == cands@);
    let mut i: usize = 0;
    while i < n
        invariant
            i <= n,
            n == cands@.len(),
            forall|a: int, b: int|
                0 <= a < i && a < b < n && cands@[a].admissible && cands@[b].admissible
                    ==> !#[trigger] disjoint(cands@[a], cands@[b]),
        decreases n - i,
    {
        let mut j: usize = i + 1;
        while j < n
            invariant
                i < n,
                i + 1 <= j <= n,
                n == cands@.len(),
                forall|a: int, b: int|
                    0 <= a < i && a < b < n && cands@[a].admissible && cands@[b].admissible
                        ==> !#[trigger] disjoint(cands@[a], cands@[b]),
                forall|b: int|
                    i < b < j && cands@[i as int].admissible && cands@[b].admissible
                        ==> !#[trigger] disjoint(cands@[i as int], cands@[b]),
            decreases n - j,
        {
            let (a, b) = (&cands[i], &cands[j]);
            if a.admissible && b.admissible && (a.sigma_hi < b.sigma_lo || b.sigma_hi < a.sigma_lo) {
                assert(disjoint(cands@[i as int], cands@[j as int]));
                return Err(FoldFault::AmbiguousPreimage);
            }
            j = j + 1;
        }
        i = i + 1;
    }
    match best {
        Some(b) => Ok(b),
        None => Err(FoldFault::OutOfGore),
    }
}

/// The grid a faithfulness split works on: a one-sided σ-domain is `[0, FAITHFUL_GRID]` grid steps,
/// and halving it at most 24 times reaches one step.
pub const FAITHFUL_GRID: u64 = 0x100_0000;

/// The pieces tile `[a, b]`: non-empty, in order, each starting where the previous one ends.
pub open spec fn tiles(p: Seq<(u64, u64)>, a: u64, b: u64) -> bool {
    &&& p.len() > 0
    &&& p[0].0 == a
    &&& p.last().1 == b
    &&& forall|i: int| 0 <= i < p.len() ==> (#[trigger] p[i]).0 < p[i].1
    &&& forall|i: int| 0 <= i < p.len() - 1 ==> (#[trigger] p[i]).1 == p[i + 1].0
}

/// A piece is kept: the span test passed on it, or it is one grid step wide (the depth cap).
pub open spec fn kept<F: Fn(u64, u64) -> bool>(ok: F, piece: (u64, u64)) -> bool {
    call_ensures(ok, (piece.0, piece.1), true) || piece.1 - piece.0 == 1
}

/// `p` is a cell of the halving of `[a, b]` reached through failed tests only: the test failed on
/// `[a, b]`, and `p` is one of its halves or lies in one and is reached the same way there.
pub open spec fn split_below<F: Fn(u64, u64) -> bool>(ok: F, a: u64, b: u64, p: (u64, u64)) -> bool
    decreases b - a,
{
    if b <= a + 1 {
        false
    } else {
        let mid = (a + (b - a) / 2) as u64;
        &&& call_ensures(ok, (a, b), false)
        &&& {
            ||| p == (a, mid)
            ||| p == (mid, b)
            ||| p.1 <= mid && split_below(ok, a, mid, p)
            ||| mid <= p.0 && split_below(ok, mid, b, p)
        }
    }
}

proof fn lemma_tiles_join(p: Seq<(u64, u64)>, q: Seq<(u64, u64)>, a: u64, m: u64, b: u64)
    requires
        tiles(p, a, m),
        tiles(q, m, b),
    ensures
        tiles(p + q, a, b),
{
    let r = p + q;
    assert forall|i: int| 0 <= i < r.len() - 1 implies (#[trigger] r[i]).1 == r[i + 1].0 by {
        if i < p.len() - 1 {
        } else if i == p.len() - 1 {
            assert(r[i] == p.last());
            assert(r[i + 1] == q[0]);
        } else {
            assert(r[i] == q[i - p.len()]);
        }
    }
    assert forall|i: int| 0 <= i < r.len() implies (#[trigger] r[i]).0 < r[i].1 by {
        if i >= p.len() {
            assert(r[i] == q[i - p.len()]);
        }
    }
}

/// Split `[a, b]` (grid steps of a one-sided σ-domain) into pieces on which the bisection is
/// faithful: a piece is kept when `ok` passes on it — the caller's certified ψ-span test — or it
/// is one step wide, and halved otherwise. The pieces come out in order, appended to `out`.
pub fn split_faithful<F: Fn(u64, u64) -> bool>(a: u64, b: u64, ok: &F, out: &mut Vec<(u64, u64)>)
    requires
        a < b,
        forall|x: u64, y: u64| call_requires(*ok, (x, y)),
    ensures
        final(out)@.len() > old(out)@.len(),
        final(out)@.subrange(0, old(out)@.len() as int) == old(out)@,
        tiles(final(out)@.subrange(old(out)@.len() as int, final(out)@.len() as int), a, b),
        forall|i: int| old(out)@.len() <= i < final(out)@.len() ==> kept(*ok, #[trigger] final(out)@[i]),
        // A piece is `[a, b]` itself, or a half reached only through failed tests.
        forall|i: int|
            old(out)@.len() <= i < final(out)@.len() ==> a <= (#[trigger] final(out)@[i]).0 && final(out)@[i].1 <= b
                && (final(out)@[i] == (a, b) || split_below(*ok, a, b, final(out)@[i])),
    decreases b - a,
{
    let pass = ok(a, b);
    if pass || b - a == 1 {
        out.push((a, b));
        proof {
            let piece = out@.subrange(old(out)@.len() as int, out@.len() as int);
            assert(piece =~= seq![(a, b)]);
        }
        return;
    }
    let mid = a + (b - a) / 2;
    let ghost before = out@;
    split_faithful(a, mid, ok, out);
    let ghost middle = out@;
    split_faithful(mid, b, ok, out);
    proof {
        lemma_split_join(before, middle, out@, a, mid, b, *ok);
        assert forall|i: int| before.len() <= i < out@.len() implies a <= (#[trigger] out@[i]).0 && out@[i].1 <= b
            && (out@[i] == (a, b) || split_below(*ok, a, b, out@[i])) by {
            if i < middle.len() {
                assert(out@[i] == middle[i]) by {
                    assert(out@.subrange(0, middle.len() as int)[i] == middle[i]);
                }
            }
            assert(split_below(*ok, a, b, out@[i]));
        }
    }
}

proof fn lemma_split_join<F: Fn(u64, u64) -> bool>(
    before: Seq<(u64, u64)>,
    middle: Seq<(u64, u64)>,
    after: Seq<(u64, u64)>,
    a: u64,
    mid: u64,
    b: u64,
    ok: F,
)
    requires
        before.len() < middle.len() < after.len(),
        middle.subrange(0, before.len() as int) == before,
        after.subrange(0, middle.len() as int) == middle,
        tiles(middle.subrange(before.len() as int, middle.len() as int), a, mid),
        tiles(after.subrange(middle.len() as int, after.len() as int), mid, b),
        forall|i: int| before.len() <= i < middle.len() ==> kept(ok, #[trigger] middle[i]),
        forall|i: int| middle.len() <= i < after.len() ==> kept(ok, #[trigger] after[i]),
    ensures
        after.subrange(0, before.len() as int) == before,
        tiles(after.subrange(before.len() as int, after.len() as int), a, b),
        forall|i: int| before.len() <= i < after.len() ==> kept(ok, #[trigger] after[i]),
{
    let left = middle.subrange(before.len() as int, middle.len() as int);
    let right = after.subrange(middle.len() as int, after.len() as int);
    lemma_tiles_join(left, right, a, mid, b);
    assert(after.subrange(before.len() as int, after.len() as int) =~= left + right) by {
        assert forall|i: int| 0 <= i < left.len() implies after[before.len() + i] == left[i] by {
            assert(after[before.len() + i] == middle[before.len() + i]);
        }
    }
    assert(after.subrange(0, before.len() as int) =~= before) by {
        assert forall|i: int| 0 <= i < before.len() implies after[i] == before[i] by {
            assert(after[i] == middle[i]);
        }
    }
    assert forall|i: int| before.len() <= i < after.len() implies kept(ok, #[trigger] after[i]) by {
        if i < middle.len() {
            assert(after[i] == middle[i]);
        }
    }
}

/// The **faithfulness pieces** of a one-sided σ-domain, as grid steps of `[0, FAITHFUL_GRID]`:
/// in order, tiling the domain, each passing the span test or at the depth cap, and each the
/// whole domain or a half reached only through cells on which the test failed.
pub fn faithful_split<F: Fn(u64, u64) -> bool>(ok: &F) -> (pieces: Vec<(u64, u64)>)
    requires
        forall|x: u64, y: u64| call_requires(*ok, (x, y)),
    ensures
        tiles(pieces@, 0, FAITHFUL_GRID),
        forall|i: int| 0 <= i < pieces@.len() ==> kept(*ok, #[trigger] pieces@[i]),
        forall|i: int|
            0 <= i < pieces@.len() ==> #[trigger] pieces@[i] == (0u64, FAITHFUL_GRID) || split_below(
                *ok,
                0,
                FAITHFUL_GRID,
                pieces@[i],
            ),
{
    let mut pieces: Vec<(u64, u64)> = Vec::new();
    split_faithful(0, FAITHFUL_GRID, ok, &mut pieces);
    proof {
        assert(pieces@.subrange(0, pieces@.len() as int) =~= pieces@);
    }
    pieces
}

/// What an enclosure of the signed area (decreasing in σ) says at a probe: definitely negative —
/// the root lies before the probe; definitely positive — after it; or it straddles zero, so the
/// root lies within enclosure width of the probe, on either side.
#[derive(Clone, Copy, PartialEq, Eq, Debug, Structural)]
pub enum ProbeSign {
    /// The enclosure is below zero.
    Below,
    /// The enclosure contains zero.
    Straddle,
    /// The enclosure is above zero.
    Above,
}

/// A point of the bracket `[lo, hi]` of a two-probe round: its ends and its probes at `2/7` and
/// `5/7` of the way across.
#[derive(Clone, Copy, PartialEq, Eq, Debug, Structural)]
pub enum Mark {
    /// The bracket's lower end.
    Lo,
    /// The probe at `2/7`.
    First,
    /// The probe at `5/7`.
    Second,
    /// The bracket's upper end.
    Hi,
}

/// What a two-probe round does next.
#[derive(Clone, Copy, PartialEq, Eq, Debug, Structural)]
pub enum ProbeStep {
    /// Narrow the bracket to the two marks.
    Narrow(Mark, Mark),
    /// Evaluate the second probe.
    ProbeSecond,
    /// Both probes straddle: the bracket is at the enclosures' resolution.
    Converged,
}

/// A mark's place across the bracket, in sevenths.
pub open spec fn at(m: Mark) -> int {
    match m {
        Mark::Lo => 0,
        Mark::First => 2,
        Mark::Second => 5,
        Mark::Hi => 7,
    }
}

/// The least place the root can have, in sevenths, given the probes' definite signs.
pub open spec fn least_root(s1: ProbeSign, s2: ProbeSign) -> int {
    if s2 == ProbeSign::Above {
        5
    } else if s1 == ProbeSign::Above {
        2
    } else {
        0
    }
}

/// The greatest place the root can have, in sevenths, given the probes' definite signs.
pub open spec fn greatest_root(s1: ProbeSign, s2: ProbeSign) -> int {
    if s1 == ProbeSign::Below {
        2
    } else if s2 == ProbeSign::Below {
        5
    } else {
        7
    }
}

/// The first probe of a **two-probe** bisection round: a root certainly before the probe narrows
/// the bracket to `[lo, first]`; otherwise the second probe is needed.
pub fn after_first_probe(s1: ProbeSign) -> (step: ProbeStep)
    ensures
        step == if s1 == ProbeSign::Below {
            ProbeStep::Narrow(Mark::Lo, Mark::First)
        } else {
            ProbeStep::ProbeSecond
        },
        // The narrowed bracket still holds every root the probe allows.
        step matches ProbeStep::Narrow(a, b) ==> at(a) <= least_root(s1, ProbeSign::Straddle)
            && greatest_root(s1, ProbeSign::Straddle) <= at(b) && at(b) - at(a) < 7,
{
    if s1 == ProbeSign::Below {
        ProbeStep::Narrow(Mark::Lo, Mark::First)
    } else {
        ProbeStep::ProbeSecond
    }
}

/// The second probe of a two-probe round, after a first probe that did not place the root before
/// it: a probe whose enclosure straddles zero does not end the search while the other probe is
/// definite — only both straddling means the bracket is at the enclosures' resolution.
pub fn after_second_probe(s1: ProbeSign, s2: ProbeSign) -> (step: ProbeStep)
    requires
        s1 != ProbeSign::Below,
    ensures
        step == if s2 == ProbeSign::Above {
            ProbeStep::Narrow(Mark::Second, Mark::Hi)
        } else if s1 == ProbeSign::Above && s2 == ProbeSign::Below {
            ProbeStep::Narrow(Mark::First, Mark::Second)
        } else if s1 == ProbeSign::Above {
            ProbeStep::Narrow(Mark::First, Mark::Hi)
        } else if s2 == ProbeSign::Below {
            ProbeStep::Narrow(Mark::Lo, Mark::Second)
        } else {
            ProbeStep::Converged
        },
        // The narrowed bracket holds every root the probes allow, and is narrower.
        step matches ProbeStep::Narrow(a, b) ==> at(a) <= least_root(s1, s2) && greatest_root(s1, s2)
            <= at(b) && at(b) - at(a) < 7,
        step is Converged <==> s1 == ProbeSign::Straddle && s2 == ProbeSign::Straddle,
{
    match (s1, s2) {
        (_, ProbeSign::Above) => ProbeStep::Narrow(Mark::Second, Mark::Hi),
        (ProbeSign::Above, ProbeSign::Below) => ProbeStep::Narrow(Mark::First, Mark::Second),
        (ProbeSign::Above, ProbeSign::Straddle) => ProbeStep::Narrow(Mark::First, Mark::Hi),
        (_, ProbeSign::Below) => ProbeStep::Narrow(Mark::Lo, Mark::Second),
        _ => ProbeStep::Converged,
    }
}

} // verus!
