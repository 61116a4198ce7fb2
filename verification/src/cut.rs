//! **Cuts** — the structure of a cutter's footprint on a ruled sheet.
//!
//! The cut geometry is exact-rational (µ̂-forms, resultants, Sturm chains); this module holds what
//! is decided from it: how isolated event brackets merge into a partition of the σ-window, how
//! the window is cut into cells between them, and how the crossings of a ruling with the cutter's
//! walls form the stretches it spends inside the cutter. Rationals appear as order keys — integers
//! that compare exactly as the rationals they stand for.

use vstd::prelude::*;
use crate::order::{stable_order, stably_sorted};

verus! {

/// Why the cut-fit check refused a certificate (looseness is not here — a loose fit is
/// unresolved, refined by subdivision, never refuted).
#[derive(Clone, Copy, Debug, PartialEq, Eq, Structural)]
pub enum CutFitFault {
    /// The σ-span is empty or degenerate (`σ_lo ≥ σ_hi`).
    DegenerateSpan,
    /// The surface is malformed: a zero plane normal or zero cylinder axis direction.
    DegenerateSurface,
    /// A rational field had a denominator enclosure straddling zero on a sub-interval.
    PoleInEval,
    /// The traced band is not strictly on the cutter's authored nappe.
    NappeCrossed,
    /// The cutter is not an interior hole over this window.
    ShadowUnbounded,
    /// The cutter's own fill rule could not be read at a sample.
    ShadowUndecided,
    /// Two or more stretches merged **and** split inside one event bracket.
    ShadowEventTangled,
    /// One traced loop lies inside another: the footprint has a hole of its own.
    ShadowNested,
    /// A traced boundary did not close: some vertex carried other than two rails.
    ShadowLoopOpen,
    /// A structure-event Sturm chain failed its own runtime hypothesis check.
    EventChainUnverified,
}

/// Which structural change an event is — the three ways a ruling's stretch structure can change.
#[derive(Clone, Copy, PartialEq, Eq, Debug, Structural)]
pub enum EventKind {
    /// Wall `i`'s own two crossings collide: a stretch is born or dies.
    Tangent(usize),
    /// Walls `i` and `j` cross the ruling at the same µ̂: a merge/split saddle.
    Meet(usize, usize),
    /// Wall `i`'s form degenerates to a line in µ̂ and one crossing escapes to infinity.
    Escape(usize),
}

/// An isolating bracket `[lo, hi]` of one event, as order keys.
#[derive(Clone, Copy, Debug, PartialEq, Eq, Structural)]
pub struct Bracket {
    /// The bracket's lower end.
    pub lo: u64,
    /// The bracket's upper end.
    pub hi: u64,
    /// The event it isolates.
    pub kind: EventKind,
}

/// One σ-bracket in which the ruling's stretch structure changes, and the events in it.
#[derive(Debug)]
pub struct StructureEvent {
    /// The bracket's lower end.
    pub lo: u64,
    /// The bracket's upper end.
    pub hi: u64,
    /// Every event in the bracket, in the order the brackets were given.
    pub kinds: Vec<EventKind>,
}

/// A [`StructureEvent`] as a mathematical value.
pub struct EventView {
    pub lo: u64,
    pub hi: u64,
    pub kinds: Seq<EventKind>,
}

impl View for StructureEvent {
    type V = EventView;

    open spec fn view(&self) -> EventView {
        EventView { lo: self.lo, hi: self.hi, kinds: self.kinds@ }
    }
}

/// The events of a list of structure events, as mathematical values.
pub open spec fn events_view(v: Seq<StructureEvent>) -> Seq<EventView> {
    Seq::new(v.len(), |i: int| v[i]@)
}

/// The larger of two keys.
pub open spec fn kmax(a: u64, b: u64) -> u64 {
    if a < b {
        b
    } else {
        a
    }
}

/// The first `m` brackets merged: a bracket that overlaps or touches the last event joins it
/// (widening it and adding its kind); any other starts a new event.
pub open spec fn merged(found: Seq<Bracket>, m: nat) -> Seq<EventView>
    decreases m,
{
    if m == 0 {
        Seq::empty()
    } else {
        let prev = merged(found, (m - 1) as nat);
        let b = found[m - 1];
        if prev.len() > 0 && b.lo <= prev.last().hi {
            prev.update(
                prev.len() - 1,
                EventView {
                    lo: prev.last().lo,
                    hi: kmax(prev.last().hi, b.hi),
                    kinds: prev.last().kinds.push(b.kind),
                },
            )
        } else {
            prev.push(EventView { lo: b.lo, hi: b.hi, kinds: seq![b.kind] })
        }
    }
}

/// Each bracket is a bracket (`lo ≤ hi`), and they come sorted by their lower end.
pub open spec fn sorted_brackets(found: Seq<Bracket>) -> bool {
    &&& forall|i: int| 0 <= i < found.len() ==> #[trigger] found[i].lo <= found[i].hi
    &&& forall|i: int, j: int| 0 <= i <= j < found.len() ==> #[trigger] found[i].lo <= #[trigger] found[j].lo
}

/// The events are a partition of their span into disjoint brackets, in increasing order.
pub open spec fn disjoint_increasing(ev: Seq<EventView>) -> bool {
    &&& forall|i: int| 0 <= i < ev.len() ==> #[trigger] ev[i].lo <= ev[i].hi
    &&& forall|i: int| 0 <= i < ev.len() - 1 ==> #[trigger] ev[i].hi < ev[i + 1].lo
}

/// The isolating brackets of every event family, merged: overlapping (or touching) brackets
/// become one event zone carrying every kind in it, so the result stays a partition even where
/// two events are closer than the bisection tolerance. The brackets come sorted by their lower
/// end.
pub fn merge_brackets(found: &Vec<Bracket>) -> (out: Vec<StructureEvent>)
    requires
        sorted_brackets(found@),
    ensures
        events_view(out@) == merged(found@, found@.len()),
        disjoint_increasing(events_view(out@)),
{
    let mut out: Vec<StructureEvent> = Vec::new();
    let mut k: usize = 0;
    while k < found.len()
        invariant
            k <= found@.len(),
            sorted_brackets(found@),
            events_view(out@) == merged(found@, k as nat),
            disjoint_increasing(events_view(out@)),
            k > 0 ==> out@.len() > 0 && out@.last().lo <= found@[k - 1].lo,
        decreases found@.len() - k,
    {
        let b = found[k];
        let n = out.len();
        let ghost before = events_view(out@);
        if n > 0 && b.lo <= out[n - 1].hi {
            let mut last = out.pop().unwrap();
            if b.hi > last.hi {
                last.hi = b.hi;
            }
            last.kinds.push(b.kind);
            out.push(last);
            proof {
                assert(events_view(out@) =~= before.update(
                    before.len() - 1,
                    EventView {
                        lo: before.last().lo,
                        hi: kmax(before.last().hi, b.hi),
                        kinds: before.last().kinds.push(b.kind),
                    },
                ));
                assert(found@[k as int].lo <= found@[k as int].hi);
            }
        } else {
            let mut kinds: Vec<EventKind> = Vec::new();
            kinds.push(b.kind);
            proof {
                assert(kinds@ =~= seq![b.kind]);
            }
            out.push(StructureEvent { lo: b.lo, hi: b.hi, kinds });
            proof {
                assert(events_view(out@) =~= before.push(
                    EventView { lo: b.lo, hi: b.hi, kinds: seq![b.kind] },
                ));
                if n > 0 {
                    assert(found@[k - 1].lo <= found@[k as int].lo);
                }
            }
        }
        proof {
            if k > 0 {
                assert(found@[k - 1].lo <= found@[k as int].lo);
            }
        }
        k = k + 1;
    }
    out
}

/// The cells of `[lo, hi]` outside the event brackets, computed on `n` brackets.
pub open spec fn cells_upto(lo: u64, hi: u64, ev: Seq<(u64, u64)>, n: nat) -> (Seq<(u64, u64)>, u64)
    decreases n,
{
    if n == 0 {
        (Seq::empty(), lo)
    } else {
        let (prev, cur) = cells_upto(lo, hi, ev, (n - 1) as nat);
        let e = ev[n - 1];
        let cells = if cur < e.0 {
            prev.push((cur, e.0))
        } else {
            prev
        };
        let cur2 = if e.1 > cur {
            e.1
        } else {
            cur
        };
        (cells, cur2)
    }
}

/// The cells of the span `[lo, hi]` between the event brackets.
pub open spec fn cells_of(lo: u64, hi: u64, ev: Seq<(u64, u64)>) -> Seq<(u64, u64)> {
    let (cells, cur) = cells_upto(lo, hi, ev, ev.len());
    if cur < hi {
        cells.push((cur, hi))
    } else {
        cells
    }
}

/// Non-empty cells starting at or after `lo`, each starting no earlier than the last one ended.
pub open spec fn proper_cells(lo: u64, c: Seq<(u64, u64)>) -> bool {
    &&& forall|i: int| 0 <= i < c.len() ==> lo <= (#[trigger] c[i]).0 < c[i].1
    &&& forall|i: int| 0 <= i < c.len() - 1 ==> (#[trigger] c[i]).1 <= c[i + 1].0
}

/// Merged events are separated pairwise, not just neighbour to neighbour: every event ends before
/// any later one starts — the hypothesis under which the cells between them avoid them.
pub proof fn lemma_events_separated(ev: Seq<EventView>)
    requires
        disjoint_increasing(ev),
    ensures
        forall|a: int, b: int| 0 <= a < b < ev.len() ==> (#[trigger] ev[a]).hi < (#[trigger] ev[b]).lo,
{
    assert forall|a: int, b: int| 0 <= a < b < ev.len() implies (#[trigger] ev[a]).hi < (#[trigger] ev[b]).lo by {
        lemma_separated_from(ev, a, b);
    }
}

proof fn lemma_separated_from(ev: Seq<EventView>, a: int, b: int)
    requires
        disjoint_increasing(ev),
        0 <= a < b < ev.len(),
    ensures
        ev[a].hi < ev[b].lo,
    decreases b - a,
{
    if b > a + 1 {
        lemma_separated_from(ev, a, b - 1);
        assert(ev[b - 1].lo <= ev[b - 1].hi);
        assert(ev[b - 1].hi < ev[b].lo);
    }
}

/// `x` lies in one of the intervals.
pub open spec fn in_some(iv: Seq<(u64, u64)>, x: u64) -> bool {
    exists|k: int| 0 <= k < iv.len() && (#[trigger] iv[k]).0 <= x <= iv[k].1
}

/// The two intervals' interiors meet.
pub open spec fn interiors_meet(a: (u64, u64), b: (u64, u64)) -> bool {
    a.0 < b.1 && b.0 < a.1
}

/// Cut the span `[lo, hi]` at the event brackets: the cells are the gaps between brackets, where
/// the stretch count is constant, from the span's start to its end.
pub fn cells_between(lo: u64, hi: u64, events: &Vec<(u64, u64)>) -> (cells: Vec<(u64, u64)>)
    requires
        forall|i: int| 0 <= i < events@.len() ==> (#[trigger] events@[i]).0 <= events@[i].1,
    ensures
        cells@ == cells_of(lo, hi, events@),
        proper_cells(lo, cells@),
        // Brackets inside the span give cells inside the span.
        (forall|i: int| 0 <= i < events@.len() ==> (#[trigger] events@[i]).1 <= hi) ==> forall|
            i: int,
        |
            0 <= i < cells@.len() ==> (#[trigger] cells@[i]).1 <= hi,
        // The cells and the brackets together cover the span ...
        forall|x: u64| lo <= x < hi ==> in_some(events@, x) || in_some(cells@, x),
        // ... and, the brackets being disjoint and increasing, no cell reaches into a bracket.
        (forall|a: int, b: int| 0 <= a < b < events@.len() ==> (#[trigger] events@[a]).1 < (#[trigger] events@[b]).0)
            ==> forall|c: int, k: int|
            0 <= c < cells@.len() && 0 <= k < events@.len() ==> !interiors_meet(#[trigger] cells@[c], #[trigger] events@[k]),
{
    let mut out: Vec<(u64, u64)> = Vec::new();
    let mut cur = lo;
    let mut k: usize = 0;
    while k < events.len()
        invariant
            k <= events@.len(),
            (out@, cur) == cells_upto(lo, hi, events@, k as nat),
            lo <= cur,
            forall|i: int| 0 <= i < events@.len() ==> (#[trigger] events@[i]).0 <= events@[i].1,
            (forall|i: int| 0 <= i < events@.len() ==> (#[trigger] events@[i]).1 <= hi) ==> cur
                <= hi || cur == lo,
            cur == lo || exists|i: int| 0 <= i < k && cur == (#[trigger] events@[i]).1,
            forall|i: int| 0 <= i < out@.len() ==> lo <= (#[trigger] out@[i]).0 < out@[i].1,
            forall|i: int| 0 <= i < out@.len() ==> (#[trigger] out@[i]).1 <= cur,
            forall|i: int| 0 <= i < out@.len() - 1 ==> (#[trigger] out@[i]).1 <= out@[i + 1].0,
            forall|x: u64| lo <= x < cur ==> in_some(events@, x) || in_some(out@, x),
            forall|i: int| 0 <= i < k ==> (#[trigger] events@[i]).1 <= cur,
            (forall|a: int, b: int| 0 <= a < b < events@.len() ==> (#[trigger] events@[a]).1 < (#[trigger] events@[b]).0)
                ==> forall|c: int, j: int|
                0 <= c < out@.len() && 0 <= j < events@.len() ==> !interiors_meet(#[trigger] out@[c], #[trigger] events@[j]),
        decreases events@.len() - k,
    {
        let e = events[k];
        let ghost out0 = out@;
        let ghost cur0 = cur;
        if cur < e.0 {
            out.push((cur, e.0));
        }
        if e.1 > cur {
            cur = e.1;
        }
        proof {
            assert forall|x: u64| lo <= x < cur implies in_some(events@, x) || in_some(out@, x) by {
                if x < cur0 {
                    if in_some(out0, x) {
                        let c = choose|c: int| 0 <= c < out0.len() && (#[trigger] out0[c]).0 <= x <= out0[c].1;
                        assert(out@[c] == out0[c]);
                    }
                } else if e.0 <= x {
                    assert(events@[k as int].0 <= x <= events@[k as int].1);
                } else {
                    assert(out@[out@.len() - 1] == (cur0, e.0));
                }
            }
            if forall|a: int, b: int| 0 <= a < b < events@.len() ==> (#[trigger] events@[a]).1 < (#[trigger] events@[b]).0 {
                assert forall|c: int, j: int| 0 <= c < out@.len() && 0 <= j < events@.len() implies !interiors_meet(
                    #[trigger] out@[c],
                    #[trigger] events@[j],
                ) by {
                    if c < out0.len() {
                        assert(out@[c] == out0[c]);
                    } else {
                        if j < k {
                            assert(events@[j].1 <= cur0);
                        } else if j > k {
                            assert(events@[k as int].1 < events@[j].0);
                        }
                    }
                }
            }
        }
        k = k + 1;
    }
    let ghost out0 = out@;
    if cur < hi {
        out.push((cur, hi));
    }
    proof {
        assert forall|x: u64| lo <= x < hi implies in_some(events@, x) || in_some(out@, x) by {
            if x < cur {
                if in_some(out0, x) {
                    let c = choose|c: int| 0 <= c < out0.len() && (#[trigger] out0[c]).0 <= x <= out0[c].1;
                    assert(out@[c] == out0[c]);
                }
            } else {
                assert(out@[out@.len() - 1] == (cur, hi));
            }
        }
        if forall|a: int, b: int| 0 <= a < b < events@.len() ==> (#[trigger] events@[a]).1 < (#[trigger] events@[b]).0 {
            assert forall|c: int, j: int| 0 <= c < out@.len() && 0 <= j < events@.len() implies !interiors_meet(
                #[trigger] out@[c],
                #[trigger] events@[j],
            ) by {
                if c < out0.len() {
                    assert(out@[c] == out0[c]);
                } else {
                    assert(events@[j].1 <= cur);
                }
            }
        }
    }
    out
}

/// The stretches of a ruling, computed on the first `m` gaps between consecutive crossings: a
/// gap of positive width whose midpoint is inside the cutter is a stretch, merged into the
/// previous one when the two share their endpoint.
pub open spec fn stretches_upto(keys: Seq<u64>, inside: Seq<bool>, m: nat) -> Seq<(usize, usize)>
    decreases m,
{
    if m == 0 {
        Seq::empty()
    } else {
        let prev = stretches_upto(keys, inside, (m - 1) as nat);
        let k = m - 1;
        if keys[k] < keys[k + 1] && inside[k] {
            if prev.len() > 0 && keys[prev.last().1 as int] == keys[k] {
                prev.update(prev.len() - 1, (prev.last().0, (k + 1) as usize))
            } else {
                prev.push((k as usize, (k + 1) as usize))
            }
        } else {
            prev
        }
    }
}

/// Every stretch of a ruling lying inside a cutter, in increasing µ̂, as index pairs into its
/// sorted wall crossings. `keys` are the crossings' order keys, sorted; `inside[k]` says whether
/// the gap between crossings `k` and `k + 1` is inside the cutter (read at its midpoint; ignored
/// where the gap has no width — two walls crossing at one µ̂ make a corner, not a stretch).
/// Abutting stretches are one: a wall's carrier line can run through the cutter's own interior,
/// and its crossing there is not a boundary point.
fn ruling_stretches(keys: &Vec<u64>, inside: &Vec<bool>) -> (res: Vec<(usize, usize)>)
    requires
        keys@.len() >= 1,
        inside@.len() == keys@.len() - 1,
        forall|i: int, j: int| 0 <= i <= j < keys@.len() ==> #[trigger] keys@[i] <= #[trigger] keys@[j],
    ensures
        res@ == stretches_upto(keys@, inside@, inside@.len()),
        // Each stretch has width, and the stretches are disjoint and increasing: no two abut.
        forall|i: int|
            0 <= i < res@.len() ==> (#[trigger] res@[i]).0 < res@[i].1 < keys@.len() && keys@[res@[i].0 as int]
                < keys@[res@[i].1 as int],
        forall|i: int|
            0 <= i < res@.len() - 1 ==> keys@[(#[trigger] res@[i]).1 as int] < keys@[res@[i + 1].0 as int],
{
    let m = inside.len();
    let mut out: Vec<(usize, usize)> = Vec::new();
    let mut k: usize = 0;
    while k < m
        invariant
            k <= m,
            m == inside@.len(),
            m == keys@.len() - 1,
            forall|i: int, j: int| 0 <= i <= j < keys@.len() ==> #[trigger] keys@[i] <= #[trigger] keys@[j],
            out@ == stretches_upto(keys@, inside@, k as nat),
            forall|i: int|
                0 <= i < out@.len() ==> (#[trigger] out@[i]).0 < out@[i].1 <= k && keys@[out@[i].0 as int]
                    < keys@[out@[i].1 as int],
            forall|i: int|
                0 <= i < out@.len() - 1 ==> keys@[(#[trigger] out@[i]).1 as int] < keys@[out@[i + 1].0 as int],
        decreases m - k,
    {
        if keys[k] < keys[k + 1] && inside[k] {
            let n = out.len();
            if n > 0 && keys[out[n - 1].1] == keys[k] {
                let (a, _) = out[n - 1];
                out.set(n - 1, (a, k + 1));
            } else {
                proof {
                    if n > 0 {
                        assert(out@[n - 1].1 <= k);
                        assert(keys@[out@[n - 1].1 as int] <= keys@[k as int]);
                    }
                }
                out.push((k, k + 1));
            }
        }
        k = k + 1;
    }
    out
}

/// Some gap of width between consecutive crossings has an unreadable fill.
pub open spec fn undecided_gap(keys: Seq<u64>, inside: Seq<Option<bool>>) -> bool {
    exists|k: int| 0 <= k < inside.len() && keys[k] < keys[k + 1] && #[trigger] inside[k] is None
}

/// The gaps read as inside the cutter.
pub open spec fn read_inside(inside: Seq<Option<bool>>) -> Seq<bool> {
    Seq::new(inside.len(), |k: int| inside[k] == Some(true))
}

/// The crossings' keys in the order `p`.
pub open spec fn keys_in(keys: Seq<u64>, p: Seq<usize>) -> Seq<u64> {
    Seq::new(p.len(), |i: int| keys[p[i] as int])
}

/// Stretches given as positions in the order `p`, taken back to the crossings themselves.
pub open spec fn crossings_of(p: Seq<usize>, st: Seq<(usize, usize)>) -> Seq<(usize, usize)> {
    Seq::new(st.len(), |i: int| (p[st[i].0 as int], p[st[i].1 as int]))
}

/// The fills `reads` of the gaps between the crossings in the order `p` came from `fill`: every
/// gap of positive width that no earlier unreadable gap precedes was read between its two
/// crossings.
pub open spec fn fills_read<F: Fn(usize, usize) -> Option<bool>>(
    fill: F,
    sk: Seq<u64>,
    p: Seq<usize>,
    reads: Seq<Option<bool>>,
) -> bool {
    forall|k: int|
        0 <= k < reads.len() && sk[k] < sk[k + 1] && !undecided_gap(sk, reads.subrange(0, k)) ==> call_ensures(
            fill,
            (p[k], p[k + 1]),
            #[trigger] reads[k],
        )
}

/// The stretches of one ruling inside a cutter, with the refusals that survive on a single
/// ruling. `keys` are the ruling's wall crossings as order keys, in the order they were found;
/// they are put in increasing order first (a stable sort). `below` and `above` read the fill on
/// the two unbounded stretches beyond the first and last crossing (with no crossing at all,
/// `below` reads the whole ruling), and `fill(i, j)` reads it on the gap between crossings `i`
/// and `j`. A fill that cannot be read (`None`) is [`CutFitFault::ShadowUndecided`]; material on
/// an unbounded stretch is not an interior hole at all, [`CutFitFault::ShadowUnbounded`]. The
/// fills are consulted in order — below, above, then the gaps of positive width in increasing
/// order — and the first that refuses decides; a gap without width is a corner and is never
/// read. Otherwise the stretches are returned as pairs of crossings: in increasing order, each
/// of positive width, no two abutting.
pub fn ruling_patch_spans<F: Fn(usize, usize) -> Option<bool>>(
    keys: &Vec<u64>,
    below: Option<bool>,
    above: Option<bool>,
    fill: &F,
) -> (res: Result<Vec<(usize, usize)>, CutFitFault>)
    requires
        forall|i: usize, j: usize| call_requires(*fill, (i, j)),
    ensures
        keys@.len() == 0 ==> match below {
            None => res == Err::<Vec<(usize, usize)>, CutFitFault>(CutFitFault::ShadowUndecided),
            Some(true) => res == Err::<Vec<(usize, usize)>, CutFitFault>(CutFitFault::ShadowUnbounded),
            Some(false) => res matches Ok(v) && v@.len() == 0,
        },
        keys@.len() > 0 ==> match (below, above) {
            (None, _) => res == Err::<Vec<(usize, usize)>, CutFitFault>(CutFitFault::ShadowUndecided),
            (Some(true), _) => res == Err::<Vec<(usize, usize)>, CutFitFault>(CutFitFault::ShadowUnbounded),
            (Some(false), None) => res == Err::<Vec<(usize, usize)>, CutFitFault>(CutFitFault::ShadowUndecided),
            (Some(false), Some(true)) => res == Err::<Vec<(usize, usize)>, CutFitFault>(CutFitFault::ShadowUnbounded),
            (Some(false), Some(false)) => exists|p: Seq<usize>, reads: Seq<Option<bool>>|
                {
                    &&& p.len() == keys@.len()
                    &&& #[trigger] stably_sorted(keys@, p)
                    &&& reads.len() == keys@.len() - 1
                    &&& #[trigger] fills_read(*fill, keys_in(keys@, p), p, reads)
                    &&& if undecided_gap(keys_in(keys@, p), reads) {
                        res == Err::<Vec<(usize, usize)>, CutFitFault>(CutFitFault::ShadowUndecided)
                    } else {
                        res matches Ok(v) && v@ == crossings_of(
                            p,
                            stretches_upto(keys_in(keys@, p), read_inside(reads), reads.len()),
                        )
                    }
                },
        },
        // The stretches directly: pairs of crossings, each of positive width, increasing, none
        // abutting the next.
        res matches Ok(v) ==> forall|i: int|
            0 <= i < v@.len() ==> (#[trigger] v@[i]).0 < keys@.len() && v@[i].1 < keys@.len() && keys@[v@[i].0 as int]
                < keys@[v@[i].1 as int],
        res matches Ok(v) ==> forall|i: int|
            0 <= i < v@.len() - 1 ==> keys@[(#[trigger] v@[i]).1 as int] < keys@[v@[i + 1].0 as int],
{
    if keys.len() == 0 {
        return match below {
            None => Err(CutFitFault::ShadowUndecided),
            Some(true) => Err(CutFitFault::ShadowUnbounded),
            Some(false) => Ok(Vec::new()),
        };
    }
    match below {
        None => return Err(CutFitFault::ShadowUndecided),
        Some(true) => return Err(CutFitFault::ShadowUnbounded),
        Some(false) => {},
    }
    match above {
        None => return Err(CutFitFault::ShadowUndecided),
        Some(true) => return Err(CutFitFault::ShadowUnbounded),
        Some(false) => {},
    }
    let n = keys.len();
    let p = stable_order(keys);
    let mut sk: Vec<u64> = Vec::new();
    let mut i: usize = 0;
    while i < n
        invariant
            i <= n,
            n == keys@.len(),
            p@.len() == n,
            stably_sorted(keys@, p@),
            sk@ == keys_in(keys@, p@).subrange(0, i as int),
        decreases n - i,
    {
        sk.push(keys[p[i]]);
        i = i + 1;
    }
    let ghost ks = keys_in(keys@, p@);
    proof {
        assert(sk@ =~= ks);
        // In stable order the keys never decrease.
        assert forall|a: int, b: int| 0 <= a <= b < sk@.len() implies #[trigger] sk@[a] <= #[trigger] sk@[b] by {
            if a < b {
                assert(crate::order::before(keys@, p@[a], p@[b]));
            }
        }
    }
    let m = n - 1;
    let mut read: Vec<Option<bool>> = Vec::new();
    let mut k: usize = 0;
    while k < m
        invariant
            k <= m,
            m == n - 1,
            n == keys@.len(),
            p@.len() == n,
            sk@ == ks,
            ks == keys_in(keys@, p@),
            stably_sorted(keys@, p@),
            forall|i: usize, j: usize| call_requires(*fill, (i, j)),
            below == Some(false) && above == Some(false),
            read@.len() == k,
            forall|j: int| 0 <= j < k && sk@[j] < sk@[j + 1] ==> call_ensures(*fill, (p@[j], p@[j + 1]), #[trigger] read@[j]),
            !undecided_gap(ks, read@),
        decreases m - k,
    {
        if sk[k] < sk[k + 1] {
            let v = fill(p[k], p[k + 1]);
            match v {
                None => {
                    let ghost reads = read@.push(v) + Seq::new((m - k - 1) as nat, |j: int| None::<bool>);
                    proof {
                        assert(reads[k as int] == v);
                        assert(undecided_gap(ks, reads));
                        assert forall|j: int|
                            0 <= j < reads.len() && ks[j] < ks[j + 1] && !undecided_gap(ks, reads.subrange(0, j))
                                implies call_ensures(*fill, (p@[j], p@[j + 1]), #[trigger] reads[j]) by {
                            if j < k {
                                assert(reads[j] == read@[j]);
                            } else if j > k {
                                assert(reads.subrange(0, j)[k as int] == reads[k as int]);
                                assert(undecided_gap(ks, reads.subrange(0, j)));
                            }
                        }
                        assert(fills_read(*fill, ks, p@, reads));
                        assert(reads.len() == keys@.len() - 1);
                        assert(stably_sorted(keys@, p@));
                        assert(ks == keys_in(keys@, p@));
                    }
                    return Err(CutFitFault::ShadowUndecided);
                },
                Some(_) => {},
            }
            let ghost before = read@;
            read.push(v);
            proof {
                assert forall|j: int| 0 <= j < k + 1 && sk@[j] < sk@[j + 1] implies call_ensures(
                    *fill,
                    (p@[j], p@[j + 1]),
                    #[trigger] read@[j],
                ) by {
                    if j < k {
                        assert(read@[j] == before[j]);
                    }
                }
                assert(!undecided_gap(ks, read@)) by {
                    if undecided_gap(ks, read@) {
                        let j = choose|j: int| 0 <= j < read@.len() && ks[j] < ks[j + 1] && #[trigger] read@[j] is None;
                        if j < k {
                            assert(read@[j] == before[j]);
                        }
                    }
                }
            }
        } else {
            let ghost before = read@;
            read.push(None);
            proof {
                assert forall|j: int| 0 <= j < k + 1 && sk@[j] < sk@[j + 1] implies call_ensures(
                    *fill,
                    (p@[j], p@[j + 1]),
                    #[trigger] read@[j],
                ) by {
                    if j < k {
                        assert(read@[j] == before[j]);
                    }
                }
                assert(!undecided_gap(ks, read@)) by {
                    if undecided_gap(ks, read@) {
                        let j = choose|j: int| 0 <= j < read@.len() && ks[j] < ks[j + 1] && #[trigger] read@[j] is None;
                        if j < k {
                            assert(read@[j] == before[j]);
                        }
                    }
                }
            }
        }
        k = k + 1;
    }
    let mut inside: Vec<bool> = Vec::new();
    let mut k: usize = 0;
    while k < m
        invariant
            k <= m,
            m == read@.len(),
            inside@ == read_inside(read@).subrange(0, k as int),
        decreases m - k,
    {
        inside.push(match read[k] {
            Some(b) => b,
            None => false,
        });
        k = k + 1;
    }
    proof {
        assert(inside@ =~= read_inside(read@));
    }
    let st = ruling_stretches(&sk, &inside);
    let mut out: Vec<(usize, usize)> = Vec::new();
    let mut t: usize = 0;
    while t < st.len()
        invariant
            t <= st@.len(),
            p@.len() == n,
            n == keys@.len(),
            sk@ == ks,
            ks == keys_in(keys@, p@),
            stably_sorted(keys@, p@),
            forall|i: int| 0 <= i < st@.len() ==> (#[trigger] st@[i]).0 < st@[i].1 < sk@.len(),
            out@ == crossings_of(p@, st@).subrange(0, t as int),
        decreases st@.len() - t,
    {
        let (a, b) = st[t];
        out.push((p[a], p[b]));
        t = t + 1;
    }
    proof {
        assert(out@ =~= crossings_of(p@, st@));
        assert(fills_read(*fill, ks, p@, read@));
        assert forall|i: int| 0 <= i < out@.len() implies (#[trigger] out@[i]).0 < keys@.len() && out@[i].1 < keys@.len()
            && keys@[out@[i].0 as int] < keys@[out@[i].1 as int] by {
            assert(out@[i] == (p@[st@[i].0 as int], p@[st@[i].1 as int]));
        }
        assert forall|i: int| 0 <= i < out@.len() - 1 implies keys@[(#[trigger] out@[i]).1 as int] < keys@[out@[i
            + 1].0 as int] by {
            assert(out@[i] == (p@[st@[i].0 as int], p@[st@[i].1 as int]));
            assert(out@[i + 1] == (p@[st@[i + 1].0 as int], p@[st@[i + 1].1 as int]));
        }
        assert(stably_sorted(keys@, p@));
    }
    Ok(out)
}

/// The lower ends of the brackets, as keys.
pub open spec fn lower_ends(found: Seq<Bracket>) -> Seq<u64> {
    Seq::new(found.len(), |i: int| found[i].lo)
}

/// The brackets taken in the order `p`.
pub open spec fn reordered(found: Seq<Bracket>, p: Seq<usize>) -> Seq<Bracket> {
    Seq::new(p.len(), |i: int| found[p[i] as int])
}

/// The **structure events** of a window from the isolating brackets of every event family, as
/// found: the brackets are put in order of their lower ends (brackets with equal lower ends keep
/// the order they were found in) and merged ([`merge_brackets`]), so the events partition the
/// window into disjoint, increasing zones however close two events sit.
pub fn structure_partition(found: &Vec<Bracket>) -> (out: Vec<StructureEvent>)
    requires
        forall|i: int| 0 <= i < found@.len() ==> (#[trigger] found@[i]).lo <= found@[i].hi,
    ensures
        exists|p: Seq<usize>|
            p.len() == found@.len() && #[trigger] stably_sorted(lower_ends(found@), p) && events_view(out@)
                == merged(reordered(found@, p), found@.len()),
        disjoint_increasing(events_view(out@)),
{
    let n = found.len();
    let mut keys: Vec<u64> = Vec::new();
    let mut k: usize = 0;
    while k < n
        invariant
            k <= n,
            n == found@.len(),
            keys@ == lower_ends(found@).subrange(0, k as int),
        decreases n - k,
    {
        keys.push(found[k].lo);
        proof {
            assert(keys@ =~= lower_ends(found@).subrange(0, k + 1));
        }
        k = k + 1;
    }
    proof {
        assert(keys@ =~= lower_ends(found@));
    }
    let p = stable_order(&keys);
    let mut sorted: Vec<Bracket> = Vec::new();
    let mut t: usize = 0;
    while t < n
        invariant
            t <= n,
            n == found@.len(),
            p@.len() == n,
            keys@ == lower_ends(found@),
            stably_sorted(keys@, p@),
            sorted@ == reordered(found@, p@).subrange(0, t as int),
        decreases n - t,
    {
        sorted.push(found[p[t]]);
        proof {
            assert(sorted@ =~= reordered(found@, p@).subrange(0, t + 1));
        }
        t = t + 1;
    }
    proof {
        assert(sorted@ =~= reordered(found@, p@));
        assert forall|i: int, j: int| 0 <= i <= j < sorted@.len() implies #[trigger] sorted@[i].lo
            <= #[trigger] sorted@[j].lo by {
            if i < j {
                assert(crate::order::before(keys@, p@[i], p@[j]));
            }
        }
    }
    let out = merge_brackets(&sorted);
    proof {
        assert(stably_sorted(lower_ends(found@), p@));
    }
    out
}

} // verus!
