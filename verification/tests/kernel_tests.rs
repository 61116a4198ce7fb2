use develop::anchor::{anchor_verdict, AnchorDevFault, AnchorFault};
use develop::cone::{angle_route, AngleDefer, AngleRoute};
use develop::cut::{cells_between, merge_brackets, Bracket, CutFitFault, EventKind};
use develop::drc::{certify, drc, worst_bound, Sample};
use develop::fold::{faithful_split, FAITHFUL_GRID};
use develop::order::{distinct_within, stable_order};
use develop::pick::tightest_gap;
use develop::seam_frame::{seam_frame_verdict, SeamFrameFault};
use develop::verdict::Verdict;

#[test]
fn the_drc_verifies_strictly_under_half_the_clearance() {
    assert!(matches!(drc(3, 5), Verdict::Verified(3)));
    assert!(matches!(drc(5, 5), Verdict::Unresolved(5)));
    assert!(matches!(drc(9, 5), Verdict::Unresolved(9)));
}

#[test]
fn the_worst_bound_covers_every_sample() {
    let s: Vec<Sample<CutFitFault>> = vec![Sample::Bound(4), Sample::Bound(9), Sample::Bound(2)];
    assert_eq!(worst_bound(0, &s), Ok(9));
    assert_eq!(worst_bound(12, &s), Ok(12));
    let none: Vec<Sample<CutFitFault>> = vec![];
    assert_eq!(worst_bound(7, &none), Ok(7));
}

#[test]
fn the_first_refused_sample_refuses_the_certificate() {
    let s = vec![
        Sample::Bound(4),
        Sample::Fault(CutFitFault::PoleInEval),
        Sample::Fault(CutFitFault::NappeCrossed),
    ];
    assert_eq!(worst_bound(0, &s), Err(CutFitFault::PoleInEval));
    assert!(matches!(certify(0, &s, 100), Verdict::Refuted(CutFitFault::PoleInEval)));
}

#[test]
fn a_certificate_is_gated_by_the_drc() {
    let s: Vec<Sample<CutFitFault>> = vec![Sample::Bound(4), Sample::Bound(6)];
    assert!(matches!(certify(0, &s, 7), Verdict::Verified(6)));
    assert!(matches!(certify(0, &s, 6), Verdict::Unresolved(6)));
    assert!(matches!(certify(8, &s, 7), Verdict::Unresolved(8)));
}

#[test]
fn the_stable_order_keeps_equal_keys_in_place() {
    assert_eq!(stable_order(&vec![3, 1, 2, 1, 3]), vec![1, 3, 2, 0, 4]);
    assert_eq!(stable_order(&vec![]), Vec::<usize>::new());
    assert_eq!(stable_order(&vec![5, 5, 5]), vec![0, 1, 2]);
}

#[test]
fn sampled_values_are_kept_once_in_order_within_the_span() {
    // Keys 7 and 0 fall outside [1, 6]; 4 is sampled twice, and the first sample is kept.
    let keys = vec![4, 7, 2, 4, 0, 6, 2];
    assert_eq!(distinct_within(&keys, 1, 6), vec![2, 0, 5]);
    assert_eq!(distinct_within(&keys, 8, 9), Vec::<usize>::new());
}

#[test]
fn an_unresolvable_crossing_order_reports_its_tightest_gap() {
    assert_eq!(tightest_gap(&vec![9, 4, 7, 4], 5), Some(1));
    assert_eq!(tightest_gap(&vec![9, 6, 7], 5), None);
    assert_eq!(tightest_gap(&vec![9, 5], 5), Some(1));
    assert_eq!(tightest_gap(&vec![], 5), None);
}

#[test]
fn a_span_that_passes_keeps_the_whole_domain() {
    assert_eq!(faithful_split(&|_: u64, _: u64| true), vec![(0, FAITHFUL_GRID)]);
}

#[test]
fn a_wide_span_is_halved_until_it_passes() {
    let quarter = FAITHFUL_GRID / 4;
    let half = FAITHFUL_GRID / 2;
    let pieces = faithful_split(&|a: u64, b: u64| a >= half || b - a <= quarter);
    assert_eq!(pieces, vec![(0, quarter), (quarter, half), (half, FAITHFUL_GRID)]);
}

#[test]
fn the_split_stops_at_one_grid_step() {
    // Only the first step ever fails: it is halved down to the cap and kept anyway.
    let pieces = faithful_split(&|a: u64, _: u64| a > 0);
    assert_eq!(pieces.len(), 25);
    assert_eq!(pieces[0], (0, 1));
    assert_eq!(pieces[1], (1, 2));
    assert_eq!(pieces[24], (FAITHFUL_GRID / 2, FAITHFUL_GRID));
}

#[test]
fn the_anchor_needs_both_halves_on_one_footprint() {
    let ok = anchor_verdict::<u8, &str, u16, i32>(
        Verdict::Verified(1),
        Some((9, 2)),
        (2, 9),
        Verdict::Verified(3),
        0,
    );
    assert!(matches!(ok, Verdict::Verified((1, 3))));
    let off = anchor_verdict::<u8, &str, u16, i32>(
        Verdict::Verified(1),
        Some((2, 8)),
        (2, 9),
        Verdict::Verified(3),
        0,
    );
    assert!(matches!(off, Verdict::Refuted(AnchorFault::SpanMismatch)));
    let pole = anchor_verdict::<u8, &str, u16, i32>(
        Verdict::Verified(1),
        None,
        (2, 9),
        Verdict::Verified(3),
        0,
    );
    assert!(matches!(pole, Verdict::Refuted(AnchorFault::SpanMismatch)));
    let exact = anchor_verdict::<u8, &str, u16, i32>(
        Verdict::Refuted("footprint"),
        Some((2, 9)),
        (2, 9),
        Verdict::Refuted(AnchorDevFault::PoleInEval),
        0,
    );
    assert!(matches!(exact, Verdict::Refuted(AnchorFault::Exact("footprint"))));
    let lift = anchor_verdict::<u8, &str, u16, i32>(
        Verdict::Verified(1),
        Some((2, 9)),
        (2, 9),
        Verdict::Refuted(AnchorDevFault::DegenerateSpan),
        0,
    );
    assert!(matches!(lift, Verdict::Refuted(AnchorFault::Transcendental(AnchorDevFault::DegenerateSpan))));
    let loose = anchor_verdict::<u8, &str, u16, i32>(
        Verdict::Verified(1),
        Some((2, 9)),
        (2, 9),
        Verdict::Unresolved(40),
        0,
    );
    assert!(matches!(loose, Verdict::Unresolved(40)));
}

#[test]
fn cells_and_merged_events_tile_the_span() {
    let found = vec![
        Bracket { lo: 2, hi: 4, kind: EventKind::Tangent(0) },
        Bracket { lo: 3, hi: 5, kind: EventKind::Tangent(1) },
        Bracket { lo: 8, hi: 9, kind: EventKind::Escape(0) },
    ];
    let ev = merge_brackets(&found);
    let brackets: Vec<(u64, u64)> = ev.iter().map(|e| (e.lo, e.hi)).collect();
    assert_eq!(brackets, vec![(2, 5), (8, 9)]);
    let cells = cells_between(0, 12, &brackets);
    assert_eq!(cells, vec![(0, 2), (5, 8), (9, 12)]);
    for x in 0..12u64 {
        let in_event = brackets.iter().any(|b| b.0 <= x && x <= b.1);
        let in_cell = cells.iter().any(|c| c.0 <= x && x <= c.1);
        assert!(in_event || in_cell);
    }
}

#[test]
fn the_angle_integrator_defers_outside_the_quadratic_core() {
    assert_eq!(angle_route(true, Some(3), 1), AngleRoute::Zero);
    assert_eq!(angle_route(false, Some(2), -1), AngleRoute::CompleteSquare);
    assert_eq!(angle_route(false, Some(3), -1), AngleRoute::Defer(AngleDefer::DenominatorDegree(3)));
    assert_eq!(angle_route(false, Some(2), 0), AngleRoute::Defer(AngleDefer::RealRoots));
    assert_eq!(angle_route(false, Some(2), 1), AngleRoute::Defer(AngleDefer::RealRoots));
    assert_eq!(angle_route(false, None, 0), AngleRoute::Defer(AngleDefer::DenominatorDegree(0)));
    assert_eq!(angle_route(false, Some(0), 0), AngleRoute::Defer(AngleDefer::DenominatorDegree(0)));
}

#[test]
fn a_seam_frame_holds_only_when_every_identity_does() {
    assert_eq!(seam_frame_verdict([true; 3], [true; 3], true), Ok(()));
    assert_eq!(seam_frame_verdict([true; 3], [true; 3], false), Err(SeamFrameFault::SeamNotRegular));
    assert_eq!(
        seam_frame_verdict([true, false, true], [true, true, false], true),
        Err(SeamFrameFault::NotAReparametrization(1))
    );
    assert_eq!(
        seam_frame_verdict([true, true, true], [false, true, true], false),
        Err(SeamFrameFault::NotAReparametrization(3))
    );
    assert_eq!(
        seam_frame_verdict([true, true, false], [true, true, false], true),
        Err(SeamFrameFault::NotAReparametrization(2))
    );
}

/// A small deterministic generator for exercising the kernels on many inputs.
fn lcg(state: &mut u64) -> u64 {
    *state = state.wrapping_mul(6364136223846793005).wrapping_add(1442695040888963407);
    *state >> 33
}

#[test]
fn the_stable_order_agrees_with_a_stable_sort_on_many_inputs() {
    let mut s = 7u64;
    for len in 0..40usize {
        let keys: Vec<u64> = (0..len).map(|_| lcg(&mut s) % 6).collect();
        let mut want: Vec<usize> = (0..len).collect();
        want.sort_by_key(|&i| keys[i]);
        assert_eq!(stable_order(&keys), want);
    }
}

#[test]
fn the_kept_samples_agree_with_retain_sort_dedup_on_many_inputs() {
    let mut s = 11u64;
    for len in 0..40usize {
        let keys: Vec<u64> = (0..len).map(|_| lcg(&mut s) % 9).collect();
        let (lo, hi) = (2u64, 6u64);
        let mut want: Vec<usize> = (0..len).filter(|&i| lo <= keys[i] && keys[i] <= hi).collect();
        want.sort_by_key(|&i| keys[i]);
        want.dedup_by_key(|i| keys[*i]);
        assert_eq!(distinct_within(&keys, lo, hi), want);
    }
}
