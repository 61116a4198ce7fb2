use develop::cut::CutFitFault;
use develop::shadow::{
    encloses_point, first_flat_piece, trace_inputs, footprint_extent, loops_nested, loops_verdict, shadow_cut_verdict,
    trace_footprint,
};
use develop::verdict::Verdict;

fn squares(offset: i64) -> Vec<(i64, i64)> {
    vec![
        (0, 0),
        (10, 0),
        (10, 10),
        (0, 10),
        (offset + 2, 2),
        (offset + 4, 2),
        (offset + 4, 4),
        (offset + 2, 4),
    ]
}

#[test]
fn the_footprint_lies_strictly_inside_the_scan() {
    assert_eq!(footprint_extent(&vec![false, true, true, false]), Ok((1, 2)));
    assert_eq!(footprint_extent(&vec![false, true, false, true, false]), Ok((1, 3)));
}

#[test]
fn a_footprint_reaching_the_scan_edge_is_unbounded() {
    assert_eq!(footprint_extent(&vec![true, false, false]), Err(CutFitFault::ShadowUnbounded));
    assert_eq!(footprint_extent(&vec![false, false, true]), Err(CutFitFault::ShadowUnbounded));
}

#[test]
fn a_scan_that_never_meets_the_cutter_is_degenerate() {
    assert_eq!(footprint_extent(&vec![false, false, false]), Err(CutFitFault::DegenerateSpan));
    assert_eq!(footprint_extent(&vec![]), Err(CutFitFault::DegenerateSpan));
}

#[test]
fn a_traced_band_closes_one_loop() {
    let cols = vec![vec![], vec![(0, 2)], vec![(0, 3)], vec![(1, 3)], vec![]];
    let (t, loops) = trace_footprint(&cols).unwrap();
    assert_eq!(t.parent.len(), 6);
    assert_eq!(loops, Ok(vec![vec![0, 2, 4, 3]]));
}

#[test]
fn a_trace_with_material_at_its_flanks_is_unbounded() {
    let cols = vec![vec![(0, 1)], vec![]];
    assert_eq!(trace_footprint(&cols).err(), Some(CutFitFault::ShadowUnbounded));
    let cols = vec![vec![], vec![(0, 1)]];
    assert_eq!(trace_footprint(&cols).err(), Some(CutFitFault::ShadowUnbounded));
}

#[test]
fn a_trace_of_one_column_has_no_loop() {
    let cols = vec![vec![], vec![(0, 2)], vec![]];
    let (t, loops) = trace_footprint(&cols).unwrap();
    assert_eq!(t.merges, vec![(0, 1)]);
    assert_eq!(loops, Err(CutFitFault::DegenerateSpan));
}

#[test]
fn a_tangled_trace_is_refused_before_any_loop_is_read() {
    let cols = vec![vec![], vec![(0, 2), (4, 6)], vec![(1, 4), (5, 7), (9, 9)], vec![]];
    assert_eq!(trace_footprint(&cols).err(), Some(CutFitFault::ShadowEventTangled));
}

#[test]
fn the_even_odd_cast_counts_the_edges_above() {
    let pos = squares(0);
    let outer = vec![0usize, 1, 2, 3];
    assert!(encloses_point(&outer, &pos, (5, 5)));
    assert!(!encloses_point(&outer, &pos, (5, 11)));
    assert!(!encloses_point(&outer, &pos, (11, 5)));
    // A point under a vertex is counted once: the half-open span takes one of its two edges.
    assert!(encloses_point(&outer, &pos, (0, 5)));
    assert!(!encloses_point(&outer, &pos, (10, 5)));
}

#[test]
fn a_loop_inside_another_is_nested() {
    let cycles = vec![vec![0usize, 1, 2, 3], vec![4, 5, 6, 7]];
    assert!(loops_nested(&cycles, &squares(0)));
}

#[test]
fn side_by_side_loops_are_not_nested() {
    let cycles = vec![vec![0usize, 1, 2, 3], vec![4, 5, 6, 7]];
    assert!(!loops_nested(&cycles, &squares(20)));
    assert!(!loops_nested(&vec![vec![0usize, 1, 2, 3]], &squares(0)));
}

#[test]
fn the_loops_verdict_follows_the_worst_bound() {
    assert!(matches!(loops_verdict(&vec![], 5), Verdict::Refuted(CutFitFault::DegenerateSpan)));
    assert!(matches!(loops_verdict(&vec![1, 3, 2], 5), Verdict::Verified(())));
    assert!(matches!(loops_verdict(&vec![1, 7, 7, 2], 5), Verdict::Unresolved(2)));
    assert!(matches!(loops_verdict(&vec![5], 5), Verdict::Unresolved(0)));
}

#[test]
fn a_loop_piece_that_does_not_advance_in_sigma_is_found() {
    let sigma = vec![0u64, 3, 3, 1];
    assert_eq!(first_flat_piece(&vec![0, 1, 2, 3], &sigma), Some(1));
    assert_eq!(first_flat_piece(&vec![0, 1, 3], &sigma), None);
    // The closing piece counts too.
    assert_eq!(first_flat_piece(&vec![1, 0, 2], &sigma), Some(2));
}

#[test]
fn the_shadow_cut_verdict_passes_refusals_and_judges_the_loops() {
    assert!(matches!(
        shadow_cut_verdict(Err(CutFitFault::ShadowEventTangled), 10),
        Verdict::Refuted(CutFitFault::ShadowEventTangled)
    ));
    assert!(matches!(shadow_cut_verdict(Ok(vec![]), 10), Verdict::Refuted(CutFitFault::DegenerateSpan)));
    let loops = vec![(vec![0usize, 2, 4], 3u64), (vec![1, 3, 5], 9)];
    match shadow_cut_verdict(Ok(loops.clone()), 10) {
        Verdict::Verified(l) => assert_eq!(l, loops),
        _ => panic!("expected the loops to verify"),
    }
    assert!(matches!(shadow_cut_verdict(Ok(loops), 9), Verdict::Unresolved(1)));
}

#[test]
fn the_tracer_refuses_an_empty_window_before_a_wall_less_cutter() {
    assert_eq!(trace_inputs(5, 5, 0), Err(CutFitFault::DegenerateSpan));
    assert_eq!(trace_inputs(6, 5, 3), Err(CutFitFault::DegenerateSpan));
    assert_eq!(trace_inputs(0, 5, 0), Err(CutFitFault::DegenerateSurface));
    assert_eq!(trace_inputs(0, 5, 2), Ok(()));
}
