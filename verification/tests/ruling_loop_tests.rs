use develop::cut::{ruling_patch_spans, CutFitFault};
use develop::pcurve::turn_spans;
use develop::quadric_loop::{loop_vertices, window_nodes, LoopVertex};

/// The fill of sorted crossings whose gap `k` (between crossings `k` and `k + 1`) reads
/// `gaps[k]`.
fn by_lower(gaps: &Vec<Option<bool>>) -> impl Fn(usize, usize) -> Option<bool> + '_ {
    move |i: usize, _j: usize| gaps[i]
}

#[test]
fn a_ruling_missing_every_wall_is_empty_or_unbounded() {
    let no_gap = |_: usize, _: usize| -> Option<bool> { None };
    assert_eq!(ruling_patch_spans(&vec![], Some(false), None, &no_gap), Ok(vec![]));
    assert_eq!(ruling_patch_spans(&vec![], Some(true), None, &no_gap), Err(CutFitFault::ShadowUnbounded));
    assert_eq!(ruling_patch_spans(&vec![], None, None, &no_gap), Err(CutFitFault::ShadowUndecided));
}

#[test]
fn material_beyond_the_outer_crossings_is_unbounded() {
    let keys = vec![1u64, 4];
    let gaps = vec![Some(true)];
    assert_eq!(ruling_patch_spans(&keys, Some(true), Some(false), &by_lower(&gaps)), Err(CutFitFault::ShadowUnbounded));
    assert_eq!(ruling_patch_spans(&keys, Some(false), Some(true), &by_lower(&gaps)), Err(CutFitFault::ShadowUnbounded));
    assert_eq!(ruling_patch_spans(&keys, Some(false), Some(false), &by_lower(&gaps)), Ok(vec![(0, 1)]));
}

#[test]
fn the_first_unreadable_fill_refuses_the_ruling() {
    let keys = vec![1u64, 4, 6];
    assert_eq!(
        ruling_patch_spans(&keys, None, Some(true), &by_lower(&vec![Some(true), Some(true)])),
        Err(CutFitFault::ShadowUndecided)
    );
    assert_eq!(
        ruling_patch_spans(&keys, Some(false), Some(false), &by_lower(&vec![Some(true), None])),
        Err(CutFitFault::ShadowUndecided)
    );
}

#[test]
fn an_unreadable_corner_is_never_consulted() {
    // The gap between the two crossings at 4 has no width, so its fill is not read.
    let keys = vec![1u64, 4, 4, 6];
    let gaps = vec![Some(true), None, Some(false)];
    assert_eq!(ruling_patch_spans(&keys, Some(false), Some(false), &by_lower(&gaps)), Ok(vec![(0, 1)]));
}

#[test]
fn repeated_window_nodes_are_dropped() {
    assert_eq!(window_nodes(&vec![0, 0, 1, 3, 3, 3, 4, 4]), Ok(vec![0, 2, 3, 6]));
    assert_eq!(window_nodes(&vec![2, 5, 2]), Ok(vec![0, 1, 2]));
}

#[test]
fn a_window_too_narrow_for_a_loop_is_degenerate() {
    assert_eq!(window_nodes(&vec![7, 7, 8, 8]), Err(CutFitFault::DegenerateSpan));
    assert_eq!(window_nodes(&vec![]), Err(CutFitFault::DegenerateSpan));
}

#[test]
fn the_loop_runs_up_the_far_branch_and_back_down_the_near_one() {
    assert_eq!(
        loop_vertices(3),
        Ok(vec![
            LoopVertex::LowTangent,
            LoopVertex::Far(0),
            LoopVertex::Far(1),
            LoopVertex::Far(2),
            LoopVertex::HighTangent,
            LoopVertex::Near(2),
            LoopVertex::Near(1),
            LoopVertex::Near(0),
        ])
    );
    assert_eq!(loop_vertices(0), Err(CutFitFault::DegenerateSpan));
}

#[test]
fn a_curve_splits_at_its_interior_turns() {
    assert_eq!(turn_spans(0, 10, &vec![3, 7]), Some(vec![(0, 3), (3, 7), (7, 10)]));
    // Turns on the domain's ends are not turns within it.
    assert_eq!(turn_spans(0, 10, &vec![0, 5, 10]), Some(vec![(0, 5), (5, 10)]));
    assert_eq!(turn_spans(0, 10, &vec![]), Some(vec![(0, 10)]));
}

#[test]
fn a_degenerate_piece_refuses_the_split() {
    assert_eq!(turn_spans(0, 10, &vec![4, 4]), None);
    assert_eq!(turn_spans(5, 5, &vec![]), None);
}
