use develop::columns::{match_columns, trace_columns, Join, Rail, Side};
use develop::cut::CutFitFault;
use develop::loops::close_loops;

fn rail(left: usize, right: usize, side: Side) -> Rail {
    Rail { left, right, side }
}

#[test]
fn equal_counts_match_by_order() {
    let m = match_columns(&vec![(0, 1), (3, 4)], &vec![(0, 1), (5, 6)]).unwrap();
    assert_eq!(
        m.rails,
        vec![rail(0, 0, Side::Lo), rail(0, 0, Side::Hi), rail(1, 1, Side::Lo), rail(1, 1, Side::Hi)]
    );
    assert!(m.joins.is_empty());
}

#[test]
fn a_merge_continues_the_outer_rails_and_saddles_the_inner_ends() {
    let m = match_columns(&vec![(0, 2), (4, 6)], &vec![(1, 5)]).unwrap();
    assert_eq!(m.rails, vec![rail(0, 0, Side::Lo), rail(1, 0, Side::Hi)]);
    assert_eq!(m.joins, vec![Join::Saddle { right: false, k: 0 }]);
}

#[test]
fn a_split_saddles_on_the_right() {
    let m = match_columns(&vec![(1, 5)], &vec![(0, 2), (4, 6)]).unwrap();
    assert_eq!(m.rails, vec![rail(0, 0, Side::Lo), rail(0, 1, Side::Hi)]);
    assert_eq!(m.joins, vec![Join::Saddle { right: true, k: 0 }]);
}

#[test]
fn a_stretch_meeting_nothing_is_pinched() {
    let m = match_columns(&vec![(0, 1), (5, 6)], &vec![(0, 1)]).unwrap();
    assert_eq!(m.rails, vec![rail(0, 0, Side::Lo), rail(0, 0, Side::Hi)]);
    assert_eq!(m.joins, vec![Join::Pinch { right: false, k: 1 }]);
    let born = match_columns(&vec![], &vec![(2, 3)]).unwrap();
    assert!(born.rails.is_empty());
    assert_eq!(born.joins, vec![Join::Pinch { right: true, k: 0 }]);
}

#[test]
fn a_merge_and_split_at_once_is_tangled() {
    let res = match_columns(&vec![(0, 2), (4, 6)], &vec![(1, 4), (5, 7), (9, 9)]);
    assert_eq!(res.unwrap_err(), CutFitFault::ShadowEventTangled);
}

#[test]
fn a_lone_stretch_pinches_at_both_ends() {
    let t = trace_columns(&vec![vec![], vec![(0, 2)], vec![]]).unwrap();
    assert_eq!(t.parent.len(), 2);
    assert!(t.edges.is_empty());
    assert_eq!(t.merges, vec![(0, 1)]);
}

#[test]
fn a_band_traces_one_closed_loop() {
    let cols = vec![vec![], vec![(0, 2)], vec![(0, 3)], vec![(1, 3)], vec![]];
    let t = trace_columns(&cols).unwrap();
    assert_eq!(t.parent.len(), 6);
    assert_eq!(t.edges, vec![(0, 2), (1, 3), (2, 4), (3, 5)]);
    assert_eq!(t.merges, vec![(0, 1), (4, 5)]);
    let mut parent = t.parent.clone();
    let loops = close_loops(&mut parent, &t.edges).unwrap();
    assert_eq!(loops, vec![vec![0, 2, 4, 3]]);
}

#[test]
fn tracing_refuses_a_tangle() {
    let cols = vec![vec![], vec![(0, 2), (4, 6)], vec![(1, 4), (5, 7), (9, 9)], vec![]];
    assert_eq!(trace_columns(&cols).err(), Some(CutFitFault::ShadowEventTangled));
}

#[test]
fn a_triangle_is_one_loop() {
    let mut parent = vec![0usize, 1, 2];
    let loops = close_loops(&mut parent, &vec![(0, 1), (1, 2), (2, 0)]).unwrap();
    assert_eq!(loops, vec![vec![0, 1, 2]]);
}

#[test]
fn two_triangles_are_two_loops() {
    let mut parent = vec![0usize, 1, 2, 3, 4, 5];
    let edges = vec![(0, 1), (3, 4), (1, 2), (4, 5), (2, 0), (5, 3)];
    let loops = close_loops(&mut parent, &edges).unwrap();
    assert_eq!(loops, vec![vec![0, 1, 2], vec![3, 4, 5]]);
}

#[test]
fn identified_ends_close_a_loop() {
    // Vertices 3 and 0 are one boundary end.
    let mut parent = vec![0usize, 1, 2, 0];
    let loops = close_loops(&mut parent, &vec![(0, 1), (1, 2), (2, 3)]).unwrap();
    assert_eq!(loops, vec![vec![0, 1, 2]]);
}

#[test]
fn an_open_boundary_is_refused() {
    let mut parent = vec![0usize, 1, 2];
    assert_eq!(close_loops(&mut parent, &vec![(0, 1), (1, 2)]), Err(CutFitFault::ShadowLoopOpen));
    let mut parent = vec![0usize, 1, 2, 3];
    let forked = vec![(0, 1), (0, 2), (0, 3), (1, 2)];
    assert_eq!(close_loops(&mut parent, &forked), Err(CutFitFault::ShadowLoopOpen));
}

#[test]
fn a_two_vertex_loop_is_degenerate() {
    let mut parent = vec![0usize, 1];
    assert_eq!(close_loops(&mut parent, &vec![(0, 1), (1, 0)]), Err(CutFitFault::DegenerateSpan));
    let mut none: Vec<usize> = vec![];
    assert_eq!(close_loops(&mut none, &vec![]), Err(CutFitFault::DegenerateSpan));
}

#[test]
fn short_components_are_skipped_beside_a_loop() {
    // A loop at 0, a doubled rail between 1 and 2, and a triangle 3-4-5: only the triangle is
    // returned, and every other vertex is on a short component.
    let mut parent = vec![0usize, 1, 2, 3, 4, 5];
    let edges = vec![(0, 0), (1, 2), (3, 4), (2, 1), (4, 5), (5, 3)];
    assert_eq!(close_loops(&mut parent, &edges), Ok(vec![vec![3, 4, 5]]));
    let mut parent = vec![0usize, 1, 2];
    assert_eq!(close_loops(&mut parent, &vec![(0, 0), (1, 2), (2, 1)]), Err(CutFitFault::DegenerateSpan));
}

#[test]
fn a_loop_is_walked_from_its_first_rail() {
    // The first rail runs 1 → 0, so the loop starts at 1 and goes on to 0.
    let mut parent = vec![0usize, 1, 2];
    let loops = close_loops(&mut parent, &vec![(1, 0), (2, 1), (0, 2)]).unwrap();
    assert_eq!(loops, vec![vec![1, 0, 2]]);
    // Loops come in the order of their first rails.
    let mut parent = vec![0usize, 1, 2, 3, 4, 5];
    let edges = vec![(3, 4), (0, 1), (4, 5), (1, 2), (5, 3), (2, 0)];
    assert_eq!(close_loops(&mut parent, &edges), Ok(vec![vec![3, 4, 5], vec![0, 1, 2]]));
}
