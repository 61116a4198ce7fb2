use develop::cut::{
    cells_between, merge_brackets, ruling_patch_spans, structure_partition, Bracket, CutFitFault, EventKind,
};

fn br(lo: u64, hi: u64, kind: EventKind) -> Bracket {
    Bracket { lo, hi, kind }
}

#[test]
fn touching_brackets_merge_into_one_event() {
    let found = vec![
        br(0, 2, EventKind::Tangent(0)),
        br(2, 3, EventKind::Meet(0, 1)),
        br(5, 6, EventKind::Escape(1)),
    ];
    let ev = merge_brackets(&found);
    assert_eq!(ev.len(), 2);
    assert_eq!((ev[0].lo, ev[0].hi), (0, 3));
    assert_eq!(ev[0].kinds, vec![EventKind::Tangent(0), EventKind::Meet(0, 1)]);
    assert_eq!((ev[1].lo, ev[1].hi), (5, 6));
    assert_eq!(ev[1].kinds, vec![EventKind::Escape(1)]);
}

#[test]
fn a_bracket_inside_an_event_keeps_its_end() {
    let found = vec![br(0, 9, EventKind::Tangent(2)), br(1, 4, EventKind::Tangent(3))];
    let ev = merge_brackets(&found);
    assert_eq!(ev.len(), 1);
    assert_eq!((ev[0].lo, ev[0].hi), (0, 9));
    assert_eq!(ev[0].kinds.len(), 2);
    assert!(merge_brackets(&vec![]).is_empty());
}

#[test]
fn the_cells_are_the_gaps_between_brackets() {
    assert_eq!(cells_between(0, 10, &vec![(2, 3), (5, 6)]), vec![(0, 2), (3, 5), (6, 10)]);
    assert_eq!(cells_between(0, 10, &vec![(0, 1)]), vec![(1, 10)]);
    assert_eq!(cells_between(0, 10, &vec![(4, 10)]), vec![(0, 4)]);
    assert_eq!(cells_between(0, 10, &vec![]), vec![(0, 10)]);
}

/// The stretches of sorted crossings `keys` whose gap `k` (between crossings `k` and `k + 1`)
/// reads `flags[k]`, with nothing beyond the outer crossings.
fn stretches(keys: &Vec<u64>, flags: &Vec<bool>) -> Vec<(usize, usize)> {
    ruling_patch_spans(keys, Some(false), Some(false), &|i: usize, _j: usize| Some(flags[i])).unwrap()
}

#[test]
fn stretches_are_the_inside_gaps() {
    let keys = vec![0u64, 1, 2, 3];
    assert_eq!(stretches(&keys, &vec![true, false, true]), vec![(0, 1), (2, 3)]);
    assert_eq!(stretches(&keys, &vec![false, false, false]), vec![]);
    assert_eq!(stretches(&vec![5u64], &vec![]), vec![]);
}

#[test]
fn a_crossing_inside_the_cutter_does_not_split_a_stretch() {
    // A carrier line crossing the cutter's interior adds a crossing at 1 between two inside gaps.
    assert_eq!(stretches(&vec![0u64, 1, 2], &vec![true, true]), vec![(0, 2)]);
}

#[test]
fn a_corner_of_no_width_is_not_a_stretch() {
    // Two walls crossing at 2 make a zero-width gap; the gaps on either side abut there.
    let keys = vec![0u64, 2, 2, 5, 7];
    assert_eq!(stretches(&keys, &vec![true, false, true, true]), vec![(0, 4)]);
    assert_eq!(stretches(&keys, &vec![true, true, false, true]), vec![(0, 1), (3, 4)]);
}

#[test]
fn crossings_found_out_of_order_are_sorted_first() {
    // Crossings at 6, 1, 4 (in the order found): the gap from 1 to 4 is inside, 4 to 6 is not.
    let keys = vec![6u64, 1, 4];
    let fill = |i: usize, j: usize| Some(keys[i] == 1 && keys[j] == 4);
    assert_eq!(ruling_patch_spans(&keys, Some(false), Some(false), &fill), Ok(vec![(1, 2)]));
}

#[test]
fn cut_faults_compare_by_variant() {
    assert_ne!(CutFitFault::ShadowLoopOpen, CutFitFault::ShadowNested);
    assert_eq!(CutFitFault::DegenerateSpan, CutFitFault::DegenerateSpan);
}

#[test]
fn brackets_found_out_of_order_still_partition_the_window() {
    let found = vec![
        br(5, 6, EventKind::Escape(1)),
        br(0, 2, EventKind::Tangent(0)),
        br(2, 3, EventKind::Meet(0, 1)),
    ];
    let ev = structure_partition(&found);
    assert_eq!(ev.len(), 2);
    assert_eq!((ev[0].lo, ev[0].hi), (0, 3));
    assert_eq!(ev[0].kinds, vec![EventKind::Tangent(0), EventKind::Meet(0, 1)]);
    assert_eq!((ev[1].lo, ev[1].hi), (5, 6));
    let tied = vec![br(1, 2, EventKind::Tangent(0)), br(1, 4, EventKind::Tangent(1))];
    let ev = structure_partition(&tied);
    assert_eq!(ev.len(), 1);
    assert_eq!((ev[0].lo, ev[0].hi), (1, 4));
    assert_eq!(ev[0].kinds, vec![EventKind::Tangent(0), EventKind::Tangent(1)]);
}
