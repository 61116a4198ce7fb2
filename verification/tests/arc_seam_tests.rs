use develop::bonded::{valid_bonded_seam, BondedSeamFault, ClearFault, ShearFault};
use develop::turn_arc::{turn_arc_plan, ArcStep};
use develop::verdict::Verdict;

/// A loop of six pieces whose starts sit at σ-keys 0, 1, 2, 3, 2, 1: up the upper branch, round
/// the σ-max tangent, back down the lower one.
fn hexagon() -> (Vec<u64>, Vec<Option<(u64, u64)>>) {
    let sig = vec![0u64, 1, 2, 3, 2, 1];
    let ends = (0..sig.len()).map(|k| Some((sig[k], sig[(k + 1) % sig.len()]))).collect();
    (sig, ends)
}

#[test]
fn an_arc_to_the_other_branch_wraps_one_tangent() {
    let (sig, ends) = hexagon();
    let plan = turn_arc_plan(&sig, &ends, 1, true, 1, false).unwrap();
    assert_eq!(
        plan,
        vec![ArcStep::Tail(0), ArcStep::Whole(1), ArcStep::Whole(2), ArcStep::Whole(3), ArcStep::Head(4)]
    );
}

#[test]
fn an_arc_back_to_its_own_branch_wraps_both_tangents() {
    let (sig, ends) = hexagon();
    let plan = turn_arc_plan(&sig, &ends, 2, true, 2, true).unwrap();
    assert_eq!(
        plan,
        vec![
            ArcStep::Tail(1),
            ArcStep::Whole(2),
            ArcStep::Whole(3),
            ArcStep::Whole(4),
            ArcStep::Whole(5),
            ArcStep::Whole(0),
            ArcStep::Head(1),
        ]
    );
}

#[test]
fn an_arc_from_the_lower_branch_starts_at_the_max_tangent() {
    let (sig, ends) = hexagon();
    let plan = turn_arc_plan(&sig, &ends, 2, false, 1, true).unwrap();
    assert_eq!(plan, vec![ArcStep::Tail(3), ArcStep::Whole(4), ArcStep::Whole(5), ArcStep::Head(0)]);
}

#[test]
fn a_loop_that_cannot_turn_has_no_arc() {
    let sig = vec![0u64, 1, 2];
    let ends = vec![Some((0, 1)), Some((1, 2)), Some((2, 0))];
    assert_eq!(turn_arc_plan(&sig, &ends, 1, true, 1, false), None);
    let flat = vec![4u64; 5];
    let flat_ends = vec![Some((4, 4)); 5];
    assert_eq!(turn_arc_plan(&flat, &flat_ends, 4, true, 4, false), None);
}

#[test]
fn an_unevaluable_piece_on_the_walk_gives_no_arc() {
    let (sig, mut ends) = hexagon();
    ends[2] = None;
    assert_eq!(turn_arc_plan(&sig, &ends, 1, true, 1, false), None);
}

#[test]
fn an_unevaluable_piece_past_the_arc_is_never_read() {
    let (sig, mut ends) = hexagon();
    ends[5] = None;
    let plan = turn_arc_plan(&sig, &ends, 1, true, 1, false).unwrap();
    assert_eq!(
        plan,
        vec![ArcStep::Tail(0), ArcStep::Whole(1), ArcStep::Whole(2), ArcStep::Whole(3), ArcStep::Head(4)]
    );
}

#[test]
fn a_junction_off_the_loop_gives_no_arc() {
    let (sig, ends) = hexagon();
    assert_eq!(turn_arc_plan(&sig, &ends, 7, true, 1, false), None);
}

type V<W, F> = Verdict<W, F, ()>;

#[test]
fn the_seam_is_valid_when_all_four_hold() {
    let res = valid_bonded_seam::<u8, &str, u16, &str, u32, u64, i32>(
        V::Verified(1),
        V::Verified(2),
        V::Verified(3),
        Verdict::Verified(4),
        0,
    );
    match res {
        Verdict::Verified(b) => assert_eq!((b.sep, b.slab, b.shear, b.clear), (1, 2, 3, 4)),
        _ => panic!("expected a verified seam"),
    }
}

#[test]
fn the_first_refutation_wins() {
    let res = valid_bonded_seam::<u8, &str, u16, &str, u32, u64, i32>(
        V::Verified(1),
        V::Refuted("slab"),
        V::Refuted(ShearFault::KappaTooSmall),
        Verdict::Refuted(ClearFault::PoleInEval),
        0,
    );
    assert!(matches!(res, Verdict::Refuted(BondedSeamFault::Slab("slab"))));
    let res = valid_bonded_seam::<u8, &str, u16, &str, u32, u64, i32>(
        V::Verified(1),
        V::Verified(2),
        V::Verified(3),
        Verdict::Refuted(ClearFault::DegenerateBox),
        0,
    );
    assert!(matches!(res, Verdict::Refuted(BondedSeamFault::Clear(ClearFault::DegenerateBox))));
}

#[test]
fn an_undecided_total_invariant_fails_closed() {
    // A later refutation still wins over an undecided SEP.
    let res = valid_bonded_seam::<u8, &str, u16, &str, u32, u64, i32>(
        V::Unresolved(()),
        V::Refuted("slab"),
        V::Verified(3),
        Verdict::Verified(4),
        -7,
    );
    assert!(matches!(res, Verdict::Refuted(BondedSeamFault::Slab("slab"))));
    // With nothing refuted and CLEAR decided, the undecided SEP fails closed with the zero handle.
    let res = valid_bonded_seam::<u8, &str, u16, &str, u32, u64, i32>(
        V::Unresolved(()),
        V::Verified(2),
        V::Verified(3),
        Verdict::Verified(4),
        -7,
    );
    assert!(matches!(res, Verdict::Unresolved(-7)));
    // An undecided CLEAR carries its own handle even beside an undecided SHEAR.
    let res = valid_bonded_seam::<u8, &str, u16, &str, u32, u64, i32>(
        V::Verified(1),
        V::Verified(2),
        V::Unresolved(()),
        Verdict::Unresolved(42),
        -7,
    );
    assert!(matches!(res, Verdict::Unresolved(42)));
}

#[test]
fn an_undecided_clearance_carries_its_own_margin() {
    let res = valid_bonded_seam::<u8, &str, u16, &str, u32, u64, i32>(
        V::Verified(1),
        V::Verified(2),
        V::Verified(3),
        Verdict::Unresolved(42),
        0,
    );
    assert!(matches!(res, Verdict::Unresolved(42)));
}
