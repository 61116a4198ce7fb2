use develop::fold::{
    after_first_probe, after_second_probe, choose_preimage, split_domain, Candidate, FoldFault, FoldSide,
    Mark, ProbeSign, ProbeStep,
};
use develop::part::{anchor_piece_spans, glue_check, interval_pieces, region_of, Band, SpanPiece};
use develop::pcurve::{restricts, scan_sites, RootSite};

fn cand(eps: u64, lo: u64, hi: u64, admissible: bool) -> Candidate {
    Candidate { eps, sigma_lo: lo, sigma_hi: hi, admissible }
}

#[test]
fn a_two_sided_domain_folds_on_the_side_of_y() {
    assert_eq!(split_domain(-1, 1, 1), FoldSide::NonNegative);
    assert_eq!(split_domain(-1, 1, 0), FoldSide::NonNegative);
    assert_eq!(split_domain(-1, 1, -1), FoldSide::NonPositive);
}

#[test]
fn a_one_sided_domain_passes_through() {
    assert_eq!(split_domain(0, 1, -1), FoldSide::Whole);
    assert_eq!(split_domain(1, 1, 1), FoldSide::Whole);
    assert_eq!(split_domain(-1, 0, 1), FoldSide::Whole);
    assert_eq!(split_domain(-1, -1, -1), FoldSide::Whole);
}

#[test]
fn the_first_least_error_candidate_is_chosen() {
    let cs = vec![cand(5, 0, 1, false), cand(2, 3, 4, true), cand(2, 3, 4, true), cand(9, 0, 9, true)];
    assert_eq!(choose_preimage(&cs), Ok(1));
}

#[test]
fn two_admissible_candidates_with_a_sigma_gap_are_ambiguous() {
    let cs = vec![cand(1, 0, 2, true), cand(3, 5, 6, false), cand(2, 3, 4, true)];
    assert_eq!(choose_preimage(&cs), Err(FoldFault::AmbiguousPreimage));
}

#[test]
fn overlapping_enclosures_are_one_preimage() {
    let cs = vec![cand(4, 0, 3, true), cand(2, 3, 5, true)];
    assert_eq!(choose_preimage(&cs), Ok(1));
}

#[test]
fn no_candidate_is_out_of_gore() {
    assert_eq!(choose_preimage(&vec![]), Err(FoldFault::OutOfGore));
}

#[test]
fn bands_must_tile_and_share_the_frame() {
    let b = |lo, hi| Band { lo, hi };
    assert!(!glue_check(&vec![b(4, 0)], &vec![true]));
    assert!(!glue_check(&vec![b(0, 4), b(5, 8)], &vec![true, true]));
    assert!(!glue_check(&vec![b(0, 5), b(4, 8)], &vec![true, true]));
    assert!(!glue_check(&vec![b(0, 4), b(4, 8)], &vec![true, false]));
    assert!(glue_check(&vec![b(0, 4), b(4, 8)], &vec![true, true]));
    assert!(!glue_check(&vec![], &vec![]));
}

#[test]
fn a_join_belongs_to_the_earlier_region() {
    let bands = vec![Band { lo: 0, hi: 4 }, Band { lo: 4, hi: 8 }];
    assert_eq!(region_of(&bands, 2), Some(0));
    assert_eq!(region_of(&bands, 4), Some(0));
    assert_eq!(region_of(&bands, 5), Some(1));
    assert_eq!(region_of(&bands, 9), None);
}

#[test]
fn a_span_splits_at_the_join() {
    let bands = vec![Band { lo: 0, hi: 4 }, Band { lo: 4, hi: 8 }];
    assert_eq!(
        anchor_piece_spans(&bands, 2, 6),
        Some(vec![SpanPiece { region: 0, lo: 2, hi: 4 }, SpanPiece { region: 1, lo: 4, hi: 6 }])
    );
    assert_eq!(anchor_piece_spans(&bands, 4, 6), Some(vec![SpanPiece { region: 1, lo: 4, hi: 6 }]));
    assert_eq!(anchor_piece_spans(&bands, 0, 9), None);
}

#[test]
fn a_scan_reports_nodes_on_zeros_and_sign_changes() {
    let signs = vec![1i8, 1, -1, 0, 1, -1, -1];
    assert_eq!(
        scan_sites(&signs),
        vec![RootSite::Between(2), RootSite::AtNode(3), RootSite::Between(5)]
    );
    assert_eq!(scan_sites(&vec![]), vec![]);
    assert_eq!(scan_sites(&vec![-1, -1]), vec![]);
}

#[test]
fn a_restriction_stays_inside_the_domain() {
    assert!(restricts(0, 10, 2, 5));
    assert!(restricts(0, 10, 0, 10));
    assert!(!restricts(0, 10, 5, 5));
    assert!(!restricts(0, 10, 5, 11));
    assert!(!restricts(3, 10, 2, 5));
}

#[test]
fn a_first_probe_past_the_root_narrows_at_once() {
    assert_eq!(after_first_probe(ProbeSign::Below), ProbeStep::Narrow(Mark::Lo, Mark::First));
    assert_eq!(after_first_probe(ProbeSign::Straddle), ProbeStep::ProbeSecond);
    assert_eq!(after_first_probe(ProbeSign::Above), ProbeStep::ProbeSecond);
}

#[test]
fn a_straddling_probe_does_not_stop_the_search_alone() {
    assert_eq!(after_second_probe(ProbeSign::Straddle, ProbeSign::Above), ProbeStep::Narrow(Mark::Second, Mark::Hi));
    assert_eq!(after_second_probe(ProbeSign::Above, ProbeSign::Above), ProbeStep::Narrow(Mark::Second, Mark::Hi));
    assert_eq!(after_second_probe(ProbeSign::Above, ProbeSign::Below), ProbeStep::Narrow(Mark::First, Mark::Second));
    assert_eq!(after_second_probe(ProbeSign::Above, ProbeSign::Straddle), ProbeStep::Narrow(Mark::First, Mark::Hi));
    assert_eq!(after_second_probe(ProbeSign::Straddle, ProbeSign::Below), ProbeStep::Narrow(Mark::Lo, Mark::Second));
    assert_eq!(after_second_probe(ProbeSign::Straddle, ProbeSign::Straddle), ProbeStep::Converged);
}

#[test]
fn an_interval_develops_through_each_region_it_reaches() {
    let bands = vec![Band { lo: 0, hi: 4 }, Band { lo: 4, hi: 8 }, Band { lo: 8, hi: 12 }];
    assert_eq!(
        interval_pieces(&bands, 2, 9),
        Some(vec![
            SpanPiece { region: 0, lo: 2, hi: 4 },
            SpanPiece { region: 1, lo: 4, hi: 8 },
            SpanPiece { region: 2, lo: 8, hi: 9 },
        ])
    );
    // An interval starting on a join starts in the earlier region, with an empty piece there.
    assert_eq!(
        interval_pieces(&bands, 4, 6),
        Some(vec![SpanPiece { region: 0, lo: 4, hi: 4 }, SpanPiece { region: 1, lo: 4, hi: 6 }])
    );
    assert_eq!(interval_pieces(&bands, 13, 14), None);
    assert_eq!(interval_pieces(&bands, 9, 2), None);
}
