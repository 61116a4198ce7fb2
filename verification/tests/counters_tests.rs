use develop::counters::{
    bracket_bisected, bracket_seeded, bump_bracket_bisected, bump_bracket_seeded, bump_cut_eval,
    bump_gamma_cell, bump_gamma_velocity, bump_poly_slice_clip, cut_evals, gamma_cells,
    gamma_velocity, poly_slice_clips, reset, WorkCounters,
};

#[test]
fn fresh_counters_read_zero() {
    let c = WorkCounters::new();
    assert_eq!(gamma_cells(&c), 0);
    assert_eq!(gamma_velocity(&c), 0);
    assert_eq!(cut_evals(&c), 0);
    assert_eq!(bracket_seeded(&c), 0);
    assert_eq!(bracket_bisected(&c), 0);
    assert_eq!(poly_slice_clips(&c), 0);
}

#[test]
fn each_bump_counts_its_own_work_only() {
    let mut c = WorkCounters::new();
    bump_cut_eval(&mut c);
    bump_cut_eval(&mut c);
    bump_cut_eval(&mut c);
    bump_gamma_cell(&mut c);
    bump_bracket_seeded(&mut c);
    bump_bracket_seeded(&mut c);
    bump_bracket_bisected(&mut c);
    bump_poly_slice_clip(&mut c);
    bump_gamma_velocity(&mut c);
    bump_gamma_velocity(&mut c);
    assert_eq!(cut_evals(&c), 3);
    assert_eq!(gamma_cells(&c), 1);
    assert_eq!(bracket_seeded(&c), 2);
    assert_eq!(bracket_bisected(&c), 1);
    assert_eq!(poly_slice_clips(&c), 1);
    assert_eq!(gamma_velocity(&c), 2);
}

#[test]
fn reset_zeroes_every_counter() {
    let mut c = WorkCounters::new();
    bump_cut_eval(&mut c);
    bump_gamma_cell(&mut c);
    bump_bracket_bisected(&mut c);
    bump_gamma_velocity(&mut c);
    reset(&mut c);
    assert_eq!(cut_evals(&c), 0);
    assert_eq!(gamma_cells(&c), 0);
    assert_eq!(bracket_bisected(&c), 0);
    assert_eq!(gamma_velocity(&c), 0);
}

#[test]
fn a_full_counter_saturates() {
    let mut c = WorkCounters::new();
    c.cut_evals = u64::MAX;
    c.gamma_cells = u64::MAX - 1;
    bump_cut_eval(&mut c);
    bump_gamma_cell(&mut c);
    bump_gamma_cell(&mut c);
    assert_eq!(cut_evals(&c), u64::MAX);
    assert_eq!(gamma_cells(&c), u64::MAX);
}
