use develop::extrude::ExtrudeFault;
use develop::pick::{
    best_conditioned, facing_normal, nth_hit, ray_inputs, select, Facing, NormalChoice, PickFault, Span,
    SpanFault,
};

#[test]
fn select_takes_the_named_ordinals() {
    let xs = [10, 20, 30, 40];
    assert_eq!(select(Span::ToNext, &xs), Ok(&xs[0..1]));
    assert_eq!(select(Span::NextN(3), &xs), Ok(&xs[0..3]));
    assert_eq!(select(Span::Through, &xs), Ok(&xs[..]));
    assert_eq!(select(Span::Range(1, 3), &xs).unwrap(), &[20, 30]);
    assert_eq!(select(Span::Range(2, 2), &xs).unwrap(), &[] as &[i32]);
}

#[test]
fn a_span_past_the_crossings_is_refused() {
    let xs = [10, 20];
    assert_eq!(select(Span::NextN(3), &xs), Err(SpanFault::OutOfRange));
    assert_eq!(select(Span::Range(2, 1), &xs), Err(SpanFault::OutOfRange));
    assert_eq!(select(Span::Range(1, 3), &xs), Err(SpanFault::OutOfRange));
    let none: [i32; 0] = [];
    assert_eq!(select(Span::ToNext, &none), Err(SpanFault::OutOfRange));
    assert_eq!(select(Span::Through, &none), Ok(&none[..]));
}

#[test]
fn a_ray_facing_takes_the_ray_direction() {
    assert_eq!(facing_normal(Facing::Ray, 0), Ok(NormalChoice::RayDirection));
    assert_eq!(facing_normal(Facing::Ray, -1), Ok(NormalChoice::RayDirection));
}

#[test]
fn a_surface_facing_orients_the_normal() {
    assert_eq!(facing_normal(Facing::SurfaceToward, -1), Ok(NormalChoice::SurfaceNormal));
    assert_eq!(facing_normal(Facing::SurfaceToward, 1), Ok(NormalChoice::ReversedSurfaceNormal));
    assert_eq!(facing_normal(Facing::SurfaceAway, 1), Ok(NormalChoice::SurfaceNormal));
    assert_eq!(facing_normal(Facing::SurfaceAway, -1), Ok(NormalChoice::ReversedSurfaceNormal));
}

#[test]
fn a_grazing_hit_names_no_side() {
    assert_eq!(facing_normal(Facing::SurfaceToward, 0), Err(PickFault::Grazing));
    assert_eq!(facing_normal(Facing::SurfaceAway, 0), Err(PickFault::Grazing));
}

#[test]
fn the_first_largest_determinant_wins() {
    assert_eq!(best_conditioned([1, 5, 3]), (1, (1, 2)));
    assert_eq!(best_conditioned([7, 5, 3]), (0, (0, 1)));
    assert_eq!(best_conditioned([1, 2, 9]), (2, (2, 0)));
    assert_eq!(best_conditioned([4, 4, 4]), (0, (0, 1)));
    assert_eq!(best_conditioned([1, 6, 6]), (1, (1, 2)));
}

#[test]
fn the_nth_hit_or_no_hit() {
    let hits = ["a", "b", "c"];
    assert_eq!(nth_hit(&hits, 0), Ok(&"a"));
    assert_eq!(nth_hit(&hits, 2), Ok(&"c"));
    assert_eq!(nth_hit(&hits, 3), Err(PickFault::NoHit));
    let none: [u8; 0] = [];
    assert_eq!(nth_hit(&none, 0), Err(PickFault::NoHit));
}

#[test]
fn a_degenerate_profile_travels_inside_a_pick_fault() {
    let f = SpanFault::Pick(PickFault::Degenerate(ExtrudeFault::ApexInPlane));
    assert_ne!(f, SpanFault::Pick(PickFault::Degenerate(ExtrudeFault::DegenerateWall)));
    assert!(matches!(f, SpanFault::Pick(PickFault::Degenerate(ExtrudeFault::ApexInPlane))));
}

#[test]
fn a_ray_search_refuses_a_zero_direction_before_an_empty_span() {
    assert_eq!(ray_inputs([0, 0, 0], 4, 4), Err(PickFault::DegenerateRay));
    assert_eq!(ray_inputs([0, -1, 0], 4, 4), Err(PickFault::DegenerateSpan));
    assert_eq!(ray_inputs([1, 0, 0], 0, 4), Ok(()));
}
