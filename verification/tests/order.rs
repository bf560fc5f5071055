use visgraph::{
    collinear_overlap, contains, is_in_connectable_range, min_max, on_far_side, overlaps, Overlap, Sign,
};

#[test]
fn min_max_orders_two_numbers() {
    assert_eq!(min_max(3, 1), (1, 3));
    assert_eq!(min_max(1, 3), (1, 3));
    assert_eq!(min_max(7, 7), (7, 7));
    assert_eq!(min_max(2.5, -1.0), (-1.0, 2.5));
}

#[test]
fn min_max_puts_the_second_first_when_nothing_orders_them() {
    let (low, high) = min_max(f64::NAN, 1.0);
    assert_eq!(low, 1.0);
    assert!(high.is_nan());
}

#[test]
fn contains_takes_bounds_in_either_order() {
    assert!(contains(1, 5, 3));
    assert!(contains(5, 1, 3));
    assert!(contains(5, 1, 5));
    assert!(contains(5, 1, 1));
    assert!(!contains(5, 1, 6));
    assert!(!contains(5, 1, 0));
    assert!(contains(2.0, 2.0, 2.0));
    assert!(!contains(2.0, 4.0, f64::NAN));
}

#[test]
fn sign_has_a_band_around_zero() {
    let eps = f64::EPSILON;
    assert_eq!(Sign::of(-1.0, -eps, eps), Sign::Negative);
    assert_eq!(Sign::of(-eps, -eps, eps), Sign::Negative);
    assert_eq!(Sign::of(-eps / 2.0, -eps, eps), Sign::Zero);
    assert_eq!(Sign::of(0.0, -eps, eps), Sign::Zero);
    assert_eq!(Sign::of(eps / 2.0, -eps, eps), Sign::Zero);
    assert_eq!(Sign::of(eps, -eps, eps), Sign::Positive);
    assert_eq!(Sign::of(3.0, -eps, eps), Sign::Positive);
    assert_eq!(Sign::of(f64::NAN, -eps, eps), Sign::Zero);
    assert_eq!(Sign::of(-5, -1, 1), Sign::Negative);
    assert_eq!(Sign::of(0, -1, 1), Sign::Zero);
    assert_eq!(Sign::of(1, -1, 1), Sign::Positive);
}

#[test]
fn overlaps_needs_one_line() {
    let right = (Sign::Positive, Sign::Zero);
    assert!(!overlaps(false, right, right));
    assert!(overlaps(true, right, right));
}

#[test]
fn overlaps_when_the_target_is_on_the_same_side() {
    let up_right = (Sign::Positive, Sign::Positive);
    let down_left = (Sign::Negative, Sign::Negative);
    let up = (Sign::Zero, Sign::Positive);
    let down = (Sign::Zero, Sign::Negative);
    let nowhere = (Sign::Zero, Sign::Zero);
    assert!(overlaps(true, up_right, up_right));
    assert!(!overlaps(true, up_right, down_left));
    assert!(overlaps(true, up, up));
    assert!(!overlaps(true, up, down));
    // A target at the end itself overlaps whatever the segment's direction.
    assert!(overlaps(true, up_right, nowhere));
    assert!(overlaps(true, up, nowhere));
    assert!(overlaps(true, nowhere, nowhere));
    // Equal signs of x decide for a segment that is not vertical.
    assert!(overlaps(true, up_right, (Sign::Positive, Sign::Negative)));
    assert!(!overlaps(true, nowhere, up));
}

#[test]
fn on_far_side_is_an_arc_from_the_second_to_the_first() {
    // Bounds in descending order: the closed span between them.
    assert!(on_far_side(5, 2, 2));
    assert!(on_far_side(5, 2, 3));
    assert!(on_far_side(5, 2, 5));
    assert!(!on_far_side(5, 2, 1));
    assert!(!on_far_side(5, 2, 6));
    // Bounds in ascending order: everything but the open span between them.
    assert!(on_far_side(2, 5, 1));
    assert!(on_far_side(2, 5, 2));
    assert!(on_far_side(2, 5, 5));
    assert!(on_far_side(2, 5, 9));
    assert!(!on_far_side(2, 5, 3));
    // Equal bounds: everything but that value.
    assert!(!on_far_side(4, 4, 4));
    assert!(on_far_side(4, 4, 3));
    assert!(on_far_side(4, 4, 5));
}

#[test]
fn connectable_range_asks_both_readings() {
    let quarter = std::f64::consts::FRAC_PI_2;
    // The corner of a polygon whose neighbours lie to the left and below: the
    // target has to lie on the far side of both readings of the two directions.
    let to_previous = std::f64::consts::PI;
    let to_next = -quarter;
    let from_previous = 0.0;
    let from_next = quarter;
    assert!(is_in_connectable_range(to_previous, to_next, quarter + 0.5, from_previous, from_next));
    assert!(is_in_connectable_range(to_previous, to_next, quarter, from_previous, from_next));
    assert!(!is_in_connectable_range(to_previous, to_next, 0.5, from_previous, from_next));
    assert!(!is_in_connectable_range(to_previous, to_next, -2.0, from_previous, from_next));
    assert_eq!(
        is_in_connectable_range(1, 5, 7, 3, 6),
        on_far_side(1, 5, 7) && on_far_side(3, 6, 7)
    );
    assert!(is_in_connectable_range(1, 5, 7, 3, 6));
    assert!(!is_in_connectable_range(1, 5, 4, 3, 6));
}

#[test]
fn collinear_overlap_selects_the_nearer_end() {
    assert_eq!(collinear_overlap((5., 10.), (10., 15.)), Overlap::OtherStart);
    assert_eq!(collinear_overlap((5., 10.), (15., 10.)), Overlap::OtherEnd);
    assert_eq!(collinear_overlap((10., 5.), (10., 15.)), Overlap::OwnStart);
    assert_eq!(collinear_overlap((5., 20.), (10., 15.)), Overlap::OtherStart);
    assert_eq!(collinear_overlap((10., 20.), (5., 15.)), Overlap::OwnStart);
    assert_eq!(collinear_overlap((20., 5.), (10., 15.)), Overlap::OtherEnd);
    assert_eq!(collinear_overlap((20., 5.), (15., 10.)), Overlap::OtherStart);
    assert_eq!(collinear_overlap((15., 10.), (5., 20.)), Overlap::OwnStart);
}

#[test]
fn collinear_overlap_of_segments_apart_is_none() {
    assert_eq!(collinear_overlap((5., 10.), (15., 20.)), Overlap::Disjoint);
    assert_eq!(collinear_overlap((15., 20.), (5., 10.)), Overlap::Disjoint);
    assert_eq!(collinear_overlap((10., 5.), (20., 15.)), Overlap::Disjoint);
    assert_eq!(collinear_overlap((1, 2), (3, 4)), Overlap::Disjoint);
}

#[test]
fn collinear_overlap_of_points() {
    assert_eq!(collinear_overlap((5, 5), (5, 5)), Overlap::OwnStart);
    assert_eq!(collinear_overlap((5, 5), (3, 8)), Overlap::OwnStart);
    assert_eq!(collinear_overlap((5, 5), (6, 6)), Overlap::Disjoint);
    assert_eq!(collinear_overlap((3, 8), (5, 5)), Overlap::OtherEnd);
}
