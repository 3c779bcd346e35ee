use vec_rac::rng::{Rng, INCREMENT, INVERSE_MULTIPLIER, MODULUS, MULTIPLIER};
use vec_rac::vector::{circle_pts, contains_pt, Vector};

#[test]
fn rng_goes_both_ways() {
    let mut rng = Rng::with_seed(12304);
    let forward = std::iter::repeat_with(|| rng.forward())
        .take(5)
        .collect::<Vec<_>>();
    let mut backward = std::iter::repeat_with(|| rng.backward())
        .take(5)
        .collect::<Vec<_>>();
    backward.reverse();
    assert_eq!(forward, backward);
}

#[test]
fn inverse_multiplier_is_correct() {
    assert!(MULTIPLIER * INVERSE_MULTIPLIER % MODULUS == 1);
}

#[test]
fn no_overflow() {
    let mut rng = Rng::with_seed(17700000001);
    rng.forward();
}

#[test]
fn forward_returns_previous_state() {
    let mut rng = Rng::with_seed(1);
    assert_eq!(rng.forward(), 1);
    assert_eq!(rng.forward(), (MULTIPLIER + INCREMENT) % MODULUS);
}

#[test]
fn backward_handles_small_states() {
    // A state below INCREMENT exercises the modular wrap of the inverse step.
    let mut rng = Rng::with_seed(7);
    let before = rng.forward();
    assert_eq!(before, 7);
    rng.backward();
    assert_eq!(rng.forward(), 7);
}

#[test]
fn long_roundtrip_restores_seed() {
    let mut rng = Rng::with_seed(987654321);
    let first = rng.forward();
    for _ in 0..999 {
        rng.forward();
    }
    for _ in 0..1000 {
        rng.backward();
    }
    assert_eq!(rng.forward(), first);
}

#[test]
fn segment_endpoints_and_samples() {
    let pts = Vector::new(0, 0).segment_pts(Vector::new(3, 4));
    assert_eq!(
        pts,
        vec![
            Vector::new(0, 0),
            Vector::new(1, 1),
            Vector::new(1, 2),
            Vector::new(2, 2),
            Vector::new(2, 3),
            Vector::new(3, 4),
        ]
    );
}

#[test]
fn segment_degenerate_is_single_point() {
    let pts = Vector::new(5, -7).segment_pts(Vector::new(5, -7));
    assert_eq!(pts, vec![Vector::new(5, -7)]);
}

#[test]
fn segment_negative_direction_hits_endpoint() {
    let pts = Vector::new(0, 0).segment_pts(Vector::new(-2, -3));
    assert_eq!(pts.first(), Some(&Vector::new(0, 0)));
    assert_eq!(pts.last(), Some(&Vector::new(-2, -3)));
}

#[test]
fn circle_radius_two_in_column_order() {
    let pts = circle_pts(2);
    assert_eq!(
        pts,
        vec![
            Vector::new(-2, 0),
            Vector::new(-1, -1),
            Vector::new(-1, 0),
            Vector::new(-1, 1),
            Vector::new(0, -2),
            Vector::new(0, -1),
            Vector::new(0, 0),
            Vector::new(0, 1),
            Vector::new(0, 2),
            Vector::new(1, -1),
            Vector::new(1, 0),
            Vector::new(1, 1),
            Vector::new(2, 0),
        ]
    );
}

#[test]
fn circle_negative_radius_matches_positive() {
    assert_eq!(circle_pts(-3), circle_pts(3));
}

#[test]
fn contains_pt_finds_members() {
    let pts = circle_pts(1);
    assert!(contains_pt(&pts, Vector::new(0, 1)));
    assert!(!contains_pt(&pts, Vector::new(1, 1)));
}

#[test]
fn vector_arithmetic() {
    let a = Vector::new(3, -2);
    let b = Vector::new(-1, 5);
    assert_eq!(a.add(b), Vector::new(2, 3));
    assert_eq!(a.sub(b), Vector::new(4, -7));
    assert_eq!(b.neg(), Vector::new(1, -5));
}
