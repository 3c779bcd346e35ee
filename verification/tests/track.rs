use vec_rac::brain::{accel_from_index, pos_round_up_2, sensor_inputs};
use vec_rac::evolve::{next_generation_plan, rank_indices};
use vec_rac::grid::Grid;
use vec_rac::racetrack::{make_ring, Racetrack};
use vec_rac::rng::Rng;
use vec_rac::sim::{start_state, tick, TickOutcome};
use vec_rac::vector::{circle_pts, contains_pt, Vector};

#[test]
fn version_is_correct() {
    assert!(
        Racetrack::RNG_VERSION == Rng::VERSION,
        "Update Racetrack::{{VERSION, RNG_VERSION}}"
    );
}

#[test]
fn ring_avoids_inner_disk() {
    let ring = make_ring(4);
    for p in circle_pts(2) {
        assert!(!contains_pt(&ring, p));
    }
    for p in &ring {
        assert!(contains_pt(&circle_pts(4), *p));
    }
}

#[test]
fn small_ring_is_full_disk() {
    assert_eq!(make_ring(1), circle_pts(1));
    assert_eq!(make_ring(0), vec![Vector::new(0, 0)]);
}

#[test]
fn grid_center_addressing() {
    let mut g = Grid::new(5, 5);
    assert_eq!(g.v_get(Vector::new(0, 0)), Some(false));
    assert_eq!(g.get(2, 2), Some(false));
    assert!(g.v_get_mut(Vector::new(0, 0), true));
    assert_eq!(g.v_get(Vector::new(0, 0)), Some(true));
    assert_eq!(g.get(2, 2), Some(true));
    g.clear();
    assert_eq!(g.get(2, 2), Some(false));
}

#[test]
fn grid_out_of_bounds_is_absent() {
    let mut g = Grid::new(5, 5);
    assert_eq!(g.v_get(Vector::new(3, 0)), None);
    assert_eq!(g.v_get(Vector::new(0, -3)), None);
    assert_eq!(g.v_get(Vector::new(i32::MAX, i32::MIN)), None);
    assert_eq!(g.get(5, 0), None);
    assert!(!g.v_get_mut(Vector::new(9, 9), false));
}

#[test]
fn translate_net_zero_reproduces_grid() {
    let builder = Racetrack::builder().seed(999).view_dist(6).path_radius(2);
    let mut a = builder.clone().build();
    let b = builder.build();
    a.translate(Vector::new(3, 2));
    a.translate(Vector::new(-4, -5));
    a.translate(Vector::new(1, 3));
    // net displacement zero: pixel-identical to the freshly built window
    assert_eq!(a.stringify('.', ' '), b.stringify('.', ' '));
    for y in -6..=6 {
        for x in -6..=6 {
            assert_eq!(a.get(Vector::new(x, y)), b.get(Vector::new(x, y)));
        }
    }
}

#[test]
fn translate_same_total_same_grid() {
    let builder = Racetrack::builder().seed(4242).view_dist(5).path_radius(2);
    let mut a = builder.clone().build();
    let mut b = builder.build();
    a.translate(Vector::new(2, 7));
    a.translate(Vector::new(-1, -4));
    b.translate(Vector::new(1, 3));
    assert_eq!(a.stringify('#', '.'), b.stringify('#', '.'));
}

#[test]
fn stringify_shape() {
    let t = Racetrack::builder().seed(7).view_dist(3).path_radius(2).build();
    let s = t.stringify('x', '_');
    let lines: Vec<&str> = s.lines().collect();
    assert_eq!(lines.len(), 7);
    for (row, line) in lines.iter().enumerate() {
        assert_eq!(line.len(), 7);
        for (col, c) in line.chars().enumerate() {
            let pos = Vector::new(col as i32 - 3, 3 - row as i32);
            let expected = if t.get(pos) == Some(true) { 'x' } else { '_' };
            assert_eq!(c, expected);
        }
    }
}

#[test]
fn rounding_to_even() {
    assert_eq!(pos_round_up_2(0), 0);
    assert_eq!(pos_round_up_2(3), 4);
    assert_eq!(pos_round_up_2(4), 4);
    assert_eq!(pos_round_up_2(19), 20);
}

#[test]
fn accel_index_mapping() {
    assert_eq!(accel_from_index(0), Vector::new(1, 0));
    assert_eq!(accel_from_index(1), Vector::new(0, 1));
    assert_eq!(accel_from_index(2), Vector::new(-1, 0));
    assert_eq!(accel_from_index(3), Vector::new(0, -1));
}

#[test]
fn sensor_sweep_matches_window() {
    let t = Racetrack::builder().seed(12345).view_dist(4).path_radius(2).build();
    let mask = sensor_inputs(4, &t);
    assert_eq!(mask.len(), 16);
    // quadrant-major, x slowest: sensor 0 samples (1, 1), sensor 1 samples
    // (1, 3), sensor 4 samples (-1, 1), sensor 15 samples (3, -3)
    assert_eq!(mask[0], t.get(Vector::new(1, 1)) == Some(true));
    assert_eq!(mask[1], t.get(Vector::new(1, 3)) == Some(true));
    assert_eq!(mask[4], t.get(Vector::new(-1, 1)) == Some(true));
    assert_eq!(mask[15], t.get(Vector::new(3, -3)) == Some(true));
}

#[test]
fn zero_weight_brain_first_tick() {
    // With every weight zero all four outputs tie at 0.0 and the first
    // output index wins, commanding (1, 0); one tick from rest moves the
    // racer by exactly (1, 0).
    let mut t = Racetrack::builder().seed(12345).view_dist(4).path_radius(2).build();
    let mut st = start_state();
    let accel = accel_from_index(0);
    let outcome = tick(&mut st, &mut t, accel);
    assert_ne!(outcome, TickOutcome::Escaped);
    assert_ne!(outcome, TickOutcome::Stalled);
    assert_eq!(st.pos, Vector::new(1, 0));
    assert_eq!(st.vel, Vector::new(1, 0));
}

#[test]
fn stall_ends_run_without_scrolling() {
    let mut t = Racetrack::builder().seed(12345).view_dist(4).path_radius(2).build();
    let mut st = start_state();
    st.since_improved = 51;
    // Accelerating straight down never improves the forward score.
    let outcome = tick(&mut st, &mut t, accel_from_index(3));
    assert_eq!(outcome, TickOutcome::Stalled);
    assert_eq!(st.since_improved, 51);
    assert_eq!(st.time, 0);
    assert_eq!(st.pos, Vector::new(0, -1));
}

#[test]
fn ranking_is_stable_descending() {
    let fitness: Vec<(i32, usize)> = vec![(5, 10), (7, 2), (5, 10), (1, 1)];
    assert_eq!(rank_indices(&fitness), vec![1, 0, 2, 3]);
    let tie_break: Vec<(i32, usize)> = vec![(3, 1), (3, 9)];
    assert_eq!(rank_indices(&tie_break), vec![1, 0]);
}

#[test]
fn generation_plan_preserves_population_size() {
    let fitness: Vec<(i32, usize)> = vec![(5, 10), (7, 2), (5, 10), (1, 1)];
    let plan = next_generation_plan(&fitness);
    assert_eq!(plan.len(), fitness.len());
    assert_eq!(plan, vec![(1, true), (1, false), (0, true), (0, false)]);
    let six: Vec<(i32, usize)> = vec![(0, 0); 6];
    assert_eq!(next_generation_plan(&six).len(), 6);
}

#[test]
fn builder_takes_magnitudes() {
    let t = Racetrack::builder().seed(1).view_dist(-3).path_radius(-2).build();
    assert_eq!(t.view_dist(), 3);
}

#[test]
fn window_domain_fixed_by_view_dist() {
    let mut t = Racetrack::builder().seed(5).view_dist(3).path_radius(1).build();
    assert!(t.get(Vector::new(3, -3)).is_some());
    assert_eq!(t.get(Vector::new(4, 0)), None);
    assert_eq!(t.get(Vector::new(0, -4)), None);
    t.translate(Vector::new(2, 5));
    assert!(t.get(Vector::new(-3, 3)).is_some());
    assert_eq!(t.get(Vector::new(-4, 0)), None);
}
