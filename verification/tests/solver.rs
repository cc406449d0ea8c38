use grayscott_wasm::solver::{GrayScott, Neighborhood};

/// Feed, kill, u diffusion, v diffusion and time step of the standard regime.
const STANDARD: (f32, f32, f32, f32, f32) = (0.060, 0.062, 0.16, 0.08, 1.0);

/// The explicit Euler Gray-Scott update of one cell.
fn gray_scott(
    params: (f32, f32, f32, f32, f32),
) -> impl Fn(Neighborhood<f32>, Neighborhood<f32>) -> (f32, f32) {
    let (feed, kill, diff_u, diff_v, dt) = params;
    move |u: Neighborhood<f32>, v: Neighborhood<f32>| {
        let lap_u = u.left + u.right + u.up + u.down - 4.0 * u.center;
        let lap_v = v.left + v.right + v.up + v.down - 4.0 * v.center;
        let uvv = u.center * v.center * v.center;
        (
            u.center + dt * (diff_u * lap_u - uvv + feed * (1.0 - u.center)),
            v.center + dt * (diff_v * lap_v + uvv - (feed + kill) * v.center),
        )
    }
}

fn fresh(width: usize, height: usize) -> GrayScott<f32> {
    GrayScott::new(width, height, 1.0, 0.0)
}

fn assert_close(actual: f32, expected: f32, tolerance: f32) {
    let delta = (actual - expected).abs();
    assert!(
        delta <= tolerance,
        "actual={actual}, expected={expected}, delta={delta}, tolerance={tolerance}"
    );
}

fn stats(values: &[f32]) -> (f32, f32, f32) {
    let mut min = f32::INFINITY;
    let mut max = f32::NEG_INFINITY;
    let mut sum = 0.0f64;
    for &value in values {
        min = min.min(value);
        max = max.max(value);
        sum += f64::from(value);
    }
    (min, max, (sum / values.len() as f64) as f32)
}

#[test]
fn new_grid_starts_at_steady_state() {
    let sim = fresh(4, 3);
    assert_eq!(sim.width(), 4);
    assert_eq!(sim.height(), 3);
    assert_eq!(sim.len(), 12);
    assert!(sim.u().iter().all(|&value| value == 1.0));
    assert!(sim.v().iter().all(|&value| value == 0.0));
}

#[test]
fn uniform_steady_state_remains_unchanged() {
    let mut sim = fresh(16, 16);
    sim.run(100, &gray_scott(STANDARD));

    for &value in sim.u() {
        assert_close(value, 1.0, 0.0);
    }
    for &value in sim.v() {
        assert_close(value, 0.0, 0.0);
    }
}

#[test]
fn one_step_matches_hand_checked_periodic_update() {
    let u = vec![1.00, 0.90, 1.10, 0.80, 0.50, 1.20, 1.05, 0.95, 0.70];
    let v = vec![0.00, 0.10, 0.00, 0.20, 0.25, 0.05, 0.00, 0.15, 0.30];
    let mut sim = GrayScott::from_fields(3, 3, u, v);
    sim.step(&gray_scott((0.060, 0.062, 0.16, 0.08, 1.0)));

    // Center cell, periodic 5-point stencil:
    // lap_u = 0.9 + 0.95 + 0.8 + 1.2 - 4 * 0.5 = 1.85
    // lap_v = 0.1 + 0.15 + 0.2 + 0.05 - 4 * 0.25 = -0.5
    // uvv = 0.5 * 0.25 * 0.25 = 0.03125
    let center = sim.index(1, 1);
    assert_close(sim.u()[center], 0.79475, 1.0e-7);
    assert_close(sim.v()[center], 0.21075, 1.0e-7);
}

#[test]
fn seeded_simulation_stays_finite_for_standard_regime() {
    let mut sim = fresh(64, 64);
    sim.seed_square(32, 32, 5, 0.50, 0.25);
    sim.run(1_000, &gray_scott(STANDARD));

    assert!(sim.u().iter().all(|value| value.is_finite()));
    assert!(sim.v().iter().all(|value| value.is_finite()));
}

#[test]
fn simd_entrypoint_matches_scalar_entrypoint_on_non_simd_targets() {
    let update = gray_scott(STANDARD);
    let mut scalar = fresh(32, 32);
    let mut simd = fresh(32, 32);
    scalar.seed_square(16, 16, 5, 0.50, 0.25);
    simd.seed_square(16, 16, 5, 0.50, 0.25);

    scalar.run(25, &update);
    simd.run_simd(25, &update, &update);

    assert_eq!(scalar.u(), simd.u());
    assert_eq!(scalar.v(), simd.v());
}

#[test]
fn standard_seeded_64x64_100_step_regression() {
    let mut sim = fresh(64, 64);
    sim.seed_square(32, 32, 5, 0.50, 0.25);
    sim.run(100, &gray_scott(STANDARD));

    let (u_min, u_max, u_mean) = stats(sim.u());
    let (v_min, v_max, v_mean) = stats(sim.v());

    assert_close(u_min, 0.306_591_4, 1.0e-6);
    assert_close(u_max, 1.0, 1.0e-6);
    assert_close(u_mean, 0.980_694_6, 1.0e-6);
    assert_close(v_min, 0.0, 1.0e-6);
    assert_close(v_max, 0.420_273_54, 1.0e-6);
    assert_close(v_mean, 0.009767476, 1.0e-6);
}

/// Integer discrete Laplacian in `u`, neighbour sum in `v`.
fn laplacian(u: Neighborhood<i64>, v: Neighborhood<i64>) -> (i64, i64) {
    (
        u.left + u.right + u.up + u.down - 4 * u.center,
        v.left + v.right + v.up + v.down,
    )
}

#[test]
fn step_reads_periodic_neighbours_of_every_cell() {
    // 3 columns, 2 rows:
    //   0 1 2
    //   3 4 5
    let u: Vec<i64> = vec![0, 1, 2, 3, 4, 5];
    let v: Vec<i64> = vec![10, 0, 0, 0, 0, 0];
    let mut sim = GrayScott::from_fields(3, 2, u, v);
    sim.step(&laplacian);
    // cell 0: left 2, right 1, up 3, down 3 -> 9 - 0 = 9
    // cell 1: left 0, right 2, up 4, down 4 -> 10 - 4 = 6
    // cell 3: left 5, right 4, up 0, down 0 -> 9 - 12 = -3
    // cell 4: left 3, right 5, up 1, down 1 -> 10 - 16 = -6
    assert_eq!(sim.u(), &[9, 6, 3, -3, -6, -9][..]);
    // v: cell 0 has no neighbour holding 10 except itself (never counted);
    // cells 1, 2 see it left/right, cell 3 sees it above and below.
    assert_eq!(sim.v(), &[0, 10, 10, 20, 0, 0][..]);
}

#[test]
fn index_is_row_major() {
    let sim = GrayScott::new(5, 4, 0u8, 0u8);
    assert_eq!(sim.index(0, 0), 0);
    assert_eq!(sim.index(4, 0), 4);
    assert_eq!(sim.index(0, 1), 5);
    assert_eq!(sim.index(3, 2), 13);
    assert_eq!(sim.index(4, 3), 19);
    assert!(!sim.is_empty());
}

#[test]
fn seed_square_is_clipped_at_the_edges() {
    let mut sim = GrayScott::new(5, 4, 0u8, 0u8);
    sim.seed_square(0, 3, 1, 7, 9);
    // columns 0..=1, rows 2..=3; nothing wraps to column 4 or row 0
    let expected_u: Vec<u8> = vec![
        0, 0, 0, 0, 0, //
        0, 0, 0, 0, 0, //
        7, 7, 0, 0, 0, //
        7, 7, 0, 0, 0,
    ];
    assert_eq!(sim.u(), &expected_u[..]);
    assert!(sim.v().iter().enumerate().all(|(i, &x)| x == if expected_u[i] == 7 { 9 } else { 0 }));
}

#[test]
fn seed_square_radius_zero_sets_only_the_center() {
    let mut sim = GrayScott::new(3, 3, 0u8, 0u8);
    sim.seed_square(1, 1, 0, 1, 2);
    assert_eq!(sim.u(), &[0, 0, 0, 0, 1, 0, 0, 0, 0][..]);
    assert_eq!(sim.v(), &[0, 0, 0, 0, 2, 0, 0, 0, 0][..]);
}

#[test]
fn huge_radius_covers_the_whole_lattice() {
    let mut sim = GrayScott::new(4, 2, 0u8, 0u8);
    sim.seed_square(2, 1, usize::MAX, 3, 4);
    assert!(sim.u().iter().all(|&x| x == 3));
    assert!(sim.v().iter().all(|&x| x == 4));
}

#[test]
fn seeding_twice_equals_seeding_once() {
    let mut once = GrayScott::new(6, 6, 0u8, 0u8);
    once.seed_square(2, 3, 2, 5, 6);
    let mut twice = GrayScott::new(6, 6, 0u8, 0u8);
    twice.seed_square(2, 3, 2, 5, 6);
    twice.seed_square(2, 3, 2, 5, 6);
    assert_eq!(once.u(), twice.u());
    assert_eq!(once.v(), twice.v());
}

#[test]
fn runs_compose() {
    let u: Vec<i64> = (0..20).collect();
    let v: Vec<i64> = (0..20).map(|x| x * x).collect();
    let mut all_at_once = GrayScott::from_fields(5, 4, u.clone(), v.clone());
    all_at_once.run(5, &laplacian);
    let mut in_parts = GrayScott::from_fields(5, 4, u, v);
    in_parts.run(2, &laplacian);
    in_parts.run(0, &laplacian);
    in_parts.step(&laplacian);
    in_parts.run(2, &laplacian);
    assert_eq!(all_at_once.u(), in_parts.u());
    assert_eq!(all_at_once.v(), in_parts.v());
}

#[test]
fn uniform_fields_stay_uniform_under_a_fixing_update() {
    // The Laplacian of a constant field is zero, so (0, 0) is a fixed point.
    let mut sim = GrayScott::new(7, 3, 0i64, 0i64);
    sim.run(10, &laplacian);
    assert!(sim.u().iter().all(|&x| x == 0));
    assert!(sim.v().iter().all(|&x| x == 0));
}

#[test]
fn single_row_and_single_column_lattices_wrap_onto_themselves() {
    let mut row = GrayScott::from_fields(1, 1, vec![5i64], vec![2i64]);
    row.step(&laplacian);
    assert_eq!(row.u(), &[0][..]);
    assert_eq!(row.v(), &[8][..]);

    let mut column = GrayScott::from_fields(1, 3, vec![1i64, 2, 4], vec![0i64, 0, 0]);
    column.step(&laplacian);
    // each cell is its own left and right neighbour
    assert_eq!(column.u(), &[1 + 1 + 4 + 2 - 4, 2 + 2 + 1 + 4 - 8, 4 + 4 + 2 + 1 - 16][..]);
}

#[test]
fn writes_through_u_mut_and_v_mut_become_the_fields() {
    let mut sim = GrayScott::new(3, 2, 0i64, 0i64);
    sim.u_mut()[4] = 7;
    sim.v_mut()[0] = -2;
    assert_eq!(sim.u(), &[0, 0, 0, 0, 7, 0][..]);
    assert_eq!(sim.v(), &[-2, 0, 0, 0, 0, 0][..]);
    assert_eq!(sim.len(), 6);
    sim.step(&laplacian);
    assert_eq!(sim.u()[4], -28);
}

#[test]
fn clone_is_independent() {
    let mut first = GrayScott::from_fields(2, 2, vec![1i64, 2, 3, 4], vec![0i64; 4]);
    let second = first.clone();
    first.step(&laplacian);
    assert_eq!(second.u(), &[1, 2, 3, 4][..]);
    assert_eq!((second.width(), second.height(), second.len()), (2, 2, 4));
    assert_ne!(first.u(), second.u());
}

/// `field` shifted right by `dx` columns and down by `dy` rows, periodically.
fn shift(field: &[i64], w: usize, h: usize, dx: usize, dy: usize) -> Vec<i64> {
    (0..w * h)
        .map(|i| {
            let (x, y) = (i % w, i / w);
            field[((y + h - dy) % h) * w + (x + w - dx) % w]
        })
        .collect()
}

#[test]
fn shifting_commutes_with_a_step() {
    let (w, h) = (5, 4);
    let u: Vec<i64> = (0..20).map(|i| (i * 7) % 11).collect();
    let v: Vec<i64> = (0..20).map(|i| (i * i) % 13).collect();
    for (dx, dy) in [(0, 0), (1, 0), (0, 3), (4, 2)] {
        let mut plain = GrayScott::from_fields(w, h, u.clone(), v.clone());
        plain.run(3, &laplacian);
        let mut moved =
            GrayScott::from_fields(w, h, shift(&u, w, h, dx, dy), shift(&v, w, h, dx, dy));
        moved.run(3, &laplacian);
        assert_eq!(moved.u(), &shift(plain.u(), w, h, dx, dy)[..]);
        assert_eq!(moved.v(), &shift(plain.v(), w, h, dx, dy)[..]);
    }
}

/// Which cells of a `width x height` lattice one vectorised update hands to
/// its lanes, as a row-major mask.
fn lane_mask(width: usize, height: usize) -> Vec<i64> {
    let mut sim: GrayScott<i64> = GrayScott::new(width, height, 0, 0);
    sim.step_simd(&|_u: Neighborhood<i64>, _v: Neighborhood<i64>| (0, 0), &|_u: Neighborhood<i64>, _v: Neighborhood<i64>| (1, 1));
    assert_eq!(sim.u(), sim.v());
    sim.u().to_vec()
}

#[test]
fn simd_lanes_cover_interior_chunks_of_four() {
    // Columns 1..=4 and 5..=8 are whole chunks ending before column 9;
    // column 9 is the last column of a 10-wide lattice.
    let mask = lane_mask(10, 4);
    for y in 0..4 {
        for x in 0..10 {
            let expected = i64::from(y >= 1 && y <= 2 && x >= 1 && x <= 8);
            assert_eq!(mask[y * 10 + x], expected, "cell ({x}, {y})");
        }
    }
}

#[test]
fn simd_tail_columns_take_the_scalar_update() {
    // On 12 columns the chunk starting at column 9 would reach column 12,
    // so columns 9 and 10 are scalar, as is the edge column 11.
    let mask = lane_mask(12, 3);
    let row: Vec<i64> = mask[12..24].to_vec();
    assert_eq!(row, vec![0, 1, 1, 1, 1, 1, 1, 1, 1, 0, 0, 0]);
    assert!(mask[..12].iter().all(|&m| m == 0));
    assert!(mask[24..].iter().all(|&m| m == 0));
}

#[test]
fn simd_small_lattices_are_all_scalar() {
    assert!(lane_mask(5, 8).iter().all(|&m| m == 0));
    assert!(lane_mask(16, 2).iter().all(|&m| m == 0));
    assert_eq!(lane_mask(6, 3), vec![0, 0, 0, 0, 0, 0, 0, 1, 1, 1, 1, 0, 0, 0, 0, 0, 0, 0]);
}

#[test]
fn simd_with_the_scalar_rule_in_its_lanes_is_a_scalar_run() {
    let u: Vec<i64> = (0..48).map(|i| (i * 7) % 11).collect();
    let v: Vec<i64> = (0..48).map(|i| (i * 5) % 13).collect();
    let mut scalar = GrayScott::from_fields(12, 4, u.clone(), v.clone());
    let mut simd = GrayScott::from_fields(12, 4, u, v);
    scalar.run(3, &laplacian);
    simd.run_simd(3, &laplacian, &laplacian);
    assert_eq!(scalar.u(), simd.u());
    assert_eq!(scalar.v(), simd.v());
}

#[test]
fn seeded_at_center_matches_new_then_seed_square() {
    let sim: GrayScott<i64> = GrayScott::seeded_at_center(7, 5, 1, 10, 0, 5, 2);
    let mut manual: GrayScott<i64> = GrayScott::new(7, 5, 10, 0);
    manual.seed_square(3, 2, 1, 5, 2);
    assert_eq!(sim.u(), manual.u());
    assert_eq!(sim.v(), manual.v());
    assert_eq!(sim.u()[sim.index(3, 2)], 5);
    assert_eq!(sim.u()[sim.index(2, 1)], 5);
    assert_eq!(sim.u()[sim.index(1, 1)], 10);
    assert_eq!(sim.v()[sim.index(4, 3)], 2);
    assert_eq!(sim.v()[sim.index(4, 4)], 0);
}
