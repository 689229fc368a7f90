use linfit::{cost, gradient, SCALE};

fn line_y_eq_x() -> Vec<(i64, i64)> {
    vec![(SCALE, SCALE), (2 * SCALE, 2 * SCALE), (3 * SCALE, 3 * SCALE)]
}

#[test]
fn cost_is_zero_on_the_line() {
    assert_eq!(cost(&line_y_eq_x(), SCALE, 0), 0);
}

#[test]
fn cost_of_flat_line_is_mean_squared_error() {
    // (1 + 4 + 9) / 6 = 2.333..., rounded up on the grid 1e-12
    assert_eq!(cost(&line_y_eq_x(), 0, 0), 2_333_333_333_334);
}

#[test]
fn cost_of_single_sample() {
    // (5·1 + 5 − 5)² / 2 = 12.5
    assert_eq!(cost(&vec![(SCALE, 5 * SCALE)], 5 * SCALE, 5 * SCALE), 12_500_000_000_000);
}

#[test]
fn cost_is_positive_off_the_line() {
    // a miss of one grid step still counts
    assert_eq!(cost(&vec![(0, 1)], 0, 0), 1);
    assert_eq!(cost(&vec![(0, -1)], 0, 0), 1);
}

#[test]
fn gradient_of_flat_line() {
    // ∂J/∂w = −14/3, ∂J/∂b = −2, rounded toward zero
    assert_eq!(gradient(&line_y_eq_x(), 0, 0), (-4_666_666, -2_000_000));
}

#[test]
fn gradient_vanishes_at_the_minimum() {
    assert_eq!(gradient(&line_y_eq_x(), SCALE, 0), (0, 0));
}

#[test]
fn gradient_above_the_line_is_positive() {
    // residual 1 for each sample: ∂J/∂w = (1 + 2 + 3) / 3, ∂J/∂b = 1
    assert_eq!(gradient(&line_y_eq_x(), SCALE, SCALE), (2 * SCALE as i128, SCALE as i128));
}

#[test]
fn cost_and_gradient_repeat_exactly() {
    let d = vec![(1_500_000, -250_000), (-3_000_000, 7_125_000)];
    assert_eq!(cost(&d, 123_456, -654_321), cost(&d, 123_456, -654_321));
    assert_eq!(gradient(&d, 123_456, -654_321), gradient(&d, 123_456, -654_321));
}
