use rustchord::fixed::{
    clamp_amplitude, distance_round, div_rem_floor, gap_round, gaussian, smooth, smooth_position,
    wrap, AMP_MAX, ONE,
};

#[test]
fn division_rounds_down() {
    assert_eq!(div_rem_floor(7, 2), (3, 1));
    assert_eq!(div_rem_floor(-7, 2), (-4, 1));
    assert_eq!(div_rem_floor(-8, 2), (-4, 0));
    assert_eq!(div_rem_floor(0, 5), (0, 0));
    assert_eq!(div_rem_floor(-1, 1_000_000), (-1, 999_999));
}

#[test]
fn amplitudes_are_kept_in_range() {
    assert_eq!(clamp_amplitude(-1), 0);
    assert_eq!(clamp_amplitude(0), 0);
    assert_eq!(clamp_amplitude(123), 123);
    assert_eq!(clamp_amplitude(AMP_MAX as i128), AMP_MAX);
    assert_eq!(clamp_amplitude(AMP_MAX as i128 + 1), AMP_MAX);
    assert_eq!(clamp_amplitude(i128::MAX), AMP_MAX);
}

#[test]
fn smoothing_moves_a_fraction_of_the_way() {
    assert_eq!(smooth(800_000, 600_000, 350_000), 730_000);
    assert_eq!(smooth(0, 800_000, 250_000), 200_000);
    assert_eq!(smooth(800_000, 0, 350_000), 520_000);
    assert_eq!(smooth(500, 900, 0), 500);
    assert_eq!(smooth(500, 900, ONE), 900);
    assert_eq!(smooth(10, 20, ONE / 3), 13);
    assert_eq!(smooth(1, 0, 350_000), 0);
}

#[test]
fn smoothing_saturates() {
    assert_eq!(smooth(100, AMP_MAX, 3 * ONE), AMP_MAX);
    assert_eq!(smooth(100, 0, 3 * ONE), 0);
    assert_eq!(smooth(-5, i64::MAX, ONE), AMP_MAX);
    assert_eq!(smooth(i64::MAX, i64::MIN, i64::MAX), 0);
    assert_eq!(smooth(i64::MIN, i64::MAX, i64::MIN), 0);
}

#[test]
fn positions_live_on_a_circle() {
    let circ = 24 * ONE;
    assert_eq!(wrap(25 * ONE, circ), ONE);
    assert_eq!(wrap(-ONE, circ), 23 * ONE);
    assert_eq!(wrap(0, circ), 0);
    assert_eq!(wrap(circ, circ), 0);
    assert_eq!(distance_round(23_900_000, 100_000, circ), 200_000);
    assert_eq!(distance_round(100_000, 23_900_000, circ), 200_000);
    assert_eq!(distance_round(0, 12 * ONE, circ), 12 * ONE);
    assert_eq!(distance_round(5 * ONE, 5 * ONE, circ), 0);
    assert_eq!(gap_round(23_900_000, 100_000, circ), 200_000);
    assert_eq!(gap_round(100_000, 23_900_000, circ), -200_000);
    assert_eq!(gap_round(0, 12 * ONE, circ), 12 * ONE);
    assert_eq!(distance_round(i64::MIN, i64::MAX, circ), distance_round(i64::MAX, i64::MIN, circ));
}

#[test]
fn position_smoothing_takes_the_short_way_round() {
    let circ = 24 * ONE;
    assert_eq!(smooth_position(23_900_000, 100_000, 300_000, circ), 23_960_000);
    assert_eq!(smooth_position(100_000, 23_900_000, 300_000, circ), 40_000);
    assert_eq!(smooth_position(23_900_000, 100_000, ONE, circ), 100_000);
    assert_eq!(smooth_position(5 * ONE, 6 * ONE, ONE / 2, circ), 5_500_000);
    assert_eq!(smooth_position(5 * ONE, 6 * ONE, 0, circ), 5 * ONE);
}

#[test]
fn bell_curve_heights() {
    assert_eq!(gaussian(0, 1_400_000), ONE);
    assert_eq!(gaussian(1_400_000, 1_400_000), 606_309);
    assert_eq!(gaussian(-1_400_000, 1_400_000), 606_309);
    assert_eq!(gaussian(ONE, 1_400_000), 774_658);
    assert_eq!(gaussian(2 * ONE, 1_400_000), 360_114);
    assert_eq!(gaussian(12 * ONE, 1_400_000), 0);
    assert_eq!(gaussian(ONE, 100_000), 0);
}

#[test]
fn bell_curve_without_width_is_a_spike() {
    assert_eq!(gaussian(0, 0), ONE);
    assert_eq!(gaussian(1, 0), 0);
    assert_eq!(gaussian(-1, 0), 0);
    assert_eq!(gaussian(0, -5), ONE);
}
