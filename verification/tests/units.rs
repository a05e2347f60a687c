use scene_graph::units::{clamp_magnitude_to_unit, clamp_to_unit, UNIT};

#[test]
fn one_whole_is_a_million_millionths() {
    assert_eq!(UNIT, 1_000_000);
}

#[test]
fn clamping_brings_values_into_the_unit_range() {
    assert_eq!(clamp_to_unit(-1), 0);
    assert_eq!(clamp_to_unit(i64::MIN), 0);
    assert_eq!(clamp_to_unit(0), 0);
    assert_eq!(clamp_to_unit(250_000), 250_000);
    assert_eq!(clamp_to_unit(UNIT), UNIT);
    assert_eq!(clamp_to_unit(UNIT + 1), UNIT);
    assert_eq!(clamp_to_unit(i64::MAX), UNIT);
}

#[test]
fn clamping_the_magnitude_drops_the_sign_first() {
    assert_eq!(clamp_magnitude_to_unit(-250_000), 250_000);
    assert_eq!(clamp_magnitude_to_unit(250_000), 250_000);
    assert_eq!(clamp_magnitude_to_unit(-UNIT), UNIT);
    assert_eq!(clamp_magnitude_to_unit(-UNIT - 1), UNIT);
    assert_eq!(clamp_magnitude_to_unit(i64::MIN), UNIT);
    assert_eq!(clamp_magnitude_to_unit(i64::MAX), UNIT);
    assert_eq!(clamp_magnitude_to_unit(0), 0);
    assert_eq!(clamp_magnitude_to_unit(-1), 1);
}

#[test]
fn clamping_twice_is_clamping_once() {
    for x in [-5, 0, 1, 999_999, 1_000_000, 1_000_001, i64::MAX] {
        assert_eq!(clamp_to_unit(clamp_to_unit(x)), clamp_to_unit(x));
    }
}
