//! Tests for configuration validation and the duty-cycle interpolator.

use fan_curve::curve::{compute_duty_cycle, validate, ConfigError, CurveConfig};

fn cfg(temp_step: Vec<u8>, speed_step: Vec<u8>, manual_speed: Option<u8>) -> CurveConfig {
    validate(temp_step, speed_step, manual_speed).unwrap()
}

/// The duty cycle as the fraction the PWM driver consumes.
fn duty_fraction(temperature: u8, config: &CurveConfig) -> f64 {
    compute_duty_cycle(temperature, config) as f64 / 100.0
}

#[test]
fn test_manual_speed() {
    let config = cfg(vec![50, 70, 80], vec![20, 50, 100], Some(42));
    assert_eq!(duty_fraction(60, &config), 0.42);
    assert_eq!(duty_fraction(80, &config), 0.42);
}

#[test]
fn test_below_first_temp() {
    let config = cfg(vec![50, 70, 80], vec![20, 50, 100], None);
    assert_eq!(duty_fraction(40, &config), 0.20);
    assert_eq!(duty_fraction(0, &config), 0.20);
}

#[test]
fn test_above_last_temp() {
    let config = cfg(vec![50, 70, 80], vec![20, 50, 100], None);
    assert_eq!(duty_fraction(90, &config), 1.0);
    assert_eq!(duty_fraction(255, &config), 1.0);
}

#[test]
fn test_exact_temp_steps() {
    let config = cfg(vec![50, 70, 80], vec![20, 50, 100], None);
    assert_eq!(duty_fraction(50, &config), 0.2);
    assert_eq!(duty_fraction(70, &config), 0.5);
    assert_eq!(duty_fraction(80, &config), 1.0);
}

#[test]
fn test_linear_interpolation() {
    let config = cfg(vec![50, 70, 80], vec![20, 50, 100], None);
    // Between 50 and 70: 20 -> 50
    assert_eq!(duty_fraction(65, &config), 0.42);
    // Between 70 and 80: 50 -> 100
    assert_eq!(duty_fraction(75, &config), 0.75);
}

#[test]
fn test_non_uniform_steps() {
    let config = cfg(vec![40, 60, 90], vec![10, 60, 80], None);
    // Between 40 and 60: 10 -> 60
    assert_eq!(duty_fraction(50, &config), 0.35);
    // Between 60 and 90: 60 -> 80
    assert_eq!(duty_fraction(75, &config), 0.7);
}

#[test]
fn test_step_count_mismatch() {
    let result = validate(vec![50, 70, 80], vec![20, 50], None);
    assert_eq!(result.unwrap_err(), ConfigError::StepCountMismatch);
}

#[test]
fn test_duty_cycle_in_range_for_every_temperature() {
    let config = cfg(vec![10, 80, 90, 200], vec![1, 7, 99, 100], None);
    for t in 0..=255u8 {
        assert!(compute_duty_cycle(t, &config) <= 100);
    }
}

#[test]
fn test_manual_speed_wins_for_every_temperature() {
    let config = cfg(vec![50, 70, 80], vec![20, 50, 100], Some(77));
    for t in 0..=255u8 {
        assert_eq!(compute_duty_cycle(t, &config), 77);
    }
}

#[test]
fn test_idempotent_computation() {
    let config = cfg(vec![50, 70, 80], vec![20, 50, 100], None);
    let first = compute_duty_cycle(65, &config);
    let second = compute_duty_cycle(65, &config);
    assert_eq!(first, second);
}

#[test]
fn test_single_breakpoint() {
    let config = cfg(vec![60], vec![30], None);
    assert_eq!(compute_duty_cycle(59, &config), 30);
    assert_eq!(compute_duty_cycle(60, &config), 30);
    assert_eq!(compute_duty_cycle(61, &config), 30);
}

#[test]
fn test_equal_adjacent_breakpoints() {
    // Two breakpoints share a temperature: the scan's lowest-index tie-break
    // gives the earlier breakpoint's speed at that temperature.
    let config = cfg(vec![50, 50, 80], vec![20, 60, 100], None);
    assert_eq!(compute_duty_cycle(50, &config), 20);
    // Interpolation above the duplicate still works: 60 + 40 * 15 / 30.
    assert_eq!(compute_duty_cycle(65, &config), 80);
}

#[test]
fn test_interpolation_rounds_down() {
    // 0 + 99 * 1 / 100 is 0.99 of a percent; integer division keeps 0.
    let config = cfg(vec![0, 100], vec![0, 99], None);
    assert_eq!(compute_duty_cycle(1, &config), 0);
    assert_eq!(compute_duty_cycle(100, &config), 99);
}

#[test]
fn test_getters_return_configuration() {
    let config = cfg(vec![50, 70, 80], vec![20, 50, 100], Some(9));
    assert_eq!(config.get_temp_step().as_slice(), &[50, 70, 80]);
    assert_eq!(config.get_speed_step().as_slice(), &[20, 50, 100]);
    assert_eq!(config.get_manual_speed(), Some(9));
}
