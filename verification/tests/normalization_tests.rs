//! Normalization: min/max determination and scaling into [0, UNIT].

use ips_core::normalization::NormalizationFactors;
use ips_core::UNIT;

#[test]
fn normalization_factors_determine_test() {
    let list = vec![1 * UNIT, 2 * UNIT, 3 * UNIT, 4 * UNIT, 5 * UNIT];
    let factors = NormalizationFactors::determine(&list).unwrap();

    assert_eq!(factors.min, 1 * UNIT);
    assert_eq!(factors.max, 5 * UNIT);
}

#[test]
fn normalization_factors_determine_empty_test() {
    let list: Vec<i64> = Vec::new();
    assert!(NormalizationFactors::determine(&list).is_none());
}

#[test]
fn normalization_factors_scale_test() {
    let factors = NormalizationFactors { min: 1 * UNIT, max: 5 * UNIT };
    let value = 3 * UNIT;

    // (3 - 1) / (5 - 1) = 0.5
    assert_eq!(factors.scale(value), 500_000);
}

#[test]
fn normalization_factors_scale_divide_zero_test() {
    let factors = NormalizationFactors { min: 2 * UNIT, max: 2 * UNIT };
    let value = 3 * UNIT;

    assert_eq!(factors.scale(value), 0);
}

#[test]
fn normalization_factors_scale_endpoints_test() {
    let factors = NormalizationFactors { min: 2 * UNIT, max: 10 * UNIT };
    assert_eq!(factors.scale(2 * UNIT), 0);
    assert_eq!(factors.scale(10 * UNIT), UNIT);
    // Out-of-range values are not clipped.
    assert_eq!(factors.scale(18 * UNIT), 2 * UNIT);
    assert_eq!(factors.scale(-6 * UNIT), -1 * UNIT);
}
