use bloomlib::params::{
    calc_optimal_number_of_bits, calculate_optimal_number_of_hashes, estimate_false_positive_rate,
};
use bloomlib::FilterError;

#[test]
fn test_deterministic_sizing() {
    // m = ceil(-n * ln(p) / (ln 2)^2) for n = 1000, p = 0.01
    assert_eq!(calc_optimal_number_of_bits(1000, 1, 100), Ok(9586));
    // k = ceil((m / n) * ln 2) for m = 9586, n = 1000
    assert_eq!(calculate_optimal_number_of_hashes(9586, 1000), Ok(7));
}

#[test]
fn test_sizing_more_values() {
    assert_eq!(calc_optimal_number_of_bits(10, 1, 100), Ok(96));
    assert_eq!(calc_optimal_number_of_bits(3, 1, 100), Ok(29));
    assert_eq!(calc_optimal_number_of_bits(100, 1, 100), Ok(959));
    assert_eq!(calc_optimal_number_of_bits(10000, 5, 100), Ok(62353));
    assert_eq!(calculate_optimal_number_of_hashes(62353, 10000), Ok(5));
    assert_eq!(calculate_optimal_number_of_hashes(96, 10), Ok(7));
    // the hash count is clamped to at least one
    assert_eq!(calculate_optimal_number_of_hashes(1, 1000), Ok(1));
    assert_eq!(calculate_optimal_number_of_hashes(0, 1000), Ok(1));
}

#[test]
fn test_invalid_parameters() {
    // zero expected items
    assert_eq!(calc_optimal_number_of_bits(0, 1, 100), Err(FilterError::InvalidParameter));
    // rate of zero
    assert_eq!(calc_optimal_number_of_bits(1000, 0, 100), Err(FilterError::InvalidParameter));
    // rate of one
    assert_eq!(calc_optimal_number_of_bits(1000, 100, 100), Err(FilterError::InvalidParameter));
    // rate above one
    assert_eq!(calc_optimal_number_of_bits(1000, 101, 100), Err(FilterError::InvalidParameter));
    // zero expected items for the hash count
    assert_eq!(calculate_optimal_number_of_hashes(9586, 0), Err(FilterError::InvalidParameter));
}

#[test]
fn test_estimator_exact_value() {
    // (1 - e^(-7 * 1000 / 9586))^7 is about 0.010035
    let ppb = estimate_false_positive_rate(7, 9586, 1000);
    assert_eq!(ppb, 10034531);
}

#[test]
fn test_estimator_sanity() {
    // for n = 1000, p = 0.01 the estimate stays within 10% of the target
    let m = calc_optimal_number_of_bits(1000, 1, 100).unwrap();
    let k = calculate_optimal_number_of_hashes(m, 1000).unwrap();
    let est = estimate_false_positive_rate(k, m, 1000) as f64 / 1e9;
    assert!((0.01 - est).abs() < 0.001, "estimate {} deviates too far from 0.01", est);
    assert!(est > 0.0);
}
