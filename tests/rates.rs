use kdownload::rate::{parse_bandwidth_limit, RateError};

fn float_rate(value: f64, mult: f64) -> u64 {
    (value * mult).round() as u64
}

#[test]
fn rates_with_units() {
    assert_eq!(parse_bandwidth_limit("50M/s"), Ok(50_000_000));
    assert_eq!(parse_bandwidth_limit("1M/s"), Ok(1_000_000));
    assert_eq!(parse_bandwidth_limit("1.5GiB/s"), Ok(float_rate(1.5, 1_073_741_824.0)));
    assert_eq!(parse_bandwidth_limit("800kbps"), Ok(800_000));
    assert_eq!(parse_bandwidth_limit("2.5k"), Ok(2_500));
    assert_eq!(parse_bandwidth_limit(" 5 M "), Ok(5_000_000));
    assert_eq!(parse_bandwidth_limit("10Ki"), Ok(10_240));
    assert_eq!(parse_bandwidth_limit("3MiB/s"), Ok(3 * 1_048_576));
    assert_eq!(parse_bandwidth_limit("1gb"), Ok(1_000_000_000));
    assert_eq!(parse_bandwidth_limit("1234"), Ok(1234));
    assert_eq!(parse_bandwidth_limit(".5k"), Ok(500));
    assert_eq!(parse_bandwidth_limit("7."), Ok(7));
}

#[test]
fn rates_round_half_up() {
    assert_eq!(parse_bandwidth_limit("0.5"), Ok(1));
    assert_eq!(parse_bandwidth_limit("2.4999"), Ok(2));
    assert_eq!(parse_bandwidth_limit("0.0015k"), Ok(2));
    assert_eq!(parse_bandwidth_limit("0.1M"), Ok(float_rate(0.1, 1_000_000.0)));
}

#[test]
fn rate_errors() {
    assert_eq!(parse_bandwidth_limit(""), Err(RateError::Empty));
    assert_eq!(parse_bandwidth_limit("  /s"), Err(RateError::Empty));
    assert_eq!(parse_bandwidth_limit("M/s"), Err(RateError::InvalidNumber));
    assert_eq!(parse_bandwidth_limit("."), Err(RateError::InvalidNumber));
    assert_eq!(parse_bandwidth_limit("1.2.3M"), Err(RateError::InvalidNumber));
    assert_eq!(parse_bandwidth_limit("5X"), Err(RateError::UnsupportedSuffix));
    assert_eq!(parse_bandwidth_limit("1e5"), Err(RateError::UnsupportedSuffix));
    assert_eq!(parse_bandwidth_limit("0"), Err(RateError::NotPositive));
    assert_eq!(parse_bandwidth_limit("0.4"), Err(RateError::NotPositive));
}

#[test]
fn huge_rates_saturate() {
    assert_eq!(parse_bandwidth_limit("99999999999999999999999G"), Ok(u64::MAX));
    assert_eq!(parse_bandwidth_limit("18446744073709551615"), Ok(u64::MAX));
    assert_eq!(parse_bandwidth_limit("18446744073709551616"), Ok(u64::MAX));
}
