use tempmon::reading::Decimal;
use tempmon::format::format_to_string;
use tempmon::sample::get_temperature;

#[test]
fn sample_rounds_to_two_decimals() {
    assert_eq!(get_temperature("23.456").unwrap(), "23.46");
}

#[test]
fn sample_rescales_raw_reading() {
    assert_eq!(get_temperature("45000").unwrap(), "45.00");
}

#[test]
fn sample_trims_whitespace() {
    assert_eq!(get_temperature("  12.3\n").unwrap(), "12.30");
}

#[test]
fn sample_rejects_non_number() {
    assert!(get_temperature("abc").is_err());
}

#[test]
fn sample_pads_missing_decimals() {
    assert_eq!(get_temperature("7").unwrap(), "7.00");
    assert_eq!(get_temperature("7.").unwrap(), "7.00");
    assert_eq!(get_temperature(".5").unwrap(), "0.50");
}

#[test]
fn sample_keeps_threshold_value() {
    assert_eq!(get_temperature("1000").unwrap(), "1000.00");
    assert_eq!(get_temperature("1000.000").unwrap(), "1000.00");
}

#[test]
fn sample_rescales_just_above_threshold() {
    assert_eq!(get_temperature("1000.001").unwrap(), "1.00");
    assert_eq!(get_temperature("1001").unwrap(), "1.00");
}

#[test]
fn sample_rounds_up_below_threshold() {
    assert_eq!(get_temperature("999.999").unwrap(), "1000.00");
}

#[test]
fn sample_keeps_negative_readings() {
    assert_eq!(get_temperature("-5").unwrap(), "-5.00");
    assert_eq!(get_temperature("-2000").unwrap(), "-2000.00");
    assert_eq!(get_temperature("-0.004").unwrap(), "-0.00");
}

#[test]
fn sample_rounds_half_away_from_zero() {
    assert_eq!(get_temperature("0.005").unwrap(), "0.01");
    assert_eq!(get_temperature("2.345").unwrap(), "2.35");
    assert_eq!(get_temperature("0.0049").unwrap(), "0.00");
}

#[test]
fn sample_accepts_plus_sign_and_leading_zeros() {
    assert_eq!(get_temperature("+7.5").unwrap(), "7.50");
    assert_eq!(get_temperature("0012.30").unwrap(), "12.30");
}

#[test]
fn sample_is_exact_on_large_readings() {
    assert_eq!(
        get_temperature("123456789012345678901234567890").unwrap(),
        "123456789012345678901234567.89"
    );
}

#[test]
fn sample_rejects_malformed_text() {
    assert!(get_temperature("").is_err());
    assert!(get_temperature("   ").is_err());
    assert!(get_temperature(".").is_err());
    assert!(get_temperature("-").is_err());
    assert!(get_temperature("+").is_err());
    assert!(get_temperature("1.2.3").is_err());
    assert!(get_temperature("12a").is_err());
    assert!(get_temperature("1e3").is_err());
}

#[test]
fn sample_is_idempotent_on_unchanged_text() {
    let first = get_temperature("23.456").unwrap();
    let second = get_temperature("23.456").unwrap();
    assert_eq!(first, second);
}

#[test]
fn formatted_readings_match_the_pattern() {
    for raw in ["23.456", "45000", "-0.004", "0", "999.999", "  1.5 "] {
        let out = get_temperature(raw).unwrap();
        let chars: Vec<char> = out.chars().collect();
        let body: &[char] = if chars[0] == '-' { &chars[1..] } else { &chars[..] };
        let n = body.len();
        assert!(n >= 4);
        assert_eq!(body[n - 3], '.');
        for c in &body[..n - 3] {
            assert!(c.is_ascii_digit());
        }
        assert!(body[n - 2].is_ascii_digit());
        assert!(body[n - 1].is_ascii_digit());
    }
}

#[test]
fn format_pads_an_exact_decimal() {
    let d = Decimal { neg: false, int_digits: vec![4, 5], frac_digits: vec![] };
    assert_eq!(format_to_string(&d), "45.00");
    let zero = Decimal { neg: false, int_digits: vec![], frac_digits: vec![0] };
    assert_eq!(format_to_string(&zero), "0.00");
}
