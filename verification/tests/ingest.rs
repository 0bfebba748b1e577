use metagame_stats::{bool_from_str, float_to_int, StatsError};

#[test]
fn true_and_false_are_read() {
    assert_eq!(bool_from_str("true"), Ok(true));
    assert_eq!(bool_from_str("false"), Ok(false));
}

#[test]
fn yes_is_a_malformed_boolean() {
    assert_eq!(bool_from_str("yes"), Err(StatsError::MalformedBoolean));
}

#[test]
fn other_spellings_are_malformed_booleans() {
    for text in ["", "True", "FALSE", "1", "0", " true", "true ", "no", "truefalse"] {
        assert_eq!(bool_from_str(text), Err(StatsError::MalformedBoolean));
    }
}

#[test]
fn whole_numbers_are_read_as_they_are() {
    assert_eq!(float_to_int(0.0f64.to_bits()), Ok(0));
    assert_eq!(float_to_int(1.0f64.to_bits()), Ok(1));
    assert_eq!(float_to_int(2.0f64.to_bits()), Ok(2));
    assert_eq!(float_to_int(3.0f64.to_bits()), Ok(3));
    assert_eq!(float_to_int(1700000000.0f64.to_bits()), Ok(1700000000));
    assert_eq!(float_to_int(4503599627370496.0f64.to_bits()), Ok(4503599627370496));
    assert_eq!(float_to_int(9007199254740992.0f64.to_bits()), Ok(9007199254740992));
    assert_eq!(float_to_int(9007199254740994.0f64.to_bits()), Ok(9007199254740994));
}

#[test]
fn fractions_are_cut_off() {
    assert_eq!(float_to_int(3.7f64.to_bits()), Ok(3));
    assert_eq!(float_to_int(0.999f64.to_bits()), Ok(0));
    assert_eq!(float_to_int(0.5f64.to_bits()), Ok(0));
    assert_eq!(float_to_int(1.9999999f64.to_bits()), Ok(1));
    assert_eq!(float_to_int(1700000000.75f64.to_bits()), Ok(1700000000));
    assert_eq!(float_to_int(4503599627370495.5f64.to_bits()), Ok(4503599627370495));
}

#[test]
fn tiny_numbers_are_zero() {
    assert_eq!(float_to_int(f64::MIN_POSITIVE.to_bits()), Ok(0));
    assert_eq!(float_to_int(5e-324f64.to_bits()), Ok(0));
    assert_eq!(float_to_int(1u64), Ok(0));
}

#[test]
fn negative_zero_is_zero() {
    assert_eq!(float_to_int((-0.0f64).to_bits()), Ok(0));
}

#[test]
fn negative_numbers_are_invalid() {
    assert_eq!(float_to_int((-1.0f64).to_bits()), Err(StatsError::InvalidNumeric));
    assert_eq!(float_to_int((-0.5f64).to_bits()), Err(StatsError::InvalidNumeric));
    assert_eq!(float_to_int((-5e-324f64).to_bits()), Err(StatsError::InvalidNumeric));
    assert_eq!(float_to_int((-1e300f64).to_bits()), Err(StatsError::InvalidNumeric));
}

#[test]
fn what_is_no_number_is_invalid() {
    assert_eq!(float_to_int(f64::NAN.to_bits()), Err(StatsError::InvalidNumeric));
    assert_eq!(float_to_int(f64::INFINITY.to_bits()), Err(StatsError::InvalidNumeric));
    assert_eq!(float_to_int(f64::NEG_INFINITY.to_bits()), Err(StatsError::InvalidNumeric));
}

#[test]
fn large_numbers_are_read_while_they_fit() {
    assert_eq!(float_to_int(1e19f64.to_bits()), Ok(10000000000000000000));
    assert_eq!(float_to_int(9223372036854775808.0f64.to_bits()), Ok(9223372036854775808));
    assert_eq!(float_to_int(18446744073709549568.0f64.to_bits()), Ok(18446744073709549568));
}

#[test]
fn numbers_that_do_not_fit_are_invalid() {
    assert_eq!(float_to_int(18446744073709551616.0f64.to_bits()), Err(StatsError::InvalidNumeric));
    assert_eq!(float_to_int(1e20f64.to_bits()), Err(StatsError::InvalidNumeric));
    assert_eq!(float_to_int(f64::MAX.to_bits()), Err(StatsError::InvalidNumeric));
}

#[test]
fn float_to_int_agrees_with_truncation() {
    for value in [0.25f64, 1.5, 2.75, 10.0, 255.99, 65536.5, 1e9, 123456789.123, 1e15 + 0.5] {
        assert_eq!(float_to_int(value.to_bits()), Ok(value.trunc() as usize));
    }
}

#[test]
fn each_error_has_its_message() {
    assert_eq!(StatsError::NotFound.message(), "record not found");
    assert_eq!(
        StatsError::InvalidNumeric.message(),
        "number outside the non-negative integer range"
    );
    assert_eq!(StatsError::MalformedBoolean.message(), "expected true or false");
}
