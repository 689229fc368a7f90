use linfit::{parse_values, TrainingError};

fn parse(s: &str) -> Result<Vec<(i64, i64)>, TrainingError> {
    parse_values(&s.as_bytes().to_vec())
}

#[test]
fn single_field_line_has_not_enough_values() {
    assert_eq!(parse("5"), Err(TrainingError::NotEnoughValues(1)));
}

#[test]
fn error_names_the_line() {
    assert_eq!(parse("1,2\n3,4\n5\n"), Err(TrainingError::NotEnoughValues(3)));
    assert_eq!(parse("1,2\n\n3,4"), Err(TrainingError::NotEnoughValues(2)));
}

#[test]
fn malformed_number_is_an_error() {
    assert_eq!(parse("1,abc"), Err(TrainingError::InvalidNumber(1)));
    assert_eq!(parse("1,2\n.,4"), Err(TrainingError::InvalidNumber(2)));
    assert_eq!(parse("1,2.3.4"), Err(TrainingError::InvalidNumber(1)));
    assert_eq!(parse("-,1"), Err(TrainingError::InvalidNumber(1)));
}

#[test]
fn number_out_of_range_is_an_error() {
    assert_eq!(parse("10001,1"), Err(TrainingError::InvalidNumber(1)));
    assert_eq!(parse("1,-10000.000001"), Err(TrainingError::InvalidNumber(1)));
    assert_eq!(parse("10000,-10000"), Ok(vec![(10_000_000_000, -10_000_000_000)]));
}

#[test]
fn reads_decimals_and_ignores_extra_fields() {
    assert_eq!(
        parse(" 1.5 , -2\n3,+4,extra\r\n.25,7.\n"),
        Ok(vec![(1_500_000, -2_000_000), (3_000_000, 4_000_000), (250_000, 7_000_000)])
    );
}

#[test]
fn drops_digits_beyond_six_places() {
    assert_eq!(parse("0.1234567,-0.0000019"), Ok(vec![(123_456, -1)]));
}

#[test]
fn empty_text_has_no_samples() {
    assert_eq!(parse(""), Ok(vec![]));
}

#[test]
fn exponent_line_is_a_record() {
    assert_eq!(parse("1e3,1\n5"), Err(TrainingError::NotEnoughValues(2)));
    assert_eq!(parse("1e3,1"), Ok(vec![(1_000_000_000, 1_000_000)]));
}

#[test]
fn reads_exponents() {
    assert_eq!(parse("2.5E-1,1e+2"), Ok(vec![(250_000, 100_000_000)]));
    assert_eq!(parse("1.e1, .5e1"), Ok(vec![(10_000_000, 5_000_000)]));
    assert_eq!(parse("-1.5e3,0.0000012345e2"), Ok(vec![(-1_500_000_000, 123)]));
    assert_eq!(parse("1e-7,-1e-6"), Ok(vec![(0, -1)]));
    assert_eq!(parse("1000000e-2,0e99999999999999999999999"), Ok(vec![(10_000_000_000, 0)]));
    assert_eq!(parse("5e-99999999999999999999999,0"), Ok(vec![(0, 0)]));
}

#[test]
fn malformed_or_large_exponent_is_an_error() {
    assert_eq!(parse("1e,1"), Err(TrainingError::InvalidNumber(1)));
    assert_eq!(parse("e5,1"), Err(TrainingError::InvalidNumber(1)));
    assert_eq!(parse("1e+,1"), Err(TrainingError::InvalidNumber(1)));
    assert_eq!(parse("1e5,1"), Err(TrainingError::InvalidNumber(1)));
    assert_eq!(parse("1e99999999999999999999999,1"), Err(TrainingError::InvalidNumber(1)));
    assert_eq!(parse("inf,1"), Err(TrainingError::InvalidNumber(1)));
}
