use fifo_pnl::decimal::DecimalError;
use fifo_pnl::decimal::parse_decimal;
use fifo_pnl::trade::MAX_QTY;

#[test]
fn parses_whole_numbers() {
    assert_eq!(parse_decimal("0"), Ok(0));
    assert_eq!(parse_decimal("1"), Ok(100_000_000));
    assert_eq!(parse_decimal("100"), Ok(10_000_000_000));
    assert_eq!(parse_decimal("007"), Ok(700_000_000));
}

#[test]
fn parses_fractional_numbers() {
    assert_eq!(parse_decimal("0.4"), Ok(40_000_000));
    assert_eq!(parse_decimal("1.0"), Ok(100_000_000));
    assert_eq!(parse_decimal("0.00000001"), Ok(1));
    assert_eq!(parse_decimal("123.456789"), Ok(12_345_678_900));
    assert_eq!(parse_decimal("0.12345678"), Ok(12_345_678));
    assert_eq!(parse_decimal("0.500000"), Ok(50_000_000));
}

#[test]
fn rejects_malformed_strings() {
    assert_eq!(parse_decimal(""), Err(DecimalError::Malformed));
    assert_eq!(parse_decimal("."), Err(DecimalError::Malformed));
    assert_eq!(parse_decimal("1."), Err(DecimalError::Malformed));
    assert_eq!(parse_decimal(".5"), Err(DecimalError::Malformed));
    assert_eq!(parse_decimal("1.2.3"), Err(DecimalError::Malformed));
    assert_eq!(parse_decimal("12a"), Err(DecimalError::Malformed));
    assert_eq!(parse_decimal("-1"), Err(DecimalError::Malformed));
    assert_eq!(parse_decimal("1e3"), Err(DecimalError::Malformed));
    assert_eq!(parse_decimal(" 1"), Err(DecimalError::Malformed));
    assert_eq!(parse_decimal("１２３"), Err(DecimalError::Malformed));
}

#[test]
fn accepts_zero_padding_beyond_the_eighth_fractional_digit() {
    assert_eq!(parse_decimal("1.2500000000"), Ok(125_000_000));
    assert_eq!(parse_decimal("0.500000000000"), Ok(50_000_000));
    assert_eq!(parse_decimal("30010.100000000"), Ok(3_001_010_000_000));
    assert_eq!(parse_decimal("0.000000000"), Ok(0));
    assert_eq!(parse_decimal("123.456789000"), Ok(12_345_678_900));
}

#[test]
fn rejects_nonzero_digits_beyond_the_eighth_fractional_digit() {
    assert_eq!(parse_decimal("0.123456789"), Err(DecimalError::Malformed));
    assert_eq!(parse_decimal("1.000000001"), Err(DecimalError::Malformed));
    assert_eq!(parse_decimal("0.0000000001"), Err(DecimalError::Malformed));
}

#[test]
fn rejects_values_out_of_range() {
    // MAX_QTY is 140_737_488_355_328 scaled, i.e. 1407374.88355328.
    assert_eq!(parse_decimal("1407374.88355328"), Ok(MAX_QTY));
    assert_eq!(parse_decimal("1407374.88355329"), Err(DecimalError::OutOfRange));
    assert_eq!(
        parse_decimal("99999999999999999999"),
        Err(DecimalError::OutOfRange)
    );
}
