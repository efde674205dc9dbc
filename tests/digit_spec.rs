use chudnovsky_pi::digit_spec::{parse_digit_spec, DigitSpecError};

#[test]
fn plain_numbers() {
    assert_eq!(parse_digit_spec("123"), Ok(123));
    assert_eq!(parse_digit_spec("0"), Ok(0));
    assert_eq!(parse_digit_spec("+7"), Ok(7));
    assert_eq!(parse_digit_spec("  42\t\n"), Ok(42));
    assert_eq!(parse_digit_spec("4294967295"), Ok(u32::MAX));
}

#[test]
fn suffixes_in_either_case() {
    assert_eq!(parse_digit_spec("1K"), Ok(1_000));
    assert_eq!(parse_digit_spec("1k"), Ok(1_000));
    assert_eq!(parse_digit_spec("10M"), Ok(10_000_000));
    assert_eq!(parse_digit_spec("2g"), Ok(2_000_000_000));
    assert_eq!(parse_digit_spec("132876K"), Ok(132_876_000));
}

#[test]
fn scientific_notation() {
    assert_eq!(parse_digit_spec("1e6"), Ok(1_000_000));
    assert_eq!(parse_digit_spec("3E7"), Ok(30_000_000));
    assert_eq!(parse_digit_spec("5e0"), Ok(5));
}

#[test]
fn empty_spec() {
    assert_eq!(parse_digit_spec(""), Err(DigitSpecError::Empty));
    assert_eq!(parse_digit_spec(" \t "), Err(DigitSpecError::Empty));
}

#[test]
fn scientific_errors() {
    assert_eq!(parse_digit_spec("e5"), Err(DigitSpecError::InvalidScientific));
    assert_eq!(parse_digit_spec("5E"), Err(DigitSpecError::InvalidScientific));
    assert_eq!(parse_digit_spec("xe5"), Err(DigitSpecError::InvalidMantissa));
    assert_eq!(parse_digit_spec("5ex"), Err(DigitSpecError::InvalidExponent));
    assert_eq!(parse_digit_spec("1e3K"), Err(DigitSpecError::InvalidExponent));
    assert_eq!(parse_digit_spec("1e20"), Err(DigitSpecError::ExponentTooLarge));
    assert_eq!(parse_digit_spec("2e19"), Err(DigitSpecError::Overflow));
    assert_eq!(
        parse_digit_spec("5e9"),
        Err(DigitSpecError::TooManyDigits(5_000_000_000))
    );
}

#[test]
fn suffix_errors() {
    assert_eq!(parse_digit_spec("K"), Err(DigitSpecError::MissingNumber));
    assert_eq!(parse_digit_spec("12x"), Err(DigitSpecError::InvalidNumber));
    assert_eq!(parse_digit_spec("-7"), Err(DigitSpecError::InvalidNumber));
    assert_eq!(
        parse_digit_spec("20000000000000000000"),
        Err(DigitSpecError::InvalidNumber)
    );
    assert_eq!(
        parse_digit_spec("18446744073709551615K"),
        Err(DigitSpecError::Overflow)
    );
    assert_eq!(
        parse_digit_spec("4T"),
        Err(DigitSpecError::TooManyDigits(4_000_000_000_000))
    );
    assert_eq!(
        parse_digit_spec("4294967296"),
        Err(DigitSpecError::TooManyDigits(4_294_967_296))
    );
}
