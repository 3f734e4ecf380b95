use snow_raffle::{parse_number, validate, ValidationError};

#[test]
fn parse_plain_and_signed_numbers() {
    assert_eq!(parse_number("42"), Some(42));
    assert_eq!(parse_number("+7"), Some(7));
    assert_eq!(parse_number("-3"), Some(-3));
    assert_eq!(parse_number("007"), Some(7));
    assert_eq!(parse_number("0"), Some(0));
}

#[test]
fn parse_rejects_malformed_text() {
    assert_eq!(parse_number(""), None);
    assert_eq!(parse_number("-"), None);
    assert_eq!(parse_number("+"), None);
    assert_eq!(parse_number("abc"), None);
    assert_eq!(parse_number("12a"), None);
    assert_eq!(parse_number(" 5"), None);
    assert_eq!(parse_number("5 "), None);
    assert_eq!(parse_number("--5"), None);
}

#[test]
fn parse_at_the_edges_of_i32() {
    assert_eq!(parse_number("2147483647"), Some(i32::MAX));
    assert_eq!(parse_number("-2147483648"), Some(i32::MIN));
    assert_eq!(parse_number("2147483648"), None);
    assert_eq!(parse_number("-2147483649"), None);
    assert_eq!(parse_number("99999999999999999999"), None);
    assert_eq!(parse_number("99999999999999999999x"), None);
    assert_eq!(parse_number("000000000000000000001"), Some(1));
}

#[test]
fn validate_checks_rules_in_order() {
    assert_eq!(validate("", "Doe", "a@b.com", "abc").unwrap_err(), ValidationError::MissingField);
    assert_eq!(validate("Jo", "", "a@b.com", "5").unwrap_err(), ValidationError::MissingField);
    assert_eq!(validate("Jo", "Doe", "", "5").unwrap_err(), ValidationError::MissingField);
    assert_eq!(validate("Jo", "Doe", "a@b.com", "").unwrap_err(), ValidationError::MissingField);
    assert_eq!(validate("Jo", "Doe", "a@b.com", "abc").unwrap_err(), ValidationError::NotANumber);
    assert_eq!(validate("Jo", "Doe", "a@b.com", "0").unwrap_err(), ValidationError::OutOfRange);
    assert_eq!(validate("Jo", "Doe", "a@b.com", "-4").unwrap_err(), ValidationError::OutOfRange);
}

#[test]
fn validate_accepts_a_complete_form() {
    let reg = validate("Jo", "Doe", "not-an-email", "12").unwrap();
    assert_eq!(reg.first_name, "Jo");
    assert_eq!(reg.surname, "Doe");
    assert_eq!(reg.email, "not-an-email");
    assert_eq!(reg.number, 12);
}

#[test]
fn validation_messages_differ() {
    let a = ValidationError::MissingField.message();
    let b = ValidationError::NotANumber.message();
    let c = ValidationError::OutOfRange.message();
    assert!(a != b && b != c && a != c);
    assert_eq!(a, "Please fill all fields!");
}

#[test]
fn validation_messages_are_fixed() {
    assert_eq!(ValidationError::NotANumber.message(), "Invalid number format!");
    assert_eq!(ValidationError::OutOfRange.message(), "Number must be >= 1");
}
