use mastermind::options::{parse_positive_int, validate_positive_int, Options};

#[test]
fn test_parse_positive_int_accepts_plain_decimals() {
    assert_eq!(parse_positive_int("1"), Some(1));
    assert_eq!(parse_positive_int("6"), Some(6));
    assert_eq!(parse_positive_int("123"), Some(123));
    assert_eq!(parse_positive_int("007"), Some(7));
    assert_eq!(parse_positive_int("4294967295"), Some(u32::MAX));
}

#[test]
fn test_parse_positive_int_rejects_everything_else() {
    assert_eq!(parse_positive_int(""), None);
    assert_eq!(parse_positive_int("0"), None);
    assert_eq!(parse_positive_int("000"), None);
    assert_eq!(parse_positive_int("-3"), None);
    assert_eq!(parse_positive_int("+3"), None);
    assert_eq!(parse_positive_int("3x"), None);
    assert_eq!(parse_positive_int("two"), None);
    assert_eq!(parse_positive_int("4294967296"), None);
    assert_eq!(parse_positive_int("99999999999999999999"), None);
}

#[test]
fn test_validate_positive_int_message() {
    assert_eq!(validate_positive_int(String::from("6")), Ok(()));
    assert_eq!(
        validate_positive_int(String::from("six")),
        Err(String::from("must be a positive integer"))
    );
    assert_eq!(
        validate_positive_int(String::from("0")),
        Err(String::from("must be a positive integer"))
    );
}

#[test]
fn test_options_fields() {
    let options = Options { code_length: 4, code_base: 6 };
    assert_eq!(options.code_length, 4);
    assert_eq!(options.code_base, 6);
}
