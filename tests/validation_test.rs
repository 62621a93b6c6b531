use toolchest::validation::{
    is_ascii, is_utf8, luhn, validate_credit_card, validate_iban, validate_phone, validate_ssn,
};

#[test]
fn test_validation_basics() {
    // 4111111111111111 is a common test Visa (Luhn passes)
    assert!(validate_credit_card("4111111111111111"));
    assert!(is_ascii("hello"));
    assert!(is_utf8(b"hello"));
}

#[test]
fn luhn_edge_cases() {
    assert!(!luhn(""));
    assert!(!luhn("4111111111111112"));
    assert!(luhn("4111 1111 1111 1111"));
    assert!(!is_ascii("héllo"));
    assert!(!is_utf8(&[0xff, 0xfe]));
}

#[test]
fn test_validate_iban() {
    assert!(validate_iban("GB82 WEST 1234 5698 7654 32"));
    assert!(validate_iban("DE89 3704 0044 0532 0130 00"));
    assert!(validate_iban("FR14 2004 1010 0505 0001 3M02 606"));
    assert!(validate_iban("GR16 0110 1250 0000 0001 2300 695"));

    assert!(!validate_iban("GB82 TEST 1234 5698 7654 32"));
    assert!(!validate_iban("DE89 3704 0044 0532 0130 0"));
    assert!(!validate_iban("DE89 3704 0044 0532 0130 00!"));
}

#[test]
fn test_validate_phone_e164() {
    assert!(validate_phone("+12025550123"));
    assert!(validate_phone("+442071838750"));
    assert!(validate_phone("+918527001234"));

    assert!(!validate_phone("12025550123"));
    assert!(!validate_phone("+0123456789"));
    assert!(!validate_phone("+1234567890123456"));
    assert!(!validate_phone("+12345abc"));
}

#[test]
fn test_validate_ssn_us() {
    assert!(validate_ssn("123-45-6789"));
    assert!(validate_ssn("123456789"));

    assert!(!validate_ssn("000-12-3456"));
    assert!(!validate_ssn("666-12-3456"));
    assert!(!validate_ssn("900-12-3456"));
    assert!(!validate_ssn("123-00-6789"));
    assert!(!validate_ssn("123-45-0000"));
    assert!(!validate_ssn("123-45-678"));
}

#[test]
fn ssn_layout_is_strict() {
    assert!(!validate_ssn("12345-6789"));
    assert!(!validate_ssn("123 45 6789"));
    assert!(!validate_ssn("123-456-789"));
}
