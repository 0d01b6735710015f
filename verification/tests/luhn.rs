use capabilities::validators::luhn_check;

#[test]
fn main_happy_paths_from_spec_table() {
    assert_eq!(luhn_check("4111111111111111", true), Ok(true));
    assert_eq!(luhn_check("4111 1111 1111 1111", true), Ok(true));
}

#[test]
fn main_unhappy_paths_from_spec_table() {
    assert_eq!(luhn_check("", true), Err("empty"));
    assert_eq!(luhn_check("4111111111111112", true), Err("checksum_failed"));
    assert_eq!(luhn_check("4111-1111-1111-1111", false), Err("non_digit_characters"));
    assert_eq!(luhn_check("abcd1234", true), Err("non_digit_characters"));
    assert_eq!(luhn_check("4", true), Err("too_short"));
}

#[test]
fn strip_formatting_config_changes_result() {
    let with_stripping = luhn_check("4111-1111-1111-1111", true);
    let without_stripping = luhn_check("4111-1111-1111-1111", false);
    assert_ne!(with_stripping, without_stripping, "same input, different strip_formatting must differ");
    assert_eq!(with_stripping, Ok(true));
}

#[test]
fn unicode_spaces_are_stripped_and_other_letters_refused() {
    assert_eq!(luhn_check("4111\u{2003}1111\u{00a0}1111 1111", true), Ok(true));
    assert_eq!(luhn_check("41١1", true), Err("non_digit_characters"));
    assert_eq!(luhn_check("- -", true), Err("too_short"));
    assert_eq!(luhn_check("79927398713", false), Ok(true));
}

#[test]
fn reason_never_echoes_the_input_number() {
    let reason = match luhn_check("4111111111111112", true) {
        Ok(_) => "",
        Err(r) => r,
    };
    assert_eq!(reason, "checksum_failed");
    assert!(!reason.contains("4111111111111112"));
}
