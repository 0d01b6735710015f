use capabilities::validators::{validate_email, DEFAULT_MAX_LENGTH};

fn check(email: &str) -> Option<&'static str> {
    validate_email(email, true, DEFAULT_MAX_LENGTH)
}

#[test]
fn happy_paths() {
    assert_eq!(check("alice@example.com"), None);
    assert_eq!(check("first.last@sub.example.co.uk"), None);
    assert_eq!(check("alice+newsletter@example.com"), None);
}

#[test]
fn unhappy_paths_from_spec_table() {
    assert_eq!(check(""), Some("empty"));
    assert_eq!(check("alice.example.com"), Some("missing_at_sign"));
    assert_eq!(check("alice@@example.com"), Some("multiple_at_signs"));
    assert_eq!(check("@example.com"), Some("empty_local_part"));
    assert_eq!(check("alice@"), Some("empty_domain"));
    assert_eq!(check("alice@localhost"), Some("domain_missing_dot"));
    assert_eq!(check("alice@example..com"), Some("consecutive_dots_in_domain"));
    assert_eq!(check(".alice@example.com"), Some("leading_dot_in_local_part"));
    assert_eq!(check("alice @example.com"), Some("invalid_character"));
}

#[test]
fn plus_addressing_disabled_config() {
    assert_eq!(
        validate_email("alice+x@example.com", false, DEFAULT_MAX_LENGTH),
        Some("plus_addressing_disabled")
    );
    assert_eq!(
        validate_email("alice+x@example.com", true, DEFAULT_MAX_LENGTH),
        None
    );
}

#[test]
fn max_length_config() {
    let long_local: String = core::iter::repeat('a').take(300).collect();
    let long_email = format!("{long_local}@example.com");
    assert_eq!(check(&long_email), Some("exceeds_max_length"));
    // A stricter caller-supplied max_length catches a shorter address too.
    assert_eq!(
        validate_email("alice@example.com", true, 5),
        Some("exceeds_max_length")
    );
}

#[test]
fn unicode_letters_pass_and_controls_fail() {
    assert_eq!(validate_email("jos\u{e9}@caf\u{e9}.example", true, DEFAULT_MAX_LENGTH), None);
    assert_eq!(validate_email("a\u{7}b@example.com", true, DEFAULT_MAX_LENGTH), Some("invalid_character"));
    assert_eq!(validate_email("a!b@example.com", true, DEFAULT_MAX_LENGTH), Some("invalid_character"));
    assert_eq!(validate_email("ab@exa_mple.com", true, DEFAULT_MAX_LENGTH), Some("invalid_character"));
    assert_eq!(validate_email("\u{e9}\u{e9}@x.y", true, 6), None);
}
