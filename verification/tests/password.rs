use capabilities::validators::{score_password, DEFAULT_MIN_LENGTH};

fn score(password: &str) -> i32 {
    score_password(password, DEFAULT_MIN_LENGTH, false).score
}

#[test]
fn very_strong_password() {
    let r = score_password("Tr@verse2026!", DEFAULT_MIN_LENGTH, false);
    assert_eq!(r.score, 4);
    assert_eq!(r.strength, "very_strong");
    assert!(r.issues.is_empty());
}

#[test]
fn long_lowercase_only_gets_length_bonus() {
    let r = score_password("correcthorsebatterystaple", DEFAULT_MIN_LENGTH, false);
    assert_eq!(r.score, 2);
    assert_eq!(r.strength, "fair");
}

#[test]
fn empty_password() {
    let r = score_password("", DEFAULT_MIN_LENGTH, false);
    assert_eq!(r.score, 0);
    assert!(r.issues.contains(&"too_short"));
}

#[test]
fn common_weak_password() {
    assert_eq!(score("password"), 1);
}

#[test]
fn sequential_pattern_penalized() {
    let r = score_password("12345678", DEFAULT_MIN_LENGTH, false);
    assert_eq!(r.score, 0);
    assert!(r.issues.contains(&"sequential_pattern"));
}

#[test]
fn repeated_characters_penalized() {
    let r = score_password("aaaaaaaa", DEFAULT_MIN_LENGTH, false);
    assert_eq!(r.score, 0);
    assert!(r.issues.contains(&"repeated_characters"));
}

#[test]
fn too_short_caps_score_even_with_diverse_characters() {
    let r = score_password("Short1!", 12, false);
    assert!(r.issues.contains(&"too_short"));
    assert!(r.score <= 1, "a too-short password should be capped low regardless of character diversity, got {}", r.score);
}

#[test]
fn require_symbol_config_caps_score_when_missing() {
    // Lacking a symbol already caps structural score at 3 (only 3 of
    // the 4 character-class checks can pass) -- the require_symbol cap
    // only has an observable effect once the length bonus (>=2x
    // min_length) would otherwise push a symbol-less password to 4.
    let without_requirement = score_password("Tr4versetraverse", DEFAULT_MIN_LENGTH, false);
    let with_requirement = score_password("Tr4versetraverse", DEFAULT_MIN_LENGTH, true);
    assert_eq!(without_requirement.score, 4);
    assert_ne!(
        without_requirement.score, with_requirement.score,
        "same password, different require_symbol must differ"
    );
    assert_eq!(with_requirement.score, 3);
}

#[test]
fn helpers_find_runs_and_symbols() {
    use_helpers();
}

fn use_helpers() {
    assert!(capabilities::validators::has_sequential_run(&['x', 'd', 'C', 'b', 'a']));
    assert!(!capabilities::validators::has_sequential_run(&['a', 'b', 'c']));
    assert!(capabilities::validators::has_repeated_run(&['z', 'z', 'z', 'z']));
    assert!(capabilities::validators::is_symbol('#'));
    assert!(!capabilities::validators::is_symbol(' '));
    let r = score_password("Aa1!", 2, true);
    assert_eq!(r.score, 4);
    assert_eq!(r.strength, "very_strong");
}

#[test]
fn password_is_never_echoed_in_output() {
    let r = score_password("SuperSecretValue123!", DEFAULT_MIN_LENGTH, false);
    let mut written = format!("{} {}", r.score, r.strength);
    for issue in r.issues.iter() {
        written.push_str(issue);
    }
    assert!(!written.contains("SuperSecretValue123"));
}
