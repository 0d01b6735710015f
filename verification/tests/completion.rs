use capabilities::completion::{millis_fit, numbers_fit_check};
use capabilities::completion::{count_array_strings, evaluate, format_score_millis, parse_number_millis};
use capabilities::scan::{
    array_after_key_at_depth, balanced_end, extract_bool, extract_i32, find_key_at_depth, object_after_key_at_depth,
    string_value_after,
};

fn run(input: &str) -> String {
    let mut out = vec![0u8; 65536];
    let n = evaluate(input.as_bytes(), &mut out);
    String::from_utf8_lossy(&out[..n]).into_owned()
}

#[test]
fn completion_use_case_01_happy() {
    let out = run("{\"item\":{\"id\":\"ai-1\",\"title\":\"Send the revised proposal\",\"status\":\"done\",\"pressure_score\":0.9,\"completion_note\":\"Sent revised proposal to stakeholders\",\"evidence_refs\":[\"doc-123\"]},\"quality_config\":{\"version\":\"1.0\",\"high_pressure_threshold\":0.7,\"require_evidence_when_high_pressure\":true,\"min_note_length\":8}}");
    assert!(out.contains("\"reason_code\":\"ok\""), "expected ok in {out}");
    assert_eq!(
        out,
        "{\"item_id\":\"ai-1\",\"quality_score\":1.0,\"verdict\":\"pass\",\"gaps\":[],\"reason_code\":\"ok\",\"evaluation_trace\":[\"high_pressure=true\",\"evidence=1\",\"note_len=37\"]}"
    );
}

#[test]
fn completion_use_case_02_happy() {
    let out = run("{\"item\":{\"id\":\"ai-2\",\"title\":\"Fix production bug\",\"status\":\"done\",\"pressure_score\":0.95,\"completion_note\":\"done\",\"evidence_refs\":[]},\"quality_config\":{\"version\":\"1.0\",\"high_pressure_threshold\":0.7,\"require_evidence_when_high_pressure\":true,\"min_note_length\":8}}");
    assert!(out.contains("\"reason_code\":\"ok\""), "expected ok in {out}");
    assert!(out.contains("\"quality_score\":0.0"), "{out}");
}

#[test]
fn completion_use_case_03_sad() {
    let out = run("{\"item\":{\"id\":\"ai-1\",\"title\":\"X\",\"status\":\"open\",\"pressure_score\":0.5,\"completion_note\":\"still working\",\"evidence_refs\":[]},\"quality_config\":{\"version\":\"1.0\",\"high_pressure_threshold\":0.7,\"require_evidence_when_high_pressure\":true,\"min_note_length\":8}}");
    assert!(out.contains("\"reason_code\":\"invalid_status\""), "expected invalid_status in {out}");
}

#[test]
fn completion_use_case_04_sad() {
    let out = run("{\"item\":{\"id\":\"\",\"title\":\"X\",\"status\":\"done\",\"pressure_score\":0.5,\"completion_note\":\"done enough\",\"evidence_refs\":[]},\"quality_config\":{\"version\":\"1.0\",\"high_pressure_threshold\":0.7,\"require_evidence_when_high_pressure\":true,\"min_note_length\":8}}");
    assert!(out.contains("\"reason_code\":\"invalid_input\""), "expected invalid_input in {out}");
}

#[test]
fn missing_item_or_config_yields_invalid_input() {
    let out = run("{}");
    assert!(out.contains("\"reason_code\":\"invalid_input\""), "expected invalid_input in {out}");
}

#[test]
fn short_note_and_missing_evidence_under_low_pressure_fails() {
    let out = run("{\"item\":{\"id\":\"ai-1\",\"status\":\"done\",\"pressure_score\":0.1,\"completion_note\":\"hi\",\"evidence_refs\":[]},\"quality_config\":{\"high_pressure_threshold\":0.7,\"require_evidence_when_high_pressure\":true,\"min_note_length\":8}}");
    assert!(out.contains("\"verdict\":\"fail\""), "expected fail verdict in {out}");
    assert!(out.contains("\"gaps\":[\"short_note\"]"));
}

#[test]
fn short_note_and_missing_evidence_under_high_pressure_needs_evidence_with_both_gaps() {
    let out = run("{\"item\":{\"id\":\"ai-1\",\"status\":\"done\",\"pressure_score\":0.9,\"completion_note\":\"hi\",\"evidence_refs\":[]},\"quality_config\":{\"high_pressure_threshold\":0.7,\"require_evidence_when_high_pressure\":true,\"min_note_length\":8}}");
    assert!(out.contains("\"verdict\":\"needs_evidence\""), "expected needs_evidence verdict in {out}");
    assert!(out.contains("\"gaps\":[\"short_note\",\"missing_evidence\"]"));
}

#[test]
fn short_note_with_evidence_present_needs_evidence() {
    let out = run("{\"item\":{\"id\":\"ai-1\",\"status\":\"done\",\"pressure_score\":0.1,\"completion_note\":\"hi\",\"evidence_refs\":[\"doc-1\"]},\"quality_config\":{\"high_pressure_threshold\":0.7,\"require_evidence_when_high_pressure\":true,\"min_note_length\":8}}");
    assert!(out.contains("\"verdict\":\"needs_evidence\""), "expected needs_evidence verdict in {out}");
    assert!(out.contains("\"gaps\":[\"short_note\"]"));
}

#[test]
fn main_extract_bool_handles_false_and_neither() {
    assert_eq!(extract_bool(b"\"k\":false", b"\"k\""), Some(false));
    assert_eq!(extract_bool(b"\"k\":maybe", b"\"k\""), None);
}

#[test]
fn extract_i32_handles_none() {
    assert_eq!(extract_i32(b"{}", b"\"missing\""), None);
    assert_eq!(extract_i32(b"\"k\":oops", b"\"k\""), None);
}

#[test]
fn parse_number_millis_handles_missing_and_non_digit() {
    assert_eq!(parse_number_millis(b"{}", b"\"missing\""), None);
    assert_eq!(parse_number_millis(b"\"k\":oops", b"\"k\""), Some(0));
}

#[test]
fn object_after_key_at_depth_handles_missing_and_non_object() {
    assert_eq!(object_after_key_at_depth(b"{}", b"\"missing\"", 1), None);
    assert_eq!(object_after_key_at_depth(b"\"k\":5", b"\"k\"", 0), None);
}

#[test]
fn completion_array_after_key_at_depth_handles_non_array() {
    assert_eq!(array_after_key_at_depth(b"\"k\":5", b"\"k\"", 0), None);
}

#[test]
fn completion_string_value_after_handles_missing_colon_quote_and_terminator() {
    assert_eq!(string_value_after(b"no colon here"), b"");
    assert_eq!(string_value_after(b":not-a-quote"), b"");
    assert_eq!(string_value_after(b":\"unterminated"), b"");
}

#[test]
fn completion_balanced_end_returns_none_when_unterminated() {
    assert_eq!(balanced_end(b"{\"a\":\"b\"", b'{', b'}'), None);
}

#[test]
fn find_key_at_depth_skips_escaped_characters_in_strings() {
    assert_eq!(find_key_at_depth(b"\"a\":\"x\\\"y\",\"b\":1", b"\"b\"", 0), Some(11));
}

#[test]
fn count_array_strings_skips_escaped_quotes() {
    assert_eq!(count_array_strings(b"[\"a\\\"b\",\"c\"]"), 2);
}

#[test]
fn scores_are_spelled_without_trailing_zeros() {
    let mut buf = [0u8; 16];
    let n = format_score_millis(&mut buf, 785);
    assert_eq!(&buf[..n], b"0.785");
    let n = format_score_millis(&mut buf, 1000);
    assert_eq!(&buf[..n], b"1.0");
    let n = format_score_millis(&mut buf, 400);
    assert_eq!(&buf[..n], b"0.4");
    let n = format_score_millis(&mut buf, 1250);
    assert_eq!(&buf[..n], b"1.25");
}

#[test]
fn thousandths_read_three_fraction_digits() {
    assert_eq!(parse_number_millis(b"\"k\": 0.9", b"\"k\""), Some(900));
    assert_eq!(parse_number_millis(b"\"k\":12.3456,", b"\"k\""), Some(12345));
    assert_eq!(parse_number_millis(b"\"k\":", b"\"k\""), None);
}

#[test]
fn a_long_note_with_evidence_scores_full_marks_and_a_missing_note_length_defaults() {
    let out = run("{\"item\":{\"id\":\"x\",\"status\":\"completed\",\"completion_note\":\"twenty-four chars long!!\",\"evidence_refs\":[\"a\"]},\"quality_config\":{}}");
    assert!(out.contains("\"quality_score\":1.0,\"verdict\":\"pass\""), "{out}");
    assert!(out.contains("\"high_pressure=false\""), "{out}");
}

#[test]
fn completion_number_checks_accept_readable_requests_only() {
    assert!(millis_fit(br#"{"pressure_score": 0.75}"#, br#""pressure_score""#));
    assert!(millis_fit(br#"{"pressure_score": 4294967.295}"#, br#""pressure_score""#));
    assert!(!millis_fit(br#"{"pressure_score": 4294967.296}"#, br#""pressure_score""#));
    assert!(!millis_fit(br#"{"pressure_score": 99999999999}"#, br#""pressure_score""#));
    assert!(millis_fit(br#"{"other": 1}"#, br#""pressure_score""#));
    let ok = br#"{"item":{"id":"a","status":"done","pressure_score":0.9},"quality_config":{"high_pressure_threshold":0.7,"min_note_length":20}}"#;
    assert!(numbers_fit_check(ok));
    let big = br#"{"item":{"id":"a","status":"done","pressure_score":0.9},"quality_config":{"high_pressure_threshold":0.7,"min_note_length":3000000000}}"#;
    assert!(!numbers_fit_check(big));
    let not_scored = br#"{"item":{"id":"a","status":"open","pressure_score":99999999999},"quality_config":{}}"#;
    assert!(numbers_fit_check(not_scored));
}
