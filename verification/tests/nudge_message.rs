use capabilities::nudge_message::{compose_message, evaluate};
use capabilities::scan::{balanced_end, extract_bool, object_after_key_at_depth, string_value_after};

fn run(input: &str) -> String {
    let mut out = vec![0u8; 65536];
    let n = evaluate(input.as_bytes(), &mut out);
    String::from_utf8_lossy(&out[..n]).into_owned()
}

#[test]
fn nudge_message_use_case_01_happy() {
    let out = run("{\"item\":{\"id\":\"ai-1\",\"title\":\"Send the revised proposal\",\"owner_name\":\"Ada\",\"due_date\":\"2026-08-09\",\"status\":\"open\",\"nudge_count\":0},\"intensity\":\"soft\",\"message_config\":{\"version\":\"1.0\",\"tone\":\"friendly\",\"include_due_date\":true,\"language\":\"en\"}}");
    assert!(out.contains("\"reason_code\":\"ok\""), "expected ok in {out}");
}

#[test]
fn nudge_message_use_case_02_happy() {
    let out = run("{\"item\":{\"id\":\"ai-9\",\"title\":\"Close security review\",\"owner_name\":\"Bob\",\"due_date\":\"2026-08-01\",\"status\":\"open\",\"nudge_count\":3},\"intensity\":\"escalate\",\"message_config\":{\"version\":\"1.0\",\"tone\":\"direct\",\"include_due_date\":true,\"language\":\"en\"}}");
    assert!(out.contains("\"reason_code\":\"ok\""), "expected ok in {out}");
}

#[test]
fn nudge_message_use_case_03_happy() {
    let out = run("{\"item\":{\"id\":\"ai-2\",\"title\":\"Ship docs\",\"owner_name\":\"Ada\",\"due_date\":\"2026-08-12\",\"status\":\"open\",\"nudge_count\":1},\"intensity\":\"direct\",\"message_config\":{\"version\":\"1.0\",\"tone\":\"neutral\",\"include_due_date\":true,\"language\":\"en\"}}");
    assert!(out.contains("\"reason_code\":\"ok\""), "expected ok in {out}");
}

#[test]
fn nudge_message_use_case_04_sad() {
    let out = run("{\"item\":{\"id\":\"ai-x\",\"title\":\"\",\"owner_name\":\"Ada\",\"due_date\":\"2026-08-09\",\"status\":\"open\",\"nudge_count\":0},\"intensity\":\"soft\",\"message_config\":{\"version\":\"1.0\",\"tone\":\"friendly\",\"include_due_date\":true,\"language\":\"en\"}}");
    assert!(out.contains("\"reason_code\":\"config_error\""), "expected config_error in {out}");
}

#[test]
fn missing_top_level_fields_yields_config_error() {
    let out = run("{}");
    assert!(out.contains("\"reason_code\":\"config_error\""), "expected config_error in {out}");
}

#[test]
fn invalid_intensity_is_rejected() {
    let out = run("{\"item\":{\"title\":\"T\"},\"intensity\":\"urgent\",\"message_config\":{}}");
    assert!(out.contains("\"reason_code\":\"invalid_intensity\""), "expected invalid_intensity in {out}");
}

#[test]
fn soft_message_without_owner_or_due_date_uses_defaults() {
    let out = run("{\"item\":{\"title\":\"Ship docs\"},\"intensity\":\"soft\",\"message_config\":{\"include_due_date\":false}}");
    assert!(out.contains("Hey there"));
    assert!(!out.contains(" is due "));
}

#[test]
fn direct_message_without_owner_or_due_date_omits_prefix_and_date() {
    let out = run("{\"item\":{\"title\":\"Ship docs\"},\"intensity\":\"direct\",\"message_config\":{\"include_due_date\":false}}");
    assert!(out.contains("Please complete"));
    assert!(!out.contains(" by "));
}

#[test]
fn escalate_message_without_owner_or_due_date_omits_both() {
    let out = run("{\"item\":{\"title\":\"Ship docs\"},\"intensity\":\"escalate\",\"message_config\":{\"include_due_date\":false}}");
    assert!(out.contains("Escalation"));
    assert!(!out.contains(" from "));
    assert!(!out.contains(" (due "));
}

#[test]
fn tone_defaults_to_friendly_when_missing() {
    let out = run("{\"item\":{\"title\":\"T\"},\"intensity\":\"soft\",\"message_config\":{}}");
    assert!(out.contains("\"tone=friendly\""));
}

#[test]
fn nudge_message_object_after_key_handles_missing_and_non_object() {
    assert_eq!(object_after_key_at_depth(b"{}", b"\"missing\"", 1), None);
    assert_eq!(object_after_key_at_depth(br#"{"k":5}"#, b"\"k\"", 1), None);
}

#[test]
fn nudge_message_balanced_end_returns_none_when_unterminated() {
    assert_eq!(balanced_end(b"{\"a\":\"b\"", b'{', b'}'), None);
}

#[test]
fn nudge_message_string_value_after_handles_missing_colon_quote_and_terminator() {
    assert_eq!(string_value_after(b"no colon"), b"");
    assert_eq!(string_value_after(b":not-a-quote"), b"");
    assert_eq!(string_value_after(b":\"unterminated"), b"");
}

#[test]
fn nudge_message_extract_bool_handles_false_and_neither() {
    assert_eq!(extract_bool(b"\"k\":false", b"\"k\""), Some(false));
    assert_eq!(extract_bool(b"\"k\":maybe", b"\"k\""), None);
}

#[test]
fn nudge_message_soft_document_is_exact() {
    let out = run("{\"item\":{\"id\":\"ai-1\",\"title\":\"Send the revised proposal\",\"owner_name\":\"Ada\",\"due_date\":\"2026-08-09\"},\"intensity\":\"soft\",\"message_config\":{\"tone\":\"friendly\",\"include_due_date\":true}}");
    assert_eq!(
        out,
        r#"{"message":"Hey Ada - friendly reminder that \"Send the revised proposal\" is due 2026-08-09. Let us know if you need anything!","preview":"Reminder: Send the revised proposal","reason_code":"ok","evaluation_trace":["intensity=soft","tone=friendly"]}"#
    );
}

#[test]
fn nudge_message_escalate_and_direct_texts() {
    let esc = compose_message(b"escalate", b"Bob", b"Close security review", b"2026-08-01", true);
    assert_eq!(esc, b"Escalation: \"Close security review\" still needs attention from Bob (due 2026-08-01).".to_vec());
    let direct = compose_message(b"direct", b"Ada", b"Ship docs", b"2026-08-12", true);
    assert_eq!(direct, b"Ada: Please complete \"Ship docs\" by 2026-08-12.".to_vec());
    let hidden = compose_message(b"direct", b"", b"Ship docs", b"2026-08-12", false);
    assert_eq!(hidden, b"Please complete \"Ship docs\".".to_vec());
}

#[test]
fn nudge_message_failure_document_is_exact() {
    let out = run("{\"item\":{\"title\":\"T\"},\"intensity\":\"urgent\",\"message_config\":{}}");
    assert_eq!(
        out,
        r#"{"message":"","preview":"","reason_code":"invalid_intensity","evaluation_trace":["intensity must be soft|direct|escalate"]}"#
    );
}
