use capabilities::scan::balanced_end;
use capabilities::transition::{
    array_after_key, array_contains_string, evaluate, extract_bool, object_after_key, string_value_after,
};

fn run(input: &str) -> String {
    let mut out = vec![0u8; 65536];
    let mut event = vec![0u8; 1024];
    let (n, _) = evaluate(input.as_bytes(), &mut out, &mut event);
    String::from_utf8_lossy(&out[..n]).into_owned()
}

#[test]
fn transition_use_case_01_happy() {
    let out = run("{\"action_item_id\":\"item-001\",\"current_status\":\"open\",\"requested_status\":\"in_progress\",\"actor_id\":\"user-ada\",\"owner_id\":\"user-ada\",\"transition_config\":{\"version\":\"1.0\",\"allowed_transitions\":{\"open\":[\"in_progress\",\"cancelled\",\"snoozed\"],\"in_progress\":[\"blocked\",\"done\",\"cancelled\",\"snoozed\"],\"blocked\":[\"in_progress\",\"cancelled\"],\"snoozed\":[\"open\",\"in_progress\",\"cancelled\"],\"done\":[],\"cancelled\":[]},\"owner_only\":true}}");
    assert!(
        out.contains("\"reason_code\":\"ok\""),
        "expected ok in {out}"
    );
}

#[test]
fn transition_use_case_02_sad() {
    let out = run("{\"action_item_id\":\"item-002\",\"current_status\":\"done\",\"requested_status\":\"open\",\"actor_id\":\"user-ada\",\"owner_id\":\"user-ada\",\"transition_config\":{\"version\":\"1.0\",\"allowed_transitions\":{\"open\":[\"in_progress\",\"cancelled\",\"snoozed\"],\"in_progress\":[\"blocked\",\"done\",\"cancelled\",\"snoozed\"],\"blocked\":[\"in_progress\",\"cancelled\"],\"snoozed\":[\"open\",\"in_progress\",\"cancelled\"],\"done\":[],\"cancelled\":[]},\"owner_only\":true}}");
    assert!(
        out.contains("\"reason_code\":\"illegal_transition\""),
        "expected illegal_transition in {out}"
    );
}

#[test]
fn transition_use_case_03_happy() {
    let out = run("{\"action_item_id\":\"item-003\",\"current_status\":\"open\",\"requested_status\":\"snoozed\",\"actor_id\":\"user-ada\",\"owner_id\":\"user-ada\",\"transition_config\":{\"version\":\"1.0\",\"allowed_transitions\":{\"open\":[\"in_progress\",\"cancelled\",\"snoozed\"],\"in_progress\":[\"blocked\",\"done\",\"cancelled\",\"snoozed\"],\"blocked\":[\"in_progress\",\"cancelled\"],\"snoozed\":[\"open\",\"in_progress\",\"cancelled\"],\"done\":[],\"cancelled\":[]},\"owner_only\":true}}");
    assert!(
        out.contains("\"reason_code\":\"ok\""),
        "expected ok in {out}"
    );
}

#[test]
fn transition_use_case_04_sad() {
    let out = run("{\"action_item_id\":\"item-004\",\"current_status\":\"open\",\"requested_status\":\"in_progress\",\"actor_id\":\"user-bob\",\"owner_id\":\"user-ada\",\"transition_config\":{\"version\":\"1.0\",\"allowed_transitions\":{\"open\":[\"in_progress\",\"cancelled\",\"snoozed\"],\"in_progress\":[\"blocked\",\"done\",\"cancelled\",\"snoozed\"],\"blocked\":[\"in_progress\",\"cancelled\"],\"snoozed\":[\"open\",\"in_progress\",\"cancelled\"],\"done\":[],\"cancelled\":[]},\"owner_only\":true}}");
    assert!(
        out.contains("\"reason_code\":\"not_owner\""),
        "expected not_owner in {out}"
    );
}

#[test]
fn transition_use_case_05_happy() {
    let out = run("{\"action_item_id\":\"item-005\",\"current_status\":\"in_progress\",\"requested_status\":\"blocked\",\"actor_id\":\"user-ada\",\"owner_id\":\"user-ada\",\"transition_config\":{\"version\":\"1.0\",\"allowed_transitions\":{\"open\":[\"in_progress\",\"cancelled\",\"snoozed\"],\"in_progress\":[\"blocked\",\"done\",\"cancelled\",\"snoozed\"],\"blocked\":[\"in_progress\",\"cancelled\"],\"snoozed\":[\"open\",\"in_progress\",\"cancelled\"],\"done\":[],\"cancelled\":[]},\"owner_only\":true}}");
    assert!(
        out.contains("\"reason_code\":\"ok\""),
        "expected ok in {out}"
    );
}

#[test]
fn transition_use_case_06_happy() {
    let out = run("{\"action_item_id\":\"item-006\",\"current_status\":\"in_progress\",\"requested_status\":\"done\",\"actor_id\":\"user-ada\",\"owner_id\":\"user-ada\",\"transition_config\":{\"version\":\"1.0\",\"allowed_transitions\":{\"open\":[\"in_progress\",\"cancelled\",\"snoozed\"],\"in_progress\":[\"blocked\",\"done\",\"cancelled\",\"snoozed\"],\"blocked\":[\"in_progress\",\"cancelled\"],\"snoozed\":[\"open\",\"in_progress\",\"cancelled\"],\"done\":[],\"cancelled\":[]},\"owner_only\":true}}");
    assert!(
        out.contains("\"reason_code\":\"ok\""),
        "expected ok in {out}"
    );
}

#[test]
fn transition_use_case_07_happy() {
    let out = run("{\"action_item_id\":\"item-007\",\"current_status\":\"blocked\",\"requested_status\":\"in_progress\",\"actor_id\":\"user-ada\",\"owner_id\":\"user-ada\",\"transition_config\":{\"version\":\"1.0\",\"allowed_transitions\":{\"open\":[\"in_progress\",\"cancelled\",\"snoozed\"],\"in_progress\":[\"blocked\",\"done\",\"cancelled\",\"snoozed\"],\"blocked\":[\"in_progress\",\"cancelled\"],\"snoozed\":[\"open\",\"in_progress\",\"cancelled\"],\"done\":[],\"cancelled\":[]},\"owner_only\":true}}");
    assert!(
        out.contains("\"reason_code\":\"ok\""),
        "expected ok in {out}"
    );
}

#[test]
fn transition_use_case_08_happy() {
    let out = run("{\"action_item_id\":\"item-008\",\"current_status\":\"snoozed\",\"requested_status\":\"open\",\"actor_id\":\"user-ada\",\"owner_id\":\"user-ada\",\"transition_config\":{\"version\":\"1.0\",\"allowed_transitions\":{\"open\":[\"in_progress\",\"cancelled\",\"snoozed\"],\"in_progress\":[\"blocked\",\"done\",\"cancelled\",\"snoozed\"],\"blocked\":[\"in_progress\",\"cancelled\"],\"snoozed\":[\"open\",\"in_progress\",\"cancelled\"],\"done\":[],\"cancelled\":[]},\"owner_only\":true}}");
    assert!(
        out.contains("\"reason_code\":\"ok\""),
        "expected ok in {out}"
    );
}

#[test]
fn transition_use_case_09_happy() {
    let out = run("{\"action_item_id\":\"item-009\",\"current_status\":\"open\",\"requested_status\":\"cancelled\",\"actor_id\":\"user-ada\",\"owner_id\":\"user-ada\",\"transition_config\":{\"version\":\"1.0\",\"allowed_transitions\":{\"open\":[\"in_progress\",\"cancelled\",\"snoozed\"],\"in_progress\":[\"blocked\",\"done\",\"cancelled\",\"snoozed\"],\"blocked\":[\"in_progress\",\"cancelled\"],\"snoozed\":[\"open\",\"in_progress\",\"cancelled\"],\"done\":[],\"cancelled\":[]},\"owner_only\":true}}");
    assert!(
        out.contains("\"reason_code\":\"ok\""),
        "expected ok in {out}"
    );
}

#[test]
fn transition_use_case_10_sad() {
    let out = run("{\"action_item_id\":\"item-010\",\"current_status\":\"cancelled\",\"requested_status\":\"open\",\"actor_id\":\"user-ada\",\"owner_id\":\"user-ada\",\"transition_config\":{\"version\":\"1.0\",\"allowed_transitions\":{\"open\":[\"in_progress\",\"cancelled\",\"snoozed\"],\"in_progress\":[\"blocked\",\"done\",\"cancelled\",\"snoozed\"],\"blocked\":[\"in_progress\",\"cancelled\"],\"snoozed\":[\"open\",\"in_progress\",\"cancelled\"],\"done\":[],\"cancelled\":[]},\"owner_only\":true}}");
    assert!(
        out.contains("\"reason_code\":\"illegal_transition\""),
        "expected illegal_transition in {out}"
    );
}

#[test]
fn transition_use_case_11_sad() {
    let out = run("{\"action_item_id\":\"item-011\",\"current_status\":\"\",\"requested_status\":\"open\",\"actor_id\":\"user-ada\",\"owner_id\":\"user-ada\",\"transition_config\":{\"version\":\"1.0\",\"allowed_transitions\":{\"open\":[\"in_progress\",\"cancelled\",\"snoozed\"],\"in_progress\":[\"blocked\",\"done\",\"cancelled\",\"snoozed\"],\"blocked\":[\"in_progress\",\"cancelled\"],\"snoozed\":[\"open\",\"in_progress\",\"cancelled\"],\"done\":[],\"cancelled\":[]},\"owner_only\":true}}");
    assert!(
        out.contains("\"reason_code\":\"invalid_status\""),
        "expected invalid_status in {out}"
    );
}

#[test]
fn missing_required_fields_yields_invalid_status() {
    let out = run("{}");
    assert!(
        out.contains("\"reason_code\":\"invalid_status\""),
        "expected invalid_status in {out}"
    );
    assert!(out.contains("\"new_status\":\"\""));
}

#[test]
fn unknown_requested_status_is_invalid() {
    let out = run("{\"action_item_id\":\"item-1\",\"current_status\":\"open\",\"requested_status\":\"vanished\",\"actor_id\":\"user-ada\",\"owner_id\":\"user-ada\",\"transition_config\":{\"allowed_transitions\":{\"open\":[\"vanished\"]},\"owner_only\":true}}");
    assert!(
        out.contains("\"reason_code\":\"invalid_status\""),
        "expected invalid_status in {out}"
    );
}

#[test]
fn owner_only_false_allows_non_owner_actor() {
    let out = run("{\"action_item_id\":\"item-1\",\"current_status\":\"open\",\"requested_status\":\"in_progress\",\"actor_id\":\"user-bob\",\"owner_id\":\"user-ada\",\"transition_config\":{\"allowed_transitions\":{\"open\":[\"in_progress\"]},\"owner_only\":false}}");
    assert!(
        out.contains("\"reason_code\":\"ok\""),
        "expected ok in {out}"
    );
    assert!(!out.contains("actor is owner"));
}

#[test]
fn missing_allowed_transitions_is_illegal_transition() {
    let out = run("{\"action_item_id\":\"item-1\",\"current_status\":\"open\",\"requested_status\":\"in_progress\",\"actor_id\":\"user-ada\",\"owner_id\":\"user-ada\",\"transition_config\":{\"owner_only\":true}}");
    assert!(
        out.contains("\"reason_code\":\"illegal_transition\""),
        "expected illegal_transition in {out}"
    );
    assert!(out.contains("allowed_transitions missing"));
}

#[test]
fn status_with_no_transition_list_entry_is_illegal_transition() {
    let out = run("{\"action_item_id\":\"item-1\",\"current_status\":\"blocked\",\"requested_status\":\"open\",\"actor_id\":\"user-ada\",\"owner_id\":\"user-ada\",\"transition_config\":{\"allowed_transitions\":{\"open\":[\"in_progress\"]},\"owner_only\":true}}");
    assert!(
        out.contains("\"reason_code\":\"illegal_transition\""),
        "expected illegal_transition in {out}"
    );
    assert!(out.contains("has no transition list"));
}

#[test]
fn transition_object_after_key_handles_missing_and_non_object() {
    assert_eq!(object_after_key(b"{}", b"\"missing\""), None);
    assert_eq!(object_after_key(b"\"k\":5", b"\"k\""), None);
}

#[test]
fn array_after_key_handles_missing_and_non_array() {
    assert_eq!(array_after_key(b"{}", b"\"missing\""), None);
    assert_eq!(array_after_key(b"\"k\":5", b"\"k\""), None);
}

#[test]
fn transition_extract_bool_handles_false_and_neither() {
    assert_eq!(extract_bool(b"\"k\":false", b"\"k\""), Some(false));
    assert_eq!(extract_bool(b"\"k\":maybe", b"\"k\""), None);
}

#[test]
fn transition_balanced_end_returns_none_when_unterminated() {
    assert_eq!(balanced_end(b"{\"a\":\"b\"", b'{', b'}'), None);
}

#[test]
fn transition_string_value_after_handles_missing_colon_quote_and_terminator() {
    assert_eq!(string_value_after(b"no colon"), b"");
    assert_eq!(string_value_after(b":not-a-quote"), b"");
    assert_eq!(string_value_after(b":\"unterminated"), b"");
}

#[test]
fn array_contains_string_matches_exact_element() {
    assert!(array_contains_string(br#"["a","b"]"#, b"b"));
    assert!(!array_contains_string(br#"["a","b"]"#, b"c"));
}

#[test]
fn an_allowed_transition_records_an_event() {
    let input = "{\"action_item_id\":\"item-001\",\"current_status\":\"open\",\"requested_status\":\"in_progress\",\"actor_id\":\"user-ada\",\"owner_id\":\"user-ada\",\"transition_config\":{\"allowed_transitions\":{\"open\":[\"in_progress\"]}}}";
    let mut out = vec![0u8; 4096];
    let mut event = vec![0u8; 1024];
    let (n, e) = evaluate(input.as_bytes(), &mut out, &mut event);
    assert_eq!(
        String::from_utf8(out[..n].to_vec()).unwrap(),
        "{\"allowed\":true,\"new_status\":\"in_progress\",\"reason_code\":\"ok\",\"evaluation_trace\":[\"open \u{2192} in_progress is allowed\", \"actor is owner\"]}"
    );
    assert_eq!(
        String::from_utf8(event[..e].to_vec()).unwrap(),
        "{\"event_id\":\"core.action-item.status-transitioned\",\"version\":\"1.0.0\",\"payload\":{\"action_item_id\":\"item-001\",\"from_status\":\"open\",\"to_status\":\"in_progress\",\"actor_id\":\"user-ada\"}}"
    );
}

#[test]
fn a_refused_transition_records_no_event() {
    let input = "{\"action_item_id\":\"item-001\",\"current_status\":\"open\",\"requested_status\":\"done\",\"actor_id\":\"user-ada\",\"owner_id\":\"user-ada\",\"transition_config\":{\"allowed_transitions\":{\"open\":[\"in_progress\"]}}}";
    let mut out = vec![0u8; 4096];
    let mut event = vec![7u8; 16];
    let (n, e) = evaluate(input.as_bytes(), &mut out, &mut event);
    assert_eq!(e, 0);
    assert_eq!(event, vec![7u8; 16]);
    assert!(String::from_utf8(out[..n].to_vec()).unwrap().contains("open has no allowed transition to done"));
}

#[test]
fn the_transition_list_key_needs_its_colon_right_after_it() {
    assert_eq!(array_after_key(br#"{"open" :["x"]}"#, b"\"open\""), None);
    assert_eq!(array_after_key(br#"{"open": ["x"]}"#, b"\"open\""), Some(&br#"["x"]"#[..]));
}
