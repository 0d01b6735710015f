use capabilities::followup::{
    evaluate, extract_i32, extract_number_scaled, extract_optional_string, in_quiet_hours, lex_lt, object_after_key,
    parse_ref_hour, parse_two_digit_hour, user_pref_object, write_usize,
};
use capabilities::scan::{array_after_key_at_depth, balanced_end, extract_bool, string_value_after};

fn run(input: &str) -> String {
    let mut out = vec![0u8; 65536];
    let n = evaluate(input.as_bytes(), &mut out);
    String::from_utf8_lossy(&out[..n]).into_owned()
}

#[test]
fn followup_use_case_01_happy() {
    let out = run("{\"open_items\":[{\"id\":\"ai-1\",\"owner_id\":\"user-ada\",\"due_date\":\"2026-08-08\",\"status\":\"open\",\"last_activity_at\":\"2026-08-05T10:00:00Z\",\"nudge_count\":0,\"pressure_score\":0.85,\"snoozed_until\":null}],\"user_preferences\":{\"user-ada\":{\"quiet_hours\":{\"start\":\"20:00\",\"end\":\"08:00\",\"timezone\":\"America/Los_Angeles\"},\"max_nudges_per_day\":2,\"nudges_sent_today\":0}},\"reference_datetime\":\"2026-08-07T22:30:00Z\",\"followup_config\":{\"version\":\"1.1\",\"soft_days_before_due\":2,\"direct_days_overdue\":1,\"escalate_after_nudges\":3,\"min_pressure_for_soft\":0.4,\"respect_quiet_hours\":true}}");
    assert!(out.contains("\"reason_code\":\"ok\""), "expected ok in {out}");
    assert_eq!(
        out,
        "{\"selected\":[],\"skipped\":[{\"item_id\":\"ai-1\",\"reason\":\"quiet_hours\",\"detail\":\"owner is inside quiet hours 20:00-08:00\"}],\"reason_code\":\"ok\",\"evaluation_trace\":[\"1 item evaluated\", \"skipped due to quiet_hours\"]}"
    );
}

#[test]
fn followup_use_case_02_happy() {
    let out = run("{\"open_items\":[{\"id\":\"ai-9\",\"owner_id\":\"user-bob\",\"due_date\":\"2026-08-01\",\"status\":\"open\",\"last_activity_at\":\"2026-07-28T09:00:00Z\",\"nudge_count\":3,\"pressure_score\":0.95,\"snoozed_until\":null}],\"user_preferences\":{\"user-bob\":{\"quiet_hours\":null,\"max_nudges_per_day\":3,\"nudges_sent_today\":0}},\"reference_datetime\":\"2026-08-07T10:00:00Z\",\"followup_config\":{\"version\":\"1.1\",\"soft_days_before_due\":2,\"direct_days_overdue\":1,\"escalate_after_nudges\":3,\"min_pressure_for_soft\":0.4,\"respect_quiet_hours\":true}}");
    assert!(out.contains("\"reason_code\":\"ok\""), "expected ok in {out}");
    assert_eq!(
        out,
        "{\"selected\":[{\"item_id\":\"ai-9\",\"intensity\":\"escalate\",\"reason\":\"3 prior nudges ignored + overdue + high pressure\",\"recommended_channel\":\"manager\"}],\"skipped\":[],\"reason_code\":\"ok\",\"evaluation_trace\":[\"1 item evaluated\", \"escalation threshold met\"]}"
    );
}

#[test]
fn followup_use_case_03_sad() {
    let out = run("{\"open_items\":[],\"user_preferences\":{},\"reference_datetime\":\"\",\"followup_config\":{\"version\":\"1.1\",\"soft_days_before_due\":2,\"direct_days_overdue\":1,\"escalate_after_nudges\":3,\"min_pressure_for_soft\":0.4,\"respect_quiet_hours\":true}}");
    assert!(out.contains("\"reason_code\":\"config_error\""), "expected config_error in {out}");
}

#[test]
fn missing_open_items_yields_config_error() {
    let out = run("{\"user_preferences\":{},\"reference_datetime\":\"2026-08-07T10:00:00Z\",\"followup_config\":{\"version\":\"1.1\"}}");
    assert!(out.contains("\"reason_code\":\"config_error\""), "expected config_error in {out}");
    assert!(out.contains("open_items missing"), "expected reason detail in {out}");
}

#[test]
fn snoozed_item_is_skipped() {
    let out = run("{\"open_items\":[{\"id\":\"ai-1\",\"owner_id\":\"user-ada\",\"due_date\":\"2026-08-01\",\"nudge_count\":0,\"pressure_score\":0.9,\"snoozed_until\":\"2099-01-01T00:00:00Z\"}],\"user_preferences\":{},\"reference_datetime\":\"2026-08-07T10:00:00Z\",\"followup_config\":{\"respect_quiet_hours\":false,\"min_pressure_for_soft\":0.4}}");
    assert!(out.contains("\"reason\":\"snoozed\""), "expected snoozed skip in {out}");
}

#[test]
fn quiet_hours_wrap_around_midnight_skips_item() {
    let out = run("{\"open_items\":[{\"id\":\"ai-1\",\"owner_id\":\"user-ada\",\"due_date\":\"2026-08-01\",\"nudge_count\":0,\"pressure_score\":0.9,\"snoozed_until\":null}],\"user_preferences\":{\"user-ada\":{\"quiet_hours\":{\"start\":\"22:00\",\"end\":\"06:00\"},\"max_nudges_per_day\":2,\"nudges_sent_today\":0}},\"reference_datetime\":\"2026-08-07T23:00:00Z\",\"followup_config\":{\"respect_quiet_hours\":true,\"min_pressure_for_soft\":0.4}}");
    assert!(out.contains("\"reason\":\"quiet_hours\""), "expected quiet_hours skip in {out}");
}

#[test]
fn quiet_hours_same_day_but_outside_window_proceeds() {
    let out = run("{\"open_items\":[{\"id\":\"ai-1\",\"owner_id\":\"user-ada\",\"due_date\":\"2026-08-01\",\"nudge_count\":0,\"pressure_score\":0.9,\"snoozed_until\":null}],\"user_preferences\":{\"user-ada\":{\"quiet_hours\":{\"start\":\"20:00\",\"end\":\"22:00\"},\"max_nudges_per_day\":2,\"nudges_sent_today\":0}},\"reference_datetime\":\"2026-08-07T10:00:00Z\",\"followup_config\":{\"respect_quiet_hours\":true,\"min_pressure_for_soft\":0.4}}");
    assert!(!out.contains("\"reason\":\"quiet_hours\""), "expected item not skipped for quiet hours in {out}");
}

#[test]
fn owner_without_preferences_skips_quiet_hours_check() {
    let out = run("{\"open_items\":[{\"id\":\"ai-1\",\"owner_id\":\"user-nobody\",\"due_date\":\"2026-08-01\",\"nudge_count\":0,\"pressure_score\":0.9,\"snoozed_until\":null}],\"user_preferences\":{},\"reference_datetime\":\"2026-08-07T10:00:00Z\",\"followup_config\":{\"respect_quiet_hours\":true,\"min_pressure_for_soft\":0.4}}");
    assert!(out.contains("\"reason_code\":\"ok\""), "expected evaluation to proceed in {out}");
}

#[test]
fn budget_exceeded_is_skipped() {
    let out = run("{\"open_items\":[{\"id\":\"ai-1\",\"owner_id\":\"user-ada\",\"due_date\":\"2026-08-01\",\"nudge_count\":0,\"pressure_score\":0.9,\"snoozed_until\":null}],\"user_preferences\":{\"user-ada\":{\"max_nudges_per_day\":1,\"nudges_sent_today\":2}},\"reference_datetime\":\"2026-08-07T10:00:00Z\",\"followup_config\":{\"respect_quiet_hours\":false,\"min_pressure_for_soft\":0.4}}");
    assert!(out.contains("\"reason\":\"budget_exceeded\""), "expected budget_exceeded skip in {out}");
}

#[test]
fn low_pressure_is_skipped() {
    let out = run("{\"open_items\":[{\"id\":\"ai-1\",\"owner_id\":\"user-ada\",\"due_date\":\"2026-08-01\",\"nudge_count\":0,\"pressure_score\":0.1,\"snoozed_until\":null}],\"user_preferences\":{},\"reference_datetime\":\"2026-08-07T10:00:00Z\",\"followup_config\":{\"respect_quiet_hours\":false,\"min_pressure_for_soft\":0.4}}");
    assert!(out.contains("\"reason\":\"low_pressure\""), "expected low_pressure skip in {out}");
}

#[test]
fn overdue_with_enough_nudges_escalates() {
    let out = run("{\"open_items\":[{\"id\":\"ai-1\",\"owner_id\":\"user-ada\",\"due_date\":\"2026-08-01\",\"nudge_count\":5,\"pressure_score\":0.9,\"snoozed_until\":null}],\"user_preferences\":{},\"reference_datetime\":\"2026-08-07T10:00:00Z\",\"followup_config\":{\"respect_quiet_hours\":false,\"min_pressure_for_soft\":0.4,\"escalate_after_nudges\":3}}");
    assert!(out.contains("\"intensity\":\"escalate\""), "expected escalate selection in {out}");
    assert!(out.contains("\"recommended_channel\":\"manager\""));
}

#[test]
fn overdue_without_enough_nudges_is_direct() {
    let out = run("{\"open_items\":[{\"id\":\"ai-1\",\"owner_id\":\"user-ada\",\"due_date\":\"2026-08-01\",\"nudge_count\":0,\"pressure_score\":0.9,\"snoozed_until\":null}],\"user_preferences\":{},\"reference_datetime\":\"2026-08-07T10:00:00Z\",\"followup_config\":{\"respect_quiet_hours\":false,\"min_pressure_for_soft\":0.4,\"escalate_after_nudges\":3}}");
    assert!(out.contains("\"intensity\":\"direct\""), "expected direct selection in {out}");
}

#[test]
fn due_today_is_soft_selection() {
    let out = run("{\"open_items\":[{\"id\":\"ai-1\",\"owner_id\":\"user-ada\",\"due_date\":\"2026-08-07\",\"nudge_count\":0,\"pressure_score\":0.9,\"snoozed_until\":null}],\"user_preferences\":{},\"reference_datetime\":\"2026-08-07T10:00:00Z\",\"followup_config\":{\"respect_quiet_hours\":false,\"min_pressure_for_soft\":0.4}}");
    assert!(out.contains("\"intensity\":\"soft\""), "expected soft selection in {out}");
}

#[test]
fn max_items_cutoff_stops_after_limit() {
    let mut items = String::new();
    for n in 0..20 {
        if n > 0 {
            items.push(',');
        }
        items.push_str(&format!(
            "{{\"id\":\"ai-{n}\",\"owner_id\":\"user-ada\",\"due_date\":\"2026-08-01\",\"nudge_count\":0,\"pressure_score\":0.9,\"snoozed_until\":null}}"
        ));
    }
    let input = format!(
        "{{\"open_items\":[{items}],\"user_preferences\":{{}},\"reference_datetime\":\"2026-08-07T10:00:00Z\",\"followup_config\":{{\"respect_quiet_hours\":false,\"min_pressure_for_soft\":0.4}}}}"
    );
    let out = run(&input);
    assert!(out.contains("16 item evaluateds"), "expected the 16-item cap in {out}");
}

#[test]
fn non_object_item_element_stops_scanning() {
    let out = run("{\"open_items\":[{\"id\":\"ai-1\",\"owner_id\":\"user-ada\",\"due_date\":\"2026-08-01\",\"nudge_count\":0,\"pressure_score\":0.9,\"snoozed_until\":null},42],\"user_preferences\":{},\"reference_datetime\":\"2026-08-07T10:00:00Z\",\"followup_config\":{\"respect_quiet_hours\":false,\"min_pressure_for_soft\":0.4}}");
    assert!(out.contains("1 item evaluated"), "expected scanning to stop at the non-object element in {out}");
}

#[test]
fn empty_open_items_array_evaluates_to_zero_items() {
    let out = run("{\"open_items\":[],\"user_preferences\":{},\"reference_datetime\":\"2026-08-07T10:00:00Z\",\"followup_config\":{\"respect_quiet_hours\":false}}");
    assert!(out.contains("0 item evaluateds"), "expected zero items in {out}");
}

#[test]
fn parse_two_digit_hour_rejects_non_digits() {
    assert_eq!(parse_two_digit_hour(b"ab"), 0);
    assert_eq!(parse_two_digit_hour(b"9"), 0);
    assert_eq!(parse_two_digit_hour(b"23"), 23);
}

#[test]
fn parse_ref_hour_defaults_when_no_t_separator() {
    assert_eq!(parse_ref_hour(b"2026-08-07"), 0);
}

#[test]
fn extract_number_scaled_handles_negative_and_missing() {
    assert_eq!(extract_number_scaled(b"\"k\":-1.5", b"\"k\""), Some(-1500));
    assert_eq!(extract_number_scaled(b"\"k\":oops", b"\"k\""), None);
    assert_eq!(extract_number_scaled(b"{}", b"\"missing\""), None);
}

#[test]
fn extract_i32_handles_negative_and_missing() {
    assert_eq!(extract_i32(b"\"k\":-7", b"\"k\""), Some(-7));
    assert_eq!(extract_i32(b"\"k\":oops", b"\"k\""), None);
    assert_eq!(extract_i32(b"{}", b"\"missing\""), None);
}

#[test]
fn followup_extract_bool_handles_false_and_neither() {
    assert_eq!(extract_bool(b"\"k\":false", b"\"k\""), Some(false));
    assert_eq!(extract_bool(b"\"k\":maybe", b"\"k\""), None);
}

#[test]
fn extract_optional_string_handles_missing_null_and_malformed() {
    assert_eq!(extract_optional_string(b"{}", b"\"k\""), b"");
    assert_eq!(extract_optional_string(b"\"k\"no-colon", b"\"k\""), b"");
    assert_eq!(extract_optional_string(b"\"k\":null", b"\"k\""), b"");
    assert_eq!(extract_optional_string(b"\"k\":5", b"\"k\""), b"");
    assert_eq!(extract_optional_string(b"\"k\":\"unterminated", b"\"k\""), b"");
    assert_eq!(extract_optional_string(b"\"k\":\"ok\"", b"\"k\""), b"ok");
}

#[test]
fn main_object_after_key_handles_missing_and_non_object() {
    assert_eq!(object_after_key(b"{}", b"\"missing\""), None);
    assert_eq!(object_after_key(b"\"k\":5", b"\"k\""), None);
}

#[test]
fn main_array_after_key_at_depth_handles_non_array() {
    assert_eq!(array_after_key_at_depth(b"\"k\":5", b"\"k\"", 0), None);
}

#[test]
fn user_pref_object_handles_empty_prefs_and_owner() {
    assert_eq!(user_pref_object(b"", b"user-a"), None);
    assert_eq!(user_pref_object(b"{}", b""), None);
}

#[test]
fn followup_string_value_after_handles_missing_colon_quote_and_terminator() {
    assert_eq!(string_value_after(b"no colon here"), b"");
    assert_eq!(string_value_after(b":not-a-quote"), b"");
    assert_eq!(string_value_after(b":\"unterminated"), b"");
}

#[test]
fn followup_balanced_end_returns_none_when_unterminated() {
    assert_eq!(balanced_end(b"{\"a\":\"b\"", b'{', b'}'), None);
}

#[test]
fn write_usize_handles_zero_and_multiple_digits() {
    let mut buf = [0u8; 8];
    let n = write_usize(&mut buf, 0, 0);
    assert_eq!(&buf[..n], b"0");
    let mut buf2 = [0u8; 8];
    let n2 = write_usize(&mut buf2, 0, 123);
    assert_eq!(&buf2[..n2], b"123");
    let mut buf3 = [0u8; 2];
    let n3 = write_usize(&mut buf3, 0, 123);
    assert_eq!(&buf3[..n3], b"12");
}

#[test]
fn byte_strings_order_lexicographically() {
    assert!(lex_lt(b"2026-08-01", b"2026-08-07"));
    assert!(!lex_lt(b"2026-08-07", b"2026-08-07"));
    assert!(lex_lt(b"2026", b"2026-08"));
    assert!(!lex_lt(b"b", b"abc"));
}

#[test]
fn quiet_window_boundaries() {
    assert!(in_quiet_hours(b"2026-08-07T22:00:00Z", br#"{"start":"22:00","end":"06:00"}"#));
    assert!(!in_quiet_hours(b"2026-08-07T06:00:00Z", br#"{"start":"22:00","end":"06:00"}"#));
    assert!(in_quiet_hours(b"2026-08-07T05:59:00Z", br#"{"start":"22:00","end":"06:00"}"#));
    assert!(!in_quiet_hours(b"2026-08-07T10:00:00Z", br#"{"start":"09:00","end":"09:00"}"#));
}

#[test]
fn an_owner_with_an_overlong_id_has_no_preferences() {
    let owner = "u".repeat(70);
    let prefs = format!("{{\"{owner}\":{{\"max_nudges_per_day\":0}}}}");
    assert_eq!(user_pref_object(prefs.as_bytes(), owner.as_bytes()), None);
}
