use capabilities::escalation::numbers_fit_check;
use capabilities::completion::parse_number_millis;
use capabilities::emit::{copy, write_u32};
use capabilities::escalation::{count_objects, evaluate, parse_i32};
use capabilities::scan::array_after_key_at_depth;

fn run(input: &str) -> String {
    let mut out = vec![0u8; 65536];
    let n = evaluate(input.as_bytes(), &mut out);
    String::from_utf8_lossy(&out[..n]).into_owned()
}

#[test]
fn escalation_use_case_01_happy() {
    let out = run("{\"health\":{\"total_open\":3,\"overdue_count\":1,\"on_track_pct\":66.6,\"overloaded_owners\":[{\"owner_id\":\"user-ada\",\"open_count\":2}],\"top_pressure_items\":[\"ai-3\",\"ai-1\"]},\"escalation_config\":{\"version\":\"1.0\",\"min_overdue_for_escalate\":2,\"min_overloaded_owners\":1,\"max_on_track_pct_for_escalate\":50.0,\"require_multiple_signals\":true}}");
    assert!(out.contains("\"reason_code\":\"ok\""), "expected ok in {out}");
}

#[test]
fn escalation_use_case_02_happy() {
    let out = run("{\"health\":{\"total_open\":5,\"overdue_count\":3,\"on_track_pct\":40.0,\"overloaded_owners\":[{\"owner_id\":\"user-ada\",\"open_count\":3},{\"owner_id\":\"user-bob\",\"open_count\":2}],\"top_pressure_items\":[\"ai-9\",\"ai-7\"]},\"escalation_config\":{\"version\":\"1.0\",\"min_overdue_for_escalate\":2,\"min_overloaded_owners\":2,\"max_on_track_pct_for_escalate\":50.0,\"require_multiple_signals\":true}}");
    assert!(out.contains("\"reason_code\":\"ok\""), "expected ok in {out}");
}

#[test]
fn escalation_use_case_03_sad() {
    let out = run("{\"health\":{\"total_open\":3,\"overdue_count\":-1,\"on_track_pct\":66.6,\"overloaded_owners\":[],\"top_pressure_items\":[]},\"escalation_config\":{\"version\":\"1.0\",\"min_overdue_for_escalate\":2,\"min_overloaded_owners\":1,\"require_multiple_signals\":true}}");
    assert!(out.contains("\"reason_code\":\"invalid_input\""), "expected invalid_input in {out}");
}

#[test]
fn escalation_use_case_04_sad_missing_health_key() {
    let out = run("{\"escalation_config\":{\"min_overdue_for_escalate\":2,\"min_overloaded_owners\":1,\"require_multiple_signals\":true}}");
    assert!(out.contains("\"reason_code\":\"invalid_input\""), "expected invalid_input in {out}");
}

#[test]
fn escalation_use_case_05_sad_missing_escalation_config_key() {
    let out = run("{\"health\":{\"overdue_count\":1,\"overloaded_owners\":[],\"top_pressure_items\":[]}}");
    assert!(out.contains("\"reason_code\":\"invalid_input\""), "expected invalid_input in {out}");
}

#[test]
fn escalation_use_case_06_sad_escalation_config_not_an_object() {
    let out = run("{\"health\":{\"overdue_count\":1,\"overloaded_owners\":[],\"top_pressure_items\":[]},\"escalation_config\":\"oops\"}");
    assert!(out.contains("\"reason_code\":\"invalid_input\""), "expected invalid_input in {out}");
}

#[test]
fn escalation_use_case_07_happy_missing_on_track_pct_key() {
    let out = run("{\"health\":{\"overdue_count\":1,\"overloaded_owners\":[],\"top_pressure_items\":[]},\"escalation_config\":{\"min_overdue_for_escalate\":2,\"min_overloaded_owners\":1,\"require_multiple_signals\":true}}");
    assert!(out.contains("\"reason_code\":\"ok\""), "expected ok in {out}");
}

#[test]
fn escalation_use_case_08_happy_single_signal_escalates_without_require_multiple() {
    let out = run("{\"health\":{\"overdue_count\":5,\"overloaded_owners\":[],\"top_pressure_items\":[\"ai-1\"]},\"escalation_config\":{\"min_overdue_for_escalate\":2,\"min_overloaded_owners\":1,\"require_multiple_signals\":false}}");
    assert!(out.contains("\"decision\":\"escalate\""), "expected escalate in {out}");
    assert!(out.contains("\"require_multiple=false\""), "expected require_multiple=false in {out}");
}

#[test]
fn escalation_use_case_09_happy_malformed_require_multiple_signals_falls_back_to_default() {
    let out = run("{\"health\":{\"overdue_count\":1,\"overloaded_owners\":[],\"top_pressure_items\":[]},\"escalation_config\":{\"min_overdue_for_escalate\":2,\"min_overloaded_owners\":1,\"require_multiple_signals\":123}}");
    assert!(out.contains("\"reason_code\":\"ok\""), "expected ok in {out}");
}

#[test]
fn escalation_use_case_10_happy_tolerates_extra_whitespace_and_backslash_before_target_keys() {
    let out = run("{\"health\":{\"overdue_count\":1,\"note\":\"a\\\\b\",\"overloaded_owners\":[{\"owner_id\":\"user\\\\x\",\"open_count\":1}],\"top_pressure_items\":[]},\"escalation_config\":  {\"min_overdue_for_escalate\":2,\"min_overloaded_owners\":1,\"require_multiple_signals\":true}}");
    assert!(out.contains("\"reason_code\":\"ok\""), "expected ok in {out}");
}

#[test]
fn escalation_use_case_11_sad_unbalanced_escalation_config_object() {
    let out = run("{\"health\":{\"overdue_count\":1,\"overloaded_owners\":[],\"top_pressure_items\":[]},\"escalation_config\":{\"min_overdue_for_escalate\":2");
    assert!(out.contains("\"reason_code\":\"invalid_input\""), "expected invalid_input in {out}");
}

#[test]
fn escalation_use_case_12_happy_overloaded_owners_not_an_array_falls_back_to_empty() {
    let out = run("{\"health\":{\"overdue_count\":1,\"overloaded_owners\":\"oops\",\"top_pressure_items\":[]},\"escalation_config\":{\"min_overdue_for_escalate\":2,\"min_overloaded_owners\":1,\"require_multiple_signals\":true}}");
    assert!(out.contains("\"reason_code\":\"ok\""), "expected ok in {out}");
}

#[test]
fn escalation_use_case_13_happy_non_numeric_min_overdue_falls_back_to_default() {
    let out = run("{\"health\":{\"overdue_count\":1,\"overloaded_owners\":[],\"top_pressure_items\":[]},\"escalation_config\":{\"min_overdue_for_escalate\":\"bad\",\"min_overloaded_owners\":1,\"require_multiple_signals\":true}}");
    assert!(out.contains("\"reason_code\":\"ok\""), "expected ok in {out}");
}

#[test]
fn escalation_use_case_14_happy_on_track_pct_stops_at_trailing_garbage() {
    let out = run("{\"health\":{\"overdue_count\":1,\"on_track_pct\":66x,\"overloaded_owners\":[],\"top_pressure_items\":[]},\"escalation_config\":{\"min_overdue_for_escalate\":2,\"min_overloaded_owners\":1,\"require_multiple_signals\":true}}");
    assert!(out.contains("\"reason_code\":\"ok\""), "expected ok in {out}");
}

#[test]
fn parse_i32_rejects_empty_input() {
    assert_eq!(parse_i32(b""), None);
}

#[test]
fn parse_number_millis_rejects_a_key_with_nothing_after_its_colon() {
    assert_eq!(parse_number_millis(b"\"x\":", b"\"x\""), None);
}

#[test]
fn escalation_use_case_15_happy_nested_object_inside_array_item() {
    let out = run("{\"health\":{\"overdue_count\":1,\"overloaded_owners\":[{\"owner_id\":\"x\",\"meta\":{\"note\":\"y\"}}],\"top_pressure_items\":[]},\"escalation_config\":{\"min_overdue_for_escalate\":2,\"min_overloaded_owners\":1,\"require_multiple_signals\":true}}");
    assert!(out.contains("\"reason_code\":\"ok\""), "expected ok in {out}");
}

#[test]
fn escalation_use_case_16_sad_escalation_config_key_without_colon() {
    let out = run("{\"health\":{\"overdue_count\":1,\"overloaded_owners\":[],\"top_pressure_items\":[]},\"escalation_config\"}");
    assert!(out.contains("\"reason_code\":\"invalid_input\""), "expected invalid_input in {out}");
}

#[test]
fn escalation_use_case_17_happy_missing_overloaded_owners_key() {
    let out = run("{\"health\":{\"overdue_count\":1,\"top_pressure_items\":[]},\"escalation_config\":{\"min_overdue_for_escalate\":2,\"min_overloaded_owners\":1,\"require_multiple_signals\":true}}");
    assert!(out.contains("\"reason_code\":\"ok\""), "expected ok in {out}");
}

#[test]
fn escalation_use_case_18_happy_overloaded_owners_key_without_colon() {
    // overloaded_owners must be the last key in the whole document with
    // no colon anywhere after it -- the scanner searches the rest of
    // the input for the next colon, so an earlier key would otherwise
    // pick up a later, unrelated key's colon instead of finding none.
    let out = run("{\"escalation_config\":{\"min_overdue_for_escalate\":2,\"min_overloaded_owners\":1,\"require_multiple_signals\":true},\"health\":{\"overdue_count\":1,\"top_pressure_items\":[],\"overloaded_owners\"}}");
    assert!(out.contains("\"reason_code\":\"ok\""), "expected ok in {out}");
}

#[test]
fn array_after_key_at_depth_rejects_an_unclosed_array() {
    assert_eq!(
        array_after_key_at_depth(b"{\"a\":[1,2}", b"\"a\"", 1),
        None
    );
}

#[test]
fn escalation_use_case_20_happy_missing_require_multiple_signals_key() {
    let out = run("{\"health\":{\"overdue_count\":1,\"overloaded_owners\":[],\"top_pressure_items\":[]},\"escalation_config\":{\"min_overdue_for_escalate\":2,\"min_overloaded_owners\":1}}");
    assert!(out.contains("\"reason_code\":\"ok\""), "expected ok in {out}");
}

#[test]
fn escalation_use_case_21_happy_require_multiple_signals_key_without_colon() {
    let out = run("{\"health\":{\"overdue_count\":1,\"overloaded_owners\":[],\"top_pressure_items\":[]},\"escalation_config\":{\"min_overdue_for_escalate\":2,\"min_overloaded_owners\":1,\"require_multiple_signals\"}}");
    assert!(out.contains("\"reason_code\":\"ok\""), "expected ok in {out}");
}

#[test]
fn escalation_use_case_22_happy_missing_min_overdue_key() {
    let out = run("{\"health\":{\"overdue_count\":1,\"overloaded_owners\":[],\"top_pressure_items\":[]},\"escalation_config\":{\"min_overloaded_owners\":1,\"require_multiple_signals\":true}}");
    assert!(out.contains("\"reason_code\":\"ok\""), "expected ok in {out}");
}

#[test]
fn escalation_use_case_23_happy_min_overdue_key_without_colon() {
    // min_overdue_for_escalate must be the last key in the document
    // with no colon anywhere after it, for the same reason as
    // use_case_18 above.
    let out = run("{\"health\":{\"overdue_count\":1,\"overloaded_owners\":[],\"top_pressure_items\":[]},\"escalation_config\":{\"min_overdue_for_escalate\"}}");
    assert!(out.contains("\"reason_code\":\"ok\""), "expected ok in {out}");
}

#[test]
fn escalation_use_case_24_happy_on_track_pct_key_without_colon() {
    // on_track_pct must be the last key in the document with no colon
    // anywhere after it, for the same reason as use_case_18 above.
    let out = run("{\"escalation_config\":{\"min_overdue_for_escalate\":2,\"min_overloaded_owners\":1,\"require_multiple_signals\":true},\"health\":{\"overdue_count\":1,\"overloaded_owners\":[],\"top_pressure_items\":[],\"on_track_pct\"}}");
    assert!(out.contains("\"reason_code\":\"ok\""), "expected ok in {out}");
}

#[test]
fn escalation_use_case_25_happy_on_track_pct_with_more_than_three_fractional_digits() {
    let out = run("{\"health\":{\"overdue_count\":1,\"on_track_pct\":66.123456,\"overloaded_owners\":[],\"top_pressure_items\":[]},\"escalation_config\":{\"min_overdue_for_escalate\":2,\"min_overloaded_owners\":1,\"require_multiple_signals\":true}}");
    assert!(out.contains("\"reason_code\":\"ok\""), "expected ok in {out}");
}

#[test]
fn write_u32_drops_digits_that_do_not_fit_a_nonzero_value() {
    let mut out: [u8; 0] = [];
    assert_eq!(write_u32(&mut out, 0, 5), 0);
}

#[test]
fn copy_truncates_instead_of_overflowing_the_output_buffer() {
    let mut out = [0u8; 2];
    let end = copy(&mut out, 1, b"abc");
    assert_eq!(end, 1, "copy must return the unchanged offset when it would overflow");
}

#[test]
fn write_u32_writes_nothing_when_zero_does_not_fit_the_buffer() {
    let mut out: [u8; 0] = [];
    assert_eq!(write_u32(&mut out, 0, 0), 0);
}

#[test]
fn two_signals_escalate_with_the_top_items() {
    let out = run("{\"health\":{\"total_open\":5,\"overdue_count\":3,\"on_track_pct\":40.0,\"overloaded_owners\":[{\"owner_id\":\"user-ada\",\"open_count\":3},{\"owner_id\":\"user-bob\",\"open_count\":2}],\"top_pressure_items\":[\"ai-9\",\"ai-7\"]},\"escalation_config\":{\"version\":\"1.0\",\"min_overdue_for_escalate\":2,\"min_overloaded_owners\":2,\"max_on_track_pct_for_escalate\":50.0,\"require_multiple_signals\":true}}");
    assert_eq!(
        out,
        "{\"decision\":\"escalate\",\"signals_met\":3,\"signals\":[\"overdue_count\",\"overloaded_owners\",\"on_track_pct\"],\"escalate_item_ids\":[\"ai-9\",\"ai-7\"],\"reason_code\":\"ok\",\"evaluation_trace\":[\"signals_met=3\",\"require_multiple=true\",\"decision=escalate\"]}"
    );
}

#[test]
fn one_signal_of_two_required_goes_to_the_digest() {
    let out = run("{\"health\":{\"total_open\":3,\"overdue_count\":1,\"on_track_pct\":66.6,\"overloaded_owners\":[{\"owner_id\":\"user-ada\",\"open_count\":2}],\"top_pressure_items\":[\"ai-3\",\"ai-1\"]},\"escalation_config\":{\"version\":\"1.0\",\"min_overdue_for_escalate\":2,\"min_overloaded_owners\":1,\"max_on_track_pct_for_escalate\":50.0,\"require_multiple_signals\":true}}");
    assert_eq!(
        out,
        "{\"decision\":\"digest\",\"signals_met\":1,\"signals\":[\"overloaded_owners\"],\"escalate_item_ids\":[],\"reason_code\":\"ok\",\"evaluation_trace\":[\"signals_met=1\",\"require_multiple=true\",\"decision=digest\"]}"
    );
}

#[test]
fn only_items_of_the_array_count_as_objects() {
    assert_eq!(count_objects(b"[{\"a\":{\"b\":1}},{\"c\":\"{\"},3]"), 2);
    assert_eq!(count_objects(b"[]"), 0);
}

#[test]
fn escalation_number_check_accepts_readable_requests_only() {
    let ok = br#"{"health":{"overdue_count":3,"on_track_pct":55.5},"escalation_config":{"min_overdue_for_escalate":2,"min_overloaded_owners":1,"max_on_track_pct_for_escalate":60}}"#;
    assert!(numbers_fit_check(ok));
    let big = br#"{"health":{"overdue_count":3000000000,"on_track_pct":55.5},"escalation_config":{}}"#;
    assert!(!numbers_fit_check(big));
    let big_config = br#"{"health":{"overdue_count":3,"on_track_pct":55.5},"escalation_config":{"min_overdue_for_escalate":2147483648}}"#;
    assert!(!numbers_fit_check(big_config));
    let absent = br#"{"health":{"overdue_count":99999999999}}"#;
    assert!(numbers_fit_check(absent));
}
