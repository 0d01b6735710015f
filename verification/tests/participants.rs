use capabilities::participants::{eq_ignore_case, evaluate, normalize_email, Member, STR_MAX};
use capabilities::scan::{
    array_after_key_at_depth, balanced_end, extract_string, object_after_key_at_depth, skip_ws, string_value_after,
};

fn run(input: &str) -> String {
    let mut out = vec![0u8; 65536];
    let n = evaluate(input.as_bytes(), &mut out);
    String::from_utf8_lossy(&out[..n]).into_owned()
}

#[test]
fn participants_use_case_01_happy() {
    let out = run("{\"raw_participants\":[{\"name\":\"Ada Lovelace\",\"email\":\"Ada@Loop.Dev\"},{\"name\":\"bob smith\",\"email\":\"bob@loop.dev\"},{\"name\":\"Unknown Person\",\"email\":\"stranger@example.com\"}],\"workspace_members\":[{\"id\":\"user-ada\",\"name\":\"Ada Lovelace\",\"email\":\"ada@loop.dev\"},{\"id\":\"user-bob\",\"name\":\"Bob Smith\",\"email\":\"bob@loop.dev\"}],\"normalize_config\":{\"version\":\"1.0\"}}");
    assert!(out.contains("\"reason_code\":\"ok\""), "expected ok in {out}");
    assert_eq!(
        out,
        "{\"participants\":[{\"participant_id\":\"user-ada\",\"display_name\":\"Ada Lovelace\",\"email\":\"ada@loop.dev\",\"match_method\":\"email\"},{\"participant_id\":\"user-bob\",\"display_name\":\"Bob Smith\",\"email\":\"bob@loop.dev\",\"match_method\":\"email\"},{\"participant_id\":\"unmatched-1\",\"display_name\":\"Unknown Person\",\"email\":\"stranger@example.com\",\"match_method\":\"none\"}],\"matched_count\":2,\"unmatched_count\":1,\"reason_code\":\"ok\",\"evaluation_trace\":[\"normalized 3 participants\",\"matched 2\"]}"
    );
}

#[test]
fn participants_use_case_02_happy() {
    let out = run("{\"raw_participants\":[{\"name\":\"Ada Lovelace\",\"email\":null}],\"workspace_members\":[{\"id\":\"user-ada\",\"name\":\"Ada Lovelace\",\"email\":\"ada@loop.dev\"}],\"normalize_config\":{\"version\":\"1.0\"}}");
    assert!(out.contains("\"reason_code\":\"ok\""), "expected ok in {out}");
    assert!(out.contains("\"match_method\":\"name\""), "{out}");
}

#[test]
fn missing_required_fields_yields_invalid_input() {
    let out = run("{\"workspace_members\":[],\"normalize_config\":{}}");
    assert!(out.contains("\"reason_code\":\"invalid_input\""), "expected invalid_input in {out}");
}

#[test]
fn member_with_missing_name_or_email_falls_back_on_match() {
    let out = run("{\"raw_participants\": [ {\"name\":\"Dave X\",\"email\":\"dave@x.com\"},{\"name\":\"Carol\",\"email\":null} ],\"workspace_members\": [ {\"id\":\"user-dave\",\"name\":\"\",\"email\":\"dave@x.com\"},{\"id\":\"user-carol\",\"name\":\"Carol\",\"email\":\"\"} ],\"normalize_config\": {\"version\":\"1.0\"}}");
    assert!(out.contains("\"display_name\":\"Dave X\""), "expected name fallback to raw participant's own name in {out}");
    assert!(out.contains("\"email\":null"), "expected null email for member matched with no email on file in {out}");
}

#[test]
fn member_with_empty_or_too_long_id_is_skipped() {
    let long_id = "x".repeat(200);
    let input = format!(
        "{{\"raw_participants\":[{{\"name\":\"Solo\",\"email\":\"solo@x.com\"}}],\"workspace_members\":[{{\"id\":\"\",\"name\":\"NoId\",\"email\":\"noid@x.com\"}},{{\"id\":\"{long_id}\",\"name\":\"TooLong\",\"email\":\"solo@x.com\"}}],\"normalize_config\":{{\"version\":\"1.0\"}}}}"
    );
    let out = run(&input);
    assert!(out.contains("\"match_method\":\"none\""), "expected no match since both members were skipped in {out}");
}

#[test]
fn non_object_member_element_stops_scanning() {
    let out = run("{\"raw_participants\":[{\"name\":\"A\",\"email\":\"a@x.com\"}],\"workspace_members\":[{\"id\":\"user-a\",\"name\":\"A\",\"email\":\"a@x.com\"},42],\"normalize_config\":{\"version\":\"1.0\"}}");
    assert!(out.contains("\"match_method\":\"email\""), "expected the first member to still be usable in {out}");
}

#[test]
fn non_object_participant_element_stops_scanning() {
    let out = run("{\"raw_participants\":[{\"name\":\"A\",\"email\":\"a@x.com\"},42],\"workspace_members\":[{\"id\":\"user-a\",\"name\":\"A\",\"email\":\"a@x.com\"}],\"normalize_config\":{\"version\":\"1.0\"}}");
    assert!(out.contains("\"matched_count\":1"), "expected scanning to stop at the non-object element in {out}");
}

#[test]
fn unterminated_member_object_stops_scanning() {
    let out = run("{\"raw_participants\":[{\"name\":\"A\",\"email\":\"a@x.com\"}],\"normalize_config\":{\"version\":\"1.0\"},\"workspace_members\":[{\"id\":\"user-a\",\"name\":\"A\",\"email\":\"a@x.com\"},{\"id\":\"user-b\"]}");
    assert!(out.contains("\"match_method\":\"email\""), "expected the first member to still be usable in {out}");
}

#[test]
fn unterminated_participant_object_stops_scanning() {
    let out = run("{\"workspace_members\":[{\"id\":\"user-a\",\"name\":\"A\",\"email\":\"a@x.com\"}],\"normalize_config\":{\"version\":\"1.0\"},\"raw_participants\":[{\"name\":\"A\",\"email\":\"a@x.com\"},{\"name\":\"B\"]}");
    assert!(out.contains("\"matched_count\":1"), "expected scanning to stop at the unterminated element in {out}");
}

#[test]
fn member_clone_is_a_bitwise_copy() {
    let m = Member {
        id: [1u8; STR_MAX],
        id_len: 1,
        name: [2u8; STR_MAX],
        name_len: 1,
        email: [3u8; STR_MAX],
        email_len: 1,
    };
    let cloned = m.clone();
    assert_eq!(cloned.id_len, m.id_len);
    assert_eq!(cloned.email[0], 3u8);
}

#[test]
fn participants_string_value_after_handles_missing_colon_quote_and_terminator() {
    assert_eq!(string_value_after(b"no colon here"), b"");
    assert_eq!(string_value_after(b":not-a-quote"), b"");
    assert_eq!(string_value_after(b":\"unterminated"), b"");
    assert_eq!(string_value_after(b":\"ok\""), b"ok");
}

#[test]
fn extract_string_returns_empty_when_key_missing() {
    assert_eq!(extract_string(b"{\"other\":\"x\"}", b"\"missing\""), b"");
}

#[test]
fn object_after_key_at_depth_returns_none_for_non_object_value() {
    assert_eq!(object_after_key_at_depth(b"\"item\":5", b"\"item\"", 0), None);
}

#[test]
fn array_after_key_at_depth_returns_none_for_non_array_value() {
    assert_eq!(array_after_key_at_depth(b"\"item\":5", b"\"item\"", 0), None);
}

#[test]
fn skip_ws_trims_leading_whitespace() {
    assert_eq!(skip_ws(b"   abc"), b"abc");
    assert_eq!(skip_ws(b"abc"), b"abc");
}

#[test]
fn participants_balanced_end_returns_none_when_unterminated() {
    assert_eq!(balanced_end(b"{\"a\":\"b\"", b'{', b'}'), None);
}

#[test]
fn emails_are_trimmed_lowered_and_cut() {
    let mut dst = [0u8; 8];
    let n = normalize_email(b" \tAda@Loop.DEV  ", &mut dst);
    assert_eq!(&dst[..n], b"ada@loop");
    let mut dst = [0u8; 32];
    let n = normalize_email(b"  ", &mut dst);
    assert_eq!(n, 0);
    assert!(eq_ignore_case(b"Bob Smith", b"bob smith"));
    assert!(!eq_ignore_case(b"Bob", b"Bobby"));
}

#[test]
fn unmatched_participants_are_numbered_in_order() {
    let out = run("{\"raw_participants\":[{\"name\":\"X\"},{\"name\":\"A\",\"email\":\" A@X.COM \"},{\"name\":\"Y\",\"email\":\"y@x\"}],\"workspace_members\":[{\"id\":\"user-a\",\"name\":\"Alice\",\"email\":\"a@x.com\"}],\"normalize_config\":{}}");
    assert!(out.contains("\"participant_id\":\"unmatched-1\",\"display_name\":\"X\",\"email\":null"), "{out}");
    assert!(out.contains("\"participant_id\":\"user-a\",\"display_name\":\"Alice\""), "{out}");
    assert!(out.contains("\"participant_id\":\"unmatched-2\",\"display_name\":\"Y\",\"email\":\"y@x\""), "{out}");
}
