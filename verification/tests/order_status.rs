use capabilities::order_status::{evaluate, is_known_status};
use capabilities::scan::balanced_end;
use capabilities::transition::{array_after_key, object_after_key};

const CFG: &str = r#"{"version":"1.0","allowed_transitions":{"pending":["confirmed","cancelled"],"confirmed":["fulfilled","cancelled"],"fulfilled":["shipped","cancelled"],"shipped":["delivered","returned"],"delivered":[],"cancelled":[],"returned":[]}}"#;

fn run(input: &str) -> String {
    let mut out = vec![0u8; 65536];
    let mut event = vec![0u8; 1536];
    let (n, _) = evaluate(input.as_bytes(), &mut out, &mut event);
    String::from_utf8_lossy(&out[..n]).into_owned()
}

#[test]
fn happy_pending_to_confirmed() {
    let input = format!(
        r#"{{"order_id":"ord-1","current_status":"pending","requested_status":"confirmed","actor_id":"ops-1","transition_config":{CFG}}}"#
    );
    let out = run(&input);
    assert!(out.contains("\"reason_code\":\"ok\""), "{out}");
    assert!(out.contains("\"new_status\":\"confirmed\""));
}

#[test]
fn rejects_illegal_jump() {
    let input = format!(
        r#"{{"order_id":"ord-2","current_status":"pending","requested_status":"delivered","actor_id":"ops-1","transition_config":{CFG}}}"#
    );
    let out = run(&input);
    assert!(out.contains("\"reason_code\":\"illegal_transition\""), "{out}");
}

#[test]
fn rejects_unknown_status() {
    let input = format!(
        r#"{{"order_id":"ord-3","current_status":"pending","requested_status":"lost","actor_id":"ops-1","transition_config":{CFG}}}"#
    );
    let out = run(&input);
    assert!(out.contains("\"reason_code\":\"invalid_status\""), "{out}");
}

#[test]
fn rejects_terminal_cancelled() {
    let input = format!(
        r#"{{"order_id":"ord-4","current_status":"cancelled","requested_status":"pending","actor_id":"ops-1","transition_config":{CFG}}}"#
    );
    let out = run(&input);
    assert!(out.contains("\"reason_code\":\"illegal_transition\""), "{out}");
}

#[test]
fn happy_shipped_to_delivered() {
    let input = format!(
        r#"{{"order_id":"ord-5","current_status":"shipped","requested_status":"delivered","actor_id":"ops-1","transition_config":{CFG}}}"#
    );
    let out = run(&input);
    assert!(out.contains("\"reason_code\":\"ok\""), "{out}");
}

#[test]
fn missing_fields() {
    let out = run("{}");
    assert!(out.contains("\"reason_code\":\"invalid_status\""), "{out}");
}

#[test]
fn rejects_missing_allowed_transitions() {
    let out = run(
        r#"{"order_id":"ord-6","current_status":"pending","requested_status":"confirmed","actor_id":"ops-1","transition_config":{"version":"1.0"}}"#,
    );
    assert!(out.contains("\"reason_code\":\"illegal_transition\""), "{out}");
    assert!(out.contains("allowed_transitions missing"), "{out}");
}

#[test]
fn rejects_status_with_no_transition_list() {
    let cfg = r#"{"version":"1.0","allowed_transitions":{"pending":["confirmed"]}}"#;
    let input = format!(
        r#"{{"order_id":"ord-7","current_status":"confirmed","requested_status":"fulfilled","actor_id":"ops-1","transition_config":{cfg}}}"#
    );
    let out = run(&input);
    assert!(out.contains("\"reason_code\":\"illegal_transition\""), "{out}");
    assert!(out.contains("has no transition list"), "{out}");
}

#[test]
fn object_and_array_helpers_edge_cases() {
    assert_eq!(object_after_key(b"{}", b"\"missing\""), None);
    assert_eq!(object_after_key(br#"{"k":5}"#, b"\"k\""), None);
    assert!(object_after_key(b"\"k\":\n\t{\"a\":1}", b"\"k\"").is_some());
    assert_eq!(array_after_key(br#"{"k":5}"#, b"\"k\""), None);
    assert!(array_after_key(b"\"pending\":\n\t[\"confirmed\"]", b"\"pending\"").is_some());
    let long = [b'a'; 100];
    assert_eq!(array_after_key(b"{}", &long), None);
}

#[test]
fn balanced_end_handles_escape_and_unterminated() {
    assert_eq!(balanced_end(b"{\"a\":\"b\"", b'{', b'}'), None);
    assert!(balanced_end(b"{\"a\":\"say \\\"hi\\\"\"}", b'{', b'}').is_some());
}

#[test]
fn order_status_allowed_response_and_event_are_exact() {
    let input = format!(
        r#"{{"order_id":"ord-1","current_status":"pending","requested_status":"confirmed","actor_id":"ops-1","transition_config":{CFG}}}"#
    );
    let mut out = vec![0u8; 4096];
    let mut event = vec![0u8; 1536];
    let (n, e) = evaluate(input.as_bytes(), &mut out, &mut event);
    assert_eq!(
        String::from_utf8_lossy(&out[..n]),
        "{\"allowed\":true,\"new_status\":\"confirmed\",\"reason_code\":\"ok\",\"evaluation_trace\":[\"pending \u{2192} confirmed is allowed\"]}"
    );
    assert_eq!(
        String::from_utf8_lossy(&event[..e]),
        r#"{"event_id":"commerce.order.status-changed","version":"1.0.0","payload":{"order_id":"ord-1","from_status":"pending","to_status":"confirmed","actor_id":"ops-1"}}"#
    );
}

#[test]
fn order_status_denial_keeps_current_and_emits_nothing() {
    let input = format!(
        r#"{{"order_id":"ord-2","current_status":"pending","requested_status":"delivered","actor_id":"ops-1","transition_config":{CFG}}}"#
    );
    let mut out = vec![0u8; 4096];
    let mut event = vec![7u8; 16];
    let (n, e) = evaluate(input.as_bytes(), &mut out, &mut event);
    assert_eq!(
        String::from_utf8_lossy(&out[..n]),
        r#"{"allowed":false,"new_status":"pending","reason_code":"illegal_transition","evaluation_trace":["pending has no allowed transition to delivered"]}"#
    );
    assert_eq!(e, 0);
    assert_eq!(event, vec![7u8; 16]);
}

#[test]
fn order_status_known_statuses() {
    for s in ["pending", "confirmed", "fulfilled", "shipped", "delivered", "cancelled", "returned"] {
        assert!(is_known_status(s.as_bytes()), "{s}");
    }
    assert!(!is_known_status(b"lost"));
    assert!(!is_known_status(b"open"));
}
