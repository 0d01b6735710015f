use capabilities::ownership::{eq_ascii_ci, evaluate, is_null_at_depth, resolve_member};

fn run(input: &str) -> String {
    let mut out = vec![0u8; 65536];
    let n = evaluate(input.as_bytes(), &mut out);
    String::from_utf8_lossy(&out[..n]).into_owned()
}

#[test]
fn ownership_use_case_01_happy() {
    let out = run("{\"suggested_owner\":\"Ada Lovelace\",\"creator_id\":\"user-carol\",\"workspace_members\":[{\"id\":\"user-ada\",\"name\":\"Ada Lovelace\",\"email\":\"ada@loop.dev\"},{\"id\":\"user-bob\",\"name\":\"Bob Smith\",\"email\":\"bob@loop.dev\"}],\"ownership_config\":{\"version\":\"1.0\",\"fallback\":\"creator\",\"require_active_member\":true}}");
    assert!(out.contains("\"reason_code\":\"ok\""), "expected ok in {out}");
}

#[test]
fn ownership_use_case_02_happy() {
    let out = run("{\"suggested_owner\":\"bob@loop.dev\",\"creator_id\":\"user-carol\",\"workspace_members\":[{\"id\":\"user-ada\",\"name\":\"Ada Lovelace\",\"email\":\"ada@loop.dev\"},{\"id\":\"user-bob\",\"name\":\"Bob Smith\",\"email\":\"bob@loop.dev\"}],\"ownership_config\":{\"version\":\"1.0\",\"fallback\":\"creator\",\"require_active_member\":true}}");
    assert!(out.contains("\"reason_code\":\"ok\""), "expected ok in {out}");
}

#[test]
fn ownership_use_case_03_happy() {
    let out = run("{\"suggested_owner\":null,\"creator_id\":\"user-carol\",\"workspace_members\":[{\"id\":\"user-carol\",\"name\":\"Carol Jones\",\"email\":\"carol@loop.dev\"}],\"ownership_config\":{\"version\":\"1.0\",\"fallback\":\"creator\",\"require_active_member\":true}}");
    assert!(out.contains("\"reason_code\":\"ok\""), "expected ok in {out}");
}

#[test]
fn ownership_use_case_04_sad() {
    let out = run("{\"suggested_owner\":\"Unknown Person\",\"creator_id\":\"user-carol\",\"workspace_members\":[{\"id\":\"user-ada\",\"name\":\"Ada Lovelace\",\"email\":\"ada@loop.dev\"}],\"ownership_config\":{\"version\":\"1.0\",\"fallback\":\"fail\",\"require_active_member\":true}}");
    assert!(out.contains("\"reason_code\":\"unresolved\""), "expected unresolved in {out}");
}

#[test]
fn ownership_use_case_05_sad() {
    let out = run("{\"suggested_owner\":\"user-ada\",\"creator_id\":\"user-carol\",\"workspace_members\":[{\"id\":\"user-ada\",\"name\":\"Ada Lovelace\",\"email\":\"ada@loop.dev\",\"active\":false}],\"ownership_config\":{\"version\":\"1.0\",\"fallback\":\"fail\",\"require_active_member\":true}}");
    assert!(out.contains("\"reason_code\":\"inactive_member\""), "expected inactive_member in {out}");
}

#[test]
fn ownership_use_case_06_sad() {
    let out = run("{\"suggested_owner\":\"Ada Lovelace\",\"creator_id\":\"user-carol\",\"workspace_members\":[{\"id\":\"user-ada\",\"name\":\"Ada Lovelace\",\"email\":\"ada@loop.dev\"},{\"id\":\"user-bob\",\"name\":\"Bob Smith\",\"email\":\"bob@loop.dev\"}],\"ownership_config\":{\"version\":\"1.0\",\"fallback\":\"bogus\",\"require_active_member\":true}}");
    assert!(out.contains("\"reason_code\":\"config_error\""), "expected config_error in {out}");
}

#[test]
fn ownership_use_case_07_happy() {
    let out = run("{\"suggested_owner\":\"Unknown Person\",\"creator_id\":\"user-carol\",\"workspace_members\":[{\"id\":\"user-ada\",\"name\":\"Ada Lovelace\",\"email\":\"ada@loop.dev\"}],\"ownership_config\":{\"version\":\"1.0\",\"fallback\":\"unassigned\",\"require_active_member\":true}}");
    assert!(out.contains("\"reason_code\":\"ok\""), "expected ok in {out}");
}

#[test]
fn ownership_email_match_document_is_exact() {
    let out = run("{\"suggested_owner\":\"BOB@loop.dev\",\"creator_id\":\"user-carol\",\"workspace_members\":[{\"id\":\"user-ada\",\"name\":\"Ada Lovelace\",\"email\":\"ada@loop.dev\"},{\"id\":\"user-bob\",\"name\":\"Bob Smith\",\"email\":\"bob@loop.dev\"}],\"ownership_config\":{\"fallback\":\"creator\"}}");
    assert_eq!(
        out,
        r#"{"owner_id":"user-bob","resolution_method":"email_match","reason_code":"ok","evaluation_trace":["email match"]}"#
    );
}

#[test]
fn ownership_null_suggestion_falls_back_to_creator_with_two_traces() {
    let out = run("{\"suggested_owner\":null,\"creator_id\":\"user-zed\",\"workspace_members\":[],\"ownership_config\":{\"fallback\":\"creator\"}}");
    assert_eq!(
        out,
        r#"{"owner_id":"user-zed","resolution_method":"fallback_creator","reason_code":"ok","evaluation_trace":["suggested_owner null","fallback=creator"]}"#
    );
}

#[test]
fn ownership_missing_config_and_missing_creator() {
    let out = run("{\"suggested_owner\":\"x\"}");
    assert_eq!(
        out,
        r#"{"owner_id":null,"resolution_method":"config_error","reason_code":"config_error","evaluation_trace":["ownership_config missing"]}"#
    );
    let out = run("{\"suggested_owner\":\"\",\"ownership_config\":{}}");
    assert_eq!(
        out,
        r#"{"owner_id":null,"resolution_method":"unresolved","reason_code":"unresolved","evaluation_trace":["suggested_owner null","fallback=creator but creator_id missing"]}"#
    );
}

#[test]
fn ownership_resolve_member_orders_id_email_name_and_flags_inactive() {
    let members = br#"[{"id":"u1","name":"Ann","email":"a@x"}, {"id":"u2","name":"Bo","email":"b@x","active":false}]"#;
    assert_eq!(resolve_member(members, b"U1", true), Some((&b"u1"[..], &b"id_match"[..], &b"id match"[..])));
    assert_eq!(resolve_member(members, b"ann", true), Some((&b"u1"[..], &b"name_match"[..], &b"exact name match"[..])));
    assert_eq!(
        resolve_member(members, b"b@x", true),
        Some((&b"u2"[..], &b"inactive"[..], &b"matched inactive member"[..]))
    );
    assert_eq!(resolve_member(members, b"b@x", false), Some((&b"u2"[..], &b"email_match"[..], &b"email match"[..])));
    assert_eq!(resolve_member(members, b"nobody", true), None);
    assert_eq!(resolve_member(b"[5, {\"id\":\"u9\"}]", b"u9", true), None);
}

#[test]
fn ownership_null_detection() {
    assert!(is_null_at_depth(br#"{"s": null}"#, b"\"s\"", 1));
    assert!(!is_null_at_depth(br#"{"s":"null"}"#, b"\"s\"", 1));
    assert!(!is_null_at_depth(br#"{"x":{"s":null}}"#, b"\"s\"", 1));
}

#[test]
fn ownership_case_insensitive_comparison_is_ascii_only() {
    assert!(eq_ascii_ci(b"Ada@Loop.DEV", b"ada@loop.dev"));
    assert!(!eq_ascii_ci(b"ada", b"adb"));
    assert!(!eq_ascii_ci(b"ada", b"ad"));
    assert!(!eq_ascii_ci("É".as_bytes(), "é".as_bytes()));
}

#[test]
fn ownership_fallbacks_decide_owner_method_and_reason() {
    let members = "[{\"id\":\"user-ada\",\"name\":\"Ada Lovelace\",\"email\":\"ada@loop.dev\"},{\"id\":\"user-bob\",\"email\":\"bob@loop.dev\",\"active\":false}]";
    let req = |fallback: &str, creator: &str| {
        format!(
            "{{\"suggested_owner\":null,\"creator_id\":\"{creator}\",\"workspace_members\":{members},\"ownership_config\":{{\"fallback\":\"{fallback}\",\"require_active_member\":true}}}}"
        )
    };
    let out = run(&req("creator", "ADA@loop.dev"));
    assert!(out.starts_with("{\"owner_id\":\"user-ada\",\"resolution_method\":\"fallback_creator\",\"reason_code\":\"ok\""), "{out}");
    let out = run(&req("creator", "bob@loop.dev"));
    assert!(out.starts_with("{\"owner_id\":\"bob@loop.dev\",\"resolution_method\":\"fallback_creator\""), "{out}");
    let out = run(&req("creator", ""));
    assert!(out.starts_with("{\"owner_id\":null,\"resolution_method\":\"unresolved\",\"reason_code\":\"unresolved\""), "{out}");
    let out = run(&req("unassigned", "user-ada"));
    assert!(out.starts_with("{\"owner_id\":null,\"resolution_method\":\"fallback_unassigned\",\"reason_code\":\"ok\""), "{out}");
    let out = run(&req("fail", "user-ada"));
    assert_eq!(
        out,
        "{\"owner_id\":null,\"resolution_method\":\"unresolved\",\"reason_code\":\"unresolved\",\"evaluation_trace\":[\"suggested_owner null\",\"fallback=fail\"]}"
    );
}
