use capabilities::item_check::{check_fields, evaluate, find_duplicate};

fn run(input: &str) -> String {
    let mut out = vec![0u8; 65536];
    let n = evaluate(input.as_bytes(), &mut out);
    String::from_utf8_lossy(&out[..n]).into_owned()
}

#[test]
fn item_check_use_case_01_happy() {
    let out = run("{\"action_item\":{\"title\":\"Send proposal\",\"owner_id\":\"user-ada\",\"due_date\":\"2026-08-09\",\"source\":\"meeting\"},\"existing_open_items\":[],\"validation_config\":{\"version\":\"1.0\",\"require_owner\":true,\"require_due_date\":false,\"allow_past_due\":false,\"duplicate_check\":\"title_and_owner\"},\"reference_date\":\"2026-08-07\"}");
    assert!(out.contains("\"reason_code\":\"ok\""), "expected ok in {out}");
}

#[test]
fn item_check_use_case_02_sad() {
    let out = run("{\"action_item\":{\"title\":\"Old task\",\"owner_id\":\"user-ada\",\"due_date\":\"2026-08-01\"},\"existing_open_items\":[],\"validation_config\":{\"version\":\"1.0\",\"require_owner\":true,\"require_due_date\":true,\"allow_past_due\":false,\"duplicate_check\":\"title_and_owner\"},\"reference_date\":\"2026-08-07\"}");
    assert!(out.contains("\"reason_code\":\"validation_failed\""), "expected validation_failed in {out}");
}

#[test]
fn item_check_use_case_03_sad() {
    let out = run("{\"action_item\":{\"title\":\"Draft agenda\",\"due_date\":\"2026-08-10\"},\"existing_open_items\":[],\"validation_config\":{\"version\":\"1.0\",\"require_owner\":true,\"require_due_date\":false,\"allow_past_due\":false,\"duplicate_check\":\"none\"},\"reference_date\":\"2026-08-07\"}");
    assert!(out.contains("\"reason_code\":\"validation_failed\""), "expected validation_failed in {out}");
}

#[test]
fn item_check_use_case_04_sad() {
    let out = run("{\"action_item\":{\"title\":\"Send proposal\",\"owner_id\":\"user-ada\",\"due_date\":\"2026-08-12\"},\"existing_open_items\":[{\"title\":\"Send proposal\",\"owner_id\":\"user-ada\",\"due_date\":\"2026-08-09\"}],\"validation_config\":{\"version\":\"1.0\",\"require_owner\":true,\"require_due_date\":false,\"allow_past_due\":false,\"duplicate_check\":\"title_and_owner\"},\"reference_date\":\"2026-08-07\"}");
    assert!(out.contains("\"reason_code\":\"duplicate\""), "expected duplicate in {out}");
}

#[test]
fn item_check_use_case_05_sad() {
    let out = run("{\"action_item\":{\"title\":\"Send proposal\",\"owner_id\":\"user-bob\",\"due_date\":\"2026-08-12\"},\"existing_open_items\":[{\"title\":\"Send proposal\",\"owner_id\":\"user-ada\",\"due_date\":\"2026-08-09\"}],\"validation_config\":{\"version\":\"1.0\",\"require_owner\":true,\"require_due_date\":false,\"allow_past_due\":false,\"duplicate_check\":\"title\"},\"reference_date\":\"2026-08-07\"}");
    assert!(out.contains("\"reason_code\":\"duplicate\""), "expected duplicate in {out}");
}

#[test]
fn item_check_use_case_06_sad() {
    let out = run("{\"action_item\":{\"title\":\"Send proposal\",\"owner_id\":\"user-ada\",\"due_date\":\"2026-08-12\"},\"existing_open_items\":[],\"validation_config\":{\"version\":\"1.0\",\"require_owner\":true,\"require_due_date\":false,\"allow_past_due\":false,\"duplicate_check\":\"bogus\"},\"reference_date\":\"2026-08-07\"}");
    assert!(out.contains("\"reason_code\":\"invalid_config\""), "expected invalid_config in {out}");
}

#[test]
fn item_check_valid_document_is_exact() {
    let out = run("{\"action_item\":{\"title\":\"Send proposal\",\"owner_id\":\"user-ada\",\"due_date\":\"2026-08-09\"},\"existing_open_items\":[],\"validation_config\":{\"duplicate_check\":\"title_and_owner\"},\"reference_date\":\"2026-08-07\"}");
    assert_eq!(
        out,
        r#"{"valid":true,"errors":[],"normalized":{"title":"Send proposal","owner_id":"user-ada","due_date":"2026-08-09"},"reason_code":"ok","evaluation_trace":["all checks passed"]}"#
    );
}

#[test]
fn item_check_failures_are_listed_in_order() {
    let out = run("{\"action_item\":{\"title\":\"\",\"due_date\":\"2026-08-01\"},\"validation_config\":{},\"reference_date\":\"2026-08-07\"}");
    assert_eq!(
        out,
        r#"{"valid":false,"errors":[{"field":"title","code":"empty_title","message":"title must be non-empty"},{"field":"owner_id","code":"missing_owner","message":"owner_id is required"},{"field":"due_date","code":"past_due","message":"due_date is in the past"}],"normalized":null,"reason_code":"validation_failed","evaluation_trace":["title missing or empty","require_owner=true and owner_id missing","due_date is earlier than reference_date"]}"#
    );
}

#[test]
fn item_check_duplicate_document_is_exact() {
    let out = run("{\"action_item\":{\"title\":\"Send proposal\",\"owner_id\":\"user-bob\"},\"existing_open_items\":[{\"title\":\"Send proposal\",\"owner_id\":\"user-ada\"}],\"validation_config\":{\"duplicate_check\":\"title\"},\"reference_date\":\"2026-08-07\"}");
    assert_eq!(
        out,
        r#"{"valid":false,"errors":[{"field":"title","code":"duplicate","message":"matching open item already exists"}],"normalized":null,"reason_code":"duplicate","evaluation_trace":["duplicate_check=title matched existing open item"]}"#
    );
}

#[test]
fn item_check_missing_reference_date_is_invalid_config() {
    let out = run("{\"action_item\":{\"title\":\"x\"},\"validation_config\":{}}");
    assert_eq!(
        out,
        r#"{"valid":false,"errors":[],"normalized":null,"reason_code":"invalid_config","evaluation_trace":["precondition failed: required fields missing"]}"#
    );
}

#[test]
fn item_check_find_duplicate_walk() {
    let list = br#"[{"title":"a","owner_id":"o1"}, {"title":"b","owner_id":"o2"}]"#;
    assert!(find_duplicate(list, b"b", b"o2", true));
    assert!(!find_duplicate(list, b"b", b"o1", true));
    assert!(find_duplicate(list, b"b", b"o1", false));
    assert!(!find_duplicate(list, b"c", b"o1", false));
    assert!(!find_duplicate(b"[1, {\"title\":\"a\"}]", b"a", b"", false));
}

#[test]
fn item_check_past_due_compares_dates_as_text() {
    let (errors, traces) = check_fields(b"t", b"o", b"2026-08-06", b"2026-08-07", true, false, false);
    assert_eq!(errors.len(), 1);
    assert_eq!(errors[0].code, b"past_due");
    assert_eq!(traces, vec![&b"due_date is earlier than reference_date"[..]]);
    let (errors, _) = check_fields(b"t", b"o", b"2026-08-06", b"2026-08-07", true, false, true);
    assert!(errors.is_empty());
    let (errors, _) = check_fields(b"t", b"o", b"2026-08-07", b"2026-08-07", true, false, false);
    assert!(errors.is_empty());
}
