use capabilities::health::health_fits_check;
use capabilities::health::{evaluate, format_on_track_pct, id_lt, insert_top_pressure, is_open_status, parse_pressure_score, trace_of};

fn run(input: &str) -> String {
    let mut out = vec![0u8; 65536];
    let n = evaluate(input.as_bytes(), &mut out);
    String::from_utf8_lossy(&out[..n]).into_owned()
}

#[test]
fn health_use_case_01_happy() {
    let out = run("{\"items\":[{\"id\":\"ai-1\",\"owner_id\":\"user-ada\",\"status\":\"open\",\"due_date\":\"2026-08-08\",\"pressure_score\":0.9},{\"id\":\"ai-2\",\"owner_id\":\"user-ada\",\"status\":\"in_progress\",\"due_date\":\"2026-08-15\",\"pressure_score\":0.3},{\"id\":\"ai-3\",\"owner_id\":\"user-bob\",\"status\":\"open\",\"due_date\":\"2026-08-01\",\"pressure_score\":0.95}],\"reference_date\":\"2026-08-07\",\"aggregation_config\":{\"version\":\"1.0\",\"overdue_threshold_days\":0}}");
    assert!(out.contains("\"reason_code\":\"ok\""), "expected ok in {out}");
}

#[test]
fn health_use_case_02_sad() {
    let out = run("{\"items\":[],\"reference_date\":\"\",\"aggregation_config\":{\"version\":\"1.0\",\"overdue_threshold_days\":0}}");
    assert!(out.contains("\"reason_code\":\"invalid_input\""), "expected invalid_input in {out}");
}

#[test]
fn health_summary_document_is_exact() {
    let out = run("{\"items\":[{\"id\":\"ai-1\",\"owner_id\":\"user-ada\",\"status\":\"open\",\"due_date\":\"2026-08-08\",\"pressure_score\":0.9},{\"id\":\"ai-2\",\"owner_id\":\"user-ada\",\"status\":\"in_progress\",\"due_date\":\"2026-08-15\",\"pressure_score\":0.3},{\"id\":\"ai-3\",\"owner_id\":\"user-bob\",\"status\":\"open\",\"due_date\":\"2026-08-01\",\"pressure_score\":0.95}],\"reference_date\":\"2026-08-07\",\"aggregation_config\":{\"version\":\"1.0\"}}");
    assert_eq!(
        out,
        r#"{"total_open":3,"on_track_pct":66.6,"overdue_count":1,"overloaded_owners":[{"owner_id":"user-ada","open_count":2}],"top_pressure_items":["ai-3","ai-1"],"reason_code":"ok","evaluation_trace":["aggregated 3 items"]}"#
    );
}

#[test]
fn health_closed_items_are_not_counted() {
    let out = run("{\"items\":[{\"id\":\"z\",\"status\":\"open\"},{\"id\":\"y\",\"status\":\"open\",\"pressure_score\":0}],\"reference_date\":\"2026-08-07\",\"aggregation_config\":{}}");
    assert!(out.contains("\"top_pressure_items\":[\"y\",\"z\"]"), "{out}");
    let out = run("{\"items\":[{\"id\":\"a\",\"status\":\"done\",\"pressure_score\":5},{\"id\":\"b\",\"status\":\"cancelled\"}],\"reference_date\":\"2026-08-07\",\"aggregation_config\":{}}");
    assert_eq!(
        out,
        r#"{"total_open":0,"on_track_pct":0,"overdue_count":0,"overloaded_owners":[],"top_pressure_items":[],"reason_code":"ok","evaluation_trace":["aggregated 0 items"]}"#
    );
}

#[test]
fn health_missing_config_is_invalid_input() {
    let out = run("{\"items\":[],\"reference_date\":\"2026-08-07\"}");
    assert_eq!(
        out,
        r#"{"total_open":0,"on_track_pct":0,"overdue_count":0,"overloaded_owners":[],"top_pressure_items":[],"reason_code":"invalid_input","evaluation_trace":[]}"#
    );
}

#[test]
fn health_pressure_scores_in_thousandths() {
    assert_eq!(parse_pressure_score(br#"{"pressure_score": 0.95}"#), 950);
    assert_eq!(parse_pressure_score(br#"{"pressure_score":2.1234}"#), 2123);
    assert_eq!(parse_pressure_score(br#"{"pressure_score":7}"#), 7000);
    assert_eq!(parse_pressure_score(br#"{"pressure_score":"x"}"#), 0);
    assert_eq!(parse_pressure_score(br#"{"other":1}"#), 0);
}

#[test]
fn health_top_slots_rank_by_score_then_id() {
    let empty: &[u8] = b"";
    let (t, s) = insert_top_pressure((empty, 0), (empty, 0), b"x", 0);
    assert_eq!((t, s), ((&b"x"[..], 0), (empty, 0)));
    let (t, s) = insert_top_pressure((b"x", 0), (empty, 0), b"y", 0);
    assert_eq!((t, s), ((&b"x"[..], 0), (&b"y"[..], 0)));
    let (t, s) = insert_top_pressure((b"b", 500), (empty, 0), b"a", 500);
    assert_eq!((t, s), ((&b"a"[..], 500), (&b"b"[..], 500)));
    let (t, s) = insert_top_pressure((b"b", 500), (b"c", 100), b"d", 200);
    assert_eq!((t, s), ((&b"b"[..], 500), (&b"d"[..], 200)));
}

#[test]
fn health_percentage_and_trace_texts() {
    assert_eq!(format_on_track_pct(2, 3), b"66.6".to_vec());
    assert_eq!(format_on_track_pct(3, 3), b"100.0".to_vec());
    assert_eq!(format_on_track_pct(0, 0), b"0".to_vec());
    assert_eq!(trace_of(12), b"[\"aggregated 12 items\"]".to_vec());
    assert!(is_open_status(b"snoozed"));
    assert!(!is_open_status(b"done"));
}

#[test]
fn health_ids_order_by_first_difference_then_length() {
    assert!(id_lt(b"ai-1", b"ai-2"));
    assert!(id_lt(b"ai", b"ai-1"));
    assert!(!id_lt(b"ai-1", b"ai"));
    assert!(!id_lt(b"b", b"a"));
    assert!(!id_lt(b"", b""));
}

#[test]
fn health_fits_check_rejects_scores_past_u32_thousandths() {
    let ok = br#"{"reference_date":"2024-01-10","aggregation_config":{},"items":[{"id":"a","status":"open","owner_id":"u","pressure_score":0.5}]}"#;
    assert!(health_fits_check(ok));
    let big = br#"{"reference_date":"2024-01-10","aggregation_config":{},"items":[{"id":"a","status":"open","owner_id":"u","pressure_score":5000000}]}"#;
    assert!(!health_fits_check(big));
    let closed = br#"{"reference_date":"2024-01-10","aggregation_config":{},"items":[{"id":"a","status":"done","pressure_score":5000000}]}"#;
    assert!(health_fits_check(closed));
}
