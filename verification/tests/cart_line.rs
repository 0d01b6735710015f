use capabilities::cart_line::{copy_i64, evaluate, extract_i64};
use capabilities::emit::copy;
use capabilities::transition::{extract_string_at_depth, string_value_after};

fn run(input: &str) -> String {
    let mut out = vec![0u8; 65536];
    let mut event = vec![0u8; 1536];
    let (n, _) = evaluate(input.as_bytes(), &mut out, &mut event);
    String::from_utf8_lossy(&out[..n]).into_owned()
}

fn run_with_event(input: &str) -> (String, String) {
    let mut out = vec![0u8; 4096];
    let mut event = vec![0u8; 1536];
    let (n, e) = evaluate(input.as_bytes(), &mut out, &mut event);
    (
        String::from_utf8_lossy(&out[..n]).into_owned(),
        String::from_utf8_lossy(&event[..e]).into_owned(),
    )
}

#[test]
fn happy_qty_increase() {
    let out = run(
        r#"{"cart_id":"cart-1","line_id":"line-1","sku":"SKU-A","qty_before":1,"qty_after":3,"actor_id":"user-ada"}"#,
    );
    assert!(out.contains("\"reason_code\":\"ok\""), "{out}");
    assert!(out.contains("\"accepted\":true"));
}

#[test]
fn happy_qty_decrease_to_zero() {
    let out = run(
        r#"{"cart_id":"cart-1","line_id":"line-1","sku":"SKU-A","qty_before":2,"qty_after":0,"actor_id":"user-ada"}"#,
    );
    assert!(out.contains("\"reason_code\":\"ok\""), "{out}");
}

#[test]
fn rejects_negative_qty() {
    let out = run(
        r#"{"cart_id":"cart-1","line_id":"line-1","sku":"SKU-A","qty_before":1,"qty_after":-1,"actor_id":"user-ada"}"#,
    );
    assert!(out.contains("\"reason_code\":\"invalid_qty\""), "{out}");
    assert!(out.contains("\"accepted\":false"));
}

#[test]
fn rejects_no_change() {
    let out = run(
        r#"{"cart_id":"cart-1","line_id":"line-1","sku":"SKU-A","qty_before":2,"qty_after":2,"actor_id":"user-ada"}"#,
    );
    assert!(out.contains("\"reason_code\":\"no_change\""), "{out}");
}

#[test]
fn rejects_missing_fields() {
    let out = run(r#"{"cart_id":"cart-1"}"#);
    assert!(out.contains("\"reason_code\":\"invalid_input\""), "{out}");
}

#[test]
fn rejects_missing_qty() {
    let out = run(r#"{"cart_id":"cart-1","line_id":"line-1","sku":"SKU-A","actor_id":"user-ada"}"#);
    assert!(out.contains("\"reason_code\":\"invalid_input\""), "{out}");
}

#[test]
fn rejects_qty_null_token() {
    let out = run(
        r#"{"cart_id":"cart-1","line_id":"line-1","sku":"SKU-A","qty_before":null,"qty_after":1,"actor_id":"user-ada"}"#,
    );
    assert!(out.contains("\"reason_code\":\"invalid_input\""), "{out}");
}

#[test]
fn parses_qty_with_whitespace_and_negative() {
    assert_eq!(extract_i64(b"\"qty_before\":\n\t 12", b"\"qty_before\""), Some(12));
    assert_eq!(extract_i64(b"\"qty_before\": -7", b"\"qty_before\""), Some(-7));
    assert_eq!(extract_i64(b"\"qty_before\":", b"\"qty_before\""), None);
    assert_eq!(extract_i64(b"\"qty_before\": true", b"\"qty_before\""), None);
}

#[test]
fn copy_i64_negative_and_overflow() {
    let mut buf = [0u8; 16];
    let n = copy_i64(&mut buf, 0, -42);
    assert_eq!(&buf[..n], b"-42");
    let mut tiny = [0u8; 1];
    assert_eq!(copy_i64(&mut tiny, 0, 12345), 0);
}

#[test]
fn main_string_value_after_edge_cases() {
    assert_eq!(string_value_after(b"no colon"), b"");
    assert_eq!(string_value_after(b":not-a-quote"), b"");
    assert_eq!(string_value_after(b":\"unterminated"), b"");
    assert_eq!(string_value_after(b": \"ok\""), b"ok");
    assert_eq!(string_value_after(b":\n\t\"ok\""), b"ok");
}

#[test]
fn main_find_key_at_depth_handles_escapes_nesting_and_arrays() {
    let with_escape = br#"{"note":"say \"hi\"","cart_id":"c1","line_id":"l1","sku":"s","qty_before":1,"qty_after":2,"actor_id":"a"}"#;
    assert_eq!(extract_string_at_depth(with_escape, b"\"cart_id\"", 1), b"c1");
    let nested = br#"{"wrap":{"x":1},"cart_id":"c2","line_id":"l2","sku":"s","qty_before":1,"qty_after":2,"actor_id":"a"}"#;
    assert_eq!(extract_string_at_depth(nested, b"\"cart_id\"", 1), b"c2");
    let with_array = br#"{"tags":["a","b"],"cart_id":"c3"}"#;
    assert_eq!(extract_string_at_depth(with_array, b"\"cart_id\"", 1), b"c3");
}

#[test]
fn main_copy_overflow_returns_at() {
    let mut tiny = [0u8; 2];
    assert_eq!(copy(&mut tiny, 0, b"hello"), 0);
}

#[test]
fn cart_line_accepted_response_and_event_are_exact() {
    let (out, event) = run_with_event(
        r#"{"cart_id":"cart-1","line_id":"line-1","sku":"SKU-A","qty_before":1,"qty_after":3,"actor_id":"user-ada"}"#,
    );
    assert_eq!(
        out,
        r#"{"accepted":true,"qty_before":1,"qty_after":3,"reason_code":"ok","evaluation_trace":["line-1 qty changed"]}"#
    );
    assert_eq!(
        event,
        r#"{"event_id":"commerce.cart.line-changed","version":"1.0.0","payload":{"cart_id":"cart-1","line_id":"line-1","sku":"SKU-A","qty_before":1,"qty_after":3,"actor_id":"user-ada"}}"#
    );
}

#[test]
fn cart_line_rejection_echoes_quantities_and_emits_nothing() {
    let (out, event) = run_with_event(
        r#"{"cart_id":"cart-1","line_id":"line-1","sku":"SKU-A","qty_before":-4,"qty_after":2,"actor_id":"user-ada"}"#,
    );
    assert_eq!(
        out,
        r#"{"accepted":false,"qty_before":-4,"qty_after":2,"reason_code":"invalid_qty","evaluation_trace":["qty_before and qty_after must be >= 0"]}"#
    );
    assert_eq!(event, "");
}

#[test]
fn cart_line_missing_identity_reports_zero_quantities() {
    let out = run(r#"{"cart_id":"cart-1","qty_before":5,"qty_after":6}"#);
    assert_eq!(
        out,
        r#"{"accepted":false,"qty_before":0,"qty_after":0,"reason_code":"invalid_input","evaluation_trace":["precondition failed: required string fields missing"]}"#
    );
}

#[test]
fn cart_line_quantity_saturates_at_i64_max() {
    assert_eq!(
        extract_i64(b"\"q\": 99999999999999999999999", b"\"q\""),
        Some(i64::MAX)
    );
    assert_eq!(
        extract_i64(b"\"q\": -99999999999999999999999", b"\"q\""),
        Some(-i64::MAX)
    );
    assert_eq!(extract_i64(b"\"q\" 5", b"\"q\""), None);
}

#[test]
fn cart_line_copy_i64_keeps_partial_digits_but_returns_at() {
    let mut buf = [b'.'; 4];
    assert_eq!(copy_i64(&mut buf, 1, -1234), 1);
    assert_eq!(&buf, b".-12");
    let mut zero = [b'.'; 3];
    assert_eq!(copy_i64(&mut zero, 2, 0), 3);
    assert_eq!(&zero, b"..0");
}
