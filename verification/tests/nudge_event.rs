use capabilities::nudge_event::counts_fit;
use capabilities::emit::{copy, copy_json_escaped, write_i32, write_u32};
use capabilities::nudge_event::{
    ascii_lower, eq_ignore_case, evaluate, format_score_millis, normalize_email, parse_number_millis,
    parse_ymd_days, trim_ascii,
};
use capabilities::scan::{
    array_after_key_at_depth, balanced_end, extract_bool, extract_i32, extract_string,
    extract_string_at_depth, find, find_key_at_depth, object_after_key_at_depth, parse_i32, skip_ws,
    skip_ws_comma, string_value_after,
};


fn run(input: &str) -> String {
    let mut out = vec![0u8; 65536];
    let n = evaluate(input.as_bytes(), &mut out);
    String::from_utf8_lossy(&out[..n]).into_owned()
}

#[test]
fn main_use_case_01_happy() {
    let out = run("{\"item_id\":\"ai-1\",\"owner_id\":\"user-ada\",\"intensity\":\"soft\",\"channel\":\"in_app\",\"message_preview\":\"Reminder: Send the revised proposal\",\"event_at\":\"2026-08-07T10:00:00Z\",\"prior_nudge_count\":0}");
    assert!(
        out.contains("\"reason_code\":\"ok\""),
        "expected ok in {out}"
    );
}

#[test]
fn main_use_case_02_happy() {
    let out = run("{\"item_id\":\"ai-9\",\"owner_id\":\"user-bob\",\"intensity\":\"escalate\",\"channel\":\"manager\",\"message_preview\":\"Escalation: overdue item\",\"event_at\":\"2026-08-07T11:00:00Z\",\"prior_nudge_count\":3}");
    assert!(
        out.contains("\"reason_code\":\"ok\""),
        "expected ok in {out}"
    );
}

#[test]
fn main_use_case_03_happy() {
    let out = run("{\"item_id\":\"ai-2\",\"owner_id\":\"user-ada\",\"intensity\":\"direct\",\"channel\":\"in_app\",\"message_preview\":\"Please complete\",\"event_at\":\"2026-08-07T12:00:00Z\",\"prior_nudge_count\":1}");
    assert!(
        out.contains("\"reason_code\":\"ok\""),
        "expected ok in {out}"
    );
}

#[test]
fn main_use_case_04_sad() {
    let out = run("{\"item_id\":\"\",\"owner_id\":\"user-ada\",\"intensity\":\"soft\",\"channel\":\"in_app\",\"message_preview\":\"x\",\"event_at\":\"2026-08-07T10:00:00Z\",\"prior_nudge_count\":0}");
    assert!(
        out.contains("\"reason_code\":\"invalid_input\""),
        "expected invalid_input in {out}"
    );
}

// ---- evaluate(): every branch ----

#[test]
fn evaluate_missing_event_at_is_invalid_input() {
    let out = run("{\"item_id\":\"ai-1\",\"owner_id\":\"o\",\"intensity\":\"soft\",\"channel\":\"c\",\"message_preview\":\"p\",\"prior_nudge_count\":0}");
    assert!(
        out.contains("\"reason_code\":\"invalid_input\""),
        "expected invalid_input in {out}"
    );
}

#[test]
fn evaluate_empty_event_at_is_invalid_input() {
    let out = run("{\"item_id\":\"ai-1\",\"owner_id\":\"o\",\"intensity\":\"soft\",\"channel\":\"c\",\"message_preview\":\"p\",\"event_at\":\"\",\"prior_nudge_count\":0}");
    assert!(
        out.contains("\"reason_code\":\"invalid_input\""),
        "expected invalid_input in {out}"
    );
}

#[test]
fn evaluate_missing_prior_nudge_count_is_invalid_input() {
    let out = run("{\"item_id\":\"ai-1\",\"owner_id\":\"o\",\"intensity\":\"soft\",\"channel\":\"c\",\"message_preview\":\"p\",\"event_at\":\"2026-08-07T10:00:00Z\"}");
    assert!(
        out.contains("\"reason_code\":\"invalid_input\""),
        "expected invalid_input in {out}"
    );
}

#[test]
fn evaluate_negative_prior_nudge_count_is_invalid_input() {
    let out = run("{\"item_id\":\"ai-1\",\"owner_id\":\"o\",\"intensity\":\"soft\",\"channel\":\"c\",\"message_preview\":\"p\",\"event_at\":\"2026-08-07T10:00:00Z\",\"prior_nudge_count\":-1}");
    assert!(
        out.contains("\"reason_code\":\"invalid_input\""),
        "expected invalid_input in {out}"
    );
}

#[test]
fn evaluate_invalid_intensity_is_rejected() {
    let out = run("{\"item_id\":\"ai-1\",\"owner_id\":\"o\",\"intensity\":\"urgent\",\"channel\":\"c\",\"message_preview\":\"p\",\"event_at\":\"2026-08-07T10:00:00Z\",\"prior_nudge_count\":0}");
    assert!(
        out.contains("\"reason_code\":\"invalid_intensity\""),
        "expected invalid_intensity in {out}"
    );
}

#[test]
fn evaluate_missing_channel_defaults_to_in_app() {
    let out = run("{\"item_id\":\"ai-1\",\"owner_id\":\"o\",\"intensity\":\"soft\",\"message_preview\":\"p\",\"event_at\":\"2026-08-07T10:00:00Z\",\"prior_nudge_count\":0}");
    assert!(
        out.contains("\"channel\":\"in_app\""),
        "expected default channel in {out}"
    );
    assert!(out.contains("\"reason_code\":\"ok\""));
}

#[test]
fn evaluate_empty_channel_defaults_to_in_app() {
    let out = run("{\"item_id\":\"ai-1\",\"owner_id\":\"o\",\"intensity\":\"soft\",\"channel\":\"\",\"message_preview\":\"p\",\"event_at\":\"2026-08-07T10:00:00Z\",\"prior_nudge_count\":0}");
    assert!(
        out.contains("\"channel\":\"in_app\""),
        "expected default channel in {out}"
    );
}

#[test]
fn evaluate_explicit_channel_is_preserved() {
    let out = run("{\"item_id\":\"ai-1\",\"owner_id\":\"o\",\"intensity\":\"soft\",\"channel\":\"manager\",\"message_preview\":\"p\",\"event_at\":\"2026-08-07T10:00:00Z\",\"prior_nudge_count\":0}");
    assert!(
        out.contains("\"channel\":\"manager\""),
        "expected explicit channel in {out}"
    );
}

#[test]
fn evaluate_missing_owner_id_and_preview_are_empty_but_ok() {
    let out = run("{\"item_id\":\"ai-1\",\"intensity\":\"soft\",\"event_at\":\"2026-08-07T10:00:00Z\",\"prior_nudge_count\":0}");
    assert!(
        out.contains("\"reason_code\":\"ok\""),
        "expected ok in {out}"
    );
    assert!(
        out.contains("\"owner_id\":\"\""),
        "expected empty owner_id in {out}"
    );
    assert!(
        out.contains("\"message_preview\":\"\""),
        "expected empty preview in {out}"
    );
}

#[test]
fn evaluate_ordinal_is_prior_plus_one() {
    let out = run("{\"item_id\":\"ai-1\",\"owner_id\":\"o\",\"intensity\":\"soft\",\"channel\":\"c\",\"message_preview\":\"p\",\"event_at\":\"2026-08-07T10:00:00Z\",\"prior_nudge_count\":7}");
    assert!(
        out.contains("\"nudge_ordinal\":8"),
        "expected ordinal 8 in {out}"
    );
    assert!(
        out.contains("nudge-ai-1-8"),
        "expected event_id with ordinal in {out}"
    );
    assert!(out.contains("ordinal=8"), "expected trace ordinal in {out}");
}

#[test]
fn evaluate_escapes_backslashes_in_strings() {
    // Note: this hand-rolled scanner's string extraction stops at the first
    // raw `"` byte (it is not escape-aware when finding the closing quote),
    // so a value containing an embedded quote cannot round-trip through
    // evaluate(); only backslashes are exercised here end-to-end. Quote
    // escaping itself is covered directly by the copy_json_escaped tests.
    let input = r#"{"item_id":"ai\\1","owner_id":"o","intensity":"soft","channel":"c","message_preview":"say\\hi","event_at":"2026-08-07T10:00:00Z","prior_nudge_count":0}"#;
    let out = run(input);
    assert!(
        out.contains(r#""item_id":"ai\\\\1""#),
        "expected escaped item_id in {out}"
    );
    assert!(
        out.contains(r#""message_preview":"say\\\\hi""#),
        "expected escaped preview in {out}"
    );
    assert!(out.contains("\"reason_code\":\"ok\""));
}

#[test]
fn evaluate_item_id_only_at_top_level_depth_is_used() {
    // "item_id" nested one level deeper than the top level must not satisfy
    // the top-level requirement (extract_string_at_depth targets depth 1).
    let out = run("{\"nested\":{\"item_id\":\"ai-1\"},\"owner_id\":\"o\",\"intensity\":\"soft\",\"channel\":\"c\",\"message_preview\":\"p\",\"event_at\":\"2026-08-07T10:00:00Z\",\"prior_nudge_count\":0}");
    assert!(
        out.contains("\"reason_code\":\"invalid_input\""),
        "expected invalid_input in {out}"
    );
}

// ---- skip_ws / skip_ws_comma ----

#[test]
fn skip_ws_strips_all_whitespace_kinds() {
    assert_eq!(skip_ws(b"   \t\n\rabc"), b"abc");
}

#[test]
fn skip_ws_no_whitespace_is_noop() {
    assert_eq!(skip_ws(b"abc"), b"abc");
}

#[test]
fn skip_ws_all_whitespace_yields_empty() {
    assert_eq!(skip_ws(b"   "), b"");
}

#[test]
fn skip_ws_comma_skips_commas_and_whitespace() {
    assert_eq!(skip_ws_comma(b"  , \tabc"), 5);
}

#[test]
fn skip_ws_comma_stops_at_first_non_matching_byte() {
    assert_eq!(skip_ws_comma(b"abc"), 0);
}

#[test]
fn skip_ws_comma_empty_input() {
    assert_eq!(skip_ws_comma(b""), 0);
}

// ---- balanced_end ----

#[test]
fn balanced_end_simple_object() {
    assert_eq!(balanced_end(b"{}", b'{', b'}'), Some(1));
}

#[test]
fn balanced_end_nested_object() {
    assert_eq!(balanced_end(b"{{}}", b'{', b'}'), Some(3));
}

#[test]
fn balanced_end_ignores_braces_inside_strings() {
    // {"a":"}"}  -- the '}' inside the string value must not close the object early.
    let s = b"{\"a\":\"}\"}";
    assert_eq!(balanced_end(s, b'{', b'}'), Some(s.len() - 1));
}

#[test]
fn balanced_end_handles_escaped_quote_in_string() {
    // {"a":"esc\"aped"}  -- escaped quote must not terminate the string early.
    let s = b"{\"a\":\"esc\\\"aped\"}";
    assert_eq!(balanced_end(s, b'{', b'}'), Some(s.len() - 1));
}

#[test]
fn balanced_end_unbalanced_returns_none() {
    assert_eq!(balanced_end(b"{{}", b'{', b'}'), None);
}

#[test]
fn balanced_end_works_for_arrays() {
    assert_eq!(balanced_end(b"[1,[2,3],4]", b'[', b']'), Some(10));
}

// ---- find ----

#[test]
fn find_locates_needle() {
    assert_eq!(find(b"abcdef", b"cde"), Some(2));
}

#[test]
fn find_returns_none_when_absent() {
    assert_eq!(find(b"abcdef", b"xyz"), None);
}

// ---- find_key_at_depth ----

#[test]
fn find_key_at_depth_matches_top_level_key() {
    assert_eq!(
        find_key_at_depth(b"{\"key\":\"val\"}", b"\"key\"", 1),
        Some(1)
    );
}

#[test]
fn find_key_at_depth_wrong_target_depth_is_none() {
    assert_eq!(find_key_at_depth(b"{\"key\":\"val\"}", b"\"key\"", 0), None);
}

#[test]
fn find_key_at_depth_nested_key_is_deeper() {
    let hay = b"{\"a\":{\"key\":\"val\"}}";
    assert_eq!(find_key_at_depth(hay, b"\"key\"", 1), None);
    assert!(find_key_at_depth(hay, b"\"key\"", 2).is_some());
}

#[test]
fn find_key_at_depth_skips_escaped_quotes() {
    let hay = b"{\"a\":\"esc\\\"aped\",\"key\":\"val\"}";
    assert!(find_key_at_depth(hay, b"\"key\"", 1).is_some());
}

#[test]
fn find_key_at_depth_not_found() {
    assert_eq!(find_key_at_depth(b"{\"a\":1}", b"\"key\"", 1), None);
}

// ---- string_value_after ----

#[test]
fn string_value_after_normal() {
    assert_eq!(string_value_after(b": \"hello\""), b"hello");
}

#[test]
fn string_value_after_no_colon_is_empty() {
    assert_eq!(string_value_after(b"\"hello\""), b"");
}

#[test]
fn string_value_after_non_string_value_is_empty() {
    assert_eq!(string_value_after(b":123"), b"");
}

#[test]
fn string_value_after_unterminated_string_is_empty() {
    assert_eq!(string_value_after(b":\"unterminated"), b"");
}

#[test]
fn string_value_after_empty_string_value() {
    assert_eq!(string_value_after(b":\"\""), b"");
}

// ---- extract_string ----

#[test]
fn extract_string_finds_value() {
    assert_eq!(extract_string(b"{\"key\":\"val\"}", b"\"key\""), b"val");
}

#[test]
fn extract_string_key_not_found_is_empty() {
    assert_eq!(extract_string(b"{\"other\":\"val\"}", b"\"key\""), b"");
}

// ---- extract_string_at_depth ----

#[test]
fn extract_string_at_depth_key_not_found_is_empty() {
    assert_eq!(
        extract_string_at_depth(b"{\"other\":\"val\"}", b"\"key\"", 1),
        b""
    );
}

#[test]
fn extract_string_at_depth_finds_value_at_target_depth() {
    assert_eq!(
        extract_string_at_depth(b"{\"key\":\"val\"}", b"\"key\"", 1),
        b"val"
    );
}

// ---- object_after_key_at_depth ----

#[test]
fn object_after_key_finds_object_value() {
    let hay = b"{\"key\":{\"a\":1},\"b\":2}";
    assert_eq!(
        object_after_key_at_depth(hay, b"\"key\"", 1),
        Some(&b"{\"a\":1}"[..])
    );
}

#[test]
fn object_after_key_not_found_is_none() {
    assert_eq!(
        object_after_key_at_depth(b"{\"other\":1}", b"\"key\"", 1),
        None
    );
}

#[test]
fn object_after_key_non_object_value_is_none() {
    assert_eq!(
        object_after_key_at_depth(b"{\"key\":123}", b"\"key\"", 1),
        None
    );
}

#[test]
fn object_after_key_missing_colon_is_none() {
    assert_eq!(object_after_key_at_depth(b"{\"key\"}", b"\"key\"", 1), None);
}

#[test]
fn object_after_key_unbalanced_value_is_none() {
    // The value's own opening `{` never finds a matching close within the slice.
    assert_eq!(
        object_after_key_at_depth(b"{\"key\":{\"a\":1", b"\"key\"", 1),
        None
    );
}

// ---- array_after_key_at_depth ----

#[test]
fn array_after_key_finds_array_value() {
    let hay = b"{\"arr\":[1,2,3],\"b\":2}";
    assert_eq!(
        array_after_key_at_depth(hay, b"\"arr\"", 1),
        Some(&b"[1,2,3]"[..])
    );
}

#[test]
fn array_after_key_not_found_is_none() {
    assert_eq!(
        array_after_key_at_depth(b"{\"other\":1}", b"\"arr\"", 1),
        None
    );
}

#[test]
fn array_after_key_non_array_value_is_none() {
    assert_eq!(
        array_after_key_at_depth(b"{\"arr\":123}", b"\"arr\"", 1),
        None
    );
}

#[test]
fn array_after_key_missing_colon_is_none() {
    assert_eq!(array_after_key_at_depth(b"{\"arr\"}", b"\"arr\"", 1), None);
}

#[test]
fn array_after_key_unbalanced_value_is_none() {
    assert_eq!(
        array_after_key_at_depth(b"{\"arr\":[1,2", b"\"arr\"", 1),
        None
    );
}

// ---- extract_bool ----

#[test]
fn extract_bool_true() {
    assert_eq!(extract_bool(b"{\"key\":true}", b"\"key\""), Some(true));
}

#[test]
fn extract_bool_false() {
    assert_eq!(extract_bool(b"{\"key\":false}", b"\"key\""), Some(false));
}

#[test]
fn extract_bool_garbage_is_none() {
    assert_eq!(extract_bool(b"{\"key\":123}", b"\"key\""), None);
}

#[test]
fn extract_bool_not_found_is_none() {
    assert_eq!(extract_bool(b"{\"other\":true}", b"\"key\""), None);
}

#[test]
fn extract_bool_missing_colon_is_none() {
    assert_eq!(extract_bool(b"{\"key\"}", b"\"key\""), None);
}

// ---- extract_i32 / parse_i32 ----

#[test]
fn extract_i32_positive() {
    assert_eq!(extract_i32(b"{\"key\":42}", b"\"key\""), Some(42));
}

#[test]
fn extract_i32_negative() {
    assert_eq!(extract_i32(b"{\"key\":-7}", b"\"key\""), Some(-7));
}

#[test]
fn extract_i32_not_found_is_none() {
    assert_eq!(extract_i32(b"{\"other\":1}", b"\"key\""), None);
}

#[test]
fn extract_i32_missing_colon_is_none() {
    assert_eq!(extract_i32(b"{\"key\"}", b"\"key\""), None);
}

#[test]
fn extract_i32_non_numeric_is_none() {
    assert_eq!(extract_i32(b"{\"key\":abc}", b"\"key\""), None);
}

#[test]
fn parse_i32_valid_positive() {
    assert_eq!(parse_i32(b"123"), Some(123));
}

#[test]
fn parse_i32_valid_negative() {
    assert_eq!(parse_i32(b"-45"), Some(-45));
}

#[test]
fn parse_i32_empty_is_none() {
    assert_eq!(parse_i32(b""), None);
}

#[test]
fn parse_i32_lone_minus_is_none() {
    assert_eq!(parse_i32(b"-"), None);
}

#[test]
fn parse_i32_non_digit_start_is_none() {
    assert_eq!(parse_i32(b"abc"), None);
}

#[test]
fn parse_i32_stops_at_first_non_digit() {
    assert_eq!(parse_i32(b"12ab"), Some(12));
}

// ---- parse_number_millis ----

#[test]
fn parse_number_millis_whole_only() {
    assert_eq!(parse_number_millis(b"{\"k\":5}", b"\"k\""), Some(5000));
}

#[test]
fn parse_number_millis_one_frac_digit_padded() {
    assert_eq!(parse_number_millis(b"{\"k\":0.7}", b"\"k\""), Some(700));
}

#[test]
fn parse_number_millis_three_frac_digits() {
    assert_eq!(parse_number_millis(b"{\"k\":1.234}", b"\"k\""), Some(1234));
}

#[test]
fn parse_number_millis_truncates_beyond_three_frac_digits() {
    assert_eq!(
        parse_number_millis(b"{\"k\":1.23456}", b"\"k\""),
        Some(1234)
    );
}

#[test]
fn parse_number_millis_stops_at_comma() {
    assert_eq!(
        parse_number_millis(b"{\"k\":5,\"j\":1}", b"\"k\""),
        Some(5000)
    );
}

#[test]
fn parse_number_millis_stops_at_close_brace() {
    assert_eq!(parse_number_millis(b"{\"k\":9}", b"\"k\""), Some(9000));
}

#[test]
fn parse_number_millis_stops_at_close_bracket() {
    assert_eq!(parse_number_millis(b"[{\"k\":3]", b"\"k\""), Some(3000));
}

#[test]
fn parse_number_millis_stops_at_whitespace() {
    assert_eq!(parse_number_millis(b"{\"k\":3 x}", b"\"k\""), Some(3000));
    assert_eq!(parse_number_millis(b"{\"k\":3\nx}", b"\"k\""), Some(3000));
}

#[test]
fn parse_number_millis_not_found_is_none() {
    assert_eq!(parse_number_millis(b"{\"other\":1}", b"\"k\""), None);
}

#[test]
fn parse_number_millis_missing_colon_is_none() {
    assert_eq!(parse_number_millis(b"{\"k\"}", b"\"k\""), None);
}

#[test]
fn parse_number_millis_empty_rest_is_none() {
    // Colon is the very last byte: after skip_ws the remaining slice is empty.
    assert_eq!(parse_number_millis(b"{\"k\":", b"\"k\""), None);
}

#[test]
fn parse_number_millis_non_numeric_start_yields_zero() {
    assert_eq!(parse_number_millis(b"{\"k\":abc}", b"\"k\""), Some(0));
}

// ---- copy ----

#[test]
fn copy_writes_bytes_and_advances_index() {
    let mut buf = [0u8; 8];
    let i = copy(&mut buf, 0, b"abc");
    assert_eq!(i, 3);
    assert_eq!(&buf[..3], b"abc");
}

#[test]
fn copy_overflow_guard_leaves_index_unchanged() {
    let mut buf = [0u8; 2];
    let i = copy(&mut buf, 0, b"abc");
    assert_eq!(i, 0);
    assert_eq!(buf, [0u8; 2]);
}

// ---- copy_json_escaped ----

#[test]
fn copy_json_escaped_escapes_quote_and_backslash() {
    let mut buf = [0u8; 16];
    let i = copy_json_escaped(&mut buf, 0, b"a\"b\\c");
    assert_eq!(&buf[..i], b"a\\\"b\\\\c");
}

#[test]
fn copy_json_escaped_passes_through_plain_bytes() {
    let mut buf = [0u8; 8];
    let i = copy_json_escaped(&mut buf, 0, b"abc");
    assert_eq!(&buf[..i], b"abc");
}

#[test]
fn copy_json_escaped_drops_bytes_on_overflow() {
    // buffer holds exactly 3 bytes: 'a','b' fit; the escaped quote (needs 2)
    // doesn't fit and is dropped whole via copy()'s guard; 'c' fits in the
    // remaining slot; 'd' then has no room and is dropped by the per-byte guard.
    let mut buf = [0u8; 3];
    let i = copy_json_escaped(&mut buf, 0, b"ab\"cd");
    assert_eq!(i, 3);
    assert_eq!(&buf[..3], b"abc");
}

// ---- write_u32 ----

#[test]
fn write_u32_zero() {
    let mut buf = [0u8; 4];
    let i = write_u32(&mut buf, 0, 0);
    assert_eq!(i, 1);
    assert_eq!(&buf[..1], b"0");
}

#[test]
fn write_u32_multi_digit() {
    let mut buf = [0u8; 8];
    let i = write_u32(&mut buf, 0, 12345);
    assert_eq!(&buf[..i], b"12345");
}

#[test]
fn write_u32_overflow_guard_truncates() {
    let mut buf = [0u8; 2];
    let i = write_u32(&mut buf, 0, 12345);
    assert_eq!(i, 2);
    assert_eq!(&buf, b"12");
}

#[test]
fn write_u32_zero_with_no_room_returns_unchanged_index() {
    let mut buf: [u8; 0] = [];
    let i = write_u32(&mut buf, 0, 0);
    assert_eq!(i, 0);
}

// ---- write_i32 ----

#[test]
fn write_i32_positive() {
    let mut buf = [0u8; 8];
    let i = write_i32(&mut buf, 0, 42);
    assert_eq!(&buf[..i], b"42");
}

#[test]
fn write_i32_negative() {
    let mut buf = [0u8; 8];
    let i = write_i32(&mut buf, 0, -42);
    assert_eq!(&buf[..i], b"-42");
}

// ---- ascii_lower / eq_ignore_case ----

#[test]
fn ascii_lower_converts_uppercase() {
    assert_eq!(ascii_lower(b'A'), b'a');
    assert_eq!(ascii_lower(b'Z'), b'z');
}

#[test]
fn ascii_lower_leaves_others_unchanged() {
    assert_eq!(ascii_lower(b'a'), b'a');
    assert_eq!(ascii_lower(b'0'), b'0');
    assert_eq!(ascii_lower(b'-'), b'-');
}

#[test]
fn eq_ignore_case_different_lengths_is_false() {
    assert!(!eq_ignore_case(b"abc", b"ab"));
}

#[test]
fn eq_ignore_case_matches_case_insensitively() {
    assert!(eq_ignore_case(b"AbC", b"aBc"));
}

#[test]
fn eq_ignore_case_mismatched_chars_is_false() {
    assert!(!eq_ignore_case(b"abc", b"abd"));
}

#[test]
fn eq_ignore_case_empty_is_true() {
    assert!(eq_ignore_case(b"", b""));
}

// ---- normalize_email ----

#[test]
fn normalize_email_trims_and_lowercases() {
    let mut dst = [0u8; 32];
    let n = normalize_email(b"  Foo.Bar@EXAMPLE.com\t", &mut dst);
    assert_eq!(&dst[..n], b"foo.bar@example.com");
}

#[test]
fn normalize_email_empty_input() {
    let mut dst = [0u8; 8];
    let n = normalize_email(b"", &mut dst);
    assert_eq!(n, 0);
}

#[test]
fn normalize_email_all_whitespace_input() {
    let mut dst = [0u8; 8];
    let n = normalize_email(b"   \t ", &mut dst);
    assert_eq!(n, 0);
}

#[test]
fn normalize_email_truncates_to_dst_capacity() {
    let mut dst = [0u8; 3];
    let n = normalize_email(b"ABCDE", &mut dst);
    assert_eq!(n, 3);
    assert_eq!(&dst[..3], b"abc");
}

// ---- trim_ascii ----

#[test]
fn trim_ascii_trims_leading_and_trailing() {
    assert_eq!(trim_ascii(b"  \t hello \n"), b"hello");
}

#[test]
fn trim_ascii_no_whitespace_is_unchanged() {
    assert_eq!(trim_ascii(b"hello"), b"hello");
}

#[test]
fn trim_ascii_all_whitespace_is_empty() {
    assert_eq!(trim_ascii(b" \t\n\r"), b"");
}

#[test]
fn trim_ascii_empty_input_is_empty() {
    assert_eq!(trim_ascii(b""), b"");
}

// ---- parse_ymd_days ----

#[test]
fn parse_ymd_days_epoch_is_zero() {
    assert_eq!(parse_ymd_days(b"1970-01-01"), Some(0));
}

#[test]
fn parse_ymd_days_next_day_is_one_more() {
    let epoch = parse_ymd_days(b"1970-01-01").unwrap();
    let next = parse_ymd_days(b"1970-01-02").unwrap();
    assert_eq!(next - epoch, 1);
}

#[test]
fn parse_ymd_days_pre_epoch_is_negative() {
    let d = parse_ymd_days(b"1969-12-31").unwrap();
    assert_eq!(d, -1);
}

#[test]
fn parse_ymd_days_too_short_is_none() {
    assert_eq!(parse_ymd_days(b"2026-1-1"), None);
}

#[test]
fn parse_ymd_days_wrong_dash_positions_is_none() {
    assert_eq!(parse_ymd_days(b"2026/01/01"), None);
}

#[test]
fn parse_ymd_days_month_out_of_range_is_none() {
    assert_eq!(parse_ymd_days(b"2026-00-01"), None);
    assert_eq!(parse_ymd_days(b"2026-13-01"), None);
}

#[test]
fn parse_ymd_days_day_out_of_range_is_none() {
    assert_eq!(parse_ymd_days(b"2026-01-00"), None);
    assert_eq!(parse_ymd_days(b"2026-01-32"), None);
}

#[test]
fn parse_ymd_days_non_numeric_component_is_none() {
    // parse_i32 stops at the first non-digit rather than requiring the whole
    // 4-byte slice to be numeric, so a *leading* digit run like "20ab" still
    // parses (as 20); only a component whose first byte isn't a digit fails.
    assert_eq!(parse_ymd_days(b"abcd-01-01"), None);
}

// ---- format_score_millis ----

#[test]
fn format_score_millis_zero() {
    let mut buf = [0u8; 16];
    let i = format_score_millis(&mut buf, 0);
    assert_eq!(&buf[..i], b"0.0");
}

#[test]
fn format_score_millis_exact_whole() {
    let mut buf = [0u8; 16];
    let i = format_score_millis(&mut buf, 1000);
    assert_eq!(&buf[..i], b"1.0");
}

#[test]
fn format_score_millis_three_frac_digits() {
    let mut buf = [0u8; 16];
    let i = format_score_millis(&mut buf, 785);
    assert_eq!(&buf[..i], b"0.785");
}

#[test]
fn format_score_millis_trims_trailing_zeros_two() {
    let mut buf = [0u8; 16];
    let i = format_score_millis(&mut buf, 700);
    assert_eq!(&buf[..i], b"0.7");
}

#[test]
fn format_score_millis_trims_trailing_zero_one() {
    let mut buf = [0u8; 16];
    let i = format_score_millis(&mut buf, 120);
    assert_eq!(&buf[..i], b"0.12");
}

#[test]
fn format_score_millis_no_trailing_zero_to_trim() {
    let mut buf = [0u8; 16];
    let i = format_score_millis(&mut buf, 100);
    assert_eq!(&buf[..i], b"0.1");
}

#[test]
fn format_score_millis_large_whole_number() {
    let mut buf = [0u8; 16];
    let i = format_score_millis(&mut buf, 123456);
    assert_eq!(&buf[..i], b"123.456");
}

#[test]
fn nudge_event_counts_fit_only_within_i32() {
    assert!(counts_fit(br#"{"prior_nudge_count": 3}"#));
    assert!(counts_fit(br#"{"prior_nudge_count": -2147483647}"#));
    assert!(counts_fit(br#"{"item_id": "a"}"#));
    assert!(!counts_fit(br#"{"prior_nudge_count": 2147483648}"#));
    assert!(!counts_fit(br#"{"prior_nudge_count": 99999999999999999999}"#));
}
