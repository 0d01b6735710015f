use capabilities::release_gate::{
    balanced_end, copy, count_key, count_pattern, int_after, resolve, string_after,
    write_int,
};
use capabilities::emit::copy_json;

#[test]
fn covers_release_gate_boundaries_and_json_escaping() {
    let request = br#"{"policy":{"version":"v","minimum_positive_cases":1,"maximum_false_negative_millis":0},"cases":[{"contains_positive":true,"positive_detected":true}]}"#;
    let mut out = [0u8; 512];
    assert!(resolve(request, &mut out) > 0);
    assert_eq!(write_int(&mut out, 0, -1), 2);
    let mut short = [0u8; 1];
    assert_eq!(copy(&mut short, 1, b"x"), 1);
    assert_eq!(string_after(br#"{"x":"unterminated}"#, br#""x""#), b"");
    assert!(balanced_end(&[b'{', b'"', b'\\', b'"', b'"', b'}']).is_some());
    let mut escaped = [0u8; 8];
    assert_eq!(copy_json(&mut escaped, 0, &[b'"', b'\\']), 4);
}


#[test]
fn main_handles_an_incomplete_request_without_panicking() {
    let mut out = [0u8; 65_536];
    let length = resolve(b"{}", &mut out);
    assert!(length <= out.len());
}

#[test]
fn main_rejects_malformed_json_shapes_without_panicking() {
    for input in [
        b"".as_slice(), b"{".as_slice(), b"[]".as_slice(), b"null".as_slice(),
        br#"{"x":null}"#.as_slice(), br#"{"x":[]}"#.as_slice(),
        br#"{"x":{}}"#.as_slice(), br#"{"items":[]}"#.as_slice(),
        br#"{"policy":{}}"#.as_slice(), br#"{"location":{}}"#.as_slice(),
    ] {
        let mut out = [0u8; 65_536];
        let length = resolve(input, &mut out);
        assert!(length <= out.len());
    }
}

#[test]
fn approves_when_every_positive_is_detected() {
    let request = br#"{"policy":{"version":"v1","minimum_positive_cases":2,"maximum_false_negative_millis":100},"cases":[{"contains_positive":true,"positive_detected":true},{"contains_positive":true,"positive_detected":true},{"contains_positive":false}]}"#;
    let mut out = [0u8; 512];
    let n = resolve(request, &mut out);
    assert_eq!(
        core::str::from_utf8(&out[..n]).unwrap(),
        r#"{"policy_version":"v1","total_cases":3,"positive_cases":2,"false_negatives":0,"false_negative_millis":0,"decision":"approve_for_policy","reason":"release_gate_passed"}"#
    );
}

#[test]
fn rejects_on_missed_positives_and_too_few_cases() {
    let request = br#"{"policy":{"minimum_positive_cases":1,"maximum_false_negative_millis":100},"cases":[{"contains_positive":true,"positive_detected":false},{"contains_positive":true,"positive_detected":true}]}"#;
    let mut out = [0u8; 512];
    let n = resolve(request, &mut out);
    let text = core::str::from_utf8(&out[..n]).unwrap();
    assert!(text.contains(r#""false_negative_millis":500,"decision":"reject","reason":"false_negative_limit_exceeded""#), "{text}");
    let n = resolve(br#"{"policy":{}}"#, &mut out);
    let text = core::str::from_utf8(&out[..n]).unwrap();
    assert!(text.contains("insufficient_positive_cases"), "{text}");
    assert_eq!(resolve(b"{}", &mut out), 0);
}

#[test]
fn counting_and_reading_helpers() {
    assert_eq!(count_pattern(b"aaaa", b"aa"), 3);
    assert_eq!(count_key(b"abc", b""), 0);
    assert_eq!(int_after(br#"{"n": 17}"#, br#""n""#), Some(17));
    assert_eq!(int_after(br#"{"n": -1}"#, br#""n""#), None);
    assert_eq!(string_after(br#"{"s":"ok"}"#, br#""s""#), b"ok");
    let mut out = [0u8; 4];
    assert_eq!(copy(&mut out, 0, b"abcd"), 4);
    assert_eq!(copy(&mut out, 1, b"abcd"), 1);
}

#[test]
fn release_gate_remains_total_for_truncated_and_corrupted_requests() {
    let request: &[u8] = br#"{"policy":{"version":"release-7","minimum_positive_cases":2,"maximum_false_negative_millis":100,"required_labels":["cat","dog"]},"cases":[{"label":"cat","contains_positive":true,"positive_detected":true},{"label":"dog","contains_positive":true,"positive_detected":false},{"label":"cat","contains_positive":false,"positive_detected":false}]}"#;
    for end in 0..=request.len() {
        let mut out = [0u8; 65_536];
        let length = resolve(&request[..end], &mut out);
        assert!(length <= out.len());
    }
    for index in 0..request.len() {
        let mut corrupted = request.to_vec();
        corrupted[index] = b'?';
        let mut out = [0u8; 65_536];
        let length = resolve(&corrupted, &mut out);
        assert!(length <= out.len());
    }
}
