use capabilities::artifact::{
    balanced_end, begin, complete, copy, is_empty_string, json_value_end, object_field, skip_whitespace,
    string_end, string_token_after, unavailable, Step,
};

const REPLY: &[u8] = b"{\"payload\":{\"asset_ref\":\"a\",\"content_digest\":\"d\",\"size\":1,\"result_class\":\"stored\"}}";

/// Both steps, with the connector answering `REPLY`.
fn finalize(input: &[u8], request: &mut [u8], response: &mut [u8], out: &mut [u8]) -> usize {
    match begin(input, request, out) {
        Step::Answered(n) => n,
        Step::Invoke(_) => {
            response[..REPLY.len()].copy_from_slice(REPLY);
            complete(response, REPLY.len() as i32, out)
        }
    }
}

#[test]
fn rejects_missing_required_fields() {
    let mut request = [0u8; 4096];
    let mut response = [0u8; 4096];
    let mut output = [0u8; 4096];
    let length = finalize(b"{}", &mut request, &mut response, &mut output);
    assert_eq!(
        &output[..length],
        b"{\"asset_ref\":\"\",\"content_digest\":\"\",\"size\":0,\"result_class\":\"invalid_request\"}"
    );
}

#[test]
fn exercises_json_scanner_and_bounds() {
    let mut request = [0u8; 4096];
    let mut response = [0u8; 4096];
    let mut output = [0u8; 4096];
    assert!(string_token_after(br#" {"x":"a\"b"} "#, b"x").is_some());
    assert!(string_token_after(br#"{"x":1}"#, b"x").is_none());
    assert!(is_empty_string(b"\"\""));
    assert!(!is_empty_string(b"\"x\""));
    assert!(string_end(b"\"unterminated").is_none());
    assert!(string_end(b"\"bad\n\"").is_none());
    assert_eq!(skip_whitespace(b" \n\t x"), b"x");
    assert!(object_field(b"[]", b"x").is_none());
    assert!(object_field(br#"{"x":1,"x":2}"#, b"x").is_none());
    assert!(object_field(br#"{"x":1}tail"#, b"x").is_none());
    assert!(object_field(br#"{"a":1,"x":{"n":[true]}}"#, b"x").is_some());
    assert_eq!(json_value_end(b"123 "), Some(3));
    assert!(json_value_end(br#"{"x":1}"#).is_some());
    assert!(json_value_end(br#"[1,2]"#).is_some());
    assert!(json_value_end(br#""x""#).is_some());
    assert!(balanced_end(b"{\"x\": [1]}").is_some());
    assert!(balanced_end(b"{").is_none());
    assert!(balanced_end(b"]").is_none());
    assert!(copy(&mut output[..2], 0, b"abc").is_none());
    assert_eq!(copy(&mut output, 0, b"ok"), Some(2));
    assert!(unavailable(&mut output, b"x") > 0);
    assert_eq!(unavailable(&mut output[..2], b"x"), 0);
    for size in 0..128 {
        let _ = unavailable(&mut output[..size], b"long-result-class");
    }
    let input: &[u8] = br#"{"content_ref":"c","media_type":"audio/wav","retention_class":"daily","idempotency_key":"k"}"#;
    let n = finalize(input, &mut request, &mut response, &mut output);
    assert!(core::str::from_utf8(&output[..n]).unwrap().contains("\"asset_ref\":\"a\""));
    let mut tiny_output = [0u8; 1];
    assert_eq!(finalize(input, &mut request, &mut response, &mut tiny_output), 0);
    for size in 0..256 {
        let _ = finalize(input, &mut request[..size], &mut response, &mut output);
    }
    for input in [
        br#"{"content_ref":"","media_type":"x","retention_class":"d","idempotency_key":"k"}"# as &[u8],
        br#"{"content_ref":"c","media_type":"","retention_class":"d","idempotency_key":"k"}"#,
        br#"{"content_ref":"c","media_type":"x","retention_class":"","idempotency_key":"k"}"#,
        br#"{"content_ref":"c","media_type":"x","retention_class":"d","idempotency_key":""}"#,
        br#"{"content_ref":"c","media_type":"x","retention_class":"d","idempotency_key":"k",}"#,
    ] {
        let n = finalize(input, &mut request, &mut response, &mut output);
        assert!(n > 0);
    }
}

#[test]
fn rejects_oversized_and_partial_requests() {
    let mut request = [0u8; 4096];
    let mut response = [0u8; 4096];
    let mut output = [0u8; 4096];
    let mut oversized = [b'a'; 4097];
    let n = finalize(&oversized, &mut request, &mut response, &mut output);
    assert!(core::str::from_utf8(&output[..n]).unwrap().contains("invalid_request"));
    oversized[0] = b'{';
    for input in [
        br#"{"content_ref":"c"}"# as &[u8],
        br#"{"content_ref":"c","media_type":"x"}"#,
        br#"{"content_ref":"c","media_type":"x","retention_class":"d"}"#,
    ] {
        let n = finalize(input, &mut request, &mut response, &mut output);
        assert!(n > 0);
    }
}

#[test]
fn artifact_request_text_keeps_tokens_whole() {
    let mut request = [0u8; 4096];
    let mut out = [0u8; 64];
    let input: &[u8] = br#"{"content_ref":"c\"1","media_type":"audio/wav","retention_class":"daily","idempotency_key":"k"}"#;
    match begin(input, &mut request, &mut out) {
        Step::Invoke(n) => assert_eq!(
            &request[..n],
            &br#"{"abi_version":"1.0.0","connector_id":"traverse.object-store","operation":"put_immutable","payload":{"content_ref":"c\"1","media_type":"audio/wav","retention_class":"daily","idempotency_key":"k"}}"#[..]
        ),
        Step::Answered(_) => panic!("expected a connector request"),
    }
}

#[test]
fn artifact_reply_handling() {
    let mut out = [0u8; 256];
    let n = complete(REPLY, REPLY.len() as i32, &mut out);
    assert_eq!(&out[..n], &br#"{"asset_ref":"a","content_digest":"d","size":1,"result_class":"stored"}"#[..]);
    let n = complete(REPLY, 0, &mut out);
    assert_eq!(
        &out[..n],
        &b"{\"asset_ref\":\"\",\"content_digest\":\"\",\"size\":0,\"result_class\":\"connector_unavailable\"}"[..]
    );
    let n = complete(br#"{"payload":[1]}"#, 15, &mut out);
    assert!(core::str::from_utf8(&out[..n]).unwrap().contains("connector_unavailable"));
    let n = complete(REPLY, 1000, &mut out);
    assert!(core::str::from_utf8(&out[..n]).unwrap().contains("connector_unavailable"));
}

#[test]
fn the_closing_bracket_is_the_first_at_depth_zero_outside_strings() {
    let v = br#"{"a":"}]","b":[{"c":"\"}"}],"d":{}} tail"#;
    let end = v.len() - 5;
    assert_eq!(v[end], b'}');
    assert_eq!(balanced_end(v), Some(end));
    assert_eq!(balanced_end(br#"["}",[]]x"#), Some(7));
}
