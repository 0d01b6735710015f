use capabilities::plans::{
    compatible_encoding, create_revision, create_window_plan, evaluate_schedule_trigger, plan_calibration,
    prepare_inference_request, validate_note, validate_source_profile,
};

/// A positive whole number read from a JSON number, as the request reader does.
fn positive_integer(number: f64) -> Option<i64> {
    if !number.is_finite() || number < 1.0 || number > i64::MAX as f64 {
        return None;
    }
    let integer = number as i64;
    if number == integer as f64 { Some(integer) } else { None }
}

/// A whole number read from a JSON number.
fn integer(number: f64) -> Option<i64> {
    if number.is_finite() && number == number as i64 as f64 { Some(number as i64) } else { None }
}

fn calibration_class(t: f64, tol: f64, d: f64) -> Vec<u8> {
    plan_calibration(b"x", b"x", integer(t), integer(tol), integer(d)).result_class
}

#[test]
fn plans_valid() {
    assert_eq!(calibration_class(-18.0, 3.0, 10.0), b"planned".to_vec());
}

#[test]
fn rejects_target() {
    assert_eq!(calibration_class(2.0, 3.0, 10.0), b"target_out_of_bounds".to_vec());
}

#[test]
fn rejects_tolerance() {
    assert_eq!(calibration_class(-18.0, 0.0, 10.0), b"tolerance_out_of_bounds".to_vec());
}

#[test]
fn rejects_duration() {
    assert_eq!(calibration_class(-18.0, 3.0, 301.0), b"duration_out_of_bounds".to_vec());
}

#[test]
fn rejects_missing_ids() {
    assert_eq!(plan_calibration(b"", b"", None, None, None).result_class, b"invalid_request".to_vec());
}

#[test]
fn calibration_plan_echoes_its_fields_only_when_planned() {
    let p = plan_calibration(b"plan-1", b"key-1", Some(-18), Some(3), Some(10));
    assert_eq!(p.connector_id, b"traverse.audio-input".to_vec());
    assert_eq!(p.operation, b"calibrate".to_vec());
    assert_eq!((p.target_level_dbfs, p.tolerance_db, p.duration_seconds), (-18, 3, 10));
    assert_eq!(p.idempotency_key, b"key-1".to_vec());
    let q = plan_calibration(b"plan-1", b"key-1", Some(-61), Some(3), Some(10));
    assert_eq!(q.connector_id, Vec::<u8>::new());
    assert_eq!(q.plan_id, b"plan-1".to_vec());
    assert_eq!((q.target_level_dbfs, q.tolerance_db, q.duration_seconds), (0, 0, 0));
}

#[test]
fn creates_successor() {
    let r = create_revision(b"canvas", b"verified", positive_integer(1.0), b"1.0.0");
    assert_eq!(r.revision_number, 2);
}

#[test]
fn preserves_superseded_revision() {
    let r = create_revision(b"canvas", b"verified", positive_integer(1.0), b"1.0.0");
    assert_eq!(r.supersedes_revision, 1);
    assert_eq!(r.artifact_id, b"canvas".to_vec());
    assert_eq!(r.policy_version, b"1.0.0".to_vec());
}

#[test]
fn rejects_incomplete() {
    let r = create_revision(b"", b"", None, b"");
    assert_eq!(r.revision_number, 0);
    assert_eq!(r.artifact_id, Vec::<u8>::new());
}

fn window_plan(artifact: &str, duration: f64, version: &str, window: f64, hop: f64) -> capabilities::plans::WindowPlan {
    create_window_plan(
        artifact.as_bytes(),
        positive_integer(duration),
        version.as_bytes(),
        positive_integer(window),
        positive_integer(hop),
    )
}

#[test]
fn creates_overlapping_plan() {
    let p = window_plan("asset:pcm-17", 60_000.0, "v1", 5_000.0, 2_500.0);
    assert_eq!(p.result_class, b"planned".to_vec());
    assert_eq!(p.window_count, 23);
}

#[test]
fn creates_one_window_when_duration_is_not_longer_than_window() {
    let p = window_plan("asset:x", 5_000.0, "v1", 5_000.0, 2_500.0);
    assert_eq!(p.window_count, 1);
}

#[test]
fn rejects_invalid_window_geometry() {
    let p = window_plan("asset:x", 6_000.0, "v1", 5_000.0, 6_000.0);
    assert_eq!(p.result_class, b"invalid_window_policy".to_vec());
    let zero_hop = window_plan("asset:x", 6_000.0, "v1", 5_000.0, 0.0);
    assert_eq!(zero_hop.result_class, b"invalid_window_policy".to_vec());
}

#[test]
fn rejects_invalid_request_fields() {
    let missing = create_window_plan(b"asset:x", None, b"", None, None);
    assert_eq!(missing.result_class, b"invalid_request".to_vec());
    let fractional = window_plan("asset:x", 10.5, "v1", 5_000.0, 2_500.0);
    assert_eq!(fractional.result_class, b"invalid_request".to_vec());
}

fn trigger(due: Option<bool>) -> capabilities::plans::TriggerPlan {
    evaluate_schedule_trigger(
        b"trigger:daily",
        b"close-period",
        b"policy:local-day",
        b"2026-09-06T06:00:00Z",
        b"close-1",
        due,
    )
}

#[test]
fn plans_due_trigger() {
    let p = trigger(Some(true));
    assert_eq!(p.result_class, b"planned".to_vec());
    assert_eq!(p.connector_id, b"traverse.scheduler".to_vec());
    assert_eq!(p.logical_deadline, b"2026-09-06T06:00:00Z".to_vec());
}

#[test]
fn leaves_not_due_unscheduled() {
    let p = trigger(Some(false));
    assert_eq!(p.result_class, b"not_due".to_vec());
    assert_eq!(p.job_kind, Vec::<u8>::new());
}

#[test]
fn rejects_incomplete_context() {
    let p = evaluate_schedule_trigger(b"", b"", b"", b"", b"", Some(true));
    assert_eq!(p.result_class, b"invalid_request".to_vec());
    assert_eq!(trigger(None).result_class, b"invalid_request".to_vec());
}

#[test]
fn plans_complete_request() {
    let p = prepare_inference_request(b"asset:input", b"model:release", b"profile:default", b"run-1");
    assert_eq!(p.result_class, b"planned".to_vec());
    assert_eq!(p.model_artifact_ref, b"model:release".to_vec());
}

#[test]
fn rejects_missing_reference() {
    let p = prepare_inference_request(b"asset:x", b"", b"", b"");
    assert_eq!(p.result_class, b"invalid_request".to_vec());
    assert_eq!(p.input_artifact_ref, Vec::<u8>::new());
}

#[test]
fn planned_output_is_connector_neutral() {
    let p = prepare_inference_request(b"asset:input", b"model:release", b"profile:default", b"run-1");
    assert_eq!(p.connector_id, b"traverse.local-model-runtime".to_vec());
    assert_eq!(p.operation, b"infer".to_vec());
}

fn profile_reason(rate: i64, channels: i64, depth: i64, encoding: &str, version: &str, maximum: f64, requested: f64) -> (bool, Vec<u8>) {
    validate_source_profile(
        version.as_bytes(),
        positive_integer(maximum),
        positive_integer(requested),
        positive_integer(channels as f64),
        positive_integer(rate as f64),
        positive_integer(depth as f64),
        encoding.as_bytes(),
    )
}

#[test]
fn accepts_each_supported_pcm_profile() {
    for (depth, encoding) in [(16, "pcm_s16le"), (24, "pcm_s24le"), (32, "pcm_f32le")] {
        let (valid, reason) = profile_reason(48_000, 1, depth, encoding, "v1", 900.0, 900.0);
        assert!(valid);
        assert_eq!(reason, b"source_profile_compatible".to_vec());
    }
}

#[test]
fn rejects_missing_or_invalid_policy_fields() {
    let missing_policy = validate_source_profile(b"", None, None, Some(1), Some(48_000), Some(16), b"pcm_s16le");
    assert_eq!(missing_policy.1, b"invalid_request".to_vec());
    let empty_version = profile_reason(48_000, 1, 16, "pcm_s16le", "", 900.0, 900.0);
    assert_eq!(empty_version.1, b"invalid_request".to_vec());
    let fractional = profile_reason(48_000, 1, 16, "pcm_s16le", "v1", 900.5, 900.0);
    assert_eq!(fractional.1, b"invalid_request".to_vec());
}

#[test]
fn rejects_unsupported_channel_count_and_rate() {
    assert_eq!(profile_reason(48_000, 3, 16, "pcm_s16le", "v1", 900.0, 900.0).1, b"unsupported_channel_count".to_vec());
    assert_eq!(profile_reason(7_999, 1, 16, "pcm_s16le", "v1", 900.0, 900.0).1, b"unsupported_sample_rate".to_vec());
    assert_eq!(profile_reason(192_001, 1, 16, "pcm_s16le", "v1", 900.0, 900.0).1, b"unsupported_sample_rate".to_vec());
}

#[test]
fn rejects_unsupported_bit_depth_and_encoding_pair() {
    assert_eq!(profile_reason(48_000, 1, 12, "pcm_s16le", "v1", 900.0, 900.0).1, b"unsupported_bit_depth".to_vec());
    assert_eq!(profile_reason(48_000, 1, 16, "pcm_f32le", "v1", 900.0, 900.0).1, b"unsupported_encoding".to_vec());
}

#[test]
fn rejects_a_duration_over_the_declared_maximum() {
    let (valid, reason) = profile_reason(48_000, 1, 16, "pcm_s16le", "v1", 900.0, 901.0);
    assert!(!valid);
    assert_eq!(reason, b"segment_duration_exceeds_policy".to_vec());
}

#[test]
fn profile_encoding_pairs_match_their_depths() {
    assert!(compatible_encoding(b"pcm_s16le", 16));
    assert!(!compatible_encoding(b"pcm_s16le", 24));
    assert!(compatible_encoding(b"pcm_f32le", 32));
}

#[test]
fn empty_note_is_invalid() {
    let (valid, issues) = validate_note("");
    assert!(!valid);
    assert_eq!(issues.len(), 1);
}

#[test]
fn whitespace_only_note_is_invalid() {
    let (valid, _) = validate_note("   \n\t  ");
    assert!(!valid);
}

#[test]
fn normal_note_is_valid() {
    let (valid, issues) = validate_note("Buy milk tomorrow.");
    assert!(valid);
    assert!(issues.is_empty());
}

#[test]
fn overlong_note_is_flagged() {
    let long_note: String = std::iter::repeat('a').take(2001).collect();
    let (valid, issues) = validate_note(&long_note);
    assert!(!valid);
    assert_eq!(issues, vec![b"note exceeds 2000 characters (actual: 2001)".to_vec()]);
}

#[test]
fn starter_output_genuinely_differs_across_distinct_inputs() {
    assert_ne!(validate_note("a normal note").0, validate_note("").0, "output must depend on input, not be fixed");
}
