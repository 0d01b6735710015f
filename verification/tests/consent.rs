use capabilities::consent::{
    check_consent, days_from_civil, days_in_month, is_leap_year, parse_timestamp, parse_u32, ConsentEntry,
    ConsentRequest, Decision, Field, Reason, Scope,
};

#[test]
fn parses_various_iso8601_flavors() {
    assert!(parse_timestamp("2026-08-15T12:00:00Z").is_some());
    assert!(parse_timestamp("2026-08-15t12:00:00z").is_some());
    assert!(parse_timestamp("2026-08-15T12:00:00.123456789Z").is_some());
    assert!(parse_timestamp("2026-08-15T12:00:00,500Z").is_some());
    assert!(parse_timestamp("2026-08-15T14:00:00+02:00").is_some());
    assert!(parse_timestamp("2026-08-15T10:00:00-0200").is_some());
    assert!(parse_timestamp("2026-08-15T12:00:00+00").is_some());

    assert!(parse_timestamp("short").is_none());
    assert!(parse_timestamp("2026/08/15T12:00:00Z").is_none());
    assert!(parse_timestamp("2026-08-15 12:00:00Z").is_none());
    assert!(parse_timestamp("2026-08-15T12-00-00Z").is_none());
    assert!(parse_timestamp("2026-13-15T12:00:00Z").is_none());
    assert!(parse_timestamp("2026-00-15T12:00:00Z").is_none());
    assert!(parse_timestamp("2026-02-29T12:00:00Z").is_none());
    assert!(parse_timestamp("2024-02-29T12:00:00Z").is_some());
    assert!(parse_timestamp("2026-08-32T12:00:00Z").is_none());
    assert!(parse_timestamp("2026-08-15T24:00:00Z").is_none());
    assert!(parse_timestamp("2026-08-15T12:60:00Z").is_none());
    assert!(parse_timestamp("2026-08-15T12:00:60Z").is_none());
    assert!(parse_timestamp("2026-08-15T12:00:00").is_none());
    assert!(parse_timestamp("2026-08-15T12:00:00.Z").is_none());
    assert!(parse_timestamp("2026-08-15T12:00:00+25:00").is_none());
    assert!(parse_timestamp("2026-08-15T12:00:00+02:65").is_none());
    assert!(parse_timestamp("2026-08-15T12:00:00+020").is_none());
    assert!(parse_timestamp("2026-08-15T12:00:00+25").is_none());
    assert!(parse_timestamp("2026-08-15T12:00:00Zextra").is_none());
}

#[test]
fn tests_helpers_directly() {
    assert!(is_leap_year(2000));
    assert!(!is_leap_year(1900));
    assert!(is_leap_year(2024));
    assert!(!is_leap_year(2025));

    assert_eq!(days_in_month(2024, 0), None);
    assert_eq!(days_in_month(2024, 13), None);
    assert_eq!(days_in_month(2024, 2), Some(29));
    assert_eq!(days_in_month(2025, 2), Some(28));
    assert_eq!(days_in_month(2024, 4), Some(30));
    assert_eq!(days_in_month(2024, 1), Some(31));

    assert_eq!(parse_u32(b""), None);
    assert_eq!(parse_u32(b"abc"), None);
    assert_eq!(parse_u32(b"123"), Some(123));
    assert_eq!(parse_u32(b"99999999999999999999"), None);
}

fn text(s: &str) -> Field {
    Field::Text(s.as_bytes().to_vec())
}

fn opt(s: Option<&str>) -> Field {
    match s {
        Some(v) => text(v),
        None => Field::Missing,
    }
}

fn consent(purpose: &str, status: &str, granted_at: Option<&str>, expires_at: Option<&str>, scope: Option<Vec<&str>>) -> ConsentEntry {
    ConsentEntry {
        purpose: text(purpose),
        status: text(status),
        granted_at: opt(granted_at),
        expires_at: opt(expires_at),
        scope: match scope {
            Some(items) => Scope::List(items.into_iter().map(text).collect()),
            None => Scope::Missing,
        },
    }
}

fn request(purpose: &str, now: &str, consents: Vec<ConsentEntry>) -> ConsentRequest {
    ConsentRequest {
        subject_id: text("sub-1"),
        requested_purpose: text(purpose),
        policy_version: text("1.0.0"),
        now: text(now),
        consents: Some(consents),
    }
}

#[test]
fn granted_consent_in_its_window_allows() {
    let req = request(
        "marketing",
        "2026-08-15T12:00:00Z",
        vec![consent("marketing", "granted", Some("2026-08-01T00:00:00Z"), Some("2026-09-01T00:00:00Z"), Some(vec!["email", "sms"]))],
    );
    let resp = check_consent(&req);
    assert_eq!(resp.decision, Decision::Allow);
    assert_eq!(resp.reason, Reason::ConsentGranted);
    assert_eq!(resp.matched_consent_index, Some(0));
    assert_eq!(resp.policy_version, b"1.0.0".to_vec());
    assert_eq!(resp.decision.as_str(), "allow");
    assert_eq!(resp.reason.as_str(), "consent_granted");
}

#[test]
fn withdrawn_and_denied_consents_deny_with_their_index() {
    let req = request("analytics", "2026-08-15T12:00:00Z", vec![consent("analytics", "withdrawn", Some("2026-08-01T00:00:00Z"), None, None)]);
    let resp = check_consent(&req);
    assert_eq!((resp.decision, resp.reason, resp.matched_consent_index), (Decision::Deny, Reason::ConsentWithdrawn, Some(0)));
    let req = request("analytics", "2026-08-15T12:00:00Z", vec![consent("analytics", "denied", None, None, None)]);
    let resp = check_consent(&req);
    assert_eq!((resp.reason, resp.matched_consent_index), (Reason::ConsentDenied, Some(0)));
}

#[test]
fn expiry_at_the_instant_itself_denies() {
    let req = request("m", "2026-09-01T00:00:00Z", vec![consent("m", "granted", None, Some("2026-09-01T00:00:00Z"), None)]);
    assert_eq!(check_consent(&req).reason, Reason::ConsentExpired);
    let req = request("m", "2026-08-31T23:59:59.999Z", vec![consent("m", "granted", None, Some("2026-09-01T00:00:00Z"), None)]);
    assert_eq!(check_consent(&req).reason, Reason::ConsentGranted);
}

#[test]
fn a_grant_in_the_future_is_invalid_input() {
    let req = request("m", "2026-08-15T12:00:00Z", vec![consent("m", "granted", Some("2026-08-16T00:00:00Z"), None, None)]);
    let resp = check_consent(&req);
    assert_eq!((resp.reason, resp.matched_consent_index), (Reason::InvalidInput, None));
}

#[test]
fn the_first_consent_for_the_purpose_decides() {
    let req = request(
        "b",
        "2026-08-15T12:00:00Z",
        vec![consent("a", "denied", None, None, None), consent("b", "granted", None, None, None), consent("b", "withdrawn", None, None, None)],
    );
    let resp = check_consent(&req);
    assert_eq!((resp.reason, resp.matched_consent_index), (Reason::ConsentGranted, Some(1)));
    let req = request("c", "2026-08-15T12:00:00Z", vec![consent("a", "granted", None, None, None)]);
    let resp = check_consent(&req);
    assert_eq!((resp.decision, resp.reason, resp.matched_consent_index), (Decision::Deny, Reason::PurposeNotGranted, None));
}

#[test]
fn malformed_requests_are_invalid_input() {
    let mut req = request("m", "2026-08-15T12:00:00Z", vec![]);
    req.subject_id = Field::Missing;
    assert_eq!(check_consent(&req).reason, Reason::InvalidInput);
    let req = request("m", "not a time", vec![]);
    assert_eq!(check_consent(&req).reason, Reason::InvalidInput);
    let mut req = request("m", "2026-08-15T12:00:00Z", vec![]);
    req.consents = None;
    assert_eq!(check_consent(&req).reason, Reason::InvalidInput);
    let req = request("m", "2026-08-15T12:00:00Z", vec![consent("x", "maybe", None, None, None)]);
    assert_eq!(check_consent(&req).reason, Reason::InvalidInput);
    let mut bad = consent("x", "granted", None, None, None);
    bad.scope = Scope::List(vec![Field::Other]);
    let req = request("m", "2026-08-15T12:00:00Z", vec![bad]);
    assert_eq!(check_consent(&req).reason, Reason::InvalidInput);
    let mut req = request("m", "2026-08-15T12:00:00Z", vec![]);
    req.policy_version = Field::Text(Vec::new());
    let resp = check_consent(&req);
    assert_eq!((resp.reason, resp.policy_version.len()), (Reason::InvalidInput, 0));
}

#[test]
fn timestamps_name_instants() {
    let utc = parse_timestamp("2026-08-15T12:00:00Z").unwrap();
    assert_eq!(utc.epoch_seconds, 1_786_795_200);
    assert_eq!(utc.nanos, 0);
    assert_eq!(parse_timestamp("2026-08-15T14:00:00+02:00").unwrap(), utc);
    assert_eq!(parse_timestamp("2026-08-15T10:00:00-0200").unwrap(), utc);
    assert_eq!(parse_timestamp("2026-08-15T12:00:00,5Z").unwrap().nanos, 500_000_000);
    assert_eq!(parse_timestamp("2026-08-15T12:00:00.1234567891Z").unwrap().nanos, 123_456_789);
    assert_eq!(parse_timestamp("1970-01-01T00:00:00Z").unwrap().epoch_seconds, 0);
    assert_eq!(parse_timestamp("1969-12-31T23:59:59Z").unwrap().epoch_seconds, -1);
}

#[test]
fn day_numbers_follow_the_calendar() {
    assert_eq!(days_from_civil(1970, 1, 1), 0);
    assert_eq!(days_from_civil(2000, 3, 1) - days_from_civil(2000, 2, 29), 1);
    assert_eq!(days_from_civil(2001, 1, 1) - days_from_civil(2000, 1, 1), 366);
    assert_eq!(days_from_civil(1900, 3, 1) - days_from_civil(1900, 2, 28), 1);
    assert_eq!(days_from_civil(-1, 12, 31), -719529);
}

fn make_request(subject: &str, purpose: &str, now: &str, version: &str, consents: Vec<ConsentEntry>) -> ConsentRequest {
    ConsentRequest {
        subject_id: text(subject),
        requested_purpose: text(purpose),
        policy_version: text(version),
        now: text(now),
        consents: Some(consents),
    }
}

fn entry(purpose: Field, status: Field, granted_at: Field, expires_at: Field, scope: Scope) -> ConsentEntry {
    ConsentEntry { purpose, status, granted_at, expires_at, scope }
}

fn code(req: &ConsentRequest) -> &'static str {
    check_consent(req).reason.as_str()
}

#[test]
fn allows_valid_granted_consent() {
    let req = make_request(
        "sub-1",
        "marketing",
        "2026-08-15T12:00:00Z",
        "1.0.0",
        vec![consent("marketing", "granted", Some("2026-08-01T00:00:00Z"), Some("2026-09-01T00:00:00Z"), Some(vec!["email", "sms"]))],
    );
    let resp = check_consent(&req);
    assert_eq!(resp.decision.as_str(), "allow");
    assert_eq!(resp.reason.as_str(), "consent_granted");
    assert_eq!(resp.matched_consent_index, Some(0));
    assert_eq!(resp.policy_version, b"1.0.0".to_vec());
}

#[test]
fn allows_granted_consent_without_expiry() {
    let req = make_request("sub-1", "essential", "2026-08-15T12:00:00Z", "1.0.0", vec![consent("essential", "granted", None, None, None)]);
    let resp = check_consent(&req);
    assert_eq!(resp.decision.as_str(), "allow");
    assert_eq!(resp.reason.as_str(), "consent_granted");
    assert_eq!(resp.matched_consent_index, Some(0));
}

#[test]
fn denies_withdrawn_consent() {
    let req = make_request(
        "sub-2",
        "analytics",
        "2026-08-15T12:00:00Z",
        "1.0.0",
        vec![consent("analytics", "withdrawn", Some("2026-08-01T00:00:00Z"), None, None)],
    );
    let resp = check_consent(&req);
    assert_eq!(resp.decision.as_str(), "deny");
    assert_eq!(resp.reason.as_str(), "consent_withdrawn");
    assert_eq!(resp.matched_consent_index, Some(0));
}

#[test]
fn denies_explicitly_denied_consent() {
    let req = make_request(
        "sub-3",
        "cross-border-sharing",
        "2026-08-15T12:00:00Z",
        "1.0.0",
        vec![consent("cross-border-sharing", "denied", Some("2026-08-01T00:00:00Z"), None, None)],
    );
    let resp = check_consent(&req);
    assert_eq!(resp.decision.as_str(), "deny");
    assert_eq!(resp.reason.as_str(), "consent_denied");
    assert_eq!(resp.matched_consent_index, Some(0));
}

#[test]
fn denies_expired_consent() {
    let req = make_request(
        "sub-4",
        "promotions",
        "2026-09-02T00:00:00Z",
        "1.0.0",
        vec![consent("promotions", "granted", Some("2026-08-01T00:00:00Z"), Some("2026-09-01T00:00:00Z"), None)],
    );
    let resp = check_consent(&req);
    assert_eq!(resp.decision.as_str(), "deny");
    assert_eq!(resp.reason.as_str(), "consent_expired");
    assert_eq!(resp.matched_consent_index, Some(0));
}

#[test]
fn denies_when_purpose_not_found() {
    let req = make_request("sub-5", "telemetry", "2026-08-15T12:00:00Z", "1.0.0", vec![consent("billing", "granted", None, None, None)]);
    let resp = check_consent(&req);
    assert_eq!(resp.decision.as_str(), "deny");
    assert_eq!(resp.reason.as_str(), "purpose_not_granted");
    assert_eq!(resp.matched_consent_index, None);
}

#[test]
fn denies_on_future_granted_at() {
    let req = make_request(
        "sub-6",
        "marketing",
        "2026-08-01T00:00:00Z",
        "1.0.0",
        vec![consent("marketing", "granted", Some("2026-08-10T00:00:00Z"), None, None)],
    );
    let resp = check_consent(&req);
    assert_eq!(resp.decision.as_str(), "deny");
    assert_eq!(resp.reason.as_str(), "invalid_input");
    assert_eq!(resp.matched_consent_index, None);
}

#[test]
fn matches_correct_index_in_multiple_consents() {
    let req = make_request(
        "sub-7",
        "marketing",
        "2026-08-15T12:00:00Z",
        "1.0.0",
        vec![
            consent("essential", "granted", None, None, None),
            consent("analytics", "withdrawn", None, None, None),
            consent("marketing", "granted", None, None, None),
        ],
    );
    let resp = check_consent(&req);
    assert_eq!(resp.decision.as_str(), "allow");
    assert_eq!(resp.reason.as_str(), "consent_granted");
    assert_eq!(resp.matched_consent_index, Some(2));
}

#[test]
fn main_rejects_missing_required_fields() {
    let mut r1 = make_request("s", "p", "2026-08-15T12:00:00Z", "1.0.0", vec![]);
    r1.subject_id = Field::Missing;
    assert_eq!(code(&r1), "invalid_input");
    let r1b = make_request("", "p", "2026-08-15T12:00:00Z", "1.0.0", vec![]);
    assert_eq!(code(&r1b), "invalid_input");
    let mut r2 = make_request("s", "p", "2026-08-15T12:00:00Z", "1.0.0", vec![]);
    r2.requested_purpose = Field::Missing;
    assert_eq!(code(&r2), "invalid_input");
    let mut r3 = make_request("s", "p", "2026-08-15T12:00:00Z", "1.0.0", vec![]);
    r3.policy_version = Field::Missing;
    assert_eq!(code(&r3), "invalid_input");
    let mut r4 = make_request("s", "p", "2026-08-15T12:00:00Z", "1.0.0", vec![]);
    r4.now = Field::Missing;
    assert_eq!(code(&r4), "invalid_input");
    let mut r5 = make_request("s", "p", "2026-08-15T12:00:00Z", "1.0.0", vec![]);
    r5.consents = None;
    assert_eq!(code(&r5), "invalid_input");
}

#[test]
fn rejects_invalid_timestamps() {
    let bad_now = make_request("s", "p", "not-a-timestamp", "1.0.0", vec![]);
    assert_eq!(code(&bad_now), "invalid_input");
    let bad_granted = make_request("s", "p", "2026-08-15T12:00:00Z", "1.0.0", vec![consent("p", "granted", Some("bad-date"), None, None)]);
    assert_eq!(code(&bad_granted), "invalid_input");
    let bad_expires = make_request("s", "p", "2026-08-15T12:00:00Z", "1.0.0", vec![consent("p", "granted", None, Some("bad-date"), None)]);
    assert_eq!(code(&bad_expires), "invalid_input");
}

#[test]
fn rejects_invalid_consent_fields() {
    let bad_c1 = make_request(
        "s",
        "p",
        "2026-08-15T12:00:00Z",
        "1.0.0",
        vec![entry(Field::Missing, text("granted"), Field::Missing, Field::Missing, Scope::Missing)],
    );
    assert_eq!(code(&bad_c1), "invalid_input");
    let bad_c2 = make_request("s", "p", "2026-08-15T12:00:00Z", "1.0.0", vec![consent("p", "unknown_status", None, None, None)]);
    assert_eq!(code(&bad_c2), "invalid_input");
    let bad_scope = make_request(
        "s",
        "p",
        "2026-08-15T12:00:00Z",
        "1.0.0",
        vec![entry(text("p"), text("granted"), Field::Missing, Field::Missing, Scope::List(vec![Field::Other]))],
    );
    assert_eq!(code(&bad_scope), "invalid_input");
    let bad_scope_shape = make_request(
        "s",
        "p",
        "2026-08-15T12:00:00Z",
        "1.0.0",
        vec![entry(text("p"), text("granted"), Field::Missing, Field::Missing, Scope::Other)],
    );
    assert_eq!(code(&bad_scope_shape), "invalid_input");
    let bad_granted_type = make_request(
        "s",
        "p",
        "2026-08-15T12:00:00Z",
        "1.0.0",
        vec![entry(text("p"), text("granted"), Field::Other, Field::Missing, Scope::Missing)],
    );
    assert_eq!(code(&bad_granted_type), "invalid_input");
    let bad_expires_type = make_request(
        "s",
        "p",
        "2026-08-15T12:00:00Z",
        "1.0.0",
        vec![entry(text("p"), text("granted"), Field::Missing, Field::Other, Scope::Missing)],
    );
    assert_eq!(code(&bad_expires_type), "invalid_input");
}
