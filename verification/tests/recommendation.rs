use capabilities::recommendation::{confidence_rank, rank_to_confidence, rank_to_recommendation, recommend};

fn run(doc_type: &str, parties: &[&str], amounts: &[&str], confidence: &str) -> (String, String, String) {
    let r = recommend(doc_type, parties.len(), amounts.len(), confidence);
    (
        r.recommendation.to_string(),
        r.confidence.to_string(),
        String::from_utf8(r.rationale).unwrap(),
    )
}

#[test]
fn confirms_a_genuinely_high_confidence_document() {
    let (recommendation, confidence, rationale) = run("invoice", &["Acme Corp"], &["$500.00"], "high");
    assert_eq!(recommendation, "approve");
    assert_eq!(confidence, "high");
    assert!(rationale.contains("confirmed"));
}

#[test]
fn downgrades_a_mismatched_high_confidence_claim() {
    let (recommendation, confidence, rationale) = run("general", &[], &[], "high");
    assert_ne!(recommendation, "approve");
    assert_eq!(confidence, "low");
    assert!(rationale.contains("downgraded"));
}

#[test]
fn recommendation_output_genuinely_differs_across_distinct_inputs() {
    let out_a = run("invoice", &["Acme Corp"], &["$500.00"], "high");
    let out_b = run("general", &[], &[], "low");
    assert_ne!(out_a.0, out_b.0, "output must depend on input, not be fixed");
}

#[test]
fn recommendation_rationale_and_event_are_exact() {
    let r = recommend("contract", 0, 0, "high");
    assert_eq!(r.recommendation, "manual_review");
    assert_eq!(r.confidence, "medium");
    assert_eq!(
        String::from_utf8(r.rationale.clone()).unwrap(),
        "docType=contract; 0 parties found; 0 amounts found; downgraded from high confidence because detected signals only support medium"
    );
    assert_eq!(
        String::from_utf8(r.event).unwrap(),
        "{\"event_id\":\"doc-approval.recommendation-issued\",\"version\":\"1.0.0\",\"payload\":{\"docType\":\"contract\",\"recommendation\":\"manual_review\",\"confidence\":\"medium\",\"rationale\":\"docType=contract; 0 parties found; 0 amounts found; downgraded from high confidence because detected signals only support medium\"}}"
    );
    let r = recommend("general", 1, 2, "high");
    assert_eq!(r.confidence, "high");
    assert_eq!(
        String::from_utf8(r.rationale).unwrap(),
        "docType=general; 1 party found; 2 amounts found; confirmed at high confidence"
    );
}

#[test]
fn recommendation_stated_confidence_caps_the_result() {
    let r = recommend("invoice", 3, 1, "medium");
    assert_eq!(r.confidence, "medium");
    assert_eq!(
        String::from_utf8(r.rationale).unwrap(),
        "docType=invoice; 3 parties found; 1 amount found; confirmed at medium confidence"
    );
    assert_eq!(confidence_rank("bogus"), 0);
    assert_eq!(rank_to_confidence(3), "low");
    assert_eq!(rank_to_recommendation(2), "approve");
}

#[test]
fn recommendation_event_escapes_quotes_in_the_rationale() {
    let r = recommend("a\"b", 0, 0, "low");
    let event = String::from_utf8(r.event).unwrap();
    assert!(event.contains("\"rationale\":\"docType=a\\\"b; 0 parties found"), "{event}");
}
