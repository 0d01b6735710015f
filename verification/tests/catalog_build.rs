use capabilities::catalog_build::build_catalog;
use serde_json::{Number, Value};

fn obj(fields: Vec<(&str, Value)>) -> Value {
    let mut m = serde_json::Map::new();
    for (k, v) in fields {
        m.insert(k.to_string(), v);
    }
    Value::Object(m)
}

fn st(s: &str) -> Value {
    Value::String(s.to_string())
}

fn contract(namespace: &str, id: &str, version: &str, summary: &str, description: &str) -> Value {
    obj(vec![
        ("namespace", st(namespace)),
        ("id", st(id)),
        ("version", st(version)),
        ("summary", st(summary)),
        ("description", st(description)),
        ("use_cases", Value::Null),
    ])
}

fn record(contract_value: Value, deprecated: bool) -> Value {
    obj(vec![("deprecated", Value::Bool(deprecated)), ("contract", contract_value)])
}

fn capabilities_input(records: Vec<Value>) -> Value {
    obj(vec![
        ("capabilities", Value::Array(records)),
        ("personas", Value::Array(vec![])),
        ("events", Value::Array(vec![])),
    ])
}

fn event_product(namespace: &str, id: &str, version: &str, summary: &str, exposure: &str) -> Value {
    obj(vec![
        (
            "contract",
            obj(vec![
                ("namespace", st(namespace)),
                ("id", st(id)),
                ("version", st(version)),
                ("summary", st(summary)),
                ("lifecycle", st("active")),
                ("owner", obj(vec![("team", st("loop"))])),
                ("classification", obj(vec![("domain", st("core.action-item"))])),
                ("publishers", Value::Array(vec![])),
                ("subscribers", Value::Array(vec![])),
            ]),
        ),
        ("exposure", st(exposure)),
        ("support_route", st("https://support.traverse.dev/events")),
        ("field_classifications", Value::Array(vec![])),
    ])
}

fn event_record(product_value: Value, deprecated: bool) -> Value {
    obj(vec![("deprecated", Value::Bool(deprecated)), ("product", product_value)])
}

fn events_input(records: Vec<Value>) -> Value {
    obj(vec![
        ("capabilities", Value::Array(vec![])),
        ("personas", Value::Array(vec![])),
        ("events", Value::Array(records)),
    ])
}

fn persona(id: &str, version: &str, name: &str) -> Value {
    obj(vec![
        ("id", st(id)),
        ("version", st(version)),
        ("name", st(name)),
        ("summary", st("summary")),
        ("description", st("description")),
        ("distinguished_from", Value::Array(vec![])),
    ])
}

fn persona_record(persona_value: Value) -> Value {
    obj(vec![("persona", persona_value)])
}

fn personas_input(records: Vec<Value>) -> Value {
    obj(vec![
        ("capabilities", Value::Array(vec![])),
        ("personas", Value::Array(records)),
        ("events", Value::Array(vec![])),
    ])
}

fn catalog_of(input: &Value) -> Value {
    let bytes = serde_json::to_vec(input).unwrap();
    let mut out = vec![0u8; 1 << 16];
    let n = build_catalog(&bytes, &mut out);
    serde_json::from_slice(&out[..n]).expect("the catalog is JSON")
}

#[test]
fn builds_sorted_capability_list_and_reference() {
    let input = capabilities_input(vec![
        record(
            contract(
                "validation",
                "validation.validate-luhn",
                "1.0.0",
                "Checksum-format validation",
                "Validates card-number-shaped strings via the Luhn algorithm",
            ),
            false,
        ),
        record(
            contract(
                "doc-approval",
                "doc-approval.analyze",
                "1.2.0",
                "Analyze a document for approval signals",
                "Extracts approving parties from document text",
            ),
            false,
        ),
    ]);
    let catalog = catalog_of(&input);
    let capabilities = catalog.get("capabilities").unwrap().as_array().unwrap();
    assert_eq!(capabilities.len(), 2);
    assert_eq!(capabilities[0].get("reference").unwrap().as_str(), Some("doc-approval/doc-approval.analyze@1.2.0"));
    assert_eq!(capabilities[1].get("reference").unwrap().as_str(), Some("validation/validation.validate-luhn@1.0.0"));
}

#[test]
fn full_contract_is_passed_through_verbatim() {
    let source_contract = contract(
        "validation",
        "validation.validate-luhn",
        "1.0.0",
        "Checksum-format validation",
        "Validates card-number-shaped strings via the Luhn algorithm",
    );
    let input = capabilities_input(vec![record(source_contract.clone(), false)]);
    let catalog = catalog_of(&input);
    let capabilities = catalog.get("capabilities").unwrap().as_array().unwrap();
    assert_eq!(capabilities[0].get("contract").unwrap(), &source_contract);
}

#[test]
fn test_coverage_is_passed_through_when_present_and_null_when_absent() {
    let num = |x: f64| Value::Number(Number::from_f64(x).unwrap());
    let with_coverage = obj(vec![
        ("deprecated", Value::Bool(false)),
        ("contract", contract("core", "core.a", "1.0.0", "alpha", "alpha capability")),
        (
            "test_coverage",
            obj(vec![
                ("lines_percent", num(98.8)),
                ("functions_percent", num(100.0)),
                ("regions_percent", num(99.3)),
                ("test_count", num(5.0)),
            ]),
        ),
    ]);
    let without_coverage = record(contract("core", "core.b", "1.0.0", "bravo", "bravo capability"), false);
    let catalog = catalog_of(&capabilities_input(vec![with_coverage, without_coverage]));
    let capabilities = catalog.get("capabilities").unwrap().as_array().unwrap();
    let a = capabilities
        .iter()
        .find(|c| c.get("reference").unwrap().as_str() == Some("core/core.a@1.0.0"))
        .unwrap();
    assert_eq!(a.get("test_coverage").unwrap().get("test_count").unwrap().as_f64(), Some(5.0));
    let b = capabilities
        .iter()
        .find(|c| c.get("reference").unwrap().as_str() == Some("core/core.b@1.0.0"))
        .unwrap();
    assert_eq!(b.get("test_coverage").unwrap(), &Value::Null);
}

#[test]
fn search_index_maps_token_to_matching_references_only() {
    let input = capabilities_input(vec![
        record(
            contract(
                "validation",
                "validation.validate-luhn",
                "1.0.0",
                "Luhn checksum validation",
                "Card-number-shaped string check",
            ),
            false,
        ),
        record(
            contract(
                "formatting",
                "formatting.format-currency",
                "1.0.0",
                "Currency formatting",
                "Formats a numeric amount as a localized currency string",
            ),
            false,
        ),
    ]);
    let catalog = catalog_of(&input);
    let index = catalog.get("search_index").unwrap();
    let luhn_refs = index.get("luhn").unwrap().as_array().unwrap();
    assert_eq!(luhn_refs.len(), 1);
    assert_eq!(luhn_refs[0].as_str(), Some("validation/validation.validate-luhn@1.0.0"));
    let currency_refs = index.get("currency").unwrap().as_array().unwrap();
    assert_eq!(currency_refs.len(), 1);
    assert_eq!(currency_refs[0].as_str(), Some("formatting/formatting.format-currency@1.0.0"));
    assert!(index.get("nonexistent-token").is_none());
}

#[test]
fn deprecated_flag_is_preserved_not_filtered() {
    let input = capabilities_input(vec![record(
        contract("validation", "validation.validate-email", "1.0.0", "Email validation", "Validates email address format"),
        true,
    )]);
    let catalog = catalog_of(&input);
    let capabilities = catalog.get("capabilities").unwrap().as_array().unwrap();
    assert_eq!(capabilities.len(), 1);
    assert_eq!(capabilities[0].get("deprecated").unwrap().as_bool(), Some(true));
}

#[test]
fn malformed_record_missing_contract_is_skipped() {
    let input = capabilities_input(vec![obj(vec![("deprecated", Value::Bool(false))])]);
    let catalog = catalog_of(&input);
    assert!(catalog.get("capabilities").unwrap().as_array().unwrap().is_empty());
}

#[test]
fn malformed_contract_missing_identity_is_skipped() {
    let input = capabilities_input(vec![record(obj(vec![("summary", st("no namespace/id/version"))]), false)]);
    let catalog = catalog_of(&input);
    assert!(catalog.get("capabilities").unwrap().as_array().unwrap().is_empty());
}

#[test]
fn empty_input_produces_empty_catalog_not_a_panic() {
    let catalog = catalog_of(&capabilities_input(Vec::new()));
    assert!(catalog.get("capabilities").unwrap().as_array().unwrap().is_empty());
    assert!(catalog.get("personas").unwrap().as_array().unwrap().is_empty());
    assert!(catalog.get("events").unwrap().as_array().unwrap().is_empty());
    assert!(matches!(catalog.get("search_index"), Some(Value::Object(fields)) if fields.is_empty()));
}

#[test]
fn catalog_output_genuinely_differs_across_distinct_inputs() {
    let one = catalog_of(&capabilities_input(vec![record(
        contract("core", "core.a", "1.0.0", "alpha", "alpha capability"),
        false,
    )]));
    let two = catalog_of(&capabilities_input(vec![record(
        contract("core", "core.b", "1.0.0", "bravo", "bravo capability"),
        false,
    )]));
    assert_ne!(one, two, "output must depend on input, not be fixed");
}

#[test]
fn builds_sorted_persona_list_and_reference() {
    let input = personas_input(vec![
        persona_record(persona("signup-form-developer", "1.0.0", "Signup Form Developer")),
        persona_record(persona("accounts-payable-clerk", "1.0.0", "Accounts-Payable Clerk")),
    ]);
    let catalog = catalog_of(&input);
    let personas = catalog.get("personas").unwrap().as_array().unwrap();
    assert_eq!(personas.len(), 2);
    assert_eq!(personas[0].get("reference").unwrap().as_str(), Some("accounts-payable-clerk@1.0.0"));
    assert_eq!(personas[1].get("reference").unwrap().as_str(), Some("signup-form-developer@1.0.0"));
}

#[test]
fn full_persona_is_passed_through_verbatim() {
    let source_persona = persona("meeting-organizer", "1.0.0", "Meeting Organizer");
    let input = personas_input(vec![persona_record(source_persona.clone())]);
    let catalog = catalog_of(&input);
    let personas = catalog.get("personas").unwrap().as_array().unwrap();
    assert_eq!(personas[0].get("persona").unwrap(), &source_persona);
}

#[test]
fn malformed_persona_record_missing_persona_is_skipped() {
    let input = personas_input(vec![obj(vec![("not_persona", Value::Bool(true))])]);
    let catalog = catalog_of(&input);
    assert!(catalog.get("personas").unwrap().as_array().unwrap().is_empty());
}

#[test]
fn malformed_persona_missing_identity_is_skipped() {
    let input = personas_input(vec![persona_record(obj(vec![("name", st("no id or version"))]))]);
    let catalog = catalog_of(&input);
    assert!(catalog.get("personas").unwrap().as_array().unwrap().is_empty());
}

#[test]
fn capabilities_and_personas_are_independent() {
    let input = obj(vec![
        (
            "capabilities",
            Value::Array(vec![record(contract("core", "core.a", "1.0.0", "alpha", "alpha capability"), false)]),
        ),
        (
            "personas",
            Value::Array(vec![persona_record(persona("meeting-organizer", "1.0.0", "Meeting Organizer"))]),
        ),
        ("events", Value::Array(vec![])),
    ]);
    let catalog = catalog_of(&input);
    assert_eq!(catalog.get("capabilities").unwrap().as_array().unwrap().len(), 1);
    assert_eq!(catalog.get("personas").unwrap().as_array().unwrap().len(), 1);
    assert!(catalog.get("events").unwrap().as_array().unwrap().is_empty());
}

#[test]
fn builds_sorted_event_list_and_reference() {
    let input = events_input(vec![
        event_record(
            event_product("core", "core.action-item.status-transitioned", "1.0.0", "Status transitioned", "internal"),
            false,
        ),
        event_record(
            event_product(
                "content.comments",
                "content.comments.comment-draft-created",
                "1.0.0",
                "Draft created",
                "internal",
            ),
            false,
        ),
    ]);
    let catalog = catalog_of(&input);
    let events = catalog.get("events").unwrap().as_array().unwrap();
    assert_eq!(events.len(), 2);
    assert_eq!(
        events[0].get("reference").unwrap().as_str(),
        Some("content.comments/content.comments.comment-draft-created@1.0.0")
    );
    assert_eq!(events[1].get("reference").unwrap().as_str(), Some("core/core.action-item.status-transitioned@1.0.0"));
}

#[test]
fn full_event_product_is_passed_through_verbatim() {
    let source = event_product("core", "core.action-item.status-transitioned", "1.0.0", "Status transitioned", "internal");
    let input = events_input(vec![event_record(source.clone(), false)]);
    let catalog = catalog_of(&input);
    let events = catalog.get("events").unwrap().as_array().unwrap();
    assert_eq!(events[0].get("product").unwrap(), &source);
    assert_eq!(events[0].get("deprecated").unwrap().as_bool(), Some(false));
}

#[test]
fn malformed_event_record_missing_product_is_skipped() {
    let input = events_input(vec![obj(vec![("deprecated", Value::Bool(false))])]);
    let catalog = catalog_of(&input);
    assert!(catalog.get("events").unwrap().as_array().unwrap().is_empty());
}

#[test]
fn catalog_use_case_leaves_feed_the_search_index_but_keys_do_not() {
    let mut c = contract("core", "core.a", "1.0.0", "alpha", "first");
    c.as_object_mut().unwrap().insert(
        "use_cases".to_string(),
        Value::Array(vec![obj(vec![("persona_ref", st("Zebra keeper")), ("count", Value::Bool(true))])]),
    );
    let catalog = catalog_of(&capabilities_input(vec![record(c, false)]));
    let index = catalog.get("search_index").unwrap();
    assert!(index.get("zebra").is_some());
    assert!(index.get("keeper").is_some());
    assert!(index.get("persona").is_none());
    assert!(index.get("true").is_none());
    assert_eq!(index.get("alpha").unwrap().as_array().unwrap()[0].as_str(), Some("core/core.a@1.0.0"));
}

#[test]
fn catalog_that_does_not_fit_writes_nothing() {
    let input = capabilities_input(vec![record(contract("core", "core.a", "1.0.0", "alpha", "a"), false)]);
    let bytes = serde_json::to_vec(&input).unwrap();
    let mut out = vec![0u8; 8];
    assert_eq!(build_catalog(&bytes, &mut out), 0);
}
