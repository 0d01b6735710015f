use capabilities::catalog::{build_search_index, bytes_lt, capability_reference, insert_sorted, tokenize_into};

fn s(x: &str) -> Vec<u8> {
    x.as_bytes().to_vec()
}

#[test]
fn catalog_tokens_are_sorted_lowercase_runs_without_repeats() {
    let mut toks: Vec<Vec<u8>> = Vec::new();
    tokenize_into(b"Validates card-number-shaped strings via the Luhn algorithm; LUHN luhn 42", &mut toks);
    let want: Vec<Vec<u8>> = ["42", "algorithm", "card", "luhn", "number", "shaped", "strings", "the", "validates", "via"]
        .iter()
        .map(|t| s(t))
        .collect();
    assert_eq!(toks, want);
}

#[test]
fn catalog_tokens_merge_into_an_existing_set() {
    let mut toks: Vec<Vec<u8>> = vec![s("b"), s("d")];
    tokenize_into(b"  a..C__d ", &mut toks);
    assert_eq!(toks, vec![s("a"), s("b"), s("c"), s("d")]);
    let mut none: Vec<Vec<u8>> = Vec::new();
    tokenize_into(b" -- ..", &mut none);
    assert!(none.is_empty());
}

#[test]
fn catalog_reference_joins_namespace_id_and_version() {
    assert_eq!(
        capability_reference(b"validation", b"validation.validate-luhn", b"1.0.0"),
        s("validation/validation.validate-luhn@1.0.0")
    );
}

#[test]
fn catalog_byte_order_puts_prefixes_first() {
    assert!(bytes_lt(b"core", b"core.a"));
    assert!(bytes_lt(b"a", b"b"));
    assert!(!bytes_lt(b"b", b"a"));
    assert!(!bytes_lt(b"same", b"same"));
    let mut set = vec![s("doc-approval/doc-approval.analyze@1.2.0")];
    insert_sorted(&mut set, s("validation/validation.validate-luhn@1.0.0"));
    insert_sorted(&mut set, s("doc-approval/doc-approval.analyze@1.2.0"));
    assert_eq!(
        set,
        vec![s("doc-approval/doc-approval.analyze@1.2.0"), s("validation/validation.validate-luhn@1.0.0")]
    );
}

#[test]
fn catalog_search_index_maps_token_to_matching_references_only() {
    let luhn = s("validation/validation.validate-luhn@1.0.0");
    let currency = s("formatting/formatting.format-currency@1.0.0");
    let entries = vec![
        (
            luhn.clone(),
            s("validation validation.validate-luhn Luhn checksum validation Card-number-shaped string check"),
        ),
        (
            currency.clone(),
            s("formatting formatting.format-currency Currency formatting Formats a numeric amount as a localized currency string"),
        ),
    ];
    let ix = build_search_index(&entries);
    let find = |t: &str| ix.iter().find(|e| e.0 == s(t)).map(|e| e.1.clone());
    assert_eq!(find("luhn"), Some(vec![luhn.clone()]));
    assert_eq!(find("currency"), Some(vec![currency.clone()]));
    assert_eq!(find("string"), Some(vec![currency.clone(), luhn.clone()]));
    assert_eq!(find("nonexistent-token"), None);
    for w in ix.windows(2) {
        assert!(w[0].0 < w[1].0);
    }
}
