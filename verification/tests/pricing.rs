use capabilities::pricing::price_safe_check;
use capabilities::pricing::{
    evaluate, half_up_div, parse_int, parse_money_cents, parse_rate_scale4, parse_scaled,
    array_contains_string, number_after_key, write_cents, select_discount, select_tax, extract_inclusive_tax,
    first_object_in_array, starts_with_minus, write_config_hash,
};

fn run(input: &str) -> String {
    let mut out = vec![0u8; 65536];
    let n = evaluate(input.as_bytes(), &mut out);
    String::from_utf8_lossy(&out[..n]).into_owned()
}

#[test]
fn pricing_use_case_01_happy() {
    let out = run("{\"currency\":\"USD\",\"lines\":[{\"id\":\"line-1\",\"sku\":\"SKU-100\",\"quantity\":2,\"unit_price\":50.0,\"tax_code\":\"STANDARD\"}],\"customer\":{\"id\":\"cust-42\",\"attributes\":{\"segment\":\"retail\"}},\"context\":{},\"pricing_config\":{\"version\":\"1.0\",\"currency\":\"USD\",\"rounding\":\"half_up\",\"decimal_places\":2,\"discount_rules\":[{\"id\":\"summer-10\",\"priority\":100,\"type\":\"percentage\",\"value\":10,\"stackable\":false,\"applies_to\":[\"SKU-100\"]}],\"tax_rules\":[{\"id\":\"us-standard\",\"tax_code\":\"STANDARD\",\"rate\":0.08,\"inclusive\":false}]}}");
    assert!(out.contains("\"reason_code\":\"ok\""), "expected ok in {out}");
}

#[test]
fn use_case_02_happy() {
    let out = run("{\"currency\":\"USD\",\"lines\":[{\"id\":\"sub-1\",\"sku\":\"PLAN-PRO\",\"quantity\":1,\"unit_price\":99.0}],\"customer\":{\"id\":\"cust-99\"},\"context\":{},\"pricing_config\":{\"version\":\"1.0\",\"currency\":\"USD\",\"rounding\":\"half_up\",\"decimal_places\":2,\"discount_rules\":[{\"id\":\"loyalty-5\",\"priority\":50,\"type\":\"fixed\",\"value\":5.0,\"stackable\":true}],\"tax_rules\":[]}}");
    assert!(out.contains("\"reason_code\":\"ok\""), "expected ok in {out}");
}

#[test]
fn pricing_use_case_03_happy() {
    let out = run("{\"currency\":\"USD\",\"lines\":[{\"id\":\"line-1\",\"sku\":\"SKU-100\",\"quantity\":1,\"unit_price\":50.0}],\"customer\":{\"id\":\"cust-1\"},\"context\":{},\"pricing_config\":{\"version\":\"1.0\",\"currency\":\"USD\",\"rounding\":\"half_up\",\"decimal_places\":2,\"discount_rules\":[],\"tax_rules\":[]}}");
    assert!(out.contains("\"reason_code\":\"ok\""), "expected ok in {out}");
}

#[test]
fn pricing_use_case_04_sad() {
    let out = run("{\"currency\":\"USD\",\"lines\":[{\"id\":\"line-1\",\"sku\":\"SKU-100\",\"quantity\":0,\"unit_price\":50.0}],\"customer\":{\"id\":\"cust-1\"},\"context\":{},\"pricing_config\":{\"version\":\"1.0\",\"currency\":\"USD\",\"rounding\":\"half_up\",\"decimal_places\":2,\"discount_rules\":[],\"tax_rules\":[]}}");
    assert!(out.contains("\"reason_code\":\"invalid_quantity\""), "expected invalid_quantity in {out}");
}

#[test]
fn main_use_case_05_sad() {
    let out = run("{\"currency\":\"USD\",\"lines\":[{\"id\":\"line-1\",\"sku\":\"SKU-X\",\"quantity\":1,\"unit_price\":-10.0}],\"customer\":{\"id\":\"cust-1\"},\"context\":{},\"pricing_config\":{\"version\":\"1.0\",\"currency\":\"USD\",\"rounding\":\"half_up\",\"decimal_places\":2,\"discount_rules\":[],\"tax_rules\":[]}}");
    assert!(out.contains("\"reason_code\":\"invalid_unit_price\""), "expected invalid_unit_price in {out}");
}

#[test]
fn use_case_06_sad() {
    let out = run("{\"currency\":\"\",\"lines\":[{\"id\":\"line-1\",\"sku\":\"SKU-100\",\"quantity\":1,\"unit_price\":50.0}],\"customer\":{\"id\":\"cust-1\"},\"context\":{},\"pricing_config\":{\"version\":\"1.0\",\"currency\":\"USD\",\"rounding\":\"half_up\",\"decimal_places\":2,\"discount_rules\":[],\"tax_rules\":[]}}");
    assert!(out.contains("\"reason_code\":\"invalid_config\""), "expected invalid_config in {out}");
}

#[test]
fn use_case_07_sad() {
    let out = run("{\"currency\":\"EUR\",\"lines\":[{\"id\":\"line-1\",\"sku\":\"SKU-100\",\"quantity\":1,\"unit_price\":50.0}],\"customer\":{\"id\":\"cust-1\"},\"context\":{},\"pricing_config\":{\"version\":\"1.0\",\"currency\":\"USD\",\"rounding\":\"half_up\",\"decimal_places\":2,\"discount_rules\":[],\"tax_rules\":[]}}");
    assert!(out.contains("\"reason_code\":\"currency_mismatch\""), "expected currency_mismatch in {out}");
}

#[test]
fn use_case_08_sad() {
    let out = run("{\"currency\":\"USD\",\"lines\":[],\"customer\":{\"id\":\"cust-1\"},\"context\":{},\"pricing_config\":{\"version\":\"1.0\",\"currency\":\"USD\",\"rounding\":\"half_up\",\"decimal_places\":2,\"discount_rules\":[],\"tax_rules\":[]}}");
    assert!(out.contains("\"reason_code\":\"empty_cart\""), "expected empty_cart in {out}");
}

#[test]
fn happy_line_spells_totals_and_trace() {
    let out = run("{\"currency\":\"USD\",\"lines\":[{\"id\":\"line-1\",\"sku\":\"SKU-100\",\"quantity\":2,\"unit_price\":50.0,\"tax_code\":\"STANDARD\"}],\"pricing_config\":{\"currency\":\"USD\",\"discount_rules\":[{\"id\":\"summer-10\",\"type\":\"percentage\",\"value\":10,\"applies_to\":[\"SKU-100\"]}],\"tax_rules\":[{\"id\":\"us-standard\",\"tax_code\":\"STANDARD\",\"rate\":0.08,\"inclusive\":false}]}}");
    assert!(out.contains("\"gross\":100.00"), "{out}");
    assert!(out.contains("\"discount_amount\":10.00"), "{out}");
    assert!(out.contains("\"taxable_base\":90.00"), "{out}");
    assert!(out.contains("\"tax_amount\":7.20"), "{out}");
    assert!(out.contains("\"net\":97.20"), "{out}");
    assert!(out.contains("applied discount summer-10 (10%) -> -10.00"), "{out}");
    assert!(out.contains("\"config_hash\":\"fnv1a64:"), "{out}");
}

#[test]
fn half_up_div_rounds_halves_away_from_zero() {
    assert_eq!(half_up_div(150, 100), 2);
    assert_eq!(half_up_div(149, 100), 1);
    assert_eq!(half_up_div(-150, 100), -2);
    assert_eq!(half_up_div(-149, 100), -1);
    assert_eq!(half_up_div(5, 0), 0);
}

#[test]
fn parse_scaled_reads_fixed_point() {
    assert_eq!(parse_money_cents(b"50.0"), Some(5000));
    assert_eq!(parse_money_cents(b" 1.239"), Some(123));
    assert_eq!(parse_money_cents(b"-2.5"), Some(-250));
    assert_eq!(parse_rate_scale4(b"0.08"), Some(800));
    assert_eq!(parse_scaled(b"7", 0), Some(7));
    assert_eq!(parse_scaled(b"abc", 2), None);
    assert_eq!(parse_scaled(b"99999999999999999999", 2), Some(i64::MAX));
}

#[test]
fn parse_int_saturates_and_reads_sign() {
    assert_eq!(parse_int(b"  42x"), Some(42));
    assert_eq!(parse_int(b"-3"), Some(-3));
    assert_eq!(parse_int(b"-"), None);
    assert_eq!(parse_int(b"123456789012345678901234"), Some(i64::MAX));
    assert!(starts_with_minus(b"  -1"));
    assert!(!starts_with_minus(b"1"));
}

#[test]
fn number_after_key_takes_one_point() {
    assert_eq!(number_after_key(b"{\"v\": -1.5.2}", b"\"v\""), b"-1.5");
    assert_eq!(number_after_key(b"{\"v\": \"x\"}", b"\"v\""), b"");
    assert_eq!(number_after_key(b"{}", b"\"v\""), b"");
}

#[test]
fn array_contains_string_stops_at_non_strings() {
    assert!(array_contains_string(b"[\"a\", \"b\"]", b"b"));
    assert!(!array_contains_string(b"[1, \"b\"]", b"b"));
    assert!(!array_contains_string(b"\"b\"", b"b"));
}

#[test]
fn write_cents_pads_hundredths() {
    let mut out = [0u8; 16];
    let n = write_cents(&mut out, 0, -105);
    assert_eq!(&out[..n], b"-1.05");
    let n = write_cents(&mut out, 0, 7);
    assert_eq!(&out[..n], b"0.07");
}

#[test]
fn select_discount_caps_fixed_and_skips_other_skus() {
    let rules = b"[{\"id\":\"other\",\"type\":\"fixed\",\"value\":5,\"applies_to\":[\"X\"]},{\"id\":\"big\",\"type\":\"fixed\",\"value\":500.0}]";
    let (id, t, v, amount) = select_discount(rules, b"SKU", 1000);
    assert_eq!(id, b"big");
    assert_eq!(t, b"fixed");
    assert_eq!(v, 500);
    assert_eq!(amount, 1000);
}

#[test]
fn select_tax_matches_code_and_rounds() {
    let rules = b"[{\"id\":\"reduced\",\"tax_code\":\"R\",\"rate\":0.05},{\"id\":\"std\",\"tax_code\":\"S\",\"rate\":0.0825,\"inclusive\":true}]";
    let (id, amount, inclusive, rate) = select_tax(rules, b"S", 1000);
    assert_eq!(rate, 825);
    assert_eq!(id, b"std");
    assert_eq!(amount, 83);
    assert!(inclusive);
    assert_eq!(first_object_in_array(b"[ {\"a\":1} ]"), Some(&b"{\"a\":1}"[..]));
}

#[test]
fn config_hash_label_is_fnv_hex() {
    let mut out = [0u8; 32];
    let n = write_config_hash(b"", &mut out);
    assert_eq!(&out[..n], b"fnv1a64:cbf29ce484222325");
}

#[test]
fn pricing_inclusive_tax_is_extracted_from_the_base() {
    assert_eq!(extract_inclusive_tax(1200, 2000), 200);
    assert_eq!(extract_inclusive_tax(1080, 800), 80);
    assert_eq!(extract_inclusive_tax(0, 800), 0);
}

#[test]
fn pricing_inclusive_line_splits_tax_out_of_the_price() {
    let out = run("{\"currency\":\"USD\",\"lines\":[{\"id\":\"l1\",\"sku\":\"S1\",\"quantity\":1,\"unit_price\":12.0,\"tax_code\":\"V\"}],\"pricing_config\":{\"currency\":\"USD\",\"discount_rules\":[],\"tax_rules\":[{\"id\":\"vat\",\"tax_code\":\"V\",\"rate\":0.2,\"inclusive\":true}]}}");
    assert!(out.contains("\"tax_amount\":2.00"), "{out}");
    assert!(out.contains("\"net\":12.00"), "{out}");
}

#[test]
fn price_safe_check_rejects_a_discount_past_i64() {
    let ok = b"{\"currency\":\"USD\",\"lines\":[{\"id\":\"line-1\",\"sku\":\"SKU-100\",\"quantity\":2,\"unit_price\":50.0,\"tax_code\":\"STANDARD\"}],\"pricing_config\":{\"currency\":\"USD\",\"discount_rules\":[{\"id\":\"summer-10\",\"type\":\"percentage\",\"value\":10,\"applies_to\":[\"SKU-100\"]}],\"tax_rules\":[{\"id\":\"us-standard\",\"tax_code\":\"STANDARD\",\"rate\":0.08,\"inclusive\":false}]}}";
    assert!(price_safe_check(ok));
    let huge = b"{\"currency\":\"USD\",\"lines\":[{\"id\":\"line-1\",\"sku\":\"SKU-100\",\"quantity\":9223372036854775807,\"unit_price\":1.00}],\"pricing_config\":{\"currency\":\"USD\",\"discount_rules\":[{\"id\":\"d\",\"type\":\"percentage\",\"value\":10}],\"tax_rules\":[]}}";
    assert!(!price_safe_check(huge));
    let refused = b"{\"currency\":\"USD\",\"lines\":[{\"id\":\"line-1\",\"quantity\":0,\"unit_price\":1.00}],\"pricing_config\":{\"currency\":\"USD\"}}";
    assert!(price_safe_check(refused));
}
