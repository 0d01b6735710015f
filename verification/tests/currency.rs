use capabilities::currency::{decimal_places, format_parts, group_digits, pad_left_zero};

/// Splits `amount` at `places` decimal places, rounding half up.
fn split(amount: f64, places: u32) -> (bool, i64, i64) {
    let negative = amount < 0.0;
    let magnitude = if negative { -amount } else { amount };
    let mut factor = 1i64;
    for _ in 0..places {
        factor *= 10;
    }
    let scaled = (magnitude * (factor as f64) + 0.5) as i64;
    (negative, scaled / factor, scaled % factor)
}

fn format_currency(amount: f64, code: &str, locale: &str) -> (String, bool) {
    let (negative, whole, frac) = split(amount, decimal_places(code.as_bytes()));
    let (bytes, supported) = format_parts(negative, whole, frac, code.as_bytes(), locale.as_bytes());
    (String::from_utf8(bytes).unwrap(), supported)
}

#[test]
fn happy_paths_from_spec_table() {
    assert_eq!(format_currency(1234.5, "USD", "en-US"), (String::from("$1,234.50"), true));
    assert_eq!(format_currency(1234.5, "EUR", "de-DE"), (String::from("1.234,50 \u{20ac}"), true));
    assert_eq!(format_currency(1500.0, "JPY", "ja-JP"), (String::from("\u{a5}1,500"), true));
    assert_eq!(format_currency(-12.5, "USD", "en-US"), (String::from("-$12.50"), true));
}

#[test]
fn unsupported_currency_falls_back_honestly() {
    let (formatted, supported) = format_currency(99.99, "XYZ", "en-US");
    assert!(!supported);
    assert_eq!(formatted, "XYZ 99.99");
}

#[test]
fn unsupported_locale_falls_back_honestly() {
    let (formatted, supported) = format_currency(50.0, "USD", "xx-XX");
    assert!(!supported);
    assert_eq!(formatted, "USD 50.00");
}

#[test]
fn zero_is_not_an_error_case() {
    assert_eq!(format_currency(0.0, "USD", "en-US"), (String::from("$0.00"), true));
}

#[test]
fn locale_config_changes_formatting_for_same_amount() {
    let us = format_currency(1234.5, "EUR", "en-US");
    let de = format_currency(1234.5, "EUR", "de-DE");
    assert_ne!(us.0, de.0, "same amount, different locale must format differently");
}

#[test]
fn currency_output_genuinely_differs_across_distinct_inputs() {
    let a = format_currency(10.0, "USD", "en-US");
    let b = format_currency(20000.0, "USD", "en-US");
    assert_ne!(a.0, b.0, "output must depend on input, not be fixed");
}

#[test]
fn currency_digits_group_by_threes_and_pad() {
    assert_eq!(group_digits(1234567, b','), b"1,234,567".to_vec());
    assert_eq!(group_digits(999, b'.'), b"999".to_vec());
    assert_eq!(group_digits(0, b','), b"0".to_vec());
    assert_eq!(group_digits(-5, b','), Vec::<u8>::new());
    assert_eq!(pad_left_zero(5, 3), b"005".to_vec());
    assert_eq!(pad_left_zero(1234, 2), b"1234".to_vec());
    assert_eq!(pad_left_zero(0, 2), b"00".to_vec());
    assert_eq!(format_currency(1234567.891, "BHD", "fr-FR"), (String::from("1 234 567,891 BHD"), true));
}
