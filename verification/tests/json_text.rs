use capabilities::json_text::{parse_string, write_integer, write_string};

fn chars(s: &str) -> Vec<char> {
    s.chars().collect()
}

#[test]
fn json_string_decodes_its_escapes() {
    let cs = chars(r#"  "line1\nline2 \"quoted\"" rest"#);
    let (text, end) = parse_string(&cs, 0).expect("a string literal");
    assert_eq!(text, "line1\nline2 \"quoted\"");
    assert_eq!(cs[end..].iter().collect::<String>(), " rest");
}

#[test]
fn json_string_decodes_unicode_escapes() {
    let cs = chars(r#""caf\u00e9 \u20AC \ud800 \/\b\f\t\r""#);
    let (text, _) = parse_string(&cs, 0).unwrap();
    assert_eq!(text, "caf\u{e9} \u{20ac} \u{fffd} /\u{8}\u{c}\t\r");
}

#[test]
fn json_string_rejects_bad_literals() {
    assert!(parse_string(&chars(r#""unterminated"#), 0).is_none());
    assert!(parse_string(&chars(r#""bad \q escape""#), 0).is_none());
    assert!(parse_string(&chars(r#""short \u12""#), 0).is_none());
    assert!(parse_string(&chars(r#""not hex \u12g4""#), 0).is_none());
    assert!(parse_string(&chars("x\"a\""), 0).is_none());
}

#[test]
fn json_string_writes_and_reads_back() {
    for original in ["hello", "line1\nline2 \"quoted\"", "tab\tback\\slash", "bell\u{7}", "caf\u{e9}"] {
        let mut out = String::new();
        write_string(original, &mut out);
        let (back, end) = parse_string(&chars(&out), 0).expect("written literal reparses");
        assert_eq!(back, original);
        assert_eq!(end, out.chars().count());
    }
    let mut out = String::new();
    write_string("a\u{1}\"", &mut out);
    assert_eq!(out, r#""a\u0001\"""#);
}

#[test]
fn json_integers_are_written_in_decimal() {
    let mut out = String::new();
    write_integer(0, &mut out);
    out.push(' ');
    write_integer(-1234, &mut out);
    out.push(' ');
    write_integer(i64::MAX, &mut out);
    assert_eq!(out, "0 -1234 9223372036854775807");
}

#[test]
fn handles_escaped_characters() {
    let doc = chars(r#"{"note": "line1\nline2 \"quoted\""}"#);
    let colon = doc.iter().position(|c| *c == ':').unwrap();
    let (note, end) = parse_string(&doc, colon + 1).expect("should parse");
    assert_eq!(note, "line1\nline2 \"quoted\"");
    assert_eq!(doc[end], '}');
}
