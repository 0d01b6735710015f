use capabilities::activity::{classify, emit_interval, error, find, integer, number, quality_state};

fn run(input: &str) -> String {
    let mut out = vec![0u8; 4096];
    let n = classify(input.as_bytes(), &mut out);
    String::from_utf8(out[..n].to_vec()).unwrap()
}

#[test]
fn adjacent_windows_of_one_class_merge() {
    let out = run(r#"{"windows":[{"start_ms":0,"end_ms":10,"quality":"quiet"},{"start_ms":10,"end_ms":20,"quality":"quiet"},{"start_ms":20,"end_ms":30,"quality":"clipped"}]}"#);
    assert_eq!(
        out,
        r#"{"policy_version":"activity-1","intervals":[{"start_ms":0,"end_ms":20,"activity":"silence","window_count":2},{"start_ms":20,"end_ms":30,"activity":"clipped","window_count":1}],"represented_window_count":3}"#
    );
}

#[test]
fn a_gap_starts_a_new_interval() {
    let out = run(r#"[{"start_ms":0,"end_ms":10},{"start_ms":15,"end_ms":20}]"#);
    assert!(out.contains(r#"{"start_ms":0,"end_ms":10,"activity":"possible-event","window_count":1},{"start_ms":15"#), "{out}");
}

#[test]
fn bad_interval_is_refused() {
    assert_eq!(run(r#"[{"start_ms":10,"end_ms":10}]"#), r#"{"error":"invalid_window_interval"}"#);
    assert_eq!(run(r#"[{"start_ms":-1,"end_ms":10}]"#), r#"{"error":"invalid_window_interval"}"#);
}

#[test]
fn no_windows_gives_an_empty_list() {
    assert_eq!(run("{}"), r#"{"policy_version":"activity-1","intervals":[],"represented_window_count":0}"#);
}

#[test]
fn helpers_read_and_write_plain_values() {
    assert_eq!(find(b"abcabc", b"bc", 2), Some(4));
    assert_eq!(find(b"abc", b"bc", 9), None);
    assert_eq!(integer(b"{\"k\":\x0c 42}", b"\"k\"", 0), Some(42));
    assert_eq!(integer(b"{\"k\":99999999999}", b"\"k\"", 0), None);
    assert_eq!(quality_state(b"{\"q\":\"background_dominant\"}", 0), b"background");
    let mut out = [0u8; 8];
    let mut at = 0usize;
    number(&mut out, &mut at, -5);
    assert_eq!(at, 0);
    number(&mut out, &mut at, 407);
    assert_eq!(&out[..at], b"407");
    let mut small = [0u8; 4];
    assert_eq!(error(&mut small, b"x"), 3);
    assert_eq!(&small[..3], b"x\"}");
    let mut buf = [0u8; 64];
    let mut at = 0usize;
    emit_interval(&mut buf, &mut at, false, 1, 2, b"a", 3);
    assert_eq!(&buf[..at], br#",{"start_ms":1,"end_ms":2,"activity":"a","window_count":3}"#);
}
