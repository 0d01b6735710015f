//! Completion quality: how well a finished action item is documented, as a
//! score, a verdict and the gaps found (a short completion note, missing
//! evidence under high pressure).
use vstd::prelude::*;
use vstd::string::StringSliceAdditionalSpecFns;
use crate::emit::{
    decimal, decimal_digits, escaped_chunks, holds_greedy, lemma_copies_concat, lemma_run_holds, put_chunk, put_escaped,
    signed_chunks,
};
use crate::followup::{decimal_read, pad3, write_usize, DecimalRead};
use crate::scan::{
    bracketed_at_depth_spec, extract_int_spec, extract_string_spec, int_value_fits_i32, is_digit, scannable,
    value_after_key_spec,
};

verus! {

/// The string literals counted from index `i` on, `in_str` saying whether
/// the scan stands inside one: a backslash hides the byte after it.
pub open spec fn strings_from(arr: Seq<u8>, i: int, in_str: bool) -> nat
    decreases arr.len() + 2 - i,
{
    if i < 0 || i >= arr.len() {
        0
    } else if in_str {
        if arr[i] == 92u8 {
            strings_from(arr, i + 2, true)
        } else if arr[i] == 34u8 {
            1 + strings_from(arr, i + 1, false)
        } else {
            strings_from(arr, i + 1, true)
        }
    } else if arr[i] == 34u8 {
        strings_from(arr, i + 1, true)
    } else {
        strings_from(arr, i + 1, false)
    }
}

/// The number of string literals in `arr`.
pub open spec fn string_count(arr: Seq<u8>) -> nat {
    strings_from(arr, 0, false)
}

proof fn lemma_strings_bound(arr: Seq<u8>, i: int, in_str: bool)
    requires
        0 <= i,
    ensures
        strings_from(arr, i, in_str) <= if i < arr.len() { arr.len() - i } else { 0 },
    decreases arr.len() + 2 - i,
{
    if i < arr.len() {
        if in_str {
            if arr[i] == 92u8 {
                lemma_strings_bound(arr, i + 2, true);
            } else if arr[i] == 34u8 {
                lemma_strings_bound(arr, i + 1, false);
            } else {
                lemma_strings_bound(arr, i + 1, true);
            }
        } else if arr[i] == 34u8 {
            lemma_strings_bound(arr, i + 1, true);
        } else {
            lemma_strings_bound(arr, i + 1, false);
        }
    }
}

/// Counts the string literals of the array `arr`.
pub fn count_array_strings(arr: &[u8]) -> (r: u32)
    requires
        scannable(arr@),
    ensures
        r == string_count(arr@),
{
    let mut count: u32 = 0;
    let mut in_str = false;
    let mut i: usize = 0;
    proof {
        lemma_strings_bound(arr@, 0, false);
    }
    while i < arr.len()
        invariant
            scannable(arr@),
            i <= arr@.len() + 1,
            count + strings_from(arr@, i as int, in_str) == string_count(arr@),
            string_count(arr@) <= arr@.len(),
        decreases arr.len() + 2 - i,
    {
        let b = arr[i];
        if in_str {
            if b == 92 {
                i = i + 2;
                continue;
            }
            if b == 34 {
                in_str = false;
                count = count + 1;
            }
            i = i + 1;
            continue;
        }
        if b == 34 {
            in_str = true;
        }
        i = i + 1;
    }
    count
}

/// The number in thousandths that follows the colon after `key`: digits
/// with an optional point, read up to the first other byte (fraction digits
/// past the third dropped; no digit reads as 0); `None` when the key, its
/// colon or any value is missing.
pub open spec fn millis_field(hay: Seq<u8>, key: Seq<u8>) -> Option<int> {
    match value_after_key_spec(hay, key) {
        Some(rest) => if rest.len() == 0 {
            None
        } else {
            let st = decimal_read(rest, 0, DecimalRead { whole: 0, frac: 0, digits: 0, in_frac: false, any: false });
            Some(st.whole * 1000 + st.frac * pad3(st.digits))
        },
        None => None,
    }
}

/// The number at `key` fits a `u32` in thousandths (the reader does not
/// check for overflow).
pub open spec fn millis_fits(hay: Seq<u8>, key: Seq<u8>) -> bool {
    match millis_field(hay, key) {
        Some(v) => v <= u32::MAX,
        None => true,
    }
}

proof fn lemma_read_grows(s: Seq<u8>, i: int, st: DecimalRead)
    requires
        0 <= st.whole <= i32::MAX,
        0 <= st.digits <= 3,
        0 <= st.frac,
    ensures
        decimal_read(s, i, st).whole >= st.whole,
        decimal_read(s, i, st).whole <= i32::MAX,
        0 <= decimal_read(s, i, st).digits <= 3,
        decimal_read(s, i, st).frac >= 0,
    decreases s.len() - i,
{
    if 0 <= i < s.len() {
        if s[i] == 46u8 {
            lemma_read_grows(s, i + 1, DecimalRead { in_frac: true, ..st });
        } else if is_digit(s[i]) {
            let d = (s[i] - 48) as int;
            if st.in_frac {
                if st.digits < 3 {
                    lemma_read_grows(
                        s,
                        i + 1,
                        DecimalRead { frac: st.frac * 10 + d, digits: st.digits + 1, any: true, ..st },
                    );
                } else {
                    lemma_read_grows(s, i + 1, DecimalRead { any: true, ..st });
                }
            } else {
                lemma_read_grows(
                    s,
                    i + 1,
                    DecimalRead { whole: crate::followup::cap32(st.whole * 10 + d), any: true, ..st },
                );
            }
        }
    }
}

/// The number in thousandths after `key` in `hay`.
pub fn parse_number_millis(hay: &[u8], key: &[u8]) -> (r: Option<u32>)
    requires
        key@.len() > 0,
        millis_fits(hay@, key@),
    ensures
        match millis_field(hay@, key@) {
            Some(v) => r == Some(v as u32) && 0 <= v <= u32::MAX,
            None => r is None,
        },
{
    let rest = match crate::scan::value_after_key(hay, key) {
        Some(r) => r,
        None => return None,
    };
    if rest.len() == 0 {
        return None;
    }
    let ghost init = DecimalRead { whole: 0, frac: 0, digits: 0, in_frac: false, any: false };
    let ghost fin = decimal_read(rest@, 0, init);
    proof {
        lemma_read_grows(rest@, 0, init);
    }
    assert(fin.whole * 1000 <= u32::MAX);
    let mut whole: u32 = 0;
    let mut frac: u32 = 0;
    let mut frac_digits: u32 = 0;
    let mut seen_dot = false;
    let mut any = false;
    let mut j: usize = 0;
    while j < rest.len()
        invariant
            j <= rest@.len(),
            fin == decimal_read(rest@, 0, init),
            fin.whole * 1000 <= u32::MAX,
            0 <= frac_digits <= 3,
            frac < 1000,
            frac_digits == 0 ==> frac == 0,
            frac_digits == 1 ==> frac < 10,
            frac_digits == 2 ==> frac < 100,
            whole <= fin.whole,
            fin == decimal_read(
                rest@,
                j as int,
                DecimalRead {
                    whole: whole as int,
                    frac: frac as int,
                    digits: frac_digits as int,
                    in_frac: seen_dot,
                    any,
                },
            ),
        ensures
            fin == (DecimalRead {
                whole: whole as int,
                frac: frac as int,
                digits: frac_digits as int,
                in_frac: seen_dot,
                any,
            }),
            0 <= frac_digits <= 3,
            frac < 1000,
            frac_digits == 0 ==> frac == 0,
            frac_digits == 1 ==> frac < 10,
            frac_digits == 2 ==> frac < 100,
            whole * 1000 <= u32::MAX,
        decreases rest.len() - j,
    {
        let b = rest[j];
        if b == 44 || b == 125 || b == 93 || b == 32 || b == 10 {
            break;
        }
        if b == 46 {
            seen_dot = true;
            j = j + 1;
            continue;
        }
        if b < 48 || b > 57 {
            break;
        }
        any = true;
        let digit = (b - 48) as u32;
        if seen_dot {
            if frac_digits < 3 {
                frac = frac * 10 + digit;
                frac_digits = frac_digits + 1;
            }
        } else {
            proof {
                let next = DecimalRead {
                    whole: crate::followup::cap32(whole * 10 + digit),
                    frac: frac as int,
                    digits: frac_digits as int,
                    in_frac: seen_dot,
                    any: true,
                };
                lemma_read_grows(rest@, j + 1, next);
            }
            whole = whole * 10 + digit;
        }
        j = j + 1;
    }
    let f: u32 = if frac_digits == 0 {
        0
    } else if frac_digits == 1 {
        frac * 100
    } else if frac_digits == 2 {
        frac * 10
    } else {
        frac
    };
    assert(f as int == frac as int * pad3(frac_digits as int));
    Some(whole * 1000 + f)
}

/// The spelling of a score given in thousandths: the whole part, a point,
/// and the fraction without trailing zeros (at least one digit).
pub open spec fn score_text(m: nat) -> Seq<u8> {
    let f = m % 1000;
    let d0 = (f / 100) as u8;
    let d1 = ((f / 10) % 10) as u8;
    let d2 = (f % 10) as u8;
    decimal(m / 1000) + seq![46u8] + if f == 0 {
        seq![48u8]
    } else if d1 == 0 && d2 == 0 {
        seq![(48 + d0) as u8]
    } else if d2 == 0 {
        seq![(48 + d0) as u8, (48 + d1) as u8]
    } else {
        seq![(48 + d0) as u8, (48 + d1) as u8, (48 + d2) as u8]
    }
}

proof fn lemma_decimal_len(n: nat, k: nat)
    requires
        1 <= k,
        n < crate::pricing::pow10(k),
    ensures
        1 <= decimal(n).len() <= k,
    decreases n,
{
    if n >= 10 {
        if k == 1 {
            assert(crate::pricing::pow10(1) == 10) by {
                reveal_with_fuel(crate::pricing::pow10, 2);
            }
        } else {
            assert(crate::pricing::pow10(k) == 10 * crate::pricing::pow10((k - 1) as nat));
            lemma_decimal_len(n / 10, (k - 1) as nat);
        }
    }
}

/// Writes the score `millis` (in thousandths) at the start of `out`;
/// returns its length.
pub fn format_score_millis(out: &mut [u8], millis: u32) -> (r: usize)
    requires
        old(out)@.len() >= 16,
    ensures
        r == score_text(millis as nat).len(),
        final(out)@.take(r as int) == score_text(millis as nat),
        final(out)@.len() == old(out)@.len(),
{
    let whole = millis / 1000;
    let frac = millis % 1000;
    let digits = decimal_digits(whole as u64);
    proof {
        assert(crate::pricing::pow10(7) == 10_000_000) by {
            reveal_with_fuel(crate::pricing::pow10, 8);
        }
        lemma_decimal_len(whole as nat, 7);
    }
    let ghost text = score_text(millis as nat);
    let mut i: usize = 0;
    while i < digits.len()
        invariant
            i <= digits@.len(),
            digits@ == decimal(whole as nat),
            digits@.len() <= 7,
            out@.len() >= 16,
            out@.len() == old(out)@.len(),
            out@.take(i as int) == digits@.take(i as int),
        decreases digits.len() - i,
    {
        out[i] = digits[i];
        assert(out@.take(i as int + 1) =~= digits@.take(i as int + 1));
        i = i + 1;
    }
    assert(digits@.take(i as int) =~= digits@);
    out[i] = 46;
    i = i + 1;
    let ghost head = out@.take(i as int);
    assert(head =~= decimal(whole as nat) + seq![46u8]);
    if frac == 0 {
        out[i] = 48;
        i = i + 1;
        assert(out@.take(i as int) =~= text);
        return i;
    }
    let d0 = (frac / 100) as u8;
    let d1 = ((frac / 10) % 10) as u8;
    let d2 = (frac % 10) as u8;
    out[i] = 48 + d0;
    i = i + 1;
    if d1 != 0 || d2 != 0 {
        out[i] = 48 + d1;
        i = i + 1;
        if d2 != 0 {
            out[i] = 48 + d2;
            i = i + 1;
        }
    }
    assert(out@.take(i as int) =~= text);
    i
}

/// The least note length, as the configuration's integer becomes an
/// unsigned one (a negative value wraps around).
pub open spec fn min_note_of(config: Seq<u8>) -> int {
    let v = match extract_int_spec(config, "\"min_note_length\"".spec_bytes()) {
        Some(v) => v,
        None => 8,
    };
    if v >= 0 { v } else { v + 0x1_0000_0000 }
}

/// `a - b`, held at 0.
pub open spec fn floor_sub(a: int, b: int) -> int {
    if a >= b { a - b } else { 0 }
}

/// The quality score in thousandths: 500, plus 200 for a note of the least
/// length, 100 more for one of three times that, 200 for evidence, minus
/// 300 for each gap, within 0 to 1000.
pub open spec fn quality_score(note_len: int, min_note: int, evidence: int, short_note: bool, evidence_gap: bool) -> int {
    let triple = if 3 * min_note > u32::MAX { u32::MAX as int } else { 3 * min_note };
    let s1: int = if note_len >= min_note { 700 } else { 500 };
    let s2 = if note_len >= triple { s1 + 100 } else { s1 };
    let s3 = if evidence > 0 { s2 + 200 } else { s2 };
    let s4 = if short_note { floor_sub(s3, 300) } else { s3 };
    let s5 = if evidence_gap { floor_sub(s4, 300) } else { s4 };
    if s5 > 1000 { 1000 } else { s5 }
}

/// The verdict. No gap passes. A gap of evidence under high pressure
/// asks for evidence; a brief completion text with no evidence at all is
/// rejected; any other gap asks for evidence.
pub open spec fn verdict_of(short_note: bool, evidence_gap: bool, missing_evidence: bool) -> Seq<u8> {
    if !short_note && !evidence_gap {
        "pass".spec_bytes()
    } else if evidence_gap {
        "needs_evidence".spec_bytes()
    } else if short_note && missing_evidence {
        "fail".spec_bytes()
    } else {
        "needs_evidence".spec_bytes()
    }
}

/// The chunks of the gap list.
pub open spec fn gap_chunks(short_note: bool, evidence_gap: bool) -> Seq<Seq<u8>> {
    (if short_note {
        seq!["\"".spec_bytes(), "short_note".spec_bytes(), "\"".spec_bytes()]
    } else {
        Seq::empty()
    }) + (if evidence_gap {
        (if short_note { seq![",".spec_bytes()] } else { Seq::empty() }) + seq![
            "\"".spec_bytes(),
            "missing_evidence".spec_bytes(),
            "\"".spec_bytes(),
        ]
    } else {
        Seq::empty()
    })
}

/// The chunks of a refusal.
pub open spec fn fail_chunks(code: Seq<u8>, item_id: Seq<u8>) -> Seq<Seq<u8>> {
    seq!["{\"item_id\":\"".spec_bytes()] + escaped_chunks(item_id) + seq![
        "\",\"quality_score\":0,\"verdict\":\"fail\",\"gaps\":[],\"reason_code\":\"".spec_bytes(),
        code,
        "\",\"evaluation_trace\":[]}".spec_bytes(),
    ]
}

/// Writes a refusal with reason `code`; returns its length.
pub fn fail(out: &mut [u8], code: &[u8], item_id: &[u8]) -> (r: usize)
    ensures
        holds_greedy(final(out)@, r as int, fail_chunks(code@, item_id@)),
        final(out)@.len() == old(out)@.len(),
{
    let ghost o = out@;
    let ghost c0 = Seq::<Seq<u8>>::empty();
    let mut i = put_chunk(out, 0, "{\"item_id\":\"".as_bytes(), Ghost(o), Ghost(c0));
    let ghost c1 = c0 + seq!["{\"item_id\":\"".spec_bytes()];
    i = put_escaped(out, i, item_id, Ghost(o), Ghost(c1));
    let ghost c2 = c1 + escaped_chunks(item_id@);
    i = put_chunk(
        out,
        i,
        "\",\"quality_score\":0,\"verdict\":\"fail\",\"gaps\":[],\"reason_code\":\"".as_bytes(),
        Ghost(o),
        Ghost(c2),
    );
    let ghost c3 = c2 + seq!["\",\"quality_score\":0,\"verdict\":\"fail\",\"gaps\":[],\"reason_code\":\"".spec_bytes()];
    i = put_chunk(out, i, code, Ghost(o), Ghost(c3));
    let ghost c4 = c3 + seq![code@];
    i = put_chunk(out, i, "\",\"evaluation_trace\":[]}".as_bytes(), Ghost(o), Ghost(c4));
    proof {
        let c5 = c4 + seq!["\",\"evaluation_trace\":[]}".spec_bytes()];
        assert(c5 =~= fail_chunks(code@, item_id@));
        lemma_run_holds(o, out@, i as int, c5);
    }
    i
}

/// The measures a scored item rests on.
pub ghost struct Measures {
    pub note_len: int,
    pub evidence: int,
    pub high_pressure: bool,
    pub require_evidence: bool,
    pub min_note: int,
}

/// The item object of the request, empty when missing.
pub open spec fn item_of(input: Seq<u8>) -> Seq<u8> {
    match bracketed_at_depth_spec(input, "\"item\"".spec_bytes(), 1, 123u8, 125u8) {
        Some(o) => o,
        None => Seq::empty(),
    }
}

/// The quality config object of the request, empty when missing.
pub open spec fn config_of(input: Seq<u8>) -> Seq<u8> {
    match bracketed_at_depth_spec(input, "\"quality_config\"".spec_bytes(), 1, 123u8, 125u8) {
        Some(o) => o,
        None => Seq::empty(),
    }
}

/// The measures of a request's item under its config.
pub open spec fn measures(item: Seq<u8>, config: Seq<u8>) -> Measures {
    let evidence = match bracketed_at_depth_spec(item, "\"evidence_refs\"".spec_bytes(), 1, 91u8, 93u8) {
        Some(a) => string_count(a) as int,
        None => 0,
    };
    let pressure = match millis_field(item, "\"pressure_score\"".spec_bytes()) { Some(v) => v, None => 0 };
    let threshold = match millis_field(config, "\"high_pressure_threshold\"".spec_bytes()) { Some(v) => v, None => 700 };
    Measures {
        note_len: extract_string_spec(item, "\"completion_note\"".spec_bytes()).len() as int,
        evidence,
        high_pressure: pressure >= threshold,
        require_evidence: match crate::scan::extract_bool_spec(
            config,
            "\"require_evidence_when_high_pressure\"".spec_bytes(),
        ) {
            Some(b) => b,
            None => true,
        },
        min_note: min_note_of(config),
    }
}

/// The request gets scored: item and config are there, the item has an
/// id and is done or completed.
pub open spec fn scored(input: Seq<u8>) -> bool {
    let item = item_of(input);
    let status = extract_string_spec(item, "\"status\"".spec_bytes());
    &&& bracketed_at_depth_spec(input, "\"item\"".spec_bytes(), 1, 123u8, 125u8) is Some
    &&& bracketed_at_depth_spec(input, "\"quality_config\"".spec_bytes(), 1, 123u8, 125u8) is Some
    &&& extract_string_spec(item, "\"id\"".spec_bytes()).len() > 0
    &&& (status == "done".spec_bytes() || status == "completed".spec_bytes())
}

/// The numbers of a scored request fit the readers, which do not check for
/// overflow.
pub open spec fn numbers_fit(input: Seq<u8>) -> bool {
    scored(input) ==> {
        &&& millis_fits(item_of(input), "\"pressure_score\"".spec_bytes())
        &&& millis_fits(config_of(input), "\"high_pressure_threshold\"".spec_bytes())
        &&& int_value_fits_i32(config_of(input), "\"min_note_length\"".spec_bytes())
    }
}

/// The chunks of the response to `input`.
pub open spec fn quality_chunks(input: Seq<u8>) -> Seq<Seq<u8>> {
    let item = item_of(input);
    let id = extract_string_spec(item, "\"id\"".spec_bytes());
    let status = extract_string_spec(item, "\"status\"".spec_bytes());
    if bracketed_at_depth_spec(input, "\"item\"".spec_bytes(), 1, 123u8, 125u8) is None
        || bracketed_at_depth_spec(input, "\"quality_config\"".spec_bytes(), 1, 123u8, 125u8) is None
        || id.len() == 0 {
        fail_chunks("invalid_input".spec_bytes(), Seq::empty())
    } else if status != "done".spec_bytes() && status != "completed".spec_bytes() {
        fail_chunks("invalid_status".spec_bytes(), id)
    } else {
        let m = measures(item, config_of(input));
        let short_note = m.note_len < m.min_note;
        let missing = m.evidence == 0;
        let gap = m.high_pressure && m.require_evidence && missing;
        let score = quality_score(m.note_len, m.min_note, m.evidence, short_note, gap);
        seq!["{\"item_id\":\"".spec_bytes()] + escaped_chunks(id) + seq![
            "\",\"quality_score\":".spec_bytes(),
            score_text(score as nat),
            ",\"verdict\":\"".spec_bytes(),
            verdict_of(short_note, gap, missing),
            "\",\"gaps\":[".spec_bytes(),
        ] + gap_chunks(short_note, gap) + seq![
            "],\"reason_code\":\"ok\",\"evaluation_trace\":[\"high_pressure=".spec_bytes(),
            if m.high_pressure { "true".spec_bytes() } else { "false".spec_bytes() },
            "\",\"evidence=".spec_bytes(),
        ] + signed_chunks(m.evidence) + seq!["\",\"note_len=".spec_bytes()] + signed_chunks(m.note_len) + seq![
            "\"]}".spec_bytes(),
        ]
    }
}

proof fn lemma_quality_keys()
    ensures
        "\"item\"".spec_bytes().len() > 0,
        "\"quality_config\"".spec_bytes().len() > 0,
        "\"id\"".spec_bytes().len() > 0,
        "\"status\"".spec_bytes().len() > 0,
        "\"completion_note\"".spec_bytes().len() > 0,
        "\"evidence_refs\"".spec_bytes().len() > 0,
        "\"pressure_score\"".spec_bytes().len() > 0,
        "\"high_pressure_threshold\"".spec_bytes().len() > 0,
        "\"require_evidence_when_high_pressure\"".spec_bytes().len() > 0,
        "\"min_note_length\"".spec_bytes().len() > 0,
{
    broadcast use vstd::string::group_string_axioms;
    reveal_strlit("\"item\"");
    reveal_strlit("\"quality_config\"");
    reveal_strlit("\"id\"");
    reveal_strlit("\"status\"");
    reveal_strlit("\"completion_note\"");
    reveal_strlit("\"evidence_refs\"");
    reveal_strlit("\"pressure_score\"");
    reveal_strlit("\"high_pressure_threshold\"");
    reveal_strlit("\"require_evidence_when_high_pressure\"");
    reveal_strlit("\"min_note_length\"");
    assert(vstd::string::is_ascii("\"item\""));
    assert(vstd::string::is_ascii("\"quality_config\""));
    assert(vstd::string::is_ascii("\"id\""));
    assert(vstd::string::is_ascii("\"status\""));
    assert(vstd::string::is_ascii("\"completion_note\""));
    assert(vstd::string::is_ascii("\"evidence_refs\""));
    assert(vstd::string::is_ascii("\"pressure_score\""));
    assert(vstd::string::is_ascii("\"high_pressure_threshold\""));
    assert(vstd::string::is_ascii("\"require_evidence_when_high_pressure\""));
    assert(vstd::string::is_ascii("\"min_note_length\""));
}

/// Reads the measures of a scored request.
#[verifier::spinoff_prover]
fn read_measures(item: &[u8], config: &[u8]) -> (r: (u32, u32, bool, bool, u32))
    requires
        scannable(item@),
        scannable(config@),
        millis_fits(item@, "\"pressure_score\"".spec_bytes()),
        millis_fits(config@, "\"high_pressure_threshold\"".spec_bytes()),
        int_value_fits_i32(config@, "\"min_note_length\"".spec_bytes()),
    ensures
        ({
            let m = measures(item@, config@);
            &&& r.0 as int == m.note_len
            &&& r.1 as int == m.evidence
            &&& r.2 == m.high_pressure
            &&& r.3 == m.require_evidence
            &&& r.4 as int == m.min_note
        }),
{
    proof {
        lemma_quality_keys();
    }
    let note = crate::scan::extract_string(item, "\"completion_note\"".as_bytes());
    let note_len = note.len() as u32;
    let evidence_count = match crate::scan::array_after_key_at_depth(item, "\"evidence_refs\"".as_bytes(), 1) {
        Some(a) => count_array_strings(a),
        None => 0,
    };
    let pressure_millis = match parse_number_millis(item, "\"pressure_score\"".as_bytes()) {
        Some(v) => v,
        None => 0,
    };
    let high_thresh = match parse_number_millis(config, "\"high_pressure_threshold\"".as_bytes()) {
        Some(v) => v,
        None => 700,
    };
    let require_ev = match crate::scan::extract_bool(config, "\"require_evidence_when_high_pressure\"".as_bytes()) {
        Some(b) => b,
        None => true,
    };
    let min_i = match crate::scan::extract_i32(config, "\"min_note_length\"".as_bytes()) {
        Some(v) => v,
        None => 8,
    };
    let min_note: u32 = if min_i >= 0 { min_i as u32 } else { (min_i as i64 + 0x1_0000_0000) as u32 };
    let ghost m = measures(item@, config@);
    assert(note_len as int == m.note_len);
    assert(evidence_count as int == m.evidence);
    assert((pressure_millis >= high_thresh) == m.high_pressure);
    assert(require_ev == m.require_evidence);
    assert(min_note as int == m.min_note);
    (note_len, evidence_count, pressure_millis >= high_thresh, require_ev, min_note)
}

/// Scores how well the finished item of `input` is documented and writes
/// the response document to `out`; returns its length.
#[verifier::spinoff_prover]
#[verifier::rlimit(60)]
pub fn evaluate(input: &[u8], out: &mut [u8]) -> (r: usize)
    requires
        scannable(input@),
        numbers_fit(input@),
    ensures
        holds_greedy(final(out)@, r as int, quality_chunks(input@)),
        final(out)@.len() == old(out)@.len(),
{
    proof {
        lemma_quality_keys();
    }
    let empty: &[u8] = &input[0..0];
    assert(empty@ =~= Seq::<u8>::empty());
    let item = match crate::scan::object_after_key_at_depth(input, "\"item\"".as_bytes(), 1) {
        Some(o) => o,
        None => return fail(out, "invalid_input".as_bytes(), empty),
    };
    let config = match crate::scan::object_after_key_at_depth(input, "\"quality_config\"".as_bytes(), 1) {
        Some(o) => o,
        None => return fail(out, "invalid_input".as_bytes(), empty),
    };
    let item_id = crate::scan::extract_string(item, "\"id\"".as_bytes());
    let status = crate::scan::extract_string(item, "\"status\"".as_bytes());
    if item_id.len() == 0 {
        return fail(out, "invalid_input".as_bytes(), empty);
    }
    if !crate::scan::bytes_eq(status, "done".as_bytes()) && !crate::scan::bytes_eq(status, "completed".as_bytes()) {
        return fail(out, "invalid_status".as_bytes(), item_id);
    }
    let (note_len, evidence_count, high_pressure, require_ev, min_note) = read_measures(item, config);
    let short_note = note_len < min_note;
    let missing_evidence = evidence_count == 0;
    let gap = high_pressure && require_ev && missing_evidence;
    let mut score: u32 = 500;
    if note_len >= min_note {
        score = score + 200;
    }
    let triple: u32 = match min_note.checked_mul(3) {
        Some(t) => t,
        None => u32::MAX,
    };
    if note_len >= triple {
        score = score + 100;
    }
    if evidence_count > 0 {
        score = score + 200;
    }
    if short_note {
        score = if score >= 300 { score - 300 } else { 0 };
    }
    if gap {
        score = if score >= 300 { score - 300 } else { 0 };
    }
    if score > 1000 {
        score = 1000;
    }
    let ghost m = measures(item@, config@);
    assert(score as int == quality_score(m.note_len, m.min_note, m.evidence, short_note, gap));
    let verdict: &[u8] = if !short_note && !gap {
        "pass".as_bytes()
    } else if gap {
        "needs_evidence".as_bytes()
    } else if short_note && missing_evidence {
        "fail".as_bytes()
    } else {
        "needs_evidence".as_bytes()
    };
    let mut score_buf = [0u8; 16];
    let score_len = format_score_millis(&mut score_buf, score);
    let sb = score_buf.as_slice();
    let score_text_bytes = &sb[0..score_len];
    assert(score_text_bytes@ =~= score_text(score as nat));
    write_scored(out, item_id, score_text_bytes, verdict, short_note, gap, high_pressure, evidence_count, note_len)
}

/// Writes the response for a scored item; returns its length.
#[verifier::spinoff_prover]
#[verifier::rlimit(40)]
fn write_scored(
    out: &mut [u8],
    item_id: &[u8],
    score: &[u8],
    verdict: &[u8],
    short_note: bool,
    gap: bool,
    high_pressure: bool,
    evidence: u32,
    note_len: u32,
) -> (r: usize)
    ensures
        holds_greedy(
            final(out)@,
            r as int,
            seq!["{\"item_id\":\"".spec_bytes()] + escaped_chunks(item_id@) + seq![
                "\",\"quality_score\":".spec_bytes(),
                score@,
                ",\"verdict\":\"".spec_bytes(),
                verdict@,
                "\",\"gaps\":[".spec_bytes(),
            ] + gap_chunks(short_note, gap) + seq![
                "],\"reason_code\":\"ok\",\"evaluation_trace\":[\"high_pressure=".spec_bytes(),
                if high_pressure { "true".spec_bytes() } else { "false".spec_bytes() },
                "\",\"evidence=".spec_bytes(),
            ] + signed_chunks(evidence as int) + seq!["\",\"note_len=".spec_bytes()] + signed_chunks(note_len as int)
                + seq!["\"]}".spec_bytes()],
        ),
        final(out)@.len() == old(out)@.len(),
{
    let ghost o = out@;
    let ghost mut c = Seq::<Seq<u8>>::empty();
    let mut i = put_chunk(out, 0, "{\"item_id\":\"".as_bytes(), Ghost(o), Ghost(c));
    proof { c = c + seq!["{\"item_id\":\"".spec_bytes()]; }
    i = put_escaped(out, i, item_id, Ghost(o), Ghost(c));
    proof { c = c + escaped_chunks(item_id@); }
    i = put_chunk(out, i, "\",\"quality_score\":".as_bytes(), Ghost(o), Ghost(c));
    proof { c = c + seq!["\",\"quality_score\":".spec_bytes()]; }
    i = put_chunk(out, i, score, Ghost(o), Ghost(c));
    proof { c = c + seq![score@]; }
    i = put_chunk(out, i, ",\"verdict\":\"".as_bytes(), Ghost(o), Ghost(c));
    proof { c = c + seq![",\"verdict\":\"".spec_bytes()]; }
    i = put_chunk(out, i, verdict, Ghost(o), Ghost(c));
    proof { c = c + seq![verdict@]; }
    i = put_chunk(out, i, "\",\"gaps\":[".as_bytes(), Ghost(o), Ghost(c));
    proof { c = c + seq!["\",\"gaps\":[".spec_bytes()]; }
    let ghost before = c;
    if short_note {
        i = put_chunk(out, i, "\"".as_bytes(), Ghost(o), Ghost(c));
        proof { c = c + seq!["\"".spec_bytes()]; }
        i = put_chunk(out, i, "short_note".as_bytes(), Ghost(o), Ghost(c));
        proof { c = c + seq!["short_note".spec_bytes()]; }
        i = put_chunk(out, i, "\"".as_bytes(), Ghost(o), Ghost(c));
        proof { c = c + seq!["\"".spec_bytes()]; }
    }
    if gap {
        if short_note {
            i = put_chunk(out, i, ",".as_bytes(), Ghost(o), Ghost(c));
            proof { c = c + seq![",".spec_bytes()]; }
        }
        i = put_chunk(out, i, "\"".as_bytes(), Ghost(o), Ghost(c));
        proof { c = c + seq!["\"".spec_bytes()]; }
        i = put_chunk(out, i, "missing_evidence".as_bytes(), Ghost(o), Ghost(c));
        proof { c = c + seq!["missing_evidence".spec_bytes()]; }
        i = put_chunk(out, i, "\"".as_bytes(), Ghost(o), Ghost(c));
        proof { c = c + seq!["\"".spec_bytes()]; }
    }
    assert(c =~= before + gap_chunks(short_note, gap));
    i = put_chunk(out, i, "],\"reason_code\":\"ok\",\"evaluation_trace\":[\"high_pressure=".as_bytes(), Ghost(o), Ghost(c));
    proof { c = c + seq!["],\"reason_code\":\"ok\",\"evaluation_trace\":[\"high_pressure=".spec_bytes()]; }
    let tf = if high_pressure { "true".as_bytes() } else { "false".as_bytes() };
    i = put_chunk(out, i, tf, Ghost(o), Ghost(c));
    proof { c = c + seq![tf@]; }
    i = put_chunk(out, i, "\",\"evidence=".as_bytes(), Ghost(o), Ghost(c));
    proof {
        c = c + seq!["\",\"evidence=".spec_bytes()];
        lemma_copies_concat(o, 0, c, signed_chunks(evidence as int));
    }
    i = write_usize(out, i, evidence as usize);
    proof { c = c + signed_chunks(evidence as int); }
    i = put_chunk(out, i, "\",\"note_len=".as_bytes(), Ghost(o), Ghost(c));
    proof {
        c = c + seq!["\",\"note_len=".spec_bytes()];
        lemma_copies_concat(o, 0, c, signed_chunks(note_len as int));
    }
    i = write_usize(out, i, note_len as usize);
    proof { c = c + signed_chunks(note_len as int); }
    i = put_chunk(out, i, "\"]}".as_bytes(), Ghost(o), Ghost(c));
    proof {
        c = c + seq!["\"]}".spec_bytes()];
        let expected = seq!["{\"item_id\":\"".spec_bytes()] + escaped_chunks(item_id@) + seq![
            "\",\"quality_score\":".spec_bytes(),
            score@,
            ",\"verdict\":\"".spec_bytes(),
            verdict@,
            "\",\"gaps\":[".spec_bytes(),
        ] + gap_chunks(short_note, gap) + seq![
            "],\"reason_code\":\"ok\",\"evaluation_trace\":[\"high_pressure=".spec_bytes(),
            if high_pressure { "true".spec_bytes() } else { "false".spec_bytes() },
            "\",\"evidence=".spec_bytes(),
        ] + signed_chunks(evidence as int) + seq!["\",\"note_len=".spec_bytes()] + signed_chunks(note_len as int)
            + seq!["\"]}".spec_bytes()];
        assert(c =~= expected);
        lemma_run_holds(o, out@, i as int, c);
    }
    i
}

/// Whether the number at `key` fits a `u32` in thousandths (what
/// `parse_number_millis` needs).
pub fn millis_fit(hay: &[u8], key: &[u8]) -> (r: bool)
    requires
        key@.len() > 0,
    ensures
        r == millis_fits(hay@, key@),
{
    let rest = match crate::scan::value_after_key(hay, key) {
        Some(r) => r,
        None => return true,
    };
    if rest.len() == 0 {
        return true;
    }
    let ghost init = DecimalRead { whole: 0, frac: 0, digits: 0, in_frac: false, any: false };
    let ghost fin = decimal_read(rest@, 0, init);
    let mut whole: u64 = 0;
    let mut frac: u64 = 0;
    let mut frac_digits: u64 = 0;
    let mut seen_dot = false;
    let mut any = false;
    let mut j: usize = 0;
    while j < rest.len()
        invariant
            j <= rest@.len(),
            fin == decimal_read(rest@, 0, init),
            0 <= frac_digits <= 3,
            frac < 1000,
            frac_digits == 0 ==> frac == 0,
            frac_digits == 1 ==> frac < 10,
            frac_digits == 2 ==> frac < 100,
            whole <= i32::MAX,
            fin == decimal_read(
                rest@,
                j as int,
                DecimalRead {
                    whole: whole as int,
                    frac: frac as int,
                    digits: frac_digits as int,
                    in_frac: seen_dot,
                    any,
                },
            ),
        ensures
            fin == (DecimalRead {
                whole: whole as int,
                frac: frac as int,
                digits: frac_digits as int,
                in_frac: seen_dot,
                any,
            }),
            0 <= frac_digits <= 3,
            frac < 1000,
            frac_digits == 0 ==> frac == 0,
            frac_digits == 1 ==> frac < 10,
            frac_digits == 2 ==> frac < 100,
            whole <= i32::MAX,
        decreases rest.len() - j,
    {
        let b = rest[j];
        if b == 46 {
            seen_dot = true;
            j = j + 1;
            continue;
        }
        if b < 48 || b > 57 {
            break;
        }
        any = true;
        let digit = (b - 48) as u64;
        if seen_dot {
            if frac_digits < 3 {
                frac = frac * 10 + digit;
                frac_digits = frac_digits + 1;
            }
        } else {
            let w = whole * 10 + digit;
            whole = if w > 0x7fff_ffff { 0x7fff_ffff } else { w };
        }
        j = j + 1;
    }
    let f: u64 = if frac_digits == 0 {
        0
    } else if frac_digits == 1 {
        frac * 100
    } else if frac_digits == 2 {
        frac * 10
    } else {
        frac
    };
    assert(f as int == frac as int * pad3(frac_digits as int));
    whole * 1000 + f <= 0xffff_ffff
}

/// Whether the numbers of the request fit the readers (what `evaluate`
/// needs).
pub fn numbers_fit_check(input: &[u8]) -> (r: bool)
    requires
        scannable(input@),
    ensures
        r == numbers_fit(input@),
{
    proof {
        lemma_quality_keys();
    }
    let item = match crate::scan::object_after_key_at_depth(input, "\"item\"".as_bytes(), 1) {
        Some(o) => o,
        None => return true,
    };
    let config = match crate::scan::object_after_key_at_depth(input, "\"quality_config\"".as_bytes(), 1) {
        Some(o) => o,
        None => return true,
    };
    let item_id = crate::scan::extract_string(item, "\"id\"".as_bytes());
    let status = crate::scan::extract_string(item, "\"status\"".as_bytes());
    if item_id.len() == 0 {
        return true;
    }
    if !crate::scan::bytes_eq(status, "done".as_bytes()) && !crate::scan::bytes_eq(status, "completed".as_bytes()) {
        return true;
    }
    millis_fit(item, "\"pressure_score\"".as_bytes()) && millis_fit(config, "\"high_pressure_threshold\"".as_bytes())
        && crate::scan::int_fits_i32(config, "\"min_note_length\"".as_bytes())
}

} // verus!
