//! Follow-up selection: which open action items get a nudge now, at what
//! intensity, and which are held back (snoozed, quiet hours, budget, low
//! pressure).
use vstd::prelude::*;
use vstd::string::StringSliceAdditionalSpecFns;
use crate::emit::{
    byte_chunks, copies, copy_next, decimal, decimal_digits, escaped_chunks, greedy, holds_greedy, lemma_greedy_len, lemma_run_holds, put_chunk, put_escaped, put_signed,
    signed_chunks,
};
use crate::scan::{
    balanced_spec, bracketed_after_key_spec, extract_string_spec, scannable, ws_comma_len, digit_run, digits_value, has_prefix, index_of, is_digit, lemma_digit_run, string_body_spec, value_after_key_spec,
};

verus! {

/// The most items evaluated per request.
pub const MAX_ITEMS: usize = 16;

/// `n` held at `i32::MAX`.
pub open spec fn cap32(n: int) -> int {
    if n > i32::MAX { i32::MAX as int } else { n }
}

/// The integer literal that opens `rest`: an optional minus, then at least
/// one digit; the magnitude is held at `i32::MAX`.
pub open spec fn sat_int_spec(rest: Seq<u8>) -> Option<int> {
    let j: int = if rest.len() > 0 && rest[0] == 45u8 { 1 } else { 0 };
    let tail = rest.skip(j);
    let run = digit_run(tail) as int;
    if run == 0 {
        None
    } else {
        let m = cap32(digits_value(tail.take(run)) as int);
        Some(if j == 1 { -m } else { m })
    }
}

/// The integer after the first occurrence of `key` in `hay`.
#[verifier::opaque]
pub open spec fn int_field(hay: Seq<u8>, key: Seq<u8>) -> Option<int> {
    match value_after_key_spec(hay, key) {
        Some(rest) => sat_int_spec(rest),
        None => None,
    }
}

/// The state of a decimal read: the whole part (held at `i32::MAX`), the
/// first three fraction digits and how many there were, whether a point was
/// seen, and whether any digit was.
pub ghost struct DecimalRead {
    pub whole: int,
    pub frac: int,
    pub digits: int,
    pub in_frac: bool,
    pub any: bool,
}

/// The read of the bytes of `s` from `i` on: points switch to the fraction,
/// digits accumulate, and any other byte ends it.
pub open spec fn decimal_read(s: Seq<u8>, i: int, st: DecimalRead) -> DecimalRead
    decreases s.len() - i,
{
    if i < 0 || i >= s.len() {
        st
    } else if s[i] == 46u8 {
        decimal_read(s, i + 1, DecimalRead { in_frac: true, ..st })
    } else if !is_digit(s[i]) {
        st
    } else {
        let d = (s[i] - 48) as int;
        if st.in_frac {
            if st.digits < 3 {
                decimal_read(s, i + 1, DecimalRead { frac: st.frac * 10 + d, digits: st.digits + 1, any: true, ..st })
            } else {
                decimal_read(s, i + 1, DecimalRead { any: true, ..st })
            }
        } else {
            decimal_read(s, i + 1, DecimalRead { whole: cap32(st.whole * 10 + d), any: true, ..st })
        }
    }
}

/// Ten to the power of `n`, for a fraction of at most three digits.
pub open spec fn pad3(digits: int) -> int {
    if digits <= 0 { 1000 } else if digits == 1 { 100 } else if digits == 2 { 10 } else { 1 }
}

/// The decimal number that opens `rest` in thousandths: an optional minus,
/// digits with an optional point, at least one digit; the value is held at
/// `i32::MAX` thousandths and fraction digits past the third are dropped.
pub open spec fn scaled_spec(rest: Seq<u8>) -> Option<int> {
    let neg = rest.len() > 0 && rest[0] == 45u8;
    let body = if neg { rest.skip(1) } else { rest };
    let st = decimal_read(body, 0, DecimalRead { whole: 0, frac: 0, digits: 0, in_frac: false, any: false });
    if !st.any {
        None
    } else {
        let scaled = cap32(st.whole * 1000 + st.frac * pad3(st.digits));
        Some(if neg { -scaled } else { scaled })
    }
}

/// The decimal number, in thousandths, after the first occurrence of `key`.
#[verifier::opaque]
pub open spec fn scaled_field(hay: Seq<u8>, key: Seq<u8>) -> Option<int> {
    match value_after_key_spec(hay, key) {
        Some(rest) => scaled_spec(rest),
        None => None,
    }
}

/// The string after the first occurrence of `key`, empty when it is
/// `null`, missing or not a terminated string.
#[verifier::opaque]
pub open spec fn optional_string_spec(hay: Seq<u8>, key: Seq<u8>) -> Seq<u8> {
    match value_after_key_spec(hay, key) {
        Some(rest) => if has_prefix(rest, "null".spec_bytes()) {
            Seq::empty()
        } else {
            string_body_spec(rest)
        },
        None => Seq::empty(),
    }
}

/// Byte strings in lexicographic order: the first differing byte decides,
/// and a proper prefix comes first.
#[verifier::opaque]
pub open spec fn lex_less(a: Seq<u8>, b: Seq<u8>) -> bool
    decreases a.len(),
{
    if a.len() == 0 {
        b.len() > 0
    } else if b.len() == 0 {
        false
    } else if a[0] != b[0] {
        a[0] < b[0]
    } else {
        lex_less(a.drop_first(), b.drop_first())
    }
}

/// The hour that two leading digits spell, or 0.
pub open spec fn two_digit_hour(s: Seq<u8>) -> int {
    if s.len() >= 2 && is_digit(s[0]) && is_digit(s[1]) {
        (s[0] - 48) * 10 + (s[1] - 48)
    } else {
        0
    }
}

/// The hour of a date-time: the two digits after its first `T`, or 0.
pub open spec fn ref_hour(dt: Seq<u8>) -> int {
    match index_of(dt, 84u8) {
        Some(t) => two_digit_hour(dt.skip(t + 1)),
        None => 0,
    }
}

/// Whether `hour` falls in the quiet window from `start` to `end` (which
/// may wrap past midnight).
pub open spec fn quiet_window(hour: int, start: int, end: int) -> bool {
    if start <= end {
        hour >= start && hour < end
    } else {
        hour >= start || hour < end
    }
}

/// Reads the integer that opens `rest`, its magnitude held at `i32::MAX`.
fn parse_sat_i32(rest: &[u8]) -> (r: Option<i32>)
    ensures
        match sat_int_spec(rest@) {
            Some(v) => r == Some(v as i32) && i32::MIN < v <= i32::MAX,
            None => r is None,
        },
{
    let mut j: usize = 0;
    let neg = rest.len() > 0 && rest[0] == 45;
    if neg {
        j = 1;
    }
    let ghost tail = rest@.skip(j as int);
    proof {
        lemma_digit_run(tail);
        assert(tail.take(0) =~= Seq::<u8>::empty());
    }
    let ghost run = digit_run(tail) as int;
    let start = j;
    let mut v: i32 = 0;
    while j < rest.len() && 48 <= rest[j] && rest[j] <= 57
        invariant
            start <= j <= rest@.len(),
            tail == rest@.skip(start as int),
            run == digit_run(tail),
            run <= tail.len(),
            forall|i: int| 0 <= i < run ==> is_digit(#[trigger] tail[i]),
            run < tail.len() ==> !is_digit(tail[run]),
            j - start <= run,
            v >= 0,
            v as int == cap32(digits_value(tail.take(j - start)) as int),
        decreases rest@.len() - j,
    {
        proof {
            if j - start == run {
                assert(tail[run] == rest@[j as int]);
            }
            let k = (j - start + 1) as int;
            assert(tail.take(k).drop_last() =~= tail.take(k - 1));
            assert(tail.take(k).last() == rest@[j as int]);
        }
        let d = (rest[j] - 48) as i32;
        v = match v.checked_mul(10) {
            Some(p) => match p.checked_add(d) {
                Some(q) => q,
                None => i32::MAX,
            },
            None => i32::MAX,
        };
        j = j + 1;
    }
    proof {
        if j - start < run {
            assert(tail[j - start] == rest@[j as int]);
        }
    }
    if j == start {
        return None;
    }
    Some(if neg { -v } else { v })
}

/// The integer after the first occurrence of `key` in `hay`, its magnitude
/// held at `i32::MAX`.
pub fn extract_i32(hay: &[u8], key: &[u8]) -> (r: Option<i32>)
    requires
        key@.len() > 0,
    ensures
        match int_field(hay@, key@) {
            Some(v) => r == Some(v as i32) && i32::MIN < v <= i32::MAX,
            None => r is None,
        },
{
    proof {
        reveal(int_field);
    }
    match crate::scan::value_after_key(hay, key) {
        Some(rest) => parse_sat_i32(rest),
        None => None,
    }
}

/// Reads the decimal number that opens `rest` in thousandths.
fn parse_scaled_i32(rest: &[u8]) -> (r: Option<i32>)
    ensures
        match scaled_spec(rest@) {
            Some(v) => r == Some(v as i32) && i32::MIN < v <= i32::MAX,
            None => r is None,
        },
{
    let neg = rest.len() > 0 && rest[0] == 45;
    let body = if neg { &rest[1..rest.len()] } else { rest };
    assert(body@ =~= (if neg { rest@.skip(1) } else { rest@ }));
    let ghost init = DecimalRead { whole: 0, frac: 0, digits: 0, in_frac: false, any: false };
    let mut whole: i32 = 0;
    let mut frac: i32 = 0;
    let mut frac_digits: i32 = 0;
    let mut in_frac = false;
    let mut any = false;
    let mut i: usize = 0;
    while i < body.len()
        invariant
            i <= body@.len(),
            0 <= whole,
            0 <= frac_digits <= 3,
            0 <= frac < 1000,
            frac_digits == 0 ==> frac == 0,
            frac_digits == 1 ==> frac < 10,
            frac_digits == 2 ==> frac < 100,
            decimal_read(body@, 0, init) == decimal_read(
                body@,
                i as int,
                DecimalRead { whole: whole as int, frac: frac as int, digits: frac_digits as int, in_frac, any },
            ),
        ensures
            decimal_read(body@, 0, init) == (DecimalRead {
                whole: whole as int,
                frac: frac as int,
                digits: frac_digits as int,
                in_frac,
                any,
            }),
            0 <= whole,
            0 <= frac_digits <= 3,
            0 <= frac < 1000,
            frac_digits == 0 ==> frac == 0,
            frac_digits == 1 ==> frac < 10,
            frac_digits == 2 ==> frac < 100,
        decreases body.len() - i,
    {
        let b = body[i];
        if b == 46 {
            in_frac = true;
            i = i + 1;
            continue;
        }
        if b < 48 || b > 57 {
            break;
        }
        any = true;
        let d = (b - 48) as i32;
        if in_frac {
            if frac_digits < 3 {
                frac = frac * 10 + d;
                frac_digits = frac_digits + 1;
            }
        } else {
            whole = match whole.checked_mul(10) {
                Some(p) => match p.checked_add(d) {
                    Some(q) => q,
                    None => i32::MAX,
                },
                None => i32::MAX,
            };
        }
        i = i + 1;
    }
    if !any {
        return None;
    }
    let f: i32 = if frac_digits == 0 {
        0
    } else if frac_digits == 1 {
        frac * 100
    } else if frac_digits == 2 {
        frac * 10
    } else {
        frac
    };
    assert(f as int == frac as int * pad3(frac_digits as int));
    let scaled: i32 = match whole.checked_mul(1000) {
        Some(p) => match p.checked_add(f) {
            Some(q) => q,
            None => i32::MAX,
        },
        None => i32::MAX,
    };
    Some(if neg { -scaled } else { scaled })
}

/// The decimal number, in thousandths, after the first occurrence of `key`
/// in `hay`.
pub fn extract_number_scaled(hay: &[u8], key: &[u8]) -> (r: Option<i32>)
    requires
        key@.len() > 0,
    ensures
        match scaled_field(hay@, key@) {
            Some(v) => r == Some(v as i32) && i32::MIN < v <= i32::MAX,
            None => r is None,
        },
{
    proof {
        reveal(scaled_field);
    }
    match crate::scan::value_after_key(hay, key) {
        Some(rest) => parse_scaled_i32(rest),
        None => None,
    }
}

/// The string after the first occurrence of `key` in `hay`; empty when it
/// is `null`, missing or malformed.
pub fn extract_optional_string<'a>(hay: &'a [u8], key: &[u8]) -> (r: &'a [u8])
    requires
        key@.len() > 0,
    ensures
        r@ == optional_string_spec(hay@, key@),
{
    proof {
        reveal(optional_string_spec);
    }
    let empty = &hay[0..0];
    assert(empty@ =~= Seq::<u8>::empty());
    match crate::scan::value_after_key(hay, key) {
        Some(rest) => {
            if crate::scan::starts_with(rest, "null".as_bytes()) {
                empty
            } else {
                crate::scan::string_body(rest)
            }
        },
        None => empty,
    }
}

/// Whether `a` comes before `b` in lexicographic byte order.
pub fn lex_lt(a: &[u8], b: &[u8]) -> (r: bool)
    ensures
        r == lex_less(a@, b@),
{
    proof {
        reveal(lex_less);
    }
    let mut i: usize = 0;
    assert(a@.skip(0) =~= a@);
    assert(b@.skip(0) =~= b@);
    while i < a.len() && i < b.len()
        invariant
            i <= a@.len(),
            i <= b@.len(),
            lex_less(a@, b@) == lex_less(a@.skip(i as int), b@.skip(i as int)),
        decreases a.len() - i,
    {
        proof {
            reveal(lex_less);
        }
        assert(a@.skip(i as int)[0] == a@[i as int]);
        assert(b@.skip(i as int)[0] == b@[i as int]);
        if a[i] != b[i] {
            return a[i] < b[i];
        }
        assert(a@.skip(i as int).drop_first() =~= a@.skip(i as int + 1));
        assert(b@.skip(i as int).drop_first() =~= b@.skip(i as int + 1));
        i = i + 1;
    }
    i < b.len() && i == a.len()
}

/// The hour that the two leading digits of `s` spell, or 0.
pub fn parse_two_digit_hour(s: &[u8]) -> (r: i32)
    ensures
        r == two_digit_hour(s@),
{
    if s.len() < 2 {
        return 0;
    }
    let h0 = s[0];
    let h1 = s[1];
    if h0 < 48 || h0 > 57 || h1 < 48 || h1 > 57 {
        return 0;
    }
    (h0 - 48) as i32 * 10 + (h1 - 48) as i32
}

/// The hour of a date-time: the two digits after its first `T`, or 0.
pub fn parse_ref_hour(ref_dt: &[u8]) -> (r: i32)
    ensures
        r == ref_hour(ref_dt@),
{
    match crate::scan::index_of_byte(ref_dt, 84) {
        Some(t) => {
            let after = &ref_dt[t + 1..ref_dt.len()];
            assert(after@ =~= ref_dt@.skip(t + 1));
            parse_two_digit_hour(after)
        },
        None => 0,
    }
}

/// The hour of a `hh:mm` time.
pub fn parse_time_hour(time: &[u8]) -> (r: i32)
    ensures
        r == two_digit_hour(time@),
{
    parse_two_digit_hour(time)
}

/// The key under which the preferences of `owner` are filed: the owner id
/// in quotes, as much as fits 64 bytes.
pub open spec fn pref_key(owner: Seq<u8>) -> Seq<u8> {
    greedy(64, seq![seq![34u8], owner, seq![34u8]])
}

/// The preferences object of `owner`.
#[verifier::opaque]
pub open spec fn pref_object(prefs: Seq<u8>, owner: Seq<u8>) -> Option<Seq<u8>> {
    if prefs.len() == 0 || owner.len() == 0 {
        None
    } else {
        bracketed_after_key_spec(prefs, pref_key(owner), 123u8, 125u8)
    }
}

/// An integer preference of `owner`.
#[verifier::opaque]
pub open spec fn pref_int(prefs: Seq<u8>, owner: Seq<u8>, key: Seq<u8>) -> Option<int> {
    match pref_object(prefs, owner) {
        Some(o) => int_field(o, key),
        None => None,
    }
}

/// Whether the reference time falls inside the quiet hours object `qh`.
pub open spec fn quiet_now(ref_dt: Seq<u8>, qh: Seq<u8>) -> bool {
    quiet_window(
        ref_hour(ref_dt),
        two_digit_hour(extract_string_spec(qh, "\"start\"".spec_bytes())),
        two_digit_hour(extract_string_spec(qh, "\"end\"".spec_bytes())),
    )
}

proof fn lemma_pref_key_len(owner: Seq<u8>)
    ensures
        pref_key(owner).len() >= 1,
        pref_key(owner).len() <= 64,
{
    let q = seq![34u8];
    let c1 = seq![q];
    let c2 = seq![q, owner];
    let ch = seq![q, owner, q];
    assert(c1.drop_last() =~= Seq::<Seq<u8>>::empty());
    assert(c2.drop_last() =~= c1);
    assert(ch.drop_last() =~= c2);
    assert(greedy(64, Seq::<Seq<u8>>::empty()) =~= Seq::<u8>::empty());
    assert(c1.last() == q);
    assert(greedy(64, c1) =~= q);
    assert(greedy(64, c2).len() >= 1);
    assert(greedy(64, ch).len() >= 1);
    lemma_greedy_len(64, ch);
}

proof fn lemma_followup_keys()
    ensures
        "\"start\"".spec_bytes().len() > 0,
        "\"end\"".spec_bytes().len() > 0,
        "\"quiet_hours\"".spec_bytes().len() > 0,
        "\"max_nudges_per_day\"".spec_bytes().len() > 0,
        "\"nudges_sent_today\"".spec_bytes().len() > 0,
        "\"id\"".spec_bytes().len() > 0,
        "\"owner_id\"".spec_bytes().len() > 0,
        "\"due_date\"".spec_bytes().len() > 0,
        "\"snoozed_until\"".spec_bytes().len() > 0,
        "\"nudge_count\"".spec_bytes().len() > 0,
        "\"pressure_score\"".spec_bytes().len() > 0,
        "\"reference_datetime\"".spec_bytes().len() > 0,
        "\"followup_config\"".spec_bytes().len() > 0,
        "\"user_preferences\"".spec_bytes().len() > 0,
        "\"open_items\"".spec_bytes().len() > 0,
        "\"respect_quiet_hours\"".spec_bytes().len() > 0,
        "\"escalate_after_nudges\"".spec_bytes().len() > 0,
        "\"min_pressure_for_soft\"".spec_bytes().len() > 0,
        "escalate".spec_bytes().len() == 8,
        "quiet_hours".spec_bytes().len() == 11,
{
    broadcast use vstd::string::group_string_axioms;
    reveal_strlit("\"start\"");
    reveal_strlit("\"end\"");
    reveal_strlit("\"quiet_hours\"");
    reveal_strlit("\"max_nudges_per_day\"");
    reveal_strlit("\"nudges_sent_today\"");
    reveal_strlit("\"id\"");
    reveal_strlit("\"owner_id\"");
    reveal_strlit("\"due_date\"");
    reveal_strlit("\"snoozed_until\"");
    reveal_strlit("\"nudge_count\"");
    reveal_strlit("\"pressure_score\"");
    reveal_strlit("\"reference_datetime\"");
    reveal_strlit("\"followup_config\"");
    reveal_strlit("\"user_preferences\"");
    reveal_strlit("\"open_items\"");
    reveal_strlit("\"respect_quiet_hours\"");
    reveal_strlit("\"escalate_after_nudges\"");
    reveal_strlit("\"min_pressure_for_soft\"");
    assert(vstd::string::is_ascii("\"start\""));
    assert(vstd::string::is_ascii("\"end\""));
    assert(vstd::string::is_ascii("\"quiet_hours\""));
    assert(vstd::string::is_ascii("\"max_nudges_per_day\""));
    assert(vstd::string::is_ascii("\"nudges_sent_today\""));
    assert(vstd::string::is_ascii("\"id\""));
    assert(vstd::string::is_ascii("\"owner_id\""));
    assert(vstd::string::is_ascii("\"due_date\""));
    assert(vstd::string::is_ascii("\"snoozed_until\""));
    assert(vstd::string::is_ascii("\"nudge_count\""));
    assert(vstd::string::is_ascii("\"pressure_score\""));
    assert(vstd::string::is_ascii("\"reference_datetime\""));
    assert(vstd::string::is_ascii("\"followup_config\""));
    assert(vstd::string::is_ascii("\"user_preferences\""));
    assert(vstd::string::is_ascii("\"open_items\""));
    assert(vstd::string::is_ascii("\"respect_quiet_hours\""));
    assert(vstd::string::is_ascii("\"escalate_after_nudges\""));
    assert(vstd::string::is_ascii("\"min_pressure_for_soft\""));
    reveal_strlit("escalate");
    reveal_strlit("quiet_hours");
    assert(vstd::string::is_ascii("escalate"));
    assert(vstd::string::is_ascii("quiet_hours"));
}

/// The preferences object of `owner` in `prefs`.
pub fn user_pref_object<'a>(prefs: &'a [u8], owner: &[u8]) -> (r: Option<&'a [u8]>)
    requires
        scannable(prefs@),
    ensures
        match pref_object(prefs@, owner@) {
            Some(o) => r is Some && r->0@ == o && o.len() <= prefs@.len(),
            None => r is None,
        },
{
    proof {
        reveal(pref_object);
    }
    if prefs.len() == 0 || owner.len() == 0 {
        return None;
    }
    let mut key = [0u8; 64];
    let ghost o = key@;
    let ghost c0 = Seq::<Seq<u8>>::empty();
    let quote: &[u8] = &[34u8];
    let mut k = put_chunk(&mut key, 0, quote, Ghost(o), Ghost(c0));
    let ghost c1 = c0 + seq![quote@];
    k = put_chunk(&mut key, k, owner, Ghost(o), Ghost(c1));
    let ghost c2 = c1 + seq![owner@];
    k = put_chunk(&mut key, k, quote, Ghost(o), Ghost(c2));
    let ghost c3 = c2 + seq![quote@];
    proof {
        assert(quote@ =~= seq![34u8]);
        assert(c3 =~= seq![seq![34u8], owner@, seq![34u8]]);
        lemma_run_holds(o, key@, k as int, c3);
        lemma_pref_key_len(owner@);
    }
    let ks = key.as_slice();
    let kk = &ks[0..k];
    assert(kk@ =~= pref_key(owner@));
    crate::scan::bracketed_after_key(prefs, kk, 123, 125)
}

/// An integer preference of `owner`.
pub fn user_pref_i32(prefs: &[u8], owner: &[u8], key: &[u8]) -> (r: Option<i32>)
    requires
        scannable(prefs@),
        key@.len() > 0,
    ensures
        match pref_int(prefs@, owner@, key@) {
            Some(v) => r == Some(v as i32) && i32::MIN < v <= i32::MAX,
            None => r is None,
        },
{
    proof {
        reveal(pref_int);
    }
    match user_pref_object(prefs, owner) {
        Some(obj) => extract_i32(obj, key),
        None => None,
    }
}

/// Whether the reference time `ref_dt` falls inside the quiet hours `qh`.
pub fn in_quiet_hours(ref_dt: &[u8], qh: &[u8]) -> (r: bool)
    ensures
        r == quiet_now(ref_dt@, qh@),
{
    proof {
        lemma_followup_keys();
    }
    let hour = parse_ref_hour(ref_dt);
    let start = parse_time_hour(crate::scan::extract_string(qh, "\"start\"".as_bytes()));
    let end = parse_time_hour(crate::scan::extract_string(qh, "\"end\"".as_bytes()));
    if start <= end {
        hour >= start && hour < end
    } else {
        hour >= start || hour < end
    }
}

/// The objects of the array `arr` from index `i` on: separators are
/// skipped, and the walk ends at the closing bracket, the end, or anything
/// that is not an object.
pub open spec fn objects_from(arr: Seq<u8>, i: int) -> Seq<Seq<u8>>
    decreases arr.len() - i,
{
    if i < 0 || i >= arr.len() {
        Seq::empty()
    } else {
        let j = i + ws_comma_len(arr.skip(i));
        if j >= arr.len() || arr[j] != 123u8 {
            Seq::empty()
        } else {
            match balanced_spec(arr.skip(j), 123u8, 125u8) {
                Some(e) => if 0 <= e && j + e + 1 <= arr.len() {
                    seq![arr.subrange(j, j + e + 1)] + objects_from(arr, j + e + 1)
                } else {
                    Seq::empty()
                },
                None => Seq::empty(),
            }
        }
    }
}

/// The objects of a JSON array.
pub open spec fn array_objects(arr: Seq<u8>) -> Seq<Seq<u8>> {
    if arr.len() > 0 && arr[0] == 91u8 {
        objects_from(arr, 1)
    } else {
        Seq::empty()
    }
}

/// What the request's policy says about every item: the reference time,
/// the users' preferences, whether quiet hours count, the nudge count from
/// which an overdue item escalates, and the least pressure (in thousandths)
/// for a nudge.
pub ghost struct Policy {
    pub ref_dt: Seq<u8>,
    pub prefs: Seq<u8>,
    pub respect_quiet: bool,
    pub escalate_after: int,
    pub min_pressure: int,
}

/// What becomes of one item: selected with an intensity (`label`), a reason
/// (`text`) and a channel, or skipped with a reason code (`label`) and a
/// detail (`text`).
pub ghost struct Verdict {
    pub selected: bool,
    pub id: Seq<u8>,
    pub label: Seq<u8>,
    pub text: Seq<u8>,
    pub channel: Seq<u8>,
}

/// `s` when it fits a field of `cap` bytes, else empty.
pub open spec fn fit(s: Seq<u8>, cap: int) -> Seq<u8> {
    if s.len() <= cap { s } else { Seq::empty() }
}

/// A skip verdict.
pub open spec fn skip(id: Seq<u8>, reason: Seq<u8>, detail: Seq<u8>) -> Verdict {
    Verdict { selected: false, id, label: reason, text: detail, channel: Seq::empty() }
}

/// A selection verdict.
pub open spec fn pick(id: Seq<u8>, intensity: Seq<u8>, reason: Seq<u8>, channel: Seq<u8>) -> Verdict {
    Verdict { selected: true, id, label: intensity, text: reason, channel }
}

/// The quiet hours of `owner` when the reference time falls inside them.
#[verifier::opaque]
pub open spec fn quiet_hit(ref_dt: Seq<u8>, prefs: Seq<u8>, owner: Seq<u8>) -> Option<Seq<u8>> {
    match pref_object(prefs, owner) {
        Some(op) => match bracketed_after_key_spec(op, "\"quiet_hours\"".spec_bytes(), 123u8, 125u8) {
            Some(qh) => if quiet_now(ref_dt, qh) { Some(qh) } else { None },
            None => None,
        },
        None => None,
    }
}

/// The detail of a quiet-hours skip, as much as fits 96 bytes.
pub open spec fn quiet_detail(qh: Seq<u8>) -> Seq<u8> {
    greedy(
        96,
        seq![
            "owner is inside quiet hours ".spec_bytes(),
            extract_string_spec(qh, "\"start\"".spec_bytes()),
            "-".spec_bytes(),
            extract_string_spec(qh, "\"end\"".spec_bytes()),
        ],
    )
}

/// The date part of the reference time: its first ten bytes.
pub open spec fn ref_date(ref_dt: Seq<u8>) -> Seq<u8> {
    if ref_dt.len() < 10 { ref_dt } else { ref_dt.take(10) }
}

/// The integer field `key` of `item`, or `default`.
pub open spec fn int_or(item: Seq<u8>, key: Seq<u8>, default: int) -> int {
    match int_field(item, key) {
        Some(v) => v,
        None => default,
    }
}

/// Why `item` is held back, if it is: snoozed items, items whose owner is
/// in quiet hours (when those count), owners out of daily nudges, and
/// low-pressure items, in that order.
pub open spec fn held_verdict(item: Seq<u8>, p: Policy) -> Option<Verdict> {
    let id = extract_string_spec(item, "\"id\"".spec_bytes());
    let owner = extract_string_spec(item, "\"owner_id\"".spec_bytes());
    let snoozed = optional_string_spec(item, "\"snoozed_until\"".spec_bytes());
    let pressure = match scaled_field(item, "\"pressure_score\"".spec_bytes()) { Some(v) => v, None => 0 };
    let max_nudges = match pref_int(p.prefs, owner, "\"max_nudges_per_day\"".spec_bytes()) { Some(v) => v, None => 2 };
    let sent = match pref_int(p.prefs, owner, "\"nudges_sent_today\"".spec_bytes()) { Some(v) => v, None => 0 };
    if snoozed.len() > 0 && lex_less(p.ref_dt, snoozed) {
        Some(skip(id, "snoozed".spec_bytes(), "item is snoozed until later".spec_bytes()))
    } else if p.respect_quiet && quiet_hit(p.ref_dt, p.prefs, owner) is Some {
        Some(skip(id, "quiet_hours".spec_bytes(), quiet_detail(quiet_hit(p.ref_dt, p.prefs, owner)->0)))
    } else if sent >= max_nudges {
        Some(skip(id, "budget_exceeded".spec_bytes(), "daily nudge budget exhausted".spec_bytes()))
    } else if pressure < p.min_pressure {
        Some(skip(id, "low_pressure".spec_bytes(), "pressure below soft threshold".spec_bytes()))
    } else {
        None
    }
}

/// How an item that is not held back is nudged: an overdue one escalates
/// after enough nudges, else gets a direct nudge; any other a soft one.
pub open spec fn picked_verdict(item: Seq<u8>, p: Policy) -> Verdict {
    let id = extract_string_spec(item, "\"id\"".spec_bytes());
    let due = extract_string_spec(item, "\"due_date\"".spec_bytes());
    let nudges = int_or(item, "\"nudge_count\"".spec_bytes(), 0);
    let overdue = due.len() > 0 && lex_less(due, ref_date(p.ref_dt));
    if overdue && nudges >= p.escalate_after {
        pick(
            id,
            "escalate".spec_bytes(),
            "3 prior nudges ignored + overdue + high pressure".spec_bytes(),
            "manager".spec_bytes(),
        )
    } else if overdue {
        pick(id, "direct".spec_bytes(), "item is overdue".spec_bytes(), Seq::empty())
    } else {
        pick(id, "soft".spec_bytes(), "approaching due date or sufficient pressure".spec_bytes(), Seq::empty())
    }
}

/// What becomes of `item` under policy `p`.
pub open spec fn item_verdict(item: Seq<u8>, p: Policy) -> Verdict {
    match held_verdict(item, p) {
        Some(v) => v,
        None => picked_verdict(item, p),
    }
}

/// A selected item as the response lists it.
pub struct Selected {
    pub item_id: Vec<u8>,
    pub intensity: Vec<u8>,
    pub reason: Vec<u8>,
    pub channel: Vec<u8>,
}

/// A skipped item as the response lists it.
pub struct Skipped {
    pub item_id: Vec<u8>,
    pub reason: Vec<u8>,
    pub detail: Vec<u8>,
}

/// What becomes of one item.
pub enum Outcome {
    Chosen(Selected),
    Held(Skipped),
}

/// The outcome holds verdict `v`, each field cut to its capacity.
pub open spec fn holds_verdict(o: Outcome, v: Verdict) -> bool {
    match o {
        Outcome::Chosen(s) => {
            &&& v.selected
            &&& s.item_id@ == fit(v.id, 48)
            &&& s.intensity@ == fit(v.label, 12)
            &&& s.reason@ == fit(v.text, 128)
            &&& s.channel@ == fit(v.channel, 24)
        },
        Outcome::Held(k) => {
            &&& !v.selected
            &&& k.item_id@ == fit(v.id, 48)
            &&& k.reason@ == fit(v.label, 24)
            &&& k.detail@ == fit(v.text, 128)
        },
    }
}

/// `s` when it fits `cap` bytes, else empty.
fn fitted(s: &[u8], cap: usize) -> (r: Vec<u8>)
    ensures
        r@ == fit(s@, cap as int),
{
    if s.len() <= cap {
        vstd::slice::slice_to_vec(s)
    } else {
        Vec::new()
    }
}

/// A selection, each field cut to its capacity.
fn chosen(id: &[u8], intensity: &[u8], reason: &[u8], channel: &[u8]) -> (r: Outcome)
    ensures
        holds_verdict(r, pick(id@, intensity@, reason@, channel@)),
{
    Outcome::Chosen(Selected {
        item_id: fitted(id, 48),
        intensity: fitted(intensity, 12),
        reason: fitted(reason, 128),
        channel: fitted(channel, 24),
    })
}

/// A skip, each field cut to its capacity.
fn held(id: &[u8], reason: &[u8], detail: &[u8]) -> (r: Outcome)
    ensures
        holds_verdict(r, skip(id@, reason@, detail@)),
{
    Outcome::Held(Skipped { item_id: fitted(id, 48), reason: fitted(reason, 24), detail: fitted(detail, 128) })
}

/// The detail of a quiet-hours skip.
fn quiet_detail_of(qh: &[u8]) -> (r: Vec<u8>)
    ensures
        r@ == quiet_detail(qh@),
{
    proof {
        lemma_followup_keys();
    }
    let mut detail = [0u8; 96];
    let ghost o = detail@;
    let ghost c0 = Seq::<Seq<u8>>::empty();
    let start = crate::scan::extract_string(qh, "\"start\"".as_bytes());
    let end = crate::scan::extract_string(qh, "\"end\"".as_bytes());
    let mut d = put_chunk(&mut detail, 0, "owner is inside quiet hours ".as_bytes(), Ghost(o), Ghost(c0));
    let ghost c1 = c0 + seq!["owner is inside quiet hours ".spec_bytes()];
    d = put_chunk(&mut detail, d, start, Ghost(o), Ghost(c1));
    let ghost c2 = c1 + seq![start@];
    d = put_chunk(&mut detail, d, "-".as_bytes(), Ghost(o), Ghost(c2));
    let ghost c3 = c2 + seq!["-".spec_bytes()];
    d = put_chunk(&mut detail, d, end, Ghost(o), Ghost(c3));
    let ghost c4 = c3 + seq![end@];
    proof {
        assert(c4 =~= seq![
            "owner is inside quiet hours ".spec_bytes(),
            extract_string_spec(qh@, "\"start\"".spec_bytes()),
            "-".spec_bytes(),
            extract_string_spec(qh@, "\"end\"".spec_bytes()),
        ]);
        lemma_run_holds(o, detail@, d as int, c4);
        lemma_greedy_len(96, c4);
    }
    let ds = detail.as_slice();
    vstd::slice::slice_to_vec(&ds[0..d])
}

/// The policy a request's values make.
pub open spec fn policy_of(ref_dt: Seq<u8>, prefs: Seq<u8>, respect_quiet: bool, escalate_after: i32, min_pressure: i32) -> Policy {
    Policy {
        ref_dt,
        prefs,
        respect_quiet,
        escalate_after: escalate_after as int,
        min_pressure: min_pressure as int,
    }
}

/// Why `item` is held back by snoozing or quiet hours, if it is.
#[verifier::spinoff_prover]
fn snooze_or_quiet(item: &[u8], item_id: &[u8], owner: &[u8], ref_dt: &[u8], prefs: &[u8], respect_quiet: bool) -> (r: Option<Outcome>)
    requires
        scannable(prefs@),
        item_id@ == extract_string_spec(item@, "\"id\"".spec_bytes()),
        owner@ == extract_string_spec(item@, "\"owner_id\"".spec_bytes()),
    ensures
        ({
            let p = policy_of(ref_dt@, prefs@, respect_quiet, 0, 0);
            let snoozed = optional_string_spec(item@, "\"snoozed_until\"".spec_bytes());
            if snoozed.len() > 0 && lex_less(p.ref_dt, snoozed) {
                r is Some && holds_verdict(r->0, skip(item_id@, "snoozed".spec_bytes(), "item is snoozed until later".spec_bytes()))
            } else if p.respect_quiet && quiet_hit(p.ref_dt, p.prefs, owner@) is Some {
                r is Some && holds_verdict(r->0, skip(item_id@, "quiet_hours".spec_bytes(), quiet_detail(quiet_hit(p.ref_dt, p.prefs, owner@)->0)))
            } else {
                r is None
            }
        }),
{
    proof {
        reveal(quiet_hit);
    }
    proof {
        lemma_followup_keys();
    }
    let snoozed = extract_optional_string(item, "\"snoozed_until\"".as_bytes());
    if snoozed.len() > 0 && lex_lt(ref_dt, snoozed) {
        return Some(held(item_id, "snoozed".as_bytes(), "item is snoozed until later".as_bytes()));
    }
    if respect_quiet {
        if let Some(owner_prefs) = user_pref_object(prefs, owner) {
            if let Some(qh) = crate::scan::bracketed_after_key(owner_prefs, "\"quiet_hours\"".as_bytes(), 123, 125) {
                if in_quiet_hours(ref_dt, qh) {
                    let detail = quiet_detail_of(qh);
                    return Some(held(item_id, "quiet_hours".as_bytes(), detail.as_slice()));
                }
            }
        }
    }
    None
}

/// How an item that is not held back is nudged.
#[verifier::spinoff_prover]
#[verifier::rlimit(40)]
fn pick_intensity(item: &[u8], item_id: &[u8], ref_dt: &[u8], escalate_after: i32) -> (r: Outcome)
    requires
        item_id@ == extract_string_spec(item@, "\"id\"".spec_bytes()),
    ensures
        holds_verdict(r, picked_verdict(item@, policy_of(ref_dt@, Seq::empty(), false, escalate_after, 0))),
{
    proof {
        lemma_followup_keys();
    }
    let due = crate::scan::extract_string(item, "\"due_date\"".as_bytes());
    let nudge_count = match extract_i32(item, "\"nudge_count\"".as_bytes()) {
        Some(v) => v,
        None => 0,
    };
    let cut = if ref_dt.len() < 10 { ref_dt.len() } else { 10 };
    let rd = &ref_dt[0..cut];
    assert(rd@ =~= ref_date(ref_dt@));
    let overdue = due.len() > 0 && lex_lt(due, rd);
    if overdue && nudge_count >= escalate_after {
        return chosen(
            item_id,
            "escalate".as_bytes(),
            "3 prior nudges ignored + overdue + high pressure".as_bytes(),
            "manager".as_bytes(),
        );
    }
    let none: &[u8] = &[];
    assert(none@ =~= Seq::<u8>::empty());
    if overdue {
        return chosen(item_id, "direct".as_bytes(), "item is overdue".as_bytes(), none);
    }
    chosen(item_id, "soft".as_bytes(), "approaching due date or sufficient pressure".as_bytes(), none)
}

/// Decides what becomes of `item` under the request's policy.
#[verifier::spinoff_prover]
#[verifier::rlimit(40)]
pub fn evaluate_item(
    item: &[u8],
    ref_dt: &[u8],
    prefs: &[u8],
    respect_quiet: bool,
    escalate_after: i32,
    min_pressure: i32,
) -> (r: Outcome)
    requires
        scannable(prefs@),
    ensures
        holds_verdict(r, item_verdict(item@, policy_of(ref_dt@, prefs@, respect_quiet, escalate_after, min_pressure))),
{
    proof {
        lemma_followup_keys();
    }
    let ghost p = policy_of(ref_dt@, prefs@, respect_quiet, escalate_after, min_pressure);
    let item_id = crate::scan::extract_string(item, "\"id\"".as_bytes());
    let owner = crate::scan::extract_string(item, "\"owner_id\"".as_bytes());
    if let Some(o) = snooze_or_quiet(item, item_id, owner, ref_dt, prefs, respect_quiet) {
        return o;
    }
    let pressure = match extract_number_scaled(item, "\"pressure_score\"".as_bytes()) {
        Some(v) => v,
        None => 0,
    };
    let max_nudges = match user_pref_i32(prefs, owner, "\"max_nudges_per_day\"".as_bytes()) {
        Some(v) => v,
        None => 2,
    };
    let sent_today = match user_pref_i32(prefs, owner, "\"nudges_sent_today\"".as_bytes()) {
        Some(v) => v,
        None => 0,
    };
    if sent_today >= max_nudges {
        return held(item_id, "budget_exceeded".as_bytes(), "daily nudge budget exhausted".as_bytes());
    }
    if pressure < min_pressure {
        return held(item_id, "low_pressure".as_bytes(), "pressure below soft threshold".as_bytes());
    }
    assert(held_verdict(item@, p) is None);
    let r = pick_intensity(item, item_id, ref_dt, escalate_after);
    assert(picked_verdict(item@, p) == picked_verdict(item@, policy_of(ref_dt@, Seq::empty(), false, escalate_after, 0)));
    r
}
/// The verdicts that select, in order.
pub open spec fn selected_of(vs: Seq<Verdict>) -> Seq<Verdict>
    decreases vs.len(),
{
    if vs.len() == 0 {
        Seq::empty()
    } else if vs.last().selected {
        selected_of(vs.drop_last()).push(vs.last())
    } else {
        selected_of(vs.drop_last())
    }
}

/// The verdicts that skip, in order.
pub open spec fn skipped_of(vs: Seq<Verdict>) -> Seq<Verdict>
    decreases vs.len(),
{
    if vs.len() == 0 {
        Seq::empty()
    } else if !vs.last().selected {
        skipped_of(vs.drop_last()).push(vs.last())
    } else {
        skipped_of(vs.drop_last())
    }
}

/// Some item was skipped for quiet hours.
pub open spec fn any_quiet(vs: Seq<Verdict>) -> bool
    decreases vs.len(),
{
    vs.len() > 0 && (any_quiet(vs.drop_last()) || (!vs.last().selected && vs.last().label == "quiet_hours".spec_bytes()))
}

/// Some item escalated.
pub open spec fn any_escalate(vs: Seq<Verdict>) -> bool
    decreases vs.len(),
{
    vs.len() > 0 && (any_escalate(vs.drop_last()) || (vs.last().selected && vs.last().label == "escalate".spec_bytes()))
}

/// The chunks of a selected item in the response.
pub open spec fn selected_entry(v: Verdict, first: bool) -> Seq<Seq<u8>> {
    (if first { Seq::empty() } else { seq![",".spec_bytes()] }) + seq![
        "{\"item_id\":\"".spec_bytes(),
        fit(v.id, 48),
        "\",\"intensity\":\"".spec_bytes(),
        fit(v.label, 12),
        "\",\"reason\":\"".spec_bytes(),
    ] + escaped_chunks(fit(v.text, 128)) + (if fit(v.channel, 24).len() > 0 {
        seq!["\",\"recommended_channel\":\"".spec_bytes(), fit(v.channel, 24)]
    } else {
        Seq::empty()
    }) + seq!["\"}".spec_bytes()]
}

/// The chunks of a skipped item in the response.
pub open spec fn skipped_entry(v: Verdict, first: bool) -> Seq<Seq<u8>> {
    (if first { Seq::empty() } else { seq![",".spec_bytes()] }) + seq![
        "{\"item_id\":\"".spec_bytes(),
        fit(v.id, 48),
        "\",\"reason\":\"".spec_bytes(),
        fit(v.label, 24),
        "\",\"detail\":\"".spec_bytes(),
    ] + escaped_chunks(fit(v.text, 128)) + seq!["\"}".spec_bytes()]
}

/// The chunks of a list of selected items.
pub open spec fn selected_list(vs: Seq<Verdict>) -> Seq<Seq<u8>>
    decreases vs.len(),
{
    if vs.len() == 0 {
        Seq::empty()
    } else {
        selected_list(vs.drop_last()) + selected_entry(vs.last(), vs.len() == 1)
    }
}

/// The chunks of a list of skipped items.
pub open spec fn skipped_list(vs: Seq<Verdict>) -> Seq<Seq<u8>>
    decreases vs.len(),
{
    if vs.len() == 0 {
        Seq::empty()
    } else {
        skipped_list(vs.drop_last()) + skipped_entry(vs.last(), vs.len() == 1)
    }
}

/// The chunks of the evaluation trace.
pub open spec fn trace_chunks(count: nat, quiet_note: bool, escalated: bool) -> Seq<Seq<u8>> {
    seq!["[\"".spec_bytes()] + signed_chunks(count as int) + seq![" item evaluated".spec_bytes()] + (if count != 1 {
        seq!["s".spec_bytes()]
    } else {
        Seq::empty()
    }) + seq!["\"".spec_bytes()] + (if quiet_note {
        seq![", \"skipped due to quiet_hours\"".spec_bytes()]
    } else {
        Seq::empty()
    }) + (if escalated {
        seq![", \"escalation threshold met\"".spec_bytes()]
    } else {
        Seq::empty()
    }) + seq!["]".spec_bytes()]
}

/// The chunks of a successful response.
pub open spec fn output_chunks(sel: Seq<Verdict>, sk: Seq<Verdict>, trace: Seq<u8>) -> Seq<Seq<u8>> {
    seq!["{\"selected\":[".spec_bytes()] + selected_list(sel) + seq!["],\"skipped\":[".spec_bytes()] + skipped_list(sk)
        + seq!["],\"reason_code\":\"ok\",\"evaluation_trace\":".spec_bytes(), trace, "}".spec_bytes()]
}

/// The chunks of a failed response.
pub open spec fn fail_chunks(code: Seq<u8>, trace: Seq<u8>) -> Seq<Seq<u8>> {
    seq![
        "{\"selected\":[],\"skipped\":[],\"reason_code\":\"".spec_bytes(),
        code,
        "\",\"evaluation_trace\":".spec_bytes(),
        trace,
        "}".spec_bytes(),
    ]
}

/// A stored selection holds verdict `v`.
pub open spec fn holds_selected(s: Selected, v: Verdict) -> bool {
    holds_verdict(Outcome::Chosen(s), v)
}

/// A stored skip holds verdict `v`.
pub open spec fn holds_skipped(k: Skipped, v: Verdict) -> bool {
    holds_verdict(Outcome::Held(k), v)
}

/// Writes a failed response; returns its length.
pub fn fail(out: &mut [u8], code: &[u8], trace: &[u8]) -> (r: usize)
    ensures
        holds_greedy(final(out)@, r as int, fail_chunks(code@, trace@)),
        final(out)@.len() == old(out)@.len(),
{
    let ghost o = out@;
    let ghost c0 = Seq::<Seq<u8>>::empty();
    let mut i = put_chunk(out, 0, "{\"selected\":[],\"skipped\":[],\"reason_code\":\"".as_bytes(), Ghost(o), Ghost(c0));
    let ghost c1 = c0 + seq!["{\"selected\":[],\"skipped\":[],\"reason_code\":\"".spec_bytes()];
    i = put_chunk(out, i, code, Ghost(o), Ghost(c1));
    let ghost c2 = c1 + seq![code@];
    i = put_chunk(out, i, "\",\"evaluation_trace\":".as_bytes(), Ghost(o), Ghost(c2));
    let ghost c3 = c2 + seq!["\",\"evaluation_trace\":".spec_bytes()];
    i = put_chunk(out, i, trace, Ghost(o), Ghost(c3));
    let ghost c4 = c3 + seq![trace@];
    i = put_chunk(out, i, "}".as_bytes(), Ghost(o), Ghost(c4));
    proof {
        let c5 = c4 + seq!["}".spec_bytes()];
        assert(c5 =~= fail_chunks(code@, trace@));
        lemma_run_holds(o, out@, i as int, c5);
    }
    i
}

/// Appends a selected item to the response.
#[verifier::spinoff_prover]
#[verifier::rlimit(30)]
fn put_selected(out: &mut [u8], i: usize, s: &Selected, first: bool, Ghost(v): Ghost<Verdict>, Ghost(o): Ghost<Seq<u8>>, Ghost(ch): Ghost<Seq<Seq<u8>>>) -> (r: usize)
    requires
        (old(out)@, i as int) == copies(o, 0, ch),
        holds_selected(*s, v),
    ensures
        (final(out)@, r as int) == copies(o, 0, ch + selected_entry(v, first)),
{
    let ghost mut c = ch;
    let mut i = i;
    if !first {
        i = put_chunk(out, i, ",".as_bytes(), Ghost(o), Ghost(c));
        proof { c = c + seq![",".spec_bytes()]; }
    }
    assert(c == ch + (if first { Seq::<Seq<u8>>::empty() } else { seq![",".spec_bytes()] }));
    i = put_chunk(out, i, "{\"item_id\":\"".as_bytes(), Ghost(o), Ghost(c));
    proof { c = c + seq!["{\"item_id\":\"".spec_bytes()]; }
    i = put_chunk(out, i, s.item_id.as_slice(), Ghost(o), Ghost(c));
    proof { c = c + seq![s.item_id@]; }
    i = put_chunk(out, i, "\",\"intensity\":\"".as_bytes(), Ghost(o), Ghost(c));
    proof { c = c + seq!["\",\"intensity\":\"".spec_bytes()]; }
    i = put_chunk(out, i, s.intensity.as_slice(), Ghost(o), Ghost(c));
    proof { c = c + seq![s.intensity@]; }
    i = put_chunk(out, i, "\",\"reason\":\"".as_bytes(), Ghost(o), Ghost(c));
    proof { c = c + seq!["\",\"reason\":\"".spec_bytes()]; }
    i = put_escaped(out, i, s.reason.as_slice(), Ghost(o), Ghost(c));
    proof { c = c + escaped_chunks(s.reason@); }
    let ghost before = c;
    if s.channel.len() > 0 {
        i = put_chunk(out, i, "\",\"recommended_channel\":\"".as_bytes(), Ghost(o), Ghost(c));
        proof { c = c + seq!["\",\"recommended_channel\":\"".spec_bytes()]; }
        i = put_chunk(out, i, s.channel.as_slice(), Ghost(o), Ghost(c));
        proof {
            c = c + seq![s.channel@];
            assert(c =~= before + seq!["\",\"recommended_channel\":\"".spec_bytes(), s.channel@]);
        }
    } else {
        assert(c =~= before + Seq::<Seq<u8>>::empty());
    }
    i = put_chunk(out, i, "\"}".as_bytes(), Ghost(o), Ghost(c));
    proof {
        c = c + seq!["\"}".spec_bytes()];
        assert(c =~= ch + selected_entry(v, first));
    }
    i
}

/// Appends a skipped item to the response.
#[verifier::spinoff_prover]
#[verifier::rlimit(30)]
fn put_skipped(out: &mut [u8], i: usize, k: &Skipped, first: bool, Ghost(v): Ghost<Verdict>, Ghost(o): Ghost<Seq<u8>>, Ghost(ch): Ghost<Seq<Seq<u8>>>) -> (r: usize)
    requires
        (old(out)@, i as int) == copies(o, 0, ch),
        holds_skipped(*k, v),
    ensures
        (final(out)@, r as int) == copies(o, 0, ch + skipped_entry(v, first)),
{
    let ghost mut c = ch;
    let mut i = i;
    if !first {
        i = put_chunk(out, i, ",".as_bytes(), Ghost(o), Ghost(c));
        proof { c = c + seq![",".spec_bytes()]; }
    }
    assert(c == ch + (if first { Seq::<Seq<u8>>::empty() } else { seq![",".spec_bytes()] }));
    i = put_chunk(out, i, "{\"item_id\":\"".as_bytes(), Ghost(o), Ghost(c));
    proof { c = c + seq!["{\"item_id\":\"".spec_bytes()]; }
    i = put_chunk(out, i, k.item_id.as_slice(), Ghost(o), Ghost(c));
    proof { c = c + seq![k.item_id@]; }
    i = put_chunk(out, i, "\",\"reason\":\"".as_bytes(), Ghost(o), Ghost(c));
    proof { c = c + seq!["\",\"reason\":\"".spec_bytes()]; }
    i = put_chunk(out, i, k.reason.as_slice(), Ghost(o), Ghost(c));
    proof { c = c + seq![k.reason@]; }
    i = put_chunk(out, i, "\",\"detail\":\"".as_bytes(), Ghost(o), Ghost(c));
    proof { c = c + seq!["\",\"detail\":\"".spec_bytes()]; }
    i = put_escaped(out, i, k.detail.as_slice(), Ghost(o), Ghost(c));
    proof { c = c + escaped_chunks(k.detail@); }
    i = put_chunk(out, i, "\"}".as_bytes(), Ghost(o), Ghost(c));
    proof {
        c = c + seq!["\"}".spec_bytes()];
        assert(c =~= ch + skipped_entry(v, first));
    }
    i
}

/// Writes the response listing `selected` and `skipped` and the trace;
/// returns its length.
#[verifier::spinoff_prover]
fn write_output(
    out: &mut [u8],
    selected: &[Selected],
    skipped: &[Skipped],
    trace: &[u8],
    Ghost(sv): Ghost<Seq<Verdict>>,
    Ghost(kv): Ghost<Seq<Verdict>>,
) -> (r: usize)
    requires
        selected@.len() == sv.len(),
        skipped@.len() == kv.len(),
        forall|j: int| 0 <= j < sv.len() ==> holds_selected(#[trigger] selected@[j], sv[j]),
        forall|j: int| 0 <= j < kv.len() ==> holds_skipped(#[trigger] skipped@[j], kv[j]),
    ensures
        holds_greedy(final(out)@, r as int, output_chunks(sv, kv, trace@)),
        final(out)@.len() == old(out)@.len(),
{
    let ghost o = out@;
    let ghost c0 = Seq::<Seq<u8>>::empty();
    let mut i = put_chunk(out, 0, "{\"selected\":[".as_bytes(), Ghost(o), Ghost(c0));
    let ghost head = c0 + seq!["{\"selected\":[".spec_bytes()];
    let mut j: usize = 0;
    assert(sv.take(0) =~= Seq::<Verdict>::empty());
    assert(head + selected_list(sv.take(0)) =~= head);
    while j < selected.len()
        invariant
            j <= sv.len(),
            selected@.len() == sv.len(),
            forall|t: int| 0 <= t < sv.len() ==> holds_selected(#[trigger] selected@[t], sv[t]),
            (out@, i as int) == copies(o, 0, head + selected_list(sv.take(j as int))),
        decreases selected.len() - j,
    {
        i = put_selected(out, i, &selected[j], j == 0, Ghost(sv[j as int]), Ghost(o), Ghost(head + selected_list(sv.take(j as int))));
        proof {
            let t = sv.take(j as int + 1);
            assert(t.drop_last() =~= sv.take(j as int));
            assert(t.last() == sv[j as int]);
            assert(head + selected_list(t) =~= head + selected_list(sv.take(j as int)) + selected_entry(sv[j as int], j == 0));
        }
        j = j + 1;
    }
    assert(sv.take(j as int) =~= sv);
    let ghost mid = head + selected_list(sv) + seq!["],\"skipped\":[".spec_bytes()];
    i = put_chunk(out, i, "],\"skipped\":[".as_bytes(), Ghost(o), Ghost(head + selected_list(sv)));
    let mut k: usize = 0;
    assert(kv.take(0) =~= Seq::<Verdict>::empty());
    assert(mid + skipped_list(kv.take(0)) =~= mid);
    while k < skipped.len()
        invariant
            k <= kv.len(),
            skipped@.len() == kv.len(),
            forall|t: int| 0 <= t < kv.len() ==> holds_skipped(#[trigger] skipped@[t], kv[t]),
            (out@, i as int) == copies(o, 0, mid + skipped_list(kv.take(k as int))),
        decreases skipped.len() - k,
    {
        i = put_skipped(out, i, &skipped[k], k == 0, Ghost(kv[k as int]), Ghost(o), Ghost(mid + skipped_list(kv.take(k as int))));
        proof {
            let t = kv.take(k as int + 1);
            assert(t.drop_last() =~= kv.take(k as int));
            assert(t.last() == kv[k as int]);
            assert(mid + skipped_list(t) =~= mid + skipped_list(kv.take(k as int)) + skipped_entry(kv[k as int], k == 0));
        }
        k = k + 1;
    }
    assert(kv.take(k as int) =~= kv);
    let ghost tail = mid + skipped_list(kv);
    i = put_chunk(out, i, "],\"reason_code\":\"ok\",\"evaluation_trace\":".as_bytes(), Ghost(o), Ghost(tail));
    let ghost t1 = tail + seq!["],\"reason_code\":\"ok\",\"evaluation_trace\":".spec_bytes()];
    i = put_chunk(out, i, trace, Ghost(o), Ghost(t1));
    let ghost t2 = t1 + seq![trace@];
    i = put_chunk(out, i, "}".as_bytes(), Ghost(o), Ghost(t2));
    proof {
        let t3 = t2 + seq!["}".spec_bytes()];
        assert(t3 =~= output_chunks(sv, kv, trace@));
        lemma_run_holds(o, out@, i as int, t3);
    }
    i
}

/// Writes the decimal spelling of `n` at `at`: `0` whole, else each digit
/// where it fits; returns the index after it.
pub fn write_usize(out: &mut [u8], at: usize, n: usize) -> (r: usize)
    ensures
        (final(out)@, r as int) == copies(old(out)@, at as int, signed_chunks(n as int)),
{
    let ghost o = out@;
    let ghost none = Seq::<Seq<u8>>::empty();
    if n == 0 {
        let mut zero: Vec<u8> = Vec::new();
        zero.push(48u8);
        let r = copy_next(out, at, zero.as_slice(), Ghost(o), Ghost(at as int), Ghost(none));
        assert(none.push(zero@) =~= signed_chunks(0));
        return r;
    }
    let digits = decimal_digits(n as u64);
    let ds = digits.as_slice();
    let mut i = at;
    let mut k: usize = 0;
    assert(byte_chunks(ds@).take(0) =~= none);
    while k < ds.len()
        invariant
            k <= ds@.len(),
            (out@, i as int) == copies(o, at as int, byte_chunks(ds@).take(k as int)),
        decreases ds@.len() - k,
    {
        let mut one: Vec<u8> = Vec::new();
        one.push(ds[k]);
        proof {
            assert(byte_chunks(ds@).take(k as int + 1) =~= byte_chunks(ds@).take(k as int).push(one@));
        }
        i = copy_next(out, i, one.as_slice(), Ghost(o), Ghost(at as int), Ghost(byte_chunks(ds@).take(k as int)));
        k = k + 1;
    }
    assert(byte_chunks(ds@).take(k as int) =~= byte_chunks(ds@));
    assert(byte_chunks(ds@) =~= signed_chunks(n as int));
    i
}

/// Writes the evaluation trace to `buf`; returns its length.
fn write_trace(buf: &mut [u8], count: usize, quiet_note: bool, escalated: bool) -> (r: usize)
    ensures
        holds_greedy(final(buf)@, r as int, trace_chunks(count as nat, quiet_note, escalated)),
        final(buf)@.len() == old(buf)@.len(),
{
    let ghost o = buf@;
    let ghost c0 = Seq::<Seq<u8>>::empty();
    let mut t = put_chunk(buf, 0, "[\"".as_bytes(), Ghost(o), Ghost(c0));
    let ghost c1 = c0 + seq!["[\"".spec_bytes()];
    proof {
        crate::emit::lemma_copies_concat(o, 0, c1, signed_chunks(count as int));
    }
    t = write_usize(buf, t, count);
    let ghost mut c = c1 + signed_chunks(count as int);
    t = put_chunk(buf, t, " item evaluated".as_bytes(), Ghost(o), Ghost(c));
    proof { c = c + seq![" item evaluated".spec_bytes()]; }
    let ghost c2 = c;
    if count != 1 {
        t = put_chunk(buf, t, "s".as_bytes(), Ghost(o), Ghost(c));
        proof { c = c + seq!["s".spec_bytes()]; }
    }
    assert(c =~= c2 + (if count != 1 { seq!["s".spec_bytes()] } else { Seq::<Seq<u8>>::empty() }));
    t = put_chunk(buf, t, "\"".as_bytes(), Ghost(o), Ghost(c));
    proof { c = c + seq!["\"".spec_bytes()]; }
    let ghost c3 = c;
    if quiet_note {
        t = put_chunk(buf, t, ", \"skipped due to quiet_hours\"".as_bytes(), Ghost(o), Ghost(c));
        proof { c = c + seq![", \"skipped due to quiet_hours\"".spec_bytes()]; }
    }
    assert(c =~= c3 + (if quiet_note { seq![", \"skipped due to quiet_hours\"".spec_bytes()] } else { Seq::<Seq<u8>>::empty() }));
    let ghost c4 = c;
    if escalated {
        t = put_chunk(buf, t, ", \"escalation threshold met\"".as_bytes(), Ghost(o), Ghost(c));
        proof { c = c + seq![", \"escalation threshold met\"".spec_bytes()]; }
    }
    assert(c =~= c4 + (if escalated { seq![", \"escalation threshold met\"".spec_bytes()] } else { Seq::<Seq<u8>>::empty() }));
    t = put_chunk(buf, t, "]".as_bytes(), Ghost(o), Ghost(c));
    proof {
        c = c + seq!["]".spec_bytes()];
        assert(c =~= trace_chunks(count as nat, quiet_note, escalated));
        lemma_run_holds(o, buf@, t as int, c);
    }
    t
}

/// The verdicts on the first `MAX_ITEMS` items.
pub open spec fn verdicts_of(items: Seq<Seq<u8>>, p: Policy) -> Seq<Verdict> {
    items.take(if items.len() < 16 { items.len() as int } else { 16 }).map_values(|it: Seq<u8>| item_verdict(it, p))
}

proof fn lemma_verdicts_push(items: Seq<Seq<u8>>, obj: Seq<u8>, p: Policy)
    ensures
        items.len() < 16 ==> verdicts_of(items.push(obj), p) == verdicts_of(items, p).push(item_verdict(obj, p)),
        items.len() >= 16 ==> verdicts_of(items.push(obj), p) == verdicts_of(items, p),
{
    if items.len() < 16 {
        assert(items.push(obj).take(items.len() as int + 1) =~= items.take(items.len() as int).push(obj));
        assert(verdicts_of(items.push(obj), p) =~= verdicts_of(items, p).push(item_verdict(obj, p)));
    } else {
        assert(items.push(obj).take(16) =~= items.take(16));
        assert(verdicts_of(items.push(obj), p) =~= verdicts_of(items, p));
    }
}

/// The stored lists and flags after the items seen so far.
pub open spec fn collected(
    sel: Seq<Selected>,
    sk: Seq<Skipped>,
    count: int,
    quiet: bool,
    escalated: bool,
    vs: Seq<Verdict>,
) -> bool {
    &&& sel.len() == selected_of(vs).len()
    &&& sk.len() == skipped_of(vs).len()
    &&& forall|j: int| 0 <= j < sel.len() ==> holds_selected(#[trigger] sel[j], selected_of(vs)[j])
    &&& forall|j: int| 0 <= j < sk.len() ==> holds_skipped(#[trigger] sk[j], skipped_of(vs)[j])
    &&& count == vs.len()
    &&& quiet == any_quiet(vs)
    &&& escalated == any_escalate(vs)
}

/// Runs the items of the array `arr` through the policy; returns the
/// selected and skipped items, how many items were evaluated, and whether
/// any was skipped for quiet hours and whether any escalated.
#[verifier::spinoff_prover]
#[verifier::rlimit(40)]
fn collect(
    arr: &[u8],
    ref_dt: &[u8],
    prefs: &[u8],
    respect_quiet: bool,
    escalate_after: i32,
    min_pressure: i32,
) -> (r: (Vec<Selected>, Vec<Skipped>, usize, bool, bool))
    requires
        scannable(arr@),
        scannable(prefs@),
    ensures
        collected(
            r.0@,
            r.1@,
            r.2 as int,
            r.3,
            r.4,
            verdicts_of(array_objects(arr@), policy_of(ref_dt@, prefs@, respect_quiet, escalate_after, min_pressure)),
        ),
        r.2 <= MAX_ITEMS,
{
    proof {
        lemma_followup_keys();
    }
    let ghost p = policy_of(ref_dt@, prefs@, respect_quiet, escalate_after, min_pressure);
    let mut sel: Vec<Selected> = Vec::new();
    let mut sk: Vec<Skipped> = Vec::new();
    let mut count: usize = 0;
    let mut quiet = false;
    let mut escalated = false;
    let ghost mut seen = Seq::<Seq<u8>>::empty();
    proof {
        reveal_with_fuel(any_quiet, 1);
        assert(verdicts_of(seen, p) =~= Seq::<Verdict>::empty());
    }
    if !(arr.len() > 0 && arr[0] == 91) {
        return (sel, sk, count, quiet, escalated);
    }
    let mut i: usize = 1;
    while i < arr.len()
        invariant
            1 <= i <= arr@.len(),
            scannable(arr@),
            scannable(prefs@),
            p == policy_of(ref_dt@, prefs@, respect_quiet, escalate_after, min_pressure),
            array_objects(arr@) == seen + objects_from(arr@, i as int),
            collected(sel@, sk@, count as int, quiet, escalated, verdicts_of(seen, p)),
            count <= MAX_ITEMS,
        ensures
            array_objects(arr@) == seen,
            collected(sel@, sk@, count as int, quiet, escalated, verdicts_of(seen, p)),
            count <= MAX_ITEMS,
        decreases arr.len() - i,
    {
        let rest = &arr[i..arr.len()];
        assert(rest@ =~= arr@.skip(i as int));
        let skipped_len = crate::scan::skip_ws_comma(rest);
        proof {
            crate::scan::lemma_ws_comma_le(rest@);
        }
        let j = i + skipped_len;
        if j >= arr.len() || arr[j] != 123 {
            assert(objects_from(arr@, i as int) =~= Seq::<Seq<u8>>::empty());
            assert(seen + Seq::<Seq<u8>>::empty() =~= seen);
            break;
        }
        let tail = &arr[j..arr.len()];
        assert(tail@ =~= arr@.skip(j as int));
        let e = match crate::scan::balanced_end(tail, 123, 125) {
            Some(e) => e,
            None => {
                assert(objects_from(arr@, i as int) =~= Seq::<Seq<u8>>::empty());
                assert(seen + Seq::<Seq<u8>>::empty() =~= seen);
                break;
            },
        };
        let obj = &arr[j..j + e + 1];
        proof {
            assert(obj@ =~= arr@.subrange(j as int, j + e + 1));
            assert(objects_from(arr@, i as int) == seq![obj@] + objects_from(arr@, j + e + 1));
            assert(seen + objects_from(arr@, i as int) =~= seen.push(obj@) + objects_from(arr@, j + e + 1));
            lemma_verdicts_push(seen, obj@, p);
        }
        let ghost vs = verdicts_of(seen, p);
        proof {
            lemma_followup_keys();
        }
        if count < MAX_ITEMS {
            let outcome = evaluate_item(obj, ref_dt, prefs, respect_quiet, escalate_after, min_pressure);
            let ghost v = item_verdict(obj@, p);
            let ghost vs2 = vs.push(v);
            proof {
                assert(vs2.drop_last() =~= vs);
            }
            match outcome {
                Outcome::Chosen(s) => {
                    let esc = crate::scan::bytes_eq(s.intensity.as_slice(), "escalate".as_bytes());
                    proof {
                        lemma_label_fit(v.label, "escalate".spec_bytes(), 12);
                    }
                    sel.push(s);
                    escalated = escalated || esc;
                    proof {
                        assert(selected_of(vs2) == selected_of(vs).push(v));
                        assert(skipped_of(vs2) == skipped_of(vs));
                    }
                },
                Outcome::Held(k) => {
                    let q = crate::scan::bytes_eq(k.reason.as_slice(), "quiet_hours".as_bytes());
                    proof {
                        lemma_label_fit(v.label, "quiet_hours".spec_bytes(), 24);
                    }
                    sk.push(k);
                    quiet = quiet || q;
                    proof {
                        assert(selected_of(vs2) == selected_of(vs));
                        assert(skipped_of(vs2) == skipped_of(vs).push(v));
                    }
                },
            }
            count = count + 1;
        }
        proof {
            seen = seen.push(obj@);
        }
        i = j + e + 1;
    }
    (sel, sk, count, quiet, escalated)
}

/// A label matches a name of at most the field's capacity just when its
/// stored (cut) form does.
proof fn lemma_label_fit(label: Seq<u8>, name: Seq<u8>, cap: int)
    requires
        0 < name.len() <= cap,
    ensures
        (fit(label, cap) == name) == (label == name),
{
}

/// An object member of the request (found anywhere), empty when missing.
pub open spec fn object_or_empty(input: Seq<u8>, key: Seq<u8>) -> Seq<u8> {
    match bracketed_after_key_spec(input, key, 123u8, 125u8) {
        Some(o) => o,
        None => Seq::empty(),
    }
}

/// The policy of a request.
pub open spec fn request_policy(input: Seq<u8>) -> Policy {
    let config = object_or_empty(input, "\"followup_config\"".spec_bytes());
    Policy {
        ref_dt: crate::scan::extract_string_at_depth_spec(input, "\"reference_datetime\"".spec_bytes(), 1),
        prefs: object_or_empty(input, "\"user_preferences\"".spec_bytes()),
        respect_quiet: match crate::scan::extract_bool_spec(config, "\"respect_quiet_hours\"".spec_bytes()) {
            Some(b) => b,
            None => true,
        },
        escalate_after: match int_field(config, "\"escalate_after_nudges\"".spec_bytes()) {
            Some(v) => v,
            None => 3,
        },
        min_pressure: match scaled_field(config, "\"min_pressure_for_soft\"".spec_bytes()) {
            Some(v) => v,
            None => 400,
        },
    }
}

/// The chunks of the response to `input`: a configuration error without
/// open items, reference time or config; else the selected and skipped
/// items among the first `MAX_ITEMS` and the trace.
pub open spec fn followup_chunks(input: Seq<u8>) -> Seq<Seq<u8>> {
    let p = request_policy(input);
    let config = object_or_empty(input, "\"followup_config\"".spec_bytes());
    match crate::scan::bracketed_at_depth_spec(input, "\"open_items\"".spec_bytes(), 1, 91u8, 93u8) {
        None => fail_chunks("config_error".spec_bytes(), "[\"open_items missing\"]".spec_bytes()),
        Some(arr) => if p.ref_dt.len() == 0 || config.len() == 0 {
            fail_chunks("config_error".spec_bytes(), "[\"required fields missing\"]".spec_bytes())
        } else {
            let vs = verdicts_of(array_objects(arr), p);
            let sel = selected_of(vs);
            let sk = skipped_of(vs);
            let note = any_quiet(vs) && sel.len() == 0 && sk.len() > 0;
            output_chunks(sel, sk, greedy(512, trace_chunks(vs.len(), note, any_escalate(vs))))
        },
    }
}

/// Selects the open items of `input` that get a follow-up nudge and
/// writes the response document to `out`; returns its length.
#[verifier::spinoff_prover]
#[verifier::rlimit(40)]
pub fn evaluate(input: &[u8], out: &mut [u8]) -> (r: usize)
    requires
        scannable(input@),
    ensures
        holds_greedy(final(out)@, r as int, followup_chunks(input@)),
        final(out)@.len() == old(out)@.len(),
{
    proof {
        lemma_followup_keys();
        reveal(int_field);
        reveal(scaled_field);
    }
    let ref_dt = crate::scan::extract_string_at_depth(input, "\"reference_datetime\"".as_bytes(), 1);
    let empty = &input[0..0];
    assert(empty@ =~= Seq::<u8>::empty());
    let config = match crate::scan::bracketed_after_key(input, "\"followup_config\"".as_bytes(), 123, 125) {
        Some(c) => c,
        None => empty,
    };
    let prefs = match crate::scan::bracketed_after_key(input, "\"user_preferences\"".as_bytes(), 123, 125) {
        Some(c) => c,
        None => empty,
    };
    let open_items = match crate::scan::array_after_key_at_depth(input, "\"open_items\"".as_bytes(), 1) {
        Some(a) => a,
        None => return fail(out, "config_error".as_bytes(), "[\"open_items missing\"]".as_bytes()),
    };
    if ref_dt.len() == 0 || config.len() == 0 {
        return fail(out, "config_error".as_bytes(), "[\"required fields missing\"]".as_bytes());
    }
    let respect_quiet = match crate::scan::extract_bool(config, "\"respect_quiet_hours\"".as_bytes()) {
        Some(b) => b,
        None => true,
    };
    let escalate_after = match extract_i32(config, "\"escalate_after_nudges\"".as_bytes()) {
        Some(v) => v,
        None => 3,
    };
    let min_pressure = match extract_number_scaled(config, "\"min_pressure_for_soft\"".as_bytes()) {
        Some(v) => v,
        None => 400,
    };
    let ghost p = request_policy(input@);
    assert(p == policy_of(ref_dt@, prefs@, respect_quiet, escalate_after, min_pressure));
    let (selected, skipped, count, quiet, escalated) = collect(
        open_items,
        ref_dt,
        prefs,
        respect_quiet,
        escalate_after,
        min_pressure,
    );
    let ghost vs = verdicts_of(array_objects(open_items@), p);
    let note = quiet && selected.len() == 0 && skipped.len() > 0;
    let mut trace = [0u8; 512];
    let t = write_trace(&mut trace, count, note, escalated);
    proof {
        lemma_greedy_len(512, trace_chunks(count as nat, note, escalated));
    }
    let ts = trace.as_slice();
    let tr = &ts[0..t];
    assert(tr@ =~= greedy(512, trace_chunks(vs.len(), note, any_escalate(vs))));
    write_output(out, selected.as_slice(), skipped.as_slice(), tr, Ghost(selected_of(vs)), Ghost(skipped_of(vs)))
}

/// The object value after the first occurrence of `key` in `hay`.
pub fn object_after_key<'a>(hay: &'a [u8], key: &[u8]) -> (r: Option<&'a [u8]>)
    requires
        scannable(hay@),
        key@.len() > 0,
    ensures
        match r {
            Some(v) => bracketed_after_key_spec(hay@, key@, 123u8, 125u8) == Some(v@),
            None => bracketed_after_key_spec(hay@, key@, 123u8, 125u8) is None,
        },
{
    crate::scan::bracketed_after_key(hay, key, 123, 125)
}

/// The daily nudge budget holds: an item whose owner has already been sent
/// as many nudges today as the owner's daily maximum (2 unless the owner's
/// preferences say otherwise) or more is never selected, and unless it is
/// snoozed or its owner is in quiet hours it is skipped as
/// `budget_exceeded`.
pub proof fn lemma_daily_budget(item: Seq<u8>, p: Policy)
    ensures
        ({
            let owner = extract_string_spec(item, "\"owner_id\"".spec_bytes());
            let max = match pref_int(p.prefs, owner, "\"max_nudges_per_day\"".spec_bytes()) {
                Some(v) => v,
                None => 2,
            };
            let sent = match pref_int(p.prefs, owner, "\"nudges_sent_today\"".spec_bytes()) {
                Some(v) => v,
                None => 0,
            };
            let snoozed = optional_string_spec(item, "\"snoozed_until\"".spec_bytes());
            let held_earlier = (snoozed.len() > 0 && lex_less(p.ref_dt, snoozed)) || (p.respect_quiet && quiet_hit(
                p.ref_dt,
                p.prefs,
                owner,
            ) is Some);
            &&& item_verdict(item, p).selected ==> sent < max
            &&& (sent >= max && !held_earlier) ==> !item_verdict(item, p).selected && item_verdict(item, p).label
                == "budget_exceeded".spec_bytes()
        }),
{
}

} // verus!
