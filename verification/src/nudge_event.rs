//! Recording a nudge event: builds the event record that notes one more
//! reminder sent to an item's owner, numbered after the nudges sent before.
use vstd::prelude::*;
use vstd::string::StringSliceAdditionalSpecFns;
use crate::emit::{
    emit_byte, copy, decimal, emit_bytes, emit_escaped, emit_u32, emitted, json_escape, lemma_tracks_start,
    tracks, write_u32,
};
use crate::scan::{
    bytes_eq, extract_i32, extract_int_spec, extract_string_at_depth,
    extract_string_at_depth_spec, find, find_spec, int_value_fits_i32, is_ws, scannable,
    skip_ws, skip_ws_spec, index_of_byte, index_of, parse_i32, parse_int_spec, int_magnitude,
    sign_len, digit_run, digits_value, is_digit,
};

verus! {

/// Key bytes of the request fields.
pub open spec fn k_item_id() -> Seq<u8> { "\"item_id\"".spec_bytes() }
pub open spec fn k_owner_id() -> Seq<u8> { "\"owner_id\"".spec_bytes() }
pub open spec fn k_intensity() -> Seq<u8> { "\"intensity\"".spec_bytes() }
pub open spec fn k_channel() -> Seq<u8> { "\"channel\"".spec_bytes() }
pub open spec fn k_preview() -> Seq<u8> { "\"message_preview\"".spec_bytes() }
pub open spec fn k_event_at() -> Seq<u8> { "\"event_at\"".spec_bytes() }
pub open spec fn k_prior() -> Seq<u8> { "\"prior_nudge_count\"".spec_bytes() }

proof fn lemma_keys()
    ensures
        k_item_id().len() > 0,
        k_owner_id().len() > 0,
        k_intensity().len() > 0,
        k_channel().len() > 0,
        k_preview().len() > 0,
        k_event_at().len() > 0,
        k_prior().len() > 0,
{
    broadcast use vstd::string::group_string_axioms;
    reveal_strlit("\"item_id\"");
    reveal_strlit("\"owner_id\"");
    reveal_strlit("\"intensity\"");
    reveal_strlit("\"channel\"");
    reveal_strlit("\"message_preview\"");
    reveal_strlit("\"event_at\"");
    reveal_strlit("\"prior_nudge_count\"");
    assert(vstd::string::is_ascii("\"item_id\""));
    assert(vstd::string::is_ascii("\"owner_id\""));
    assert(vstd::string::is_ascii("\"intensity\""));
    assert(vstd::string::is_ascii("\"channel\""));
    assert(vstd::string::is_ascii("\"message_preview\""));
    assert(vstd::string::is_ascii("\"event_at\""));
    assert(vstd::string::is_ascii("\"prior_nudge_count\""));
}

/// The response that reports a rejected request with reason `code`.
pub open spec fn failure_response(code: Seq<u8>) -> Seq<u8> {
    "{\"event\":{\"event_id\":\"\",\"item_id\":\"\",\"intensity\":\"\",\"event_at\":\"\",\"nudge_ordinal\":0},\"reason_code\":\"".spec_bytes()
        + code + "\",\"evaluation_trace\":[]}".spec_bytes()
}

/// An intensity the capability knows.
pub open spec fn known_intensity(s: Seq<u8>) -> bool {
    s == "soft".spec_bytes() || s == "direct".spec_bytes() || s == "escalate".spec_bytes()
}

/// The event record built for an accepted request.
pub open spec fn event_response(
    item_id: Seq<u8>,
    owner_id: Seq<u8>,
    intensity: Seq<u8>,
    channel: Seq<u8>,
    preview: Seq<u8>,
    event_at: Seq<u8>,
    ordinal: nat,
) -> Seq<u8> {
    "{\"event\":{\"event_id\":\"nudge-".spec_bytes() + json_escape(item_id) + "-".spec_bytes()
        + decimal(ordinal) + "\",\"item_id\":\"".spec_bytes() + json_escape(item_id)
        + "\",\"owner_id\":\"".spec_bytes() + json_escape(owner_id)
        + "\",\"intensity\":\"".spec_bytes() + intensity + "\",\"channel\":\"".spec_bytes()
        + json_escape(channel) + "\",\"message_preview\":\"".spec_bytes() + json_escape(preview)
        + "\",\"event_at\":\"".spec_bytes() + json_escape(event_at)
        + "\",\"nudge_ordinal\":".spec_bytes() + decimal(ordinal)
        + "},\"reason_code\":\"ok\",\"evaluation_trace\":[\"constructed nudge event\",\"ordinal=".spec_bytes()
        + decimal(ordinal) + "\"]}".spec_bytes()
}

/// The response to a request: the top-level `item_id`, `event_at` and
/// `prior_nudge_count` must be present (the strings non-empty), the
/// intensity known and the count not negative; the channel defaults to
/// `in_app`, and the new nudge is numbered one after the prior count.
pub open spec fn nudge_response(input: Seq<u8>) -> Seq<u8> {
    let item_id = extract_string_at_depth_spec(input, k_item_id(), 1);
    let owner_id = extract_string_at_depth_spec(input, k_owner_id(), 1);
    let intensity = extract_string_at_depth_spec(input, k_intensity(), 1);
    let channel = extract_string_at_depth_spec(input, k_channel(), 1);
    let preview = extract_string_at_depth_spec(input, k_preview(), 1);
    let event_at = extract_string_at_depth_spec(input, k_event_at(), 1);
    let prior = extract_int_spec(input, k_prior());
    if item_id.len() == 0 || event_at.len() == 0 || prior is None {
        failure_response("invalid_input".spec_bytes())
    } else if !known_intensity(intensity) {
        failure_response("invalid_intensity".spec_bytes())
    } else if prior->0 < 0 {
        failure_response("invalid_input".spec_bytes())
    } else {
        let chan = if channel.len() == 0 { "in_app".spec_bytes() } else { channel };
        event_response(item_id, owner_id, intensity, chan, preview, event_at, (prior->0 + 1) as nat)
    }
}

/// Writes the response for a rejected request with reason `code` at the
/// start of `out`.
pub fn fail(out: &mut [u8], code: &[u8]) -> (r: usize)
    ensures
        emitted(final(out)@, r as int, failure_response(code@)),
{
    proof {
        lemma_tracks_start(out@);
    }
    let ghost mut d = Seq::<u8>::empty();
    let l1 = "{\"event\":{\"event_id\":\"\",\"item_id\":\"\",\"intensity\":\"\",\"event_at\":\"\",\"nudge_ordinal\":0},\"reason_code\":\"".as_bytes();
    let mut i = emit_bytes(out, 0, l1, Ghost(d));
    proof { d = d + l1@; }
    i = emit_bytes(out, i, code, Ghost(d));
    proof { d = d + code@; }
    let l2 = "\",\"evaluation_trace\":[]}".as_bytes();
    i = emit_bytes(out, i, l2, Ghost(d));
    proof {
        d = d + l2@;
        assert(d =~= failure_response(code@));
    }
    i
}

/// Whether the prior nudge count of the request fits the reader (an `i32`
/// magnitude), which `evaluate` needs.
pub fn counts_fit(input: &[u8]) -> (r: bool)
    ensures
        r == int_value_fits_i32(input@, k_prior()),
{
    proof {
        lemma_keys();
    }
    crate::scan::int_fits_i32(input, "\"prior_nudge_count\"".as_bytes())
}

/// Records a nudge event for the request in `input`, writing the response
/// document to `out` and returning its length.
pub fn evaluate(input: &[u8], out: &mut [u8]) -> (r: usize)
    requires
        scannable(input@),
        int_value_fits_i32(input@, k_prior()),
    ensures
        emitted(final(out)@, r as int, nudge_response(input@)),
{
    proof {
        lemma_keys();
    }
    let item_id = extract_string_at_depth(input, "\"item_id\"".as_bytes(), 1);
    let owner_id = extract_string_at_depth(input, "\"owner_id\"".as_bytes(), 1);
    let intensity = extract_string_at_depth(input, "\"intensity\"".as_bytes(), 1);
    let channel = extract_string_at_depth(input, "\"channel\"".as_bytes(), 1);
    let preview = extract_string_at_depth(input, "\"message_preview\"".as_bytes(), 1);
    let event_at = extract_string_at_depth(input, "\"event_at\"".as_bytes(), 1);
    let prior = extract_i32(input, "\"prior_nudge_count\"".as_bytes());

    if item_id.len() == 0 || event_at.len() == 0 || prior.is_none() {
        return fail(out, "invalid_input".as_bytes());
    }
    if !(bytes_eq(intensity, "soft".as_bytes()) || bytes_eq(intensity, "direct".as_bytes())
        || bytes_eq(intensity, "escalate".as_bytes())) {
        return fail(out, "invalid_intensity".as_bytes());
    }
    let prior = prior.unwrap_or(0);
    if prior < 0 {
        return fail(out, "invalid_input".as_bytes());
    }
    let ordinal = (prior as u32).saturating_add(1);
    let chan: &[u8] = if channel.len() == 0 {
        "in_app".as_bytes()
    } else {
        channel
    };

    proof {
        lemma_tracks_start(out@);
    }
    let ghost mut d = Seq::<u8>::empty();
    let l = "{\"event\":{\"event_id\":\"nudge-".as_bytes();
    let mut i = emit_bytes(out, 0, l, Ghost(d));
    proof { d = d + l@; }
    i = emit_escaped(out, i, item_id, Ghost(d));
    proof { d = d + json_escape(item_id@); }
    let l = "-".as_bytes();
    i = emit_bytes(out, i, l, Ghost(d));
    proof { d = d + l@; }
    i = emit_u32(out, i, ordinal, Ghost(d));
    proof { d = d + decimal(ordinal as nat); }
    let l = "\",\"item_id\":\"".as_bytes();
    i = emit_bytes(out, i, l, Ghost(d));
    proof { d = d + l@; }
    i = emit_escaped(out, i, item_id, Ghost(d));
    proof { d = d + json_escape(item_id@); }
    let l = "\",\"owner_id\":\"".as_bytes();
    i = emit_bytes(out, i, l, Ghost(d));
    proof { d = d + l@; }
    i = emit_escaped(out, i, owner_id, Ghost(d));
    proof { d = d + json_escape(owner_id@); }
    let l = "\",\"intensity\":\"".as_bytes();
    i = emit_bytes(out, i, l, Ghost(d));
    proof { d = d + l@; }
    i = emit_bytes(out, i, intensity, Ghost(d));
    proof { d = d + intensity@; }
    let l = "\",\"channel\":\"".as_bytes();
    i = emit_bytes(out, i, l, Ghost(d));
    proof { d = d + l@; }
    i = emit_escaped(out, i, chan, Ghost(d));
    proof { d = d + json_escape(chan@); }
    let l = "\",\"message_preview\":\"".as_bytes();
    i = emit_bytes(out, i, l, Ghost(d));
    proof { d = d + l@; }
    i = emit_escaped(out, i, preview, Ghost(d));
    proof { d = d + json_escape(preview@); }
    let l = "\",\"event_at\":\"".as_bytes();
    i = emit_bytes(out, i, l, Ghost(d));
    proof { d = d + l@; }
    i = emit_escaped(out, i, event_at, Ghost(d));
    proof { d = d + json_escape(event_at@); }
    let l = "\",\"nudge_ordinal\":".as_bytes();
    i = emit_bytes(out, i, l, Ghost(d));
    proof { d = d + l@; }
    i = emit_u32(out, i, ordinal, Ghost(d));
    proof { d = d + decimal(ordinal as nat); }
    let l = "},\"reason_code\":\"ok\",\"evaluation_trace\":[\"constructed nudge event\",\"ordinal=".as_bytes();
    i = emit_bytes(out, i, l, Ghost(d));
    proof { d = d + l@; }
    i = emit_u32(out, i, ordinal, Ghost(d));
    proof { d = d + decimal(ordinal as nat); }
    let l = "\"]}".as_bytes();
    i = emit_bytes(out, i, l, Ghost(d));
    proof {
        d = d + l@;
        assert(d == nudge_response(input@));
    }
    i
}

/// The ASCII lower-case form of a byte.
pub open spec fn lower(b: u8) -> u8 {
    if 65u8 <= b <= 90u8 { (b + 32) as u8 } else { b }
}

/// `s` with every ASCII upper-case letter lowered.
pub open spec fn lower_seq(s: Seq<u8>) -> Seq<u8> {
    s.map_values(|b: u8| lower(b))
}

/// Lowers an ASCII upper-case letter; other bytes are returned unchanged.
pub fn ascii_lower(b: u8) -> (r: u8)
    ensures
        r == lower(b),
{
    if b >= 65u8 && b <= 90u8 {
        b + 32
    } else {
        b
    }
}

/// Whether `a` and `b` are equal up to ASCII letter case.
pub fn eq_ignore_case(a: &[u8], b: &[u8]) -> (r: bool)
    ensures
        r == (lower_seq(a@) == lower_seq(b@)),
{
    if a.len() != b.len() {
        proof {
            if lower_seq(a@) == lower_seq(b@) {
                assert(lower_seq(a@).len() == a@.len());
            }
        }
        return false;
    }
    let mut i: usize = 0;
    while i < a.len()
        invariant
            a@.len() == b@.len(),
            i <= a@.len(),
            forall|j: int| 0 <= j < i ==> lower(a@[j]) == lower(b@[j]),
        decreases a@.len() - i,
    {
        if ascii_lower(a[i]) != ascii_lower(b[i]) {
            proof {
                assert(lower_seq(a@)[i as int] != lower_seq(b@)[i as int]);
            }
            return false;
        }
        i = i + 1;
    }
    assert(lower_seq(a@) =~= lower_seq(b@));
    true
}

/// A space or a tab.
pub open spec fn is_blank(b: u8) -> bool {
    b == 32u8 || b == 9u8
}

/// `s` without its leading bytes that satisfy `p`.
pub open spec fn trim_front(s: Seq<u8>, p: spec_fn(u8) -> bool) -> Seq<u8>
    decreases s.len(),
{
    if s.len() > 0 && p(s[0]) {
        trim_front(s.drop_first(), p)
    } else {
        s
    }
}

/// `s` without its trailing bytes that satisfy `p`.
pub open spec fn trim_back(s: Seq<u8>, p: spec_fn(u8) -> bool) -> Seq<u8>
    decreases s.len(),
{
    if s.len() > 0 && p(s.last()) {
        trim_back(s.drop_last(), p)
    } else {
        s
    }
}

/// `s` without leading and trailing bytes that satisfy `p`.
pub open spec fn trim_spec(s: Seq<u8>, p: spec_fn(u8) -> bool) -> Seq<u8> {
    trim_back(trim_front(s, p), p)
}

proof fn lemma_trim_front(s: Seq<u8>, p: spec_fn(u8) -> bool, k: int)
    requires
        0 <= k <= s.len(),
        forall|j: int| 0 <= j < k ==> p(#[trigger] s[j]),
        k < s.len() ==> !p(s[k]),
    ensures
        trim_front(s, p) == s.skip(k),
    decreases k,
{
    if k > 0 {
        assert forall|j: int| 0 <= j < k - 1 implies p(#[trigger] s.drop_first()[j]) by {
            assert(s.drop_first()[j] == s[j + 1]);
        }
        lemma_trim_front(s.drop_first(), p, k - 1);
        assert(s.drop_first().skip(k - 1) =~= s.skip(k));
    } else {
        assert(s.skip(0) =~= s);
    }
}

proof fn lemma_trim_back(s: Seq<u8>, p: spec_fn(u8) -> bool, k: int)
    requires
        0 <= k <= s.len(),
        forall|j: int| k <= j < s.len() ==> p(#[trigger] s[j]),
        k > 0 ==> !p(s[k - 1]),
    ensures
        trim_back(s, p) == s.take(k),
    decreases s.len() - k,
{
    if k < s.len() {
        lemma_trim_back(s.drop_last(), p, k);
        assert(s.drop_last().take(k) =~= s.take(k));
    } else {
        assert(s.take(k) =~= s);
    }
}

/// `src` with surrounding spaces and tabs removed, lower-cased.
pub open spec fn normalized_email_spec(src: Seq<u8>) -> Seq<u8> {
    lower_seq(trim_spec(src, |b: u8| is_blank(b)))
}

/// Writes `src` trimmed of spaces and tabs and lower-cased to the start of
/// `dst`, as much of it as fits; returns the number of bytes written.
pub fn normalize_email(src: &[u8], dst: &mut [u8]) -> (r: usize)
    ensures
        r as int == if normalized_email_spec(src@).len() <= old(dst)@.len() {
            normalized_email_spec(src@).len() as int
        } else {
            old(dst)@.len() as int
        },
        final(dst)@.len() == old(dst)@.len(),
        final(dst)@.take(r as int) == normalized_email_spec(src@).take(r as int),
        final(dst)@.skip(r as int) == old(dst)@.skip(r as int),
{
    let ghost p = |b: u8| is_blank(b);
    let mut i: usize = 0;
    let mut j: usize = 0;
    while i < src.len() && (src[i] == 32u8 || src[i] == 9u8)
        invariant
            i <= src@.len(),
            forall|k: int| 0 <= k < i ==> is_blank(#[trigger] src@[k]),
        decreases src@.len() - i,
    {
        i = i + 1;
    }
    let mut end = src.len();
    while end > i && (src[end - 1] == 32u8 || src[end - 1] == 9u8)
        invariant
            i <= end <= src@.len(),
            forall|k: int| end <= k < src@.len() ==> is_blank(#[trigger] src@[k]),
            forall|k: int| 0 <= k < i ==> is_blank(#[trigger] src@[k]),
            i < src@.len() ==> !is_blank(src@[i as int]),
        decreases end,
    {
        end = end - 1;
    }
    let ghost start = i;
    proof {
        lemma_trim_front(src@, p, start as int);
        let f = src@.skip(start as int);
        assert forall|k: int| end - start <= k < f.len() implies p(#[trigger] f[k]) by {
            assert(f[k] == src@[start + k]);
        }
        if end > start {
            assert(f[end - start - 1] == src@[end - 1]);
        }
        lemma_trim_back(f, p, end - start);
        assert(f.take(end - start) =~= src@.subrange(start as int, end as int));
        assert(normalized_email_spec(src@) == lower_seq(src@.subrange(start as int, end as int)));
    }
    let ghost o = dst@;
    while i < end && j < dst.len()
        invariant
            start <= i <= end <= src@.len(),
            j == i - start,
            j <= dst@.len(),
            dst@.len() == o.len(),
            forall|k: int| 0 <= k < j ==> #[trigger] dst@[k] == lower(src@[start + k]),
            forall|k: int| j <= k < dst@.len() ==> #[trigger] dst@[k] == o[k],
        decreases end - i,
    {
        dst[j] = ascii_lower(src[i]);
        i = i + 1;
        j = j + 1;
    }
    assert(dst@.take(j as int) =~= normalized_email_spec(src@).take(j as int));
    assert(dst@.skip(j as int) =~= o.skip(j as int));
    j
}

/// Removes leading and trailing whitespace.
pub fn trim_ascii(s: &[u8]) -> (r: &[u8])
    ensures
        r@ == trim_spec(s@, |b: u8| is_ws(b)),
{
    let ghost p = |b: u8| is_ws(b);
    let mut start: usize = 0;
    let mut end = s.len();
    while start < end && (s[start] == 32u8 || s[start] == 9u8 || s[start] == 10u8 || s[start] == 13u8)
        invariant
            start <= end == s@.len(),
            forall|k: int| 0 <= k < start ==> is_ws(#[trigger] s@[k]),
        decreases end - start,
    {
        start = start + 1;
    }
    while end > start && (s[end - 1] == 32u8 || s[end - 1] == 9u8 || s[end - 1] == 10u8 || s[end - 1] == 13u8)
        invariant
            start <= end <= s@.len(),
            forall|k: int| end <= k < s@.len() ==> is_ws(#[trigger] s@[k]),
            forall|k: int| 0 <= k < start ==> is_ws(#[trigger] s@[k]),
            start < s@.len() ==> !is_ws(s@[start as int]),
        decreases end,
    {
        end = end - 1;
    }
    proof {
        lemma_trim_front(s@, p, start as int);
        let f = s@.skip(start as int);
        assert forall|k: int| end - start <= k < f.len() implies p(#[trigger] f[k]) by {
            assert(f[k] == s@[start + k]);
        }
        if end > start {
            assert(f[end - start - 1] == s@[end - 1]);
        }
        lemma_trim_back(f, p, end - start);
        assert(f.take(end - start) =~= s@.subrange(start as int, end as int));
    }
    &s[start..end]
}

/// Days from 1970-01-01 to the proleptic Gregorian date `y`-`m`-`d`
/// (counting March as the first month of the computational year).
pub open spec fn civil_days(y: int, m: int, d: int) -> int {
    let y2 = if m <= 2 { y - 1 } else { y };
    let era = y2 / 400;
    let yoe = y2 - era * 400;
    let mp = if m > 2 { m - 3 } else { m + 9 };
    let doy = (153 * mp + 2) / 5 + d - 1;
    let doe = yoe * 365 + yoe / 4 - yoe / 100 + doy;
    era * 146097 + doe - 719468
}

/// The day number of a `YYYY-MM-DD` date: dashes at indices 4 and 7, each
/// field an integer literal (read up to its first non-digit), month in
/// 1..=12 and day in 1..=31.
pub open spec fn ymd_days_spec(s: Seq<u8>) -> Option<int> {
    if s.len() < 10 || s[4] != 45u8 || s[7] != 45u8 {
        None
    } else {
        match (
            parse_int_spec(s.take(4)),
            parse_int_spec(s.subrange(5, 7)),
            parse_int_spec(s.subrange(8, 10)),
        ) {
            (Some(y), Some(m), Some(d)) => if m < 1 || m > 12 || d < 1 || d > 31 {
                None
            } else {
                Some(civil_days(y, m, d))
            },
            _ => None,
        }
    }
}

proof fn lemma_digits_bound(s: Seq<u8>)
    requires
        forall|i: int| 0 <= i < s.len() ==> is_digit(#[trigger] s[i]),
    ensures
        s.len() <= 4 ==> digits_value(s) <= 9999,
        s.len() <= 3 ==> digits_value(s) <= 999,
        s.len() <= 2 ==> digits_value(s) <= 99,
        s.len() <= 1 ==> digits_value(s) <= 9,
    decreases s.len(),
{
    if s.len() > 0 {
        lemma_digits_bound(s.drop_last());
    }
}

proof fn lemma_small_magnitude(s: Seq<u8>)
    requires
        s.len() <= 4,
    ensures
        int_magnitude(s) <= 9999,
        s.len() <= 2 ==> int_magnitude(s) <= 99,
{
    let j = sign_len(s);
    let t = s.skip(j);
    lemma_digit_run_props(t);
    let run = t.take(digit_run(t) as int);
    lemma_digits_bound(run);
}

proof fn lemma_digit_run_props(s: Seq<u8>)
    ensures
        digit_run(s) <= s.len(),
        forall|i: int| 0 <= i < digit_run(s) ==> is_digit(#[trigger] s[i]),
    decreases s.len(),
{
    if s.len() > 0 && is_digit(s[0]) {
        lemma_digit_run_props(s.drop_first());
        assert forall|i: int| 0 <= i < digit_run(s) implies is_digit(#[trigger] s[i]) by {
            if i > 0 {
                assert(s[i] == s.drop_first()[i - 1]);
            }
        }
    }
}

/// Days since 1970-01-01 of the `YYYY-MM-DD` date that opens `s`.
pub fn parse_ymd_days(s: &[u8]) -> (r: Option<i32>)
    ensures
        r matches Some(v) ==> ymd_days_spec(s@) == Some(v as int),
        r is None ==> ymd_days_spec(s@) is None,
{
    if s.len() < 10 || s[4] != 45u8 || s[7] != 45u8 {
        return None;
    }
    let ys = &s[0..4];
    let ms = &s[5..7];
    let ds = &s[8..10];
    proof {
        assert(ys@ =~= s@.take(4));
        lemma_small_magnitude(ys@);
        lemma_small_magnitude(ms@);
        lemma_small_magnitude(ds@);
    }
    let y = match parse_i32(ys) {
        Some(v) => v,
        None => return None,
    };
    let m = match parse_i32(ms) {
        Some(v) => v,
        None => return None,
    };
    let d = match parse_i32(ds) {
        Some(v) => v,
        None => return None,
    };
    if m < 1 || m > 12 || d < 1 || d > 31 {
        return None;
    }
    proof {
        assert(-9999 <= y <= 9999);
    }
    let y = y - if m <= 2 { 1 } else { 0 };
    let base = if y >= 0 { y } else { y - 399 };
    let era = base / 400;
    proof {
        let yi = y as int;
        let bi = base as int;
        assert(bi >= 0 ==> era as int == bi / 400);
        assert(era as int == yi / 400) by (nonlinear_arith)
            requires
                -10000 <= yi <= 9999,
                yi >= 0 ==> bi == yi,
                yi < 0 ==> bi == yi - 399,
                bi >= 0 ==> era as int == bi / 400,
                bi < 0 ==> era as int == -((-bi) / 400),
        {
        }
    }
    let yoe = (y - era * 400) as u32;
    let mp = if m > 2 {
        (m - 3) as u32
    } else {
        (m + 9) as u32
    };
    let doy = (153 * mp + 2) / 5 + d as u32 - 1;
    let doe = yoe * 365 + yoe / 4 - yoe / 100 + doy;
    Some((era * 146097 + doe as i32) - 719468)
}

/// The fractional digits of a score: `0` for a whole number, otherwise up
/// to three digits without trailing zeros.
pub open spec fn millis_fraction_text(frac: nat) -> Seq<u8> {
    let d0 = (48 + frac / 100) as u8;
    let d1 = (48 + (frac / 10) % 10) as u8;
    let d2 = (48 + frac % 10) as u8;
    if frac == 0 {
        seq![48u8]
    } else if (frac / 10) % 10 == 0 && frac % 10 == 0 {
        seq![d0]
    } else if frac % 10 == 0 {
        seq![d0, d1]
    } else {
        seq![d0, d1, d2]
    }
}

/// The decimal spelling of a score given in thousandths.
pub open spec fn score_text(millis: nat) -> Seq<u8> {
    decimal(millis / 1000) + seq![46u8] + millis_fraction_text(millis % 1000)
}

/// Writes the score `millis / 1000` with up to three decimals at the start
/// of `out`. A score with a fraction must fit in `out`.
pub fn format_score_millis(out: &mut [u8], millis: u32) -> (r: usize)
    requires
        millis % 1000 == 0 || score_text(millis as nat).len() <= old(out)@.len(),
    ensures
        emitted(final(out)@, r as int, score_text(millis as nat)),
        final(out)@.len() == old(out)@.len(),
{
    let whole = millis / 1000;
    let frac = millis % 1000;
    proof {
        lemma_tracks_start(out@);
        lemma_dot_bytes();
    }
    let ghost mut d = Seq::<u8>::empty();
    let mut i = emit_u32(out, 0, whole, Ghost(d));
    proof { d = d + decimal(whole as nat); }
    i = emit_bytes(out, i, ".".as_bytes(), Ghost(d));
    proof { d = d + seq![46u8]; }
    if frac == 0 {
        i = emit_bytes(out, i, "0".as_bytes(), Ghost(d));
        proof {
            d = d + seq![48u8];
            assert(d =~= score_text(millis as nat));
        }
        return i;
    }
    let ghost full = score_text(millis as nat);
    proof {
        assert(full =~= d + millis_fraction_text(frac as nat));
    }
    let d0 = (frac / 100) as u8;
    let d1 = ((frac / 10) % 10) as u8;
    let d2 = (frac % 10) as u8;
    i = emit_byte(out, i, 48u8 + d0, Ghost(d));
    proof { d = d.push((48 + d0) as u8); }
    if d1 != 0 || d2 != 0 {
        i = emit_byte(out, i, 48u8 + d1, Ghost(d));
        proof { d = d.push((48 + d1) as u8); }
        if d2 != 0 {
            i = emit_byte(out, i, 48u8 + d2, Ghost(d));
            proof { d = d.push((48 + d2) as u8); }
        }
    }
    proof {
        assert(d =~= full);
    }
    i
}

proof fn lemma_dot_bytes()
    ensures
        ".".spec_bytes() == seq![46u8],
        "0".spec_bytes() == seq![48u8],
{
    broadcast use vstd::string::group_string_axioms;
    reveal_strlit(".");
    reveal_strlit("0");
    assert(vstd::string::is_ascii("."));
    assert(vstd::string::is_ascii("0"));
    assert(".".spec_bytes() =~= seq![46u8]);
    assert("0".spec_bytes() =~= seq![48u8]);
}

/// A byte of a decimal number token: a digit or a dot.
pub open spec fn is_number_byte(b: u8) -> bool {
    is_digit(b) || b == 46u8
}

/// The number of leading bytes of `s` that are digits or dots.
pub open spec fn number_token_len(s: Seq<u8>) -> nat
    decreases s.len(),
{
    if s.len() > 0 && is_number_byte(s[0]) {
        1 + number_token_len(s.drop_first())
    } else {
        0
    }
}

/// Reading a token of digits and dots left to right: the whole part
/// collects the digits before the first dot, the fraction the first three
/// digits after it (`.2` = (whole, fraction, fraction digits, dot seen)).
pub open spec fn millis_scan(s: Seq<u8>) -> (nat, nat, nat, bool)
    decreases s.len(),
{
    if s.len() == 0 {
        (0, 0, 0, false)
    } else {
        let prev = millis_scan(s.drop_last());
        let b = s.last();
        if b == 46u8 {
            (prev.0, prev.1, prev.2, true)
        } else {
            let dg = (b - 48) as nat;
            if prev.3 {
                if prev.2 < 3 {
                    (prev.0, prev.1 * 10 + dg, prev.2 + 1, true)
                } else {
                    prev
                }
            } else {
                (prev.0 * 10 + dg, prev.1, prev.2, false)
            }
        }
    }
}

/// A fraction with `digits` digits, scaled to three digits.
pub open spec fn pad_fraction(frac: nat, digits: nat) -> nat
    decreases 3 - digits,
{
    if digits >= 3 {
        frac
    } else {
        pad_fraction(frac * 10, digits + 1)
    }
}

/// The number that opens `rest` in thousandths, the fraction cut to three
/// digits; `None` when `rest` is empty.
pub open spec fn number_millis_spec(rest: Seq<u8>) -> Option<int> {
    if rest.len() == 0 {
        None
    } else {
        let st = millis_scan(rest.take(number_token_len(rest) as int));
        Some((st.0 * 1000 + pad_fraction(st.1, st.2)) as int)
    }
}

/// The number after `key` (first occurrence) in thousandths.
pub open spec fn number_millis_after_key(hay: Seq<u8>, key: Seq<u8>) -> Option<int> {
    match crate::scan::value_after_key_spec(hay, key) {
        Some(rest) => number_millis_spec(rest),
        None => None,
    }
}

proof fn lemma_token(s: Seq<u8>)
    ensures
        number_token_len(s) <= s.len(),
        forall|i: int| 0 <= i < number_token_len(s) ==> is_number_byte(#[trigger] s[i]),
        number_token_len(s) < s.len() ==> !is_number_byte(s[number_token_len(s) as int]),
    decreases s.len(),
{
    if s.len() > 0 && is_number_byte(s[0]) {
        lemma_token(s.drop_first());
        assert forall|i: int| 0 <= i < number_token_len(s) implies is_number_byte(#[trigger] s[i]) by {
            if i > 0 {
                assert(s[i] == s.drop_first()[i - 1]);
            }
        }
    }
}

proof fn lemma_scan_bounds(s: Seq<u8>)
    requires
        forall|i: int| 0 <= i < s.len() ==> is_number_byte(#[trigger] s[i]),
    ensures
        millis_scan(s).2 <= 3,
        millis_scan(s).1 < 1000,
        millis_scan(s).2 == 0 ==> millis_scan(s).1 == 0,
        millis_scan(s).2 == 1 ==> millis_scan(s).1 < 10,
        millis_scan(s).2 == 2 ==> millis_scan(s).1 < 100,
    decreases s.len(),
{
    if s.len() > 0 {
        lemma_scan_bounds(s.drop_last());
    }
}

proof fn lemma_scan_whole_mono(s: Seq<u8>, k: int)
    requires
        0 <= k <= s.len(),
        forall|i: int| 0 <= i < s.len() ==> is_number_byte(#[trigger] s[i]),
    ensures
        millis_scan(s.take(k)).0 <= millis_scan(s).0,
    decreases s.len() - k,
{
    if k < s.len() {
        lemma_scan_whole_mono(s.drop_last(), k);
        assert(s.drop_last().take(k) =~= s.take(k));
    } else {
        assert(s.take(k) =~= s);
    }
}

proof fn lemma_pad_bound(f: nat, fd: nat)
    requires
        fd <= 3,
        fd == 0 ==> f == 0,
        fd == 1 ==> f < 10,
        fd == 2 ==> f < 100,
        f < 1000,
    ensures
        pad_fraction(f, fd) < 1000,
    decreases 3 - fd,
{
    if fd < 3 {
        lemma_pad_bound(f * 10, fd + 1);
    }
}

/// The number after `key` (first occurrence) in thousandths: digits before
/// the first dot form the whole part, the first three digits after it the
/// fraction; the token ends at the first byte that is neither a digit nor a
/// dot.
pub fn parse_number_millis(hay: &[u8], key: &[u8]) -> (r: Option<u32>)
    requires
        key@.len() > 0,
        number_millis_after_key(hay@, key@) matches Some(v) ==> v <= u32::MAX,
    ensures
        r matches Some(v) ==> number_millis_after_key(hay@, key@) == Some(v as int),
        r is None ==> number_millis_after_key(hay@, key@) is None,
{
    let rest = match crate::scan::value_after_key(hay, key) {
        Some(rest) => rest,
        None => return None,
    };
    if rest.len() == 0 {
        return None;
    }
    let ghost n = number_token_len(rest@);
    let ghost tok = rest@.take(n as int);
    proof {
        lemma_token(rest@);
        assert forall|i: int| 0 <= i < tok.len() implies is_number_byte(#[trigger] tok[i]) by {
            assert(tok[i] == rest@[i]);
        }
        lemma_scan_bounds(tok);
        lemma_pad_bound(millis_scan(tok).1, millis_scan(tok).2);
    }
    let mut whole: u32 = 0;
    let mut frac: u32 = 0;
    let mut frac_digits: u32 = 0;
    let mut seen_dot = false;
    let mut j: usize = 0;
    assert(tok.take(0) =~= Seq::<u8>::empty());
    assert(tok.take(n as int) =~= tok);
    while j < rest.len()
        invariant_except_break
            j <= n,
            n <= rest@.len(),
            tok == rest@.take(n as int),
            forall|i: int| 0 <= i < tok.len() ==> is_number_byte(#[trigger] tok[i]),
            n < rest@.len() ==> !is_number_byte(rest@[n as int]),
            millis_scan(tok).0 * 1000 <= u32::MAX,
            tok.take(n as int) == tok,
            (whole as nat, frac as nat, frac_digits as nat, seen_dot) == millis_scan(tok.take(j as int)),
        ensures
            j == n,
            (whole as nat, frac as nat, frac_digits as nat, seen_dot) == millis_scan(tok),
        decreases rest@.len() - j,
    {
        let b = rest[j];
        if b == 44u8 || b == 125u8 || b == 93u8 || b == 32u8 || b == 10u8 {
            proof {
                assert(j == n) by {
                    if j < n {
                        assert(tok[j as int] == b);
                    }
                }
                assert(tok.take(j as int) =~= tok);
            }
            break;
        }
        proof {
            if j < n {
                assert(tok.take(j + 1).drop_last() =~= tok.take(j as int));
                assert(tok.take(j + 1).last() == b);
                assert forall|i: int| 0 <= i < j implies is_number_byte(#[trigger] tok.take(j as int)[i]) by {
                    assert(tok.take(j as int)[i] == tok[i]);
                }
                lemma_scan_bounds(tok.take(j as int));
                lemma_scan_whole_mono(tok, j + 1);
            }
        }
        if b == 46u8 {
            seen_dot = true;
            j = j + 1;
            continue;
        }
        if b < 48u8 || b > 57u8 {
            proof {
                assert(j == n) by {
                    if j < n {
                        assert(tok[j as int] == b);
                    }
                }
                assert(tok.take(j as int) =~= tok);
            }
            break;
        }
        let digit = (b - 48u8) as u32;
        if seen_dot {
            if frac_digits < 3 {
                frac = frac * 10 + digit;
                frac_digits = frac_digits + 1;
            }
        } else {
            whole = whole * 10 + digit;
        }
        j = j + 1;
    }
    proof {
        lemma_scan_bounds(tok);
    }
    while frac_digits < 3
        invariant
            frac_digits <= 3,
            pad_fraction(frac as nat, frac_digits as nat) == pad_fraction(millis_scan(tok).1, millis_scan(tok).2),
            pad_fraction(millis_scan(tok).1, millis_scan(tok).2) < 1000,
            frac_digits == 0 ==> frac == 0,
            frac_digits == 1 ==> frac < 10,
            frac_digits == 2 ==> frac < 100,
            frac < 1000,
        decreases 3 - frac_digits,
    {
        frac = frac * 10;
        frac_digits = frac_digits + 1;
    }
    Some(whole * 1000 + frac)
}

} // verus!
