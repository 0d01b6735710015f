//! Classifier release gate: counts the evaluation cases of a request, how
//! many held a positive and how many positives were missed, and approves
//! the classifier only with enough positives and a low enough miss rate.
use vstd::prelude::*;
use vstd::string::StringSliceAdditionalSpecFns;
use crate::emit::{
    copies, copy_json, copy_next, escaped_chunks, put_chunk, put_signed, lemma_run_holds, copy_signed, escape_byte, holds_greedy, lemma_copies_concat,
    lemma_copies_greedy, lemma_holds_greedy_start, signed_chunks,
};
use crate::scan::{
    balanced_spec, bracketed_after_key, bracketed_after_key_spec, digit_run, digits_value,
    extract_string, extract_string_spec, find_spec, index_of_from, is_digit, lemma_digit_run,
    lemma_digits_prefix_le, occurs_at, occurs_at_exec, scannable, skip_ws, skip_ws_spec,
    value_after_key, value_after_key_spec,
};

verus! {

/// `s` without its leading whitespace.
pub fn skip(s: &[u8]) -> (r: &[u8])
    ensures
        r@ == skip_ws_spec(s@),
{
    skip_ws(s)
}

/// The first index of `key` in `s`.
pub fn find(s: &[u8], key: &[u8]) -> (r: Option<usize>)
    requires
        key@.len() > 0,
    ensures
        r matches Some(i) ==> find_spec(s@, key@) == Some(i as int),
        r is None ==> find_spec(s@, key@) is None,
{
    crate::scan::find(s, key)
}

/// The index of the brace that closes the first object of `s`.
pub fn balanced_end(s: &[u8]) -> (r: Option<usize>)
    requires
        scannable(s@),
    ensures
        r matches Some(i) ==> balanced_spec(s@, 123u8, 125u8) == Some(i as int) && i < s@.len(),
        r is None ==> balanced_spec(s@, 123u8, 125u8) is None,
{
    crate::scan::balanced_end(s, 123u8, 125u8)
}

/// The object after the colon that follows the first `key` of `s`.
pub fn object_after<'a>(s: &'a [u8], key: &[u8]) -> (r: Option<&'a [u8]>)
    requires
        scannable(s@),
        key@.len() > 0,
    ensures
        r matches Some(v) ==> bracketed_after_key_spec(s@, key@, 123u8, 125u8) == Some(v@) && v@.len()
            <= s@.len(),
        r is None ==> bracketed_after_key_spec(s@, key@, 123u8, 125u8) is None,
{
    bracketed_after_key(s, key, 123u8, 125u8)
}

/// The string after the colon that follows the first `key` of `s`, or
/// empty.
pub fn string_after<'a>(s: &'a [u8], key: &[u8]) -> (r: &'a [u8])
    requires
        key@.len() > 0,
    ensures
        r@ == extract_string_spec(s@, key@),
{
    extract_string(s, key)
}

/// The unsigned integer after the colon that follows the first `key`:
/// whitespace skipped, at least one digit, at most `i32::MAX`.
pub open spec fn int_after_spec(s: Seq<u8>, key: Seq<u8>) -> Option<int> {
    match value_after_key_spec(s, key) {
        None => None,
        Some(rest) => {
            let run = digit_run(rest) as int;
            let value = digits_value(rest.take(run)) as int;
            if run == 0 || value > i32::MAX {
                None
            } else {
                Some(value)
            }
        },
    }
}

/// The unsigned integer after the colon that follows the first `key`.
pub fn int_after(s: &[u8], key: &[u8]) -> (r: Option<i32>)
    requires
        key@.len() > 0,
    ensures
        match r {
            Some(v) => int_after_spec(s@, key@) == Some(v as int),
            None => int_after_spec(s@, key@) is None,
        },
{
    let rest = match value_after_key(s, key) {
        Some(r) => r,
        None => return None,
    };
    let ghost run = digit_run(rest@) as int;
    proof {
        lemma_digit_run(rest@);
        assert(rest@.take(0) =~= Seq::<u8>::empty());
    }
    let mut j: usize = 0;
    let mut n: i32 = 0;
    while j < rest.len() && rest[j] >= 48u8 && rest[j] <= 57u8
        invariant
            j <= rest@.len(),
            run == digit_run(rest@),
            run <= rest@.len(),
            forall|k: int| 0 <= k < run ==> is_digit(#[trigger] rest@[k]),
            run < rest@.len() ==> !is_digit(rest@[run]),
            j <= run,
            n >= 0,
            n as int == digits_value(rest@.take(j as int)),
            value_after_key_spec(s@, key@) == Some(rest@),
        decreases rest@.len() - j,
    {
        let ghost k = (j + 1) as int;
        proof {
            if j == run {
                assert(rest@[run] == rest@[j as int]);
            }
            assert(rest@.take(k).drop_last() =~= rest@.take(k - 1));
            assert(rest@.take(run).take(k) =~= rest@.take(k));
            lemma_digits_prefix_le(rest@.take(run), k);
        }
        let d = (rest[j] - 48u8) as i32;
        let m = match n.checked_mul(10) {
            Some(m) => m,
            None => return None,
        };
        n = match m.checked_add(d) {
            Some(v) => v,
            None => return None,
        };
        j = j + 1;
    }
    if j == 0 {
        return None;
    }
    Some(n)
}

/// The number of indexes from `i` on where `key` occurs in `s`.
pub open spec fn count_from(s: Seq<u8>, key: Seq<u8>, i: int) -> nat
    decreases s.len() + 1 - i,
{
    if i < 0 || i + key.len() > s.len() {
        0
    } else {
        (if occurs_at(s, key, i) { 1nat } else { 0nat }) + count_from(s, key, i + 1)
    }
}

/// The number of (possibly overlapping) occurrences of `key` in `s`; none
/// for an empty key.
pub open spec fn count_spec(s: Seq<u8>, key: Seq<u8>) -> nat {
    if key.len() == 0 {
        0
    } else {
        count_from(s, key, 0)
    }
}

proof fn lemma_count_le(s: Seq<u8>, key: Seq<u8>, i: int)
    requires
        0 <= i,
        key.len() > 0,
    ensures
        count_from(s, key, i) <= if s.len() >= i { s.len() - i } else { 0 },
    decreases s.len() + 1 - i,
{
    if !(i < 0 || i + key.len() > s.len()) {
        lemma_count_le(s, key, i + 1);
    }
}

/// The number of occurrences of `pattern` in `s`.
pub fn count_pattern(s: &[u8], pattern: &[u8]) -> (r: usize)
    ensures
        r == count_spec(s@, pattern@),
        r <= s@.len(),
{
    if pattern.len() == 0 || s.len() < pattern.len() {
        proof {
            if pattern.len() > 0 {
                assert(count_from(s@, pattern@, 0) == 0);
            }
        }
        return 0;
    }
    let mut n: usize = 0;
    let mut i: usize = 0;
    proof {
        lemma_count_le(s@, pattern@, 0);
    }
    while i <= s.len() - pattern.len()
        invariant
            pattern@.len() > 0,
            pattern@.len() <= s@.len(),
            i <= s.len() - pattern.len() + 1,
            n + count_from(s@, pattern@, i as int) == count_from(s@, pattern@, 0),
            count_from(s@, pattern@, 0) <= s@.len(),
        decreases s.len() - pattern.len() + 1 - i,
    {
        if occurs_at_exec(s, i, pattern) {
            n = n + 1;
        }
        i = i + 1;
    }
    n
}

/// The number of occurrences of `key` in `s`.
pub fn count_key(s: &[u8], key: &[u8]) -> (r: usize)
    ensures
        r == count_spec(s@, key@),
        r <= s@.len(),
{
    count_pattern(s, key)
}

/// Copies `bytes` at `at` when they fit whole.
pub fn copy(out: &mut [u8], at: usize, bytes: &[u8]) -> (r: usize)
    ensures
        (final(out)@, r as int) == copies(old(out)@, at as int, seq![bytes@]),
        final(out)@.len() == old(out)@.len(),
{
    let ghost o = out@;
    let r = copy_next(out, at, bytes, Ghost(o), Ghost(at as int), Ghost(Seq::empty()));
    assert(Seq::<Seq<u8>>::empty().push(bytes@) =~= seq![bytes@]);
    proof {
        lemma_holds_greedy_len(o, at as int, bytes@);
    }
    r
}

proof fn lemma_holds_greedy_len(o: Seq<u8>, at: int, b: Seq<u8>)
    ensures
        copies(o, at, seq![b]).0.len() == o.len(),
{
    assert(seq![b].drop_last() =~= Seq::<Seq<u8>>::empty());
    assert(copies(o, at, Seq::<Seq<u8>>::empty()) == (o, at));
}

/// Writes `value` in decimal at `at`: `0` whole, else the sign, then each
/// digit where it fits.
pub fn write_int(out: &mut [u8], at: usize, value: i32) -> (r: usize)
    requires
        value > i32::MIN,
    ensures
        (final(out)@, r as int) == copies(old(out)@, at as int, signed_chunks(value as int)),
{
    copy_signed(out, at, value as i64)
}

/// The counts a release decision rests on.
pub ghost struct GateCounts {
    pub total: int,
    pub positive: int,
    pub false_negatives: int,
    pub millis: int,
}

/// The counts of the request: cases, cases holding a positive, positives
/// that were not detected, and the miss rate in thousandths (1000 when there
/// is no positive case).
pub open spec fn gate_counts(request: Seq<u8>) -> GateCounts {
    let total = count_spec(request, "\"contains_positive\"".spec_bytes()) as int;
    let positive = count_spec(request, "\"contains_positive\":true".spec_bytes()) as int;
    let detected = count_spec(
        request,
        "\"contains_positive\":true,\"positive_detected\":true".spec_bytes(),
    ) as int;
    let false_negatives = if positive >= detected { positive - detected } else { 0 };
    GateCounts {
        total,
        positive,
        false_negatives,
        millis: if positive == 0 { 1000 } else { false_negatives * 1000 / positive },
    }
}

/// The closing of the decision document: rejected for too few positive
/// cases, rejected for too many misses, else approved.
pub open spec fn decision_chunk(policy: Seq<u8>, c: GateCounts) -> Seq<u8> {
    let min_pos = match int_after_spec(policy, "\"minimum_positive_cases\"".spec_bytes()) {
        Some(v) => v,
        None => i32::MAX as int,
    };
    let max_millis = match int_after_spec(policy, "\"maximum_false_negative_millis\"".spec_bytes()) {
        Some(v) => v,
        None => -1,
    };
    if c.positive < min_pos {
        ",\"decision\":\"reject\",\"reason\":\"insufficient_positive_cases\"}".spec_bytes()
    } else if c.millis > max_millis {
        ",\"decision\":\"reject\",\"reason\":\"false_negative_limit_exceeded\"}".spec_bytes()
    } else {
        ",\"decision\":\"approve_for_policy\",\"reason\":\"release_gate_passed\"}".spec_bytes()
    }
}

/// The chunks of the decision document for a request with policy `policy`.
pub open spec fn gate_chunks(request: Seq<u8>, policy: Seq<u8>) -> Seq<Seq<u8>> {
    let c = gate_counts(request);
    seq!["{\"policy_version\":\"".spec_bytes()] + escaped_chunks(
        extract_string_spec(policy, "\"version\"".spec_bytes()),
    ) + seq!["\",\"total_cases\":".spec_bytes()] + signed_chunks(c.total) + seq![
        ",\"positive_cases\":".spec_bytes(),
    ] + signed_chunks(c.positive) + seq![",\"false_negatives\":".spec_bytes()] + signed_chunks(
        c.false_negatives,
    ) + seq![",\"false_negative_millis\":".spec_bytes()] + signed_chunks(c.millis) + seq![
        decision_chunk(policy, c),
    ]
}

proof fn lemma_gate_keys()
    ensures
        "\"policy\"".spec_bytes().len() > 0,
        "\"version\"".spec_bytes().len() > 0,
        "\"minimum_positive_cases\"".spec_bytes().len() > 0,
        "\"maximum_false_negative_millis\"".spec_bytes().len() > 0,
{
    broadcast use vstd::string::group_string_axioms;
    reveal_strlit("\"policy\"");
    reveal_strlit("\"version\"");
    reveal_strlit("\"minimum_positive_cases\"");
    reveal_strlit("\"maximum_false_negative_millis\"");
    assert(vstd::string::is_ascii("\"policy\""));
    assert(vstd::string::is_ascii("\"version\""));
    assert(vstd::string::is_ascii("\"minimum_positive_cases\""));
    assert(vstd::string::is_ascii("\"maximum_false_negative_millis\""));
}

/// Decides the release gate for `request` and writes the decision document
/// to `out`; returns its length, or zero (writing nothing) when the request
/// has no policy object.
pub fn resolve(request: &[u8], out: &mut [u8]) -> (r: usize)
    requires
        scannable(request@),
    ensures
        match bracketed_after_key_spec(request@, "\"policy\"".spec_bytes(), 123u8, 125u8) {
            None => r == 0 && final(out)@ == old(out)@,
            Some(policy) => holds_greedy(final(out)@, r as int, gate_chunks(request@, policy)),
        },
{
    proof {
        lemma_gate_keys();
    }
    let policy = match object_after(request, "\"policy\"".as_bytes()) {
        Some(v) => v,
        None => return 0,
    };
    let policy_version = string_after(policy, "\"version\"".as_bytes());
    let minimum_positive_cases = match int_after(policy, "\"minimum_positive_cases\"".as_bytes()) {
        Some(v) => v,
        None => i32::MAX,
    };
    let maximum_false_negative_millis = match int_after(
        policy,
        "\"maximum_false_negative_millis\"".as_bytes(),
    ) {
        Some(v) => v,
        None => -1,
    };
    let total_cases = count_key(request, "\"contains_positive\"".as_bytes());
    let positive_cases = count_pattern(request, "\"contains_positive\":true".as_bytes());
    let detected_positive = count_pattern(
        request,
        "\"contains_positive\":true,\"positive_detected\":true".as_bytes(),
    );
    let false_negatives = if positive_cases >= detected_positive {
        positive_cases - detected_positive
    } else {
        0
    };
    let false_negative_millis: i32 = if positive_cases == 0 {
        1000
    } else {
        let num: u64 = false_negatives as u64 * 1000;
        let den: u64 = positive_cases as u64;
        let q = num / den;
        assert(q <= 1000) by (nonlinear_arith)
            requires
                q == num / den,
                num == false_negatives * 1000,
                den == positive_cases,
                false_negatives <= positive_cases,
                positive_cases > 0,
        ;
        q as i32
    };
    let ghost o = out@;
    let ghost mut ch = Seq::<Seq<u8>>::empty();
    let l = "{\"policy_version\":\"".as_bytes();
    let mut at = put_chunk(out, 0, l, Ghost(o), Ghost(ch));
    proof {
        ch = ch + seq![l@];
        lemma_copies_concat(o, 0, ch, escaped_chunks(policy_version@));
    }
    at = copy_json(out, at, policy_version);
    proof { ch = ch + escaped_chunks(policy_version@); }
    let l = "\",\"total_cases\":".as_bytes();
    at = put_chunk(out, at, l, Ghost(o), Ghost(ch));
    proof { ch = ch + seq![l@]; }
    at = put_signed(out, at, total_cases as i64, Ghost(o), Ghost(ch));
    proof { ch = ch + signed_chunks(total_cases as int); }
    let l = ",\"positive_cases\":".as_bytes();
    at = put_chunk(out, at, l, Ghost(o), Ghost(ch));
    proof { ch = ch + seq![l@]; }
    at = put_signed(out, at, positive_cases as i64, Ghost(o), Ghost(ch));
    proof { ch = ch + signed_chunks(positive_cases as int); }
    let l = ",\"false_negatives\":".as_bytes();
    at = put_chunk(out, at, l, Ghost(o), Ghost(ch));
    proof { ch = ch + seq![l@]; }
    at = put_signed(out, at, false_negatives as i64, Ghost(o), Ghost(ch));
    proof { ch = ch + signed_chunks(false_negatives as int); }
    let l = ",\"false_negative_millis\":".as_bytes();
    at = put_chunk(out, at, l, Ghost(o), Ghost(ch));
    proof { ch = ch + seq![l@]; }
    at = put_signed(out, at, false_negative_millis as i64, Ghost(o), Ghost(ch));
    proof { ch = ch + signed_chunks(false_negative_millis as int); }
    let closing = if (positive_cases as i32) < minimum_positive_cases {
        ",\"decision\":\"reject\",\"reason\":\"insufficient_positive_cases\"}".as_bytes()
    } else if false_negative_millis > maximum_false_negative_millis {
        ",\"decision\":\"reject\",\"reason\":\"false_negative_limit_exceeded\"}".as_bytes()
    } else {
        ",\"decision\":\"approve_for_policy\",\"reason\":\"release_gate_passed\"}".as_bytes()
    };
    at = put_chunk(out, at, closing, Ghost(o), Ghost(ch));
    proof {
        ch = ch + seq![closing@];
        assert(ch =~= gate_chunks(request@, policy@));
        lemma_run_holds(o, out@, at as int, ch);
    }
    at
}

/// The indices from `from` on at which `key` occurs in `s`.
pub open spec fn occurrences(s: Seq<u8>, key: Seq<u8>, from: int) -> Set<int> {
    Set::new(|i: int| from <= i && i + key.len() <= s.len() && occurs_at(s, key, i))
}

/// Counting a key counts every index at which it occurs, overlapping
/// occurrences included.
pub proof fn lemma_count_is_occurrences(s: Seq<u8>, key: Seq<u8>, i: int)
    requires
        key.len() > 0,
        0 <= i,
    ensures
        occurrences(s, key, i).finite(),
        count_from(s, key, i) == occurrences(s, key, i).len(),
    decreases s.len() + 1 - i,
{
    broadcast use vstd::set::group_set_axioms;
    if i + key.len() > s.len() {
        assert(occurrences(s, key, i) =~= Set::<int>::empty());
    } else {
        lemma_count_is_occurrences(s, key, i + 1);
        let rest = occurrences(s, key, i + 1);
        if occurs_at(s, key, i) {
            assert(occurrences(s, key, i) =~= rest.insert(i));
            assert(!rest.contains(i));
        } else {
            assert(occurrences(s, key, i) =~= rest);
        }
    }
}

/// The count of a non-empty key is the number of indices at which it
/// occurs.
pub proof fn lemma_count_spec_occurrences(s: Seq<u8>, key: Seq<u8>)
    requires
        key.len() > 0,
    ensures
        count_spec(s, key) == occurrences(s, key, 0).len(),
{
    lemma_count_is_occurrences(s, key, 0);
}

} // verus!
