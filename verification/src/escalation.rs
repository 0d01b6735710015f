//! Escalation decisions: whether team health warrants escalating to a
//! manager, from the overdue count, the overloaded owners and the share of
//! items on track.
use vstd::prelude::*;
use vstd::string::StringSliceAdditionalSpecFns;
use crate::completion::{millis_field, millis_fits, parse_number_millis};
use crate::emit::{holds_greedy, lemma_copies_concat, lemma_run_holds, put_chunk, signed_chunks};
use crate::followup::write_usize;
use crate::scan::{bracketed_at_depth_spec, extract_int_spec, int_value_fits_i32, scannable};

verus! {

/// The objects counted from index `i` on: those that open at depth 1 (the
/// items of the array), outside string literals.
pub open spec fn objects_count_from(arr: Seq<u8>, i: int, depth: int, in_str: bool) -> nat
    decreases arr.len() + 2 - i,
{
    if i < 0 || i >= arr.len() {
        0
    } else if in_str {
        if arr[i] == 92u8 {
            objects_count_from(arr, i + 2, depth, true)
        } else if arr[i] == 34u8 {
            objects_count_from(arr, i + 1, depth, false)
        } else {
            objects_count_from(arr, i + 1, depth, true)
        }
    } else if arr[i] == 34u8 {
        objects_count_from(arr, i + 1, depth, true)
    } else if arr[i] == 123u8 {
        (if depth == 1 { 1nat } else { 0nat }) + objects_count_from(arr, i + 1, depth + 1, false)
    } else if arr[i] == 125u8 || arr[i] == 93u8 {
        objects_count_from(arr, i + 1, depth - 1, false)
    } else if arr[i] == 91u8 {
        objects_count_from(arr, i + 1, depth + 1, false)
    } else {
        objects_count_from(arr, i + 1, depth, false)
    }
}

/// The number of objects among the items of the array `arr`.
pub open spec fn object_count(arr: Seq<u8>) -> nat {
    objects_count_from(arr, 0, 0, false)
}

proof fn lemma_count_bound(arr: Seq<u8>, i: int, depth: int, in_str: bool)
    requires
        0 <= i,
    ensures
        objects_count_from(arr, i, depth, in_str) <= if i < arr.len() { arr.len() - i } else { 0 },
    decreases arr.len() + 2 - i,
{
    if i < arr.len() {
        if in_str {
            if arr[i] == 92u8 {
                lemma_count_bound(arr, i + 2, depth, true);
            } else if arr[i] == 34u8 {
                lemma_count_bound(arr, i + 1, depth, false);
            } else {
                lemma_count_bound(arr, i + 1, depth, true);
            }
        } else if arr[i] == 34u8 {
            lemma_count_bound(arr, i + 1, depth, true);
        } else if arr[i] == 123u8 {
            lemma_count_bound(arr, i + 1, depth + 1, false);
        } else if arr[i] == 125u8 || arr[i] == 93u8 {
            lemma_count_bound(arr, i + 1, depth - 1, false);
        } else if arr[i] == 91u8 {
            lemma_count_bound(arr, i + 1, depth + 1, false);
        } else {
            lemma_count_bound(arr, i + 1, depth, false);
        }
    }
}

/// Counts the objects among the items of the array `arr`.
pub fn count_objects(arr: &[u8]) -> (r: u32)
    requires
        scannable(arr@),
    ensures
        r == object_count(arr@),
{
    let mut count: u32 = 0;
    let mut depth: i32 = 0;
    let mut in_str = false;
    let mut i: usize = 0;
    proof {
        lemma_count_bound(arr@, 0, 0, false);
    }
    while i < arr.len()
        invariant
            scannable(arr@),
            i <= arr@.len() + 1,
            -(i as int) <= depth <= i,
            count + objects_count_from(arr@, i as int, depth as int, in_str) == object_count(arr@),
            object_count(arr@) <= arr@.len(),
        decreases arr.len() + 2 - i,
    {
        let b = arr[i];
        if in_str {
            if b == 92 {
                i = i + 2;
                continue;
            }
            if b == 34 {
                in_str = false;
            }
            i = i + 1;
            continue;
        }
        if b == 34 {
            in_str = true;
        } else if b == 123 {
            if depth == 1 {
                count = count + 1;
            }
            depth = depth + 1;
        } else if b == 125 || b == 93 {
            depth = depth - 1;
        } else if b == 91 {
            depth = depth + 1;
        }
        i = i + 1;
    }
    count
}

/// What the decision rests on.
pub ghost struct Signals {
    pub overdue: bool,
    pub overloaded: bool,
    pub on_track: bool,
    pub require_multiple: bool,
}

/// The health object of the request, empty when missing.
pub open spec fn health_of(input: Seq<u8>) -> Seq<u8> {
    match bracketed_at_depth_spec(input, "\"health\"".spec_bytes(), 1, 123u8, 125u8) {
        Some(o) => o,
        None => Seq::empty(),
    }
}

/// The escalation config object of the request, empty when missing.
pub open spec fn config_of(input: Seq<u8>) -> Seq<u8> {
    match bracketed_at_depth_spec(input, "\"escalation_config\"".spec_bytes(), 1, 123u8, 125u8) {
        Some(o) => o,
        None => Seq::empty(),
    }
}

/// An integer member, or `default`.
pub open spec fn int_or(hay: Seq<u8>, key: Seq<u8>, default: int) -> int {
    match extract_int_spec(hay, key) {
        Some(v) => v,
        None => default,
    }
}

/// The signals of a request: enough overdue items, enough overloaded
/// owners, a share on track at or below the limit.
pub open spec fn signals_of(health: Seq<u8>, config: Seq<u8>) -> Signals {
    let overloaded = match bracketed_at_depth_spec(health, "\"overloaded_owners\"".spec_bytes(), 1, 91u8, 93u8) {
        Some(a) => object_count(a) as int,
        None => 0,
    };
    let max_on_track = match millis_field(config, "\"max_on_track_pct_for_escalate\"".spec_bytes()) {
        Some(v) => v,
        None => 500,
    };
    Signals {
        overdue: int_or(health, "\"overdue_count\"".spec_bytes(), -1) >= int_or(
            config,
            "\"min_overdue_for_escalate\"".spec_bytes(),
            2,
        ),
        overloaded: overloaded >= int_or(config, "\"min_overloaded_owners\"".spec_bytes(), 2),
        on_track: match millis_field(health, "\"on_track_pct\"".spec_bytes()) {
            Some(p) => p <= max_on_track,
            None => false,
        },
        require_multiple: match crate::scan::extract_bool_spec(config, "\"require_multiple_signals\"".spec_bytes()) {
            Some(b) => b,
            None => true,
        },
    }
}

/// The names of the signals met, in order.
pub open spec fn signal_names(s: Signals) -> Seq<Seq<u8>> {
    (if s.overdue { seq!["overdue_count".spec_bytes()] } else { Seq::empty() }) + (if s.overloaded {
        seq!["overloaded_owners".spec_bytes()]
    } else {
        Seq::empty()
    }) + (if s.on_track { seq!["on_track_pct".spec_bytes()] } else { Seq::empty() })
}

/// Escalate on two signals, or on one when a single one suffices.
pub open spec fn escalates(s: Signals) -> bool {
    if s.require_multiple { signal_names(s).len() >= 2 } else { signal_names(s).len() >= 1 }
}

/// The chunks of a quoted list of names.
pub open spec fn quoted_list(names: Seq<Seq<u8>>) -> Seq<Seq<u8>>
    decreases names.len(),
{
    if names.len() == 0 {
        Seq::empty()
    } else {
        quoted_list(names.drop_last()) + (if names.len() > 1 { seq![",".spec_bytes()] } else { Seq::empty() })
            + seq!["\"".spec_bytes(), names.last(), "\"".spec_bytes()]
    }
}

/// The chunks of a refusal.
pub open spec fn fail_chunks(code: Seq<u8>) -> Seq<Seq<u8>> {
    seq![
        "{\"decision\":\"digest\",\"signals_met\":0,\"signals\":[],\"escalate_item_ids\":[],\"reason_code\":\"".spec_bytes(),
        code,
        "\",\"evaluation_trace\":[]}".spec_bytes(),
    ]
}

/// The chunks of a decision.
pub open spec fn decision_chunks(s: Signals, top: Seq<u8>) -> Seq<Seq<u8>> {
    let n = signal_names(s).len() as int;
    let decision = if escalates(s) { "escalate".spec_bytes() } else { "digest".spec_bytes() };
    seq!["{\"decision\":\"".spec_bytes(), decision, "\",\"signals_met\":".spec_bytes()] + signed_chunks(n) + seq![
        ",\"signals\":[".spec_bytes(),
    ] + quoted_list(signal_names(s)) + seq![
        "],\"escalate_item_ids\":".spec_bytes(),
        if escalates(s) { top } else { "[]".spec_bytes() },
        ",\"reason_code\":\"ok\",\"evaluation_trace\":[\"signals_met=".spec_bytes(),
    ] + signed_chunks(n) + seq![
        "\",\"require_multiple=".spec_bytes(),
        if s.require_multiple { "true".spec_bytes() } else { "false".spec_bytes() },
        "\",\"decision=".spec_bytes(),
        decision,
        "\"]}".spec_bytes(),
    ]
}

/// The chunks of the response to `input`.
pub open spec fn escalation_chunks(input: Seq<u8>) -> Seq<Seq<u8>> {
    let health = health_of(input);
    if bracketed_at_depth_spec(input, "\"health\"".spec_bytes(), 1, 123u8, 125u8) is None
        || bracketed_at_depth_spec(input, "\"escalation_config\"".spec_bytes(), 1, 123u8, 125u8) is None
        || int_or(health, "\"overdue_count\"".spec_bytes(), -1) < 0 {
        fail_chunks("invalid_input".spec_bytes())
    } else {
        let top = match bracketed_at_depth_spec(health, "\"top_pressure_items\"".spec_bytes(), 1, 91u8, 93u8) {
            Some(a) => a,
            None => "[]".spec_bytes(),
        };
        decision_chunks(signals_of(health, config_of(input)), top)
    }
}

/// The numbers the request's readers meet fit them (they do not check for
/// overflow).
pub open spec fn escalation_numbers_fit(input: Seq<u8>) -> bool {
    let health = health_of(input);
    let config = config_of(input);
    let present = bracketed_at_depth_spec(input, "\"health\"".spec_bytes(), 1, 123u8, 125u8) is Some
        && bracketed_at_depth_spec(input, "\"escalation_config\"".spec_bytes(), 1, 123u8, 125u8) is Some;
    present ==> {
        &&& int_value_fits_i32(health, "\"overdue_count\"".spec_bytes())
        &&& millis_fits(health, "\"on_track_pct\"".spec_bytes())
        &&& int_or(health, "\"overdue_count\"".spec_bytes(), -1) >= 0 ==> {
            &&& int_value_fits_i32(config, "\"min_overdue_for_escalate\"".spec_bytes())
            &&& int_value_fits_i32(config, "\"min_overloaded_owners\"".spec_bytes())
            &&& millis_fits(config, "\"max_on_track_pct_for_escalate\"".spec_bytes())
        }
    }
}

proof fn lemma_escalation_keys()
    ensures
        "\"health\"".spec_bytes().len() > 0,
        "\"escalation_config\"".spec_bytes().len() > 0,
        "\"overdue_count\"".spec_bytes().len() > 0,
        "\"on_track_pct\"".spec_bytes().len() > 0,
        "\"overloaded_owners\"".spec_bytes().len() > 0,
        "\"top_pressure_items\"".spec_bytes().len() > 0,
        "\"min_overdue_for_escalate\"".spec_bytes().len() > 0,
        "\"min_overloaded_owners\"".spec_bytes().len() > 0,
        "\"max_on_track_pct_for_escalate\"".spec_bytes().len() > 0,
        "\"require_multiple_signals\"".spec_bytes().len() > 0,
{
    broadcast use vstd::string::group_string_axioms;
    reveal_strlit("\"health\"");
    reveal_strlit("\"escalation_config\"");
    reveal_strlit("\"overdue_count\"");
    reveal_strlit("\"on_track_pct\"");
    reveal_strlit("\"overloaded_owners\"");
    reveal_strlit("\"top_pressure_items\"");
    reveal_strlit("\"min_overdue_for_escalate\"");
    reveal_strlit("\"min_overloaded_owners\"");
    reveal_strlit("\"max_on_track_pct_for_escalate\"");
    reveal_strlit("\"require_multiple_signals\"");
    assert(vstd::string::is_ascii("\"health\""));
    assert(vstd::string::is_ascii("\"escalation_config\""));
    assert(vstd::string::is_ascii("\"overdue_count\""));
    assert(vstd::string::is_ascii("\"on_track_pct\""));
    assert(vstd::string::is_ascii("\"overloaded_owners\""));
    assert(vstd::string::is_ascii("\"top_pressure_items\""));
    assert(vstd::string::is_ascii("\"min_overdue_for_escalate\""));
    assert(vstd::string::is_ascii("\"min_overloaded_owners\""));
    assert(vstd::string::is_ascii("\"max_on_track_pct_for_escalate\""));
    assert(vstd::string::is_ascii("\"require_multiple_signals\""));
}

/// Writes a refusal with reason `code`; returns its length.
pub fn fail(out: &mut [u8], code: &[u8]) -> (r: usize)
    ensures
        holds_greedy(final(out)@, r as int, fail_chunks(code@)),
        final(out)@.len() == old(out)@.len(),
{
    let ghost o = out@;
    let ghost c0 = Seq::<Seq<u8>>::empty();
    let head = "{\"decision\":\"digest\",\"signals_met\":0,\"signals\":[],\"escalate_item_ids\":[],\"reason_code\":\"".as_bytes();
    let mut i = put_chunk(out, 0, head, Ghost(o), Ghost(c0));
    let ghost c1 = c0 + seq![head@];
    i = put_chunk(out, i, code, Ghost(o), Ghost(c1));
    let ghost c2 = c1 + seq![code@];
    i = put_chunk(out, i, "\",\"evaluation_trace\":[]}".as_bytes(), Ghost(o), Ghost(c2));
    proof {
        let c3 = c2 + seq!["\",\"evaluation_trace\":[]}".spec_bytes()];
        assert(c3 =~= fail_chunks(code@));
        lemma_run_holds(o, out@, i as int, c3);
    }
    i
}

/// Reads the signals of a request.
#[verifier::spinoff_prover]
fn read_signals(health: &[u8], config: &[u8]) -> (r: (bool, bool, bool, bool))
    requires
        scannable(health@),
        scannable(config@),
        int_value_fits_i32(health@, "\"overdue_count\"".spec_bytes()),
        millis_fits(health@, "\"on_track_pct\"".spec_bytes()),
        int_value_fits_i32(config@, "\"min_overdue_for_escalate\"".spec_bytes()),
        int_value_fits_i32(config@, "\"min_overloaded_owners\"".spec_bytes()),
        millis_fits(config@, "\"max_on_track_pct_for_escalate\"".spec_bytes()),
    ensures
        ({
            let s = signals_of(health@, config@);
            r == (s.overdue, s.overloaded, s.on_track, s.require_multiple)
        }),
{
    proof {
        lemma_escalation_keys();
    }
    let overdue = match crate::scan::extract_i32(health, "\"overdue_count\"".as_bytes()) {
        Some(v) => v,
        None => -1,
    };
    let on_track = parse_number_millis(health, "\"on_track_pct\"".as_bytes());
    let overloaded_count = match crate::scan::array_after_key_at_depth(health, "\"overloaded_owners\"".as_bytes(), 1) {
        Some(a) => count_objects(a),
        None => 0,
    };
    let min_overdue = match crate::scan::extract_i32(config, "\"min_overdue_for_escalate\"".as_bytes()) {
        Some(v) => v,
        None => 2,
    };
    let min_overloaded = match crate::scan::extract_i32(config, "\"min_overloaded_owners\"".as_bytes()) {
        Some(v) => v,
        None => 2,
    };
    let max_on_track = match parse_number_millis(config, "\"max_on_track_pct_for_escalate\"".as_bytes()) {
        Some(v) => v,
        None => 500,
    };
    let require_multi = match crate::scan::extract_bool(config, "\"require_multiple_signals\"".as_bytes()) {
        Some(b) => b,
        None => true,
    };
    let s1 = overdue >= min_overdue;
    let s2 = overloaded_count as i64 >= min_overloaded as i64;
    let s3 = match on_track {
        Some(p) => p <= max_on_track,
        None => false,
    };
    (s1, s2, s3, require_multi)
}

/// Copies the quoted list of `names` as the next chunks after `base`.
fn put_names(out: &mut [u8], i: usize, names: &Vec<&[u8]>, Ghost(o): Ghost<Seq<u8>>, Ghost(base): Ghost<Seq<Seq<u8>>>) -> (r: usize)
    requires
        (old(out)@, i as int) == crate::emit::copies(o, 0, base),
    ensures
        (final(out)@, r as int) == crate::emit::copies(o, 0, base + quoted_list(names@.map_values(|b: &[u8]| b@))),
{
    let ghost nv = names@.map_values(|b: &[u8]| b@);
    let mut i = i;
    let mut k: usize = 0;
    assert(nv.take(0) =~= Seq::<Seq<u8>>::empty());
    assert(base + quoted_list(nv.take(0)) =~= base);
    while k < names.len()
        invariant
            k <= names@.len(),
            nv == names@.map_values(|b: &[u8]| b@),
            (out@, i as int) == crate::emit::copies(o, 0, base + quoted_list(nv.take(k as int))),
        decreases names.len() - k,
    {
        let ghost before = base + quoted_list(nv.take(k as int));
        let ghost mut d = before;
        if k > 0 {
            i = put_chunk(out, i, ",".as_bytes(), Ghost(o), Ghost(d));
            proof { d = d + seq![",".spec_bytes()]; }
        }
        i = put_chunk(out, i, "\"".as_bytes(), Ghost(o), Ghost(d));
        proof { d = d + seq!["\"".spec_bytes()]; }
        i = put_chunk(out, i, names[k], Ghost(o), Ghost(d));
        proof { d = d + seq![names@[k as int]@]; }
        i = put_chunk(out, i, "\"".as_bytes(), Ghost(o), Ghost(d));
        proof {
            d = d + seq!["\"".spec_bytes()];
            let t = nv.take(k as int + 1);
            assert(t.drop_last() =~= nv.take(k as int));
            assert(t.last() == names@[k as int]@);
            assert(d =~= base + quoted_list(t));
        }
        k = k + 1;
    }
    assert(nv.take(k as int) =~= nv);
    i
}

/// The names of the signals met, in order.
fn signal_list(s1: bool, s2: bool, s3: bool, require_multi: bool) -> (r: Vec<&'static [u8]>)
    ensures
        r@.map_values(|b: &[u8]| b@) == signal_names(
            Signals { overdue: s1, overloaded: s2, on_track: s3, require_multiple: require_multi },
        ),
{
    let mut names: Vec<&'static [u8]> = Vec::new();
    if s1 {
        names.push("overdue_count".as_bytes());
    }
    if s2 {
        names.push("overloaded_owners".as_bytes());
    }
    if s3 {
        names.push("on_track_pct".as_bytes());
    }
    let ghost sg = Signals { overdue: s1, overloaded: s2, on_track: s3, require_multiple: require_multi };
    assert(names@.map_values(|b: &[u8]| b@) =~= signal_names(sg));
    names
}

/// Writes the decision that signals `s` give; returns its length.
#[verifier::spinoff_prover]
#[verifier::rlimit(40)]
fn write_decision(out: &mut [u8], s1: bool, s2: bool, s3: bool, require_multi: bool, top: &[u8]) -> (r: usize)
    ensures
        holds_greedy(
            final(out)@,
            r as int,
            decision_chunks(Signals { overdue: s1, overloaded: s2, on_track: s3, require_multiple: require_multi }, top@),
        ),
        final(out)@.len() == old(out)@.len(),
{
    let ghost sg = Signals { overdue: s1, overloaded: s2, on_track: s3, require_multiple: require_multi };
    let names = signal_list(s1, s2, s3, require_multi);
    let ghost nv = names@.map_values(|b: &[u8]| b@);
    let n = names.len();
    let escalate = if require_multi { n >= 2 } else { n >= 1 };
    let decision = if escalate { "escalate".as_bytes() } else { "digest".as_bytes() };
    let ghost o = out@;
    let ghost mut c = Seq::<Seq<u8>>::empty();
    let mut i = put_chunk(out, 0, "{\"decision\":\"".as_bytes(), Ghost(o), Ghost(c));
    proof { c = c + seq!["{\"decision\":\"".spec_bytes()]; }
    i = put_chunk(out, i, decision, Ghost(o), Ghost(c));
    proof { c = c + seq![decision@]; }
    i = put_chunk(out, i, "\",\"signals_met\":".as_bytes(), Ghost(o), Ghost(c));
    proof {
        c = c + seq!["\",\"signals_met\":".spec_bytes()];
        lemma_copies_concat(o, 0, c, signed_chunks(n as int));
    }
    i = write_usize(out, i, n);
    proof { c = c + signed_chunks(n as int); }
    i = put_chunk(out, i, ",\"signals\":[".as_bytes(), Ghost(o), Ghost(c));
    proof { c = c + seq![",\"signals\":[".spec_bytes()]; }
    let ghost base = c;
    i = put_names(out, i, &names, Ghost(o), Ghost(base));
    proof { c = base + quoted_list(nv); }
    i = put_chunk(out, i, "],\"escalate_item_ids\":".as_bytes(), Ghost(o), Ghost(c));
    proof { c = c + seq!["],\"escalate_item_ids\":".spec_bytes()]; }
    let ids = if escalate { top } else { "[]".as_bytes() };
    i = put_chunk(out, i, ids, Ghost(o), Ghost(c));
    proof { c = c + seq![ids@]; }
    i = put_chunk(out, i, ",\"reason_code\":\"ok\",\"evaluation_trace\":[\"signals_met=".as_bytes(), Ghost(o), Ghost(c));
    proof {
        c = c + seq![",\"reason_code\":\"ok\",\"evaluation_trace\":[\"signals_met=".spec_bytes()];
        lemma_copies_concat(o, 0, c, signed_chunks(n as int));
    }
    i = write_usize(out, i, n);
    proof { c = c + signed_chunks(n as int); }
    i = put_chunk(out, i, "\",\"require_multiple=".as_bytes(), Ghost(o), Ghost(c));
    proof { c = c + seq!["\",\"require_multiple=".spec_bytes()]; }
    let tf = if require_multi { "true".as_bytes() } else { "false".as_bytes() };
    i = put_chunk(out, i, tf, Ghost(o), Ghost(c));
    proof { c = c + seq![tf@]; }
    i = put_chunk(out, i, "\",\"decision=".as_bytes(), Ghost(o), Ghost(c));
    proof { c = c + seq!["\",\"decision=".spec_bytes()]; }
    i = put_chunk(out, i, decision, Ghost(o), Ghost(c));
    proof { c = c + seq![decision@]; }
    i = put_chunk(out, i, "\"]}".as_bytes(), Ghost(o), Ghost(c));
    proof {
        c = c + seq!["\"]}".spec_bytes()];
        assert(c =~= decision_chunks(sg, top@));
        lemma_run_holds(o, out@, i as int, c);
    }
    i
}

/// Decides whether the team health in `input` is escalated or goes to the
/// digest, and writes the response document to `out`; returns its length.
#[verifier::spinoff_prover]
pub fn evaluate(input: &[u8], out: &mut [u8]) -> (r: usize)
    requires
        scannable(input@),
        escalation_numbers_fit(input@),
    ensures
        holds_greedy(final(out)@, r as int, escalation_chunks(input@)),
        final(out)@.len() == old(out)@.len(),
{
    proof {
        lemma_escalation_keys();
    }
    let health = match crate::scan::object_after_key_at_depth(input, "\"health\"".as_bytes(), 1) {
        Some(h) => h,
        None => return fail(out, "invalid_input".as_bytes()),
    };
    let config = match crate::scan::object_after_key_at_depth(input, "\"escalation_config\"".as_bytes(), 1) {
        Some(c) => c,
        None => return fail(out, "invalid_input".as_bytes()),
    };
    let overdue = match crate::scan::extract_i32(health, "\"overdue_count\"".as_bytes()) {
        Some(v) => v,
        None => -1,
    };
    if overdue < 0 {
        return fail(out, "invalid_input".as_bytes());
    }
    let top = match crate::scan::array_after_key_at_depth(health, "\"top_pressure_items\"".as_bytes(), 1) {
        Some(a) => a,
        None => "[]".as_bytes(),
    };
    let (s1, s2, s3, require_multi) = read_signals(health, config);
    write_decision(out, s1, s2, s3, require_multi, top)
}

/// The integer literal that opens `rest` (an optional minus, then digits).
pub fn parse_i32(rest: &[u8]) -> (r: Option<i32>)
    requires
        crate::scan::int_magnitude(rest@) <= 0x7fff_ffff,
    ensures
        match crate::scan::parse_int_spec(rest@) {
            Some(v) => r == Some(v as i32),
            None => r is None,
        },
{
    crate::scan::parse_i32(rest)
}

/// Whether the numbers of the request fit its readers (what `evaluate`
/// needs).
pub fn numbers_fit_check(input: &[u8]) -> (r: bool)
    requires
        scannable(input@),
    ensures
        r == escalation_numbers_fit(input@),
{
    proof {
        lemma_escalation_keys();
    }
    let health = match crate::scan::object_after_key_at_depth(input, "\"health\"".as_bytes(), 1) {
        Some(o) => o,
        None => return true,
    };
    let config = match crate::scan::object_after_key_at_depth(input, "\"escalation_config\"".as_bytes(), 1) {
        Some(o) => o,
        None => return true,
    };
    if !crate::scan::int_fits_i32(health, "\"overdue_count\"".as_bytes()) {
        return false;
    }
    if !crate::completion::millis_fit(health, "\"on_track_pct\"".as_bytes()) {
        return false;
    }
    let overdue = match crate::scan::extract_i32(health, "\"overdue_count\"".as_bytes()) {
        Some(v) => v,
        None => -1,
    };
    if overdue < 0 {
        return true;
    }
    crate::scan::int_fits_i32(config, "\"min_overdue_for_escalate\"".as_bytes()) && crate::scan::int_fits_i32(
        config,
        "\"min_overloaded_owners\"".as_bytes(),
    ) && crate::completion::millis_fit(config, "\"max_on_track_pct_for_escalate\"".as_bytes())
}

} // verus!
