//! Status transitions of action items: a requested status change is
//! allowed when both statuses are known, the actor owns the item (when the
//! config asks for that), and the config lists the target among the
//! transitions out of the current status.
use vstd::prelude::*;
use vstd::string::StringSliceAdditionalSpecFns;
use crate::emit::{greedy, holds_greedy, lemma_greedy_len, lemma_run_holds, put_chunk};
use crate::scan::{balanced_spec, find_spec, has_prefix, index_of, key_at_depth_spec, scannable};

verus! {

/// Space, newline or tab: what these readers skip.
pub open spec fn is_gap(b: u8) -> bool {
    b == 32u8 || b == 10u8 || b == 9u8
}

/// `s` without its leading spaces, newlines and tabs.
pub open spec fn skip_gaps_spec(s: Seq<u8>) -> Seq<u8>
    decreases s.len(),
{
    if s.len() > 0 && is_gap(s[0]) { skip_gaps_spec(s.drop_first()) } else { s }
}

/// `s` without its leading spaces.
pub open spec fn skip_spaces_spec(s: Seq<u8>) -> Seq<u8>
    decreases s.len(),
{
    if s.len() > 0 && s[0] == 32u8 { skip_spaces_spec(s.drop_first()) } else { s }
}

/// The body of the string after the first colon of `after_key`, or empty.
pub open spec fn string_after_spec(after_key: Seq<u8>) -> Seq<u8> {
    match index_of(after_key, 58u8) {
        Some(c) => {
            let rest = skip_gaps_spec(after_key.skip(c + 1));
            if rest.len() == 0 || rest[0] != 34u8 {
                Seq::empty()
            } else {
                match index_of(rest.drop_first(), 34u8) {
                    Some(e) => rest.drop_first().take(e),
                    None => Seq::empty(),
                }
            }
        },
        None => Seq::empty(),
    }
}

/// The string value of `key` at nesting depth `depth`.
pub open spec fn string_at_depth_spec(hay: Seq<u8>, key: Seq<u8>, depth: int) -> Seq<u8> {
    match key_at_depth_spec(hay, key, depth) {
        Some(p) => string_after_spec(hay.skip(p + key.len())),
        None => Seq::empty(),
    }
}

/// The boolean after the first occurrence of `key` (only spaces may
/// precede it).
pub open spec fn bool_spec(hay: Seq<u8>, key: Seq<u8>) -> Option<bool> {
    match find_spec(hay, key) {
        Some(p) => match index_of(hay.skip(p + key.len()), 58u8) {
            Some(c) => {
                let rest = skip_spaces_spec(hay.skip(p + key.len()).skip(c + 1));
                if has_prefix(rest, "true".spec_bytes()) {
                    Some(true)
                } else if has_prefix(rest, "false".spec_bytes()) {
                    Some(false)
                } else {
                    None
                }
            },
            None => None,
        },
        None => None,
    }
}

/// The bracketed value opening `rest`.
pub open spec fn opening_value(rest: Seq<u8>, open: u8, close: u8) -> Option<Seq<u8>> {
    if rest.len() == 0 || rest[0] != open {
        None
    } else {
        match balanced_spec(rest, open, close) {
            Some(e) => Some(rest.take(e + 1)),
            None => None,
        }
    }
}

/// The object after the colon that follows the first occurrence of `key`.
pub open spec fn object_spec(hay: Seq<u8>, key: Seq<u8>) -> Option<Seq<u8>> {
    match find_spec(hay, key) {
        Some(p) => match index_of(hay.skip(p + key.len()), 58u8) {
            Some(c) => opening_value(skip_gaps_spec(hay.skip(p + key.len()).skip(c + 1)), 123u8, 125u8),
            None => None,
        },
        None => None,
    }
}

/// The array right after the first `key:` in `hay` (keys of at most 95
/// bytes).
pub open spec fn array_spec(hay: Seq<u8>, key: Seq<u8>) -> Option<Seq<u8>> {
    if key.len() + 1 > 96 {
        None
    } else {
        let keyed = key.push(58u8);
        match find_spec(hay, keyed) {
            Some(p) => opening_value(skip_gaps_spec(hay.skip(p + keyed.len())), 91u8, 93u8),
            None => None,
        }
    }
}

/// `value` in quotes occurs in `array` (as much of it as fits 80 bytes).
pub open spec fn lists_string(array: Seq<u8>, value: Seq<u8>) -> bool {
    find_spec(array, greedy(80, seq![seq![34u8], value, seq![34u8]])) is Some
}

/// The known statuses of an action item.
pub open spec fn known_status(s: Seq<u8>) -> bool {
    ||| s == "open".spec_bytes()
    ||| s == "in_progress".spec_bytes()
    ||| s == "blocked".spec_bytes()
    ||| s == "snoozed".spec_bytes()
    ||| s == "done".spec_bytes()
    ||| s == "cancelled".spec_bytes()
}

/// Removes leading spaces, newlines and tabs.
pub fn skip_gaps(s: &[u8]) -> (r: &[u8])
    ensures
        r@ == skip_gaps_spec(s@),
{
    let mut i: usize = 0;
    assert(s@.skip(0) =~= s@);
    while i < s.len() && (s[i] == 32 || s[i] == 10 || s[i] == 9)
        invariant
            i <= s@.len(),
            skip_gaps_spec(s@) == skip_gaps_spec(s@.skip(i as int)),
        decreases s.len() - i,
    {
        assert(s@.skip(i as int).drop_first() =~= s@.skip(i as int + 1));
        i = i + 1;
    }
    let r = &s[i..s.len()];
    assert(r@ =~= s@.skip(i as int));
    r
}

/// Removes leading spaces.
fn skip_spaces(s: &[u8]) -> (r: &[u8])
    ensures
        r@ == skip_spaces_spec(s@),
{
    let mut i: usize = 0;
    assert(s@.skip(0) =~= s@);
    while i < s.len() && s[i] == 32
        invariant
            i <= s@.len(),
            skip_spaces_spec(s@) == skip_spaces_spec(s@.skip(i as int)),
        decreases s.len() - i,
    {
        assert(s@.skip(i as int).drop_first() =~= s@.skip(i as int + 1));
        i = i + 1;
    }
    let r = &s[i..s.len()];
    assert(r@ =~= s@.skip(i as int));
    r
}

/// The string value after the colon that follows a key.
pub fn string_value_after<'a>(after_key: &'a [u8]) -> (r: &'a [u8])
    ensures
        r@ == string_after_spec(after_key@),
{
    let empty = &after_key[0..0];
    assert(empty@ =~= Seq::<u8>::empty());
    let colon = match crate::scan::index_of_byte(after_key, 58) {
        Some(c) => c,
        None => return empty,
    };
    let tail = &after_key[colon + 1..after_key.len()];
    assert(tail@ =~= after_key@.skip(colon + 1));
    let rest = skip_gaps(tail);
    if rest.len() == 0 || rest[0] != 34 {
        return empty;
    }
    let body = &rest[1..rest.len()];
    assert(body@ =~= rest@.drop_first());
    match crate::scan::index_of_byte(body, 34) {
        Some(end) => {
            let v = &body[0..end];
            assert(v@ =~= body@.take(end as int));
            v
        },
        None => empty,
    }
}

/// The string value of `key` at nesting depth `depth`.
pub fn extract_string_at_depth<'a>(hay: &'a [u8], key: &[u8], depth: i32) -> (r: &'a [u8])
    requires
        scannable(hay@),
        key@.len() > 0,
    ensures
        r@ == string_at_depth_spec(hay@, key@, depth as int),
{
    match crate::scan::find_key_at_depth(hay, key, depth) {
        Some(pos) => {
            let after = &hay[pos + key.len()..hay.len()];
            assert(after@ =~= hay@.skip(pos + key@.len()));
            string_value_after(after)
        },
        None => {
            let e = &hay[0..0];
            assert(e@ =~= Seq::<u8>::empty());
            e
        },
    }
}

/// The boolean after the first occurrence of `key` in `hay`.
pub fn extract_bool(hay: &[u8], key: &[u8]) -> (r: Option<bool>)
    requires
        key@.len() > 0,
    ensures
        r == bool_spec(hay@, key@),
{
    let pos = match crate::scan::find(hay, key) {
        Some(p) => p,
        None => return None,
    };
    let after = &hay[pos + key.len()..hay.len()];
    assert(after@ =~= hay@.skip(pos + key@.len()));
    let colon = match crate::scan::index_of_byte(after, 58) {
        Some(c) => c,
        None => return None,
    };
    let tail = &after[colon + 1..after.len()];
    assert(tail@ =~= after@.skip(colon + 1));
    let rest = skip_spaces(tail);
    if crate::scan::starts_with(rest, "true".as_bytes()) {
        Some(true)
    } else if crate::scan::starts_with(rest, "false".as_bytes()) {
        Some(false)
    } else {
        None
    }
}

/// The bracketed value that opens `rest`.
fn opening<'a>(rest: &'a [u8], open: u8, close: u8) -> (r: Option<&'a [u8]>)
    requires
        scannable(rest@),
    ensures
        match opening_value(rest@, open, close) {
            Some(v) => r is Some && r->0@ == v && v.len() <= rest@.len(),
            None => r is None,
        },
{
    if rest.len() == 0 || rest[0] != open {
        return None;
    }
    match crate::scan::balanced_end(rest, open, close) {
        Some(e) => {
            let v = &rest[0..e + 1];
            assert(v@ =~= rest@.take(e + 1));
            Some(v)
        },
        None => None,
    }
}

/// The object after the colon that follows the first occurrence of `key`.
pub fn object_after_key<'a>(hay: &'a [u8], key: &[u8]) -> (r: Option<&'a [u8]>)
    requires
        scannable(hay@),
        key@.len() > 0,
    ensures
        match object_spec(hay@, key@) {
            Some(v) => r is Some && r->0@ == v && v.len() <= hay@.len(),
            None => r is None,
        },
{
    let pos = match crate::scan::find(hay, key) {
        Some(p) => p,
        None => return None,
    };
    let after = &hay[pos + key.len()..hay.len()];
    assert(after@ =~= hay@.skip(pos + key@.len()));
    let colon = match crate::scan::index_of_byte(after, 58) {
        Some(c) => c,
        None => return None,
    };
    let tail = &after[colon + 1..after.len()];
    assert(tail@ =~= after@.skip(colon + 1));
    let rest = skip_gaps(tail);
    proof {
        lemma_skip_gaps_len(tail@);
    }
    opening(rest, 123, 125)
}

pub proof fn lemma_skip_gaps_len(s: Seq<u8>)
    ensures
        skip_gaps_spec(s).len() <= s.len(),
    decreases s.len(),
{
    if s.len() > 0 && is_gap(s[0]) {
        lemma_skip_gaps_len(s.drop_first());
    }
}

/// The array right after the first `key:` in `hay`.
pub fn array_after_key<'a>(hay: &'a [u8], key: &[u8]) -> (r: Option<&'a [u8]>)
    requires
        scannable(hay@),
    ensures
        match array_spec(hay@, key@) {
            Some(v) => r is Some && r->0@ == v,
            None => r is None,
        },
{
    if key.len() > 95 {
        return None;
    }
    let mut keyed: Vec<u8> = Vec::new();
    let mut k: usize = 0;
    while k < key.len()
        invariant
            k <= key@.len(),
            keyed@ == key@.take(k as int),
        decreases key.len() - k,
    {
        keyed.push(key[k]);
        k = k + 1;
        assert(keyed@ =~= key@.take(k as int));
    }
    keyed.push(58);
    assert(keyed@ =~= key@.push(58u8));
    let pos = match crate::scan::find(hay, keyed.as_slice()) {
        Some(p) => p,
        None => return None,
    };
    let after = &hay[pos + keyed.len()..hay.len()];
    assert(after@ =~= hay@.skip(pos + keyed@.len()));
    let rest = skip_gaps(after);
    proof {
        lemma_skip_gaps_len(after@);
    }
    opening(rest, 91, 93)
}

/// Whether `value`, in quotes, occurs in `array`.
pub fn array_contains_string(array: &[u8], value: &[u8]) -> (r: bool)
    ensures
        r == lists_string(array@, value@),
{
    let mut needle = [0u8; 80];
    let ghost o = needle@;
    let ghost c0 = Seq::<Seq<u8>>::empty();
    let quote: &[u8] = &[34u8];
    assert(quote@ =~= seq![34u8]);
    let mut n = put_chunk(&mut needle, 0, quote, Ghost(o), Ghost(c0));
    let ghost c1 = c0 + seq![quote@];
    n = put_chunk(&mut needle, n, value, Ghost(o), Ghost(c1));
    let ghost c2 = c1 + seq![value@];
    n = put_chunk(&mut needle, n, quote, Ghost(o), Ghost(c2));
    let ghost c3 = c2 + seq![quote@];
    proof {
        assert(c3 =~= seq![seq![34u8], value@, seq![34u8]]);
        lemma_run_holds(o, needle@, n as int, c3);
        lemma_quoted_nonempty(80, value@);
    }
    let ns = needle.as_slice();
    let nd = &ns[0..n];
    assert(nd@ =~= greedy(80, seq![seq![34u8], value@, seq![34u8]]));
    crate::scan::contains(array, nd)
}

/// A quoted value in a buffer of at least one byte starts with its quote.
proof fn lemma_quoted_nonempty(cap: int, value: Seq<u8>)
    requires
        cap >= 1,
    ensures
        greedy(cap, seq![seq![34u8], value, seq![34u8]]).len() >= 1,
        greedy(cap, seq![seq![34u8], value, seq![34u8]]).len() <= cap,
{
    let q = seq![34u8];
    let c1 = seq![q];
    let c2 = seq![q, value];
    let ch = seq![q, value, q];
    assert(c1.drop_last() =~= Seq::<Seq<u8>>::empty());
    assert(c2.drop_last() =~= c1);
    assert(ch.drop_last() =~= c2);
    assert(greedy(cap, Seq::<Seq<u8>>::empty()) =~= Seq::<u8>::empty());
    assert(c1.last() == q);
    assert(greedy(cap, c1) =~= q);
    lemma_greedy_len(cap, ch);
}

/// Whether `s` names a known status.
pub fn is_known_status(s: &[u8]) -> (r: bool)
    ensures
        r == known_status(s@),
{
    crate::scan::bytes_eq(s, "open".as_bytes()) || crate::scan::bytes_eq(s, "in_progress".as_bytes())
        || crate::scan::bytes_eq(s, "blocked".as_bytes()) || crate::scan::bytes_eq(s, "snoozed".as_bytes())
        || crate::scan::bytes_eq(s, "done".as_bytes()) || crate::scan::bytes_eq(s, "cancelled".as_bytes())
}

/// What a transition request gets: whether it is allowed, the status the
/// item then has, a reason code, and the trace.
pub ghost struct Answer {
    pub allowed: bool,
    pub status: Seq<u8>,
    pub code: Seq<u8>,
    pub trace: Seq<u8>,
}

/// The arrow between two statuses in the trace.
pub open spec fn arrow() -> Seq<u8> {
    seq![32u8, 226u8, 134u8, 146u8, 32u8]
}

/// The answer to a transition request.
pub open spec fn answer(input: Seq<u8>) -> Answer {
    let id = string_at_depth_spec(input, "\"action_item_id\"".spec_bytes(), 1);
    let current = string_at_depth_spec(input, "\"current_status\"".spec_bytes(), 1);
    let requested = string_at_depth_spec(input, "\"requested_status\"".spec_bytes(), 1);
    let actor = string_at_depth_spec(input, "\"actor_id\"".spec_bytes(), 1);
    let owner = string_at_depth_spec(input, "\"owner_id\"".spec_bytes(), 1);
    let config = match object_spec(input, "\"transition_config\"".spec_bytes()) {
        Some(c) => c,
        None => Seq::empty(),
    };
    let owner_only = match bool_spec(config, "\"owner_only\"".spec_bytes()) {
        Some(b) => b,
        None => true,
    };
    let transitions = match object_spec(config, "\"allowed_transitions\"".spec_bytes()) {
        Some(t) => t,
        None => Seq::empty(),
    };
    let deny = |code: Seq<u8>, trace: Seq<u8>| Answer { allowed: false, status: current, code, trace };
    if id.len() == 0 || current.len() == 0 || requested.len() == 0 || actor.len() == 0 || config.len() == 0 {
        deny("invalid_status".spec_bytes(), "[\"precondition failed: required fields missing\"]".spec_bytes())
    } else if !known_status(current) || !known_status(requested) {
        deny("invalid_status".spec_bytes(), "[\"status value is not a known action-item status\"]".spec_bytes())
    } else if owner_only && (owner.len() == 0 || actor != owner) {
        deny("not_owner".spec_bytes(), greedy(96, seq!["[\"owner_only=true and actor is not owner\"]".spec_bytes()]))
    } else if transitions.len() == 0 {
        deny("illegal_transition".spec_bytes(), "[\"allowed_transitions missing\"]".spec_bytes())
    } else {
        match array_spec(transitions, greedy(64, seq![seq![34u8], current, seq![34u8]])) {
            None => deny(
                "illegal_transition".spec_bytes(),
                greedy(128, seq!["[\"".spec_bytes(), current, " has no transition list\"]".spec_bytes()]),
            ),
            Some(targets) => if !lists_string(targets, requested) {
                deny(
                    "illegal_transition".spec_bytes(),
                    greedy(
                        160,
                        seq![
                            "[\"".spec_bytes(),
                            current,
                            " has no allowed transition to ".spec_bytes(),
                            requested,
                            "\"]".spec_bytes(),
                        ],
                    ),
                )
            } else {
                Answer {
                    allowed: true,
                    status: requested,
                    code: "ok".spec_bytes(),
                    trace: greedy(
                        192,
                        seq!["[\"".spec_bytes(), current, arrow(), requested, " is allowed\"".spec_bytes()] + (if owner_only {
                            seq![", \"actor is owner\"".spec_bytes()]
                        } else {
                            Seq::empty()
                        }) + seq!["]".spec_bytes()],
                    ),
                }
            },
        }
    }
}

/// The chunks of the response document for answer `a`.
pub open spec fn result_chunks(a: Answer) -> Seq<Seq<u8>> {
    seq![
        "{\"allowed\":".spec_bytes(),
        if a.allowed { "true".spec_bytes() } else { "false".spec_bytes() },
        ",\"new_status\":\"".spec_bytes(),
        a.status,
        "\",\"reason_code\":\"".spec_bytes(),
        a.code,
        "\",\"evaluation_trace\":".spec_bytes(),
        a.trace,
        "}".spec_bytes(),
    ]
}

/// The chunks of the event that records an allowed transition.
pub open spec fn event_chunks(id: Seq<u8>, from: Seq<u8>, to: Seq<u8>, actor: Seq<u8>) -> Seq<Seq<u8>> {
    seq![
        "{\"event_id\":\"core.action-item.status-transitioned\",\"version\":\"1.0.0\",\"payload\":{\"action_item_id\":\"".spec_bytes(),
        id,
        "\",\"from_status\":\"".spec_bytes(),
        from,
        "\",\"to_status\":\"".spec_bytes(),
        to,
        "\",\"actor_id\":\"".spec_bytes(),
        actor,
        "\"}}".spec_bytes(),
    ]
}

/// Writes the response document; returns its length.
pub fn write_result(out: &mut [u8], allowed: bool, new_status: &[u8], reason_code: &[u8], evaluation_trace: &[u8]) -> (r: usize)
    ensures
        holds_greedy(
            final(out)@,
            r as int,
            result_chunks(Answer { allowed, status: new_status@, code: reason_code@, trace: evaluation_trace@ }),
        ),
        final(out)@.len() == old(out)@.len(),
{
    let ghost o = out@;
    let ghost mut c = Seq::<Seq<u8>>::empty();
    let mut i = put_chunk(out, 0, "{\"allowed\":".as_bytes(), Ghost(o), Ghost(c));
    proof { c = c + seq!["{\"allowed\":".spec_bytes()]; }
    let tf = if allowed { "true".as_bytes() } else { "false".as_bytes() };
    i = put_chunk(out, i, tf, Ghost(o), Ghost(c));
    proof { c = c + seq![tf@]; }
    i = put_chunk(out, i, ",\"new_status\":\"".as_bytes(), Ghost(o), Ghost(c));
    proof { c = c + seq![",\"new_status\":\"".spec_bytes()]; }
    i = put_chunk(out, i, new_status, Ghost(o), Ghost(c));
    proof { c = c + seq![new_status@]; }
    i = put_chunk(out, i, "\",\"reason_code\":\"".as_bytes(), Ghost(o), Ghost(c));
    proof { c = c + seq!["\",\"reason_code\":\"".spec_bytes()]; }
    i = put_chunk(out, i, reason_code, Ghost(o), Ghost(c));
    proof { c = c + seq![reason_code@]; }
    i = put_chunk(out, i, "\",\"evaluation_trace\":".as_bytes(), Ghost(o), Ghost(c));
    proof { c = c + seq!["\",\"evaluation_trace\":".spec_bytes()]; }
    i = put_chunk(out, i, evaluation_trace, Ghost(o), Ghost(c));
    proof { c = c + seq![evaluation_trace@]; }
    i = put_chunk(out, i, "}".as_bytes(), Ghost(o), Ghost(c));
    proof {
        c = c + seq!["}".spec_bytes()];
        assert(c =~= result_chunks(Answer { allowed, status: new_status@, code: reason_code@, trace: evaluation_trace@ }));
        lemma_run_holds(o, out@, i as int, c);
    }
    i
}

/// Writes the event that records the transition of item `id` from `from`
/// to `to` by `actor`; returns its length.
pub fn write_event(buf: &mut [u8], id: &[u8], from: &[u8], to: &[u8], actor: &[u8]) -> (r: usize)
    ensures
        holds_greedy(final(buf)@, r as int, event_chunks(id@, from@, to@, actor@)),
        final(buf)@.len() == old(buf)@.len(),
{
    let ghost o = buf@;
    let ghost mut c = Seq::<Seq<u8>>::empty();
    let head = "{\"event_id\":\"core.action-item.status-transitioned\",\"version\":\"1.0.0\",\"payload\":{\"action_item_id\":\"".as_bytes();
    let mut i = put_chunk(buf, 0, head, Ghost(o), Ghost(c));
    proof { c = c + seq![head@]; }
    i = put_chunk(buf, i, id, Ghost(o), Ghost(c));
    proof { c = c + seq![id@]; }
    i = put_chunk(buf, i, "\",\"from_status\":\"".as_bytes(), Ghost(o), Ghost(c));
    proof { c = c + seq!["\",\"from_status\":\"".spec_bytes()]; }
    i = put_chunk(buf, i, from, Ghost(o), Ghost(c));
    proof { c = c + seq![from@]; }
    i = put_chunk(buf, i, "\",\"to_status\":\"".as_bytes(), Ghost(o), Ghost(c));
    proof { c = c + seq!["\",\"to_status\":\"".spec_bytes()]; }
    i = put_chunk(buf, i, to, Ghost(o), Ghost(c));
    proof { c = c + seq![to@]; }
    i = put_chunk(buf, i, "\",\"actor_id\":\"".as_bytes(), Ghost(o), Ghost(c));
    proof { c = c + seq!["\",\"actor_id\":\"".spec_bytes()]; }
    i = put_chunk(buf, i, actor, Ghost(o), Ghost(c));
    proof { c = c + seq![actor@]; }
    i = put_chunk(buf, i, "\"}}".as_bytes(), Ghost(o), Ghost(c));
    proof {
        c = c + seq!["\"}}".spec_bytes()];
        assert(c =~= event_chunks(id@, from@, to@, actor@));
        lemma_run_holds(o, buf@, i as int, c);
    }
    i
}

proof fn lemma_transition_keys()
    ensures
        "\"action_item_id\"".spec_bytes().len() > 0,
        "\"current_status\"".spec_bytes().len() > 0,
        "\"requested_status\"".spec_bytes().len() > 0,
        "\"actor_id\"".spec_bytes().len() > 0,
        "\"owner_id\"".spec_bytes().len() > 0,
        "\"transition_config\"".spec_bytes().len() > 0,
        "\"owner_only\"".spec_bytes().len() > 0,
        "\"allowed_transitions\"".spec_bytes().len() > 0,
{
    broadcast use vstd::string::group_string_axioms;
    reveal_strlit("\"action_item_id\"");
    reveal_strlit("\"current_status\"");
    reveal_strlit("\"requested_status\"");
    reveal_strlit("\"actor_id\"");
    reveal_strlit("\"owner_id\"");
    reveal_strlit("\"transition_config\"");
    reveal_strlit("\"owner_only\"");
    reveal_strlit("\"allowed_transitions\"");
    assert(vstd::string::is_ascii("\"action_item_id\""));
    assert(vstd::string::is_ascii("\"current_status\""));
    assert(vstd::string::is_ascii("\"requested_status\""));
    assert(vstd::string::is_ascii("\"actor_id\""));
    assert(vstd::string::is_ascii("\"owner_id\""));
    assert(vstd::string::is_ascii("\"transition_config\""));
    assert(vstd::string::is_ascii("\"owner_only\""));
    assert(vstd::string::is_ascii("\"allowed_transitions\""));
}

/// Copies `chunks` into a fresh buffer of `cap` bytes and returns what
/// landed.
pub fn buffered(pieces: &Vec<&[u8]>, cap: usize) -> (r: Vec<u8>)
    ensures
        r@ == greedy(cap as int, pieces@.map_values(|b: &[u8]| b@)),
{
    let ghost ch = pieces@.map_values(|b: &[u8]| b@);
    let mut buf: Vec<u8> = Vec::new();
    let mut z: usize = 0;
    while z < cap
        invariant
            z <= cap,
            buf@.len() == z,
        decreases cap - z,
    {
        buf.push(0);
        z = z + 1;
    }
    let ghost o = buf@;
    let mut i: usize = 0;
    let mut k: usize = 0;
    assert(ch.take(0) =~= Seq::<Seq<u8>>::empty());
    while k < pieces.len()
        invariant
            k <= pieces@.len(),
            ch == pieces@.map_values(|b: &[u8]| b@),
            o.len() == cap,
            (buf@, i as int) == crate::emit::copies(o, 0, ch.take(k as int)),
        decreases pieces.len() - k,
    {
        i = put_chunk(buf.as_mut_slice(), i, pieces[k], Ghost(o), Ghost(ch.take(k as int)));
        assert(ch.take(k as int) + seq![pieces@[k as int]@] =~= ch.take(k as int + 1));
        k = k + 1;
    }
    assert(ch.take(k as int) =~= ch);
    proof {
        lemma_run_holds(o, buf@, i as int, ch);
        lemma_greedy_len(cap as int, ch);
    }
    buf.truncate(i);
    assert(buf@ =~= greedy(cap as int, ch));
    buf
}

/// Decides the transition request in `input`, writes the response document
/// to `out` and, for an allowed transition, the event that records it to
/// `event`; returns the lengths of both (0 for no event).
#[verifier::spinoff_prover]
#[verifier::rlimit(60)]
pub fn evaluate(input: &[u8], out: &mut [u8], event: &mut [u8]) -> (r: (usize, usize))
    requires
        scannable(input@),
    ensures
        holds_greedy(final(out)@, r.0 as int, result_chunks(answer(input@))),
        final(out)@.len() == old(out)@.len(),
        answer(input@).allowed ==> holds_greedy(
            final(event)@,
            r.1 as int,
            event_chunks(
                string_at_depth_spec(input@, "\"action_item_id\"".spec_bytes(), 1),
                string_at_depth_spec(input@, "\"current_status\"".spec_bytes(), 1),
                string_at_depth_spec(input@, "\"requested_status\"".spec_bytes(), 1),
                string_at_depth_spec(input@, "\"actor_id\"".spec_bytes(), 1),
            ),
        ),
        !answer(input@).allowed ==> r.1 == 0 && final(event)@ == old(event)@,
        final(event)@.len() == old(event)@.len(),
{
    proof {
        lemma_transition_keys();
    }
    let action_item_id = extract_string_at_depth(input, "\"action_item_id\"".as_bytes(), 1);
    let current = extract_string_at_depth(input, "\"current_status\"".as_bytes(), 1);
    let requested = extract_string_at_depth(input, "\"requested_status\"".as_bytes(), 1);
    let actor = extract_string_at_depth(input, "\"actor_id\"".as_bytes(), 1);
    let owner = extract_string_at_depth(input, "\"owner_id\"".as_bytes(), 1);
    let empty: &[u8] = &input[0..0];
    assert(empty@ =~= Seq::<u8>::empty());
    let config = match object_after_key(input, "\"transition_config\"".as_bytes()) {
        Some(c) => c,
        None => empty,
    };
    if action_item_id.len() == 0 || current.len() == 0 || requested.len() == 0 || actor.len() == 0
        || config.len() == 0 {
        let n = write_result(
            out,
            false,
            current,
            "invalid_status".as_bytes(),
            "[\"precondition failed: required fields missing\"]".as_bytes(),
        );
        return (n, 0);
    }
    if !is_known_status(current) || !is_known_status(requested) {
        let n = write_result(
            out,
            false,
            current,
            "invalid_status".as_bytes(),
            "[\"status value is not a known action-item status\"]".as_bytes(),
        );
        return (n, 0);
    }
    let owner_only = match extract_bool(config, "\"owner_only\"".as_bytes()) {
        Some(b) => b,
        None => true,
    };
    if owner_only {
        if owner.len() == 0 || !crate::scan::bytes_eq(actor, owner) {
            let mut pieces: Vec<&[u8]> = Vec::new();
            pieces.push("[\"owner_only=true and actor is not owner\"]".as_bytes());
            assert(pieces@.map_values(|b: &[u8]| b@) =~= seq!["[\"owner_only=true and actor is not owner\"]".spec_bytes()]);
            let trace = buffered(&pieces, 96);
            let n = write_result(out, false, current, "not_owner".as_bytes(), trace.as_slice());
            return (n, 0);
        }
    }
    let transitions = match object_after_key(config, "\"allowed_transitions\"".as_bytes()) {
        Some(t) => t,
        None => empty,
    };
    if transitions.len() == 0 {
        let n = write_result(
            out,
            false,
            current,
            "illegal_transition".as_bytes(),
            "[\"allowed_transitions missing\"]".as_bytes(),
        );
        return (n, 0);
    }
    let quote: &[u8] = &[34u8];
    assert(quote@ =~= seq![34u8]);
    let mut kp: Vec<&[u8]> = Vec::new();
    kp.push(quote);
    kp.push(current);
    kp.push(quote);
    assert(kp@.map_values(|b: &[u8]| b@) =~= seq![seq![34u8], current@, seq![34u8]]);
    let key = buffered(&kp, 64);
    let targets = match array_after_key(transitions, key.as_slice()) {
        Some(t) => t,
        None => {
            let mut pieces: Vec<&[u8]> = Vec::new();
            pieces.push("[\"".as_bytes());
            pieces.push(current);
            pieces.push(" has no transition list\"]".as_bytes());
            assert(pieces@.map_values(|b: &[u8]| b@) =~= seq!["[\"".spec_bytes(), current@, " has no transition list\"]".spec_bytes()]);
            let trace = buffered(&pieces, 128);
            let n = write_result(out, false, current, "illegal_transition".as_bytes(), trace.as_slice());
            return (n, 0);
        },
    };
    if !array_contains_string(targets, requested) {
        let mut pieces: Vec<&[u8]> = Vec::new();
        pieces.push("[\"".as_bytes());
        pieces.push(current);
        pieces.push(" has no allowed transition to ".as_bytes());
        pieces.push(requested);
        pieces.push("\"]".as_bytes());
        assert(pieces@.map_values(|b: &[u8]| b@) =~= seq![
            "[\"".spec_bytes(),
            current@,
            " has no allowed transition to ".spec_bytes(),
            requested@,
            "\"]".spec_bytes(),
        ]);
        let trace = buffered(&pieces, 160);
        let n = write_result(out, false, current, "illegal_transition".as_bytes(), trace.as_slice());
        return (n, 0);
    }
    let arrow_bytes: &[u8] = &[32u8, 226u8, 134u8, 146u8, 32u8];
    assert(arrow_bytes@ =~= arrow());
    let mut pieces: Vec<&[u8]> = Vec::new();
    pieces.push("[\"".as_bytes());
    pieces.push(current);
    pieces.push(arrow_bytes);
    pieces.push(requested);
    pieces.push(" is allowed\"".as_bytes());
    if owner_only {
        pieces.push(", \"actor is owner\"".as_bytes());
    }
    pieces.push("]".as_bytes());
    assert(pieces@.map_values(|b: &[u8]| b@) =~= seq!["[\"".spec_bytes(), current@, arrow(), requested@, " is allowed\"".spec_bytes()]
        + (if owner_only { seq![", \"actor is owner\"".spec_bytes()] } else { Seq::<Seq<u8>>::empty() }) + seq![
        "]".spec_bytes(),
    ]);
    let trace = buffered(&pieces, 192);
    let e = write_event(event, action_item_id, current, requested, actor);
    let n = write_result(out, true, requested, "ok".as_bytes(), trace.as_slice());
    (n, e)
}

} // verus!
