//! Order status changes: a requested change is allowed when both statuses
//! are known order statuses and the config lists the target among the
//! transitions out of the current status; an allowed change is recorded by
//! an event.
use vstd::prelude::*;
use vstd::string::StringSliceAdditionalSpecFns;
use crate::emit::{greedy, holds_greedy, lemma_run_holds, put_chunk};
use crate::scan::scannable;
use crate::transition::{
    Answer, arrow, array_after_key, array_contains_string, array_spec, buffered, extract_string_at_depth,
    lists_string, object_after_key, object_spec, result_chunks, string_at_depth_spec, write_result,
};

verus! {

/// The known statuses of an order.
pub open spec fn known_order_status(s: Seq<u8>) -> bool {
    ||| s == "pending".spec_bytes()
    ||| s == "confirmed".spec_bytes()
    ||| s == "fulfilled".spec_bytes()
    ||| s == "shipped".spec_bytes()
    ||| s == "delivered".spec_bytes()
    ||| s == "cancelled".spec_bytes()
    ||| s == "returned".spec_bytes()
}

/// The answer to an order status change request.
pub open spec fn order_answer(input: Seq<u8>) -> Answer {
    let id = string_at_depth_spec(input, "\"order_id\"".spec_bytes(), 1);
    let current = string_at_depth_spec(input, "\"current_status\"".spec_bytes(), 1);
    let requested = string_at_depth_spec(input, "\"requested_status\"".spec_bytes(), 1);
    let actor = string_at_depth_spec(input, "\"actor_id\"".spec_bytes(), 1);
    let config = match object_spec(input, "\"transition_config\"".spec_bytes()) {
        Some(c) => c,
        None => Seq::empty(),
    };
    let transitions = match object_spec(config, "\"allowed_transitions\"".spec_bytes()) {
        Some(t) => t,
        None => Seq::empty(),
    };
    let deny = |code: Seq<u8>, trace: Seq<u8>| Answer { allowed: false, status: current, code, trace };
    if id.len() == 0 || current.len() == 0 || requested.len() == 0 || actor.len() == 0 || config.len() == 0 {
        deny("invalid_status".spec_bytes(), "[\"precondition failed: required fields missing\"]".spec_bytes())
    } else if !known_order_status(current) || !known_order_status(requested) {
        deny("invalid_status".spec_bytes(), "[\"status value is not a known order status\"]".spec_bytes())
    } else if transitions.len() == 0 {
        deny("illegal_transition".spec_bytes(), "[\"allowed_transitions missing\"]".spec_bytes())
    } else {
        match array_spec(transitions, greedy(64, seq![seq![34u8], current, seq![34u8]])) {
            None => deny(
                "illegal_transition".spec_bytes(),
                greedy(128, seq!["[\"".spec_bytes(), current, " has no transition list\"]".spec_bytes()]),
            ),
            Some(targets) => if !lists_string(targets, requested) {
                deny(
                    "illegal_transition".spec_bytes(),
                    greedy(
                        160,
                        seq![
                            "[\"".spec_bytes(),
                            current,
                            " has no allowed transition to ".spec_bytes(),
                            requested,
                            "\"]".spec_bytes(),
                        ],
                    ),
                )
            } else {
                Answer {
                    allowed: true,
                    status: requested,
                    code: "ok".spec_bytes(),
                    trace: greedy(
                        160,
                        seq!["[\"".spec_bytes(), current, arrow(), requested, " is allowed\"]".spec_bytes()],
                    ),
                }
            },
        }
    }
}

/// The chunks of the event that records an allowed order status change.
pub open spec fn order_event_chunks(id: Seq<u8>, from: Seq<u8>, to: Seq<u8>, actor: Seq<u8>) -> Seq<Seq<u8>> {
    seq![
        "{\"event_id\":\"commerce.order.status-changed\",\"version\":\"1.0.0\",\"payload\":{\"order_id\":\"".spec_bytes(),
        id,
        "\",\"from_status\":\"".spec_bytes(),
        from,
        "\",\"to_status\":\"".spec_bytes(),
        to,
        "\",\"actor_id\":\"".spec_bytes(),
        actor,
        "\"}}".spec_bytes(),
    ]
}

/// Whether `s` names a known order status.
pub fn is_known_status(s: &[u8]) -> (r: bool)
    ensures
        r == known_order_status(s@),
{
    crate::scan::bytes_eq(s, "pending".as_bytes()) || crate::scan::bytes_eq(s, "confirmed".as_bytes())
        || crate::scan::bytes_eq(s, "fulfilled".as_bytes()) || crate::scan::bytes_eq(s, "shipped".as_bytes())
        || crate::scan::bytes_eq(s, "delivered".as_bytes()) || crate::scan::bytes_eq(s, "cancelled".as_bytes())
        || crate::scan::bytes_eq(s, "returned".as_bytes())
}

/// Writes the event that records the change of order `id` from `from` to
/// `to` by `actor`; returns its length.
pub fn write_event(buf: &mut [u8], id: &[u8], from: &[u8], to: &[u8], actor: &[u8]) -> (r: usize)
    ensures
        holds_greedy(final(buf)@, r as int, order_event_chunks(id@, from@, to@, actor@)),
        final(buf)@.len() == old(buf)@.len(),
{
    let ghost o = buf@;
    let ghost mut c = Seq::<Seq<u8>>::empty();
    let head = "{\"event_id\":\"commerce.order.status-changed\",\"version\":\"1.0.0\",\"payload\":{\"order_id\":\"".as_bytes();
    let mut i = put_chunk(buf, 0, head, Ghost(o), Ghost(c));
    proof { c = c + seq![head@]; }
    i = put_chunk(buf, i, id, Ghost(o), Ghost(c));
    proof { c = c + seq![id@]; }
    i = put_chunk(buf, i, "\",\"from_status\":\"".as_bytes(), Ghost(o), Ghost(c));
    proof { c = c + seq!["\",\"from_status\":\"".spec_bytes()]; }
    i = put_chunk(buf, i, from, Ghost(o), Ghost(c));
    proof { c = c + seq![from@]; }
    i = put_chunk(buf, i, "\",\"to_status\":\"".as_bytes(), Ghost(o), Ghost(c));
    proof { c = c + seq!["\",\"to_status\":\"".spec_bytes()]; }
    i = put_chunk(buf, i, to, Ghost(o), Ghost(c));
    proof { c = c + seq![to@]; }
    i = put_chunk(buf, i, "\",\"actor_id\":\"".as_bytes(), Ghost(o), Ghost(c));
    proof { c = c + seq!["\",\"actor_id\":\"".spec_bytes()]; }
    i = put_chunk(buf, i, actor, Ghost(o), Ghost(c));
    proof { c = c + seq![actor@]; }
    i = put_chunk(buf, i, "\"}}".as_bytes(), Ghost(o), Ghost(c));
    proof {
        c = c + seq!["\"}}".spec_bytes()];
        assert(c =~= order_event_chunks(id@, from@, to@, actor@));
        lemma_run_holds(o, buf@, i as int, c);
    }
    i
}

proof fn lemma_order_keys()
    ensures
        "\"order_id\"".spec_bytes().len() > 0,
        "\"current_status\"".spec_bytes().len() > 0,
        "\"requested_status\"".spec_bytes().len() > 0,
        "\"actor_id\"".spec_bytes().len() > 0,
        "\"transition_config\"".spec_bytes().len() > 0,
        "\"allowed_transitions\"".spec_bytes().len() > 0,
{
    broadcast use vstd::string::group_string_axioms;
    reveal_strlit("\"order_id\"");
    reveal_strlit("\"current_status\"");
    reveal_strlit("\"requested_status\"");
    reveal_strlit("\"actor_id\"");
    reveal_strlit("\"transition_config\"");
    reveal_strlit("\"allowed_transitions\"");
    assert(vstd::string::is_ascii("\"order_id\""));
    assert(vstd::string::is_ascii("\"current_status\""));
    assert(vstd::string::is_ascii("\"requested_status\""));
    assert(vstd::string::is_ascii("\"actor_id\""));
    assert(vstd::string::is_ascii("\"transition_config\""));
    assert(vstd::string::is_ascii("\"allowed_transitions\""));
}

/// Decides the order status change in `input`, writes the response document
/// to `out` and, for an allowed change, the event that records it to
/// `event`; returns the lengths of both (0 for no event).
#[verifier::spinoff_prover]
#[verifier::rlimit(60)]
pub fn evaluate(input: &[u8], out: &mut [u8], event: &mut [u8]) -> (r: (usize, usize))
    requires
        scannable(input@),
    ensures
        holds_greedy(final(out)@, r.0 as int, result_chunks(order_answer(input@))),
        final(out)@.len() == old(out)@.len(),
        order_answer(input@).allowed ==> holds_greedy(
            final(event)@,
            r.1 as int,
            order_event_chunks(
                string_at_depth_spec(input@, "\"order_id\"".spec_bytes(), 1),
                string_at_depth_spec(input@, "\"current_status\"".spec_bytes(), 1),
                string_at_depth_spec(input@, "\"requested_status\"".spec_bytes(), 1),
                string_at_depth_spec(input@, "\"actor_id\"".spec_bytes(), 1),
            ),
        ),
        !order_answer(input@).allowed ==> r.1 == 0 && final(event)@ == old(event)@,
        final(event)@.len() == old(event)@.len(),
{
    proof {
        lemma_order_keys();
    }
    let order_id = extract_string_at_depth(input, "\"order_id\"".as_bytes(), 1);
    let current = extract_string_at_depth(input, "\"current_status\"".as_bytes(), 1);
    let requested = extract_string_at_depth(input, "\"requested_status\"".as_bytes(), 1);
    let actor = extract_string_at_depth(input, "\"actor_id\"".as_bytes(), 1);
    let empty: &[u8] = &input[0..0];
    assert(empty@ =~= Seq::<u8>::empty());
    let config = match object_after_key(input, "\"transition_config\"".as_bytes()) {
        Some(c) => c,
        None => empty,
    };
    if order_id.len() == 0 || current.len() == 0 || requested.len() == 0 || actor.len() == 0 || config.len() == 0 {
        let n = write_result(
            out,
            false,
            current,
            "invalid_status".as_bytes(),
            "[\"precondition failed: required fields missing\"]".as_bytes(),
        );
        return (n, 0);
    }
    if !is_known_status(current) || !is_known_status(requested) {
        let n = write_result(
            out,
            false,
            current,
            "invalid_status".as_bytes(),
            "[\"status value is not a known order status\"]".as_bytes(),
        );
        return (n, 0);
    }
    let transitions = match object_after_key(config, "\"allowed_transitions\"".as_bytes()) {
        Some(t) => t,
        None => empty,
    };
    if transitions.len() == 0 {
        let n = write_result(
            out,
            false,
            current,
            "illegal_transition".as_bytes(),
            "[\"allowed_transitions missing\"]".as_bytes(),
        );
        return (n, 0);
    }
    let quote: &[u8] = &[34u8];
    assert(quote@ =~= seq![34u8]);
    let mut kp: Vec<&[u8]> = Vec::new();
    kp.push(quote);
    kp.push(current);
    kp.push(quote);
    assert(kp@.map_values(|b: &[u8]| b@) =~= seq![seq![34u8], current@, seq![34u8]]);
    let key = buffered(&kp, 64);
    let targets = match array_after_key(transitions, key.as_slice()) {
        Some(t) => t,
        None => {
            let mut pieces: Vec<&[u8]> = Vec::new();
            pieces.push("[\"".as_bytes());
            pieces.push(current);
            pieces.push(" has no transition list\"]".as_bytes());
            assert(pieces@.map_values(|b: &[u8]| b@) =~= seq!["[\"".spec_bytes(), current@, " has no transition list\"]".spec_bytes()]);
            let trace = buffered(&pieces, 128);
            let n = write_result(out, false, current, "illegal_transition".as_bytes(), trace.as_slice());
            return (n, 0);
        },
    };
    if !array_contains_string(targets, requested) {
        let mut pieces: Vec<&[u8]> = Vec::new();
        pieces.push("[\"".as_bytes());
        pieces.push(current);
        pieces.push(" has no allowed transition to ".as_bytes());
        pieces.push(requested);
        pieces.push("\"]".as_bytes());
        assert(pieces@.map_values(|b: &[u8]| b@) =~= seq![
            "[\"".spec_bytes(),
            current@,
            " has no allowed transition to ".spec_bytes(),
            requested@,
            "\"]".spec_bytes(),
        ]);
        let trace = buffered(&pieces, 160);
        let n = write_result(out, false, current, "illegal_transition".as_bytes(), trace.as_slice());
        return (n, 0);
    }
    let arrow_bytes: &[u8] = &[32u8, 226u8, 134u8, 146u8, 32u8];
    assert(arrow_bytes@ =~= arrow());
    let mut pieces: Vec<&[u8]> = Vec::new();
    pieces.push("[\"".as_bytes());
    pieces.push(current);
    pieces.push(arrow_bytes);
    pieces.push(requested);
    pieces.push(" is allowed\"]".as_bytes());
    assert(pieces@.map_values(|b: &[u8]| b@) =~= seq!["[\"".spec_bytes(), current@, arrow(), requested@, " is allowed\"]".spec_bytes()]);
    let trace = buffered(&pieces, 160);
    let e = write_event(event, order_id, current, requested, actor);
    let n = write_result(out, true, requested, "ok".as_bytes(), trace.as_slice());
    (n, e)
}

} // verus!
