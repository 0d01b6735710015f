//! Cart line quantity changes: a change is accepted when the identity
//! fields are present, both quantities are integers, neither is negative and
//! they differ; an accepted change is recorded by an event.
use vstd::prelude::*;
use vstd::string::StringSliceAdditionalSpecFns;
use crate::emit::{
    copy_chunk, decimal, decimal_digits, greedy, holds_greedy, lemma_greedy_len, lemma_holds_greedy_start,
    signed_decimal, splice,
};
use crate::scan::{digit_run, digits_value, find_spec, index_of, is_digit, lemma_digit_run, scannable};
use crate::transition::{
    buffered, extract_string_at_depth, lemma_skip_gaps_len, skip_gaps, skip_gaps_spec, string_at_depth_spec,
};

verus! {

/// `n` held at `i64::MAX`.
pub open spec fn cap64(n: int) -> int {
    if n > i64::MAX { i64::MAX as int } else { n }
}

/// The integer literal that opens `rest`: an optional minus, then at least
/// one digit; the magnitude is held at `i64::MAX`.
pub open spec fn qty_literal_spec(rest: Seq<u8>) -> Option<int> {
    let j: int = if rest.len() > 0 && rest[0] == 45u8 { 1 } else { 0 };
    let tail = rest.skip(j);
    let run = digit_run(tail) as int;
    if run == 0 {
        None
    } else {
        let m = cap64(digits_value(tail.take(run)) as int);
        Some(if j == 1 { -m } else { m })
    }
}

/// The integer after the colon that follows the first occurrence of `key`
/// (spaces, newlines and tabs may precede it).
pub open spec fn qty_spec(hay: Seq<u8>, key: Seq<u8>) -> Option<int> {
    match find_spec(hay, key) {
        Some(p) => match index_of(hay.skip(p + key.len()), 58u8) {
            Some(c) => qty_literal_spec(skip_gaps_spec(hay.skip(p + key.len()).skip(c + 1))),
            None => None,
        },
        None => None,
    }
}

/// The buffer and next index after writing `s` at `at` byte by byte: when
/// all of `s` fits the index moves past it; otherwise the bytes that fit are
/// written and the index stays at `at`.
pub open spec fn bounded_write(buf: Seq<u8>, at: int, s: Seq<u8>) -> (Seq<u8>, int) {
    if at + s.len() <= buf.len() {
        (splice(buf, at, s), at + s.len())
    } else {
        let room = if at < buf.len() { buf.len() - at } else { 0 };
        (splice(buf, at, s.take(room)), at)
    }
}

/// Reads the integer literal that opens `rest`.
fn parse_qty(rest: &[u8]) -> (r: Option<i64>)
    ensures
        match qty_literal_spec(rest@) {
            Some(v) => r == Some(v as i64) && i64::MIN < v <= i64::MAX,
            None => r is None,
        },
{
    let mut j: usize = 0;
    let neg = rest.len() > 0 && rest[0] == 45;
    if neg {
        j = 1;
    }
    let ghost tail = rest@.skip(j as int);
    proof {
        lemma_digit_run(tail);
        assert(tail.take(0) =~= Seq::<u8>::empty());
    }
    let ghost run = digit_run(tail) as int;
    let start = j;
    let mut v: i64 = 0;
    while j < rest.len() && 48 <= rest[j] && rest[j] <= 57
        invariant
            start <= j <= rest@.len(),
            tail == rest@.skip(start as int),
            run == digit_run(tail),
            run <= tail.len(),
            forall|i: int| 0 <= i < run ==> is_digit(#[trigger] tail[i]),
            run < tail.len() ==> !is_digit(tail[run]),
            j - start <= run,
            v >= 0,
            v as int == cap64(digits_value(tail.take(j - start)) as int),
        decreases rest@.len() - j,
    {
        proof {
            if j - start == run {
                assert(tail[run] == rest@[j as int]);
            }
            let k = (j - start + 1) as int;
            assert(tail.take(k).drop_last() =~= tail.take(k - 1));
            assert(tail.take(k).last() == rest@[j as int]);
        }
        let d = (rest[j] - 48) as i64;
        v = match v.checked_mul(10) {
            Some(p) => match p.checked_add(d) {
                Some(q) => q,
                None => i64::MAX,
            },
            None => i64::MAX,
        };
        j = j + 1;
    }
    proof {
        if j - start < run {
            assert(tail[j - start] == rest@[j as int]);
        }
    }
    if j == start {
        return None;
    }
    Some(if neg { -v } else { v })
}

/// The integer after the first occurrence of `key` in `hay`, its magnitude
/// held at `i64::MAX`.
pub fn extract_i64(hay: &[u8], key: &[u8]) -> (r: Option<i64>)
    requires
        key@.len() > 0,
    ensures
        match qty_spec(hay@, key@) {
            Some(v) => r == Some(v as i64) && i64::MIN < v <= i64::MAX,
            None => r is None,
        },
{
    let pos = match crate::scan::find(hay, key) {
        Some(p) => p,
        None => return None,
    };
    let after = &hay[pos + key.len()..hay.len()];
    assert(after@ =~= hay@.skip(pos + key@.len()));
    let colon = match crate::scan::index_of_byte(after, 58) {
        Some(c) => c,
        None => return None,
    };
    let tail = &after[colon + 1..after.len()];
    assert(tail@ =~= after@.skip(colon + 1));
    let rest = skip_gaps(tail);
    parse_qty(rest)
}

/// The decimal spelling of `n`, with a minus sign when it is negative.
fn signed_text(n: i64) -> (v: Vec<u8>)
    requires
        n > i64::MIN,
    ensures
        v@ == signed_decimal(n as int),
        v@.len() > 0,
{
    let m: u64 = if n < 0 {
        (-n) as u64
    } else {
        n as u64
    };
    let digits = decimal_digits(m);
    proof {
        lemma_decimal_nonempty(m as nat);
    }
    let mut text: Vec<u8> = Vec::new();
    if n < 0 {
        text.push(45u8);
    }
    let ghost pre = text@;
    let mut k: usize = 0;
    while k < digits.len()
        invariant
            k <= digits@.len(),
            text@ == pre + digits@.take(k as int),
        decreases digits@.len() - k,
    {
        text.push(digits[k]);
        k = k + 1;
        assert(text@ =~= pre + digits@.take(k as int));
    }
    assert(digits@.take(k as int) =~= digits@);
    assert(text@ =~= signed_decimal(n as int));
    text
}

proof fn lemma_decimal_nonempty(n: nat)
    ensures
        decimal(n).len() > 0,
    decreases n,
{
    if n >= 10 {
        lemma_decimal_nonempty(n / 10);
    }
}

/// Writes the decimal spelling of `n` at `at` byte by byte. Returns the
/// index after it when it fits whole; otherwise the bytes that fit stay
/// written and `at` is returned.
pub fn copy_i64(out: &mut [u8], at: usize, n: i64) -> (r: usize)
    requires
        n > i64::MIN,
    ensures
        (final(out)@, r as int) == bounded_write(old(out)@, at as int, signed_decimal(n as int)),
{
    let text = signed_text(n);
    let ghost o = out@;
    let ghost s = text@;
    assert(s.take(0) =~= Seq::<u8>::empty());
    assert(splice(o, at as int, s.take(0)) =~= o);
    let mut k: usize = 0;
    while k < text.len()
        invariant
            k <= s.len(),
            s == text@,
            s == signed_decimal(n as int),
            out@ == splice(o, at as int, s.take(k as int)),
            k == 0 || at + k <= out@.len(),
            out@.len() == o.len(),
            s.len() > 0,
            o == old(out)@,
        decreases s.len() - k,
    {
        if at >= out.len() || k >= out.len() - at {
            proof {
                let room: int = if at < o.len() { o.len() - at } else { 0 };
                assert(room == k);
                assert(at + s.len() > o.len());
                assert(bounded_write(o, at as int, s) == (splice(o, at as int, s.take(k as int)), at as int));
            }
            return at;
        }
        out[at + k] = text[k];
        k = k + 1;
        assert(out@ =~= splice(o, at as int, s.take(k as int)));
    }
    assert(s.take(k as int) =~= s);
    let len = out.len();
    assert(at + k <= len);
    at + k
}

/// Writes the decimal spelling of `n` as the next chunk of a response: the
/// prefix the response has reached stays as it was when it does not fit.
pub fn put_i64(out: &mut [u8], i: usize, n: i64, Ghost(chunks): Ghost<Seq<Seq<u8>>>) -> (r: usize)
    requires
        holds_greedy(old(out)@, i as int, chunks),
        n > i64::MIN,
    ensures
        holds_greedy(final(out)@, r as int, chunks.push(signed_decimal(n as int))),
        final(out)@.len() == old(out)@.len(),
{
    let ghost o = out@;
    proof {
        lemma_greedy_len(o.len() as int, chunks);
    }
    let r = copy_i64(out, i, n);
    proof {
        let s = signed_decimal(n as int);
        assert(chunks.push(s).drop_last() =~= chunks);
        if i + s.len() <= o.len() {
            assert(out@.take(r as int) =~= o.take(i as int) + s);
        } else {
            assert(out@.take(r as int) =~= o.take(i as int));
        }
    }
    r
}

/// What a cart line change request gets: whether it is accepted, the two
/// quantities echoed, a reason code and the trace.
pub ghost struct CartAnswer {
    pub accepted: bool,
    pub before: int,
    pub after: int,
    pub code: Seq<u8>,
    pub trace: Seq<u8>,
}

/// The answer to a cart line change request.
pub open spec fn cart_answer(input: Seq<u8>) -> CartAnswer {
    let cart = string_at_depth_spec(input, "\"cart_id\"".spec_bytes(), 1);
    let line = string_at_depth_spec(input, "\"line_id\"".spec_bytes(), 1);
    let sku = string_at_depth_spec(input, "\"sku\"".spec_bytes(), 1);
    let actor = string_at_depth_spec(input, "\"actor_id\"".spec_bytes(), 1);
    let missing_qty = CartAnswer {
        accepted: false,
        before: 0,
        after: 0,
        code: "invalid_input".spec_bytes(),
        trace: "[\"precondition failed: qty_before and qty_after required as integers\"]".spec_bytes(),
    };
    if cart.len() == 0 || line.len() == 0 || sku.len() == 0 || actor.len() == 0 {
        CartAnswer {
            accepted: false,
            before: 0,
            after: 0,
            code: "invalid_input".spec_bytes(),
            trace: "[\"precondition failed: required string fields missing\"]".spec_bytes(),
        }
    } else {
        match qty_spec(input, "\"qty_before\"".spec_bytes()) {
            None => missing_qty,
            Some(before) => match qty_spec(input, "\"qty_after\"".spec_bytes()) {
                None => missing_qty,
                Some(after) => if before < 0 || after < 0 {
                    CartAnswer {
                        accepted: false,
                        before,
                        after,
                        code: "invalid_qty".spec_bytes(),
                        trace: "[\"qty_before and qty_after must be >= 0\"]".spec_bytes(),
                    }
                } else if before == after {
                    CartAnswer {
                        accepted: false,
                        before,
                        after,
                        code: "no_change".spec_bytes(),
                        trace: "[\"qty_before equals qty_after; nothing to emit\"]".spec_bytes(),
                    }
                } else {
                    CartAnswer {
                        accepted: true,
                        before,
                        after,
                        code: "ok".spec_bytes(),
                        trace: greedy(160, seq!["[\"".spec_bytes(), line, " qty changed\"]".spec_bytes()]),
                    }
                },
            },
        }
    }
}

/// The chunks of the response document for answer `a`.
pub open spec fn cart_result_chunks(a: CartAnswer) -> Seq<Seq<u8>> {
    seq![
        "{\"accepted\":".spec_bytes(),
        if a.accepted { "true".spec_bytes() } else { "false".spec_bytes() },
        ",\"qty_before\":".spec_bytes(),
        signed_decimal(a.before),
        ",\"qty_after\":".spec_bytes(),
        signed_decimal(a.after),
        ",\"reason_code\":\"".spec_bytes(),
        a.code,
        "\",\"evaluation_trace\":".spec_bytes(),
        a.trace,
        "}".spec_bytes(),
    ]
}

/// The chunks of the event that records an accepted cart line change.
pub open spec fn cart_event_chunks(
    cart: Seq<u8>,
    line: Seq<u8>,
    sku: Seq<u8>,
    before: int,
    after: int,
    actor: Seq<u8>,
) -> Seq<Seq<u8>> {
    seq![
        "{\"event_id\":\"commerce.cart.line-changed\",\"version\":\"1.0.0\",\"payload\":{\"cart_id\":\"".spec_bytes(),
        cart,
        "\",\"line_id\":\"".spec_bytes(),
        line,
        "\",\"sku\":\"".spec_bytes(),
        sku,
        "\",\"qty_before\":".spec_bytes(),
        signed_decimal(before),
        ",\"qty_after\":".spec_bytes(),
        signed_decimal(after),
        ",\"actor_id\":\"".spec_bytes(),
        actor,
        "\"}}".spec_bytes(),
    ]
}

/// Writes the response document; returns its length.
pub fn write_result(
    out: &mut [u8],
    accepted: bool,
    qty_before: i64,
    qty_after: i64,
    reason_code: &[u8],
    evaluation_trace: &[u8],
) -> (r: usize)
    requires
        qty_before > i64::MIN,
        qty_after > i64::MIN,
    ensures
        holds_greedy(
            final(out)@,
            r as int,
            cart_result_chunks(
                CartAnswer {
                    accepted,
                    before: qty_before as int,
                    after: qty_after as int,
                    code: reason_code@,
                    trace: evaluation_trace@,
                },
            ),
        ),
        final(out)@.len() == old(out)@.len(),
{
    proof {
        lemma_holds_greedy_start(out@);
    }
    let ghost mut c = Seq::<Seq<u8>>::empty();
    let mut i = copy_chunk(out, 0, "{\"accepted\":".as_bytes(), Ghost(c));
    proof { c = c.push("{\"accepted\":".spec_bytes()); }
    let tf = if accepted { "true".as_bytes() } else { "false".as_bytes() };
    i = copy_chunk(out, i, tf, Ghost(c));
    proof { c = c.push(tf@); }
    i = copy_chunk(out, i, ",\"qty_before\":".as_bytes(), Ghost(c));
    proof { c = c.push(",\"qty_before\":".spec_bytes()); }
    i = put_i64(out, i, qty_before, Ghost(c));
    proof { c = c.push(signed_decimal(qty_before as int)); }
    i = copy_chunk(out, i, ",\"qty_after\":".as_bytes(), Ghost(c));
    proof { c = c.push(",\"qty_after\":".spec_bytes()); }
    i = put_i64(out, i, qty_after, Ghost(c));
    proof { c = c.push(signed_decimal(qty_after as int)); }
    i = copy_chunk(out, i, ",\"reason_code\":\"".as_bytes(), Ghost(c));
    proof { c = c.push(",\"reason_code\":\"".spec_bytes()); }
    i = copy_chunk(out, i, reason_code, Ghost(c));
    proof { c = c.push(reason_code@); }
    i = copy_chunk(out, i, "\",\"evaluation_trace\":".as_bytes(), Ghost(c));
    proof { c = c.push("\",\"evaluation_trace\":".spec_bytes()); }
    i = copy_chunk(out, i, evaluation_trace, Ghost(c));
    proof { c = c.push(evaluation_trace@); }
    i = copy_chunk(out, i, "}".as_bytes(), Ghost(c));
    proof {
        c = c.push("}".spec_bytes());
        assert(c =~= cart_result_chunks(
            CartAnswer {
                accepted,
                before: qty_before as int,
                after: qty_after as int,
                code: reason_code@,
                trace: evaluation_trace@,
            },
        ));
    }
    i
}

/// Writes the event that records the change of line `line` of cart `cart`;
/// returns its length.
pub fn write_event(
    buf: &mut [u8],
    cart: &[u8],
    line: &[u8],
    sku: &[u8],
    qty_before: i64,
    qty_after: i64,
    actor: &[u8],
) -> (r: usize)
    requires
        qty_before > i64::MIN,
        qty_after > i64::MIN,
    ensures
        holds_greedy(
            final(buf)@,
            r as int,
            cart_event_chunks(cart@, line@, sku@, qty_before as int, qty_after as int, actor@),
        ),
        final(buf)@.len() == old(buf)@.len(),
{
    proof {
        lemma_holds_greedy_start(buf@);
    }
    let ghost mut c = Seq::<Seq<u8>>::empty();
    let head = "{\"event_id\":\"commerce.cart.line-changed\",\"version\":\"1.0.0\",\"payload\":{\"cart_id\":\"".as_bytes();
    let mut i = copy_chunk(buf, 0, head, Ghost(c));
    proof { c = c.push(head@); }
    i = copy_chunk(buf, i, cart, Ghost(c));
    proof { c = c.push(cart@); }
    i = copy_chunk(buf, i, "\",\"line_id\":\"".as_bytes(), Ghost(c));
    proof { c = c.push("\",\"line_id\":\"".spec_bytes()); }
    i = copy_chunk(buf, i, line, Ghost(c));
    proof { c = c.push(line@); }
    i = copy_chunk(buf, i, "\",\"sku\":\"".as_bytes(), Ghost(c));
    proof { c = c.push("\",\"sku\":\"".spec_bytes()); }
    i = copy_chunk(buf, i, sku, Ghost(c));
    proof { c = c.push(sku@); }
    i = copy_chunk(buf, i, "\",\"qty_before\":".as_bytes(), Ghost(c));
    proof { c = c.push("\",\"qty_before\":".spec_bytes()); }
    i = put_i64(buf, i, qty_before, Ghost(c));
    proof { c = c.push(signed_decimal(qty_before as int)); }
    i = copy_chunk(buf, i, ",\"qty_after\":".as_bytes(), Ghost(c));
    proof { c = c.push(",\"qty_after\":".spec_bytes()); }
    i = put_i64(buf, i, qty_after, Ghost(c));
    proof { c = c.push(signed_decimal(qty_after as int)); }
    i = copy_chunk(buf, i, ",\"actor_id\":\"".as_bytes(), Ghost(c));
    proof { c = c.push(",\"actor_id\":\"".spec_bytes()); }
    i = copy_chunk(buf, i, actor, Ghost(c));
    proof { c = c.push(actor@); }
    i = copy_chunk(buf, i, "\"}}".as_bytes(), Ghost(c));
    proof {
        c = c.push("\"}}".spec_bytes());
        assert(c =~= cart_event_chunks(cart@, line@, sku@, qty_before as int, qty_after as int, actor@));
    }
    i
}

proof fn lemma_cart_keys()
    ensures
        "\"cart_id\"".spec_bytes().len() > 0,
        "\"line_id\"".spec_bytes().len() > 0,
        "\"sku\"".spec_bytes().len() > 0,
        "\"actor_id\"".spec_bytes().len() > 0,
        "\"qty_before\"".spec_bytes().len() > 0,
        "\"qty_after\"".spec_bytes().len() > 0,
{
    broadcast use vstd::string::group_string_axioms;
    reveal_strlit("\"cart_id\"");
    reveal_strlit("\"line_id\"");
    reveal_strlit("\"sku\"");
    reveal_strlit("\"actor_id\"");
    reveal_strlit("\"qty_before\"");
    reveal_strlit("\"qty_after\"");
    assert(vstd::string::is_ascii("\"cart_id\""));
    assert(vstd::string::is_ascii("\"line_id\""));
    assert(vstd::string::is_ascii("\"sku\""));
    assert(vstd::string::is_ascii("\"actor_id\""));
    assert(vstd::string::is_ascii("\"qty_before\""));
    assert(vstd::string::is_ascii("\"qty_after\""));
}

/// Decides the cart line change in `input`, writes the response document to
/// `out` and, for an accepted change, the event that records it to `event`;
/// returns the lengths of both (0 for no event).
#[verifier::spinoff_prover]
#[verifier::rlimit(60)]
pub fn evaluate(input: &[u8], out: &mut [u8], event: &mut [u8]) -> (r: (usize, usize))
    requires
        scannable(input@),
    ensures
        holds_greedy(final(out)@, r.0 as int, cart_result_chunks(cart_answer(input@))),
        final(out)@.len() == old(out)@.len(),
        cart_answer(input@).accepted ==> holds_greedy(
            final(event)@,
            r.1 as int,
            cart_event_chunks(
                string_at_depth_spec(input@, "\"cart_id\"".spec_bytes(), 1),
                string_at_depth_spec(input@, "\"line_id\"".spec_bytes(), 1),
                string_at_depth_spec(input@, "\"sku\"".spec_bytes(), 1),
                cart_answer(input@).before,
                cart_answer(input@).after,
                string_at_depth_spec(input@, "\"actor_id\"".spec_bytes(), 1),
            ),
        ),
        !cart_answer(input@).accepted ==> r.1 == 0 && final(event)@ == old(event)@,
        final(event)@.len() == old(event)@.len(),
{
    proof {
        lemma_cart_keys();
    }
    let cart_id = extract_string_at_depth(input, "\"cart_id\"".as_bytes(), 1);
    let line_id = extract_string_at_depth(input, "\"line_id\"".as_bytes(), 1);
    let sku = extract_string_at_depth(input, "\"sku\"".as_bytes(), 1);
    let actor_id = extract_string_at_depth(input, "\"actor_id\"".as_bytes(), 1);
    let qty_before = extract_i64(input, "\"qty_before\"".as_bytes());
    let qty_after = extract_i64(input, "\"qty_after\"".as_bytes());
    if cart_id.len() == 0 || line_id.len() == 0 || sku.len() == 0 || actor_id.len() == 0 {
        let n = write_result(
            out,
            false,
            0,
            0,
            "invalid_input".as_bytes(),
            "[\"precondition failed: required string fields missing\"]".as_bytes(),
        );
        return (n, 0);
    }
    let (before, after) = match qty_before {
        Some(b) => match qty_after {
            Some(a) => (b, a),
            None => {
                let n = write_result(
                    out,
                    false,
                    0,
                    0,
                    "invalid_input".as_bytes(),
                    "[\"precondition failed: qty_before and qty_after required as integers\"]".as_bytes(),
                );
                return (n, 0);
            },
        },
        None => {
            let n = write_result(
                out,
                false,
                0,
                0,
                "invalid_input".as_bytes(),
                "[\"precondition failed: qty_before and qty_after required as integers\"]".as_bytes(),
            );
            return (n, 0);
        },
    };
    if before < 0 || after < 0 {
        let n = write_result(
            out,
            false,
            before,
            after,
            "invalid_qty".as_bytes(),
            "[\"qty_before and qty_after must be >= 0\"]".as_bytes(),
        );
        return (n, 0);
    }
    if before == after {
        let n = write_result(
            out,
            false,
            before,
            after,
            "no_change".as_bytes(),
            "[\"qty_before equals qty_after; nothing to emit\"]".as_bytes(),
        );
        return (n, 0);
    }
    let e = write_event(event, cart_id, line_id, sku, before, after, actor_id);
    let mut pieces: Vec<&[u8]> = Vec::new();
    pieces.push("[\"".as_bytes());
    pieces.push(line_id);
    pieces.push(" qty changed\"]".as_bytes());
    assert(pieces@.map_values(|b: &[u8]| b@) =~= seq!["[\"".spec_bytes(), line_id@, " qty changed\"]".spec_bytes()]);
    let trace = buffered(&pieces, 160);
    let n = write_result(out, true, before, after, "ok".as_bytes(), trace.as_slice());
    (n, e)
}

} // verus!
