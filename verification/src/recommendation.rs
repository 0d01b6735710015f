//! Approval recommendation: a second pass over a document analysis that
//! recomputes the confidence from the signal counts, keeps the more
//! conservative of that and the stated confidence, explains the outcome, and
//! records it by an event.
use vstd::prelude::*;
use vstd::string::StringSliceAdditionalSpecFns;
use crate::emit::{decimal, decimal_digits, escape_byte, json_escape};

verus! {

/// The rank of a stated confidence: high 2, medium 1, anything else 0.
pub open spec fn rank_of(confidence: Seq<u8>) -> int {
    if confidence == "high".spec_bytes() {
        2
    } else if confidence == "medium".spec_bytes() {
        1
    } else {
        0
    }
}

/// The confidence named by a rank.
pub open spec fn confidence_name(rank: int) -> Seq<u8> {
    if rank == 2 {
        "high".spec_bytes()
    } else if rank == 1 {
        "medium".spec_bytes()
    } else {
        "low".spec_bytes()
    }
}

/// The recommendation that goes with a rank.
pub open spec fn recommendation_name(rank: int) -> Seq<u8> {
    if rank == 2 {
        "approve".spec_bytes()
    } else if rank == 1 {
        "manual_review".spec_bytes()
    } else {
        "insufficient_data".spec_bytes()
    }
}

/// The rank of a stated confidence.
pub fn confidence_rank(confidence: &str) -> (r: u8)
    ensures
        r == rank_of(confidence.spec_bytes()),
{
    if crate::scan::bytes_eq(confidence.as_bytes(), "high".as_bytes()) {
        2
    } else if crate::scan::bytes_eq(confidence.as_bytes(), "medium".as_bytes()) {
        1
    } else {
        0
    }
}

/// The confidence named by a rank.
pub fn rank_to_confidence(rank: u8) -> (r: &'static str)
    ensures
        r.spec_bytes() == confidence_name(rank as int),
{
    if rank == 2 {
        "high"
    } else if rank == 1 {
        "medium"
    } else {
        "low"
    }
}

/// The recommendation that goes with a rank.
pub fn rank_to_recommendation(rank: u8) -> (r: &'static str)
    ensures
        r.spec_bytes() == recommendation_name(rank as int),
{
    if rank == 2 {
        "approve"
    } else if rank == 1 {
        "manual_review"
    } else {
        "insufficient_data"
    }
}

/// The number of signals: a specific document kind, parties, amounts.
pub open spec fn signal_count(doc_type: Seq<u8>, parties: nat, amounts: nat) -> int {
    (if doc_type != "general".spec_bytes() { 1int } else { 0int }) + (if parties > 0 { 1int } else { 0int }) + (
    if amounts > 0 { 1int } else { 0int })
}

/// The final rank: the lower of the recomputed and the stated one.
pub open spec fn final_rank(doc_type: Seq<u8>, parties: nat, amounts: nat, stated: Seq<u8>) -> int {
    let s = signal_count(doc_type, parties, amounts);
    if s < rank_of(stated) { s } else { rank_of(stated) }
}

/// The explanation of the outcome.
pub open spec fn rationale_spec(doc_type: Seq<u8>, parties: nat, amounts: nat, stated: Seq<u8>) -> Seq<u8> {
    let f = final_rank(doc_type, parties, amounts, stated);
    "docType=".spec_bytes() + doc_type + "; ".spec_bytes() + decimal(parties) + " part".spec_bytes() + (if parties
        == 1 {
        "y".spec_bytes()
    } else {
        "ies".spec_bytes()
    }) + " found; ".spec_bytes() + decimal(amounts) + " amount".spec_bytes() + (if amounts == 1 {
        Seq::empty()
    } else {
        "s".spec_bytes()
    }) + " found".spec_bytes() + (if f < rank_of(stated) {
        "; downgraded from ".spec_bytes() + stated
            + " confidence because detected signals only support ".spec_bytes() + confidence_name(f)
    } else {
        "; confirmed at ".spec_bytes() + confidence_name(f) + " confidence".spec_bytes()
    })
}

/// The event that records the recommendation.
pub open spec fn issued_event(recommendation: Seq<u8>, confidence: Seq<u8>, rationale: Seq<u8>, doc_type: Seq<u8>) -> Seq<
    u8,
> {
    "{\"event_id\":\"doc-approval.recommendation-issued\",\"version\":\"1.0.0\",\"payload\":{\"docType\":\"".spec_bytes()
        + doc_type + "\",\"recommendation\":\"".spec_bytes() + recommendation + "\",\"confidence\":\"".spec_bytes()
        + confidence + "\",\"rationale\":\"".spec_bytes() + json_escape(rationale) + "\"}}".spec_bytes()
}

/// What a recommendation request gets, with the event that records it.
pub struct Recommendation {
    pub recommendation: &'static str,
    pub confidence: &'static str,
    pub rationale: Vec<u8>,
    pub event: Vec<u8>,
}

/// Appends `bytes` to `v`.
fn append(v: &mut Vec<u8>, bytes: &[u8])
    ensures
        final(v)@ == old(v)@ + bytes@,
{
    let ghost pre = v@;
    let mut k: usize = 0;
    while k < bytes.len()
        invariant
            k <= bytes@.len(),
            v@ == pre + bytes@.take(k as int),
        decreases bytes@.len() - k,
    {
        v.push(bytes[k]);
        k = k + 1;
        assert(v@ =~= pre + bytes@.take(k as int));
    }
    assert(bytes@.take(k as int) =~= bytes@);
}

/// Appends `bytes` to `v` as the body of a JSON string.
fn append_escaped(v: &mut Vec<u8>, bytes: &[u8])
    ensures
        final(v)@ == old(v)@ + json_escape(bytes@),
{
    let ghost pre = v@;
    let mut k: usize = 0;
    assert(bytes@.take(0) =~= Seq::<u8>::empty());
    while k < bytes.len()
        invariant
            k <= bytes@.len(),
            v@ == pre + json_escape(bytes@.take(k as int)),
        decreases bytes@.len() - k,
    {
        let b = bytes[k];
        if b == 34 || b == 92 {
            v.push(92);
        }
        v.push(b);
        proof {
            let t = bytes@.take(k as int + 1);
            assert(t.drop_last() =~= bytes@.take(k as int));
            assert(t.last() == b);
        }
        k = k + 1;
        assert(v@ =~= pre + json_escape(bytes@.take(k as int)));
    }
    assert(bytes@.take(k as int) =~= bytes@);
}

/// The explanation of the outcome.
pub fn rationale(doc_type: &str, parties: usize, amounts: usize, input_confidence: &str) -> (r: Vec<u8>)
    ensures
        r@ == rationale_spec(doc_type.spec_bytes(), parties as nat, amounts as nat, input_confidence.spec_bytes()),
{
    let d = doc_type.as_bytes();
    let mut signals: u8 = 0;
    if !crate::scan::bytes_eq(d, "general".as_bytes()) {
        signals = signals + 1;
    }
    if parties > 0 {
        signals = signals + 1;
    }
    if amounts > 0 {
        signals = signals + 1;
    }
    let input_rank = confidence_rank(input_confidence);
    let rank = if signals < input_rank {
        signals
    } else {
        input_rank
    };
    let confidence = rank_to_confidence(rank);
    let mut text: Vec<u8> = Vec::new();
    append(&mut text, "docType=".as_bytes());
    append(&mut text, d);
    append(&mut text, "; ".as_bytes());
    let pd = decimal_digits(parties as u64);
    append(&mut text, pd.as_slice());
    append(&mut text, " part".as_bytes());
    if parties == 1 {
        append(&mut text, "y".as_bytes());
    } else {
        append(&mut text, "ies".as_bytes());
    }
    append(&mut text, " found; ".as_bytes());
    let ad = decimal_digits(amounts as u64);
    append(&mut text, ad.as_slice());
    append(&mut text, " amount".as_bytes());
    let ghost mid = text@;
    if amounts != 1 {
        append(&mut text, "s".as_bytes());
    } else {
        assert(text@ =~= mid + Seq::<u8>::empty());
    }
    append(&mut text, " found".as_bytes());
    if rank < input_rank {
        append(&mut text, "; downgraded from ".as_bytes());
        append(&mut text, input_confidence.as_bytes());
        append(&mut text, " confidence because detected signals only support ".as_bytes());
        append(&mut text, confidence.as_bytes());
    } else {
        append(&mut text, "; confirmed at ".as_bytes());
        append(&mut text, confidence.as_bytes());
        append(&mut text, " confidence".as_bytes());
    }
    assert(text@ =~= rationale_spec(
        doc_type.spec_bytes(),
        parties as nat,
        amounts as nat,
        input_confidence.spec_bytes(),
    ));
    text
}

/// The event that records the recommendation.
pub fn issued_event_bytes(recommendation: &str, confidence: &str, rationale: &[u8], doc_type: &str) -> (r: Vec<u8>)
    ensures
        r@ == issued_event(recommendation.spec_bytes(), confidence.spec_bytes(), rationale@, doc_type.spec_bytes()),
{
    let mut event: Vec<u8> = Vec::new();
    append(
        &mut event,
        "{\"event_id\":\"doc-approval.recommendation-issued\",\"version\":\"1.0.0\",\"payload\":{\"docType\":\"".as_bytes(),
    );
    append(&mut event, doc_type.as_bytes());
    append(&mut event, "\",\"recommendation\":\"".as_bytes());
    append(&mut event, recommendation.as_bytes());
    append(&mut event, "\",\"confidence\":\"".as_bytes());
    append(&mut event, confidence.as_bytes());
    append(&mut event, "\",\"rationale\":\"".as_bytes());
    append_escaped(&mut event, rationale);
    append(&mut event, "\"}}".as_bytes());
    assert(event@ =~= issued_event(recommendation.spec_bytes(), confidence.spec_bytes(), rationale@, doc_type.spec_bytes()));
    event
}

/// The recommendation for a document of kind `doc_type` with `parties`
/// parties and `amounts` amounts whose analysis stated `input_confidence`.
pub fn recommend(doc_type: &str, parties: usize, amounts: usize, input_confidence: &str) -> (r: Recommendation)
    ensures
        r.recommendation.spec_bytes() == recommendation_name(
            final_rank(doc_type.spec_bytes(), parties as nat, amounts as nat, input_confidence.spec_bytes()),
        ),
        r.confidence.spec_bytes() == confidence_name(
            final_rank(doc_type.spec_bytes(), parties as nat, amounts as nat, input_confidence.spec_bytes()),
        ),
        r.rationale@ == rationale_spec(
            doc_type.spec_bytes(),
            parties as nat,
            amounts as nat,
            input_confidence.spec_bytes(),
        ),
        r.event@ == issued_event(
            r.recommendation.spec_bytes(),
            r.confidence.spec_bytes(),
            r.rationale@,
            doc_type.spec_bytes(),
        ),
{
    let mut signals: u8 = 0;
    if !crate::scan::bytes_eq(doc_type.as_bytes(), "general".as_bytes()) {
        signals = signals + 1;
    }
    if parties > 0 {
        signals = signals + 1;
    }
    if amounts > 0 {
        signals = signals + 1;
    }
    let input_rank = confidence_rank(input_confidence);
    let rank = if signals < input_rank {
        signals
    } else {
        input_rank
    };
    let confidence = rank_to_confidence(rank);
    let recommendation = rank_to_recommendation(rank);
    let text = rationale(doc_type, parties, amounts, input_confidence);
    let event = issued_event_bytes(recommendation, confidence, text.as_slice(), doc_type);
    Recommendation { recommendation, confidence, rationale: text, event }
}

} // verus!
