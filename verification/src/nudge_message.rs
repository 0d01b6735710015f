//! Nudge messages: the text that reminds the owner of an action item, from
//! a template chosen by the nudge intensity, with a short preview.
use vstd::prelude::*;
use vstd::string::StringSliceAdditionalSpecFns;
use crate::emit::{escaped_chunks, greedy, holds_greedy, lemma_run_holds, put_chunk, put_escaped};
use crate::scan::{
    bracketed_at_depth_spec, extract_bool_spec, extract_string, extract_string_at_depth,
    extract_string_at_depth_spec, extract_string_spec, object_after_key_at_depth, scannable,
};
use crate::transition::buffered;

verus! {

/// The intensities a nudge may have.
pub open spec fn known_intensity(s: Seq<u8>) -> bool {
    s == "soft".spec_bytes() || s == "direct".spec_bytes() || s == "escalate".spec_bytes()
}

/// The pieces of the message for an item with title `title`, owner `owner`
/// (may be empty) and due date `due` (shown when `show_due`).
pub open spec fn message_chunks(
    intensity: Seq<u8>,
    owner: Seq<u8>,
    title: Seq<u8>,
    due: Seq<u8>,
    show_due: bool,
) -> Seq<Seq<u8>> {
    if intensity == "soft".spec_bytes() {
        seq![
            "Hey ".spec_bytes(),
            if owner.len() == 0 { "there".spec_bytes() } else { owner },
            " - friendly reminder that \"".spec_bytes(),
            title,
            "\"".spec_bytes(),
        ] + (if show_due { seq![" is due ".spec_bytes(), due] } else { Seq::empty() }) + seq![
            ". Let us know if you need anything!".spec_bytes(),
        ]
    } else if intensity == "direct".spec_bytes() {
        (if owner.len() > 0 { seq![owner, ": ".spec_bytes()] } else { Seq::empty() }) + seq![
            "Please complete \"".spec_bytes(),
            title,
            "\"".spec_bytes(),
        ] + (if show_due { seq![" by ".spec_bytes(), due] } else { Seq::empty() }) + seq![".".spec_bytes()]
    } else {
        seq!["Escalation: \"".spec_bytes(), title, "\" still needs attention".spec_bytes()] + (if owner.len()
            > 0 {
            seq![" from ".spec_bytes(), owner]
        } else {
            Seq::empty()
        }) + (if show_due { seq![" (due ".spec_bytes(), due, ")".spec_bytes()] } else { Seq::empty() }) + seq![
            ".".spec_bytes(),
        ]
    }
}

/// What a nudge request gets: a message and preview with the intensity and
/// tone used, or a failure code and trace.
pub ghost enum NudgeAnswer {
    Message { message: Seq<u8>, preview: Seq<u8>, intensity: Seq<u8>, tone: Seq<u8> },
    Failure { code: Seq<u8>, trace: Seq<u8> },
}

/// The answer to the nudge request in `input`.
pub open spec fn nudge_answer(input: Seq<u8>) -> NudgeAnswer {
    let item = match bracketed_at_depth_spec(input, "\"item\"".spec_bytes(), 1, 123u8, 125u8) {
        Some(v) => v,
        None => Seq::empty(),
    };
    let intensity = extract_string_at_depth_spec(input, "\"intensity\"".spec_bytes(), 1);
    let config = match bracketed_at_depth_spec(input, "\"message_config\"".spec_bytes(), 1, 123u8, 125u8) {
        Some(v) => v,
        None => Seq::empty(),
    };
    let tone0 = extract_string_spec(config, "\"tone\"".spec_bytes());
    let tone = if tone0.len() == 0 { "friendly".spec_bytes() } else { tone0 };
    let include_due = match extract_bool_spec(config, "\"include_due_date\"".spec_bytes()) {
        Some(b) => b,
        None => true,
    };
    let owner = extract_string_spec(item, "\"owner_name\"".spec_bytes());
    let title = extract_string_spec(item, "\"title\"".spec_bytes());
    let due = extract_string_spec(item, "\"due_date\"".spec_bytes());
    if item.len() == 0 || intensity.len() == 0 || config.len() == 0 {
        NudgeAnswer::Failure {
            code: "config_error".spec_bytes(),
            trace: "[\"missing required fields\"]".spec_bytes(),
        }
    } else if !known_intensity(intensity) {
        NudgeAnswer::Failure {
            code: "invalid_intensity".spec_bytes(),
            trace: "[\"intensity must be soft|direct|escalate\"]".spec_bytes(),
        }
    } else if title.len() == 0 {
        NudgeAnswer::Failure { code: "config_error".spec_bytes(), trace: "[\"item.title required\"]".spec_bytes() }
    } else {
        NudgeAnswer::Message {
            message: greedy(1024, message_chunks(intensity, owner, title, due, include_due && due.len() > 0)),
            preview: greedy(256, seq!["Reminder: ".spec_bytes(), title]),
            intensity,
            tone,
        }
    }
}

/// The chunks of the response document for answer `a`.
pub open spec fn nudge_chunks(a: NudgeAnswer) -> Seq<Seq<u8>> {
    match a {
        NudgeAnswer::Failure { code, trace } => seq![
            "{\"message\":\"\",\"preview\":\"\",\"reason_code\":\"".spec_bytes(),
            code,
            "\",\"evaluation_trace\":".spec_bytes(),
            trace,
            "}".spec_bytes(),
        ],
        NudgeAnswer::Message { message, preview, intensity, tone } => seq!["{\"message\":\"".spec_bytes()]
            + escaped_chunks(message) + seq!["\",\"preview\":\"".spec_bytes()] + escaped_chunks(preview) + seq![
            "\",\"reason_code\":\"ok\",\"evaluation_trace\":[\"intensity=".spec_bytes(),
            intensity,
            "\",\"tone=".spec_bytes(),
            tone,
            "\"]}".spec_bytes(),
        ],
    }
}

/// Writes the failure document with `code` and `trace`; returns its length.
pub fn fail(out: &mut [u8], code: &[u8], trace: &[u8]) -> (r: usize)
    ensures
        holds_greedy(final(out)@, r as int, nudge_chunks(NudgeAnswer::Failure { code: code@, trace: trace@ })),
        final(out)@.len() == old(out)@.len(),
{
    let ghost o = out@;
    let ghost mut c = Seq::<Seq<u8>>::empty();
    let mut i = put_chunk(out, 0, "{\"message\":\"\",\"preview\":\"\",\"reason_code\":\"".as_bytes(), Ghost(o), Ghost(c));
    proof { c = c + seq!["{\"message\":\"\",\"preview\":\"\",\"reason_code\":\"".spec_bytes()]; }
    i = put_chunk(out, i, code, Ghost(o), Ghost(c));
    proof { c = c + seq![code@]; }
    i = put_chunk(out, i, "\",\"evaluation_trace\":".as_bytes(), Ghost(o), Ghost(c));
    proof { c = c + seq!["\",\"evaluation_trace\":".spec_bytes()]; }
    i = put_chunk(out, i, trace, Ghost(o), Ghost(c));
    proof { c = c + seq![trace@]; }
    i = put_chunk(out, i, "}".as_bytes(), Ghost(o), Ghost(c));
    proof {
        c = c + seq!["}".spec_bytes()];
        assert(c =~= nudge_chunks(NudgeAnswer::Failure { code: code@, trace: trace@ }));
        lemma_run_holds(o, out@, i as int, c);
    }
    i
}

/// Writes the document that carries `message` and `preview`; returns its
/// length.
pub fn write_message(out: &mut [u8], message: &[u8], preview: &[u8], intensity: &[u8], tone: &[u8]) -> (r: usize)
    ensures
        holds_greedy(
            final(out)@,
            r as int,
            nudge_chunks(
                NudgeAnswer::Message { message: message@, preview: preview@, intensity: intensity@, tone: tone@ },
            ),
        ),
        final(out)@.len() == old(out)@.len(),
{
    let ghost o = out@;
    let ghost mut c = Seq::<Seq<u8>>::empty();
    let mut i = put_chunk(out, 0, "{\"message\":\"".as_bytes(), Ghost(o), Ghost(c));
    proof { c = c + seq!["{\"message\":\"".spec_bytes()]; }
    i = put_escaped(out, i, message, Ghost(o), Ghost(c));
    proof { c = c + escaped_chunks(message@); }
    i = put_chunk(out, i, "\",\"preview\":\"".as_bytes(), Ghost(o), Ghost(c));
    proof { c = c + seq!["\",\"preview\":\"".spec_bytes()]; }
    i = put_escaped(out, i, preview, Ghost(o), Ghost(c));
    proof { c = c + escaped_chunks(preview@); }
    i = put_chunk(out, i, "\",\"reason_code\":\"ok\",\"evaluation_trace\":[\"intensity=".as_bytes(), Ghost(o), Ghost(c));
    proof { c = c + seq!["\",\"reason_code\":\"ok\",\"evaluation_trace\":[\"intensity=".spec_bytes()]; }
    i = put_chunk(out, i, intensity, Ghost(o), Ghost(c));
    proof { c = c + seq![intensity@]; }
    i = put_chunk(out, i, "\",\"tone=".as_bytes(), Ghost(o), Ghost(c));
    proof { c = c + seq!["\",\"tone=".spec_bytes()]; }
    i = put_chunk(out, i, tone, Ghost(o), Ghost(c));
    proof { c = c + seq![tone@]; }
    i = put_chunk(out, i, "\"]}".as_bytes(), Ghost(o), Ghost(c));
    proof {
        c = c + seq!["\"]}".spec_bytes()];
        assert(c =~= nudge_chunks(
            NudgeAnswer::Message { message: message@, preview: preview@, intensity: intensity@, tone: tone@ },
        ));
        lemma_run_holds(o, out@, i as int, c);
    }
    i
}

/// Builds the message text for an item, as it lands in a buffer of 1024
/// bytes.
pub fn compose_message(intensity: &[u8], owner: &[u8], title: &[u8], due: &[u8], show_due: bool) -> (r: Vec<u8>)
    ensures
        r@ == greedy(1024, message_chunks(intensity@, owner@, title@, due@, show_due)),
{
    let mut pieces: Vec<&[u8]> = Vec::new();
    if crate::scan::bytes_eq(intensity, "soft".as_bytes()) {
        pieces.push("Hey ".as_bytes());
        if owner.len() == 0 {
            pieces.push("there".as_bytes());
        } else {
            pieces.push(owner);
        }
        pieces.push(" - friendly reminder that \"".as_bytes());
        pieces.push(title);
        pieces.push("\"".as_bytes());
        if show_due {
            pieces.push(" is due ".as_bytes());
            pieces.push(due);
        }
        pieces.push(". Let us know if you need anything!".as_bytes());
    } else if crate::scan::bytes_eq(intensity, "direct".as_bytes()) {
        if owner.len() > 0 {
            pieces.push(owner);
            pieces.push(": ".as_bytes());
        }
        pieces.push("Please complete \"".as_bytes());
        pieces.push(title);
        pieces.push("\"".as_bytes());
        if show_due {
            pieces.push(" by ".as_bytes());
            pieces.push(due);
        }
        pieces.push(".".as_bytes());
    } else {
        pieces.push("Escalation: \"".as_bytes());
        pieces.push(title);
        pieces.push("\" still needs attention".as_bytes());
        if owner.len() > 0 {
            pieces.push(" from ".as_bytes());
            pieces.push(owner);
        }
        if show_due {
            pieces.push(" (due ".as_bytes());
            pieces.push(due);
            pieces.push(")".as_bytes());
        }
        pieces.push(".".as_bytes());
    }
    assert(pieces@.map_values(|b: &[u8]| b@) =~= message_chunks(intensity@, owner@, title@, due@, show_due));
    buffered(&pieces, 1024)
}

proof fn lemma_nudge_keys()
    ensures
        "\"item\"".spec_bytes().len() > 0,
        "\"intensity\"".spec_bytes().len() > 0,
        "\"message_config\"".spec_bytes().len() > 0,
        "\"tone\"".spec_bytes().len() > 0,
        "\"include_due_date\"".spec_bytes().len() > 0,
        "\"owner_name\"".spec_bytes().len() > 0,
        "\"title\"".spec_bytes().len() > 0,
        "\"due_date\"".spec_bytes().len() > 0,
{
    broadcast use vstd::string::group_string_axioms;
    reveal_strlit("\"item\"");
    reveal_strlit("\"intensity\"");
    reveal_strlit("\"message_config\"");
    reveal_strlit("\"tone\"");
    reveal_strlit("\"include_due_date\"");
    reveal_strlit("\"owner_name\"");
    reveal_strlit("\"title\"");
    reveal_strlit("\"due_date\"");
    assert(vstd::string::is_ascii("\"item\""));
    assert(vstd::string::is_ascii("\"intensity\""));
    assert(vstd::string::is_ascii("\"message_config\""));
    assert(vstd::string::is_ascii("\"tone\""));
    assert(vstd::string::is_ascii("\"include_due_date\""));
    assert(vstd::string::is_ascii("\"owner_name\""));
    assert(vstd::string::is_ascii("\"title\""));
    assert(vstd::string::is_ascii("\"due_date\""));
}

/// Builds the nudge for the request in `input` and writes the response
/// document to `out`; returns its length.
#[verifier::spinoff_prover]
#[verifier::rlimit(60)]
pub fn evaluate(input: &[u8], out: &mut [u8]) -> (r: usize)
    requires
        scannable(input@),
    ensures
        holds_greedy(final(out)@, r as int, nudge_chunks(nudge_answer(input@))),
        final(out)@.len() == old(out)@.len(),
{
    proof {
        lemma_nudge_keys();
    }
    let empty: &[u8] = &input[0..0];
    assert(empty@ =~= Seq::<u8>::empty());
    let item = match object_after_key_at_depth(input, "\"item\"".as_bytes(), 1) {
        Some(v) => v,
        None => empty,
    };
    let intensity = extract_string_at_depth(input, "\"intensity\"".as_bytes(), 1);
    let config = match object_after_key_at_depth(input, "\"message_config\"".as_bytes(), 1) {
        Some(v) => v,
        None => empty,
    };
    if item.len() == 0 || intensity.len() == 0 || config.len() == 0 {
        return fail(out, "config_error".as_bytes(), "[\"missing required fields\"]".as_bytes());
    }
    if !(crate::scan::bytes_eq(intensity, "soft".as_bytes()) || crate::scan::bytes_eq(intensity, "direct".as_bytes())
        || crate::scan::bytes_eq(intensity, "escalate".as_bytes())) {
        return fail(out, "invalid_intensity".as_bytes(), "[\"intensity must be soft|direct|escalate\"]".as_bytes());
    }
    let tone0 = extract_string(config, "\"tone\"".as_bytes());
    let tone = if tone0.len() == 0 {
        "friendly".as_bytes()
    } else {
        tone0
    };
    let include_due = match crate::scan::extract_bool(config, "\"include_due_date\"".as_bytes()) {
        Some(b) => b,
        None => true,
    };
    let owner = extract_string(item, "\"owner_name\"".as_bytes());
    let title = extract_string(item, "\"title\"".as_bytes());
    let due = extract_string(item, "\"due_date\"".as_bytes());
    if title.len() == 0 {
        return fail(out, "config_error".as_bytes(), "[\"item.title required\"]".as_bytes());
    }
    let message = compose_message(intensity, owner, title, due, include_due && due.len() > 0);
    let mut pieces: Vec<&[u8]> = Vec::new();
    pieces.push("Reminder: ".as_bytes());
    pieces.push(title);
    assert(pieces@.map_values(|b: &[u8]| b@) =~= seq!["Reminder: ".spec_bytes(), title@]);
    let preview = buffered(&pieces, 256);
    write_message(out, message.as_slice(), preview.as_slice(), intensity, tone)
}

} // verus!
