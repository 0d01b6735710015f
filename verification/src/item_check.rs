//! Validation of a new action item: title, owner and due date are checked
//! against the config and the reference date, and an item that passes is
//! checked against the open items for a duplicate.
use vstd::prelude::*;
use vstd::string::StringSliceAdditionalSpecFns;
use crate::emit::{holds_greedy, lemma_run_holds, put_chunk};
use crate::followup::{lex_less, lex_lt};
use crate::ownership::{lemma_sep_len, sep_len};
use crate::scan::{
    balanced_spec, bracketed_at_depth_spec, bytes_eq, extract_bool_spec, extract_string, extract_string_at_depth,
    extract_string_at_depth_spec, extract_string_spec, scannable,
};

verus! {

/// The open items of the list `rest` contain one with the same title (and,
/// when `match_owner`, the same owner). The walk stops at the end of the
/// list or at anything that is not an object.
pub open spec fn dup_scan(rest: Seq<u8>, title: Seq<u8>, owner: Seq<u8>, match_owner: bool) -> bool
    decreases rest.len(),
{
    let r = rest.skip(sep_len(rest) as int);
    if r.len() == 0 || r[0] != 123u8 {
        false
    } else {
        match balanced_spec(r, 123u8, 125u8) {
            Some(end) => if 0 <= end < r.len() {
                let obj = r.take(end + 1);
                if extract_string_spec(obj, "\"title\"".spec_bytes()) == title && (!match_owner
                    || extract_string_spec(obj, "\"owner_id\"".spec_bytes()) == owner) {
                    true
                } else {
                    proof {
                        lemma_sep_len(rest);
                    }
                    dup_scan(r.skip(end + 1), title, owner, match_owner)
                }
            } else {
                false
            },
            None => false,
        }
    }
}

/// Whether the list `existing` (an opening `[` is passed over) holds a
/// duplicate of the item.
pub open spec fn has_duplicate(existing: Seq<u8>, title: Seq<u8>, owner: Seq<u8>, match_owner: bool) -> bool {
    let rest = if existing.len() > 0 && existing[0] == 91u8 { existing.drop_first() } else { existing };
    dup_scan(rest, title, owner, match_owner)
}

/// Whether the list of open items `existing` holds an item with `title`
/// (and `owner`, when `match_owner`).
pub fn find_duplicate(existing: &[u8], title: &[u8], owner: &[u8], match_owner: bool) -> (r: bool)
    requires
        scannable(existing@),
    ensures
        r == has_duplicate(existing@, title@, owner@, match_owner),
{
    let mut rest: &[u8] = existing;
    if rest.len() > 0 && rest[0] == 91 {
        rest = &rest[1..rest.len()];
        assert(rest@ =~= existing@.drop_first());
    }
    proof {
        broadcast use vstd::string::group_string_axioms;
        reveal_strlit("\"title\"");
        reveal_strlit("\"owner_id\"");
        assert(vstd::string::is_ascii("\"title\""));
        assert(vstd::string::is_ascii("\"owner_id\""));
    }
    loop
        invariant
            scannable(rest@),
            has_duplicate(existing@, title@, owner@, match_owner) == dup_scan(rest@, title@, owner@, match_owner),
            "\"title\"".spec_bytes().len() > 0,
            "\"owner_id\"".spec_bytes().len() > 0,
        decreases rest@.len(),
    {
        let mut k: usize = 0;
        assert(rest@.skip(0) =~= rest@);
        while k < rest.len() && (rest[k] == 32 || rest[k] == 10 || rest[k] == 9 || rest[k] == 44)
            invariant
                k <= rest@.len(),
                sep_len(rest@) == k + sep_len(rest@.skip(k as int)),
            decreases rest.len() - k,
        {
            assert(rest@.skip(k as int).drop_first() =~= rest@.skip(k as int + 1));
            k = k + 1;
        }
        let r = &rest[k..rest.len()];
        assert(r@ =~= rest@.skip(k as int));
        if r.len() == 0 || r[0] != 123 {
            return false;
        }
        let end = match crate::scan::balanced_end(r, 123, 125) {
            Some(e) => e,
            None => return false,
        };
        let obj = &r[0..end + 1];
        assert(obj@ =~= r@.take(end + 1));
        let t = extract_string(obj, "\"title\"".as_bytes());
        if bytes_eq(t, title) {
            if !match_owner || bytes_eq(extract_string(obj, "\"owner_id\"".as_bytes()), owner) {
                return true;
            }
        }
        let next = &r[end + 1..r.len()];
        assert(next@ =~= r@.skip(end + 1));
        rest = next;
    }
}

/// One entry of the error list: the field, a code and a message.
pub ghost struct ItemError {
    pub field: Seq<u8>,
    pub code: Seq<u8>,
    pub message: Seq<u8>,
}

/// What a validation request gets.
pub ghost enum CheckAnswer {
    InvalidConfig { trace: Seq<u8> },
    Valid { title: Seq<u8>, owner: Seq<u8>, due: Seq<u8>, traces: Seq<Seq<u8>> },
    Invalid { reason: Seq<u8>, errors: Seq<ItemError>, traces: Seq<Seq<u8>> },
}

/// The errors and trace lines of the field checks, in their order.
pub open spec fn field_checks(
    title: Seq<u8>,
    owner: Seq<u8>,
    due: Seq<u8>,
    reference: Seq<u8>,
    require_owner: bool,
    require_due: bool,
    allow_past: bool,
) -> (Seq<ItemError>, Seq<Seq<u8>>) {
    let e1: Seq<ItemError> = if title.len() == 0 {
        seq![
            ItemError {
                field: "title".spec_bytes(),
                code: "empty_title".spec_bytes(),
                message: "title must be non-empty".spec_bytes(),
            },
        ]
    } else {
        Seq::empty()
    };
    let t1: Seq<Seq<u8>> = if title.len() == 0 { seq!["title missing or empty".spec_bytes()] } else { Seq::empty() };
    let e2: Seq<ItemError> = if require_owner && owner.len() == 0 {
        seq![
            ItemError {
                field: "owner_id".spec_bytes(),
                code: "missing_owner".spec_bytes(),
                message: "owner_id is required".spec_bytes(),
            },
        ]
    } else {
        Seq::empty()
    };
    let t2: Seq<Seq<u8>> = if require_owner && owner.len() == 0 {
        seq!["require_owner=true and owner_id missing".spec_bytes()]
    } else {
        Seq::empty()
    };
    let e3: Seq<ItemError> = if require_due && due.len() == 0 {
        seq![
            ItemError {
                field: "due_date".spec_bytes(),
                code: "missing_due_date".spec_bytes(),
                message: "due_date is required".spec_bytes(),
            },
        ]
    } else {
        Seq::empty()
    };
    let t3: Seq<Seq<u8>> = if require_due && due.len() == 0 {
        seq!["require_due_date=true and due_date missing".spec_bytes()]
    } else {
        Seq::empty()
    };
    let past = due.len() > 0 && !allow_past && lex_less(due, reference);
    let e4: Seq<ItemError> = if past {
        seq![
            ItemError {
                field: "due_date".spec_bytes(),
                code: "past_due".spec_bytes(),
                message: "due_date is in the past".spec_bytes(),
            },
        ]
    } else {
        Seq::empty()
    };
    let t4: Seq<Seq<u8>> = if past { seq!["due_date is earlier than reference_date".spec_bytes()] } else { Seq::empty() };
    (e1 + e2 + e3 + e4, t1 + t2 + t3 + t4)
}

/// The answer to the validation request in `input`.
pub open spec fn check_answer(input: Seq<u8>) -> CheckAnswer {
    let item = match bracketed_at_depth_spec(input, "\"action_item\"".spec_bytes(), 1, 123u8, 125u8) {
        Some(v) => v,
        None => Seq::empty(),
    };
    let config = match bracketed_at_depth_spec(input, "\"validation_config\"".spec_bytes(), 1, 123u8, 125u8) {
        Some(v) => v,
        None => Seq::empty(),
    };
    let existing = match bracketed_at_depth_spec(input, "\"existing_open_items\"".spec_bytes(), 1, 91u8, 93u8) {
        Some(v) => v,
        None => seq![91u8, 93u8],
    };
    let reference = extract_string_at_depth_spec(input, "\"reference_date\"".spec_bytes(), 1);
    let title = extract_string_spec(item, "\"title\"".spec_bytes());
    let owner = extract_string_spec(item, "\"owner_id\"".spec_bytes());
    let due = extract_string_spec(item, "\"due_date\"".spec_bytes());
    let flag = |key: Seq<u8>, default: bool|
        match extract_bool_spec(config, key) {
            Some(b) => b,
            None => default,
        };
    let require_owner = flag("\"require_owner\"".spec_bytes(), true);
    let require_due = flag("\"require_due_date\"".spec_bytes(), false);
    let allow_past = flag("\"allow_past_due\"".spec_bytes(), false);
    let mode0 = extract_string_spec(config, "\"duplicate_check\"".spec_bytes());
    let mode = if mode0.len() == 0 { "title_and_owner".spec_bytes() } else { mode0 };
    if item.len() == 0 || config.len() == 0 || reference.len() == 0 {
        CheckAnswer::InvalidConfig { trace: "[\"precondition failed: required fields missing\"]".spec_bytes() }
    } else if mode != "none".spec_bytes() && mode != "title".spec_bytes() && mode != "title_and_owner".spec_bytes() {
        CheckAnswer::InvalidConfig { trace: "[\"invalid_config: duplicate_check\"]".spec_bytes() }
    } else {
        let (errors, traces) = field_checks(title, owner, due, reference, require_owner, require_due, allow_past);
        if errors.len() > 0 {
            CheckAnswer::Invalid { reason: "validation_failed".spec_bytes(), errors, traces }
        } else if mode != "none".spec_bytes() && title.len() > 0 && has_duplicate(
            existing,
            title,
            owner,
            mode == "title_and_owner".spec_bytes(),
        ) {
            CheckAnswer::Invalid {
                reason: "duplicate".spec_bytes(),
                errors: seq![
                    ItemError {
                        field: "title".spec_bytes(),
                        code: "duplicate".spec_bytes(),
                        message: "matching open item already exists".spec_bytes(),
                    },
                ],
                traces: seq![
                    if mode == "title_and_owner".spec_bytes() {
                        "duplicate_check=title_and_owner matched existing open item".spec_bytes()
                    } else {
                        "duplicate_check=title matched existing open item".spec_bytes()
                    },
                ],
            }
        } else {
            CheckAnswer::Valid { title, owner, due, traces: traces.push("all checks passed".spec_bytes()) }
        }
    }
}

/// The chunks of a JSON array of strings.
pub open spec fn string_array_chunks(ts: Seq<Seq<u8>>) -> Seq<Seq<u8>> {
    seq!["[".spec_bytes()] + crate::ownership::trace_list_chunks(ts) + seq!["]".spec_bytes()]
}

/// The chunks of the error list.
pub open spec fn error_list_chunks(es: Seq<ItemError>) -> Seq<Seq<u8>>
    decreases es.len(),
{
    if es.len() == 0 {
        Seq::empty()
    } else {
        let e = es.last();
        error_list_chunks(es.drop_last()) + (if es.len() > 1 { seq![",".spec_bytes()] } else { Seq::empty() })
            + seq![
            "{\"field\":\"".spec_bytes(),
            e.field,
            "\",\"code\":\"".spec_bytes(),
            e.code,
            "\",\"message\":\"".spec_bytes(),
            e.message,
            "\"}".spec_bytes(),
        ]
    }
}

/// The chunks of the response document for answer `a`.
pub open spec fn check_chunks(a: CheckAnswer) -> Seq<Seq<u8>> {
    match a {
        CheckAnswer::InvalidConfig { trace } => seq![
            "{\"valid\":false,\"errors\":[],\"normalized\":null,\"reason_code\":\"invalid_config\",\"evaluation_trace\":".spec_bytes(),
            trace,
            "}".spec_bytes(),
        ],
        CheckAnswer::Valid { title, owner, due, traces } => seq![
            "{\"valid\":true,\"errors\":[],\"normalized\":{\"title\":\"".spec_bytes(),
            title,
            "\"".spec_bytes(),
        ] + (if owner.len() > 0 {
            seq![",\"owner_id\":\"".spec_bytes(), owner, "\"".spec_bytes()]
        } else {
            Seq::empty()
        }) + (if due.len() > 0 {
            seq![",\"due_date\":\"".spec_bytes(), due, "\"".spec_bytes()]
        } else {
            Seq::empty()
        }) + seq!["},\"reason_code\":\"ok\",\"evaluation_trace\":".spec_bytes()] + string_array_chunks(traces)
            + seq!["}".spec_bytes()],
        CheckAnswer::Invalid { reason, errors, traces } => seq!["{\"valid\":false,\"errors\":[".spec_bytes()]
            + error_list_chunks(errors) + seq![
            "],\"normalized\":null,\"reason_code\":\"".spec_bytes(),
            reason,
            "\",\"evaluation_trace\":".spec_bytes(),
        ] + string_array_chunks(traces) + seq!["}".spec_bytes()],
    }
}

/// One error of the list, as the library holds it.
pub struct ErrPart {
    pub field: &'static [u8],
    pub code: &'static [u8],
    pub message: &'static [u8],
}

pub open spec fn err_view(e: ErrPart) -> ItemError {
    ItemError { field: e.field@, code: e.code@, message: e.message@ }
}

/// Writes `items` as a JSON array of strings as the next chunks of the run
/// `c`.
fn put_string_array(
    out: &mut [u8],
    i: usize,
    items: &Vec<&[u8]>,
    Ghost(o): Ghost<Seq<u8>>,
    Ghost(c): Ghost<Seq<Seq<u8>>>,
) -> (r: usize)
    requires
        (old(out)@, i as int) == crate::emit::copies(o, 0, c),
    ensures
        (final(out)@, r as int) == crate::emit::copies(
            o,
            0,
            c + string_array_chunks(items@.map_values(|t: &[u8]| t@)),
        ),
{
    let ghost ts = items@.map_values(|t: &[u8]| t@);
    let ghost mut d = c;
    let mut j = put_chunk(out, i, "[".as_bytes(), Ghost(o), Ghost(d));
    proof { d = d + seq!["[".spec_bytes()]; }
    let ghost before = d;
    let mut k: usize = 0;
    assert(ts.take(0) =~= Seq::<Seq<u8>>::empty());
    assert(before + crate::ownership::trace_list_chunks(ts.take(0)) =~= before);
    while k < items.len()
        invariant
            k <= items@.len(),
            ts == items@.map_values(|t: &[u8]| t@),
            d == before + crate::ownership::trace_list_chunks(ts.take(k as int)),
            (out@, j as int) == crate::emit::copies(o, 0, d),
        decreases items@.len() - k,
    {
        if k > 0 {
            j = put_chunk(out, j, ",".as_bytes(), Ghost(o), Ghost(d));
            proof { d = d + seq![",".spec_bytes()]; }
        }
        j = put_chunk(out, j, "\"".as_bytes(), Ghost(o), Ghost(d));
        proof { d = d + seq!["\"".spec_bytes()]; }
        j = put_chunk(out, j, items[k], Ghost(o), Ghost(d));
        proof { d = d + seq![items@[k as int]@]; }
        j = put_chunk(out, j, "\"".as_bytes(), Ghost(o), Ghost(d));
        proof {
            d = d + seq!["\"".spec_bytes()];
            let t1 = ts.take(k as int + 1);
            assert(t1.drop_last() =~= ts.take(k as int));
            assert(t1.last() == items@[k as int]@);
            assert(d =~= before + crate::ownership::trace_list_chunks(t1));
        }
        k = k + 1;
    }
    assert(ts.take(k as int) =~= ts);
    j = put_chunk(out, j, "]".as_bytes(), Ghost(o), Ghost(d));
    proof {
        d = d + seq!["]".spec_bytes()];
        assert(d =~= c + string_array_chunks(ts));
    }
    j
}

/// Writes the document for a config that cannot be used; returns its length.
pub fn write_invalid_config(out: &mut [u8], trace: &[u8]) -> (r: usize)
    ensures
        holds_greedy(final(out)@, r as int, check_chunks(CheckAnswer::InvalidConfig { trace: trace@ })),
        final(out)@.len() == old(out)@.len(),
{
    let ghost o = out@;
    let ghost mut c = Seq::<Seq<u8>>::empty();
    let head = "{\"valid\":false,\"errors\":[],\"normalized\":null,\"reason_code\":\"invalid_config\",\"evaluation_trace\":".as_bytes();
    let mut i = put_chunk(out, 0, head, Ghost(o), Ghost(c));
    proof { c = c + seq![head@]; }
    i = put_chunk(out, i, trace, Ghost(o), Ghost(c));
    proof { c = c + seq![trace@]; }
    i = put_chunk(out, i, "}".as_bytes(), Ghost(o), Ghost(c));
    proof {
        c = c + seq!["}".spec_bytes()];
        assert(c =~= check_chunks(CheckAnswer::InvalidConfig { trace: trace@ }));
        lemma_run_holds(o, out@, i as int, c);
    }
    i
}

/// Writes the document for a valid item; returns its length.
pub fn write_ok(out: &mut [u8], title: &[u8], owner: &[u8], due: &[u8], traces: &Vec<&[u8]>) -> (r: usize)
    ensures
        holds_greedy(
            final(out)@,
            r as int,
            check_chunks(
                CheckAnswer::Valid {
                    title: title@,
                    owner: owner@,
                    due: due@,
                    traces: traces@.map_values(|t: &[u8]| t@),
                },
            ),
        ),
        final(out)@.len() == old(out)@.len(),
{
    let ghost o = out@;
    let ghost mut c = Seq::<Seq<u8>>::empty();
    let mut i = put_chunk(out, 0, "{\"valid\":true,\"errors\":[],\"normalized\":{\"title\":\"".as_bytes(), Ghost(o), Ghost(c));
    proof { c = c + seq!["{\"valid\":true,\"errors\":[],\"normalized\":{\"title\":\"".spec_bytes()]; }
    i = put_chunk(out, i, title, Ghost(o), Ghost(c));
    proof { c = c + seq![title@]; }
    i = put_chunk(out, i, "\"".as_bytes(), Ghost(o), Ghost(c));
    proof { c = c + seq!["\"".spec_bytes()]; }
    let ghost c1 = c;
    if owner.len() > 0 {
        i = put_chunk(out, i, ",\"owner_id\":\"".as_bytes(), Ghost(o), Ghost(c));
        proof { c = c + seq![",\"owner_id\":\"".spec_bytes()]; }
        i = put_chunk(out, i, owner, Ghost(o), Ghost(c));
        proof { c = c + seq![owner@]; }
        i = put_chunk(out, i, "\"".as_bytes(), Ghost(o), Ghost(c));
        proof {
            c = c + seq!["\"".spec_bytes()];
            assert(c =~= c1 + seq![",\"owner_id\":\"".spec_bytes(), owner@, "\"".spec_bytes()]);
        }
    } else {
        assert(c =~= c1 + Seq::<Seq<u8>>::empty());
    }
    let ghost c2 = c;
    if due.len() > 0 {
        i = put_chunk(out, i, ",\"due_date\":\"".as_bytes(), Ghost(o), Ghost(c));
        proof { c = c + seq![",\"due_date\":\"".spec_bytes()]; }
        i = put_chunk(out, i, due, Ghost(o), Ghost(c));
        proof { c = c + seq![due@]; }
        i = put_chunk(out, i, "\"".as_bytes(), Ghost(o), Ghost(c));
        proof {
            c = c + seq!["\"".spec_bytes()];
            assert(c =~= c2 + seq![",\"due_date\":\"".spec_bytes(), due@, "\"".spec_bytes()]);
        }
    } else {
        assert(c =~= c2 + Seq::<Seq<u8>>::empty());
    }
    i = put_chunk(out, i, "},\"reason_code\":\"ok\",\"evaluation_trace\":".as_bytes(), Ghost(o), Ghost(c));
    proof { c = c + seq!["},\"reason_code\":\"ok\",\"evaluation_trace\":".spec_bytes()]; }
    i = put_string_array(out, i, traces, Ghost(o), Ghost(c));
    proof { c = c + string_array_chunks(traces@.map_values(|t: &[u8]| t@)); }
    i = put_chunk(out, i, "}".as_bytes(), Ghost(o), Ghost(c));
    proof {
        c = c + seq!["}".spec_bytes()];
        assert(c =~= check_chunks(
            CheckAnswer::Valid { title: title@, owner: owner@, due: due@, traces: traces@.map_values(|t: &[u8]| t@) },
        ));
        lemma_run_holds(o, out@, i as int, c);
    }
    i
}

/// Writes the document for an item that failed a check; returns its length.
pub fn write_fail(out: &mut [u8], reason: &[u8], errors: &Vec<ErrPart>, traces: &Vec<&[u8]>) -> (r: usize)
    ensures
        holds_greedy(
            final(out)@,
            r as int,
            check_chunks(
                CheckAnswer::Invalid {
                    reason: reason@,
                    errors: errors@.map_values(|e: ErrPart| err_view(e)),
                    traces: traces@.map_values(|t: &[u8]| t@),
                },
            ),
        ),
        final(out)@.len() == old(out)@.len(),
{
    let ghost o = out@;
    let ghost es = errors@.map_values(|e: ErrPart| err_view(e));
    let ghost mut c = Seq::<Seq<u8>>::empty();
    let mut i = put_chunk(out, 0, "{\"valid\":false,\"errors\":[".as_bytes(), Ghost(o), Ghost(c));
    proof { c = c + seq!["{\"valid\":false,\"errors\":[".spec_bytes()]; }
    let ghost before = c;
    let mut k: usize = 0;
    assert(es.take(0) =~= Seq::<ItemError>::empty());
    assert(before + error_list_chunks(es.take(0)) =~= before);
    while k < errors.len()
        invariant
            k <= errors@.len(),
            es == errors@.map_values(|e: ErrPart| err_view(e)),
            c == before + error_list_chunks(es.take(k as int)),
            (out@, i as int) == crate::emit::copies(o, 0, c),
        decreases errors@.len() - k,
    {
        let e = &errors[k];
        if k > 0 {
            i = put_chunk(out, i, ",".as_bytes(), Ghost(o), Ghost(c));
            proof { c = c + seq![",".spec_bytes()]; }
        }
        i = put_chunk(out, i, "{\"field\":\"".as_bytes(), Ghost(o), Ghost(c));
        proof { c = c + seq!["{\"field\":\"".spec_bytes()]; }
        i = put_chunk(out, i, e.field, Ghost(o), Ghost(c));
        proof { c = c + seq![e.field@]; }
        i = put_chunk(out, i, "\",\"code\":\"".as_bytes(), Ghost(o), Ghost(c));
        proof { c = c + seq!["\",\"code\":\"".spec_bytes()]; }
        i = put_chunk(out, i, e.code, Ghost(o), Ghost(c));
        proof { c = c + seq![e.code@]; }
        i = put_chunk(out, i, "\",\"message\":\"".as_bytes(), Ghost(o), Ghost(c));
        proof { c = c + seq!["\",\"message\":\"".spec_bytes()]; }
        i = put_chunk(out, i, e.message, Ghost(o), Ghost(c));
        proof { c = c + seq![e.message@]; }
        i = put_chunk(out, i, "\"}".as_bytes(), Ghost(o), Ghost(c));
        proof {
            c = c + seq!["\"}".spec_bytes()];
            let e1 = es.take(k as int + 1);
            assert(e1.drop_last() =~= es.take(k as int));
            assert(e1.last() == err_view(errors@[k as int]));
            assert(c =~= before + error_list_chunks(e1));
        }
        k = k + 1;
    }
    assert(es.take(k as int) =~= es);
    i = put_chunk(out, i, "],\"normalized\":null,\"reason_code\":\"".as_bytes(), Ghost(o), Ghost(c));
    proof { c = c + seq!["],\"normalized\":null,\"reason_code\":\"".spec_bytes()]; }
    i = put_chunk(out, i, reason, Ghost(o), Ghost(c));
    proof { c = c + seq![reason@]; }
    i = put_chunk(out, i, "\",\"evaluation_trace\":".as_bytes(), Ghost(o), Ghost(c));
    proof { c = c + seq!["\",\"evaluation_trace\":".spec_bytes()]; }
    i = put_string_array(out, i, traces, Ghost(o), Ghost(c));
    proof { c = c + string_array_chunks(traces@.map_values(|t: &[u8]| t@)); }
    i = put_chunk(out, i, "}".as_bytes(), Ghost(o), Ghost(c));
    proof {
        c = c + seq!["}".spec_bytes()];
        assert(c =~= check_chunks(
            CheckAnswer::Invalid { reason: reason@, errors: es, traces: traces@.map_values(|t: &[u8]| t@) },
        ));
        lemma_run_holds(o, out@, i as int, c);
    }
    i
}

/// Runs the field checks; returns the errors and the trace lines.
pub fn check_fields(
    title: &[u8],
    owner: &[u8],
    due: &[u8],
    reference: &[u8],
    require_owner: bool,
    require_due: bool,
    allow_past: bool,
) -> (r: (Vec<ErrPart>, Vec<&'static [u8]>))
    ensures
        (r.0@.map_values(|e: ErrPart| err_view(e)), r.1@.map_values(|t: &[u8]| t@)) == field_checks(
            title@,
            owner@,
            due@,
            reference@,
            require_owner,
            require_due,
            allow_past,
        ),
{
    let mut errors: Vec<ErrPart> = Vec::new();
    let mut traces: Vec<&'static [u8]> = Vec::new();
    let ghost fc = field_checks(title@, owner@, due@, reference@, require_owner, require_due, allow_past);
    if title.len() == 0 {
        errors.push(ErrPart { field: "title".as_bytes(), code: "empty_title".as_bytes(), message: "title must be non-empty".as_bytes() });
        traces.push("title missing or empty".as_bytes());
    }
    let ghost n1 = errors@;
    let ghost m1 = traces@;
    if require_owner && owner.len() == 0 {
        errors.push(ErrPart { field: "owner_id".as_bytes(), code: "missing_owner".as_bytes(), message: "owner_id is required".as_bytes() });
        traces.push("require_owner=true and owner_id missing".as_bytes());
    }
    let ghost n2 = errors@;
    let ghost m2 = traces@;
    if require_due && due.len() == 0 {
        errors.push(ErrPart { field: "due_date".as_bytes(), code: "missing_due_date".as_bytes(), message: "due_date is required".as_bytes() });
        traces.push("require_due_date=true and due_date missing".as_bytes());
    }
    let ghost n3 = errors@;
    let ghost m3 = traces@;
    if due.len() > 0 && !allow_past && lex_lt(due, reference) {
        errors.push(ErrPart { field: "due_date".as_bytes(), code: "past_due".as_bytes(), message: "due_date is in the past".as_bytes() });
        traces.push("due_date is earlier than reference_date".as_bytes());
    }
    proof {
        assert(errors@.map_values(|e: ErrPart| err_view(e)) =~= fc.0);
        assert(traces@.map_values(|t: &[u8]| t@) =~= fc.1);
    }
    (errors, traces)
}

proof fn lemma_check_keys()
    ensures
        "\"action_item\"".spec_bytes().len() > 0,
        "\"validation_config\"".spec_bytes().len() > 0,
        "\"existing_open_items\"".spec_bytes().len() > 0,
        "\"reference_date\"".spec_bytes().len() > 0,
        "\"title\"".spec_bytes().len() > 0,
        "\"owner_id\"".spec_bytes().len() > 0,
        "\"due_date\"".spec_bytes().len() > 0,
        "\"require_owner\"".spec_bytes().len() > 0,
        "\"require_due_date\"".spec_bytes().len() > 0,
        "\"allow_past_due\"".spec_bytes().len() > 0,
        "\"duplicate_check\"".spec_bytes().len() > 0,
{
    broadcast use vstd::string::group_string_axioms;
    reveal_strlit("\"action_item\"");
    reveal_strlit("\"validation_config\"");
    reveal_strlit("\"existing_open_items\"");
    reveal_strlit("\"reference_date\"");
    reveal_strlit("\"title\"");
    reveal_strlit("\"owner_id\"");
    reveal_strlit("\"due_date\"");
    reveal_strlit("\"require_owner\"");
    reveal_strlit("\"require_due_date\"");
    reveal_strlit("\"allow_past_due\"");
    reveal_strlit("\"duplicate_check\"");
    assert(vstd::string::is_ascii("\"action_item\""));
    assert(vstd::string::is_ascii("\"validation_config\""));
    assert(vstd::string::is_ascii("\"existing_open_items\""));
    assert(vstd::string::is_ascii("\"reference_date\""));
    assert(vstd::string::is_ascii("\"title\""));
    assert(vstd::string::is_ascii("\"owner_id\""));
    assert(vstd::string::is_ascii("\"due_date\""));
    assert(vstd::string::is_ascii("\"require_owner\""));
    assert(vstd::string::is_ascii("\"require_due_date\""));
    assert(vstd::string::is_ascii("\"allow_past_due\""));
    assert(vstd::string::is_ascii("\"duplicate_check\""));
}

/// Validates the action item in `input` and writes the response document to
/// `out`; returns its length.
#[verifier::spinoff_prover]
#[verifier::rlimit(80)]
pub fn evaluate(input: &[u8], out: &mut [u8]) -> (r: usize)
    requires
        scannable(input@),
    ensures
        holds_greedy(final(out)@, r as int, check_chunks(check_answer(input@))),
        final(out)@.len() == old(out)@.len(),
{
    proof {
        lemma_check_keys();
    }
    let empty: &[u8] = &input[0..0];
    assert(empty@ =~= Seq::<u8>::empty());
    let default_list: &[u8] = &[91u8, 93u8];
    let item = match crate::scan::object_after_key_at_depth(input, "\"action_item\"".as_bytes(), 1) {
        Some(v) => v,
        None => empty,
    };
    let config = match crate::scan::object_after_key_at_depth(input, "\"validation_config\"".as_bytes(), 1) {
        Some(v) => v,
        None => empty,
    };
    let existing = match crate::scan::array_after_key_at_depth(input, "\"existing_open_items\"".as_bytes(), 1) {
        Some(v) => v,
        None => default_list,
    };
    let reference = extract_string_at_depth(input, "\"reference_date\"".as_bytes(), 1);
    if item.len() == 0 || config.len() == 0 || reference.len() == 0 {
        return write_invalid_config(out, "[\"precondition failed: required fields missing\"]".as_bytes());
    }
    let title = extract_string(item, "\"title\"".as_bytes());
    let owner = extract_string(item, "\"owner_id\"".as_bytes());
    let due = extract_string(item, "\"due_date\"".as_bytes());
    let require_owner = match crate::scan::extract_bool(config, "\"require_owner\"".as_bytes()) {
        Some(b) => b,
        None => true,
    };
    let require_due = match crate::scan::extract_bool(config, "\"require_due_date\"".as_bytes()) {
        Some(b) => b,
        None => false,
    };
    let allow_past = match crate::scan::extract_bool(config, "\"allow_past_due\"".as_bytes()) {
        Some(b) => b,
        None => false,
    };
    let mode0 = extract_string(config, "\"duplicate_check\"".as_bytes());
    let mode = if mode0.len() == 0 {
        "title_and_owner".as_bytes()
    } else {
        mode0
    };
    let is_none = bytes_eq(mode, "none".as_bytes());
    let with_owner = bytes_eq(mode, "title_and_owner".as_bytes());
    if !is_none && !bytes_eq(mode, "title".as_bytes()) && !with_owner {
        return write_invalid_config(out, "[\"invalid_config: duplicate_check\"]".as_bytes());
    }
    let (errors, traces) = check_fields(title, owner, due, reference, require_owner, require_due, allow_past);
    if errors.len() > 0 {
        return write_fail(out, "validation_failed".as_bytes(), &errors, &traces);
    }
    if !is_none && title.len() > 0 && find_duplicate(existing, title, owner, with_owner) {
        let mut dup_errors: Vec<ErrPart> = Vec::new();
        dup_errors.push(ErrPart {
            field: "title".as_bytes(),
            code: "duplicate".as_bytes(),
            message: "matching open item already exists".as_bytes(),
        });
        let mut dup_traces: Vec<&[u8]> = Vec::new();
        if with_owner {
            dup_traces.push("duplicate_check=title_and_owner matched existing open item".as_bytes());
        } else {
            dup_traces.push("duplicate_check=title matched existing open item".as_bytes());
        }
        proof {
            assert(dup_errors@.map_values(|e: ErrPart| err_view(e)) =~= seq![
                ItemError {
                    field: "title".spec_bytes(),
                    code: "duplicate".spec_bytes(),
                    message: "matching open item already exists".spec_bytes(),
                },
            ]);
            assert(dup_traces@.map_values(|t: &[u8]| t@) =~= seq![
                if with_owner {
                    "duplicate_check=title_and_owner matched existing open item".spec_bytes()
                } else {
                    "duplicate_check=title matched existing open item".spec_bytes()
                },
            ]);
        }
        return write_fail(out, "duplicate".as_bytes(), &dup_errors, &dup_traces);
    }
    let mut ok_traces: Vec<&[u8]> = Vec::new();
    let mut k: usize = 0;
    while k < traces.len()
        invariant
            k <= traces@.len(),
            ok_traces@ == traces@.take(k as int),
        decreases traces@.len() - k,
    {
        ok_traces.push(traces[k]);
        k = k + 1;
        assert(ok_traces@ =~= traces@.take(k as int));
    }
    assert(traces@.take(k as int) =~= traces@);
    ok_traces.push("all checks passed".as_bytes());
    assert(ok_traces@.map_values(|t: &[u8]| t@) =~= traces@.map_values(|t: &[u8]| t@).push("all checks passed".spec_bytes()));
    write_ok(out, title, owner, due, &ok_traces)
}

} // verus!
