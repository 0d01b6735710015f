//! Ownership assignment: the suggested owner of an action item is matched
//! against the workspace members (by id, then email, then name, ignoring
//! ASCII case); when there is no usable suggestion the configured fallback
//! decides.
use vstd::prelude::*;
use vstd::string::StringSliceAdditionalSpecFns;
use crate::emit::{holds_greedy, lemma_run_holds, put_chunk};
use crate::participants::{ascii_lower, lower, lower_seq, same_ignoring_case};
use crate::scan::{
    balanced_spec, bracketed_at_depth_spec, extract_bool_spec, extract_string, extract_string_at_depth,
    extract_string_at_depth_spec, extract_string_spec, has_prefix, key_at_depth_spec, scannable, value_start_spec,
};

verus! {

/// Whether `a` and `b` are equal once ASCII letters are lowercased.
pub fn eq_ascii_ci(a: &[u8], b: &[u8]) -> (r: bool)
    ensures
        r == same_ignoring_case(a@, b@),
{
    if a.len() != b.len() {
        assert(lower_seq(a@).len() != lower_seq(b@).len());
        return false;
    }
    let mut i: usize = 0;
    let mut all = true;
    while i < a.len()
        invariant
            i <= a@.len(),
            a@.len() == b@.len(),
            all == (forall|k: int| 0 <= k < i ==> lower(a@[k]) == lower(b@[k])),
        decreases a.len() - i,
    {
        all = all && ascii_lower(a[i]) == ascii_lower(b[i]);
        i = i + 1;
    }
    proof {
        if all {
            assert(lower_seq(a@) =~= lower_seq(b@));
        } else {
            let k = choose|k: int| 0 <= k < i && lower(a@[k]) != lower(b@[k]);
            assert(lower_seq(a@)[k] != lower_seq(b@)[k]);
        }
    }
    all
}

/// Space, newline, tab or comma: what separates the members of the list.
pub open spec fn is_sep(b: u8) -> bool {
    b == 32u8 || b == 10u8 || b == 9u8 || b == 44u8
}

/// The number of leading separators of `s`.
pub open spec fn sep_len(s: Seq<u8>) -> nat
    decreases s.len(),
{
    if s.len() > 0 && is_sep(s[0]) {
        1 + sep_len(s.drop_first())
    } else {
        0
    }
}

pub proof fn lemma_sep_len(s: Seq<u8>)
    ensures
        sep_len(s) <= s.len(),
    decreases s.len(),
{
    if s.len() > 0 && is_sep(s[0]) {
        lemma_sep_len(s.drop_first());
    }
}

/// How a member object matches `suggestion`: by id, else email, else name
/// (each only when present), as a method and a note.
pub open spec fn field_match(obj: Seq<u8>, suggestion: Seq<u8>) -> Option<(Seq<u8>, Seq<u8>)> {
    let id = extract_string_spec(obj, "\"id\"".spec_bytes());
    let email = extract_string_spec(obj, "\"email\"".spec_bytes());
    let name = extract_string_spec(obj, "\"name\"".spec_bytes());
    if id.len() > 0 && same_ignoring_case(id, suggestion) {
        Some(("id_match".spec_bytes(), "id match".spec_bytes()))
    } else if email.len() > 0 && same_ignoring_case(email, suggestion) {
        Some(("email_match".spec_bytes(), "email match".spec_bytes()))
    } else if name.len() > 0 && same_ignoring_case(name, suggestion) {
        Some(("name_match".spec_bytes(), "exact name match".spec_bytes()))
    } else {
        None
    }
}

/// The first member object of the list `rest` that matches `suggestion`,
/// as its id, the method (`inactive` for a match that must be active and
/// is not) and a note. The walk stops at the end of the list or at anything
/// that is not an object.
pub open spec fn owner_scan(rest: Seq<u8>, suggestion: Seq<u8>, require_active: bool) -> Option<
    (Seq<u8>, Seq<u8>, Seq<u8>),
>
    decreases rest.len(),
{
    let r = rest.skip(sep_len(rest) as int);
    if r.len() == 0 || r[0] != 123u8 {
        None
    } else {
        match balanced_spec(r, 123u8, 125u8) {
            Some(end) => if 0 <= end < r.len() {
                let obj = r.take(end + 1);
                let id = extract_string_spec(obj, "\"id\"".spec_bytes());
                let active = match extract_bool_spec(obj, "\"active\"".spec_bytes()) {
                    Some(b) => b,
                    None => true,
                };
                match field_match(obj, suggestion) {
                    Some((method, note)) => if require_active && !active {
                        Some((id, "inactive".spec_bytes(), "matched inactive member".spec_bytes()))
                    } else {
                        Some((id, method, note))
                    },
                    None => {
                        proof {
                            lemma_sep_len(rest);
                        }
                        owner_scan(r.skip(end + 1), suggestion, require_active)
                    },
                }
            } else {
                None
            },
            None => None,
        }
    }
}

/// The member of the list `members` (an opening `[` is passed over) that
/// matches `suggestion`.
pub open spec fn owner_match(members: Seq<u8>, suggestion: Seq<u8>, require_active: bool) -> Option<
    (Seq<u8>, Seq<u8>, Seq<u8>),
> {
    owner_scan(list_items(members), suggestion, require_active)
}

/// The list `members` with an opening `[` passed over.
pub open spec fn list_items(members: Seq<u8>) -> Seq<u8> {
    if members.len() > 0 && members[0] == 91u8 {
        members.drop_first()
    } else {
        members
    }
}

/// Number of leading separators of `s`.
fn skip_seps(s: &[u8]) -> (r: usize)
    ensures
        r == sep_len(s@),
        r <= s@.len(),
{
    let mut i: usize = 0;
    assert(s@.skip(0) =~= s@);
    while i < s.len() && (s[i] == 32 || s[i] == 10 || s[i] == 9 || s[i] == 44)
        invariant
            i <= s@.len(),
            sep_len(s@) == i + sep_len(s@.skip(i as int)),
        decreases s.len() - i,
    {
        assert(s@.skip(i as int).drop_first() =~= s@.skip(i as int + 1));
        i = i + 1;
    }
    i
}

/// Finds the member of `members` that matches `suggestion`; returns its id,
/// the method and a note.
pub fn resolve_member<'a>(members: &'a [u8], suggestion: &[u8], require_active: bool) -> (r: Option<
    (&'a [u8], &'static [u8], &'static [u8]),
>)
    requires
        scannable(members@),
    ensures
        match owner_match(members@, suggestion@, require_active) {
            Some((id, method, note)) => r matches Some((a, m, n)) && a@ == id && m@ == method && n@ == note,
            None => r is None,
        },
{
    let mut rest: &[u8] = members;
    if rest.len() > 0 && rest[0] == 91 {
        rest = &rest[1..rest.len()];
        assert(rest@ =~= members@.drop_first());
    }
    proof {
        broadcast use vstd::string::group_string_axioms;
        reveal_strlit("\"id\"");
        reveal_strlit("\"email\"");
        reveal_strlit("\"name\"");
        reveal_strlit("\"active\"");
        assert(vstd::string::is_ascii("\"id\""));
        assert(vstd::string::is_ascii("\"email\""));
        assert(vstd::string::is_ascii("\"name\""));
        assert(vstd::string::is_ascii("\"active\""));
    }
    loop
        invariant
            scannable(rest@),
            owner_match(members@, suggestion@, require_active) == owner_scan(rest@, suggestion@, require_active),
            "\"id\"".spec_bytes().len() > 0,
            "\"email\"".spec_bytes().len() > 0,
            "\"name\"".spec_bytes().len() > 0,
            "\"active\"".spec_bytes().len() > 0,
        decreases rest@.len(),
    {
        let k = skip_seps(rest);
        let r = &rest[k..rest.len()];
        assert(r@ =~= rest@.skip(k as int));
        if r.len() == 0 || r[0] != 123 {
            return None;
        }
        let end = match crate::scan::balanced_end(r, 123, 125) {
            Some(e) => e,
            None => return None,
        };
        let obj = &r[0..end + 1];
        assert(obj@ =~= r@.take(end + 1));
        let id = extract_string(obj, "\"id\"".as_bytes());
        let email = extract_string(obj, "\"email\"".as_bytes());
        let name = extract_string(obj, "\"name\"".as_bytes());
        let active = match crate::scan::extract_bool(obj, "\"active\"".as_bytes()) {
            Some(b) => b,
            None => true,
        };
        let found: Option<(&'static [u8], &'static [u8])> = if id.len() > 0 && eq_ascii_ci(id, suggestion) {
            Some(("id_match".as_bytes(), "id match".as_bytes()))
        } else if email.len() > 0 && eq_ascii_ci(email, suggestion) {
            Some(("email_match".as_bytes(), "email match".as_bytes()))
        } else if name.len() > 0 && eq_ascii_ci(name, suggestion) {
            Some(("name_match".as_bytes(), "exact name match".as_bytes()))
        } else {
            None
        };
        match found {
            Some((method, note)) => {
                if require_active && !active {
                    return Some((id, "inactive".as_bytes(), "matched inactive member".as_bytes()));
                }
                return Some((id, method, note));
            },
            None => {
                let next = &r[end + 1..r.len()];
                assert(next@ =~= r@.skip(end + 1));
                rest = next;
            },
        }
    }
}

/// The value of `key` at nesting depth `depth` is the literal `null`.
pub open spec fn null_at_depth(hay: Seq<u8>, key: Seq<u8>, depth: int) -> bool {
    match key_at_depth_spec(hay, key, depth) {
        Some(p) => match value_start_spec(hay.skip(p + key.len())) {
            Some(rest) => has_prefix(rest, "null".spec_bytes()),
            None => false,
        },
        None => false,
    }
}

/// Whether the value of `key` at nesting depth `depth` is `null`.
pub fn is_null_at_depth(hay: &[u8], key: &[u8], depth: i32) -> (r: bool)
    requires
        scannable(hay@),
        key@.len() > 0,
    ensures
        r == null_at_depth(hay@, key@, depth as int),
{
    match crate::scan::find_key_at_depth(hay, key, depth) {
        Some(pos) => {
            let after = &hay[pos + key.len()..hay.len()];
            assert(after@ =~= hay@.skip(pos + key@.len()));
            match crate::scan::value_start(after) {
                Some(rest) => crate::scan::starts_with(rest, "null".as_bytes()),
                None => false,
            }
        },
        None => false,
    }
}

/// What an ownership request gets: the owner (or none), how it was
/// resolved, a reason code and the trace lines.
pub ghost struct OwnerAnswer {
    pub owner: Option<Seq<u8>>,
    pub method: Seq<u8>,
    pub reason: Seq<u8>,
    pub traces: Seq<Seq<u8>>,
}

/// What the fallback `fallback` gives after the trace lines `traces`.
pub open spec fn fallback_answer(
    fallback: Seq<u8>,
    creator: Seq<u8>,
    members: Seq<u8>,
    require_active: bool,
    traces: Seq<Seq<u8>>,
) -> OwnerAnswer {
    if fallback == "creator".spec_bytes() {
        if creator.len() == 0 {
            OwnerAnswer {
                owner: None,
                method: "unresolved".spec_bytes(),
                reason: "unresolved".spec_bytes(),
                traces: traces.push("fallback=creator but creator_id missing".spec_bytes()),
            }
        } else {
            let listed = if require_active {
                match owner_match(members, creator, true) {
                    Some((id, method, note)) => if method != "inactive".spec_bytes() {
                        Some(id)
                    } else {
                        None
                    },
                    None => None,
                }
            } else {
                None
            };
            OwnerAnswer {
                owner: match listed {
                    Some(id) => Some(id),
                    None => Some(creator),
                },
                method: "fallback_creator".spec_bytes(),
                reason: "ok".spec_bytes(),
                traces: traces.push("fallback=creator".spec_bytes()),
            }
        }
    } else if fallback == "unassigned".spec_bytes() {
        OwnerAnswer {
            owner: None,
            method: "fallback_unassigned".spec_bytes(),
            reason: "ok".spec_bytes(),
            traces: traces.push("fallback=unassigned".spec_bytes()),
        }
    } else {
        OwnerAnswer {
            owner: None,
            method: "unresolved".spec_bytes(),
            reason: "unresolved".spec_bytes(),
            traces: traces.push("fallback=fail".spec_bytes()),
        }
    }
}

/// The answer to the ownership request in `input`.
pub open spec fn ownership_answer(input: Seq<u8>) -> OwnerAnswer {
    let members = match bracketed_at_depth_spec(input, "\"workspace_members\"".spec_bytes(), 1, 91u8, 93u8) {
        Some(v) => v,
        None => "[]".spec_bytes(),
    };
    let config = match bracketed_at_depth_spec(input, "\"ownership_config\"".spec_bytes(), 1, 123u8, 125u8) {
        Some(v) => v,
        None => Seq::empty(),
    };
    let creator = extract_string_at_depth_spec(input, "\"creator_id\"".spec_bytes(), 1);
    let suggested_null = null_at_depth(input, "\"suggested_owner\"".spec_bytes(), 1);
    let suggested = if suggested_null {
        Seq::empty()
    } else {
        extract_string_at_depth_spec(input, "\"suggested_owner\"".spec_bytes(), 1)
    };
    let fallback0 = extract_string_spec(config, "\"fallback\"".spec_bytes());
    let fallback = if fallback0.len() == 0 { "creator".spec_bytes() } else { fallback0 };
    let require_active = match extract_bool_spec(config, "\"require_active_member\"".spec_bytes()) {
        Some(b) => b,
        None => true,
    };
    let config_error = |t: Seq<u8>|
        OwnerAnswer {
            owner: None,
            method: "config_error".spec_bytes(),
            reason: "config_error".spec_bytes(),
            traces: seq![t],
        };
    if config.len() == 0 {
        config_error("ownership_config missing".spec_bytes())
    } else if fallback != "creator".spec_bytes() && fallback != "unassigned".spec_bytes() && fallback
        != "fail".spec_bytes() {
        config_error("invalid fallback".spec_bytes())
    } else if suggested_null || suggested.len() == 0 {
        fallback_answer(fallback, creator, members, require_active, seq!["suggested_owner null".spec_bytes()])
    } else {
        match owner_match(members, suggested, require_active) {
            Some((id, method, note)) => if method == "inactive".spec_bytes() {
                OwnerAnswer {
                    owner: None,
                    method: "unresolved".spec_bytes(),
                    reason: "inactive_member".spec_bytes(),
                    traces: seq![note],
                }
            } else {
                OwnerAnswer { owner: Some(id), method, reason: "ok".spec_bytes(), traces: seq![note] }
            },
            None => fallback_answer(
                fallback,
                creator,
                members,
                require_active,
                seq!["no member match for suggestion".spec_bytes()],
            ),
        }
    }
}

/// The chunks of the trace list: each line in quotes, separated by commas.
pub open spec fn trace_list_chunks(ts: Seq<Seq<u8>>) -> Seq<Seq<u8>>
    decreases ts.len(),
{
    if ts.len() == 0 {
        Seq::empty()
    } else {
        trace_list_chunks(ts.drop_last()) + (if ts.len() > 1 { seq![",".spec_bytes()] } else { Seq::empty() })
            + seq!["\"".spec_bytes(), ts.last(), "\"".spec_bytes()]
    }
}

/// The chunks of the response document for answer `a`.
pub open spec fn owner_chunks(a: OwnerAnswer) -> Seq<Seq<u8>> {
    seq!["{\"owner_id\":".spec_bytes()] + (match a.owner {
        Some(id) => seq!["\"".spec_bytes(), id, "\"".spec_bytes()],
        None => seq!["null".spec_bytes()],
    }) + seq![
        ",\"resolution_method\":\"".spec_bytes(),
        a.method,
        "\",\"reason_code\":\"".spec_bytes(),
        a.reason,
        "\",\"evaluation_trace\":[".spec_bytes(),
    ] + trace_list_chunks(a.traces) + seq!["]}".spec_bytes()]
}

/// Writes the response document; returns its length.
pub fn write_result(out: &mut [u8], owner_id: Option<&[u8]>, method: &[u8], reason: &[u8], traces: &Vec<&[u8]>) -> (r: usize)
    ensures
        holds_greedy(
            final(out)@,
            r as int,
            owner_chunks(
                OwnerAnswer {
                    owner: match owner_id {
                        Some(id) => Some(id@),
                        None => None,
                    },
                    method: method@,
                    reason: reason@,
                    traces: traces@.map_values(|t: &[u8]| t@),
                },
            ),
        ),
        final(out)@.len() == old(out)@.len(),
{
    let ghost o = out@;
    let ghost ts = traces@.map_values(|t: &[u8]| t@);
    let ghost mut c = Seq::<Seq<u8>>::empty();
    let mut i = put_chunk(out, 0, "{\"owner_id\":".as_bytes(), Ghost(o), Ghost(c));
    proof { c = c + seq!["{\"owner_id\":".spec_bytes()]; }
    let ghost head = c;
    let ghost owner_part: Seq<Seq<u8>> = match owner_id {
        Some(id) => seq!["\"".spec_bytes(), id@, "\"".spec_bytes()],
        None => seq!["null".spec_bytes()],
    };
    match owner_id {
        Some(id) => {
            i = put_chunk(out, i, "\"".as_bytes(), Ghost(o), Ghost(c));
            proof { c = c + seq!["\"".spec_bytes()]; }
            i = put_chunk(out, i, id, Ghost(o), Ghost(c));
            proof { c = c + seq![id@]; }
            i = put_chunk(out, i, "\"".as_bytes(), Ghost(o), Ghost(c));
            proof {
                c = c + seq!["\"".spec_bytes()];
                assert(c =~= head + seq!["\"".spec_bytes(), id@, "\"".spec_bytes()]);
            }
        },
        None => {
            i = put_chunk(out, i, "null".as_bytes(), Ghost(o), Ghost(c));
            proof { c = c + seq!["null".spec_bytes()]; }
        },
    }
    assert(c =~= head + owner_part);
    i = put_chunk(out, i, ",\"resolution_method\":\"".as_bytes(), Ghost(o), Ghost(c));
    proof { c = c + seq![",\"resolution_method\":\"".spec_bytes()]; }
    i = put_chunk(out, i, method, Ghost(o), Ghost(c));
    proof { c = c + seq![method@]; }
    i = put_chunk(out, i, "\",\"reason_code\":\"".as_bytes(), Ghost(o), Ghost(c));
    proof { c = c + seq!["\",\"reason_code\":\"".spec_bytes()]; }
    i = put_chunk(out, i, reason, Ghost(o), Ghost(c));
    proof { c = c + seq![reason@]; }
    i = put_chunk(out, i, "\",\"evaluation_trace\":[".as_bytes(), Ghost(o), Ghost(c));
    proof { c = c + seq!["\",\"evaluation_trace\":[".spec_bytes()]; }
    let ghost before = c;
    let mut k: usize = 0;
    assert(ts.take(0) =~= Seq::<Seq<u8>>::empty());
    while k < traces.len()
        invariant
            k <= traces@.len(),
            ts == traces@.map_values(|t: &[u8]| t@),
            c == before + trace_list_chunks(ts.take(k as int)),
            (out@, i as int) == crate::emit::copies(o, 0, c),
        decreases traces@.len() - k,
    {
        let ghost at_k = c;
        if k > 0 {
            i = put_chunk(out, i, ",".as_bytes(), Ghost(o), Ghost(c));
            proof { c = c + seq![",".spec_bytes()]; }
        }
        i = put_chunk(out, i, "\"".as_bytes(), Ghost(o), Ghost(c));
        proof { c = c + seq!["\"".spec_bytes()]; }
        i = put_chunk(out, i, traces[k], Ghost(o), Ghost(c));
        proof { c = c + seq![traces@[k as int]@]; }
        i = put_chunk(out, i, "\"".as_bytes(), Ghost(o), Ghost(c));
        proof {
            c = c + seq!["\"".spec_bytes()];
            let t1 = ts.take(k as int + 1);
            assert(t1.drop_last() =~= ts.take(k as int));
            assert(t1.last() == traces@[k as int]@);
            assert(c =~= before + trace_list_chunks(t1));
        }
        k = k + 1;
    }
    assert(ts.take(k as int) =~= ts);
    i = put_chunk(out, i, "]}".as_bytes(), Ghost(o), Ghost(c));
    proof {
        c = c + seq!["]}".spec_bytes()];
        let a = OwnerAnswer {
            owner: match owner_id {
                Some(id) => Some(id@),
                None => None,
            },
            method: method@,
            reason: reason@,
            traces: ts,
        };
        assert(c =~= owner_chunks(a));
        lemma_run_holds(o, out@, i as int, c);
    }
    i
}

proof fn lemma_ownership_keys()
    ensures
        "\"workspace_members\"".spec_bytes().len() > 0,
        "\"ownership_config\"".spec_bytes().len() > 0,
        "\"creator_id\"".spec_bytes().len() > 0,
        "\"suggested_owner\"".spec_bytes().len() > 0,
        "\"fallback\"".spec_bytes().len() > 0,
        "\"require_active_member\"".spec_bytes().len() > 0,
        "[]".spec_bytes() == seq![91u8, 93u8],
{
    broadcast use vstd::string::group_string_axioms;
    reveal_strlit("\"workspace_members\"");
    reveal_strlit("\"ownership_config\"");
    reveal_strlit("\"creator_id\"");
    reveal_strlit("\"suggested_owner\"");
    reveal_strlit("\"fallback\"");
    reveal_strlit("\"require_active_member\"");
    reveal_strlit("[]");
    assert(vstd::string::is_ascii("\"workspace_members\""));
    assert(vstd::string::is_ascii("\"ownership_config\""));
    assert(vstd::string::is_ascii("\"creator_id\""));
    assert(vstd::string::is_ascii("\"suggested_owner\""));
    assert(vstd::string::is_ascii("\"fallback\""));
    assert(vstd::string::is_ascii("\"require_active_member\""));
    assert(vstd::string::is_ascii("[]"));
    assert("[]".spec_bytes() =~= seq![91u8, 93u8]);
}

/// Writes the answer that the fallback `fallback` gives after `traces`.
pub fn apply_fallback(
    out: &mut [u8],
    fallback: &[u8],
    creator: &[u8],
    members: &[u8],
    require_active: bool,
    traces: &mut Vec<&[u8]>,
) -> (r: usize)
    requires
        scannable(members@),
    ensures
        holds_greedy(
            final(out)@,
            r as int,
            owner_chunks(
                fallback_answer(fallback@, creator@, members@, require_active, old(traces)@.map_values(|t: &[u8]| t@)),
            ),
        ),
        final(out)@.len() == old(out)@.len(),
{
    let ghost ts = traces@.map_values(|t: &[u8]| t@);
    if crate::scan::bytes_eq(fallback, "creator".as_bytes()) {
        if creator.len() == 0 {
            traces.push("fallback=creator but creator_id missing".as_bytes());
            assert(traces@.map_values(|t: &[u8]| t@) =~= ts.push("fallback=creator but creator_id missing".spec_bytes()));
            return write_result(out, None, "unresolved".as_bytes(), "unresolved".as_bytes(), traces);
        }
        traces.push("fallback=creator".as_bytes());
        assert(traces@.map_values(|t: &[u8]| t@) =~= ts.push("fallback=creator".spec_bytes()));
        if require_active {
            match resolve_member(members, creator, true) {
                Some((id, method, _)) => {
                    if !crate::scan::bytes_eq(method, "inactive".as_bytes()) {
                        return write_result(out, Some(id), "fallback_creator".as_bytes(), "ok".as_bytes(), traces);
                    }
                },
                None => {},
            }
        }
        write_result(out, Some(creator), "fallback_creator".as_bytes(), "ok".as_bytes(), traces)
    } else if crate::scan::bytes_eq(fallback, "unassigned".as_bytes()) {
        traces.push("fallback=unassigned".as_bytes());
        assert(traces@.map_values(|t: &[u8]| t@) =~= ts.push("fallback=unassigned".spec_bytes()));
        write_result(out, None, "fallback_unassigned".as_bytes(), "ok".as_bytes(), traces)
    } else {
        traces.push("fallback=fail".as_bytes());
        assert(traces@.map_values(|t: &[u8]| t@) =~= ts.push("fallback=fail".spec_bytes()));
        write_result(out, None, "unresolved".as_bytes(), "unresolved".as_bytes(), traces)
    }
}

/// Resolves the owner for the request in `input` and writes the response
/// document to `out`; returns its length.
#[verifier::spinoff_prover]
#[verifier::rlimit(60)]
pub fn evaluate(input: &[u8], out: &mut [u8]) -> (r: usize)
    requires
        scannable(input@),
    ensures
        holds_greedy(final(out)@, r as int, owner_chunks(ownership_answer(input@))),
        final(out)@.len() == old(out)@.len(),
{
    proof {
        lemma_ownership_keys();
    }
    let default_members: &[u8] = &[91u8, 93u8];
    let members = match crate::scan::array_after_key_at_depth(input, "\"workspace_members\"".as_bytes(), 1) {
        Some(v) => v,
        None => default_members,
    };
    let empty: &[u8] = &input[0..0];
    assert(empty@ =~= Seq::<u8>::empty());
    let config = match crate::scan::object_after_key_at_depth(input, "\"ownership_config\"".as_bytes(), 1) {
        Some(v) => v,
        None => empty,
    };
    let creator = extract_string_at_depth(input, "\"creator_id\"".as_bytes(), 1);
    let suggested_null = is_null_at_depth(input, "\"suggested_owner\"".as_bytes(), 1);
    let suggested = if suggested_null {
        empty
    } else {
        extract_string_at_depth(input, "\"suggested_owner\"".as_bytes(), 1)
    };
    let mut traces: Vec<&[u8]> = Vec::new();
    if config.len() == 0 {
        traces.push("ownership_config missing".as_bytes());
        assert(traces@.map_values(|t: &[u8]| t@) =~= seq!["ownership_config missing".spec_bytes()]);
        return write_result(out, None, "config_error".as_bytes(), "config_error".as_bytes(), &traces);
    }
    let fallback0 = extract_string(config, "\"fallback\"".as_bytes());
    let fallback = if fallback0.len() == 0 {
        "creator".as_bytes()
    } else {
        fallback0
    };
    if !(crate::scan::bytes_eq(fallback, "creator".as_bytes()) || crate::scan::bytes_eq(fallback, "unassigned".as_bytes())
        || crate::scan::bytes_eq(fallback, "fail".as_bytes())) {
        traces.push("invalid fallback".as_bytes());
        assert(traces@.map_values(|t: &[u8]| t@) =~= seq!["invalid fallback".spec_bytes()]);
        return write_result(out, None, "config_error".as_bytes(), "config_error".as_bytes(), &traces);
    }
    let require_active = match crate::scan::extract_bool(config, "\"require_active_member\"".as_bytes()) {
        Some(b) => b,
        None => true,
    };
    if suggested_null || suggested.len() == 0 {
        traces.push("suggested_owner null".as_bytes());
        assert(traces@.map_values(|t: &[u8]| t@) =~= seq!["suggested_owner null".spec_bytes()]);
        return apply_fallback(out, fallback, creator, members, require_active, &mut traces);
    }
    match resolve_member(members, suggested, require_active) {
        Some((id, method, note)) => {
            traces.push(note);
            assert(traces@.map_values(|t: &[u8]| t@) =~= seq![note@]);
            if crate::scan::bytes_eq(method, "inactive".as_bytes()) {
                return write_result(out, None, "unresolved".as_bytes(), "inactive_member".as_bytes(), &traces);
            }
            write_result(out, Some(id), method, "ok".as_bytes(), &traces)
        },
        None => {
            traces.push("no member match for suggestion".as_bytes());
            assert(traces@.map_values(|t: &[u8]| t@) =~= seq!["no member match for suggestion".spec_bytes()]);
            apply_fallback(out, fallback, creator, members, require_active, &mut traces)
        },
    }
}

/// The member objects of the list `rest`, in order; the walk stops at the
/// end of the list or at anything that is not an object.
pub open spec fn member_objects(rest: Seq<u8>) -> Seq<Seq<u8>>
    decreases rest.len(),
{
    let r = rest.skip(sep_len(rest) as int);
    if r.len() == 0 || r[0] != 123u8 {
        Seq::empty()
    } else {
        match balanced_spec(r, 123u8, 125u8) {
            Some(end) => if 0 <= end < r.len() {
                proof {
                    lemma_sep_len(rest);
                }
                seq![r.take(end + 1)] + member_objects(r.skip(end + 1))
            } else {
                Seq::empty()
            },
            None => Seq::empty(),
        }
    }
}

/// What a matching member object gives: its id with the method and note,
/// or `inactive` when it must be active and is not.
pub open spec fn member_verdict(obj: Seq<u8>, suggestion: Seq<u8>, require_active: bool) -> Option<
    (Seq<u8>, Seq<u8>, Seq<u8>),
> {
    let id = extract_string_spec(obj, "\"id\"".spec_bytes());
    let active = match extract_bool_spec(obj, "\"active\"".spec_bytes()) {
        Some(b) => b,
        None => true,
    };
    match field_match(obj, suggestion) {
        Some((method, note)) => if require_active && !active {
            Some((id, "inactive".spec_bytes(), "matched inactive member".spec_bytes()))
        } else {
            Some((id, method, note))
        },
        None => None,
    }
}

/// `result` is the verdict of the first of `objs` that matches `suggestion`,
/// and none when none of them matches.
pub open spec fn picks_first(
    objs: Seq<Seq<u8>>,
    result: Option<(Seq<u8>, Seq<u8>, Seq<u8>)>,
    suggestion: Seq<u8>,
    require_active: bool,
) -> bool {
    match result {
        Some(v) => exists|k: int|
            0 <= k < objs.len() && member_verdict(#[trigger] objs[k], suggestion, require_active) == Some(v)
                && forall|j: int| 0 <= j < k ==> field_match(#[trigger] objs[j], suggestion) is None,
        None => forall|j: int| 0 <= j < objs.len() ==> field_match(#[trigger] objs[j], suggestion) is None,
    }
}

/// Resolving a suggestion picks the first member object that matches it
/// (by id, else email, else name, ignoring ASCII case); none when no member
/// object matches.
pub proof fn lemma_owner_scan_first(rest: Seq<u8>, suggestion: Seq<u8>, require_active: bool)
    ensures
        picks_first(member_objects(rest), owner_scan(rest, suggestion, require_active), suggestion, require_active),
    decreases rest.len(),
{
    let r = rest.skip(sep_len(rest) as int);
    let objs = member_objects(rest);
    lemma_sep_len(rest);
    if r.len() == 0 || r[0] != 123u8 {
    } else {
        match balanced_spec(r, 123u8, 125u8) {
            Some(end) => if 0 <= end < r.len() {
                let obj = r.take(end + 1);
                let tail = r.skip(end + 1);
                lemma_owner_scan_first(tail, suggestion, require_active);
                let rest_objs = member_objects(tail);
                assert(objs == seq![obj] + rest_objs);
                assert(objs[0] == obj);
                match field_match(obj, suggestion) {
                    Some(_) => {
                        assert(member_verdict(objs[0], suggestion, require_active) == owner_scan(
                            rest,
                            suggestion,
                            require_active,
                        ));
                    },
                    None => {
                        match owner_scan(tail, suggestion, require_active) {
                            Some(v) => {
                                let k = choose|k: int|
                                    0 <= k < rest_objs.len() && member_verdict(#[trigger] rest_objs[k], suggestion, require_active)
                                        == Some(v) && forall|j: int| 0 <= j < k ==> field_match(#[trigger] rest_objs[j], suggestion) is None;
                                assert(objs[k + 1] == rest_objs[k]);
                                assert forall|j: int| 0 <= j < k + 1 implies field_match(#[trigger] objs[j], suggestion) is None by {
                                    if j > 0 {
                                        assert(objs[j] == rest_objs[j - 1]);
                                    }
                                }
                            },
                            None => {
                                assert forall|j: int| 0 <= j < objs.len() implies field_match(#[trigger] objs[j], suggestion) is None by {
                                    if j > 0 {
                                        assert(objs[j] == rest_objs[j - 1]);
                                    }
                                }
                            },
                        }
                    },
                }
            } else {
            },
            None => {},
        }
    }
}


/// The fallback decides the owner, the method and the reason: `unassigned`
/// gives no owner; `creator` gives no owner and `unresolved` when the creator
/// is missing, else the creator, as the id of the active member it names when
/// members must be active and one does, or as given otherwise; anything else
/// (`fail`) gives no owner and `unresolved`. Each appends one trace line.
pub proof fn lemma_fallback_outcomes(
    fallback: Seq<u8>,
    creator: Seq<u8>,
    members: Seq<u8>,
    require_active: bool,
    traces: Seq<Seq<u8>>,
)
    ensures
        ({
            let a = fallback_answer(fallback, creator, members, require_active, traces);
            &&& a.traces.len() == traces.len() + 1
            &&& a.traces.take(traces.len() as int) == traces
            &&& fallback == "unassigned".spec_bytes() ==> a.owner is None && a.method
                == "fallback_unassigned".spec_bytes() && a.reason == "ok".spec_bytes()
            &&& (fallback == "creator".spec_bytes() && creator.len() == 0) ==> a.owner is None && a.method
                == "unresolved".spec_bytes() && a.reason == "unresolved".spec_bytes()
            &&& (fallback == "creator".spec_bytes() && creator.len() > 0) ==> {
                &&& a.method == "fallback_creator".spec_bytes()
                &&& a.reason == "ok".spec_bytes()
                &&& a.owner == Some(
                    match owner_match(members, creator, true) {
                        Some((id, m, _)) => if require_active && m != "inactive".spec_bytes() {
                            id
                        } else {
                            creator
                        },
                        None => creator,
                    },
                )
            }
            &&& (fallback != "creator".spec_bytes() && fallback != "unassigned".spec_bytes()) ==> a.owner is None
                && a.method == "unresolved".spec_bytes() && a.reason == "unresolved".spec_bytes()
        }),
{
    broadcast use vstd::string::group_string_axioms;
    reveal_strlit("creator");
    reveal_strlit("unassigned");
    assert(vstd::string::is_ascii("creator"));
    assert(vstd::string::is_ascii("unassigned"));
    assert("creator".spec_bytes().len() != "unassigned".spec_bytes().len());
    let a = fallback_answer(fallback, creator, members, require_active, traces);
    assert(a.traces.take(traces.len() as int) =~= traces);
}

/// Resolving a suggestion against a member list picks the first member
/// object of the list (after an opening `[`) that matches it by id, else
/// email, else name, ignoring ASCII case; a match that must be active and is
/// not gives `inactive`; no member object matching gives none.
pub proof fn lemma_resolve_member_first(members: Seq<u8>, suggestion: Seq<u8>, require_active: bool)
    ensures
        picks_first(
            member_objects(list_items(members)),
            owner_match(members, suggestion, require_active),
            suggestion,
            require_active,
        ),
{
    lemma_owner_scan_first(list_items(members), suggestion, require_active);
}

} // verus!
