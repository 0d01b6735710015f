//! Finalizing a recording: the request is checked and turned into a
//! `put_immutable` call to the object store connector, and the connector's
//! reply is turned into the response. The call itself is made by the host
//! between the two steps.
use vstd::prelude::*;
use vstd::string::StringSliceAdditionalSpecFns;
use crate::emit::{splice, whole_write};
use crate::scan::{is_ws, lex_state, lex_step, scannable, skip_ws_spec, LexState};

verus! {

/// The number of leading whitespace bytes of `s`.
pub open spec fn ws_len(s: Seq<u8>) -> nat
    decreases s.len(),
{
    if s.len() > 0 && is_ws(s[0]) {
        1 + ws_len(s.drop_first())
    } else {
        0
    }
}

pub proof fn lemma_ws_len(s: Seq<u8>)
    ensures
        ws_len(s) <= s.len(),
        skip_ws_spec(s) == s.skip(ws_len(s) as int),
    decreases s.len(),
{
    if s.len() > 0 && is_ws(s[0]) {
        lemma_ws_len(s.drop_first());
        assert(s.drop_first().skip(ws_len(s.drop_first()) as int) =~= s.skip(ws_len(s) as int));
    } else {
        assert(s.skip(0) =~= s);
    }
}

/// The scan for the closing quote of a string token, from index `i`: a
/// backslash escapes the next byte, and an unescaped control byte ends the
/// scan without a match.
pub open spec fn quote_scan(v: Seq<u8>, i: int, escaped: bool) -> Option<int>
    decreases v.len() - i,
{
    if i < 0 || i >= v.len() {
        None
    } else if escaped {
        quote_scan(v, i + 1, false)
    } else if v[i] == 92u8 {
        quote_scan(v, i + 1, true)
    } else if v[i] == 34u8 {
        Some(i)
    } else if v[i] < 32u8 {
        None
    } else {
        quote_scan(v, i + 1, false)
    }
}

/// The index of the quote that closes the string token opening `v` (the
/// first byte is taken as the opening quote).
pub open spec fn string_end_spec(v: Seq<u8>) -> Option<int> {
    quote_scan(v, 1, false)
}

/// The scan for the bracket that closes the value opening `v`, from index
/// `i` at nesting `depth`: brackets inside strings do not count, and a close
/// below the outermost level fails.
pub open spec fn nest_scan(v: Seq<u8>, i: int, depth: int, quoted: bool, escaped: bool) -> Option<int>
    decreases v.len() - i,
{
    if i < 0 || i >= v.len() {
        None
    } else if quoted {
        if escaped {
            nest_scan(v, i + 1, depth, true, false)
        } else if v[i] == 92u8 {
            nest_scan(v, i + 1, depth, true, true)
        } else if v[i] == 34u8 {
            nest_scan(v, i + 1, depth, false, false)
        } else {
            nest_scan(v, i + 1, depth, true, false)
        }
    } else if v[i] == 34u8 {
        nest_scan(v, i + 1, depth, true, false)
    } else if v[i] == 123u8 || v[i] == 91u8 {
        nest_scan(v, i + 1, depth + 1, false, false)
    } else if v[i] == 125u8 || v[i] == 93u8 {
        if depth - 1 == 0 {
            Some(i)
        } else if depth - 1 < 0 {
            None
        } else {
            nest_scan(v, i + 1, depth - 1, false, false)
        }
    } else {
        nest_scan(v, i + 1, depth, false, false)
    }
}

/// The index of the bracket that closes the value opening `v`.
pub open spec fn nest_end_spec(v: Seq<u8>) -> Option<int> {
    nest_scan(v, 0, 0, false, false)
}

/// The value opening `v` closes at index `e`: a `}` or `]` outside every
/// string literal at nesting depth 1 (counting `{` and `[` against `}` and
/// `]` outside strings from the start of `v`).
pub open spec fn closes_at(v: Seq<u8>, e: int) -> bool {
    &&& 0 <= e < v.len()
    &&& (v[e] == 125u8 || v[e] == 93u8)
    &&& !lex_state(v, e).in_str
    &&& lex_state(v, e).depth == 1
}

/// The least index from `i` on at which the value opening `v` closes.
pub open spec fn first_close_from(v: Seq<u8>, i: int) -> Option<int>
    decreases v.len() + 1 - i,
{
    if i < 0 || i >= v.len() {
        None
    } else if closes_at(v, i) {
        Some(i)
    } else {
        first_close_from(v, i + 1)
    }
}

proof fn lemma_nest_scan_first(v: Seq<u8>, i: int, depth: int, quoted: bool, escaped: bool)
    requires
        0 <= i,
        depth >= 1,
        escaped ==> quoted,
        i <= v.len() ==> lex_state(v, i) == (LexState { depth, in_str: quoted, escaped }),
    ensures
        nest_scan(v, i, depth, quoted, escaped) == first_close_from(v, i),
    decreases v.len() - i,
{
    if i < v.len() {
        let b = v[i];
        assert(lex_state(v, i + 1) == lex_step(lex_state(v, i), b));
        if quoted {
            if escaped {
                lemma_nest_scan_first(v, i + 1, depth, true, false);
            } else if b == 92u8 {
                lemma_nest_scan_first(v, i + 1, depth, true, true);
            } else if b == 34u8 {
                lemma_nest_scan_first(v, i + 1, depth, false, false);
            } else {
                lemma_nest_scan_first(v, i + 1, depth, true, false);
            }
        } else if b == 34u8 {
            lemma_nest_scan_first(v, i + 1, depth, true, false);
        } else if b == 123u8 || b == 91u8 {
            lemma_nest_scan_first(v, i + 1, depth + 1, false, false);
        } else if b == 125u8 || b == 93u8 {
            if depth - 1 > 0 {
                lemma_nest_scan_first(v, i + 1, depth - 1, false, false);
            }
        } else {
            lemma_nest_scan_first(v, i + 1, depth, false, false);
        }
    }
}

proof fn lemma_first_close_least(v: Seq<u8>, i: int)
    requires
        0 <= i,
    ensures
        match first_close_from(v, i) {
            Some(e) => i <= e && closes_at(v, e) && forall|j: int| i <= j < e ==> !closes_at(v, j),
            None => forall|j: int| i <= j ==> !closes_at(v, j),
        },
    decreases v.len() + 1 - i,
{
    if i < v.len() && !closes_at(v, i) {
        lemma_first_close_least(v, i + 1);
    }
}

/// The bracket that closes an object or array opening `v` is the first `}`
/// or `]` outside every string literal at which the nesting depth (`{` and
/// `[` against `}` and `]` outside strings, a backslash inside a string
/// hiding the byte after it) comes back to zero; there is none when the
/// depth never does.
pub proof fn lemma_nest_end_least(v: Seq<u8>)
    requires
        v.len() > 0,
        v[0] == 123u8 || v[0] == 91u8,
    ensures
        match nest_end_spec(v) {
            Some(e) => closes_at(v, e) && forall|j: int| 0 <= j < e ==> !closes_at(v, j),
            None => forall|j: int| !closes_at(v, j),
        },
{
    assert(lex_state(v, 1) == lex_step(lex_state(v, 0), v[0]));
    lemma_nest_scan_first(v, 1, 1, false, false);
    assert(!closes_at(v, 0));
    assert(first_close_from(v, 0) == first_close_from(v, 1));
    lemma_first_close_least(v, 0);
}

/// A byte that ends a bare value (number, literal).
pub open spec fn ends_bare(b: u8) -> bool {
    b == 44u8 || b == 125u8 || b == 93u8 || b == 32u8 || b == 10u8 || b == 13u8 || b == 9u8
}

/// The index of the first byte of `v` from `i` on that ends a bare value,
/// or the length of `v`.
pub open spec fn bare_end(v: Seq<u8>, i: int) -> int
    decreases v.len() - i,
{
    if i < 0 || i >= v.len() {
        v.len() as int
    } else if ends_bare(v[i]) {
        i
    } else {
        bare_end(v, i + 1)
    }
}

/// The length of the JSON value that opens `v`.
pub open spec fn value_end_spec(v: Seq<u8>) -> Option<int> {
    if v.len() == 0 {
        None
    } else if v[0] == 123u8 || v[0] == 91u8 {
        match nest_end_spec(v) {
            Some(e) => Some(e + 1),
            None => None,
        }
    } else if v[0] == 34u8 {
        match string_end_spec(v) {
            Some(e) => Some(e + 1),
            None => None,
        }
    } else {
        Some(bare_end(v, 0))
    }
}


/// The scan over the members of the object `obj` from index `cursor`,
/// looking for the member named `key`; `found` is its value when it was
/// seen already. Each member is a string key, a colon and a value, members
/// are separated by commas, and the object must close with nothing but
/// whitespace after it. A second member named `key` fails the scan.
pub open spec fn member_scan(obj: Seq<u8>, cursor: int, key: Seq<u8>, found: Option<Seq<u8>>) -> Option<Seq<u8>>
    decreases obj.len() - cursor,
{
    if cursor < 0 || cursor > obj.len() {
        None
    } else {
        let c1 = cursor + ws_len(obj.skip(cursor));
        if c1 < obj.len() && obj[c1] == 125u8 {
            if found is Some && skip_ws_spec(obj.skip(c1 + 1)).len() == 0 {
                found
            } else {
                None
            }
        } else if c1 >= obj.len() || obj[c1] != 34u8 {
            None
        } else {
            match string_end_spec(obj.skip(c1)) {
                None => None,
                Some(ke) => {
                    let key_token = obj.subrange(c1, c1 + ke + 1);
                    let c2 = c1 + ke + 1;
                    let c3 = c2 + ws_len(obj.skip(c2));
                    if c3 >= obj.len() || obj[c3] != 58u8 {
                        None
                    } else {
                        let c4 = c3 + 1 + ws_len(obj.skip(c3 + 1));
                        match value_end_spec(obj.skip(c4)) {
                            None => None,
                            Some(ve) => {
                                let named = key_token.subrange(1, key_token.len() - 1) == key;
                                if named && found is Some {
                                    None
                                } else {
                                    let found2 = if named { Some(obj.subrange(c4, c4 + ve)) } else { found };
                                    let c5 = c4 + ve;
                                    let c6 = c5 + ws_len(obj.skip(c5));
                                    if c6 <= cursor || c6 >= obj.len() {
                                        None
                                    } else if obj[c6] == 44u8 {
                                        member_scan(obj, c6 + 1, key, found2)
                                    } else if obj[c6] == 125u8 {
                                        member_scan(obj, c6, key, found2)
                                    } else {
                                        None
                                    }
                                }
                            },
                        }
                    }
                },
            }
        }
    }
}

/// The value of the one member named `key` of the object that `value`
/// holds (after leading whitespace).
pub open spec fn object_field_spec(value: Seq<u8>, key: Seq<u8>) -> Option<Seq<u8>> {
    let obj = skip_ws_spec(value);
    if obj.len() == 0 || obj[0] != 123u8 {
        None
    } else {
        member_scan(obj, 1, key, None)
    }
}

/// The string token (quotes included) that is the value of the member
/// `key`.
pub open spec fn string_token_spec(value: Seq<u8>, key: Seq<u8>) -> Option<Seq<u8>> {
    match object_field_spec(value, key) {
        Some(t) => if t.len() == 0 || t[0] != 34u8 {
            None
        } else {
            match string_end_spec(t) {
                Some(e) => Some(t.take(e + 1)),
                None => None,
            }
        },
        None => None,
    }
}


/// `value` without its leading whitespace.
pub fn skip_whitespace(value: &[u8]) -> (r: &[u8])
    ensures
        r@ == skip_ws_spec(value@),
{
    crate::scan::skip_ws(value)
}

/// The number of leading whitespace bytes of `s`.
fn ws_count(s: &[u8]) -> (r: usize)
    ensures
        r == ws_len(s@),
        r <= s@.len(),
{
    let mut i: usize = 0;
    assert(s@.skip(0) =~= s@);
    while i < s.len() && (s[i] == 32 || s[i] == 10 || s[i] == 9 || s[i] == 13)
        invariant
            i <= s@.len(),
            ws_len(s@) == i + ws_len(s@.skip(i as int)),
        decreases s.len() - i,
    {
        assert(s@.skip(i as int).drop_first() =~= s@.skip(i as int + 1));
        i = i + 1;
    }
    i
}

/// The index of the quote that closes the string token opening `value`.
pub fn string_end(value: &[u8]) -> (r: Option<usize>)
    ensures
        match string_end_spec(value@) {
            Some(e) => r == Some(e as usize) && 1 <= e < value@.len(),
            None => r is None,
        },
{
    let mut i: usize = 1;
    let mut escaped = false;
    while i < value.len()
        invariant
            1 <= i,
            string_end_spec(value@) == quote_scan(value@, i as int, escaped),
        decreases value@.len() - i,
    {
        let b = value[i];
        if escaped {
            escaped = false;
        } else if b == 92 {
            escaped = true;
        } else if b == 34 {
            return Some(i);
        } else if b < 32 {
            return None;
        }
        i = i + 1;
    }
    None
}

/// The index of the bracket that closes the value opening `value`.
pub fn balanced_end(value: &[u8]) -> (r: Option<usize>)
    requires
        scannable(value@),
    ensures
        match nest_end_spec(value@) {
            Some(e) => r == Some(e as usize) && 0 <= e < value@.len(),
            None => r is None,
        },
{
    let mut depth: i64 = 0;
    let mut quoted = false;
    let mut escaped = false;
    let mut i: usize = 0;
    while i < value.len()
        invariant
            scannable(value@),
            0 <= depth <= i,
            nest_end_spec(value@) == nest_scan(value@, i as int, depth as int, quoted, escaped),
            !quoted ==> !escaped,
        decreases value@.len() - i,
    {
        let b = value[i];
        if quoted {
            if escaped {
                escaped = false;
            } else if b == 92 {
                escaped = true;
            } else if b == 34 {
                quoted = false;
            }
        } else if b == 34 {
            quoted = true;
        } else if b == 123 || b == 91 {
            depth = depth + 1;
        } else if b == 125 || b == 93 {
            if depth - 1 == 0 {
                return Some(i);
            }
            if depth - 1 < 0 {
                return None;
            }
            depth = depth - 1;
        }
        i = i + 1;
    }
    None
}

/// The length of the JSON value that opens `value`.
pub fn json_value_end(value: &[u8]) -> (r: Option<usize>)
    requires
        scannable(value@),
    ensures
        match value_end_spec(value@) {
            Some(e) => r == Some(e as usize) && 0 <= e <= value@.len(),
            None => r is None,
        },
{
    if value.len() == 0 {
        return None;
    }
    let b = value[0];
    if b == 123 || b == 91 {
        match balanced_end(value) {
            Some(e) => Some(e + 1),
            None => None,
        }
    } else if b == 34 {
        match string_end(value) {
            Some(e) => Some(e + 1),
            None => None,
        }
    } else {
        let mut i: usize = 0;
        while i < value.len() && !(value[i] == 44 || value[i] == 125 || value[i] == 93 || value[i] == 32
            || value[i] == 10 || value[i] == 13 || value[i] == 9)
            invariant
                i <= value@.len(),
                bare_end(value@, 0) == bare_end(value@, i as int),
            decreases value@.len() - i,
        {
            i = i + 1;
        }
        Some(i)
    }
}

/// The value of the one member named `key` of the object that `value`
/// holds.
pub fn object_field<'a>(value: &'a [u8], key: &[u8]) -> (r: Option<&'a [u8]>)
    requires
        scannable(value@),
    ensures
        match object_field_spec(value@, key@) {
            Some(f) => r is Some && r->0@ == f,
            None => r is None,
        },
{
    let obj = skip_whitespace(value);
    proof {
        lemma_ws_len(value@);
    }
    if obj.len() == 0 || obj[0] != 123 {
        return None;
    }
    let mut cursor: usize = 1;
    let mut found: Option<&'a [u8]> = None;
    loop
        invariant
            scannable(obj@),
            1 <= cursor <= obj@.len(),
            object_field_spec(value@, key@) == member_scan(
                obj@,
                cursor as int,
                key@,
                match found {
                    Some(f) => Some(f@),
                    None => None,
                },
            ),
        decreases obj@.len() - cursor,
    {
        let ghost fv: Option<Seq<u8>> = match found {
            Some(f) => Some(f@),
            None => None,
        };
        let s0 = &obj[cursor..obj.len()];
        assert(s0@ =~= obj@.skip(cursor as int));
        let c1 = cursor + ws_count(s0);
        if c1 < obj.len() && obj[c1] == 125 {
            let after = &obj[c1 + 1..obj.len()];
            assert(after@ =~= obj@.skip(c1 + 1));
            let rest = skip_whitespace(after);
            if found.is_some() && rest.len() == 0 {
                return found;
            }
            return None;
        }
        if c1 >= obj.len() || obj[c1] != 34 {
            return None;
        }
        let s1 = &obj[c1..obj.len()];
        assert(s1@ =~= obj@.skip(c1 as int));
        let ke = match string_end(s1) {
            Some(e) => e,
            None => return None,
        };
        let key_token = &obj[c1..c1 + ke + 1];
        assert(key_token@ =~= obj@.subrange(c1 as int, c1 + ke + 1));
        let c2 = c1 + ke + 1;
        let s2 = &obj[c2..obj.len()];
        assert(s2@ =~= obj@.skip(c2 as int));
        let c3 = c2 + ws_count(s2);
        if c3 >= obj.len() || obj[c3] != 58 {
            return None;
        }
        let s3 = &obj[c3 + 1..obj.len()];
        assert(s3@ =~= obj@.skip(c3 + 1));
        let c4 = c3 + 1 + ws_count(s3);
        let s4 = &obj[c4..obj.len()];
        assert(s4@ =~= obj@.skip(c4 as int));
        let ve = match json_value_end(s4) {
            Some(v) => v,
            None => return None,
        };
        let inner = &key_token[1..key_token.len() - 1];
        assert(inner@ =~= key_token@.subrange(1, key_token@.len() - 1));
        let named = crate::scan::bytes_eq(inner, key);
        if named && found.is_some() {
            return None;
        }
        if named {
            let f = &obj[c4..c4 + ve];
            assert(f@ =~= obj@.subrange(c4 as int, c4 + ve));
            found = Some(f);
        }
        let c5 = c4 + ve;
        let s5 = &obj[c5..obj.len()];
        assert(s5@ =~= obj@.skip(c5 as int));
        let c6 = c5 + ws_count(s5);
        if c6 <= cursor || c6 >= obj.len() {
            return None;
        }
        if obj[c6] == 44 {
            cursor = c6 + 1;
        } else if obj[c6] == 125 {
            cursor = c6;
        } else {
            return None;
        }
    }
}

/// The string token (quotes included) that is the value of member `key`.
pub fn string_token_after<'a>(value: &'a [u8], key: &[u8]) -> (r: Option<&'a [u8]>)
    requires
        scannable(value@),
    ensures
        match string_token_spec(value@, key@) {
            Some(t) => r is Some && r->0@ == t,
            None => r is None,
        },
{
    let token = match object_field(value, key) {
        Some(t) => t,
        None => return None,
    };
    if token.len() == 0 || token[0] != 34 {
        return None;
    }
    match string_end(token) {
        Some(e) => {
            let t = &token[0..e + 1];
            assert(t@ =~= token@.take(e + 1));
            Some(t)
        },
        None => None,
    }
}

/// Whether `token` is the empty string token.
pub fn is_empty_string(token: &[u8]) -> (r: bool)
    ensures
        r == (token@ == seq![34u8, 34u8]),
{
    let r = token.len() == 2 && token[0] == 34 && token[1] == 34;
    proof {
        if r {
            assert(token@ =~= seq![34u8, 34u8]);
        }
    }
    r
}

/// Copies `value` to `output` at `at` when it fits; returns the index after
/// it, or `None` (leaving `output` alone) when it does not.
pub fn copy(output: &mut [u8], at: usize, value: &[u8]) -> (r: Option<usize>)
    ensures
        at + value@.len() <= old(output)@.len() ==> (r matches Some(e) && e == at + value@.len() && final(output)@
            == splice(old(output)@, at as int, value@)),
        at + value@.len() > old(output)@.len() ==> r is None && final(output)@ == old(output)@,
{
    if at > output.len() || value.len() > output.len() - at {
        return None;
    }
    let r = crate::emit::copy(output, at, value);
    Some(r)
}

/// The failure document for `result_class`.
pub open spec fn unavailable_doc(result_class: Seq<u8>) -> Seq<u8> {
    "{\"asset_ref\":\"\",\"content_digest\":\"\",\"size\":0,\"result_class\":\"".spec_bytes() + result_class
        + "\"}".spec_bytes()
}

/// The buffer `out` with end index `r` holds the failure document for
/// `result_class` when it fits, and the index is 0 when it does not.
pub open spec fn unavailable_written(out: Seq<u8>, r: int, result_class: Seq<u8>) -> bool {
    let d = unavailable_doc(result_class);
    &&& d.len() <= out.len() ==> r == d.len() && out.take(r) == d
    &&& d.len() > out.len() ==> r == 0
}

/// Writes the failure document for `result_class`; returns its length, or 0
/// when it does not fit.
pub fn unavailable(out: &mut [u8], result_class: &[u8]) -> (r: usize)
    ensures
        unavailable_written(final(out)@, r as int, result_class@),
        final(out)@.len() == old(out)@.len(),
{
    let head = "{\"asset_ref\":\"\",\"content_digest\":\"\",\"size\":0,\"result_class\":\"".as_bytes();
    let tail = "\"}".as_bytes();
    let ghost o = out@;
    let at = match copy(out, 0, head) {
        Some(a) => a,
        None => return 0,
    };
    assert(out@.take(at as int) =~= head@);
    let at2 = match copy(out, at, result_class) {
        Some(a) => a,
        None => return 0,
    };
    assert(out@.take(at2 as int) =~= head@ + result_class@);
    match copy(out, at2, tail) {
        Some(n) => {
            proof {
                assert(out@.take(n as int) =~= head@ + result_class@ + tail@);
            }
            n
        },
        None => 0,
    }
}


/// The four string tokens a request must carry, each non-empty.
pub open spec fn request_fields(input: Seq<u8>) -> Option<(Seq<u8>, Seq<u8>, Seq<u8>, Seq<u8>)> {
    let c = string_token_spec(input, "content_ref".spec_bytes());
    let m = string_token_spec(input, "media_type".spec_bytes());
    let r = string_token_spec(input, "retention_class".spec_bytes());
    let k = string_token_spec(input, "idempotency_key".spec_bytes());
    match (c, m, r, k) {
        (Some(c), Some(m), Some(r), Some(k)) => if c == seq![34u8, 34u8] || m == seq![34u8, 34u8] || r == seq![
            34u8,
            34u8,
        ] || k == seq![34u8, 34u8] {
            None
        } else {
            Some((c, m, r, k))
        },
        _ => None,
    }
}

/// The connector request for the four tokens.
pub open spec fn request_text(c: Seq<u8>, m: Seq<u8>, r: Seq<u8>, k: Seq<u8>) -> Seq<u8> {
    "{\"abi_version\":\"1.0.0\",\"connector_id\":\"traverse.object-store\",\"operation\":\"put_immutable\",\"payload\":{\"content_ref\":".spec_bytes()
        + c + ",\"media_type\":".spec_bytes() + m + ",\"retention_class\":".spec_bytes() + r
        + ",\"idempotency_key\":".spec_bytes() + k + "}}".spec_bytes()
}

/// What the first step leads to: a connector request of the given length,
/// or a response already written, of the given length.
pub enum Step {
    Invoke(usize),
    Answered(usize),
}

/// Copies `value` after index `at` if `at` is an index; the copies of a
/// request go on only while each fits.
fn copy_after(buf: &mut [u8], at: Option<usize>, value: &[u8], Ghost(o): Ghost<Seq<u8>>, Ghost(done): Ghost<Seq<u8>>) -> (r: Option<usize>)
    requires
        match at {
            Some(a) => a == done.len() && old(buf)@.take(a as int) == done && old(buf)@.len() == o.len(),
            None => done.len() > o.len() && old(buf)@.len() == o.len(),
        },
    ensures
        final(buf)@.len() == o.len(),
        match r {
            Some(a) => a == (done + value@).len() && a <= o.len() && final(buf)@.take(a as int) == done + value@,
            None => (done + value@).len() > o.len(),
        },
{
    match at {
        Some(a) => {
            let ghost before = buf@;
            let r = copy(buf, a, value);
            proof {
                if r is Some {
                    assert(buf@.take(a + value@.len()) =~= done + value@);
                }
            }
            r
        },
        None => None,
    }
}

/// The first step of finalizing: checks the request in `input` and writes
/// the connector request to `request`, or, when the request cannot be made,
/// the failure document to `out`.
#[verifier::spinoff_prover]
#[verifier::rlimit(40)]
pub fn begin(input: &[u8], request: &mut [u8], out: &mut [u8]) -> (r: Step)
    requires
        scannable(input@),
    ensures
        final(request)@.len() == old(request)@.len(),
        final(out)@.len() == old(out)@.len(),
        match request_fields(input@) {
            Some((c, m, rc, k)) => {
                let t = request_text(c, m, rc, k);
                if t.len() <= old(request)@.len() && t.len() <= i32::MAX {
                    r == Step::Invoke(t.len() as usize) && final(request)@.take(t.len() as int) == t && final(out)@
                        == old(out)@
                } else {
                    r matches Step::Answered(n) && unavailable_written(final(out)@, n as int, "invalid_request".spec_bytes())
                }
            },
            None => r matches Step::Answered(n) && unavailable_written(final(out)@, n as int, "invalid_request".spec_bytes()),
        },
{
    let content_ref = string_token_after(input, "content_ref".as_bytes());
    let media_type = string_token_after(input, "media_type".as_bytes());
    let retention_class = string_token_after(input, "retention_class".as_bytes());
    let idempotency_key = string_token_after(input, "idempotency_key".as_bytes());
    let (c, m, rc, k) = match (content_ref, media_type, retention_class, idempotency_key) {
        (Some(c), Some(m), Some(rc), Some(k)) => (c, m, rc, k),
        _ => {
            let n = unavailable(out, "invalid_request".as_bytes());
            return Step::Answered(n);
        },
    };
    if is_empty_string(c) || is_empty_string(m) || is_empty_string(rc) || is_empty_string(k) {
        let n = unavailable(out, "invalid_request".as_bytes());
        return Step::Answered(n);
    }
    let ghost o = request@;
    let head = "{\"abi_version\":\"1.0.0\",\"connector_id\":\"traverse.object-store\",\"operation\":\"put_immutable\",\"payload\":{\"content_ref\":".as_bytes();
    assert(o.take(0) =~= Seq::<u8>::empty());
    let a0 = copy_after(request, Some(0), head, Ghost(o), Ghost(Seq::empty()));
    let ghost d0 = Seq::<u8>::empty() + head@;
    let a1 = copy_after(request, a0, c, Ghost(o), Ghost(d0));
    let ghost d1 = d0 + c@;
    let a2 = copy_after(request, a1, ",\"media_type\":".as_bytes(), Ghost(o), Ghost(d1));
    let ghost d2 = d1 + ",\"media_type\":".spec_bytes();
    let a3 = copy_after(request, a2, m, Ghost(o), Ghost(d2));
    let ghost d3 = d2 + m@;
    let a4 = copy_after(request, a3, ",\"retention_class\":".as_bytes(), Ghost(o), Ghost(d3));
    let ghost d4 = d3 + ",\"retention_class\":".spec_bytes();
    let a5 = copy_after(request, a4, rc, Ghost(o), Ghost(d4));
    let ghost d5 = d4 + rc@;
    let a6 = copy_after(request, a5, ",\"idempotency_key\":".as_bytes(), Ghost(o), Ghost(d5));
    let ghost d6 = d5 + ",\"idempotency_key\":".spec_bytes();
    let a7 = copy_after(request, a6, k, Ghost(o), Ghost(d6));
    let ghost d7 = d6 + k@;
    let a8 = copy_after(request, a7, "}}".as_bytes(), Ghost(o), Ghost(d7));
    let ghost d8 = d7 + "}}".spec_bytes();
    assert(d8 =~= request_text(c@, m@, rc@, k@));
    match a8 {
        Some(at) => {
            if at > 0x7fff_ffff {
                let n = unavailable(out, "invalid_request".as_bytes());
                return Step::Answered(n);
            }
            Step::Invoke(at)
        },
        None => {
            let n = unavailable(out, "invalid_request".as_bytes());
            Step::Answered(n)
        },
    }
}

/// The object the connector's reply carries as its payload, when the reply
/// length is usable.
pub open spec fn reply_payload(response: Seq<u8>, received: int) -> Option<Seq<u8>> {
    if received <= 0 || received > response.len() {
        None
    } else {
        match object_field_spec(response.take(received), "payload".spec_bytes()) {
            Some(p) => if p.len() > 0 && p[0] == 123u8 {
                Some(p)
            } else {
                None
            },
            None => None,
        }
    }
}

/// The second step of finalizing: turns the connector's reply (`received`
/// bytes of `response`) into the response document in `out`; returns its
/// length.
pub fn complete(response: &[u8], received: i32, out: &mut [u8]) -> (r: usize)
    requires
        scannable(response@),
    ensures
        final(out)@.len() == old(out)@.len(),
        match reply_payload(response@, received as int) {
            Some(p) => if p.len() <= old(out)@.len() {
                r == p.len() && final(out)@.take(r as int) == p
            } else {
                unavailable_written(final(out)@, r as int, "connector_unavailable".spec_bytes())
            },
            None => unavailable_written(final(out)@, r as int, "connector_unavailable".spec_bytes()),
        },
{
    if received <= 0 || received as usize > response.len() {
        return unavailable(out, "connector_unavailable".as_bytes());
    }
    let body = &response[0..received as usize];
    assert(body@ =~= response@.take(received as int));
    let payload = match object_field(body, "payload".as_bytes()) {
        Some(p) => p,
        None => return unavailable(out, "connector_unavailable".as_bytes()),
    };
    if payload.len() == 0 || payload[0] != 123 {
        return unavailable(out, "connector_unavailable".as_bytes());
    }
    match copy(out, 0, payload) {
        Some(n) => {
            assert(out@.take(n as int) =~= payload@);
            n
        },
        None => unavailable(out, "connector_unavailable".as_bytes()),
    }
}

} // verus!
