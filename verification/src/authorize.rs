//! Access decisions: a request names a principal, an action, a resource and a
//! policy of prioritised allow/deny rules; the decision follows the matching
//! rule of highest priority, else the policy's default effect.
use vstd::prelude::*;
use vstd::string::StringSliceAdditionalSpecFns;
use crate::digest::{fnv1a64, fnv_state, hex16, hex_digits};
use crate::emit::{
    copies, copy, copy_next, copy_signed, decimal, decimal_digits, greedy, signed_chunks, holds_greedy, lemma_copies_concat,
    lemma_copies_greedy, lemma_greedy_len, lemma_holds_greedy_start, whole_write,
};
use crate::scan::{
    balanced_end, balanced_spec, bytes_eq, contains, find, find_key_at_depth, find_spec,
    index_of, index_of_byte, index_of_from, is_digit, key_at_depth_spec, scannable, starts_with,
    has_prefix,
};

verus! {

/// A space, a line feed or a tab: the whitespace this capability skips.
pub open spec fn is_gap(b: u8) -> bool {
    b == 32u8 || b == 10u8 || b == 9u8
}

/// `s` without its leading spaces, line feeds and tabs.
pub open spec fn skip_gaps(s: Seq<u8>) -> Seq<u8>
    decreases s.len(),
{
    if s.len() > 0 && is_gap(s[0]) {
        skip_gaps(s.drop_first())
    } else {
        s
    }
}

/// What follows the first colon of `s`, leading gaps removed.
pub open spec fn after_colon(s: Seq<u8>) -> Option<Seq<u8>> {
    match index_of(s, 58u8) {
        Some(c) => Some(skip_gaps(s.skip(c + 1))),
        None => None,
    }
}

/// The string value after the colon of a key, or empty.
pub open spec fn string_value_spec(after_key: Seq<u8>) -> Seq<u8> {
    match after_colon(after_key) {
        Some(rest) => if rest.len() == 0 || rest[0] != 34u8 {
            Seq::empty()
        } else {
            match index_of(rest.drop_first(), 34u8) {
                Some(e) => rest.drop_first().take(e),
                None => Seq::empty(),
            }
        },
        None => Seq::empty(),
    }
}

/// The bracketed value after the colon of a key.
pub open spec fn bracket_value_spec(after_key: Seq<u8>, open: u8, close: u8) -> Option<Seq<u8>> {
    match after_colon(after_key) {
        Some(rest) => if rest.len() == 0 || rest[0] != open {
            None
        } else {
            match balanced_spec(rest, open, close) {
                Some(e) => Some(rest.take(e + 1)),
                None => None,
            }
        },
        None => None,
    }
}

/// The string value of the first occurrence of `key`.
pub open spec fn string_of(hay: Seq<u8>, key: Seq<u8>) -> Seq<u8> {
    match find_spec(hay, key) {
        Some(p) => string_value_spec(hay.skip(p + key.len())),
        None => Seq::empty(),
    }
}

/// The string value of the top-level `key`.
pub open spec fn top_string_of(hay: Seq<u8>, key: Seq<u8>) -> Seq<u8> {
    match key_at_depth_spec(hay, key, 1) {
        Some(p) => string_value_spec(hay.skip(p + key.len())),
        None => Seq::empty(),
    }
}

/// The object value of the top-level `key`.
pub open spec fn object_of(hay: Seq<u8>, key: Seq<u8>) -> Option<Seq<u8>> {
    match key_at_depth_spec(hay, key, 1) {
        Some(p) => bracket_value_spec(hay.skip(p + key.len()), 123u8, 125u8),
        None => None,
    }
}

/// The array value of the top-level `key`.
pub open spec fn array_of(hay: Seq<u8>, key: Seq<u8>) -> Option<Seq<u8>> {
    match key_at_depth_spec(hay, key, 1) {
        Some(p) => bracket_value_spec(hay.skip(p + key.len()), 91u8, 93u8),
        None => None,
    }
}

/// An optional value, absent as the empty sequence.
pub open spec fn or_empty(v: Option<Seq<u8>>) -> Seq<u8> {
    match v {
        Some(s) => s,
        None => Seq::empty(),
    }
}

proof fn lemma_skip_gaps_len(s: Seq<u8>)
    ensures
        skip_gaps(s).len() <= s.len(),
    decreases s.len(),
{
    if s.len() > 0 && is_gap(s[0]) {
        lemma_skip_gaps_len(s.drop_first());
    }
}

/// Removes leading spaces, line feeds and tabs.
fn skip_gaps_exec(s: &[u8]) -> (r: &[u8])
    ensures
        r@ == skip_gaps(s@),
{
    let mut i: usize = 0;
    assert(s@.skip(0) =~= s@);
    while i < s.len() && (s[i] == 32u8 || s[i] == 10u8 || s[i] == 9u8)
        invariant
            i <= s.len(),
            skip_gaps(s@) == skip_gaps(s@.skip(i as int)),
        decreases s.len() - i,
    {
        assert(s@.skip(i as int).drop_first() =~= s@.skip(i + 1));
        i = i + 1;
    }
    let r = &s[i..s.len()];
    assert(r@ =~= s@.skip(i as int));
    r
}

/// What follows the first colon, leading gaps removed.
fn after_colon_exec<'a>(s: &'a [u8]) -> (r: Option<&'a [u8]>)
    ensures
        r matches Some(v) ==> after_colon(s@) == Some(v@) && v@.len() <= s@.len(),
        r is None ==> after_colon(s@) is None,
{
    match index_of_byte(s, 58u8) {
        Some(c) => {
            let after = &s[c + 1..s.len()];
            assert(after@ =~= s@.skip(c + 1));
            proof {
                lemma_skip_gaps_len(after@);
            }
            Some(skip_gaps_exec(after))
        },
        None => None,
    }
}

/// The string value after the colon of a key; empty when there is no
/// colon, no opening quote or no closing quote.
pub fn string_value_after<'a>(after_key: &'a [u8]) -> (r: &'a [u8])
    ensures
        r@ == string_value_spec(after_key@),
{
    let empty = &after_key[0..0];
    assert(empty@ =~= Seq::<u8>::empty());
    let rest = match after_colon_exec(after_key) {
        Some(rest) => rest,
        None => return empty,
    };
    if rest.len() == 0 || rest[0] != 34u8 {
        return empty;
    }
    let body = &rest[1..rest.len()];
    assert(body@ =~= rest@.drop_first());
    match index_of_byte(body, 34u8) {
        Some(end) => {
            let v = &body[0..end];
            assert(v@ =~= body@.take(end as int));
            v
        },
        None => empty,
    }
}

fn bracket_value_after<'a>(after_key: &'a [u8], open: u8, close: u8) -> (r: Option<&'a [u8]>)
    requires
        scannable(after_key@),
    ensures
        r matches Some(v) ==> bracket_value_spec(after_key@, open, close) == Some(v@) && v@.len() <= after_key@.len(),
        r is None ==> bracket_value_spec(after_key@, open, close) is None,
{
    let rest = match after_colon_exec(after_key) {
        Some(rest) => rest,
        None => return None,
    };
    if rest.len() == 0 || rest[0] != open {
        return None;
    }
    match balanced_end(rest, open, close) {
        Some(end) => {
            let v = &rest[0..end + 1];
            assert(v@ =~= rest@.take(end + 1));
            Some(v)
        },
        None => None,
    }
}

/// The object after the colon of a key.
pub fn value_object_after<'a>(after_key: &'a [u8]) -> (r: Option<&'a [u8]>)
    requires
        scannable(after_key@),
    ensures
        r matches Some(v) ==> bracket_value_spec(after_key@, 123u8, 125u8) == Some(v@) && v@.len() <= after_key@.len(),
        r is None ==> bracket_value_spec(after_key@, 123u8, 125u8) is None,
{
    bracket_value_after(after_key, 123u8, 125u8)
}

/// The array after the colon of a key.
pub fn value_array_after<'a>(after_key: &'a [u8]) -> (r: Option<&'a [u8]>)
    requires
        scannable(after_key@),
    ensures
        r matches Some(v) ==> bracket_value_spec(after_key@, 91u8, 93u8) == Some(v@) && v@.len() <= after_key@.len(),
        r is None ==> bracket_value_spec(after_key@, 91u8, 93u8) is None,
{
    bracket_value_after(after_key, 91u8, 93u8)
}

/// The object value of the top-level `key` of `hay`.
pub fn object_after_key<'a>(hay: &'a [u8], key: &[u8]) -> (r: Option<&'a [u8]>)
    requires
        scannable(hay@),
        key@.len() > 0,
    ensures
        r matches Some(v) ==> object_of(hay@, key@) == Some(v@) && v@.len() <= hay@.len(),
        r is None ==> object_of(hay@, key@) is None,
{
    let pos = match find_key_at_depth(hay, key, 1) {
        Some(p) => p,
        None => return None,
    };
    let after = &hay[pos + key.len()..hay.len()];
    assert(after@ =~= hay@.skip(pos + key@.len()));
    value_object_after(after)
}

/// The array value of the top-level `key` of `hay`.
pub fn json_array_after_key<'a>(hay: &'a [u8], key: &[u8]) -> (r: Option<&'a [u8]>)
    requires
        scannable(hay@),
        key@.len() > 0,
    ensures
        r matches Some(v) ==> array_of(hay@, key@) == Some(v@) && v@.len() <= hay@.len(),
        r is None ==> array_of(hay@, key@) is None,
{
    let pos = match find_key_at_depth(hay, key, 1) {
        Some(p) => p,
        None => return None,
    };
    let after = &hay[pos + key.len()..hay.len()];
    assert(after@ =~= hay@.skip(pos + key@.len()));
    value_array_after(after)
}

/// The string value of the first occurrence of `key`.
pub fn extract_string<'a>(hay: &'a [u8], key: &[u8]) -> (r: &'a [u8])
    requires
        key@.len() > 0,
    ensures
        r@ == string_of(hay@, key@),
{
    match find(hay, key) {
        Some(pos) => {
            let after = &hay[pos + key.len()..hay.len()];
            assert(after@ =~= hay@.skip(pos + key@.len()));
            string_value_after(after)
        },
        None => {
            let e = &hay[0..0];
            assert(e@ =~= Seq::<u8>::empty());
            e
        },
    }
}

/// The string value of the top-level `key`.
pub fn extract_string_at_depth<'a>(hay: &'a [u8], key: &[u8]) -> (r: &'a [u8])
    requires
        scannable(hay@),
        key@.len() > 0,
    ensures
        r@ == top_string_of(hay@, key@),
{
    match find_key_at_depth(hay, key, 1) {
        Some(pos) => {
            let after = &hay[pos + key.len()..hay.len()];
            assert(after@ =~= hay@.skip(pos + key@.len()));
            string_value_after(after)
        },
        None => {
            let e = &hay[0..0];
            assert(e@ =~= Seq::<u8>::empty());
            e
        },
    }
}

/// `s` without its leading spaces.
pub open spec fn skip_spaces(s: Seq<u8>) -> Seq<u8>
    decreases s.len(),
{
    if s.len() > 0 && s[0] == 32u8 {
        skip_spaces(s.drop_first())
    } else {
        s
    }
}

/// The leading digits of `s`.
pub open spec fn lead_digits(s: Seq<u8>) -> Seq<u8>
    decreases s.len(),
{
    if s.len() > 0 && is_digit(s[0]) {
        seq![s[0]] + lead_digits(s.drop_first())
    } else {
        Seq::empty()
    }
}

/// The value of a digit sequence read left to right, held at `i32::MAX`
/// once it passes it.
pub open spec fn saturated_value(d: Seq<u8>) -> int
    decreases d.len(),
{
    if d.len() == 0 {
        0
    } else {
        let v = saturated_value(d.drop_last()) * 10;
        let m = if v > 0x7fff_ffff { 0x7fff_ffff } else { v };
        let w = m + (d.last() - 48);
        if w > 0x7fff_ffff { 0x7fff_ffff } else { w }
    }
}

/// The integer after the colon of the first `key`: spaces skipped, an
/// optional minus, then the digits, the magnitude held at `i32::MAX`.
pub open spec fn int_of(hay: Seq<u8>, key: Seq<u8>) -> Option<int> {
    match find_spec(hay, key) {
        Some(p) => match index_of(hay.skip(p + key.len()), 58u8) {
            Some(c) => {
                let rest = skip_spaces(hay.skip(p + key.len()).skip(c + 1));
                let neg = rest.len() > 0 && rest[0] == 45u8;
                let digits = lead_digits(if neg { rest.drop_first() } else { rest });
                if digits.len() == 0 {
                    None
                } else if neg {
                    Some(-saturated_value(digits))
                } else {
                    Some(saturated_value(digits))
                }
            },
            None => None,
        },
        None => None,
    }
}

proof fn lemma_lead_digits(s: Seq<u8>, k: int)
    requires
        0 <= k <= s.len(),
        forall|j: int| 0 <= j < k ==> is_digit(#[trigger] s[j]),
    ensures
        lead_digits(s).len() >= k,
        lead_digits(s).take(k) == s.take(k),
        k == s.len() || !is_digit(s[k]) ==> lead_digits(s) == s.take(k),
    decreases k,
{
    if k > 0 {
        assert forall|j: int| 0 <= j < k - 1 implies is_digit(#[trigger] s.drop_first()[j]) by {
            assert(s.drop_first()[j] == s[j + 1]);
        }
        lemma_lead_digits(s.drop_first(), k - 1);
        assert(is_digit(s[0]));
        let l = lead_digits(s.drop_first());
        assert(lead_digits(s) == seq![s[0]] + l);
        assert forall|j: int| 0 <= j < k implies lead_digits(s)[j] == s[j] by {
            if j > 0 {
                assert(lead_digits(s)[j] == l[j - 1]);
                assert(l[j - 1] == l.take(k - 1)[j - 1]);
                assert(s.drop_first().take(k - 1)[j - 1] == s[j]);
            }
        }
        assert(lead_digits(s).take(k) =~= s.take(k));
        if k == s.len() || !is_digit(s[k]) {
            assert(s.drop_first().len() == k - 1 || !is_digit(s.drop_first()[k - 1]));
            assert(lead_digits(s) =~= s.take(k));
        }
    } else {
        assert(s.take(0) =~= Seq::<u8>::empty());
        if s.len() == 0 || !is_digit(s[0]) {
            assert(lead_digits(s) =~= s.take(0));
        }
    }
}

/// The integer after the colon of the first `key`, with the magnitude held
/// at `i32::MAX`; `None` when there is no key, no colon or no digit.
pub fn extract_i32(hay: &[u8], key: &[u8]) -> (r: Option<i32>)
    requires
        key@.len() > 0,
    ensures
        r matches Some(v) ==> int_of(hay@, key@) == Some(v as int),
        r matches Some(v) ==> v > i32::MIN,
        r is None ==> int_of(hay@, key@) is None,
{
    let pos = match find(hay, key) {
        Some(p) => p,
        None => return None,
    };
    let after = &hay[pos + key.len()..hay.len()];
    assert(after@ =~= hay@.skip(pos + key@.len()));
    let colon = match index_of_byte(after, 58u8) {
        Some(c) => c,
        None => return None,
    };
    let mut i = colon + 1;
    assert(after@.skip(i as int) =~= after@.skip(colon + 1));
    while i < after.len() && after[i] == 32u8
        invariant
            colon + 1 <= i <= after@.len(),
            skip_spaces(after@.skip(colon + 1)) == skip_spaces(after@.skip(i as int)),
        decreases after@.len() - i,
    {
        assert(after@.skip(i as int).drop_first() =~= after@.skip(i + 1));
        i = i + 1;
    }
    let ghost rest = after@.skip(i as int);
    proof {
        assert(i < after@.len() ==> rest[0] == after@[i as int]);
        assert(skip_spaces(rest) == rest);
    }
    let mut neg = false;
    if i < after.len() && after[i] == 45u8 {
        neg = true;
        i = i + 1;
    }
    let ghost tail = after@.skip(i as int);
    proof {
        if neg {
            assert(rest.drop_first() =~= tail);
        } else {
            assert(rest =~= tail);
        }
    }
    let start = i;
    let mut val: i32 = 0;
    let mut any = false;
    assert(tail.take(0) =~= Seq::<u8>::empty());
    while i < after.len() && after[i] >= 48u8 && after[i] <= 57u8
        invariant
            start <= i <= after@.len(),
            tail == after@.skip(start as int),
            forall|j: int| 0 <= j < i - start ==> is_digit(#[trigger] tail[j]),
            val as int == saturated_value(tail.take(i - start)),
            0 <= val,
            any == (i > start),
        decreases after@.len() - i,
    {
        let d = (after[i] - 48u8) as i32;
        proof {
            let k = i - start + 1;
            assert(tail.take(k).drop_last() =~= tail.take(k - 1));
            assert(tail.take(k).last() == after@[i as int]);
            assert(tail[i - start] == after@[i as int]);
        }
        let m: i32 = if val > 214748364 { 2147483647 } else { val * 10 };
        proof {
            assert(val > 214748364 ==> val * 10 > 0x7fff_ffff);
        }
        let w: i32 = if m > 2147483647 - d { 2147483647 } else { m + d };
        val = w;
        i = i + 1;
        any = true;
    }
    proof {
        lemma_lead_digits(tail, i - start);
        if i < after@.len() {
            assert(tail[i - start] == after@[i as int]);
        }
    }
    if !any {
        return None;
    }
    Some(if neg { -val } else { val })
}

/// The strings of a JSON array read the simple way: each string is the run
/// of bytes after an opening quote up to the next quote (or the end); at
/// most `max` strings are taken.
pub open spec fn items_from(arr: Seq<u8>, i: int, count: nat, max: nat) -> Seq<Seq<u8>>
    decreases arr.len() + 1 - i,
{
    if i < 0 || i >= arr.len() || count >= max {
        Seq::empty()
    } else if arr[i] == 34u8 {
        proof {
            lemma_index_from_bounds(arr, 34u8, i + 1);
        }
        let end = match index_of_from(arr, 34u8, i + 1) {
            Some(e) => e,
            None => arr.len() as int,
        };
        seq![arr.subrange(i + 1, end)] + items_from(arr, end + 1, count + 1, max)
    } else {
        items_from(arr, i + 1, count, max)
    }
}

/// The first `max` strings of the top-level array under `key`.
pub open spec fn string_array_of(hay: Seq<u8>, key: Seq<u8>, max: nat) -> Seq<Seq<u8>> {
    match array_of(hay, key) {
        Some(arr) => items_from(arr, 0, 0, max),
        None => Seq::empty(),
    }
}

/// The byte strings a vector of slices holds.
pub open spec fn views(v: Seq<&[u8]>) -> Seq<Seq<u8>> {
    Seq::new(v.len(), |j: int| v[j]@)
}

pub proof fn lemma_index_from_bounds(s: Seq<u8>, b: u8, i: int)
    requires
        0 <= i,
    ensures
        index_of_from(s, b, i) matches Some(e) ==> i <= e < s.len() && s[e] == b,
    decreases s.len() - i,
{
    if i < s.len() && s[i] != b {
        lemma_index_from_bounds(s, b, i + 1);
    }
}

/// The first `max` strings of the top-level array under `key` of `hay`.
pub fn parse_string_array<'a>(hay: &'a [u8], key: &[u8], max: usize) -> (r: Vec<&'a [u8]>)
    requires
        scannable(hay@),
        key@.len() > 0,
    ensures
        views(r@) == string_array_of(hay@, key@, max as nat),
{
    let mut out: Vec<&'a [u8]> = Vec::new();
    let arr = match json_array_after_key(hay, key) {
        Some(a) => a,
        None => {
            assert(views(out@) =~= Seq::<Seq<u8>>::empty());
            return out;
        },
    };
    let mut i: usize = 0;
    assert(views(out@) + items_from(arr@, 0, 0, max as nat) =~= items_from(arr@, 0, 0, max as nat));
    while i < arr.len() && out.len() < max
        invariant
            arr@.len() <= 0x7fff_ffff,
            i <= arr@.len() + 1,
            out@.len() <= max,
            views(out@) + items_from(arr@, i as int, out@.len() as nat, max as nat) == items_from(
                arr@,
                0,
                0,
                max as nat,
            ),
        decreases arr@.len() + 1 - i,
    {
        if arr[i] == 34u8 {
            i = i + 1;
            let start = i;
            while i < arr.len() && arr[i] != 34u8
                invariant
                    start <= i <= arr@.len(),
                    index_of_from(arr@, 34u8, start as int) == index_of_from(arr@, 34u8, i as int),
                decreases arr@.len() - i,
            {
                i = i + 1;
            }
            proof {
                lemma_index_from_bounds(arr@, 34u8, start as int);
            }
            let item = &arr[start..i];
            let ghost before = out@;
            out.push(item);
            proof {
                assert(views(out@) =~= views(before) + seq![arr@.subrange(start as int, i as int)]);
            }
        }
        i = i + 1;
    }
    proof {
        assert(items_from(arr@, i as int, out@.len() as nat, max as nat) =~= Seq::<Seq<u8>>::empty());
        assert(views(out@) =~= views(out@) + Seq::<Seq<u8>>::empty());
    }
    out
}

/// `key` wrapped in double quotes.
pub open spec fn quoted(key: Seq<u8>) -> Seq<u8> {
    seq![34u8] + key + seq![34u8]
}

/// The attribute string `key` of an object's `attributes` object.
pub open spec fn attr_string_spec(object: Seq<u8>, key: Seq<u8>) -> Seq<u8> {
    match object_of(object, "\"attributes\"".spec_bytes()) {
        Some(attrs) => if key.len() + 2 > 48 {
            Seq::empty()
        } else {
            string_of(attrs, quoted(key))
        },
        None => Seq::empty(),
    }
}

/// Whether the `attributes` object of `object` spells `"key":true` or
/// `"key": true`.
pub open spec fn attr_bool_spec(object: Seq<u8>, key: Seq<u8>) -> bool {
    match object_of(object, "\"attributes\"".spec_bytes()) {
        Some(attrs) => if key.len() + 8 > 64 {
            false
        } else {
            find_spec(attrs, quoted(key) + seq![58u8] + "true".spec_bytes()) is Some
                || find_spec(attrs, quoted(key) + seq![58u8, 32u8] + "true".spec_bytes()) is Some
        },
        None => false,
    }
}

fn quote_key(key: &[u8]) -> (r: Vec<u8>)
    ensures
        r@ == quoted(key@),
{
    let mut v: Vec<u8> = Vec::new();
    v.push(34u8);
    let mut k: usize = 0;
    while k < key.len()
        invariant
            k <= key@.len(),
            v@ == seq![34u8] + key@.take(k as int),
        decreases key@.len() - k,
    {
        v.push(key[k]);
        k = k + 1;
        assert(v@ =~= seq![34u8] + key@.take(k as int));
    }
    v.push(34u8);
    assert(v@ =~= quoted(key@));
    v
}

fn append(v: &mut Vec<u8>, bytes: &[u8])
    ensures
        final(v)@ == old(v)@ + bytes@,
{
    let ghost o = v@;
    let mut k: usize = 0;
    while k < bytes.len()
        invariant
            k <= bytes@.len(),
            v@ == o + bytes@.take(k as int),
        decreases bytes@.len() - k,
    {
        v.push(bytes[k]);
        k = k + 1;
        assert(v@ =~= o + bytes@.take(k as int));
    }
    assert(bytes@.take(k as int) =~= bytes@);
}

/// The attribute string `key` (given without quotes) of `object`.
pub fn attr_string<'a>(object: &'a [u8], key: &[u8]) -> (r: &'a [u8])
    requires
        scannable(object@),
    ensures
        r@ == attr_string_spec(object@, key@),
{
    proof {
        lemma_keys();
    }
    let empty = &object[0..0];
    assert(empty@ =~= Seq::<u8>::empty());
    let attrs = match object_after_key(object, "\"attributes\"".as_bytes()) {
        Some(a) => a,
        None => return empty,
    };
    if key.len() > 46 {
        return empty;
    }
    let k = quote_key(key);
    extract_string(attrs, k.as_slice())
}

/// Whether the `attributes` object of `object` sets `key` to `true`.
pub fn attr_bool_true(object: &[u8], key: &[u8]) -> (r: bool)
    requires
        scannable(object@),
    ensures
        r == attr_bool_spec(object@, key@),
{
    proof {
        lemma_keys();
    }
    let attrs = match object_after_key(object, "\"attributes\"".as_bytes()) {
        Some(a) => a,
        None => return false,
    };
    if key.len() > 56 {
        return false;
    }
    let mut needle = quote_key(key);
    needle.push(58u8);
    append(&mut needle, "true".as_bytes());
    assert(needle@ =~= quoted(key@) + seq![58u8] + "true".spec_bytes());
    if contains(attrs, needle.as_slice()) {
        return true;
    }
    let mut spaced = quote_key(key);
    spaced.push(58u8);
    spaced.push(32u8);
    append(&mut spaced, "true".as_bytes());
    proof {
        assert(spaced@ =~= quoted(key@) + seq![58u8, 32u8] + "true".spec_bytes());
    }
    contains(attrs, spaced.as_slice())
}

/// The request value a condition operand names, or empty for an unknown
/// path.
pub open spec fn resolve_spec(
    path: Seq<u8>,
    principal_id: Seq<u8>,
    p_tenant: Seq<u8>,
    p_status: Seq<u8>,
    r_owner: Seq<u8>,
    r_tenant: Seq<u8>,
) -> Seq<u8> {
    if path == "principal.id".spec_bytes() {
        principal_id
    } else if path == "principal.attributes.tenant_id".spec_bytes() {
        p_tenant
    } else if path == "principal.attributes.status".spec_bytes() {
        p_status
    } else if path == "resource.owner_id".spec_bytes() {
        r_owner
    } else if path == "resource.attributes.tenant_id".spec_bytes() {
        r_tenant
    } else {
        Seq::empty()
    }
}

/// The request value that a condition operand path names.
pub fn resolve_path<'a>(
    path: &'a [u8],
    principal_id: &'a [u8],
    p_tenant: &'a [u8],
    p_status: &'a [u8],
    r_owner: &'a [u8],
    r_tenant: &'a [u8],
) -> (r: &'a [u8])
    ensures
        r@ == resolve_spec(path@, principal_id@, p_tenant@, p_status@, r_owner@, r_tenant@),
{
    if bytes_eq(path, "principal.id".as_bytes()) {
        principal_id
    } else if bytes_eq(path, "principal.attributes.tenant_id".as_bytes()) {
        p_tenant
    } else if bytes_eq(path, "principal.attributes.status".as_bytes()) {
        p_status
    } else if bytes_eq(path, "resource.owner_id".as_bytes()) {
        r_owner
    } else if bytes_eq(path, "resource.attributes.tenant_id".as_bytes()) {
        r_tenant
    } else {
        let e = &path[0..0];
        assert(e@ =~= Seq::<u8>::empty());
        e
    }
}

proof fn lemma_keys()
    ensures
        "\"attributes\"".spec_bytes().len() > 0,
        "\"principal\"".spec_bytes().len() > 0,
        "\"action\"".spec_bytes().len() > 0,
        "\"resource\"".spec_bytes().len() > 0,
        "\"policy\"".spec_bytes().len() > 0,
        "\"id\"".spec_bytes().len() > 0,
        "\"type\"".spec_bytes().len() > 0,
        "\"rules\"".spec_bytes().len() > 0,
        "\"roles\"".spec_bytes().len() > 0,
        "\"owner_id\"".spec_bytes().len() > 0,
        "\"default_effect\":\"allow\"".spec_bytes().len() > 0,
        "\"default_effect\": \"allow\"".spec_bytes().len() > 0,
        "\"break_glass\"".spec_bytes().len() > 0,
        "\"enabled\":true".spec_bytes().len() > 0,
        "\"enabled\": true".spec_bytes().len() > 0,
        "\"effect\"".spec_bytes().len() > 0,
        "\"priority\"".spec_bytes().len() > 0,
        "\"status\"".spec_bytes().len() > 0,
        "\"tenant_id\"".spec_bytes().len() > 0,
        "\"break_glass\":true".spec_bytes().len() > 0,
        "\"break_glass\": true".spec_bytes().len() > 0,
        "\"condition\"".spec_bytes().len() > 0,
        "\"op\"".spec_bytes().len() > 0,
        "\"left\"".spec_bytes().len() > 0,
        "\"right\"".spec_bytes().len() > 0,
        "\"obligations\"".spec_bytes().len() > 0,
{
    broadcast use vstd::string::group_string_axioms;
    reveal_strlit("\"attributes\"");
    reveal_strlit("\"principal\"");
    reveal_strlit("\"action\"");
    reveal_strlit("\"resource\"");
    reveal_strlit("\"policy\"");
    reveal_strlit("\"id\"");
    reveal_strlit("\"type\"");
    reveal_strlit("\"rules\"");
    reveal_strlit("\"roles\"");
    reveal_strlit("\"owner_id\"");
    reveal_strlit("\"default_effect\":\"allow\"");
    reveal_strlit("\"default_effect\": \"allow\"");
    reveal_strlit("\"break_glass\"");
    reveal_strlit("\"enabled\":true");
    reveal_strlit("\"enabled\": true");
    reveal_strlit("\"effect\"");
    reveal_strlit("\"priority\"");
    reveal_strlit("\"status\"");
    reveal_strlit("\"tenant_id\"");
    reveal_strlit("\"break_glass\":true");
    reveal_strlit("\"break_glass\": true");
    reveal_strlit("\"condition\"");
    reveal_strlit("\"op\"");
    reveal_strlit("\"left\"");
    reveal_strlit("\"right\"");
    reveal_strlit("\"obligations\"");
    assert(vstd::string::is_ascii("\"attributes\""));
    assert(vstd::string::is_ascii("\"principal\""));
    assert(vstd::string::is_ascii("\"action\""));
    assert(vstd::string::is_ascii("\"resource\""));
    assert(vstd::string::is_ascii("\"policy\""));
    assert(vstd::string::is_ascii("\"id\""));
    assert(vstd::string::is_ascii("\"type\""));
    assert(vstd::string::is_ascii("\"rules\""));
    assert(vstd::string::is_ascii("\"roles\""));
    assert(vstd::string::is_ascii("\"owner_id\""));
    assert(vstd::string::is_ascii("\"default_effect\":\"allow\""));
    assert(vstd::string::is_ascii("\"default_effect\": \"allow\""));
    assert(vstd::string::is_ascii("\"break_glass\""));
    assert(vstd::string::is_ascii("\"enabled\":true"));
    assert(vstd::string::is_ascii("\"enabled\": true"));
    assert(vstd::string::is_ascii("\"effect\""));
    assert(vstd::string::is_ascii("\"priority\""));
    assert(vstd::string::is_ascii("\"status\""));
    assert(vstd::string::is_ascii("\"tenant_id\""));
    assert(vstd::string::is_ascii("\"break_glass\":true"));
    assert(vstd::string::is_ascii("\"break_glass\": true"));
    assert(vstd::string::is_ascii("\"condition\""));
    assert(vstd::string::is_ascii("\"op\""));
    assert(vstd::string::is_ascii("\"left\""));
    assert(vstd::string::is_ascii("\"right\""));
    assert(vstd::string::is_ascii("\"obligations\""));
}

/// One rule of a policy, as the parts of the request document it was read
/// from.
#[derive(Clone, Copy)]
pub struct Rule<'a> {
    pub id: &'a [u8],
    pub effect_allow: bool,
    pub priority: i32,
    pub role: &'a [u8],
    pub attr_key: &'a [u8],
    pub attr_val: &'a [u8],
    pub attr_bool_true: bool,
    pub action: &'a [u8],
    pub resource_type: &'a [u8],
    pub cond_op: u8,
    pub cond_left: &'a [u8],
    pub cond_right: &'a [u8],
    pub obligations: &'a [u8],
}

/// A rule as byte strings and values.
pub ghost struct RuleView {
    pub id: Seq<u8>,
    pub effect_allow: bool,
    pub priority: int,
    pub role: Seq<u8>,
    pub attr_key: Seq<u8>,
    pub attr_val: Seq<u8>,
    pub attr_bool_true: bool,
    pub action: Seq<u8>,
    pub resource_type: Seq<u8>,
    pub cond_op: int,
    pub cond_left: Seq<u8>,
    pub cond_right: Seq<u8>,
    pub obligations: Seq<u8>,
}

impl<'a> View for Rule<'a> {
    type V = RuleView;

    open spec fn view(&self) -> RuleView {
        RuleView {
            id: self.id@,
            effect_allow: self.effect_allow,
            priority: self.priority as int,
            role: self.role@,
            attr_key: self.attr_key@,
            attr_val: self.attr_val@,
            attr_bool_true: self.attr_bool_true,
            action: self.action@,
            resource_type: self.resource_type@,
            cond_op: self.cond_op as int,
            cond_left: self.cond_left@,
            cond_right: self.cond_right@,
            obligations: self.obligations@,
        }
    }
}

/// The first string of an array, or empty.
pub open spec fn first_or_empty(items: Seq<Seq<u8>>) -> Seq<u8> {
    if items.len() > 0 { items[0] } else { Seq::empty() }
}

/// The rule that the object `span` spells: the first role and first action
/// listed, one principal attribute (status, else break_glass, else
/// tenant_id), the resource type, an `eq`/`neq` condition and the
/// obligations array (`[]` when absent).
#[verifier::opaque]
pub open spec fn rule_of_span(span: Seq<u8>) -> RuleView {
    let principal = or_empty(object_of(span, "\"principal\"".spec_bytes()));
    let attrs = object_of(principal, "\"attributes\"".spec_bytes());
    let a = or_empty(attrs);
    let has_status = attrs is Some && find_spec(a, "\"status\"".spec_bytes()) is Some;
    let has_bg = attrs is Some && !has_status && find_spec(a, "\"break_glass\"".spec_bytes()) is Some;
    let has_tenant = attrs is Some && !has_status && !has_bg && find_spec(a, "\"tenant_id\"".spec_bytes()) is Some;
    let cond = object_of(span, "\"condition\"".spec_bytes());
    let c = or_empty(cond);
    let op = string_of(c, "\"op\"".spec_bytes());
    RuleView {
        id: string_of(span, "\"id\"".spec_bytes()),
        effect_allow: string_of(span, "\"effect\"".spec_bytes()) == "allow".spec_bytes(),
        priority: match int_of(span, "\"priority\"".spec_bytes()) {
            Some(v) => v,
            None => 0,
        },
        role: first_or_empty(string_array_of(principal, "\"roles\"".spec_bytes(), 1)),
        attr_key: if has_status {
            "status".spec_bytes()
        } else if has_bg {
            "break_glass".spec_bytes()
        } else if has_tenant {
            "tenant_id".spec_bytes()
        } else {
            Seq::empty()
        },
        attr_val: if has_status {
            string_of(a, "\"status\"".spec_bytes())
        } else if has_tenant {
            string_of(a, "\"tenant_id\"".spec_bytes())
        } else {
            Seq::empty()
        },
        attr_bool_true: has_bg && (find_spec(a, "\"break_glass\":true".spec_bytes()) is Some
            || find_spec(a, "\"break_glass\": true".spec_bytes()) is Some),
        action: first_or_empty(string_array_of(span, "\"action\"".spec_bytes(), 1)),
        resource_type: string_of(
            or_empty(object_of(span, "\"resource\"".spec_bytes())),
            "\"type\"".spec_bytes(),
        ),
        cond_op: if cond is Some && op == "eq".spec_bytes() {
            1
        } else if cond is Some && op == "neq".spec_bytes() {
            2
        } else {
            0
        },
        cond_left: string_of(c, "\"left\"".spec_bytes()),
        cond_right: string_of(c, "\"right\"".spec_bytes()),
        obligations: match array_of(span, "\"obligations\"".spec_bytes()) {
            Some(o) => o,
            None => "[]".spec_bytes(),
        },
    }
}

/// Reads the rule that the object `span` spells.
fn rule_from_span<'a>(span: &'a [u8]) -> (r: Rule<'a>)
    requires
        scannable(span@),
    ensures
        r@ == rule_of_span(span@),
        r.priority > i32::MIN,
{
    proof {
        lemma_keys();
        reveal(rule_of_span);
    }
    let empty = &span[0..0];
    assert(empty@ =~= Seq::<u8>::empty());
    let id = extract_string(span, "\"id\"".as_bytes());
    let effect = extract_string(span, "\"effect\"".as_bytes());
    let priority = match extract_i32(span, "\"priority\"".as_bytes()) {
        Some(v) => v,
        None => 0,
    };
    let principal = match object_after_key(span, "\"principal\"".as_bytes()) {
        Some(p) => p,
        None => empty,
    };
    let mut role: &[u8] = empty;
    let roles_tmp = parse_string_array(principal, "\"roles\"".as_bytes(), 1);
    if roles_tmp.len() > 0 {
        role = roles_tmp[0];
        proof {
            assert(views(roles_tmp@)[0] == roles_tmp@[0]@);
        }
    }
    let mut attr_key: &[u8] = empty;
    let mut attr_val: &[u8] = empty;
    let mut attr_bool = false;
    let attrs_opt = object_after_key(principal, "\"attributes\"".as_bytes());
    if let Some(attrs) = attrs_opt {
        if contains(attrs, "\"status\"".as_bytes()) {
            attr_key = "status".as_bytes();
            attr_val = extract_string(attrs, "\"status\"".as_bytes());
        } else if contains(attrs, "\"break_glass\"".as_bytes()) {
            attr_key = "break_glass".as_bytes();
            attr_bool = contains(attrs, "\"break_glass\":true".as_bytes())
                || contains(attrs, "\"break_glass\": true".as_bytes());
        } else if contains(attrs, "\"tenant_id\"".as_bytes()) {
            attr_key = "tenant_id".as_bytes();
            attr_val = extract_string(attrs, "\"tenant_id\"".as_bytes());
        }
    }
    let mut action: &[u8] = empty;
    let actions = parse_string_array(span, "\"action\"".as_bytes(), 1);
    if actions.len() > 0 {
        action = actions[0];
        proof {
            assert(views(actions@)[0] == actions@[0]@);
        }
    }
    let resource = match object_after_key(span, "\"resource\"".as_bytes()) {
        Some(r) => r,
        None => empty,
    };
    let resource_type = extract_string(resource, "\"type\"".as_bytes());
    let mut cond_op: u8 = 0;
    let mut cond_left: &[u8] = empty;
    let mut cond_right: &[u8] = empty;
    if let Some(cond) = object_after_key(span, "\"condition\"".as_bytes()) {
        let op = extract_string(cond, "\"op\"".as_bytes());
        cond_left = extract_string(cond, "\"left\"".as_bytes());
        cond_right = extract_string(cond, "\"right\"".as_bytes());
        cond_op = if bytes_eq(op, "eq".as_bytes()) {
            1
        } else if bytes_eq(op, "neq".as_bytes()) {
            2
        } else {
            0
        };
    } else {
        proof {
            assert(string_of(Seq::<u8>::empty(), "\"left\"".spec_bytes()) =~= Seq::<u8>::empty());
            assert(string_of(Seq::<u8>::empty(), "\"right\"".spec_bytes()) =~= Seq::<u8>::empty());
        }
    }
    let obligations = match json_array_after_key(span, "\"obligations\"".as_bytes()) {
        Some(o) => o,
        None => "[]".as_bytes(),
    };
    let r = Rule {
        id,
        effect_allow: bytes_eq(effect, "allow".as_bytes()),
        priority,
        role,
        attr_key,
        attr_val,
        attr_bool_true: attr_bool,
        action,
        resource_type,
        cond_op,
        cond_left,
        cond_right,
        obligations,
    };
    proof {
        assert(r@ =~= rule_of_span(span@));
    }
    r
}

/// The rules read from a rules array, scanning from index `i` with `count`
/// rules read so far: each top-level object is a rule (kept when it has an
/// id), at most sixteen are read, and an unterminated object ends the scan.
pub open spec fn rules_from(arr: Seq<u8>, i: int, count: nat) -> Seq<RuleView>
    decreases arr.len() + 1 - i,
{
    if i < 0 || i >= arr.len() || count >= 16 {
        Seq::empty()
    } else if arr[i] != 123u8 {
        rules_from(arr, i + 1, count)
    } else {
        match balanced_spec(arr.skip(i), 123u8, 125u8) {
            None => Seq::empty(),
            Some(e) => {
                let r = rule_of_span(arr.subrange(i, i + e + 1));
                if e < 0 || i + e + 1 > arr.len() {
                    Seq::empty()
                } else if r.id.len() > 0 {
                    seq![r] + rules_from(arr, i + e + 1, count + 1)
                } else {
                    rules_from(arr, i + e + 1, count)
                }
            },
        }
    }
}

/// The rules of a policy object.
pub open spec fn policy_rules(policy: Seq<u8>) -> Seq<RuleView> {
    match array_of(policy, "\"rules\"".spec_bytes()) {
        Some(arr) => rules_from(arr, 0, 0),
        None => Seq::empty(),
    }
}

/// The rules of a vector.
pub open spec fn rule_views(v: Seq<Rule>) -> Seq<RuleView> {
    Seq::new(v.len(), |j: int| v[j]@)
}

/// Reads the rules of the policy object `policy`.
pub fn parse_rules<'a>(policy: &'a [u8]) -> (r: Vec<Rule<'a>>)
    requires
        scannable(policy@),
    ensures
        rule_views(r@) == policy_rules(policy@),
        r@.len() <= 16,
        forall|j: int| 0 <= j < r@.len() ==> r@[j].priority > i32::MIN,
{
    proof {
        lemma_keys();
    }
    let mut rules: Vec<Rule<'a>> = Vec::new();
    let arr = match json_array_after_key(policy, "\"rules\"".as_bytes()) {
        Some(a) => a,
        None => {
            assert(rule_views(rules@) =~= Seq::<RuleView>::empty());
            return rules;
        },
    };
    let mut i: usize = 0;
    assert(rule_views(rules@) + rules_from(arr@, 0, 0) =~= rules_from(arr@, 0, 0));
    while i < arr.len() && rules.len() < 16
        invariant
            arr@.len() <= 0x7fff_ffff,
            i <= arr@.len(),
            rules@.len() <= 16,
            forall|j: int| 0 <= j < rules@.len() ==> rules@[j].priority > i32::MIN,
            rule_views(rules@) + rules_from(arr@, i as int, rules@.len() as nat) == rules_from(
                arr@,
                0,
                0,
            ),
        decreases arr@.len() - i,
    {
        if arr[i] != 123u8 {
            i = i + 1;
        } else {
            let rest = &arr[i..arr.len()];
            assert(rest@ =~= arr@.skip(i as int));
            match balanced_end(rest, 123u8, 125u8) {
                None => {
                    i = arr.len();
                },
                Some(end) => {
                    let span = &arr[i..i + end + 1];
                    let rule = rule_from_span(span);
                    if rule.id.len() > 0 {
                        let ghost before = rules@;
                        rules.push(rule);
                        assert(rule_views(rules@) =~= rule_views(before) + seq![rule@]);
                    }
                    i = i + end + 1;
                },
            }
        }
    }
    proof {
        assert(rules_from(arr@, i as int, rules@.len() as nat) =~= Seq::<RuleView>::empty());
        assert(rule_views(rules@) + Seq::<RuleView>::empty() =~= rule_views(rules@));
    }
    rules
}

/// Whether `rule` applies to the request: every constraint it names (role,
/// principal attribute, action, resource type, condition) holds.
pub open spec fn rule_matches_spec(
    rule: RuleView,
    action: Seq<u8>,
    resource_type: Seq<u8>,
    principal_id: Seq<u8>,
    roles: Seq<Seq<u8>>,
    p_tenant: Seq<u8>,
    p_status: Seq<u8>,
    p_break: bool,
    r_owner: Seq<u8>,
    r_tenant: Seq<u8>,
) -> bool {
    let left = resolve_spec(rule.cond_left, principal_id, p_tenant, p_status, r_owner, r_tenant);
    let right = resolve_spec(rule.cond_right, principal_id, p_tenant, p_status, r_owner, r_tenant);
    &&& (rule.role.len() == 0 || roles.contains(rule.role))
    &&& (rule.attr_key.len() == 0 || if rule.attr_bool_true {
        rule.attr_key == "break_glass".spec_bytes() && p_break
    } else if rule.attr_key == "status".spec_bytes() {
        p_status == rule.attr_val
    } else if rule.attr_key == "tenant_id".spec_bytes() {
        p_tenant == rule.attr_val
    } else {
        false
    })
    &&& (rule.action.len() == 0 || rule.action == action)
    &&& (rule.resource_type.len() == 0 || rule.resource_type == resource_type)
    &&& (rule.cond_op == 1 ==> left == right)
    &&& (rule.cond_op == 2 ==> left != right)
}

/// Whether `rule` applies to the request.
pub fn rule_matches(
    rule: &Rule,
    action: &[u8],
    resource_type: &[u8],
    principal_id: &[u8],
    roles: &[&[u8]],
    p_tenant: &[u8],
    p_status: &[u8],
    p_break: bool,
    r_owner: &[u8],
    r_tenant: &[u8],
) -> (r: bool)
    ensures
        r == rule_matches_spec(
            rule@,
            action@,
            resource_type@,
            principal_id@,
            views(roles@),
            p_tenant@,
            p_status@,
            p_break,
            r_owner@,
            r_tenant@,
        ),
{
    if rule.role.len() != 0 {
        let mut ok = false;
        let mut k: usize = 0;
        while k < roles.len()
            invariant
                k <= roles@.len(),
                ok == exists|j: int| 0 <= j < k && roles@[j]@ == rule.role@,
            decreases roles@.len() - k,
        {
            if bytes_eq(roles[k], rule.role) {
                ok = true;
            }
            k = k + 1;
        }
        proof {
            if ok {
                let j = choose|j: int| 0 <= j < k && roles@[j]@ == rule.role@;
                assert(views(roles@)[j] == rule.role@);
            } else {
                if views(roles@).contains(rule.role@) {
                    let j = choose|j: int| 0 <= j < views(roles@).len() && views(roles@)[j] == rule.role@;
                    assert(roles@[j]@ == rule.role@);
                }
            }
        }
        if !ok {
            return false;
        }
    }
    if rule.attr_key.len() != 0 {
        if rule.attr_bool_true {
            if bytes_eq(rule.attr_key, "break_glass".as_bytes()) {
                if !p_break {
                    return false;
                }
            } else {
                return false;
            }
        } else if bytes_eq(rule.attr_key, "status".as_bytes()) {
            if !bytes_eq(p_status, rule.attr_val) {
                return false;
            }
        } else if bytes_eq(rule.attr_key, "tenant_id".as_bytes()) {
            if !bytes_eq(p_tenant, rule.attr_val) {
                return false;
            }
        } else {
            return false;
        }
    }
    if rule.action.len() != 0 && !bytes_eq(rule.action, action) {
        return false;
    }
    if rule.resource_type.len() != 0 && !bytes_eq(rule.resource_type, resource_type) {
        return false;
    }
    if rule.cond_op != 0 {
        let left = resolve_path(rule.cond_left, principal_id, p_tenant, p_status, r_owner, r_tenant);
        let right = resolve_path(rule.cond_right, principal_id, p_tenant, p_status, r_owner, r_tenant);
        let eq = bytes_eq(left, right);
        if rule.cond_op == 1 && !eq {
            return false;
        }
        if rule.cond_op == 2 && eq {
            return false;
        }
    }
    true
}


/// The FNV-1a hash of `bytes` as sixteen lowercase hex digits.
pub fn fnv_hex(bytes: &[u8]) -> (r: [u8; 16])
    ensures
        r@ == hex16(fnv_state(bytes@)),
{
    hex_digits(fnv1a64(bytes))
}

/// Copies the decimal spelling of `v` at `at`, sign and digits each landing
/// only where it fits.
pub fn copy_i32(out: &mut [u8], at: usize, v: i32) -> (r: usize)
    requires
        v > i32::MIN,
    ensures
        (final(out)@, r as int) == copies(old(out)@, at as int, signed_chunks(v as int)),
{
    copy_signed(out, at, v as i64)
}

/// The chunks of the matched-rules array for `rule`.
pub open spec fn matched_chunks(rule: RuleView) -> Seq<Seq<u8>> {
    seq![
        "[{\"rule_id\":\"".spec_bytes(),
        rule.id,
        "\",\"effect\":\"".spec_bytes(),
        if rule.effect_allow { "allow".spec_bytes() } else { "deny".spec_bytes() },
        "\",\"priority\":".spec_bytes(),
    ] + signed_chunks(rule.priority) + seq!["}]".spec_bytes()]
}

/// Writes the matched-rules array for `rule` at the start of `buf`, each
/// piece landing only where it fits.
pub fn format_matched(buf: &mut [u8], rule: &Rule) -> (r: usize)
    requires
        rule.priority > i32::MIN,
    ensures
        (final(buf)@, r as int) == copies(old(buf)@, 0, matched_chunks(rule@)),
{
    let ghost o = buf@;
    let ghost mut ch = Seq::<Seq<u8>>::empty();
    let l1 = "[{\"rule_id\":\"".as_bytes();
    let mut i = copy_next(buf, 0, l1, Ghost(o), Ghost(0), Ghost(ch));
    proof { ch = ch.push(l1@); }
    i = copy_next(buf, i, rule.id, Ghost(o), Ghost(0), Ghost(ch));
    proof { ch = ch.push(rule.id@); }
    let l2 = "\",\"effect\":\"".as_bytes();
    i = copy_next(buf, i, l2, Ghost(o), Ghost(0), Ghost(ch));
    proof { ch = ch.push(l2@); }
    let eff = if rule.effect_allow {
        "allow".as_bytes()
    } else {
        "deny".as_bytes()
    };
    i = copy_next(buf, i, eff, Ghost(o), Ghost(0), Ghost(ch));
    proof { ch = ch.push(eff@); }
    let l3 = "\",\"priority\":".as_bytes();
    i = copy_next(buf, i, l3, Ghost(o), Ghost(0), Ghost(ch));
    proof {
        ch = ch.push(l3@);
        lemma_copies_concat(o, 0, ch, signed_chunks(rule.priority as int));
    }
    i = copy_i32(buf, i, rule.priority);
    proof { ch = ch + signed_chunks(rule.priority as int); }
    let l4 = "}]".as_bytes();
    i = copy_next(buf, i, l4, Ghost(o), Ghost(0), Ghost(ch));
    proof {
        ch = ch.push(l4@);
        assert(ch =~= matched_chunks(rule@));
    }
    i
}

/// The chunks of a decision document.
pub open spec fn result_chunks(
    decision: Seq<u8>,
    reason: Seq<u8>,
    reason_code: Seq<u8>,
    matched_rules: Seq<u8>,
    obligations: Seq<u8>,
    trace: Seq<u8>,
    policy_hash: Option<Seq<u8>>,
    break_glass_used: bool,
) -> Seq<Seq<u8>> {
    seq![
        "{\"decision\":\"".spec_bytes(),
        decision,
        "\",\"reason\":\"".spec_bytes(),
        reason,
        "\",\"reason_code\":\"".spec_bytes(),
        reason_code,
        "\",\"matched_rules\":".spec_bytes(),
        matched_rules,
        ",\"obligations\":".spec_bytes(),
        obligations,
        ",\"evaluation_trace\":".spec_bytes(),
        trace,
        ",\"policy_hash\":".spec_bytes(),
    ] + match policy_hash {
        Some(h) => seq!["\"fnv1a64:".spec_bytes(), h, "\"".spec_bytes()],
        None => seq!["null".spec_bytes()],
    } + seq![
        ",\"confidence\":\"high\",\"break_glass_used\":".spec_bytes(),
        if break_glass_used { "true".spec_bytes() } else { "false".spec_bytes() },
        "}".spec_bytes(),
    ]
}

/// Writes a decision document at the start of `out`, each piece landing
/// only where it fits whole.
pub fn write_result(
    out: &mut [u8],
    decision: &[u8],
    reason: &[u8],
    reason_code: &[u8],
    matched_rules: &[u8],
    obligations: &[u8],
    trace: &[u8],
    policy_hash: Option<&[u8]>,
    break_glass_used: bool,
) -> (r: usize)
    ensures
        ({
            let chunks = result_chunks(
                decision@,
                reason@,
                reason_code@,
                matched_rules@,
                obligations@,
                trace@,
                match policy_hash {
                    Some(h) => Some(h@),
                    None => None,
                },
                break_glass_used,
            );
            &&& (final(out)@, r as int) == copies(old(out)@, 0, chunks)
            &&& holds_greedy(final(out)@, r as int, chunks)
        }),
        final(out)@.len() == old(out)@.len(),
{
    let ghost o = out@;
    let ghost mut ch = Seq::<Seq<u8>>::empty();
    let l = "{\"decision\":\"".as_bytes();
    let mut i = copy_next(out, 0, l, Ghost(o), Ghost(0), Ghost(ch));
    proof { ch = ch.push(l@); }
    i = copy_next(out, i, decision, Ghost(o), Ghost(0), Ghost(ch));
    proof { ch = ch.push(decision@); }
    let l = "\",\"reason\":\"".as_bytes();
    i = copy_next(out, i, l, Ghost(o), Ghost(0), Ghost(ch));
    proof { ch = ch.push(l@); }
    i = copy_next(out, i, reason, Ghost(o), Ghost(0), Ghost(ch));
    proof { ch = ch.push(reason@); }
    let l = "\",\"reason_code\":\"".as_bytes();
    i = copy_next(out, i, l, Ghost(o), Ghost(0), Ghost(ch));
    proof { ch = ch.push(l@); }
    i = copy_next(out, i, reason_code, Ghost(o), Ghost(0), Ghost(ch));
    proof { ch = ch.push(reason_code@); }
    let l = "\",\"matched_rules\":".as_bytes();
    i = copy_next(out, i, l, Ghost(o), Ghost(0), Ghost(ch));
    proof { ch = ch.push(l@); }
    i = copy_next(out, i, matched_rules, Ghost(o), Ghost(0), Ghost(ch));
    proof { ch = ch.push(matched_rules@); }
    let l = ",\"obligations\":".as_bytes();
    i = copy_next(out, i, l, Ghost(o), Ghost(0), Ghost(ch));
    proof { ch = ch.push(l@); }
    i = copy_next(out, i, obligations, Ghost(o), Ghost(0), Ghost(ch));
    proof { ch = ch.push(obligations@); }
    let l = ",\"evaluation_trace\":".as_bytes();
    i = copy_next(out, i, l, Ghost(o), Ghost(0), Ghost(ch));
    proof { ch = ch.push(l@); }
    i = copy_next(out, i, trace, Ghost(o), Ghost(0), Ghost(ch));
    proof { ch = ch.push(trace@); }
    let l = ",\"policy_hash\":".as_bytes();
    i = copy_next(out, i, l, Ghost(o), Ghost(0), Ghost(ch));
    proof { ch = ch.push(l@); }
    match policy_hash {
        Some(h) => {
            let l = "\"fnv1a64:".as_bytes();
            i = copy_next(out, i, l, Ghost(o), Ghost(0), Ghost(ch));
            proof { ch = ch.push(l@); }
            i = copy_next(out, i, h, Ghost(o), Ghost(0), Ghost(ch));
            proof { ch = ch.push(h@); }
            let l = "\"".as_bytes();
            i = copy_next(out, i, l, Ghost(o), Ghost(0), Ghost(ch));
            proof { ch = ch.push(l@); }
        },
        None => {
            let l = "null".as_bytes();
            i = copy_next(out, i, l, Ghost(o), Ghost(0), Ghost(ch));
            proof { ch = ch.push(l@); }
        },
    }
    let l = ",\"confidence\":\"high\",\"break_glass_used\":".as_bytes();
    i = copy_next(out, i, l, Ghost(o), Ghost(0), Ghost(ch));
    proof { ch = ch.push(l@); }
    let b = if break_glass_used {
        "true".as_bytes()
    } else {
        "false".as_bytes()
    };
    i = copy_next(out, i, b, Ghost(o), Ghost(0), Ghost(ch));
    proof { ch = ch.push(b@); }
    let l = "}".as_bytes();
    i = copy_next(out, i, l, Ghost(o), Ghost(0), Ghost(ch));
    proof {
        ch = ch.push(l@);
        let hv = match policy_hash {
            Some(h) => Some(h@),
            None => None,
        };
        assert(ch =~= result_chunks(
            decision@,
            reason@,
            reason_code@,
            matched_rules@,
            obligations@,
            trace@,
            hv,
            break_glass_used,
        ));
        lemma_holds_greedy_start(o);
        lemma_copies_greedy(o, 0, Seq::empty(), ch);
        assert(Seq::<Seq<u8>>::empty() + ch =~= ch);
    }
    i
}


/// The parts of a request that rules are matched against.
pub ghost struct Request {
    pub principal_id: Seq<u8>,
    pub action: Seq<u8>,
    pub resource_type: Seq<u8>,
    pub roles: Seq<Seq<u8>>,
    pub p_tenant: Seq<u8>,
    pub p_status: Seq<u8>,
    pub p_break: bool,
    pub r_owner: Seq<u8>,
    pub r_tenant: Seq<u8>,
}

/// The principal object of a request (empty when absent).
pub open spec fn principal_of(input: Seq<u8>) -> Seq<u8> {
    or_empty(object_of(input, "\"principal\"".spec_bytes()))
}

/// The resource object of a request (empty when absent).
pub open spec fn resource_of(input: Seq<u8>) -> Seq<u8> {
    or_empty(object_of(input, "\"resource\"".spec_bytes()))
}

/// The policy object of a request (empty when absent).
pub open spec fn policy_of(input: Seq<u8>) -> Seq<u8> {
    or_empty(object_of(input, "\"policy\"".spec_bytes()))
}

/// What the rules of a request are matched against: the principal's id, up
/// to eight roles and its attributes, the top-level action, the resource's
/// type, owner and tenant.
pub open spec fn request_of(input: Seq<u8>) -> Request {
    let principal = principal_of(input);
    let resource = resource_of(input);
    Request {
        principal_id: string_of(principal, "\"id\"".spec_bytes()),
        action: top_string_of(input, "\"action\"".spec_bytes()),
        resource_type: string_of(resource, "\"type\"".spec_bytes()),
        roles: string_array_of(principal, "\"roles\"".spec_bytes(), 8),
        p_tenant: attr_string_spec(principal, "tenant_id".spec_bytes()),
        p_status: attr_string_spec(principal, "status".spec_bytes()),
        p_break: attr_bool_spec(principal, "break_glass".spec_bytes()),
        r_owner: string_of(resource, "\"owner_id\"".spec_bytes()),
        r_tenant: attr_string_spec(resource, "tenant_id".spec_bytes()),
    }
}

/// Whether `rule` applies to the request `q`.
pub open spec fn applies(rule: RuleView, q: Request) -> bool {
    rule_matches_spec(
        rule,
        q.action,
        q.resource_type,
        q.principal_id,
        q.roles,
        q.p_tenant,
        q.p_status,
        q.p_break,
        q.r_owner,
        q.r_tenant,
    )
}

/// Among the first `k` rules, the index of the first applying rule of
/// highest priority.
pub open spec fn best_rule(rules: Seq<RuleView>, q: Request, k: int) -> Option<int>
    decreases k,
{
    if k <= 0 {
        None
    } else {
        let b = best_rule(rules, q, k - 1);
        if applies(rules[k - 1], q) && (b is None || rules[k - 1].priority > rules[b->0].priority) {
            Some(k - 1)
        } else {
            b
        }
    }
}

/// Whether the policy's default effect is allow.
pub open spec fn default_allows(policy: Seq<u8>) -> bool {
    find_spec(policy, "\"default_effect\":\"allow\"".spec_bytes()) is Some
        || find_spec(policy, "\"default_effect\": \"allow\"".spec_bytes()) is Some
}

/// Whether the policy enables break-glass overrides.
pub open spec fn break_glass_enabled(policy: Seq<u8>) -> bool {
    match object_of(policy, "\"break_glass\"".spec_bytes()) {
        Some(bg) => find_spec(bg, "\"enabled\":true".spec_bytes()) is Some || find_spec(
            bg,
            "\"enabled\": true".spec_bytes(),
        ) is Some,
        None => false,
    }
}

/// The chunks of a refusal with no matched rule and no obligations.
pub open spec fn deny_chunks(reason: Seq<u8>, code: Seq<u8>, trace: Seq<u8>, hash: Option<Seq<u8>>) -> Seq<Seq<u8>> {
    result_chunks("deny".spec_bytes(), reason, code, "[]".spec_bytes(), "[]".spec_bytes(), trace, hash, false)
}

/// The chunks of the decision document for the request `input`.
pub open spec fn authorize_chunks(input: Seq<u8>) -> Seq<Seq<u8>> {
    let q = request_of(input);
    let policy = policy_of(input);
    if q.principal_id.len() == 0 {
        deny_chunks(
            "principal.id is required but missing".spec_bytes(),
            "invalid_principal".spec_bytes(),
            "[\"precondition failed: principal.id missing\"]".spec_bytes(),
            None,
        )
    } else if q.action.len() == 0 {
        deny_chunks(
            "action is required but missing".spec_bytes(),
            "invalid_action".spec_bytes(),
            "[\"precondition failed: action missing\"]".spec_bytes(),
            None,
        )
    } else if q.resource_type.len() == 0 {
        deny_chunks(
            "resource.type is required but missing".spec_bytes(),
            "invalid_resource".spec_bytes(),
            "[\"precondition failed: resource.type missing\"]".spec_bytes(),
            None,
        )
    } else if policy.len() == 0 || find_spec(policy, "\"rules\"".spec_bytes()) is None {
        deny_chunks(
            "policy is missing or invalid".spec_bytes(),
            "empty_or_invalid_policy".spec_bytes(),
            "[\"precondition failed: policy structure invalid\"]".spec_bytes(),
            None,
        )
    } else {
        ruled_chunks(policy, q)
    }
}

/// The chunks of the decision document once the request has passed its
/// checks: decided by the rules of `policy`, or by its default effect.
#[verifier::opaque]
pub open spec fn ruled_chunks(policy: Seq<u8>, q: Request) -> Seq<Seq<u8>> {
    let rules = policy_rules(policy);
    let hash = Some(hex16(fnv_state(policy)));
    if rules.len() == 0 {
        deny_chunks(
            "Policy contains no rules and default_effect=deny".spec_bytes(),
            "empty_or_invalid_policy".spec_bytes(),
            "[\"policy.rules length = 0\",\"default_effect=deny applied\"]".spec_bytes(),
            hash,
        )
    } else {
        match best_rule(rules, q, rules.len() as int) {
            Some(b) => rule_result_chunks(rules[b], hex16(fnv_state(policy)), break_glass_enabled(policy) && q.p_break),
            None => default_result_chunks(default_allows(policy), hex16(fnv_state(policy))),
        }
    }
}

/// The chunks of a decision that follows `rule`; `bg` is whether the policy
/// enables break-glass and the principal carries it.
pub open spec fn rule_result_chunks(rule: RuleView, hash: Seq<u8>, bg: bool) -> Seq<Seq<u8>> {
    let matched = greedy(160, matched_chunks(rule));
    let used = bg && rule.effect_allow;
    if rule.effect_allow {
        result_chunks(
            "allow".spec_bytes(),
            if used {
                "Break-glass override matched".spec_bytes()
            } else {
                "Matched allow rule".spec_bytes()
            },
            if used {
                "break_glass_override".spec_bytes()
            } else {
                "matched_allow_rule".spec_bytes()
            },
            matched,
            rule.obligations,
            "[\"rule matched -> allow\"]".spec_bytes(),
            Some(hash),
            used,
        )
    } else {
        result_chunks(
            "deny".spec_bytes(),
            "Matched high-priority deny rule".spec_bytes(),
            "matched_deny_rule".spec_bytes(),
            matched,
            "[]".spec_bytes(),
            "[\"rule matched -> deny\"]".spec_bytes(),
            Some(hash),
            false,
        )
    }
}

/// The chunks of a decision by the policy's default effect.
pub open spec fn default_result_chunks(allow: bool, hash: Seq<u8>) -> Seq<Seq<u8>> {
    if allow {
        result_chunks(
            "allow".spec_bytes(),
            "No matching rule; default_effect=allow".spec_bytes(),
            "no_matching_rule".spec_bytes(),
            "[]".spec_bytes(),
            "[]".spec_bytes(),
            "[\"evaluated rules, none matched\",\"falling back to default_effect=allow\"]".spec_bytes(),
            Some(hash),
            false,
        )
    } else {
        deny_chunks(
            "No matching rule; default_effect=deny".spec_bytes(),
            "no_matching_rule".spec_bytes(),
            "[\"evaluated rules, none matched\",\"falling back to default_effect=deny\"]".spec_bytes(),
            Some(hash),
        )
    }
}

/// The index of the first applying rule of highest priority among `rules`.
fn select_best(
    rules: &Vec<Rule>,
    action: &[u8],
    resource_type: &[u8],
    principal_id: &[u8],
    roles: &[&[u8]],
    p_tenant: &[u8],
    p_status: &[u8],
    p_break: bool,
    r_owner: &[u8],
    r_tenant: &[u8],
    Ghost(q): Ghost<Request>,
) -> (r: Option<usize>)
    requires
        q == (Request {
            principal_id: principal_id@,
            action: action@,
            resource_type: resource_type@,
            roles: views(roles@),
            p_tenant: p_tenant@,
            p_status: p_status@,
            p_break,
            r_owner: r_owner@,
            r_tenant: r_tenant@,
        }),
    ensures
        match r {
            Some(b) => best_rule(rule_views(rules@), q, rules@.len() as int) == Some(b as int),
            None => best_rule(rule_views(rules@), q, rules@.len() as int) is None,
        },
        r matches Some(b) ==> b < rules@.len(),
{
    let ghost rv = rule_views(rules@);
    let mut best: Option<usize> = None;
    let mut k: usize = 0;
    while k < rules.len()
        invariant
            k <= rules@.len(),
            rv == rule_views(rules@),
            q == (Request {
                principal_id: principal_id@,
                action: action@,
                resource_type: resource_type@,
                roles: views(roles@),
                p_tenant: p_tenant@,
                p_status: p_status@,
                p_break,
                r_owner: r_owner@,
                r_tenant: r_tenant@,
            }),
            match best {
                Some(b) => best_rule(rv, q, k as int) == Some(b as int) && b < k,
                None => best_rule(rv, q, k as int) is None,
            },
        decreases rules@.len() - k,
    {
        let m = rule_matches(
            &rules[k],
            action,
            resource_type,
            principal_id,
            roles,
            p_tenant,
            p_status,
            p_break,
            r_owner,
            r_tenant,
        );
        proof {
            assert(rv[k as int] == rules@[k as int]@);
        }
        if m {
            match best {
                None => {
                    best = Some(k);
                },
                Some(b) => {
                    if rules[k].priority > rules[b].priority {
                        best = Some(k);
                    }
                    proof {
                        assert(rv[b as int] == rules@[b as int]@);
                    }
                },
            }
        }
        k = k + 1;
    }
    best
}

/// Decides the request in `input` against its policy and writes the
/// decision document to `out`; returns its length. Each piece of the
/// document lands only where it fits whole.
#[verifier::rlimit(60)]
#[verifier::spinoff_prover]
pub fn authorize(input: &[u8], out: &mut [u8]) -> (r: usize)
    requires
        scannable(input@),
    ensures
        holds_greedy(final(out)@, r as int, authorize_chunks(input@)),
        final(out)@.len() == old(out)@.len(),
{
    proof {
        lemma_keys();
    }
    let empty = &input[0..0];
    assert(empty@ =~= Seq::<u8>::empty());
    let principal = match object_after_key(input, "\"principal\"".as_bytes()) {
        Some(p) => p,
        None => empty,
    };
    let action = extract_string_at_depth(input, "\"action\"".as_bytes());
    let resource = match object_after_key(input, "\"resource\"".as_bytes()) {
        Some(p) => p,
        None => empty,
    };
    let policy = match object_after_key(input, "\"policy\"".as_bytes()) {
        Some(p) => p,
        None => empty,
    };
    let principal_id = extract_string(principal, "\"id\"".as_bytes());
    let nil = "[]".as_bytes();
    if principal_id.len() == 0 {
        return write_result(
            out,
            "deny".as_bytes(),
            "principal.id is required but missing".as_bytes(),
            "invalid_principal".as_bytes(),
            nil,
            nil,
            "[\"precondition failed: principal.id missing\"]".as_bytes(),
            None,
            false,
        );
    }
    if action.len() == 0 {
        return write_result(
            out,
            "deny".as_bytes(),
            "action is required but missing".as_bytes(),
            "invalid_action".as_bytes(),
            nil,
            nil,
            "[\"precondition failed: action missing\"]".as_bytes(),
            None,
            false,
        );
    }
    let resource_type = extract_string(resource, "\"type\"".as_bytes());
    if resource_type.len() == 0 {
        return write_result(
            out,
            "deny".as_bytes(),
            "resource.type is required but missing".as_bytes(),
            "invalid_resource".as_bytes(),
            nil,
            nil,
            "[\"precondition failed: resource.type missing\"]".as_bytes(),
            None,
            false,
        );
    }
    if policy.len() == 0 || !contains(policy, "\"rules\"".as_bytes()) {
        return write_result(
            out,
            "deny".as_bytes(),
            "policy is missing or invalid".as_bytes(),
            "empty_or_invalid_policy".as_bytes(),
            nil,
            nil,
            "[\"precondition failed: policy structure invalid\"]".as_bytes(),
            None,
            false,
        );
    }
    let roles = parse_string_array(principal, "\"roles\"".as_bytes(), 8);
    let p_tenant = attr_string(principal, "tenant_id".as_bytes());
    let p_status = attr_string(principal, "status".as_bytes());
    let p_break = attr_bool_true(principal, "break_glass".as_bytes());
    let r_owner = extract_string(resource, "\"owner_id\"".as_bytes());
    let r_tenant = attr_string(resource, "tenant_id".as_bytes());
    let ghost q = request_of(input@);
    decide(
        out,
        policy,
        action,
        resource_type,
        principal_id,
        roles.as_slice(),
        p_tenant,
        p_status,
        p_break,
        r_owner,
        r_tenant,
        Ghost(q),
    )
}

/// Decides a request that passed its checks by the rules of `policy`, or
/// by its default effect, and writes the decision document to `out`.
#[verifier::rlimit(40)]
fn decide(
    out: &mut [u8],
    policy: &[u8],
    action: &[u8],
    resource_type: &[u8],
    principal_id: &[u8],
    roles: &[&[u8]],
    p_tenant: &[u8],
    p_status: &[u8],
    p_break: bool,
    r_owner: &[u8],
    r_tenant: &[u8],
    Ghost(q): Ghost<Request>,
) -> (r: usize)
    requires
        scannable(policy@),
        q == (Request {
            principal_id: principal_id@,
            action: action@,
            resource_type: resource_type@,
            roles: views(roles@),
            p_tenant: p_tenant@,
            p_status: p_status@,
            p_break,
            r_owner: r_owner@,
            r_tenant: r_tenant@,
        }),
    ensures
        holds_greedy(final(out)@, r as int, ruled_chunks(policy@, q)),
        final(out)@.len() == old(out)@.len(),
{
    proof {
        lemma_keys();
        reveal(ruled_chunks);
    }
    let nil = "[]".as_bytes();
    let default_deny = !contains(policy, "\"default_effect\":\"allow\"".as_bytes())
        && !contains(policy, "\"default_effect\": \"allow\"".as_bytes());
    let bg_enabled = match object_after_key(policy, "\"break_glass\"".as_bytes()) {
        Some(bg) => contains(bg, "\"enabled\":true".as_bytes()) || contains(
            bg,
            "\"enabled\": true".as_bytes(),
        ),
        None => false,
    };
    let rules = parse_rules(policy);
    let hash = fnv_hex(policy);
    let hs = hash.as_slice();
    if rules.len() == 0 {
        return write_result(
            out,
            "deny".as_bytes(),
            "Policy contains no rules and default_effect=deny".as_bytes(),
            "empty_or_invalid_policy".as_bytes(),
            nil,
            nil,
            "[\"policy.rules length = 0\",\"default_effect=deny applied\"]".as_bytes(),
            Some(hs),
            false,
        );
    }
    let best = select_best(
        &rules,
        action,
        resource_type,
        principal_id,
        roles,
        p_tenant,
        p_status,
        p_break,
        r_owner,
        r_tenant,
        Ghost(q),
    );
    match best {
        Some(b) => write_rule_result(out, &rules[b], hs, bg_enabled && p_break),
        None => write_default_result(out, !default_deny, hs),
    }
}

/// Writes the decision document that follows `rule`.
fn write_rule_result(out: &mut [u8], rule: &Rule, hs: &[u8], bg: bool) -> (r: usize)
    requires
        rule.priority > i32::MIN,
    ensures
        holds_greedy(final(out)@, r as int, rule_result_chunks(rule@, hs@, bg)),
        final(out)@.len() == old(out)@.len(),
{
    let mut matched = [0u8; 160];
    let ghost zeros = matched@;
    let mlen = format_matched(&mut matched, rule);
    proof {
        lemma_holds_greedy_start(zeros);
        lemma_copies_greedy(zeros, 0, Seq::empty(), matched_chunks(rule@));
        assert(Seq::<Seq<u8>>::empty() + matched_chunks(rule@) =~= matched_chunks(rule@));
        lemma_greedy_len(160, matched_chunks(rule@));
    }
    let ms = matched.as_slice();
    let mslice = &ms[0..mlen];
    assert(mslice@ =~= greedy(160, matched_chunks(rule@)));
    let used = bg && rule.effect_allow;
    if rule.effect_allow {
        let reason = if used {
            "Break-glass override matched".as_bytes()
        } else {
            "Matched allow rule".as_bytes()
        };
        let code = if used {
            "break_glass_override".as_bytes()
        } else {
            "matched_allow_rule".as_bytes()
        };
        return write_result(
            out,
            "allow".as_bytes(),
            reason,
            code,
            mslice,
            rule.obligations,
            "[\"rule matched -> allow\"]".as_bytes(),
            Some(hs),
            used,
        );
    }
    write_result(
        out,
        "deny".as_bytes(),
        "Matched high-priority deny rule".as_bytes(),
        "matched_deny_rule".as_bytes(),
        mslice,
        "[]".as_bytes(),
        "[\"rule matched -> deny\"]".as_bytes(),
        Some(hs),
        false,
    )
}

/// Writes the decision document by the policy's default effect.
fn write_default_result(out: &mut [u8], allow: bool, hs: &[u8]) -> (r: usize)
    ensures
        holds_greedy(final(out)@, r as int, default_result_chunks(allow, hs@)),
        final(out)@.len() == old(out)@.len(),
{
    let nil = "[]".as_bytes();
    if allow {
        write_result(
            out,
            "allow".as_bytes(),
            "No matching rule; default_effect=allow".as_bytes(),
            "no_matching_rule".as_bytes(),
            nil,
            nil,
            "[\"evaluated rules, none matched\",\"falling back to default_effect=allow\"]".as_bytes(),
            Some(hs),
            false,
        )
    } else {
        write_result(
            out,
            "deny".as_bytes(),
            "No matching rule; default_effect=deny".as_bytes(),
            "no_matching_rule".as_bytes(),
            nil,
            nil,
            "[\"evaluated rules, none matched\",\"falling back to default_effect=deny\"]".as_bytes(),
            Some(hs),
            false,
        )
    }
}

/// The rule a decision follows is the first applying rule of highest
/// priority: it applies, no applying rule has a higher priority, none of
/// equal priority comes before it; and when no rule is chosen, none applies.
pub proof fn lemma_best_rule(rules: Seq<RuleView>, q: Request, k: int)
    requires
        0 <= k <= rules.len(),
    ensures
        match best_rule(rules, q, k) {
            Some(b) => {
                &&& 0 <= b < k
                &&& applies(rules[b], q)
                &&& forall|j: int|
                    0 <= j < k && applies(#[trigger] rules[j], q) ==> rules[j].priority
                        <= rules[b].priority && (rules[j].priority == rules[b].priority ==> b <= j)
            },
            None => forall|j: int| 0 <= j < k ==> !applies(#[trigger] rules[j], q),
        },
    decreases k,
{
    if k > 0 {
        lemma_best_rule(rules, q, k - 1);
    }
}

/// Every rule with an id of a rules array, scanning from index `i`, with
/// no cap on their number.
pub open spec fn all_rules_from(arr: Seq<u8>, i: int) -> Seq<RuleView>
    decreases arr.len() + 1 - i,
{
    if i < 0 || i >= arr.len() {
        Seq::empty()
    } else if arr[i] != 123u8 {
        all_rules_from(arr, i + 1)
    } else {
        match balanced_spec(arr.skip(i), 123u8, 125u8) {
            None => Seq::empty(),
            Some(e) => {
                let r = rule_of_span(arr.subrange(i, i + e + 1));
                if e < 0 || i + e + 1 > arr.len() {
                    Seq::empty()
                } else if r.id.len() > 0 {
                    seq![r] + all_rules_from(arr, i + e + 1)
                } else {
                    all_rules_from(arr, i + e + 1)
                }
            },
        }
    }
}

/// The first `n` of `s`, or all of `s` when it has fewer.
pub open spec fn first_at_most<A>(s: Seq<A>, n: int) -> Seq<A> {
    if s.len() <= n { s } else { s.take(n) }
}

/// Reading the rules keeps the first of the rules with an id, in array
/// order, up to sixteen in all.
pub proof fn lemma_rules_from_first(arr: Seq<u8>, i: int, count: nat)
    requires
        count <= 16,
    ensures
        rules_from(arr, i, count) == first_at_most(all_rules_from(arr, i), 16 - count),
    decreases arr.len() + 1 - i,
{
    let all = all_rules_from(arr, i);
    if i < 0 || i >= arr.len() {
    } else if count >= 16 {
        assert(all.take(0) =~= Seq::<RuleView>::empty());
    } else if arr[i] != 123u8 {
        lemma_rules_from_first(arr, i + 1, count);
    } else {
        match balanced_spec(arr.skip(i), 123u8, 125u8) {
            None => {},
            Some(e) => {
                let r = rule_of_span(arr.subrange(i, i + e + 1));
                if e < 0 || i + e + 1 > arr.len() {
                } else if r.id.len() > 0 {
                    lemma_rules_from_first(arr, i + e + 1, count + 1);
                    let rest = all_rules_from(arr, i + e + 1);
                    if rest.len() > 15 - count {
                        assert((seq![r] + rest).take(16 - count) =~= seq![r] + rest.take(15 - count));
                    }
                } else {
                    lemma_rules_from_first(arr, i + e + 1, count);
                }
            },
        }
    }
}

/// Every rule with an id of a policy's rules array, in array order.
pub open spec fn all_policy_rules(policy: Seq<u8>) -> Seq<RuleView> {
    match array_of(policy, "\"rules\"".spec_bytes()) {
        Some(arr) => all_rules_from(arr, 0),
        None => Seq::empty(),
    }
}

proof fn lemma_all_rules_have_ids(arr: Seq<u8>, i: int)
    ensures
        forall|j: int| 0 <= j < all_rules_from(arr, i).len() ==> (#[trigger] all_rules_from(arr, i)[j]).id.len() > 0,
    decreases arr.len() + 1 - i,
{
    if i < 0 || i >= arr.len() {
    } else if arr[i] != 123u8 {
        lemma_all_rules_have_ids(arr, i + 1);
        assert(all_rules_from(arr, i) == all_rules_from(arr, i + 1));
    } else {
        match balanced_spec(arr.skip(i), 123u8, 125u8) {
            None => {
                assert(all_rules_from(arr, i) =~= Seq::<RuleView>::empty());
            },
            Some(e) => {
                if e < 0 || i + e + 1 > arr.len() {
                    assert(all_rules_from(arr, i) =~= Seq::<RuleView>::empty());
                } else {
                    lemma_all_rules_have_ids(arr, i + e + 1);
                    let r = rule_of_span(arr.subrange(i, i + e + 1));
                    let rest = all_rules_from(arr, i + e + 1);
                    if r.id.len() > 0 {
                        assert(all_rules_from(arr, i) == seq![r] + rest);
                        assert forall|j: int| 0 <= j < (seq![r] + rest).len() implies (#[trigger] (seq![r] + rest)[j]).id.len()
                            > 0 by {
                            if j > 0 {
                                assert((seq![r] + rest)[j] == rest[j - 1]);
                            }
                        }
                    } else {
                        assert(all_rules_from(arr, i) == rest);
                    }
                }
            },
        }
    }
}

/// `span` is a whole object of the array `arr`, starting at index `a`.
pub open spec fn object_span_at(arr: Seq<u8>, a: int, span: Seq<u8>) -> bool {
    &&& 0 <= a < arr.len()
    &&& arr[a] == 123u8
    &&& balanced_spec(arr.skip(a), 123u8, 125u8) == Some(span.len() - 1)
    &&& a + span.len() <= arr.len()
    &&& span == arr.subrange(a, a + span.len())
}

/// Rule `j` read from the rules array `arr` from index `i` on is the rule
/// that one of its objects from there on spells, and it has an id.
pub open spec fn rule_is_object(arr: Seq<u8>, i: int, j: int) -> bool {
    exists|a: int, span: Seq<u8>|
        i <= a && #[trigger] object_span_at(arr, a, span) && all_rules_from(arr, i)[j] == rule_of_span(span)
            && rule_of_span(span).id.len() > 0
}

/// Each rule read from the rules array `arr` from index `i` on is the rule
/// that one of its objects from there on spells, and it has an id.
pub open spec fn rules_are_objects(arr: Seq<u8>, i: int) -> bool {
    forall|j: int| 0 <= j < all_rules_from(arr, i).len() ==> #[trigger] rule_is_object(arr, i, j)
}

proof fn lemma_rule_object_later(arr: Seq<u8>, i: int, i2: int, j: int, j2: int)
    requires
        i <= i2,
        rule_is_object(arr, i2, j2),
        all_rules_from(arr, i)[j] == all_rules_from(arr, i2)[j2],
    ensures
        rule_is_object(arr, i, j),
{
    let (a, sp) = choose|a: int, sp: Seq<u8>|
        i2 <= a && #[trigger] object_span_at(arr, a, sp) && all_rules_from(arr, i2)[j2] == rule_of_span(sp)
            && rule_of_span(sp).id.len() > 0;
    assert(object_span_at(arr, a, sp));
}

/// Each rule read from a rules array is the rule that one of its objects
/// spells, and it has an id.
pub proof fn lemma_rules_are_objects(arr: Seq<u8>, i: int)
    ensures
        rules_are_objects(arr, i),
    decreases arr.len() + 1 - i,
{
    if i < 0 || i >= arr.len() {
        assert(all_rules_from(arr, i).len() == 0);
    } else if arr[i] != 123u8 {
        lemma_rules_are_objects(arr, i + 1);
        let rest = all_rules_from(arr, i + 1);
        assert(all_rules_from(arr, i) == rest);
        assert forall|j: int| 0 <= j < all_rules_from(arr, i).len() implies #[trigger] rule_is_object(arr, i, j) by {
            assert(rule_is_object(arr, i + 1, j));
            lemma_rule_object_later(arr, i, i + 1, j, j);
        }
    } else {
        match balanced_spec(arr.skip(i), 123u8, 125u8) {
            None => {
                assert(all_rules_from(arr, i) =~= Seq::<RuleView>::empty());
            },
            Some(e) => {
                if e < 0 || i + e + 1 > arr.len() {
                    assert(all_rules_from(arr, i) =~= Seq::<RuleView>::empty());
                } else {
                    lemma_rules_are_objects(arr, i + e + 1);
                    let span = arr.subrange(i, i + e + 1);
                    let r = rule_of_span(span);
                    let rest = all_rules_from(arr, i + e + 1);
                    assert(object_span_at(arr, i, span));
                    if r.id.len() > 0 {
                        assert(all_rules_from(arr, i) == seq![r] + rest);
                    } else {
                        assert(all_rules_from(arr, i) == rest);
                    }
                    assert forall|j: int| 0 <= j < all_rules_from(arr, i).len() implies #[trigger] rule_is_object(
                        arr,
                        i,
                        j,
                    ) by {
                        if r.id.len() > 0 && j == 0 {
                            assert(all_rules_from(arr, i)[0] == rule_of_span(span));
                        } else {
                            let k = if r.id.len() > 0 { j - 1 } else { j };
                            assert(all_rules_from(arr, i)[j] == rest[k]);
                            assert(rule_is_object(arr, i + e + 1, k));
                            lemma_rule_object_later(arr, i, i + e + 1, j, k);
                        }
                    }
                }
            },
        }
    }
}

/// The rules of a policy are its first sixteen rules that have an id, in
/// array order (all of them when it has fewer); every one has an id and is
/// the rule that an object of the rules array spells; a policy without a
/// rules array has none.
pub proof fn lemma_policy_rules_first_sixteen(policy: Seq<u8>)
    ensures
        policy_rules(policy) == first_at_most(all_policy_rules(policy), 16),
        forall|j: int| 0 <= j < policy_rules(policy).len() ==> (#[trigger] policy_rules(policy)[j]).id.len() > 0,
        match array_of(policy, "\"rules\"".spec_bytes()) {
            Some(arr) => rules_are_objects(arr, 0) && all_policy_rules(policy) == all_rules_from(arr, 0),
            None => policy_rules(policy).len() == 0,
        },
{
    match array_of(policy, "\"rules\"".spec_bytes()) {
        Some(arr) => {
            lemma_rules_are_objects(arr, 0);
            lemma_rules_from_first(arr, 0, 0);
            lemma_all_rules_have_ids(arr, 0);
            let all = all_rules_from(arr, 0);
            assert forall|j: int| 0 <= j < policy_rules(policy).len() implies (#[trigger] policy_rules(policy)[j]).id.len()
                > 0 by {
                assert(policy_rules(policy)[j] == all[j]);
            }
        },
        None => {},
    }
}

/// A rule object is read field by field: its id is its `id` string, it
/// allows exactly when its `effect` is `allow`, its priority is its
/// `priority` integer (0 when absent or not a number), and its obligations
/// are its `obligations` array as written (`[]` when absent).
pub proof fn lemma_rule_fields(span: Seq<u8>)
    ensures
        rule_of_span(span).id == string_of(span, "\"id\"".spec_bytes()),
        rule_of_span(span).effect_allow <==> string_of(span, "\"effect\"".spec_bytes()) == "allow".spec_bytes(),
        rule_of_span(span).priority == match int_of(span, "\"priority\"".spec_bytes()) {
            Some(v) => v,
            None => 0,
        },
        rule_of_span(span).obligations == match array_of(span, "\"obligations\"".spec_bytes()) {
            Some(o) => o,
            None => "[]".spec_bytes(),
        },
        rule_of_span(span).resource_type == string_of(
            or_empty(object_of(span, "\"resource\"".spec_bytes())),
            "\"type\"".spec_bytes(),
        ),
        rule_of_span(span).action == first_or_empty(string_array_of(span, "\"action\"".spec_bytes(), 1)),
{
    reveal(rule_of_span);
}

/// A request that passes its checks, under a policy some rule of which
/// applies to it, is decided by one applying rule of highest priority, the
/// first of those of that priority.
pub proof fn lemma_decision_follows_best_rule(input: Seq<u8>)
    requires
        request_of(input).principal_id.len() > 0,
        request_of(input).action.len() > 0,
        request_of(input).resource_type.len() > 0,
        policy_of(input).len() > 0,
        find_spec(policy_of(input), "\"rules\"".spec_bytes()) is Some,
        exists|j: int|
            0 <= j < policy_rules(policy_of(input)).len() && applies(
                #[trigger] policy_rules(policy_of(input))[j],
                request_of(input),
            ),
    ensures
        ({
            let q = request_of(input);
            let policy = policy_of(input);
            let rules = policy_rules(policy);
            exists|b: int|
                {
                    &&& 0 <= b < rules.len()
                    &&& applies(#[trigger] rules[b], q)
                    &&& forall|j: int|
                        0 <= j < rules.len() && applies(#[trigger] rules[j], q) ==> rules[j].priority
                            <= rules[b].priority && (rules[j].priority == rules[b].priority ==> b <= j)
                    &&& authorize_chunks(input) == rule_result_chunks(
                        rules[b],
                        hex16(fnv_state(policy)),
                        break_glass_enabled(policy) && q.p_break,
                    )
                    &&& rules[b].effect_allow ==> authorize_chunks(input) == result_chunks(
                        "allow".spec_bytes(),
                        if break_glass_enabled(policy) && q.p_break {
                            "Break-glass override matched".spec_bytes()
                        } else {
                            "Matched allow rule".spec_bytes()
                        },
                        if break_glass_enabled(policy) && q.p_break {
                            "break_glass_override".spec_bytes()
                        } else {
                            "matched_allow_rule".spec_bytes()
                        },
                        greedy(160, matched_chunks(rules[b])),
                        rules[b].obligations,
                        "[\"rule matched -> allow\"]".spec_bytes(),
                        Some(hex16(fnv_state(policy))),
                        break_glass_enabled(policy) && q.p_break,
                    )
                    &&& !rules[b].effect_allow ==> authorize_chunks(input) == result_chunks(
                        "deny".spec_bytes(),
                        "Matched high-priority deny rule".spec_bytes(),
                        "matched_deny_rule".spec_bytes(),
                        greedy(160, matched_chunks(rules[b])),
                        "[]".spec_bytes(),
                        "[\"rule matched -> deny\"]".spec_bytes(),
                        Some(hex16(fnv_state(policy))),
                        false,
                    )
                }
        }),
{
    let q = request_of(input);
    let policy = policy_of(input);
    let rules = policy_rules(policy);
    reveal(ruled_chunks);
    lemma_best_rule(rules, q, rules.len() as int);
    let j = choose|j: int| 0 <= j < rules.len() && applies(#[trigger] rules[j], q);
    assert(applies(rules[j], q));
    let b = best_rule(rules, q, rules.len() as int)->0;
    assert(applies(rules[b], q));
}

/// The checks of a request come in order: a missing principal id, then a
/// missing action, then a missing resource type, then a policy without a
/// rules key; each is refused with its own reason and no policy hash. A
/// policy whose rules array yields no rule is refused last, with the policy
/// hash.
pub proof fn lemma_refusals_in_order(input: Seq<u8>)
    ensures
        ({
            let q = request_of(input);
            let policy = policy_of(input);
            &&& q.principal_id.len() == 0 ==> authorize_chunks(input) == deny_chunks(
                "principal.id is required but missing".spec_bytes(),
                "invalid_principal".spec_bytes(),
                "[\"precondition failed: principal.id missing\"]".spec_bytes(),
                None,
            )
            &&& q.principal_id.len() > 0 && q.action.len() == 0 ==> authorize_chunks(input) == deny_chunks(
                "action is required but missing".spec_bytes(),
                "invalid_action".spec_bytes(),
                "[\"precondition failed: action missing\"]".spec_bytes(),
                None,
            )
            &&& q.principal_id.len() > 0 && q.action.len() > 0 && q.resource_type.len() == 0 ==> authorize_chunks(input)
                == deny_chunks(
                "resource.type is required but missing".spec_bytes(),
                "invalid_resource".spec_bytes(),
                "[\"precondition failed: resource.type missing\"]".spec_bytes(),
                None,
            )
            &&& q.principal_id.len() > 0 && q.action.len() > 0 && q.resource_type.len() > 0 && (policy.len() == 0
                || find_spec(policy, "\"rules\"".spec_bytes()) is None) ==> authorize_chunks(input) == deny_chunks(
                "policy is missing or invalid".spec_bytes(),
                "empty_or_invalid_policy".spec_bytes(),
                "[\"precondition failed: policy structure invalid\"]".spec_bytes(),
                None,
            )
            &&& q.principal_id.len() > 0 && q.action.len() > 0 && q.resource_type.len() > 0 && policy.len() > 0
                && find_spec(policy, "\"rules\"".spec_bytes()) is Some && policy_rules(policy).len() == 0
                ==> authorize_chunks(input) == deny_chunks(
                "Policy contains no rules and default_effect=deny".spec_bytes(),
                "empty_or_invalid_policy".spec_bytes(),
                "[\"policy.rules length = 0\",\"default_effect=deny applied\"]".spec_bytes(),
                Some(hex16(fnv_state(policy))),
            )
        }),
{
    reveal(ruled_chunks);
}

} // verus!
