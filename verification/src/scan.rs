//! Byte-level scanning of JSON request documents.
//!
//! The capabilities read their requests without building a tree: they look a
//! key up by its quoted spelling, at a given nesting depth or anywhere, and
//! take the value that follows its colon. Every function here is specified by
//! a spec function over the input bytes, so a capability's own contract can
//! say exactly which part of the request it used.
use vstd::prelude::*;
use vstd::string::StringSliceAdditionalSpecFns;

verus! {

/// JSON insignificant whitespace as the scanners understand it.
pub open spec fn is_ws(b: u8) -> bool {
    b == 32u8 || b == 10u8 || b == 9u8 || b == 13u8
}

/// `s` with its leading whitespace removed.
pub open spec fn skip_ws_spec(s: Seq<u8>) -> Seq<u8>
    decreases s.len(),
{
    if s.len() > 0 && is_ws(s[0]) {
        skip_ws_spec(s.drop_first())
    } else {
        s
    }
}

/// The number of leading bytes of `s` that are whitespace or commas.
pub open spec fn ws_comma_len(s: Seq<u8>) -> nat
    decreases s.len(),
{
    if s.len() > 0 && (is_ws(s[0]) || s[0] == 44u8) {
        1 + ws_comma_len(s.drop_first())
    } else {
        0
    }
}

/// `needle` occurs in `hay` starting at index `i`.
pub open spec fn occurs_at(hay: Seq<u8>, needle: Seq<u8>, i: int) -> bool {
    0 <= i && i + needle.len() <= hay.len() && hay.subrange(i, i + needle.len()) == needle
}

/// The first index at or after `i` where `needle` occurs in `hay`.
pub open spec fn find_from(hay: Seq<u8>, needle: Seq<u8>, i: int) -> Option<int>
    decreases hay.len() + 1 - i,
{
    if i < 0 || i + needle.len() > hay.len() {
        None
    } else if hay.subrange(i, i + needle.len()) == needle {
        Some(i)
    } else {
        find_from(hay, needle, i + 1)
    }
}

/// The first index where `needle` occurs in `hay`.
pub open spec fn find_spec(hay: Seq<u8>, needle: Seq<u8>) -> Option<int> {
    find_from(hay, needle, 0)
}

/// The first index at or after `i` that holds byte `b`.
pub open spec fn index_of_from(s: Seq<u8>, b: u8, i: int) -> Option<int>
    decreases s.len() - i,
{
    if i < 0 || i >= s.len() {
        None
    } else if s[i] == b {
        Some(i)
    } else {
        index_of_from(s, b, i + 1)
    }
}

/// The first index of byte `b` in `s`.
pub open spec fn index_of(s: Seq<u8>, b: u8) -> Option<int> {
    index_of_from(s, b, 0)
}

/// `prefix` is a prefix of `s`.
pub open spec fn has_prefix(s: Seq<u8>, prefix: Seq<u8>) -> bool {
    prefix.len() <= s.len() && s.take(prefix.len() as int) == prefix
}

/// The scan that finds the index of the byte closing the value that opens
/// `s`: `depth` counts the open brackets not yet closed, `in_str` says that
/// the scan stands inside a string literal, where brackets do not count and
/// a backslash hides the byte after it.
pub open spec fn balanced_from(
    s: Seq<u8>,
    open: u8,
    close: u8,
    i: int,
    depth: int,
    in_str: bool,
) -> Option<int>
    decreases s.len() + 1 - i,
{
    if i < 0 || i >= s.len() {
        None
    } else if in_str {
        if s[i] == 92u8 {
            balanced_from(s, open, close, i + 2, depth, true)
        } else if s[i] == 34u8 {
            balanced_from(s, open, close, i + 1, depth, false)
        } else {
            balanced_from(s, open, close, i + 1, depth, true)
        }
    } else if s[i] == 34u8 {
        balanced_from(s, open, close, i + 1, depth, true)
    } else if s[i] == open {
        balanced_from(s, open, close, i + 1, depth + 1, false)
    } else if s[i] == close {
        if depth - 1 == 0 {
            Some(i)
        } else {
            balanced_from(s, open, close, i + 1, depth - 1, false)
        }
    } else {
        balanced_from(s, open, close, i + 1, depth, false)
    }
}

/// Index of the `close` byte that balances the first `open` byte of `s`.
pub open spec fn balanced_spec(s: Seq<u8>, open: u8, close: u8) -> Option<int> {
    balanced_from(s, open, close, 0, 0, false)
}

/// The scan that looks for a quoted key at a given nesting depth: a key is a
/// string literal that starts with the bytes of `key` (quotes included) and
/// stands at `target` levels of `{`/`[` nesting, outside any other string.
pub open spec fn key_scan(
    hay: Seq<u8>,
    key: Seq<u8>,
    target: int,
    i: int,
    depth: int,
    in_str: bool,
) -> Option<int>
    decreases hay.len() + 1 - i,
{
    if i < 0 || i + key.len() > hay.len() || key.len() == 0 {
        None
    } else if in_str {
        if hay[i] == 92u8 {
            key_scan(hay, key, target, i + 2, depth, true)
        } else if hay[i] == 34u8 {
            key_scan(hay, key, target, i + 1, depth, false)
        } else {
            key_scan(hay, key, target, i + 1, depth, true)
        }
    } else if hay[i] == 34u8 {
        if depth == target && has_prefix(hay.skip(i), key) {
            Some(i)
        } else {
            key_scan(hay, key, target, i + 1, depth, true)
        }
    } else if hay[i] == 123u8 || hay[i] == 91u8 {
        key_scan(hay, key, target, i + 1, depth + 1, false)
    } else if hay[i] == 125u8 || hay[i] == 93u8 {
        key_scan(hay, key, target, i + 1, depth - 1, false)
    } else {
        key_scan(hay, key, target, i + 1, depth, false)
    }
}

/// Index of the first occurrence of `key` as a key at nesting depth `target`.
pub open spec fn key_at_depth_spec(hay: Seq<u8>, key: Seq<u8>, target: int) -> Option<int> {
    key_scan(hay, key, target, 0, 0, false)
}

/// Longest length that the scanners accept: their depth counters are `i32`.
pub open spec fn scannable(s: Seq<u8>) -> bool {
    s.len() <= 0x7fff_ffff
}


/// What follows the first colon of `s`, with leading whitespace removed.
pub open spec fn value_start_spec(s: Seq<u8>) -> Option<Seq<u8>> {
    match index_of(s, 58u8) {
        Some(c) => Some(skip_ws_spec(s.skip(c + 1))),
        None => None,
    }
}

/// The body of the string literal that opens `rest`, up to the next quote
/// byte (escapes are not honoured), or the empty sequence when `rest` does
/// not open with a terminated string.
pub open spec fn string_body_spec(rest: Seq<u8>) -> Seq<u8> {
    if rest.len() == 0 || rest[0] != 34u8 {
        Seq::empty()
    } else {
        match index_of(rest.drop_first(), 34u8) {
            Some(e) => rest.drop_first().take(e),
            None => Seq::empty(),
        }
    }
}

/// The string value that follows a key: the body of the string literal
/// after the first colon, or the empty sequence when there is none.
pub open spec fn quoted_value_spec(after_key: Seq<u8>) -> Seq<u8> {
    match value_start_spec(after_key) {
        Some(rest) => string_body_spec(rest),
        None => Seq::empty(),
    }
}

/// The string value of the first occurrence of `key` anywhere in `hay`.
pub open spec fn extract_string_spec(hay: Seq<u8>, key: Seq<u8>) -> Seq<u8> {
    match find_spec(hay, key) {
        Some(p) => quoted_value_spec(hay.skip(p + key.len())),
        None => Seq::empty(),
    }
}

/// The string value of `key` at nesting depth `depth`.
pub open spec fn extract_string_at_depth_spec(hay: Seq<u8>, key: Seq<u8>, depth: int) -> Seq<u8> {
    match key_at_depth_spec(hay, key, depth) {
        Some(p) => quoted_value_spec(hay.skip(p + key.len())),
        None => Seq::empty(),
    }
}

/// The bracketed value that opens `rest` with `open`, through its balancing
/// `close`.
pub open spec fn bracketed_spec(rest: Seq<u8>, open: u8, close: u8) -> Option<Seq<u8>> {
    if rest.len() == 0 || rest[0] != open {
        None
    } else {
        match balanced_spec(rest, open, close) {
            Some(e) => Some(rest.take(e + 1)),
            None => None,
        }
    }
}

/// The bracketed value that follows the colon after a key.
pub open spec fn value_bracketed_spec(after_key: Seq<u8>, open: u8, close: u8) -> Option<Seq<u8>> {
    match value_start_spec(after_key) {
        Some(rest) => bracketed_spec(rest, open, close),
        None => None,
    }
}

/// The bracketed value of `key` at nesting depth `depth`.
pub open spec fn bracketed_at_depth_spec(
    hay: Seq<u8>,
    key: Seq<u8>,
    depth: int,
    open: u8,
    close: u8,
) -> Option<Seq<u8>> {
    match key_at_depth_spec(hay, key, depth) {
        Some(p) => value_bracketed_spec(hay.skip(p + key.len()), open, close),
        None => None,
    }
}

/// The bracketed value of the first occurrence of `key` anywhere in `hay`.
pub open spec fn bracketed_after_key_spec(hay: Seq<u8>, key: Seq<u8>, open: u8, close: u8) -> Option<Seq<u8>> {
    match find_spec(hay, key) {
        Some(p) => value_bracketed_spec(hay.skip(p + key.len()), open, close),
        None => None,
    }
}

/// What follows the colon after the first occurrence of `key` in `hay`.
pub open spec fn value_after_key_spec(hay: Seq<u8>, key: Seq<u8>) -> Option<Seq<u8>> {
    match find_spec(hay, key) {
        Some(p) => value_start_spec(hay.skip(p + key.len())),
        None => None,
    }
}

/// The boolean literal that opens `rest`.
pub open spec fn bool_literal_spec(rest: Seq<u8>) -> Option<bool> {
    if has_prefix(rest, "true".spec_bytes()) {
        Some(true)
    } else if has_prefix(rest, "false".spec_bytes()) {
        Some(false)
    } else {
        None
    }
}

/// The boolean value of the first occurrence of `key` anywhere in `hay`.
pub open spec fn extract_bool_spec(hay: Seq<u8>, key: Seq<u8>) -> Option<bool> {
    match value_after_key_spec(hay, key) {
        Some(rest) => bool_literal_spec(rest),
        None => None,
    }
}

/// An ASCII decimal digit.
pub open spec fn is_digit(b: u8) -> bool {
    48u8 <= b <= 57u8
}

/// The number of leading decimal digits of `s`.
pub open spec fn digit_run(s: Seq<u8>) -> nat
    decreases s.len(),
{
    if s.len() > 0 && is_digit(s[0]) {
        1 + digit_run(s.drop_first())
    } else {
        0
    }
}

/// The value of a sequence of decimal digits.
pub open spec fn digits_value(s: Seq<u8>) -> nat
    decreases s.len(),
{
    if s.len() == 0 {
        0
    } else {
        digits_value(s.drop_last()) * 10 + (s.last() - 48) as nat
    }
}

/// Where the digits of an integer literal start: after an optional minus.
pub open spec fn sign_len(s: Seq<u8>) -> int {
    if s.len() > 0 && s[0] == 45u8 { 1 } else { 0 }
}

/// The magnitude of the integer literal that opens `s`: the value of the
/// digit run after an optional minus sign.
pub open spec fn int_magnitude(s: Seq<u8>) -> nat {
    let j = sign_len(s);
    digits_value(s.skip(j).take(digit_run(s.skip(j)) as int))
}

/// The integer literal that opens `s` (an optional `-`, then at least one
/// digit; the digit run ends at the first other byte).
pub open spec fn parse_int_spec(s: Seq<u8>) -> Option<int> {
    let j = sign_len(s);
    if s.len() == 0 || digit_run(s.skip(j)) == 0 {
        None
    } else if j == 1 {
        Some(-(int_magnitude(s) as int))
    } else {
        Some(int_magnitude(s) as int)
    }
}

/// The integer value of the first occurrence of `key` anywhere in `hay`.
pub open spec fn extract_int_spec(hay: Seq<u8>, key: Seq<u8>) -> Option<int> {
    match value_after_key_spec(hay, key) {
        Some(rest) => parse_int_spec(rest),
        None => None,
    }
}

/// The integer literal after `key`, if there is one, has a magnitude that
/// fits in an `i32`.
pub open spec fn int_value_fits_i32(hay: Seq<u8>, key: Seq<u8>) -> bool {
    match value_after_key_spec(hay, key) {
        Some(rest) => int_magnitude(rest) <= 0x7fff_ffff,
        None => true,
    }
}

pub proof fn lemma_digits_prefix_le(s: Seq<u8>, k: int)
    requires
        0 <= k <= s.len(),
        forall|i: int| 0 <= i < s.len() ==> is_digit(#[trigger] s[i]),
    ensures
        digits_value(s.take(k)) <= digits_value(s),
    decreases s.len() - k,
{
    if k < s.len() {
        lemma_digits_prefix_le(s, k + 1);
        assert(s.take(k + 1).drop_last() =~= s.take(k));
    } else {
        assert(s.take(k) =~= s);
    }
}

pub proof fn lemma_digit_run(s: Seq<u8>)
    ensures
        digit_run(s) <= s.len(),
        forall|i: int| 0 <= i < digit_run(s) ==> is_digit(#[trigger] s[i]),
        digit_run(s) < s.len() ==> !is_digit(s[digit_run(s) as int]),
    decreases s.len(),
{
    if s.len() > 0 && is_digit(s[0]) {
        lemma_digit_run(s.drop_first());
        assert forall|i: int| 0 <= i < digit_run(s) implies is_digit(#[trigger] s[i]) by {
            if i > 0 {
                assert(s[i] == s.drop_first()[i - 1]);
            }
        }
    }
}

/// Removes leading whitespace.
pub fn skip_ws(s: &[u8]) -> (r: &[u8])
    ensures
        r@ == skip_ws_spec(s@),
        r@.len() <= s@.len(),
{
    let mut i: usize = 0;
    assert(s@.skip(0) =~= s@);
    while i < s.len() && (s[i] == 32u8 || s[i] == 10u8 || s[i] == 9u8 || s[i] == 13u8)
        invariant
            i <= s.len(),
            skip_ws_spec(s@) == skip_ws_spec(s@.skip(i as int)),
        decreases s.len() - i,
    {
        assert(s@.skip(i as int).drop_first() =~= s@.skip(i + 1));
        i = i + 1;
    }
    let r = &s[i..s.len()];
    assert(r@ =~= s@.skip(i as int));
    r
}

/// The separators skipped never run past the end.
pub proof fn lemma_ws_comma_le(s: Seq<u8>)
    ensures
        ws_comma_len(s) <= s.len(),
    decreases s.len(),
{
    if s.len() > 0 && (is_ws(s[0]) || s[0] == 44u8) {
        lemma_ws_comma_le(s.drop_first());
    }
}

/// Number of leading bytes that are whitespace or commas.
pub fn skip_ws_comma(s: &[u8]) -> (r: usize)
    ensures
        r == ws_comma_len(s@),
{
    let mut i: usize = 0;
    assert(s@.skip(0) =~= s@);
    while i < s.len() && (s[i] == 32u8 || s[i] == 10u8 || s[i] == 9u8 || s[i] == 13u8 || s[i] == 44u8)
        invariant
            i <= s.len(),
            ws_comma_len(s@) == i + ws_comma_len(s@.skip(i as int)),
        decreases s.len() - i,
    {
        assert(s@.skip(i as int).drop_first() =~= s@.skip(i + 1));
        i = i + 1;
    }
    assert(i < s.len() ==> s@.skip(i as int)[0] == s@[i as int]);
    i
}

/// Whether `needle` occurs in `hay` at index `at`.
pub fn occurs_at_exec(hay: &[u8], at: usize, needle: &[u8]) -> (r: bool)
    ensures
        r == occurs_at(hay@, needle@, at as int),
{
    if at > hay.len() || needle.len() > hay.len() - at {
        return false;
    }
    let mut k: usize = 0;
    while k < needle.len()
        invariant
            at + needle.len() <= hay.len(),
            k <= needle.len(),
            forall|j: int| 0 <= j < k ==> hay@[at + j] == needle@[j],
        decreases needle.len() - k,
    {
        if hay[at + k] != needle[k] {
            assert(hay@.subrange(at as int, at + needle.len())[k as int] != needle@[k as int]);
            return false;
        }
        k = k + 1;
    }
    assert(hay@.subrange(at as int, at + needle.len()) =~= needle@);
    true
}

/// Index of the first occurrence of `needle` in `hay`.
pub fn find(hay: &[u8], needle: &[u8]) -> (r: Option<usize>)
    requires
        needle@.len() > 0,
    ensures
        r matches Some(i) ==> find_spec(hay@, needle@) == Some(i as int),
        r is None ==> find_spec(hay@, needle@) is None,
        r matches Some(i) ==> i + needle.len() <= hay.len(),
{
    if needle.len() > hay.len() {
        return None;
    }
    let mut i: usize = 0;
    while i <= hay.len() - needle.len()
        invariant
            needle@.len() > 0,
            needle@.len() <= hay@.len(),
            i <= hay.len() - needle.len() + 1,
            find_spec(hay@, needle@) == find_from(hay@, needle@, i as int),
        decreases hay.len() - needle.len() + 1 - i,
    {
        if occurs_at_exec(hay, i, needle) {
            return Some(i);
        }
        i = i + 1;
    }
    None
}

/// Whether `needle` occurs anywhere in `hay`.
pub fn contains(hay: &[u8], needle: &[u8]) -> (r: bool)
    requires
        needle@.len() > 0,
    ensures
        r == find_spec(hay@, needle@) is Some,
{
    find(hay, needle).is_some()
}

/// Index of the first byte equal to `b`.
pub fn index_of_byte(s: &[u8], b: u8) -> (r: Option<usize>)
    ensures
        r matches Some(i) ==> index_of(s@, b) == Some(i as int),
        r is None ==> index_of(s@, b) is None,
        r matches Some(i) ==> i < s.len() && s@[i as int] == b,
{
    let mut i: usize = 0;
    while i < s.len()
        invariant
            i <= s.len(),
            index_of(s@, b) == index_of_from(s@, b, i as int),
        decreases s.len() - i,
    {
        if s[i] == b {
            return Some(i);
        }
        i = i + 1;
    }
    None
}

/// Whether `s` starts with `prefix`.
pub fn starts_with(s: &[u8], prefix: &[u8]) -> (r: bool)
    ensures
        r == has_prefix(s@, prefix@),
{
    let r = occurs_at_exec(s, 0, prefix);
    proof {
        if prefix@.len() <= s@.len() {
            assert(s@.subrange(0, prefix@.len() as int) =~= s@.take(prefix@.len() as int));
        }
    }
    r
}

/// Whether two byte strings are equal.
pub fn bytes_eq(a: &[u8], b: &[u8]) -> (r: bool)
    ensures
        r == (a@ == b@),
{
    if a.len() != b.len() {
        return false;
    }
    let r = starts_with(a, b);
    proof {
        if r {
            assert(a@ =~= a@.take(b@.len() as int));
        } else {
            if a@ == b@ {
                assert(a@.take(b@.len() as int) =~= a@);
            }
        }
    }
    r
}

/// Index of the `close` byte that balances the first `open` byte of `s`,
/// ignoring brackets inside string literals.
pub fn balanced_end(s: &[u8], open: u8, close: u8) -> (r: Option<usize>)
    requires
        scannable(s@),
    ensures
        r matches Some(i) ==> balanced_spec(s@, open, close) == Some(i as int),
        r is None ==> balanced_spec(s@, open, close) is None,
        r matches Some(i) ==> i < s@.len(),
{
    let mut depth: i32 = 0;
    let mut in_str = false;
    let mut i: usize = 0;
    while i < s.len()
        invariant
            scannable(s@),
            i <= s.len() + 1,
            -(i as int) <= depth <= i,
            balanced_spec(s@, open, close) == balanced_from(
                s@,
                open,
                close,
                i as int,
                depth as int,
                in_str,
            ),
        decreases s.len() + 1 - i,
    {
        let b = s[i];
        if in_str {
            if b == 92u8 {
                i = i + 2;
                continue;
            }
            if b == 34u8 {
                in_str = false;
            }
            i = i + 1;
            continue;
        }
        if b == 34u8 {
            in_str = true;
        } else if b == open {
            depth = depth + 1;
        } else if b == close {
            depth = depth - 1;
            if depth == 0 {
                return Some(i);
            }
        }
        i = i + 1;
    }
    None
}

/// Index of the first occurrence of `key` as a key at nesting depth
/// `target_depth`, outside string literals.
pub fn find_key_at_depth(hay: &[u8], key: &[u8], target_depth: i32) -> (r: Option<usize>)
    requires
        scannable(hay@),
        key@.len() > 0,
    ensures
        r matches Some(i) ==> key_at_depth_spec(hay@, key@, target_depth as int) == Some(i as int),
        r is None ==> key_at_depth_spec(hay@, key@, target_depth as int) is None,
        r matches Some(i) ==> i + key.len() <= hay.len(),
{
    let mut depth: i32 = 0;
    let mut in_str = false;
    let mut i: usize = 0;
    while i <= hay.len() && key.len() <= hay.len() - i
        invariant
            scannable(hay@),
            key@.len() > 0,
            i <= hay.len() + 1,
            -(i as int) <= depth <= i,
            key_at_depth_spec(hay@, key@, target_depth as int) == key_scan(
                hay@,
                key@,
                target_depth as int,
                i as int,
                depth as int,
                in_str,
            ),
        decreases hay.len() + 1 - i,
    {
        let b = hay[i];
        if in_str {
            if b == 92u8 {
                i = i + 2;
                continue;
            }
            if b == 34u8 {
                in_str = false;
            }
            i = i + 1;
            continue;
        }
        if b == 34u8 {
            if depth == target_depth {
                let rest = &hay[i..hay.len()];
                assert(rest@ =~= hay@.skip(i as int));
                if starts_with(rest, key) {
                    return Some(i);
                }
            }
            in_str = true;
        } else if b == 123u8 || b == 91u8 {
            depth = depth + 1;
        } else if b == 125u8 || b == 93u8 {
            depth = depth - 1;
        }
        i = i + 1;
    }
    None
}

/// What follows the first colon of `s`, with leading whitespace removed.
pub fn value_start<'a>(s: &'a [u8]) -> (r: Option<&'a [u8]>)
    ensures
        r matches Some(v) ==> value_start_spec(s@) == Some(v@) && v@.len() <= s@.len(),
        r is None ==> value_start_spec(s@) is None,
{
    match index_of_byte(s, 58u8) {
        Some(c) => {
            let after = &s[c + 1..s.len()];
            assert(after@ =~= s@.skip(c + 1));
            proof { lemma_skip_ws_len(after@); }
            Some(skip_ws(after))
        },
        None => None,
    }
}

/// The body of the string literal that opens `rest`, up to the next quote.
pub fn string_body<'a>(rest: &'a [u8]) -> (r: &'a [u8])
    ensures
        r@ == string_body_spec(rest@),
        r@.len() <= rest@.len(),
{
    if rest.len() == 0 || rest[0] != 34u8 {
        let e = &rest[0..0];
        assert(e@ =~= Seq::<u8>::empty());
        return e;
    }
    let body = &rest[1..rest.len()];
    assert(body@ =~= rest@.drop_first());
    match index_of_byte(body, 34u8) {
        Some(end) => {
            let v = &body[0..end];
            assert(v@ =~= body@.take(end as int));
            v
        },
        None => {
            let e = &rest[0..0];
            assert(e@ =~= Seq::<u8>::empty());
            e
        },
    }
}

/// The string value after the colon that follows a key (empty when there is
/// no colon, the value is not a string, or the string is not terminated).
pub fn string_value_after<'a>(after_key: &'a [u8]) -> (r: &'a [u8])
    ensures
        r@ == quoted_value_spec(after_key@),
        r@.len() <= after_key@.len(),
{
    match value_start(after_key) {
        Some(rest) => string_body(rest),
        None => {
            let e = &after_key[0..0];
            assert(e@ =~= Seq::<u8>::empty());
            e
        },
    }
}

/// The string value of the first occurrence of `key` anywhere in `hay`.
pub fn extract_string<'a>(hay: &'a [u8], key: &[u8]) -> (r: &'a [u8])
    requires
        key@.len() > 0,
    ensures
        r@ == extract_string_spec(hay@, key@),
        r@.len() <= hay@.len(),
{
    match find(hay, key) {
        Some(pos) => {
            let after = &hay[pos + key.len()..hay.len()];
            assert(after@ =~= hay@.skip(pos + key@.len()));
            string_value_after(after)
        },
        None => {
            let e = &hay[0..0];
            assert(e@ =~= Seq::<u8>::empty());
            e
        },
    }
}

/// The string value of `key` at nesting depth `depth`.
pub fn extract_string_at_depth<'a>(hay: &'a [u8], key: &[u8], depth: i32) -> (r: &'a [u8])
    requires
        scannable(hay@),
        key@.len() > 0,
    ensures
        r@ == extract_string_at_depth_spec(hay@, key@, depth as int),
        r@.len() <= hay@.len(),
{
    match find_key_at_depth(hay, key, depth) {
        Some(pos) => {
            let after = &hay[pos + key.len()..hay.len()];
            assert(after@ =~= hay@.skip(pos + key@.len()));
            string_value_after(after)
        },
        None => {
            let e = &hay[0..0];
            assert(e@ =~= Seq::<u8>::empty());
            e
        },
    }
}

/// The value that opens `rest` with `open`, through its balancing `close`.
pub fn bracketed<'a>(rest: &'a [u8], open: u8, close: u8) -> (r: Option<&'a [u8]>)
    requires
        scannable(rest@),
    ensures
        r matches Some(v) ==> bracketed_spec(rest@, open, close) == Some(v@),
        r is None ==> bracketed_spec(rest@, open, close) is None,
        r matches Some(v) ==> v@.len() <= rest@.len(),
{
    if rest.len() == 0 || rest[0] != open {
        return None;
    }
    match balanced_end(rest, open, close) {
        Some(end) => {
            let v = &rest[0..end + 1];
            assert(v@ =~= rest@.take(end + 1));
            Some(v)
        },
        None => None,
    }
}

/// The bracketed value after the colon that follows a key.
pub fn value_bracketed<'a>(after_key: &'a [u8], open: u8, close: u8) -> (r: Option<&'a [u8]>)
    requires
        scannable(after_key@),
    ensures
        r matches Some(v) ==> value_bracketed_spec(after_key@, open, close) == Some(v@),
        r is None ==> value_bracketed_spec(after_key@, open, close) is None,
        r matches Some(v) ==> v@.len() <= after_key@.len(),
{
    match value_start(after_key) {
        Some(rest) => {
            bracketed(rest, open, close)
        },
        None => None,
    }
}

pub proof fn lemma_skip_ws_len(s: Seq<u8>)
    ensures
        skip_ws_spec(s).len() <= s.len(),
    decreases s.len(),
{
    if s.len() > 0 && is_ws(s[0]) {
        lemma_skip_ws_len(s.drop_first());
    }
}

/// The bracketed value of `key` at nesting depth `depth`.
pub fn bracketed_at_depth<'a>(hay: &'a [u8], key: &[u8], depth: i32, open: u8, close: u8) -> (r:
    Option<&'a [u8]>)
    requires
        scannable(hay@),
        key@.len() > 0,
    ensures
        r matches Some(v) ==> bracketed_at_depth_spec(hay@, key@, depth as int, open, close) == Some(
            v@,
        ),
        r is None ==> bracketed_at_depth_spec(hay@, key@, depth as int, open, close) is None,
        r matches Some(v) ==> v@.len() <= hay@.len(),
{
    match find_key_at_depth(hay, key, depth) {
        Some(pos) => {
            let after = &hay[pos + key.len()..hay.len()];
            assert(after@ =~= hay@.skip(pos + key@.len()));
            value_bracketed(after, open, close)
        },
        None => None,
    }
}

/// The object value of `key` at nesting depth `depth`.
pub fn object_after_key_at_depth<'a>(hay: &'a [u8], key: &[u8], depth: i32) -> (r: Option<&'a [u8]>)
    requires
        scannable(hay@),
        key@.len() > 0,
    ensures
        r matches Some(v) ==> bracketed_at_depth_spec(hay@, key@, depth as int, 123u8, 125u8) == Some(
            v@,
        ),
        r is None ==> bracketed_at_depth_spec(hay@, key@, depth as int, 123u8, 125u8) is None,
        r matches Some(v) ==> v@.len() <= hay@.len(),
{
    bracketed_at_depth(hay, key, depth, 123u8, 125u8)
}

/// The array value of `key` at nesting depth `depth`.
pub fn array_after_key_at_depth<'a>(hay: &'a [u8], key: &[u8], depth: i32) -> (r: Option<&'a [u8]>)
    requires
        scannable(hay@),
        key@.len() > 0,
    ensures
        r matches Some(v) ==> bracketed_at_depth_spec(hay@, key@, depth as int, 91u8, 93u8) == Some(
            v@,
        ),
        r is None ==> bracketed_at_depth_spec(hay@, key@, depth as int, 91u8, 93u8) is None,
        r matches Some(v) ==> v@.len() <= hay@.len(),
{
    bracketed_at_depth(hay, key, depth, 91u8, 93u8)
}

/// The bracketed value of the first occurrence of `key` anywhere in `hay`.
pub fn bracketed_after_key<'a>(hay: &'a [u8], key: &[u8], open: u8, close: u8) -> (r: Option<&'a [u8]>)
    requires
        scannable(hay@),
        key@.len() > 0,
    ensures
        r matches Some(v) ==> bracketed_after_key_spec(hay@, key@, open, close) == Some(v@),
        r is None ==> bracketed_after_key_spec(hay@, key@, open, close) is None,
        r matches Some(v) ==> v@.len() <= hay@.len(),
{
    match find(hay, key) {
        Some(pos) => {
            let after = &hay[pos + key.len()..hay.len()];
            assert(after@ =~= hay@.skip(pos + key@.len()));
            value_bracketed(after, open, close)
        },
        None => None,
    }
}

/// What follows the colon after the first occurrence of `key` in `hay`.
pub fn value_after_key<'a>(hay: &'a [u8], key: &[u8]) -> (r: Option<&'a [u8]>)
    requires
        key@.len() > 0,
    ensures
        r matches Some(v) ==> value_after_key_spec(hay@, key@) == Some(v@),
        r is None ==> value_after_key_spec(hay@, key@) is None,
        r matches Some(v) ==> v@.len() <= hay@.len(),
{
    match find(hay, key) {
        Some(pos) => {
            let after = &hay[pos + key.len()..hay.len()];
            assert(after@ =~= hay@.skip(pos + key@.len()));
            value_start(after)
        },
        None => None,
    }
}

/// The boolean value of the first occurrence of `key` anywhere in `hay`.
pub fn extract_bool(hay: &[u8], key: &[u8]) -> (r: Option<bool>)
    requires
        key@.len() > 0,
    ensures
        r == extract_bool_spec(hay@, key@),
{
    match value_after_key(hay, key) {
        Some(rest) => {
            if starts_with(rest, "true".as_bytes()) {
                Some(true)
            } else if starts_with(rest, "false".as_bytes()) {
                Some(false)
            } else {
                None
            }
        },
        None => None,
    }
}

/// The integer literal that opens `rest`: an optional minus, then at least
/// one digit, read up to the first byte that is not a digit.
pub fn parse_i32(rest: &[u8]) -> (r: Option<i32>)
    requires
        int_magnitude(rest@) <= 0x7fff_ffff,
    ensures
        r matches Some(v) ==> parse_int_spec(rest@) == Some(v as int),
        r is None ==> parse_int_spec(rest@) is None,
{
    if rest.len() == 0 {
        return None;
    }
    let mut neg = false;
    let mut j: usize = 0;
    if rest[0] == 45u8 {
        neg = true;
        j = 1;
    }
    let ghost tail = rest@.skip(j as int);
    proof {
        lemma_digit_run(tail);
    }
    if j >= rest.len() || rest[j] < 48u8 || rest[j] > 57u8 {
        proof {
            if j < rest.len() {
                assert(tail[0] == rest@[j as int]);
            }
        }
        return None;
    }
    let ghost run = digit_run(tail) as int;
    proof {
        assert(tail[0] == rest@[j as int]);
        lemma_digits_prefix_le(tail.take(run), 0);
    }
    let start = j;
    let mut n: i32 = 0;
    while j < rest.len() && rest[j] >= 48u8 && rest[j] <= 57u8
        invariant
            start <= j <= rest.len(),
            tail == rest@.skip(start as int),
            run == digit_run(tail),
            run <= tail.len(),
            forall|i: int| 0 <= i < run ==> is_digit(#[trigger] tail[i]),
            run < tail.len() ==> !is_digit(tail[run]),
            j - start <= run,
            n as int == digits_value(tail.take(j - start)),
            digits_value(tail.take(run)) <= 0x7fff_ffff,
        decreases rest.len() - j,
    {
        proof {
            if j - start == run {
                assert(tail[run] == rest@[j as int]);
            }
            let k = (j - start + 1) as int;
            assert(tail.take(k).drop_last() =~= tail.take(k - 1));
            assert(tail.take(k).last() == rest@[j as int]);
            assert(tail.take(run).take(k) =~= tail.take(k));
            lemma_digits_prefix_le(tail.take(run), k);
        }
        n = n * 10 + (rest[j] - 48u8) as i32;
        j = j + 1;
    }
    proof {
        if j - start < run {
            assert(tail[j - start] == rest@[j as int]);
        }
        assert(j - start == run);
    }
    Some(if neg { -n } else { n })
}

/// The integer value of the first occurrence of `key` anywhere in `hay`.
pub fn extract_i32(hay: &[u8], key: &[u8]) -> (r: Option<i32>)
    requires
        key@.len() > 0,
        int_value_fits_i32(hay@, key@),
    ensures
        r matches Some(v) ==> extract_int_spec(hay@, key@) == Some(v as int),
        r is None ==> extract_int_spec(hay@, key@) is None,
{
    match value_after_key(hay, key) {
        Some(rest) => parse_i32(rest),
        None => None,
    }
}

/// Whether the integer literal after `key`, if there is one, has a
/// magnitude that fits an `i32` (what `extract_i32` needs).
pub fn int_fits_i32(hay: &[u8], key: &[u8]) -> (r: bool)
    requires
        key@.len() > 0,
    ensures
        r == int_value_fits_i32(hay@, key@),
{
    let rest = match value_after_key(hay, key) {
        Some(rest) => rest,
        None => {
            return true;
        },
    };
    let mut j: usize = 0;
    if rest.len() > 0 && rest[0] == 45u8 {
        j = 1;
    }
    let ghost tail = rest@.skip(j as int);
    proof {
        lemma_digit_run(tail);
    }
    let ghost run = digit_run(tail) as int;
    let start = j;
    let mut n: u64 = 0;
    proof {
        assert(tail.take(0) =~= Seq::<u8>::empty());
    }
    while j < rest.len() && rest[j] >= 48u8 && rest[j] <= 57u8
        invariant
            start <= j <= rest.len(),
            value_after_key_spec(hay@, key@) == Some(rest@),
            start == sign_len(rest@),
            tail == rest@.skip(start as int),
            run == digit_run(tail),
            run <= tail.len(),
            forall|i: int| 0 <= i < run ==> is_digit(#[trigger] tail[i]),
            run < tail.len() ==> !is_digit(tail[run]),
            j - start <= run,
            n as int == digits_value(tail.take(j - start)),
            n <= 0x7fff_ffff,
        decreases rest.len() - j,
    {
        proof {
            if j - start == run {
                assert(tail[run] == rest@[j as int]);
            }
            let k = (j - start + 1) as int;
            assert(tail.take(k).drop_last() =~= tail.take(k - 1));
            assert(tail.take(k).last() == rest@[j as int]);
            assert(tail.take(run).take(k) =~= tail.take(k));
        }
        let next = n * 10 + (rest[j] - 48u8) as u64;
        j = j + 1;
        proof {
            let k = (j - start) as int;
            assert(next as int == digits_value(tail.take(k)));
        }
        if next > 0x7fff_ffff {
            proof {
                let k = (j - start) as int;
                assert(tail.take(run).take(k) =~= tail.take(k));
                lemma_digits_prefix_le(tail.take(run), k);
                assert(int_magnitude(rest@) == digits_value(tail.take(run)));
            }
            return false;
        }
        n = next;
    }
    proof {
        if j - start < run {
            assert(tail[j - start] == rest@[j as int]);
        }
        assert(j - start == run);
    }
    true
}

/// Where a reading of JSON text stands before a byte: the nesting depth of
/// `{` and `[` outside strings, whether it is inside a string literal, and
/// whether the byte is hidden by a backslash inside a string.
pub ghost struct LexState {
    pub depth: int,
    pub in_str: bool,
    pub escaped: bool,
}

/// The reading after the byte `b`.
pub open spec fn lex_step(st: LexState, b: u8) -> LexState {
    if st.escaped {
        LexState { escaped: false, ..st }
    } else if st.in_str {
        if b == 92u8 {
            LexState { escaped: true, ..st }
        } else if b == 34u8 {
            LexState { in_str: false, ..st }
        } else {
            st
        }
    } else if b == 34u8 {
        LexState { in_str: true, ..st }
    } else if b == 123u8 || b == 91u8 {
        LexState { depth: st.depth + 1, ..st }
    } else if b == 125u8 || b == 93u8 {
        LexState { depth: st.depth - 1, ..st }
    } else {
        st
    }
}

/// The reading of `hay` before index `i`.
pub open spec fn lex_state(hay: Seq<u8>, i: int) -> LexState
    decreases i,
{
    if i <= 0 || i > hay.len() {
        LexState { depth: 0, in_str: false, escaped: false }
    } else {
        lex_step(lex_state(hay, i - 1), hay[i - 1])
    }
}

/// A key of depth `target` starts at index `i`: outside every string
/// literal, at that nesting depth, `hay` continues with the bytes of `key`.
pub open spec fn key_at(hay: Seq<u8>, key: Seq<u8>, target: int, i: int) -> bool {
    &&& 0 <= i
    &&& i + key.len() <= hay.len()
    &&& !lex_state(hay, i).in_str
    &&& lex_state(hay, i).depth == target
    &&& has_prefix(hay.skip(i), key)
}

/// The least index from `i` on at which a key of depth `target` starts.
pub open spec fn first_key_from(hay: Seq<u8>, key: Seq<u8>, target: int, i: int) -> Option<int>
    decreases hay.len() + 1 - i,
{
    if i < 0 || i + key.len() > hay.len() {
        None
    } else if key_at(hay, key, target, i) {
        Some(i)
    } else {
        first_key_from(hay, key, target, i + 1)
    }
}

proof fn lemma_key_scan_first(hay: Seq<u8>, key: Seq<u8>, target: int, i: int, depth: int, in_str: bool)
    requires
        key.len() > 0,
        key[0] == 34u8,
        0 <= i,
        i <= hay.len() ==> lex_state(hay, i) == (LexState { depth, in_str, escaped: false }),
    ensures
        key_scan(hay, key, target, i, depth, in_str) == first_key_from(hay, key, target, i),
    decreases hay.len() + 1 - i,
{
    if i + key.len() > hay.len() {
    } else {
        let b = hay[i];
        let st1 = lex_state(hay, i + 1);
        assert(st1 == lex_step(lex_state(hay, i), b));
        if has_prefix(hay.skip(i), key) {
            assert(hay.skip(i).take(key.len() as int)[0] == b);
        }
        if in_str {
            if b == 92u8 {
                if i + 2 <= hay.len() {
                    assert(lex_state(hay, i + 2) == lex_step(st1, hay[i + 1]));
                }
                lemma_key_scan_first(hay, key, target, i + 2, depth, true);
                assert(!key_at(hay, key, target, i + 1));
            } else if b == 34u8 {
                lemma_key_scan_first(hay, key, target, i + 1, depth, false);
            } else {
                lemma_key_scan_first(hay, key, target, i + 1, depth, true);
            }
        } else if b == 34u8 {
            if !(depth == target && has_prefix(hay.skip(i), key)) {
                lemma_key_scan_first(hay, key, target, i + 1, depth, true);
            }
        } else if b == 123u8 || b == 91u8 {
            lemma_key_scan_first(hay, key, target, i + 1, depth + 1, false);
        } else if b == 125u8 || b == 93u8 {
            lemma_key_scan_first(hay, key, target, i + 1, depth - 1, false);
        } else {
            lemma_key_scan_first(hay, key, target, i + 1, depth, false);
        }
    }
}

proof fn lemma_first_key_least(hay: Seq<u8>, key: Seq<u8>, target: int, i: int)
    requires
        0 <= i,
    ensures
        match first_key_from(hay, key, target, i) {
            Some(p) => i <= p && key_at(hay, key, target, p) && forall|j: int| i <= j < p ==> !key_at(hay, key, target, j),
            None => forall|j: int| i <= j ==> !key_at(hay, key, target, j),
        },
    decreases hay.len() + 1 - i,
{
    if i + key.len() <= hay.len() && !key_at(hay, key, target, i) {
        lemma_first_key_least(hay, key, target, i + 1);
    }
}

/// The depth-aware key finder gives the least index at which a key of the
/// target depth starts outside every string literal (depth counting `{`
/// and `[` against `}` and `]` outside strings, a backslash inside a
/// string hiding the byte after it), and none when there is no such index.
pub proof fn lemma_key_at_depth_least(hay: Seq<u8>, key: Seq<u8>, target: int)
    requires
        key.len() > 0,
        key[0] == 34u8,
    ensures
        match key_at_depth_spec(hay, key, target) {
            Some(i) => key_at(hay, key, target, i) && forall|j: int| 0 <= j < i ==> !key_at(hay, key, target, j),
            None => forall|j: int| !key_at(hay, key, target, j),
        },
{
    lemma_key_scan_first(hay, key, target, 0, 0, false);
    lemma_first_key_least(hay, key, target, 0);
}

} // verus!
