//! Line pricing: one cart line priced in fixed-point cents (scale 2), with
//! the first applicable discount rule and the first matching tax rule
//! (rates at scale 4, so 0.08 reads as 800), rounded half away from zero.
use vstd::prelude::*;
use vstd::string::StringSliceAdditionalSpecFns;
use crate::scan::{
    balanced_end, balanced_spec, bracketed_after_key, bytes_eq, bracketed_after_key_spec, digit_run,
    digits_value, index_of_from, int_magnitude, is_digit, is_ws, lemma_digit_run,
    lemma_skip_ws_len, parse_int_spec, scannable, sign_len, skip_ws, skip_ws_spec,
    value_after_key, value_after_key_spec, extract_string, extract_string_spec, extract_bool,
    extract_bool_spec, extract_string_at_depth, extract_string_at_depth_spec,
    array_after_key_at_depth, object_after_key_at_depth, bracketed_at_depth_spec,
};
use crate::digest::{fnv1a64, fnv_state, hex16, hex_digits};
use crate::emit::{copies, copy_next, copy_signed, greedy, holds_greedy, lemma_copies_concat,
    lemma_copies_greedy, lemma_greedy_len, lemma_holds_greedy_start, signed_chunks};

verus! {

/// `n` held at `i64::MAX`.
pub open spec fn cap64(n: int) -> int {
    if n > i64::MAX {
        i64::MAX as int
    } else {
        n
    }
}

/// The integer literal that opens `s` after its whitespace, its magnitude
/// held at `i64::MAX`.
pub open spec fn parse_int_sat(s: Seq<u8>) -> Option<int> {
    let rest = skip_ws_spec(s);
    match parse_int_spec(rest) {
        Some(v) => Some(
            if sign_len(rest) == 1 {
                -cap64(int_magnitude(rest) as int)
            } else {
                cap64(int_magnitude(rest) as int)
            },
        ),
        None => None,
    }
}

proof fn lemma_cap_step(x: int, d: int)
    requires
        x >= 0,
        0 <= d <= 9,
    ensures
        cap64(cap64(x) * 10 + d) == cap64(x * 10 + d),
{
}

/// Reads the digit run of `s` that starts at `start`, the value held at
/// `i64::MAX`; returns the value and the index after the run.
fn digits_capped(s: &[u8], start: usize) -> (r: (i64, usize))
    requires
        start <= s@.len(),
    ensures
        r.1 as int == start + digit_run(s@.skip(start as int)),
        r.0 as int == cap64(digits_value(s@.skip(start as int).take(digit_run(s@.skip(start as int)) as int)) as int),
        r.0 >= 0,
{
    let ghost tail = s@.skip(start as int);
    proof {
        lemma_digit_run(tail);
        assert(tail.take(0) =~= Seq::<u8>::empty());
    }
    let ghost run = digit_run(tail) as int;
    let mut j = start;
    let mut v: i64 = 0;
    while j < s.len() && s[j] >= 48u8 && s[j] <= 57u8
        invariant
            start <= j <= s@.len(),
            tail == s@.skip(start as int),
            run == digit_run(tail),
            run <= tail.len(),
            forall|i: int| 0 <= i < run ==> is_digit(#[trigger] tail[i]),
            run < tail.len() ==> !is_digit(tail[run]),
            j - start <= run,
            v >= 0,
            v as int == cap64(digits_value(tail.take(j - start)) as int),
        decreases s@.len() - j,
    {
        proof {
            if j - start == run {
                assert(tail[run] == s@[j as int]);
            }
            let k = (j - start + 1) as int;
            assert(tail.take(k).drop_last() =~= tail.take(k - 1));
            assert(tail.take(k).last() == s@[j as int]);
            lemma_cap_step(digits_value(tail.take(k - 1)) as int, (s@[j as int] - 48) as int);
        }
        let d = (s[j] - 48u8) as i64;
        v = match v.checked_mul(10) {
            Some(p) => match p.checked_add(d) {
                Some(q) => q,
                None => i64::MAX,
            },
            None => i64::MAX,
        };
        j = j + 1;
    }
    proof {
        if j - start < run {
            assert(tail[j - start] == s@[j as int]);
        }
    }
    (v, j)
}

/// The integer literal that opens `s` after its whitespace: an optional
/// minus, then at least one digit; the magnitude is held at `i64::MAX`.
pub fn parse_int(s: &[u8]) -> (r: Option<i64>)
    ensures
        r matches Some(v) ==> parse_int_sat(s@) == Some(v as int),
        r is None ==> parse_int_sat(s@) is None,
{
    let rest = skip_ws(s);
    let mut j: usize = 0;
    let neg = rest.len() > 0 && rest[0] == 45u8;
    if neg {
        j = 1;
    }
    assert(j == sign_len(rest@));
    let (v, e) = digits_capped(rest, j);
    if e == j || rest.len() == 0 {
        return None;
    }
    Some(if neg { -v } else { v })
}

/// Whether `s`, after its whitespace, opens with a minus sign.
pub fn starts_with_minus(s: &[u8]) -> (r: bool)
    ensures
        r == (skip_ws_spec(s@).len() > 0 && skip_ws_spec(s@)[0] == 45u8),
{
    let rest = skip_ws(s);
    rest.len() > 0 && rest[0] == 45u8
}


/// Ten to the power `n`.
pub open spec fn pow10(n: nat) -> int
    decreases n,
{
    if n == 0 {
        1
    } else {
        10 * pow10((n - 1) as nat)
    }
}

proof fn lemma_pow10_mono(a: nat, b: nat)
    requires
        a <= b,
    ensures
        1 <= pow10(a) <= pow10(b),
    decreases b,
{
    if b > a {
        lemma_pow10_mono(a, (b - 1) as nat);
    } else {
        lemma_pow10_pos(a);
    }
}

proof fn lemma_pow10_pos(n: nat)
    ensures
        pow10(n) >= 1,
    decreases n,
{
    if n > 0 {
        lemma_pow10_pos((n - 1) as nat);
    }
}

proof fn lemma_pow10_18()
    ensures
        pow10(18) == 1_000_000_000_000_000_000,
{
    reveal_with_fuel(pow10, 19);
}

/// What the scaled-number reader has gathered: the whole part (held at
/// `i64::MAX`), the fraction digits kept and how many, whether the point
/// was passed, whether any digit was seen.
pub ghost struct ScaledState {
    pub whole: int,
    pub frac: int,
    pub fd: nat,
    pub in_frac: bool,
    pub any: bool,
}

/// The reader run over `s` from index `i`: digits go to the whole part until
/// the first point, then up to `scale` of them to the fraction; a second
/// point or any other byte ends the number.
pub open spec fn scaled_scan(s: Seq<u8>, scale: nat, i: int, st: ScaledState) -> ScaledState
    decreases s.len() - i,
{
    if i < 0 || i >= s.len() {
        st
    } else if s[i] == 46u8 {
        if st.in_frac {
            st
        } else {
            scaled_scan(
                s,
                scale,
                i + 1,
                ScaledState { whole: st.whole, frac: st.frac, fd: st.fd, in_frac: true, any: st.any },
            )
        }
    } else if !is_digit(s[i]) {
        st
    } else {
        let d = s[i] - 48;
        let st2 = if st.in_frac {
            if st.fd < scale {
                ScaledState {
                    whole: st.whole,
                    frac: st.frac * 10 + d,
                    fd: st.fd + 1,
                    in_frac: true,
                    any: true,
                }
            } else {
                ScaledState { whole: st.whole, frac: st.frac, fd: st.fd, in_frac: true, any: true }
            }
        } else {
            ScaledState {
                whole: cap64(st.whole * 10 + d),
                frac: st.frac,
                fd: st.fd,
                in_frac: false,
                any: true,
            }
        };
        scaled_scan(s, scale, i + 1, st2)
    }
}

/// `frac`, read with `fd` digits, widened to `scale` digits.
pub open spec fn pad_frac(frac: int, fd: nat, scale: nat) -> int
    decreases scale - fd,
{
    if fd >= scale {
        frac
    } else {
        pad_frac(frac * 10, fd + 1, scale)
    }
}

/// The decimal number that opens `s` after its whitespace, as an integer at
/// `scale` decimal places: extra fraction digits are dropped, the whole part
/// is held at `i64::MAX`, and so is the scaled value.
pub open spec fn parse_scaled_spec(s: Seq<u8>, scale: nat) -> Option<int> {
    let rest = skip_ws_spec(s);
    let j = sign_len(rest);
    let st = scaled_scan(
        rest.skip(j),
        scale,
        0,
        ScaledState { whole: 0, frac: 0, fd: 0, in_frac: false, any: false },
    );
    if !st.any {
        None
    } else {
        let v = cap64(cap64(st.whole * pow10(scale)) + pad_frac(st.frac, st.fd, scale));
        Some(if j == 1 { -v } else { v })
    }
}

/// Reads the decimal number that opens `s` as an integer at `target_scale`
/// decimal places.
pub fn parse_scaled(s: &[u8], target_scale: u32) -> (r: Option<i64>)
    requires
        target_scale <= 18,
    ensures
        r matches Some(v) ==> parse_scaled_spec(s@, target_scale as nat) == Some(v as int),
        r is None ==> parse_scaled_spec(s@, target_scale as nat) is None,
{
    let ghost sc = target_scale as nat;
    let rest0 = skip_ws(s);
    let neg = rest0.len() > 0 && rest0[0] == 45u8;
    let start: usize = if neg {
        1
    } else {
        0
    };
    let rest = &rest0[start..rest0.len()];
    assert(rest@ =~= rest0@.skip(sign_len(rest0@)));
    proof {
        lemma_pow10_mono(0, sc);
        lemma_pow10_mono(sc, 18);
        lemma_pow10_18();
    }
    let ghost init = ScaledState { whole: 0, frac: 0, fd: 0, in_frac: false, any: false };
    let ghost fin = scaled_scan(rest@, sc, 0, init);
    let mut whole: i64 = 0;
    let mut frac: i64 = 0;
    let mut fd: u32 = 0;
    let mut in_frac = false;
    let mut any = false;
    let mut stop = false;
    let mut i: usize = 0;
    while i < rest.len() && !stop
        invariant
            i <= rest@.len(),
            sc == target_scale as nat,
            target_scale <= 18,
            pow10(18) == 1_000_000_000_000_000_000,
            fin == scaled_scan(rest@, sc, 0, init),
            whole >= 0,
            0 <= frac < pow10(fd as nat),
            fd <= target_scale,
            in_frac == false ==> fd == 0 && frac == 0,
            scaled_scan(
                rest@,
                sc,
                i as int,
                ScaledState { whole: whole as int, frac: frac as int, fd: fd as nat, in_frac, any },
            ) == fin,
            stop ==> fin == (ScaledState {
                whole: whole as int,
                frac: frac as int,
                fd: fd as nat,
                in_frac,
                any,
            }),
        decreases rest@.len() - i + (if stop { 0int } else { 1int }),
    {
        let b = rest[i];
        if b == 46u8 {
            if in_frac {
                stop = true;
            } else {
                in_frac = true;
                i = i + 1;
            }
        } else if b < 48u8 || b > 57u8 {
            stop = true;
        } else {
            any = true;
            let d = (b - 48u8) as i64;
            if in_frac {
                if fd < target_scale {
                    proof {
                        lemma_pow10_mono((fd + 1) as nat, 18);
                    }
                    frac = frac * 10 + d;
                    fd = fd + 1;
                }
            } else {
                proof {
                    lemma_cap_step(whole as int, d as int);
                }
                whole = match whole.checked_mul(10) {
                    Some(p) => match p.checked_add(d) {
                        Some(q) => q,
                        None => i64::MAX,
                    },
                    None => i64::MAX,
                };
            }
            i = i + 1;
        }
    }
    if !any {
        return None;
    }
    let ghost f0 = frac as int;
    let ghost fd0 = fd as nat;
    while fd < target_scale
        invariant
            fd <= target_scale,
            target_scale <= 18,
            sc == target_scale as nat,
            pow10(18) == 1_000_000_000_000_000_000,
            0 <= frac < pow10(fd as nat),
            pad_frac(frac as int, fd as nat, sc) == pad_frac(f0, fd0, sc),
        decreases target_scale - fd,
    {
        proof {
            lemma_pow10_mono((fd + 1) as nat, 18);
        }
        frac = frac * 10;
        fd = fd + 1;
    }
    let mut scale: i64 = 1;
    let mut k: u32 = 0;
    while k < target_scale
        invariant
            k <= target_scale,
            target_scale <= 18,
            pow10(18) == 1_000_000_000_000_000_000,
            scale as int == pow10(k as nat),
        decreases target_scale - k,
    {
        proof {
            lemma_pow10_mono((k + 1) as nat, 18);
        }
        scale = scale * 10;
        k = k + 1;
    }
    proof {
        lemma_pow10_mono(0, sc);
    }
    let p = match whole.checked_mul(scale) {
        Some(p) => p,
        None => i64::MAX,
    };
    let mut v = match p.checked_add(frac) {
        Some(q) => q,
        None => i64::MAX,
    };
    if neg {
        v = -v;
    }
    Some(v)
}

/// Reads a money amount as cents.
pub fn parse_money_cents(s: &[u8]) -> (r: Option<i64>)
    ensures
        r matches Some(v) ==> parse_scaled_spec(s@, 2) == Some(v as int),
        r is None ==> parse_scaled_spec(s@, 2) is None,
{
    parse_scaled(s, 2)
}

/// Reads a rate at four decimal places (0.08 reads as 800).
pub fn parse_rate_scale4(s: &[u8]) -> (r: Option<i64>)
    ensures
        r matches Some(v) ==> parse_scaled_spec(s@, 4) == Some(v as int),
        r is None ==> parse_scaled_spec(s@, 4) is None,
{
    parse_scaled(s, 4)
}

/// Integer division with halves rounded away from zero; zero for a divisor
/// that is not positive.
pub open spec fn half_up_div_spec(numer: int, denom: int) -> int {
    if denom <= 0 {
        0
    } else if numer >= 0 {
        (numer + denom / 2) / denom
    } else {
        -((denom / 2 - numer) / denom)
    }
}

/// Whether the half-up division of `numer` by `denom` stays within `i64`
/// on the way: the half divisor added to a nonnegative numerator, or taken
/// from a negative one.
pub open spec fn half_up_div_fits(numer: int, denom: int) -> bool {
    &&& numer >= 0 ==> numer + denom / 2 <= i64::MAX
    &&& numer < 0 ==> numer - denom / 2 >= i64::MIN
}

/// Divides with halves rounded away from zero.
pub fn half_up_div(numer: i64, denom: i64) -> (r: i64)
    requires
        denom > 0 ==> half_up_div_fits(numer as int, denom as int),
    ensures
        r as int == half_up_div_spec(numer as int, denom as int),
{
    if denom <= 0 {
        return 0;
    }
    let half = denom / 2;
    if numer >= 0 {
        (numer + half) / denom
    } else {
        let m: i128 = (half as i128) - (numer as i128);
        let q: i128 = m / (denom as i128);
        assert(0 <= q <= m) by (nonlinear_arith)
            requires
                m >= 0,
                denom >= 1,
                q == m / (denom as i128),
        ;
        let res: i128 = -q;
        res as i64
    }
}


/// Where the number that starts at `i` of `rest` ends: digits and at most
/// one point (a second point ends it).
pub open spec fn num_end(rest: Seq<u8>, i: int, dot: bool) -> int
    decreases rest.len() - i,
{
    if i < 0 || i >= rest.len() {
        i
    } else if is_digit(rest[i]) {
        num_end(rest, i + 1, dot)
    } else if rest[i] == 46u8 && !dot {
        num_end(rest, i + 1, true)
    } else {
        i
    }
}

/// The number token that opens `rest`: an optional minus, then digits and at
/// most one point; empty unless it holds a digit.
pub open spec fn number_token(rest: Seq<u8>) -> Seq<u8> {
    let j = sign_len(rest);
    let e = num_end(rest, j, false);
    if exists|k: int| j <= k < e && is_digit(#[trigger] rest[k]) {
        rest.take(e)
    } else {
        Seq::empty()
    }
}

/// The number token after the colon of the first `key` in `hay`.
pub open spec fn number_after_key_spec(hay: Seq<u8>, key: Seq<u8>) -> Seq<u8> {
    match value_after_key_spec(hay, key) {
        Some(rest) => number_token(rest),
        None => Seq::empty(),
    }
}

/// The raw number token after the colon of the first `key` in `hay`.
pub fn number_after_key<'a>(hay: &'a [u8], key: &[u8]) -> (r: &'a [u8])
    requires
        key@.len() > 0,
    ensures
        r@ == number_after_key_spec(hay@, key@),
{
    let empty = &hay[0..0];
    assert(empty@ =~= Seq::<u8>::empty());
    let rest = match value_after_key(hay, key) {
        Some(r) => r,
        None => return empty,
    };
    let mut end: usize = 0;
    if rest.len() > 0 && rest[0] == 45u8 {
        end = 1;
    }
    let ghost j = end as int;
    assert(j == sign_len(rest@));
    let mut seen_digit = false;
    let mut seen_dot = false;
    let mut stop = false;
    while end < rest.len() && !stop
        invariant
            j <= end <= rest@.len(),
            num_end(rest@, end as int, seen_dot) == num_end(rest@, j, false),
            stop ==> num_end(rest@, end as int, seen_dot) == end,
            seen_digit == exists|k: int| j <= k < end && is_digit(#[trigger] rest@[k]),
        decreases rest@.len() - end + (if stop { 0int } else { 1int }),
    {
        let b = rest[end];
        if b >= 48u8 && b <= 57u8 {
            seen_digit = true;
            end = end + 1;
        } else if b == 46u8 && !seen_dot {
            seen_dot = true;
            proof {
                assert(!is_digit(rest@[end as int]));
                assert forall|k: int| j <= k < end + 1 && is_digit(#[trigger] rest@[k]) implies k
                    < end by {}
            }
            end = end + 1;
        } else {
            stop = true;
        }
    }
    if !seen_digit {
        return empty;
    }
    let r = &rest[0..end];
    assert(r@ =~= rest@.take(end as int));
    r
}

/// The array value after the colon of the first `key` in `hay`.
pub fn array_after_key<'a>(hay: &'a [u8], key: &[u8]) -> (r: Option<&'a [u8]>)
    requires
        scannable(hay@),
        key@.len() > 0,
    ensures
        r matches Some(v) ==> bracketed_after_key_spec(hay@, key@, 91u8, 93u8) == Some(v@),
        r is None ==> bracketed_after_key_spec(hay@, key@, 91u8, 93u8) is None,
        r matches Some(v) ==> v@.len() <= hay@.len(),
{
    bracketed_after_key(hay, key, 91u8, 93u8)
}

/// Where the next entry of a string array starts: whitespace and commas
/// skipped from `i`.
pub open spec fn skip_sep(s: Seq<u8>, i: int) -> int
    decreases s.len() - i,
{
    if 0 <= i < s.len() && (is_ws(s[i]) || s[i] == 44u8) {
        skip_sep(s, i + 1)
    } else {
        i
    }
}

/// Whether the strings of the array `arr`, read from index `i`, include
/// `needle`; reading stops at the closing bracket or at anything that is not
/// a string.
pub open spec fn strings_include_from(arr: Seq<u8>, needle: Seq<u8>, i: int) -> bool
    decreases arr.len() + 1 - i,
{
    let k = skip_sep(arr, i);
    if i < 0 || k < i || k >= arr.len() || arr[k] == 93u8 || arr[k] != 34u8 {
        false
    } else {
        let start = k + 1;
        let e = match index_of_from(arr, 34u8, start) {
            Some(e) => e,
            None => arr.len() as int,
        };
        if e < start || e > arr.len() {
            false
        } else if arr.subrange(start, e) == needle {
            true
        } else {
            strings_include_from(arr, needle, if e < arr.len() { e + 1 } else { e })
        }
    }
}

/// Whether the JSON string array `arr` holds `needle`.
pub open spec fn array_contains_spec(arr: Seq<u8>, needle: Seq<u8>) -> bool {
    arr.len() > 0 && arr[0] == 91u8 && strings_include_from(arr, needle, 1)
}

/// Whether the JSON string array `arr` holds `needle`.
pub fn array_contains_string(arr: &[u8], needle: &[u8]) -> (r: bool)
    ensures
        r == array_contains_spec(arr@, needle@),
{
    if arr.len() == 0 || arr[0] != 91u8 {
        return false;
    }
    let mut i: usize = 1;
    while i < arr.len()
        invariant
            1 <= i <= arr@.len(),
            strings_include_from(arr@, needle@, i as int) == array_contains_spec(arr@, needle@),
        decreases arr@.len() - i,
    {
        let ghost i0 = i as int;
        while i < arr.len() && (arr[i] == 32u8 || arr[i] == 10u8 || arr[i] == 9u8 || arr[i] == 13u8
            || arr[i] == 44u8)
            invariant
                i0 <= i <= arr@.len(),
                skip_sep(arr@, i0) == skip_sep(arr@, i as int),
            decreases arr@.len() - i,
        {
            i = i + 1;
        }
        if i >= arr.len() || arr[i] == 93u8 || arr[i] != 34u8 {
            return false;
        }
        i = i + 1;
        let start = i;
        while i < arr.len() && arr[i] != 34u8
            invariant
                start <= i <= arr@.len(),
                index_of_from(arr@, 34u8, start as int) == index_of_from(arr@, 34u8, i as int),
            decreases arr@.len() - i,
        {
            i = i + 1;
        }
        let item = &arr[start..i];
        assert(item@ =~= arr@.subrange(start as int, i as int));
        if bytes_eq(item, needle) {
            return true;
        }
        if i < arr.len() {
            i = i + 1;
        }
    }
    false
}

/// `s` with whitespace and separating commas removed from its front.
pub open spec fn skip_commas(s: Seq<u8>) -> Seq<u8>
    decreases s.len(),
{
    let t = skip_ws_spec(s);
    proof {
        lemma_skip_ws_len(s);
    }
    if t.len() > 0 && t[0] == 44u8 {
        skip_commas(t.drop_first())
    } else {
        t
    }
}

/// The next object of an array body: separators skipped, then an object
/// through its balancing brace; also what remains after it (whitespace
/// skipped), or the skipped remainder when no object opens there.
pub open spec fn next_object_spec(rest: Seq<u8>) -> (Option<Seq<u8>>, Seq<u8>) {
    let t = skip_commas(rest);
    if t.len() == 0 || t[0] != 123u8 {
        (None, t)
    } else {
        match balanced_spec(t, 123u8, 125u8) {
            Some(e) => if 0 <= e < t.len() {
                (Some(t.take(e + 1)), skip_ws_spec(t.skip(e + 1)))
            } else {
                (None, t)
            },
            None => (None, t),
        }
    }
}

proof fn lemma_skip_ws_idem(s: Seq<u8>)
    ensures
        skip_ws_spec(skip_ws_spec(s)) == skip_ws_spec(s),
        skip_commas(skip_ws_spec(s)) == skip_commas(s),
    decreases s.len(),
{
    if s.len() > 0 && is_ws(s[0]) {
        lemma_skip_ws_idem(s.drop_first());
    }
}

proof fn lemma_skip_commas_len(s: Seq<u8>)
    ensures
        skip_commas(s).len() <= s.len(),
    decreases s.len(),
{
    lemma_skip_ws_len(s);
    let t = skip_ws_spec(s);
    if t.len() > 0 && t[0] == 44u8 {
        lemma_skip_commas_len(t.drop_first());
    }
}

/// Takes the next object off the front of `rest`.
pub fn next_object<'a>(rest: &mut &'a [u8]) -> (r: Option<&'a [u8]>)
    requires
        scannable(old(rest)@),
    ensures
        final(rest)@ == next_object_spec(old(rest)@).1,
        match r {
            Some(o) => next_object_spec(old(rest)@).0 == Some(o@) && final(rest)@.len() < old(
                rest,
            )@.len() && o@.len() <= old(rest)@.len(),
            None => next_object_spec(old(rest)@).0 is None && final(rest)@.len() <= old(rest)@.len(),
        },
{
    let ghost r0 = rest@;
    let mut cur: &'a [u8] = skip_ws(*rest);
    proof {
        lemma_skip_ws_len(r0);
        lemma_skip_ws_idem(r0);
    }
    while cur.len() > 0 && cur[0] == 44u8
        invariant
            skip_commas(r0) == skip_commas(cur@),
            cur@.len() <= r0.len(),
            skip_ws_spec(cur@) == cur@,
        decreases cur@.len(),
    {
        let tail = &cur[1..cur.len()];
        assert(tail@ =~= cur@.drop_first());
        proof {
            lemma_skip_ws_len(tail@);
            lemma_skip_ws_idem(tail@);
        }
        cur = skip_ws(tail);
    }
    proof {
        assert(skip_commas(cur@) == cur@);
    }
    *rest = cur;
    if cur.len() == 0 || cur[0] != 123u8 {
        return None;
    }
    let end = match balanced_end(cur, 123u8, 125u8) {
        Some(e) => e,
        None => return None,
    };
    let obj = &cur[0..end + 1];
    assert(obj@ =~= cur@.take(end + 1));
    let after = &cur[end + 1..cur.len()];
    assert(after@ =~= cur@.skip(end + 1));
    *rest = skip_ws(after);
    Some(obj)
}


/// The first object of the array `arr`.
pub open spec fn first_object_spec(arr: Seq<u8>) -> Option<Seq<u8>> {
    if arr.len() == 0 || arr[0] != 91u8 {
        None
    } else {
        next_object_spec(skip_ws_spec(arr.skip(1))).0
    }
}

/// The first object of the array `arr`.
pub fn first_object_in_array<'a>(arr: &'a [u8]) -> (r: Option<&'a [u8]>)
    requires
        scannable(arr@),
    ensures
        r matches Some(o) ==> first_object_spec(arr@) == Some(o@) && o@.len() <= arr@.len(),
        r is None ==> first_object_spec(arr@) is None,
{
    if arr.len() == 0 || arr[0] != 91u8 {
        return None;
    }
    let tail = &arr[1..arr.len()];
    assert(tail@ =~= arr@.skip(1));
    let mut rest = skip_ws(tail);
    let ghost r0 = rest@;
    assert(r0 == skip_ws_spec(arr@.skip(1)));
    let r = next_object(&mut rest);
    proof {
        if r is Some {
            assert(first_object_spec(arr@) == next_object_spec(r0).0);
        }
    }
    r
}

/// `n` held within the range of `i64`.
pub open spec fn clamp64(n: int) -> int {
    if n > i64::MAX {
        i64::MAX as int
    } else if n < i64::MIN {
        i64::MIN as int
    } else {
        n
    }
}

/// The product of `a` and `b`, held within the range of `i64`.
pub fn sat_mul(a: i64, b: i64) -> (r: i64)
    ensures
        r as int == clamp64(a * b),
{
    match a.checked_mul(b) {
        Some(p) => p,
        None => {
            if (a < 0) == (b < 0) {
                assert(a * b >= 0) by (nonlinear_arith)
                    requires
                        (a < 0) == (b < 0),
                ;
                i64::MAX
            } else {
                assert(a * b <= 0) by (nonlinear_arith)
                    requires
                        (a < 0) != (b < 0),
                ;
                i64::MIN
            }
        },
    }
}

/// A discount rule as applied to a line: its id, type, value and amount.
pub ghost struct Discount {
    pub id: Seq<u8>,
    pub dtype: Seq<u8>,
    pub value: int,
    pub amount: int,
}

/// No discount.
pub open spec fn no_discount() -> Discount {
    Discount { id: Seq::empty(), dtype: Seq::empty(), value: 0, amount: 0 }
}

/// `o`'s value, or zero.
pub open spec fn or_zero(o: Option<int>) -> int {
    match o {
        Some(v) => v,
        None => 0,
    }
}

/// The discount given by the first rule of the array body `rest` that
/// applies to `sku` (a rule with `applies_to` applies to the SKUs it lists,
/// or to every SKU when `sku` is empty) and has type `percentage` (of the
/// gross, rounded half up) or `fixed` (an amount, at most the gross).
pub open spec fn discount_from(rest: Seq<u8>, sku: Seq<u8>, gross: int) -> Discount
    decreases rest.len(),
{
    let next = next_object_spec(rest);
    match next.0 {
        None => no_discount(),
        Some(obj) => if next.1.len() >= rest.len() {
            no_discount()
        } else {
            let id = extract_string_spec(obj, "\"id\"".spec_bytes());
            let dtype = extract_string_spec(obj, "\"type\"".spec_bytes());
            let raw = number_after_key_spec(obj, "\"value\"".spec_bytes());
            let applies = bracketed_after_key_spec(obj, "\"applies_to\"".spec_bytes(), 91u8, 93u8);
            if applies is Some && sku.len() > 0 && !array_contains_spec(applies->0, sku) {
                discount_from(next.1, sku, gross)
            } else {
                let value = or_zero(parse_int_sat(raw));
                if dtype == "percentage".spec_bytes() {
                    Discount {
                        id,
                        dtype,
                        value,
                        amount: half_up_div_spec(clamp64(gross * value), 100),
                    }
                } else if dtype == "fixed".spec_bytes() {
                    let a = or_zero(parse_scaled_spec(raw, 2));
                    Discount { id, dtype, value, amount: if a > gross { gross } else { a } }
                } else {
                    discount_from(next.1, sku, gross)
                }
            }
        },
    }
}

/// The percentage discount that `discount_from` picks, if any, has a product
/// that the half-up division can round without leaving `i64`.
pub open spec fn discount_safe(rest: Seq<u8>, sku: Seq<u8>, gross: int) -> bool
    decreases rest.len(),
{
    let next = next_object_spec(rest);
    match next.0 {
        None => true,
        Some(obj) => if next.1.len() >= rest.len() {
            true
        } else {
            let dtype = extract_string_spec(obj, "\"type\"".spec_bytes());
            let raw = number_after_key_spec(obj, "\"value\"".spec_bytes());
            let applies = bracketed_after_key_spec(obj, "\"applies_to\"".spec_bytes(), 91u8, 93u8);
            if applies is Some && sku.len() > 0 && !array_contains_spec(applies->0, sku) {
                discount_safe(next.1, sku, gross)
            } else if dtype == "percentage".spec_bytes() {
                half_up_div_fits(clamp64(gross * or_zero(parse_int_sat(raw))), 100)
            } else if dtype == "fixed".spec_bytes() {
                true
            } else {
                discount_safe(next.1, sku, gross)
            }
        },
    }
}

/// The discount the rules array `rules` gives a line of `sku` with `gross`.
pub open spec fn select_discount_spec(rules: Seq<u8>, sku: Seq<u8>, gross: int) -> Discount {
    if rules.len() == 0 || rules[0] != 91u8 {
        no_discount()
    } else {
        discount_from(skip_ws_spec(rules.skip(1)), sku, gross)
    }
}

/// Whether the discount for a line of `sku` with `gross` can be computed
/// within `i64`.
pub open spec fn select_discount_safe(rules: Seq<u8>, sku: Seq<u8>, gross: int) -> bool {
    rules.len() == 0 || rules[0] != 91u8 || discount_safe(skip_ws_spec(rules.skip(1)), sku, gross)
}

proof fn lemma_price_keys()
    ensures
        "\"id\"".spec_bytes().len() > 0,
        "\"type\"".spec_bytes().len() > 0,
        "\"value\"".spec_bytes().len() > 0,
        "\"applies_to\"".spec_bytes().len() > 0,
        "\"tax_code\"".spec_bytes().len() > 0,
        "\"rate\"".spec_bytes().len() > 0,
        "\"inclusive\"".spec_bytes().len() > 0,
        "\"currency\"".spec_bytes().len() > 0,
        "\"lines\"".spec_bytes().len() > 0,
        "\"pricing_config\"".spec_bytes().len() > 0,
        "\"sku\"".spec_bytes().len() > 0,
        "\"quantity\"".spec_bytes().len() > 0,
        "\"unit_price\"".spec_bytes().len() > 0,
        "\"discount_rules\"".spec_bytes().len() > 0,
        "\"tax_rules\"".spec_bytes().len() > 0,
        "[]".spec_bytes().len() == 2,
{
    broadcast use vstd::string::group_string_axioms;
    reveal_strlit("\"id\"");
    reveal_strlit("\"type\"");
    reveal_strlit("\"value\"");
    reveal_strlit("\"applies_to\"");
    reveal_strlit("\"tax_code\"");
    reveal_strlit("\"rate\"");
    reveal_strlit("\"inclusive\"");
    reveal_strlit("\"currency\"");
    reveal_strlit("\"lines\"");
    reveal_strlit("\"pricing_config\"");
    reveal_strlit("\"sku\"");
    reveal_strlit("\"quantity\"");
    reveal_strlit("\"unit_price\"");
    reveal_strlit("\"discount_rules\"");
    reveal_strlit("\"tax_rules\"");
    reveal_strlit("[]");
    assert(vstd::string::is_ascii("[]"));
    assert(vstd::string::is_ascii("\"id\""));
    assert(vstd::string::is_ascii("\"type\""));
    assert(vstd::string::is_ascii("\"value\""));
    assert(vstd::string::is_ascii("\"applies_to\""));
    assert(vstd::string::is_ascii("\"tax_code\""));
    assert(vstd::string::is_ascii("\"rate\""));
    assert(vstd::string::is_ascii("\"inclusive\""));
    assert(vstd::string::is_ascii("\"currency\""));
    assert(vstd::string::is_ascii("\"lines\""));
    assert(vstd::string::is_ascii("\"pricing_config\""));
    assert(vstd::string::is_ascii("\"sku\""));
    assert(vstd::string::is_ascii("\"quantity\""));
    assert(vstd::string::is_ascii("\"unit_price\""));
    assert(vstd::string::is_ascii("\"discount_rules\""));
    assert(vstd::string::is_ascii("\"tax_rules\""));
}

/// The discount that the rules array `rules` gives a line of `sku` with
/// `gross`: id, type, value and amount (all empty or zero when none applies).
pub fn select_discount<'a>(rules: &'a [u8], sku: &[u8], gross: i64) -> (r: (&'a [u8], &'a [u8], i64, i64))
    requires
        scannable(rules@),
        select_discount_safe(rules@, sku@, gross as int),
    ensures
        ({
            let d = select_discount_spec(rules@, sku@, gross as int);
            &&& r.0@ == d.id
            &&& r.1@ == d.dtype
            &&& r.2 as int == d.value
            &&& r.3 as int == d.amount
        }),
{
    proof {
        lemma_price_keys();
    }
    let empty = &rules[0..0];
    assert(empty@ =~= Seq::<u8>::empty());
    if rules.len() == 0 || rules[0] != 91u8 {
        return (empty, empty, 0, 0);
    }
    let tail = &rules[1..rules.len()];
    assert(tail@ =~= rules@.skip(1));
    let mut rest = skip_ws(tail);
    let ghost target = select_discount_spec(rules@, sku@, gross as int);
    loop
        invariant
            scannable(rest@),
            discount_from(rest@, sku@, gross as int) == target,
            target == select_discount_spec(rules@, sku@, gross as int),
            discount_safe(rest@, sku@, gross as int),
            empty@ == Seq::<u8>::empty(),
        decreases rest@.len(),
    {
        proof {
            lemma_price_keys();
        }
        let ghost before = rest@;
        let obj = match next_object(&mut rest) {
            Some(o) => o,
            None => {
                assert(discount_from(before, sku@, gross as int) == no_discount());
                return (empty, empty, 0, 0);
            },
        };
        let id = extract_string(obj, "\"id\"".as_bytes());
        let dtype = extract_string(obj, "\"type\"".as_bytes());
        let value_raw = number_after_key(obj, "\"value\"".as_bytes());
        proof {
            lemma_skip_commas_len(before);
        }
        let applies = array_after_key(obj, "\"applies_to\"".as_bytes());
        if let Some(arr) = applies {
            if sku.len() != 0 && !array_contains_string(arr, sku) {
                continue;
            }
        }
        let value = match parse_int(value_raw) {
            Some(v) => v,
            None => 0,
        };
        if bytes_eq(dtype, "percentage".as_bytes()) {
            let amount = half_up_div(sat_mul(gross, value), 100);
            return (id, dtype, value, amount);
        }
        if bytes_eq(dtype, "fixed".as_bytes()) {
            let amount = match parse_money_cents(value_raw) {
                Some(v) => v,
                None => 0,
            };
            let capped = if amount > gross {
                gross
            } else {
                amount
            };
            return (id, dtype, value, capped);
        }
    }
}


/// A tax rule as applied to a line: its id, amount, whether the rule says
/// prices include it, and its rate (at scale 4).
pub ghost struct Tax {
    pub id: Seq<u8>,
    pub amount: int,
    pub inclusive: bool,
    pub rate: int,
}

/// No tax.
pub open spec fn no_tax() -> Tax {
    Tax { id: Seq::empty(), amount: 0, inclusive: false, rate: 0 }
}

/// The tax given by the first rule of the array body `rest` whose tax code
/// matches `code` (a rule or a line without a code matches any) and whose
/// rate reads as a number: the rate (at scale 4) times `base`, rounded half
/// up.
pub open spec fn tax_from(rest: Seq<u8>, code: Seq<u8>, base: int) -> Tax
    decreases rest.len(),
{
    let next = next_object_spec(rest);
    match next.0 {
        None => no_tax(),
        Some(obj) => if next.1.len() >= rest.len() {
            no_tax()
        } else {
            let c = extract_string_spec(obj, "\"tax_code\"".spec_bytes());
            if code.len() > 0 && c.len() > 0 && c != code {
                tax_from(next.1, code, base)
            } else {
                match parse_scaled_spec(number_after_key_spec(obj, "\"rate\"".spec_bytes()), 4) {
                    None => tax_from(next.1, code, base),
                    Some(rate) => Tax {
                        id: extract_string_spec(obj, "\"id\"".spec_bytes()),
                        amount: half_up_div_spec(clamp64(base * rate), 10000),
                        inclusive: extract_bool_spec(obj, "\"inclusive\"".spec_bytes()) == Some(true),
                        rate,
                    },
                }
            }
        },
    }
}

/// The tax that `tax_from` picks can be rounded within `i64`.
pub open spec fn tax_safe(rest: Seq<u8>, code: Seq<u8>, base: int) -> bool
    decreases rest.len(),
{
    let next = next_object_spec(rest);
    match next.0 {
        None => true,
        Some(obj) => if next.1.len() >= rest.len() {
            true
        } else {
            let c = extract_string_spec(obj, "\"tax_code\"".spec_bytes());
            if code.len() > 0 && c.len() > 0 && c != code {
                tax_safe(next.1, code, base)
            } else {
                match parse_scaled_spec(number_after_key_spec(obj, "\"rate\"".spec_bytes()), 4) {
                    None => tax_safe(next.1, code, base),
                    Some(rate) => half_up_div_fits(clamp64(base * rate), 10000),
                }
            }
        },
    }
}

/// The tax that the rules array `rules` gives a line with tax code `code`
/// and taxable base `base`.
pub open spec fn select_tax_spec(rules: Seq<u8>, code: Seq<u8>, base: int) -> Tax {
    if rules.len() == 0 || rules[0] != 91u8 {
        no_tax()
    } else {
        tax_from(skip_ws_spec(rules.skip(1)), code, base)
    }
}

/// Whether the tax of such a line can be computed within `i64`.
pub open spec fn select_tax_safe(rules: Seq<u8>, code: Seq<u8>, base: int) -> bool {
    rules.len() == 0 || rules[0] != 91u8 || tax_safe(skip_ws_spec(rules.skip(1)), code, base)
}

/// The tax that the rules array `rules` gives a line with tax code
/// `tax_code` and taxable base `taxable_base`: rule id, amount, inclusive.
pub fn select_tax<'a>(rules: &'a [u8], tax_code: &[u8], taxable_base: i64) -> (r: (&'a [u8], i64, bool, i64))
    requires
        scannable(rules@),
        select_tax_safe(rules@, tax_code@, taxable_base as int),
    ensures
        ({
            let t = select_tax_spec(rules@, tax_code@, taxable_base as int);
            &&& r.0@ == t.id
            &&& r.1 as int == t.amount
            &&& r.2 == t.inclusive
            &&& r.3 as int == t.rate
        }),
{
    proof {
        lemma_price_keys();
    }
    let empty = &rules[0..0];
    assert(empty@ =~= Seq::<u8>::empty());
    if rules.len() == 0 || rules[0] != 91u8 {
        return (empty, 0, false, 0);
    }
    let tail = &rules[1..rules.len()];
    assert(tail@ =~= rules@.skip(1));
    let mut rest = skip_ws(tail);
    let ghost target = select_tax_spec(rules@, tax_code@, taxable_base as int);
    loop
        invariant
            scannable(rest@),
            tax_from(rest@, tax_code@, taxable_base as int) == target,
            target == select_tax_spec(rules@, tax_code@, taxable_base as int),
            tax_safe(rest@, tax_code@, taxable_base as int),
            empty@ == Seq::<u8>::empty(),
        decreases rest@.len(),
    {
        proof {
            lemma_price_keys();
        }
        let ghost before = rest@;
        let obj = match next_object(&mut rest) {
            Some(o) => o,
            None => {
                assert(tax_from(before, tax_code@, taxable_base as int) == no_tax());
                return (empty, 0, false, 0);
            },
        };
        let id = extract_string(obj, "\"id\"".as_bytes());
        let code = extract_string(obj, "\"tax_code\"".as_bytes());
        if tax_code.len() != 0 && code.len() != 0 && !bytes_eq(code, tax_code) {
            continue;
        }
        let rate_raw = number_after_key(obj, "\"rate\"".as_bytes());
        let rate = match parse_rate_scale4(rate_raw) {
            Some(r) => r,
            None => {
                continue;
            },
        };
        let inclusive = match extract_bool(obj, "\"inclusive\"".as_bytes()) {
            Some(b) => b,
            None => false,
        };
        let amount = half_up_div(sat_mul(taxable_base, rate), 10000);
        return (id, amount, inclusive, rate);
    }
}

/// The tax held inside a price that includes it: the inclusive base times
/// the rate over one plus the rate (both at scale 4), rounded half up; zero
/// when one plus the rate is not positive.
pub open spec fn extracted_tax_spec(inclusive_base: int, rate: int) -> int {
    half_up_div_spec(clamp64(inclusive_base * rate), clamp64(10000 + rate))
}

/// The tax held inside an inclusive price of `inclusive_base` at `rate`
/// (scale 4).
pub fn extract_inclusive_tax(inclusive_base: i64, rate: i64) -> (r: i64)
    requires
        clamp64(10000 + rate) > 0 ==> half_up_div_fits(clamp64(inclusive_base * rate), clamp64(10000 + rate)),
    ensures
        r as int == extracted_tax_spec(inclusive_base as int, rate as int),
{
    let numer = sat_mul(inclusive_base, rate);
    let denom = if rate > i64::MAX - 10000 {
        i64::MAX
    } else {
        rate + 10000
    };
    half_up_div(numer, denom)
}

/// Writes `v` in decimal at `i`: `0` whole, else the sign, then each digit
/// where it fits.
pub fn write_i64(out: &mut [u8], i: usize, v: i64) -> (r: usize)
    requires
        v > i64::MIN,
    ensures
        (final(out)@, r as int) == copies(old(out)@, i as int, signed_chunks(v as int)),
{
    copy_signed(out, i, v)
}

/// The chunks in which an amount of cents is written: a minus sign when
/// negative, the whole units, a point, a zero before a single-digit
/// remainder, and the remainder.
pub open spec fn cents_chunks(cents: int) -> Seq<Seq<u8>> {
    let a = if cents < 0 { -cents } else { cents };
    (if cents < 0 { seq![seq![45u8]] } else { Seq::empty() }) + signed_chunks(a / 100) + seq![
        seq![46u8],
    ] + (if a % 100 < 10 { seq![seq![48u8]] } else { Seq::empty() }) + signed_chunks(a % 100)
}

/// Writes an amount of cents as units and hundredths at `i`.
pub fn write_cents(out: &mut [u8], i: usize, cents: i64) -> (r: usize)
    requires
        cents > i64::MIN,
    ensures
        (final(out)@, r as int) == copies(old(out)@, i as int, cents_chunks(cents as int)),
{
    let ghost o = out@;
    let ghost at = i as int;
    let neg = cents < 0;
    let abs = if neg {
        -cents
    } else {
        cents
    };
    let whole = abs / 100;
    let frac = abs % 100;
    let mut j = i;
    let ghost mut ch = Seq::<Seq<u8>>::empty();
    if neg {
        let mut minus: Vec<u8> = Vec::new();
        minus.push(45u8);
        j = copy_next(out, j, minus.as_slice(), Ghost(o), Ghost(at), Ghost(ch));
        proof {
            ch = ch.push(seq![45u8]);
            assert(minus@ =~= seq![45u8]);
        }
    }
    proof {
        lemma_copies_concat(o, at, ch, signed_chunks(whole as int));
    }
    j = write_i64(out, j, whole);
    proof {
        ch = ch + signed_chunks(whole as int);
    }
    let mut dot: Vec<u8> = Vec::new();
    dot.push(46u8);
    j = copy_next(out, j, dot.as_slice(), Ghost(o), Ghost(at), Ghost(ch));
    proof {
        assert(dot@ =~= seq![46u8]);
        ch = ch.push(seq![46u8]);
    }
    if frac < 10 {
        let mut zero: Vec<u8> = Vec::new();
        zero.push(48u8);
        j = copy_next(out, j, zero.as_slice(), Ghost(o), Ghost(at), Ghost(ch));
        proof {
            assert(zero@ =~= seq![48u8]);
            ch = ch.push(seq![48u8]);
        }
    }
    proof {
        lemma_copies_concat(o, at, ch, signed_chunks(frac as int));
    }
    j = write_i64(out, j, frac);
    proof {
        ch = ch + signed_chunks(frac as int);
        assert(ch =~= cents_chunks(cents as int));
    }
    j
}

/// Writes an amount of cents inside a JSON string; the spelling has no byte
/// that needs escaping.
pub fn write_cents_into_json_str(out: &mut [u8], i: usize, cents: i64) -> (r: usize)
    requires
        cents > i64::MIN,
    ensures
        (final(out)@, r as int) == copies(old(out)@, i as int, cents_chunks(cents as int)),
{
    write_cents(out, i, cents)
}

/// Writes an integer inside a JSON string; the spelling has no byte that
/// needs escaping.
pub fn write_i64_into_json_str(out: &mut [u8], i: usize, v: i64) -> (r: usize)
    requires
        v > i64::MIN,
    ensures
        (final(out)@, r as int) == copies(old(out)@, i as int, signed_chunks(v as int)),
{
    write_i64(out, i, v)
}

/// Writes the sixteen hex digits of `v` at `i`, whole or not at all.
pub fn write_hex_u64(out: &mut [u8], i: usize, v: u64) -> (r: usize)
    ensures
        (final(out)@, r as int) == copies(old(out)@, i as int, seq![hex16(v)]),
{
    let full = hex_digits(v);
    let ghost o = out@;
    let r = copy_next(out, i, full.as_slice(), Ghost(o), Ghost(i as int), Ghost(Seq::empty()));
    assert(Seq::<Seq<u8>>::empty().push(hex16(v)) =~= seq![hex16(v)]);
    r
}

/// The config hash label: `fnv1a64:` and the hex digits of the FNV-1a hash
/// of the config's bytes.
pub open spec fn config_hash_spec(config: Seq<u8>) -> Seq<u8> {
    "fnv1a64:".spec_bytes() + hex16(fnv_state(config))
}

/// Writes the config hash label at the start of `out`.
pub fn write_config_hash(config: &[u8], out: &mut [u8]) -> (r: usize)
    ensures
        (final(out)@, r as int) == copies(old(out)@, 0, seq!["fnv1a64:".spec_bytes(), hex16(fnv_state(config@))]),
{
    let h = fnv1a64(config);
    let ghost o = out@;
    let label = "fnv1a64:".as_bytes();
    let i = copy_next(out, 0, label, Ghost(o), Ghost(0), Ghost(Seq::empty()));
    proof {
        lemma_copies_concat(o, 0, seq![label@], seq![hex16(h)]);
        assert(Seq::<Seq<u8>>::empty().push(label@) =~= seq![label@]);
        assert(seq![label@] + seq![hex16(h)] =~= seq![label@, hex16(h)]);
    }
    write_hex_u64(out, i, h)
}

/// The chunks of a failure document.
pub open spec fn fail_chunks(currency: Seq<u8>, code: Seq<u8>, trace: Seq<u8>) -> Seq<Seq<u8>> {
    seq![
        "{\"currency\":\"".spec_bytes(),
        if currency.len() == 0 { "USD".spec_bytes() } else { currency },
        "\",\"lines\":[],\"totals\":{\"gross\":0,\"discount_total\":0,\"taxable_base\":0,\"tax_total\":0,\"net\":0},\"applied_rules\":[],\"evaluation_trace\":".spec_bytes(),
        trace,
        ",\"config_hash\":null,\"reason_code\":\"".spec_bytes(),
        code,
        "\",\"confidence\":\"high\"}".spec_bytes(),
    ]
}

/// Writes a failure document at the start of `out`, each piece landing only
/// where it fits whole.
pub fn fail(out: &mut [u8], currency: &[u8], code: &[u8], trace: &[u8]) -> (r: usize)
    ensures
        (final(out)@, r as int) == copies(old(out)@, 0, fail_chunks(currency@, code@, trace@)),
        holds_greedy(final(out)@, r as int, fail_chunks(currency@, code@, trace@)),
        final(out)@.len() == old(out)@.len(),
{
    let ghost o = out@;
    let ghost mut ch = Seq::<Seq<u8>>::empty();
    let l = "{\"currency\":\"".as_bytes();
    let mut i = copy_next(out, 0, l, Ghost(o), Ghost(0), Ghost(ch));
    proof { ch = ch.push(l@); }
    let c = if currency.len() == 0 {
        "USD".as_bytes()
    } else {
        currency
    };
    i = copy_next(out, i, c, Ghost(o), Ghost(0), Ghost(ch));
    proof { ch = ch.push(c@); }
    let l = "\",\"lines\":[],\"totals\":{\"gross\":0,\"discount_total\":0,\"taxable_base\":0,\"tax_total\":0,\"net\":0},\"applied_rules\":[],\"evaluation_trace\":".as_bytes();
    i = copy_next(out, i, l, Ghost(o), Ghost(0), Ghost(ch));
    proof { ch = ch.push(l@); }
    i = copy_next(out, i, trace, Ghost(o), Ghost(0), Ghost(ch));
    proof { ch = ch.push(trace@); }
    let l = ",\"config_hash\":null,\"reason_code\":\"".as_bytes();
    i = copy_next(out, i, l, Ghost(o), Ghost(0), Ghost(ch));
    proof { ch = ch.push(l@); }
    i = copy_next(out, i, code, Ghost(o), Ghost(0), Ghost(ch));
    proof { ch = ch.push(code@); }
    let l = "\",\"confidence\":\"high\"}".as_bytes();
    i = copy_next(out, i, l, Ghost(o), Ghost(0), Ghost(ch));
    proof {
        ch = ch.push(l@);
        assert(ch =~= fail_chunks(currency@, code@, trace@));
        lemma_holds_greedy_start(o);
        lemma_copies_greedy(o, 0, Seq::empty(), ch);
        assert(Seq::<Seq<u8>>::empty() + ch =~= ch);
    }
    i
}


/// A priced line, as read and computed.
pub ghost struct Priced {
    pub currency: Seq<u8>,
    pub line_id: Seq<u8>,
    pub sku: Seq<u8>,
    pub quantity: int,
    pub unit: int,
    pub gross: int,
    pub disc: Discount,
    pub tax: Tax,
    pub final_taxable: int,
    pub final_tax: int,
    pub net: int,
    pub hash: Seq<u8>,
}

/// A priced line in the exec world: what the response document spells.
pub struct PricedLine<'a> {
    pub currency: &'a [u8],
    pub line_id: &'a [u8],
    pub sku: &'a [u8],
    pub quantity: i64,
    pub unit: i64,
    pub gross: i64,
    pub disc_id: &'a [u8],
    pub disc_type: &'a [u8],
    pub disc_value: i64,
    pub discount: i64,
    pub tax_id: &'a [u8],
    pub tax_inclusive: bool,
    pub tax_amount: i64,
    pub tax_rate: i64,
    pub final_taxable: i64,
    pub final_tax: i64,
    pub net: i64,
}

impl<'a> PricedLine<'a> {
    /// The line as values, with the config hash label `hash`.
    pub open spec fn priced(&self, hash: Seq<u8>) -> Priced {
        Priced {
            currency: self.currency@,
            line_id: self.line_id@,
            sku: self.sku@,
            quantity: self.quantity as int,
            unit: self.unit as int,
            gross: self.gross as int,
            disc: Discount {
                id: self.disc_id@,
                dtype: self.disc_type@,
                value: self.disc_value as int,
                amount: self.discount as int,
            },
            tax: Tax {
                id: self.tax_id@,
                amount: self.tax_amount as int,
                inclusive: self.tax_inclusive,
                rate: self.tax_rate as int,
            },
            final_taxable: self.final_taxable as int,
            final_tax: self.final_tax as int,
            net: self.net as int,
            hash,
        }
    }

    /// Every amount the document spells can be negated within `i64`.
    pub open spec fn printable(&self) -> bool {
        &&& self.quantity > i64::MIN
        &&& self.unit > i64::MIN
        &&& self.gross > i64::MIN
        &&& self.disc_value > i64::MIN
        &&& self.discount > i64::MIN
        &&& self.final_taxable > i64::MIN
        &&& self.final_tax > i64::MIN
        &&& self.net > i64::MIN
    }
}

/// `[]`, or a one-string array holding `id`.
pub open spec fn id_array(id: Seq<u8>) -> Seq<Seq<u8>> {
    if id.len() == 0 {
        seq!["[]".spec_bytes()]
    } else {
        seq!["[\"".spec_bytes(), id, "\"]".spec_bytes()]
    }
}

/// `c` followed by the chunks of the `lines` part of a priced document.
pub open spec fn line_after(c: Seq<Seq<u8>>, p: Priced) -> Seq<Seq<u8>> {
    let c = c + seq!["{\"currency\":\"".spec_bytes()];
    let c = c + seq![p.currency];
    let c = c + seq!["\",\"lines\":[{".spec_bytes()];
    let c = c + seq!["\"id\":\"".spec_bytes()];
    let c = c + seq![p.line_id];
    let c = c + seq!["\",\"sku\":\"".spec_bytes()];
    let c = c + seq![p.sku];
    let c = c + seq!["\",\"quantity\":".spec_bytes()];
    let c = c + signed_chunks(p.quantity);
    let c = c + seq![",\"unit_price\":".spec_bytes()];
    let c = c + cents_chunks(p.unit);
    let c = c + seq![",\"gross\":".spec_bytes()];
    let c = c + cents_chunks(p.gross);
    let c = c + seq![",\"discount_amount\":".spec_bytes()];
    let c = c + cents_chunks(p.disc.amount);
    let c = c + seq![",\"taxable_base\":".spec_bytes()];
    let c = c + cents_chunks(p.final_taxable);
    let c = c + seq![",\"tax_amount\":".spec_bytes()];
    let c = c + cents_chunks(p.final_tax);
    let c = c + seq![",\"net\":".spec_bytes()];
    let c = c + cents_chunks(p.net);
    let c = c + seq![",\"applied_discounts\":".spec_bytes()];
    let c = c + id_array(p.disc.id);
    let c = c + seq![",\"applied_taxes\":".spec_bytes()];
    let c = c + id_array(p.tax.id);
    c
}

/// `c` followed by the chunks of the `totals` and `applied_rules` parts.
pub open spec fn totals_after(c: Seq<Seq<u8>>, p: Priced) -> Seq<Seq<u8>> {
    let c = c + seq!["}],\"totals\":{".spec_bytes()];
    let c = c + seq!["\"gross\":".spec_bytes()];
    let c = c + cents_chunks(p.gross);
    let c = c + seq![",\"discount_total\":".spec_bytes()];
    let c = c + cents_chunks(p.disc.amount);
    let c = c + seq![",\"taxable_base\":".spec_bytes()];
    let c = c + cents_chunks(p.final_taxable);
    let c = c + seq![",\"tax_total\":".spec_bytes()];
    let c = c + cents_chunks(p.final_tax);
    let c = c + seq![",\"net\":".spec_bytes()];
    let c = c + cents_chunks(p.net);
    let c = c + seq!["},\"applied_rules\":[".spec_bytes()];
    let c = if p.disc.id.len() > 0 {
        let c = c + seq!["{\"rule_id\":\"".spec_bytes()];
        let c = c + seq![p.disc.id];
        let c = c + seq!["\",\"type\":\"discount\",\"amount\":".spec_bytes()];
        let c = c + cents_chunks(p.disc.amount);
        let c = c + seq!["}".spec_bytes()];
        c
    } else {
        c
    };
    let c = if p.tax.id.len() > 0 {
        let c = if p.disc.id.len() > 0 {
            let c = c + seq![",".spec_bytes()];
            c
        } else {
            c
        };
        let c = c + seq!["{\"rule_id\":\"".spec_bytes()];
        let c = c + seq![p.tax.id];
        let c = c + seq!["\",\"type\":\"tax\",\"amount\":".spec_bytes()];
        let c = c + cents_chunks(p.final_tax);
        let c = c + seq!["}".spec_bytes()];
        c
    } else {
        c
    };
    c
}

/// `c` followed by the chunks of the `evaluation_trace` part and the closing fields.
pub open spec fn trace_after(c: Seq<Seq<u8>>, p: Priced) -> Seq<Seq<u8>> {
    let c = c + seq!["],\"evaluation_trace\":[".spec_bytes()];
    let c = c + seq!["\"currency=".spec_bytes()];
    let c = c + seq![p.currency];
    let c = c + seq![" rounding=half_up\",".spec_bytes()];
    let c = c + seq!["\"".spec_bytes()];
    let c = if p.line_id.len() == 0 {
        let c = c + seq!["line".spec_bytes()];
        c
    } else {
        c
    };
    let c = if p.line_id.len() != 0 {
        let c = c + seq![p.line_id];
        c
    } else {
        c
    };
    let c = c + seq![": ".spec_bytes()];
    let c = c + signed_chunks(p.quantity);
    let c = c + seq![" x ".spec_bytes()];
    let c = c + cents_chunks(p.unit);
    let c = c + seq![" = ".spec_bytes()];
    let c = c + cents_chunks(p.gross);
    let c = c + seq!["\"".spec_bytes()];
    let c = if p.disc.id.len() > 0 {
        let c = c + seq![",\"applied discount ".spec_bytes()];
        let c = c + seq![p.disc.id];
        let c = if p.disc.dtype == "percentage".spec_bytes() {
            let c = c + seq![" (".spec_bytes()];
            let c = c + signed_chunks(p.disc.value);
            let c = c + seq!["%)".spec_bytes()];
            c
        } else {
            c
        };
        let c = c + seq![" -> -".spec_bytes()];
        let c = c + cents_chunks(p.disc.amount);
        let c = c + seq!["\"".spec_bytes()];
        c
    } else {
        c
    };
    let c = if p.tax.id.len() > 0 {
        let c = c + seq![",\"taxable base ".spec_bytes()];
        let c = c + cents_chunks(p.final_taxable);
        let c = c + seq![" tax=".spec_bytes()];
        let c = c + cents_chunks(p.final_tax);
        let c = c + seq!["\"".spec_bytes()];
        c
    } else {
        c
    };
    let c = c + seq![",\"net ".spec_bytes()];
    let c = c + cents_chunks(p.net);
    let c = c + seq!["\"],\"config_hash\":\"".spec_bytes()];
    let c = c + seq![p.hash];
    let c = c + seq!["\",\"reason_code\":\"ok\",\"confidence\":\"high\"}".spec_bytes()];
    c
}

/// The chunks of the whole priced document.
#[verifier::opaque]
pub open spec fn priced_chunks(p: Priced) -> Seq<Seq<u8>> {
    trace_after(totals_after(line_after(Seq::empty(), p), p), p)
}

/// Copies `bytes` whole as the next chunk after `ch`.
fn put(out: &mut [u8], i: usize, bytes: &[u8], Ghost(o): Ghost<Seq<u8>>, Ghost(ch): Ghost<Seq<Seq<u8>>>) -> (r: usize)
    requires
        (old(out)@, i as int) == copies(o, 0, ch),
    ensures
        (final(out)@, r as int) == copies(o, 0, ch + seq![bytes@]),
{
    assert(ch.push(bytes@) =~= ch + seq![bytes@]);
    copy_next(out, i, bytes, Ghost(o), Ghost(0), Ghost(ch))
}

/// Writes an amount of cents as the next chunks after `ch`.
fn put_cents(out: &mut [u8], i: usize, cents: i64, Ghost(o): Ghost<Seq<u8>>, Ghost(ch): Ghost<Seq<Seq<u8>>>) -> (r: usize)
    requires
        (old(out)@, i as int) == copies(o, 0, ch),
        cents > i64::MIN,
    ensures
        (final(out)@, r as int) == copies(o, 0, ch + cents_chunks(cents as int)),
{
    proof {
        lemma_copies_concat(o, 0, ch, cents_chunks(cents as int));
    }
    write_cents(out, i, cents)
}

/// Writes an integer as the next chunks after `ch`.
fn put_int(out: &mut [u8], i: usize, v: i64, Ghost(o): Ghost<Seq<u8>>, Ghost(ch): Ghost<Seq<Seq<u8>>>) -> (r: usize)
    requires
        (old(out)@, i as int) == copies(o, 0, ch),
        v > i64::MIN,
    ensures
        (final(out)@, r as int) == copies(o, 0, ch + signed_chunks(v as int)),
{
    proof {
        lemma_copies_concat(o, 0, ch, signed_chunks(v as int));
    }
    write_i64(out, i, v)
}

/// Writes `[]` or a one-string array of `id` as the next chunks.
fn put_id_array(out: &mut [u8], i: usize, id: &[u8], Ghost(o): Ghost<Seq<u8>>, Ghost(ch): Ghost<Seq<Seq<u8>>>) -> (r: usize)
    requires
        (old(out)@, i as int) == copies(o, 0, ch),
    ensures
        (final(out)@, r as int) == copies(o, 0, ch + id_array(id@)),
{
    if id.len() == 0 {
        put(out, i, "[]".as_bytes(), Ghost(o), Ghost(ch))
    } else {
        let l = "[\"".as_bytes();
        let j = put(out, i, l, Ghost(o), Ghost(ch));
        let j = put(out, j, id, Ghost(o), Ghost(ch + seq![l@]));
        let l2 = "\"]".as_bytes();
        let j = put(out, j, l2, Ghost(o), Ghost(ch + seq![l@] + seq![id@]));
        assert(ch + seq![l@] + seq![id@] + seq![l2@] =~= ch + id_array(id@));
        j
    }
}

/// Writes the `lines` part of a priced document.
#[verifier::rlimit(30)]
fn write_line_part(out: &mut [u8], i: usize, line: &PricedLine, hash: &[u8], Ghost(o): Ghost<Seq<u8>>, Ghost(ch0): Ghost<Seq<Seq<u8>>>) -> (r: usize)
    requires
        (old(out)@, i as int) == copies(o, 0, ch0),
        line.printable(),
    ensures
        (final(out)@, r as int) == copies(o, 0, line_after(ch0, line.priced(hash@))),
{
    let ghost mut ch = ch0;
    let mut i = i;
    let l = "{\"currency\":\"".as_bytes();
    i = put(out, i, l, Ghost(o), Ghost(ch));
    proof { ch = ch + seq![l@]; }
    i = put(out, i, line.currency, Ghost(o), Ghost(ch));
    proof { ch = ch + seq![line.currency@]; }
    let l = "\",\"lines\":[{".as_bytes();
    i = put(out, i, l, Ghost(o), Ghost(ch));
    proof { ch = ch + seq![l@]; }
    let l = "\"id\":\"".as_bytes();
    i = put(out, i, l, Ghost(o), Ghost(ch));
    proof { ch = ch + seq![l@]; }
    i = put(out, i, line.line_id, Ghost(o), Ghost(ch));
    proof { ch = ch + seq![line.line_id@]; }
    let l = "\",\"sku\":\"".as_bytes();
    i = put(out, i, l, Ghost(o), Ghost(ch));
    proof { ch = ch + seq![l@]; }
    i = put(out, i, line.sku, Ghost(o), Ghost(ch));
    proof { ch = ch + seq![line.sku@]; }
    let l = "\",\"quantity\":".as_bytes();
    i = put(out, i, l, Ghost(o), Ghost(ch));
    proof { ch = ch + seq![l@]; }
    i = put_int(out, i, line.quantity, Ghost(o), Ghost(ch));
    proof { ch = ch + signed_chunks(line.quantity as int); }
    let l = ",\"unit_price\":".as_bytes();
    i = put(out, i, l, Ghost(o), Ghost(ch));
    proof { ch = ch + seq![l@]; }
    i = put_cents(out, i, line.unit, Ghost(o), Ghost(ch));
    proof { ch = ch + cents_chunks(line.unit as int); }
    let l = ",\"gross\":".as_bytes();
    i = put(out, i, l, Ghost(o), Ghost(ch));
    proof { ch = ch + seq![l@]; }
    i = put_cents(out, i, line.gross, Ghost(o), Ghost(ch));
    proof { ch = ch + cents_chunks(line.gross as int); }
    let l = ",\"discount_amount\":".as_bytes();
    i = put(out, i, l, Ghost(o), Ghost(ch));
    proof { ch = ch + seq![l@]; }
    i = put_cents(out, i, line.discount, Ghost(o), Ghost(ch));
    proof { ch = ch + cents_chunks(line.discount as int); }
    let l = ",\"taxable_base\":".as_bytes();
    i = put(out, i, l, Ghost(o), Ghost(ch));
    proof { ch = ch + seq![l@]; }
    i = put_cents(out, i, line.final_taxable, Ghost(o), Ghost(ch));
    proof { ch = ch + cents_chunks(line.final_taxable as int); }
    let l = ",\"tax_amount\":".as_bytes();
    i = put(out, i, l, Ghost(o), Ghost(ch));
    proof { ch = ch + seq![l@]; }
    i = put_cents(out, i, line.final_tax, Ghost(o), Ghost(ch));
    proof { ch = ch + cents_chunks(line.final_tax as int); }
    let l = ",\"net\":".as_bytes();
    i = put(out, i, l, Ghost(o), Ghost(ch));
    proof { ch = ch + seq![l@]; }
    i = put_cents(out, i, line.net, Ghost(o), Ghost(ch));
    proof { ch = ch + cents_chunks(line.net as int); }
    let l = ",\"applied_discounts\":".as_bytes();
    i = put(out, i, l, Ghost(o), Ghost(ch));
    proof { ch = ch + seq![l@]; }
    i = put_id_array(out, i, line.disc_id, Ghost(o), Ghost(ch));
    proof { ch = ch + id_array(line.disc_id@); }
    let l = ",\"applied_taxes\":".as_bytes();
    i = put(out, i, l, Ghost(o), Ghost(ch));
    proof { ch = ch + seq![l@]; }
    i = put_id_array(out, i, line.tax_id, Ghost(o), Ghost(ch));
    proof { ch = ch + id_array(line.tax_id@); }
    i
}

/// Writes the `totals` and `applied_rules` parts of a priced document.
#[verifier::rlimit(30)]
fn write_totals_part(out: &mut [u8], i: usize, line: &PricedLine, hash: &[u8], Ghost(o): Ghost<Seq<u8>>, Ghost(ch0): Ghost<Seq<Seq<u8>>>) -> (r: usize)
    requires
        (old(out)@, i as int) == copies(o, 0, ch0),
        line.printable(),
    ensures
        (final(out)@, r as int) == copies(o, 0, totals_after(ch0, line.priced(hash@))),
{
    let ghost mut ch = ch0;
    let mut i = i;
    let l = "}],\"totals\":{".as_bytes();
    i = put(out, i, l, Ghost(o), Ghost(ch));
    proof { ch = ch + seq![l@]; }
    let l = "\"gross\":".as_bytes();
    i = put(out, i, l, Ghost(o), Ghost(ch));
    proof { ch = ch + seq![l@]; }
    i = put_cents(out, i, line.gross, Ghost(o), Ghost(ch));
    proof { ch = ch + cents_chunks(line.gross as int); }
    let l = ",\"discount_total\":".as_bytes();
    i = put(out, i, l, Ghost(o), Ghost(ch));
    proof { ch = ch + seq![l@]; }
    i = put_cents(out, i, line.discount, Ghost(o), Ghost(ch));
    proof { ch = ch + cents_chunks(line.discount as int); }
    let l = ",\"taxable_base\":".as_bytes();
    i = put(out, i, l, Ghost(o), Ghost(ch));
    proof { ch = ch + seq![l@]; }
    i = put_cents(out, i, line.final_taxable, Ghost(o), Ghost(ch));
    proof { ch = ch + cents_chunks(line.final_taxable as int); }
    let l = ",\"tax_total\":".as_bytes();
    i = put(out, i, l, Ghost(o), Ghost(ch));
    proof { ch = ch + seq![l@]; }
    i = put_cents(out, i, line.final_tax, Ghost(o), Ghost(ch));
    proof { ch = ch + cents_chunks(line.final_tax as int); }
    let l = ",\"net\":".as_bytes();
    i = put(out, i, l, Ghost(o), Ghost(ch));
    proof { ch = ch + seq![l@]; }
    i = put_cents(out, i, line.net, Ghost(o), Ghost(ch));
    proof { ch = ch + cents_chunks(line.net as int); }
    let l = "},\"applied_rules\":[".as_bytes();
    i = put(out, i, l, Ghost(o), Ghost(ch));
    proof { ch = ch + seq![l@]; }
    if line.disc_id.len() != 0 {
        let l = "{\"rule_id\":\"".as_bytes();
        i = put(out, i, l, Ghost(o), Ghost(ch));
        proof { ch = ch + seq![l@]; }
        i = put(out, i, line.disc_id, Ghost(o), Ghost(ch));
        proof { ch = ch + seq![line.disc_id@]; }
        let l = "\",\"type\":\"discount\",\"amount\":".as_bytes();
        i = put(out, i, l, Ghost(o), Ghost(ch));
        proof { ch = ch + seq![l@]; }
        i = put_cents(out, i, line.discount, Ghost(o), Ghost(ch));
        proof { ch = ch + cents_chunks(line.discount as int); }
        let l = "}".as_bytes();
        i = put(out, i, l, Ghost(o), Ghost(ch));
        proof { ch = ch + seq![l@]; }
    }
    if line.tax_id.len() != 0 {
        if line.disc_id.len() != 0 {
            let l = ",".as_bytes();
            i = put(out, i, l, Ghost(o), Ghost(ch));
            proof { ch = ch + seq![l@]; }
        }
        let l = "{\"rule_id\":\"".as_bytes();
        i = put(out, i, l, Ghost(o), Ghost(ch));
        proof { ch = ch + seq![l@]; }
        i = put(out, i, line.tax_id, Ghost(o), Ghost(ch));
        proof { ch = ch + seq![line.tax_id@]; }
        let l = "\",\"type\":\"tax\",\"amount\":".as_bytes();
        i = put(out, i, l, Ghost(o), Ghost(ch));
        proof { ch = ch + seq![l@]; }
        i = put_cents(out, i, line.final_tax, Ghost(o), Ghost(ch));
        proof { ch = ch + cents_chunks(line.final_tax as int); }
        let l = "}".as_bytes();
        i = put(out, i, l, Ghost(o), Ghost(ch));
        proof { ch = ch + seq![l@]; }
    }
    i
}

/// Writes the `evaluation_trace` part and the closing fields.
#[verifier::rlimit(30)]
fn write_trace_part(out: &mut [u8], i: usize, line: &PricedLine, hash: &[u8], Ghost(o): Ghost<Seq<u8>>, Ghost(ch0): Ghost<Seq<Seq<u8>>>) -> (r: usize)
    requires
        (old(out)@, i as int) == copies(o, 0, ch0),
        line.printable(),
    ensures
        (final(out)@, r as int) == copies(o, 0, trace_after(ch0, line.priced(hash@))),
{
    let ghost mut ch = ch0;
    let mut i = i;
    let l = "],\"evaluation_trace\":[".as_bytes();
    i = put(out, i, l, Ghost(o), Ghost(ch));
    proof { ch = ch + seq![l@]; }
    let l = "\"currency=".as_bytes();
    i = put(out, i, l, Ghost(o), Ghost(ch));
    proof { ch = ch + seq![l@]; }
    i = put(out, i, line.currency, Ghost(o), Ghost(ch));
    proof { ch = ch + seq![line.currency@]; }
    let l = " rounding=half_up\",".as_bytes();
    i = put(out, i, l, Ghost(o), Ghost(ch));
    proof { ch = ch + seq![l@]; }
    let l = "\"".as_bytes();
    i = put(out, i, l, Ghost(o), Ghost(ch));
    proof { ch = ch + seq![l@]; }
    if line.line_id.len() == 0 {
        let l = "line".as_bytes();
        i = put(out, i, l, Ghost(o), Ghost(ch));
        proof { ch = ch + seq![l@]; }
    }
    if line.line_id.len() != 0 {
        i = put(out, i, line.line_id, Ghost(o), Ghost(ch));
        proof { ch = ch + seq![line.line_id@]; }
    }
    let l = ": ".as_bytes();
    i = put(out, i, l, Ghost(o), Ghost(ch));
    proof { ch = ch + seq![l@]; }
    i = put_int(out, i, line.quantity, Ghost(o), Ghost(ch));
    proof { ch = ch + signed_chunks(line.quantity as int); }
    let l = " x ".as_bytes();
    i = put(out, i, l, Ghost(o), Ghost(ch));
    proof { ch = ch + seq![l@]; }
    i = put_cents(out, i, line.unit, Ghost(o), Ghost(ch));
    proof { ch = ch + cents_chunks(line.unit as int); }
    let l = " = ".as_bytes();
    i = put(out, i, l, Ghost(o), Ghost(ch));
    proof { ch = ch + seq![l@]; }
    i = put_cents(out, i, line.gross, Ghost(o), Ghost(ch));
    proof { ch = ch + cents_chunks(line.gross as int); }
    let l = "\"".as_bytes();
    i = put(out, i, l, Ghost(o), Ghost(ch));
    proof { ch = ch + seq![l@]; }
    if line.disc_id.len() != 0 {
        let l = ",\"applied discount ".as_bytes();
        i = put(out, i, l, Ghost(o), Ghost(ch));
        proof { ch = ch + seq![l@]; }
        i = put(out, i, line.disc_id, Ghost(o), Ghost(ch));
        proof { ch = ch + seq![line.disc_id@]; }
        if bytes_eq(line.disc_type, "percentage".as_bytes()) {
            let l = " (".as_bytes();
            i = put(out, i, l, Ghost(o), Ghost(ch));
            proof { ch = ch + seq![l@]; }
            i = put_int(out, i, line.disc_value, Ghost(o), Ghost(ch));
            proof { ch = ch + signed_chunks(line.disc_value as int); }
            let l = "%)".as_bytes();
            i = put(out, i, l, Ghost(o), Ghost(ch));
            proof { ch = ch + seq![l@]; }
        }
        let l = " -> -".as_bytes();
        i = put(out, i, l, Ghost(o), Ghost(ch));
        proof { ch = ch + seq![l@]; }
        i = put_cents(out, i, line.discount, Ghost(o), Ghost(ch));
        proof { ch = ch + cents_chunks(line.discount as int); }
        let l = "\"".as_bytes();
        i = put(out, i, l, Ghost(o), Ghost(ch));
        proof { ch = ch + seq![l@]; }
    }
    if line.tax_id.len() != 0 {
        let l = ",\"taxable base ".as_bytes();
        i = put(out, i, l, Ghost(o), Ghost(ch));
        proof { ch = ch + seq![l@]; }
        i = put_cents(out, i, line.final_taxable, Ghost(o), Ghost(ch));
        proof { ch = ch + cents_chunks(line.final_taxable as int); }
        let l = " tax=".as_bytes();
        i = put(out, i, l, Ghost(o), Ghost(ch));
        proof { ch = ch + seq![l@]; }
        i = put_cents(out, i, line.final_tax, Ghost(o), Ghost(ch));
        proof { ch = ch + cents_chunks(line.final_tax as int); }
        let l = "\"".as_bytes();
        i = put(out, i, l, Ghost(o), Ghost(ch));
        proof { ch = ch + seq![l@]; }
    }
    let l = ",\"net ".as_bytes();
    i = put(out, i, l, Ghost(o), Ghost(ch));
    proof { ch = ch + seq![l@]; }
    i = put_cents(out, i, line.net, Ghost(o), Ghost(ch));
    proof { ch = ch + cents_chunks(line.net as int); }
    let l = "\"],\"config_hash\":\"".as_bytes();
    i = put(out, i, l, Ghost(o), Ghost(ch));
    proof { ch = ch + seq![l@]; }
    i = put(out, i, hash, Ghost(o), Ghost(ch));
    proof { ch = ch + seq![hash@]; }
    let l = "\",\"reason_code\":\"ok\",\"confidence\":\"high\"}".as_bytes();
    i = put(out, i, l, Ghost(o), Ghost(ch));
    proof { ch = ch + seq![l@]; }
    i
}


/// Whether `s`, after its whitespace, opens with a minus sign.
pub open spec fn opens_with_minus(s: Seq<u8>) -> bool {
    skip_ws_spec(s).len() > 0 && skip_ws_spec(s)[0] == 45u8
}

/// The rules array under `key` of the config, or `[]`.
pub open spec fn rules_of(config: Seq<u8>, key: Seq<u8>) -> Seq<u8> {
    match bracketed_after_key_spec(config, key, 91u8, 93u8) {
        Some(r) => r,
        None => "[]".spec_bytes(),
    }
}

/// The line `line` priced under `config` at `unit` cents a unit.
pub open spec fn priced_of(currency: Seq<u8>, config: Seq<u8>, line: Seq<u8>, unit: int) -> Priced {
    let sku = extract_string_spec(line, "\"sku\"".spec_bytes());
    let quantity = or_zero(parse_int_sat(number_after_key_spec(line, "\"quantity\"".spec_bytes())));
    let gross = clamp64(quantity * unit);
    let disc = select_discount_spec(rules_of(config, "\"discount_rules\"".spec_bytes()), sku, gross);
    let taxable = if disc.amount > gross { 0 } else { gross - disc.amount };
    let tax = select_tax_spec(
        rules_of(config, "\"tax_rules\"".spec_bytes()),
        extract_string_spec(line, "\"tax_code\"".spec_bytes()),
        taxable,
    );
    let inc = tax.inclusive && tax.amount > 0;
    let extracted = extracted_tax_spec(taxable, tax.rate);
    Priced {
        currency,
        line_id: extract_string_spec(line, "\"id\"".spec_bytes()),
        sku,
        quantity,
        unit,
        gross,
        disc,
        tax,
        final_taxable: if inc { taxable - extracted } else { taxable },
        final_tax: if inc { extracted } else { tax.amount },
        net: if inc { taxable } else { taxable + tax.amount },
        hash: config_hash_spec(config),
    }
}

/// Pricing the line stays within `i64`: the discount's and the tax's
/// rounding, the taxable base, the net, and every amount spelled out.
pub open spec fn priced_safe(config: Seq<u8>, line: Seq<u8>, unit: int) -> bool {
    let sku = extract_string_spec(line, "\"sku\"".spec_bytes());
    let quantity = or_zero(parse_int_sat(number_after_key_spec(line, "\"quantity\"".spec_bytes())));
    let gross = clamp64(quantity * unit);
    let drules = rules_of(config, "\"discount_rules\"".spec_bytes());
    let disc = select_discount_spec(drules, sku, gross);
    let taxable = if disc.amount > gross { 0 } else { gross - disc.amount };
    let code = extract_string_spec(line, "\"tax_code\"".spec_bytes());
    let trules = rules_of(config, "\"tax_rules\"".spec_bytes());
    let tax = select_tax_spec(trules, code, taxable);
    let inc = tax.inclusive && tax.amount > 0;
    &&& select_discount_safe(drules, sku, gross)
    &&& i64::MIN < taxable <= i64::MAX
    &&& select_tax_safe(trules, code, taxable)
    &&& !inc ==> i64::MIN < taxable + tax.amount <= i64::MAX
    &&& inc ==> (clamp64(10000 + tax.rate) > 0 ==> half_up_div_fits(clamp64(taxable * tax.rate), clamp64(10000 + tax.rate)))
    &&& inc ==> i64::MIN < taxable - extracted_tax_spec(taxable, tax.rate) <= i64::MAX
    &&& unit > i64::MIN
    &&& gross > i64::MIN
    &&& disc.value > i64::MIN
    &&& disc.amount > i64::MIN
    &&& tax.amount > i64::MIN
}

/// The trace of a line refused for its quantity or price: `prefix`, the
/// line's id (or `line`) and the closing quote and bracket, as far as they
/// fit in 128 bytes.
pub open spec fn line_trace(prefix: Seq<u8>, line_id: Seq<u8>) -> Seq<u8> {
    greedy(
        128,
        seq![prefix, if line_id.len() == 0 { "line".spec_bytes() } else { line_id }, "\"]".spec_bytes()],
    )
}

/// The chunks of the response for a line that passed the request checks.
pub open spec fn line_outcome(currency: Seq<u8>, config: Seq<u8>, line: Seq<u8>) -> Seq<Seq<u8>> {
    let line_id = extract_string_spec(line, "\"id\"".spec_bytes());
    let qty_raw = number_after_key_spec(line, "\"quantity\"".spec_bytes());
    let price_raw = number_after_key_spec(line, "\"unit_price\"".spec_bytes());
    if qty_raw.len() == 0 {
        fail_chunks(currency, "invalid_quantity".spec_bytes(), "[\"precondition failed: quantity missing\"]".spec_bytes())
    } else if opens_with_minus(qty_raw) || or_zero(parse_int_sat(qty_raw)) <= 0 {
        fail_chunks(
            currency,
            "invalid_quantity".spec_bytes(),
            line_trace("[\"precondition failed: quantity must be > 0 for ".spec_bytes(), line_id),
        )
    } else if price_raw.len() == 0 || opens_with_minus(price_raw) {
        fail_chunks(
            currency,
            "invalid_unit_price".spec_bytes(),
            line_trace("[\"precondition failed: unit_price must be >= 0 for ".spec_bytes(), line_id),
        )
    } else {
        match parse_scaled_spec(price_raw, 2) {
            None => fail_chunks(currency, "calculation_error".spec_bytes(), "[\"failed to parse unit_price\"]".spec_bytes()),
            Some(unit) => priced_chunks(priced_of(currency, config, line, unit)),
        }
    }
}

/// Whether pricing the line stays within `i64`, where it gets that far.
pub open spec fn line_safe(config: Seq<u8>, line: Seq<u8>) -> bool {
    let qty_raw = number_after_key_spec(line, "\"quantity\"".spec_bytes());
    let price_raw = number_after_key_spec(line, "\"unit_price\"".spec_bytes());
    qty_raw.len() == 0 || opens_with_minus(qty_raw) || or_zero(parse_int_sat(qty_raw)) <= 0
        || price_raw.len() == 0 || opens_with_minus(price_raw) || match parse_scaled_spec(price_raw, 2) {
        None => true,
        Some(unit) => priced_safe(config, line, unit),
    }
}

/// The currency of a request, its config and its lines array.
pub open spec fn request_currency(input: Seq<u8>) -> Seq<u8> {
    extract_string_at_depth_spec(input, "\"currency\"".spec_bytes(), 1)
}

/// The lines array of a request, or `[]`.
pub open spec fn request_lines(input: Seq<u8>) -> Seq<u8> {
    match bracketed_at_depth_spec(input, "\"lines\"".spec_bytes(), 1, 91u8, 93u8) {
        Some(l) => l,
        None => "[]".spec_bytes(),
    }
}

/// The chunks of the response to the pricing request `input`.
pub open spec fn price_chunks(input: Seq<u8>) -> Seq<Seq<u8>> {
    let currency = request_currency(input);
    match bracketed_at_depth_spec(input, "\"pricing_config\"".spec_bytes(), 1, 123u8, 125u8) {
        None => fail_chunks(
            currency,
            "invalid_config".spec_bytes(),
            "[\"precondition failed: pricing_config missing\"]".spec_bytes(),
        ),
        Some(config) => if currency.len() == 0 {
            fail_chunks(
                "USD".spec_bytes(),
                "invalid_config".spec_bytes(),
                "[\"precondition failed: currency missing\"]".spec_bytes(),
            )
        } else {
            let cc = extract_string_spec(config, "\"currency\"".spec_bytes());
            if cc.len() > 0 && cc != currency {
                fail_chunks(
                    currency,
                    "currency_mismatch".spec_bytes(),
                    "[\"precondition failed: currency mismatch\"]".spec_bytes(),
                )
            } else {
                match first_object_spec(request_lines(input)) {
                    None => fail_chunks(
                        currency,
                        "empty_cart".spec_bytes(),
                        "[\"precondition failed: lines must be non-empty\"]".spec_bytes(),
                    ),
                    Some(line) => line_outcome(currency, config, line),
                }
            }
        },
    }
}

/// Whether pricing the request stays within `i64`, where it gets that far.
pub open spec fn price_safe(input: Seq<u8>) -> bool {
    match bracketed_at_depth_spec(input, "\"pricing_config\"".spec_bytes(), 1, 123u8, 125u8) {
        None => true,
        Some(config) => match first_object_spec(request_lines(input)) {
            None => true,
            Some(line) => line_safe(config, line),
        },
    }
}

/// Builds the trace of a refused line in a 128-byte buffer.
fn build_line_trace(prefix: &[u8], line_id: &[u8]) -> (r: ([u8; 128], usize))
    ensures
        r.1 <= 128,
        r.0@.take(r.1 as int) == line_trace(prefix@, line_id@),
{
    let mut buf = [0u8; 128];
    let ghost o = buf@;
    let label = if line_id.len() == 0 {
        "line".as_bytes()
    } else {
        line_id
    };
    let close = "\"]".as_bytes();
    let ghost c1 = seq![prefix@];
    let ghost c2 = seq![prefix@, label@];
    let t = copy_next(&mut buf, 0, prefix, Ghost(o), Ghost(0), Ghost(Seq::empty()));
    assert(Seq::<Seq<u8>>::empty().push(prefix@) =~= c1);
    let t = copy_next(&mut buf, t, label, Ghost(o), Ghost(0), Ghost(c1));
    assert(c1.push(label@) =~= c2);
    let t = copy_next(&mut buf, t, close, Ghost(o), Ghost(0), Ghost(c2));
    proof {
        assert(Seq::<Seq<u8>>::empty().push(prefix@) =~= seq![prefix@]);
        assert(seq![prefix@].push(label@) =~= seq![prefix@, label@]);
        assert(seq![prefix@, label@].push(close@) =~= seq![prefix@, label@, close@]);
        lemma_holds_greedy_start(o);
        lemma_copies_greedy(o, 0, Seq::empty(), seq![prefix@, label@, close@]);
        assert(Seq::<Seq<u8>>::empty() + seq![prefix@, label@, close@] =~= seq![prefix@, label@, close@]);
        lemma_greedy_len(128, seq![prefix@, label@, close@]);
    }
    (buf, t)
}


/// Writes the whole priced document for `line` at the start of `out`.
fn write_priced(out: &mut [u8], line: &PricedLine, hash: &[u8]) -> (r: usize)
    requires
        line.printable(),
    ensures
        holds_greedy(final(out)@, r as int, priced_chunks(line.priced(hash@))),
        final(out)@.len() == old(out)@.len(),
{
    let ghost o = out@;
    let ghost p = line.priced(hash@);
    let i = write_line_part(out, 0, line, hash, Ghost(o), Ghost(Seq::empty()));
    let i = write_totals_part(out, i, line, hash, Ghost(o), Ghost(line_after(Seq::empty(), p)));
    let i = write_trace_part(
        out,
        i,
        line,
        hash,
        Ghost(o),
        Ghost(totals_after(line_after(Seq::empty(), p), p)),
    );
    proof {
        reveal(priced_chunks);
        lemma_holds_greedy_start(o);
        lemma_copies_greedy(o, 0, Seq::empty(), priced_chunks(p));
        assert(Seq::<Seq<u8>>::empty() + priced_chunks(p) =~= priced_chunks(p));
    }
    i
}

/// Prices the line `line` at `unit` cents a unit under `config`.
fn compute_priced<'a>(
    currency: &'a [u8],
    config: &'a [u8],
    line: &'a [u8],
    quantity: i64,
    unit: i64,
) -> (r: PricedLine<'a>)
    requires
        scannable(config@),
        quantity as int == or_zero(parse_int_sat(number_after_key_spec(line@, "\"quantity\"".spec_bytes()))),
        priced_safe(config@, line@, unit as int),
        quantity > 0,
    ensures
        forall|h: Seq<u8>| #[trigger] r.priced(h) == (Priced { hash: h, ..priced_of(currency@, config@, line@, unit as int) }),
        r.printable(),
{
    proof {
        lemma_price_keys();
    }
    let line_id = extract_string(line, "\"id\"".as_bytes());
    let sku = extract_string(line, "\"sku\"".as_bytes());
    let tax_code = extract_string(line, "\"tax_code\"".as_bytes());
    let gross = sat_mul(quantity, unit);
    let drules = match array_after_key(config, "\"discount_rules\"".as_bytes()) {
        Some(r) => r,
        None => "[]".as_bytes(),
    };
    let (disc_id, disc_type, disc_value, discount) = select_discount(drules, sku, gross);
    let taxable = if discount > gross {
        0
    } else {
        gross - discount
    };
    let trules = match array_after_key(config, "\"tax_rules\"".as_bytes()) {
        Some(r) => r,
        None => "[]".as_bytes(),
    };
    let (tax_id, tax_amount, inclusive, tax_rate) = select_tax(trules, tax_code, taxable);
    let inc = inclusive && tax_amount > 0;
    let (final_taxable, final_tax, net) = if inc {
        let extracted = extract_inclusive_tax(taxable, tax_rate);
        (taxable - extracted, extracted, taxable)
    } else {
        (taxable, tax_amount, taxable + tax_amount)
    };
    PricedLine {
        currency,
        line_id,
        sku,
        quantity,
        unit,
        gross,
        disc_id,
        disc_type,
        disc_value,
        discount,
        tax_id,
        tax_inclusive: inclusive,
        tax_amount,
        tax_rate,
        final_taxable,
        final_tax,
        net,
    }
}


/// The config hash label of `config`, built in a 32-byte buffer.
fn hash_label(config: &[u8]) -> (r: ([u8; 32], usize))
    ensures
        r.1 <= 32,
        r.0@.take(r.1 as int) == config_hash_spec(config@),
{
    let mut hash_buf = [0u8; 32];
    let ghost hb = hash_buf@;
    let hash_len = write_config_hash(config, &mut hash_buf);
    proof {
        broadcast use vstd::string::group_string_axioms;
        reveal_strlit("fnv1a64:");
        let ch = seq!["fnv1a64:".spec_bytes(), hex16(fnv_state(config@))];
        lemma_holds_greedy_start(hb);
        lemma_copies_greedy(hb, 0, Seq::empty(), ch);
        assert(Seq::<Seq<u8>>::empty() + ch =~= ch);
        assert(vstd::string::is_ascii("fnv1a64:"));
        assert("fnv1a64:".spec_bytes().len() == 8);
        assert(hex16(fnv_state(config@)).len() == 16);
        assert(ch.drop_last() =~= seq!["fnv1a64:".spec_bytes()]);
        assert(ch.drop_last().drop_last() =~= Seq::<Seq<u8>>::empty());
        assert(greedy(32, ch.drop_last().drop_last()) =~= Seq::<u8>::empty());
        assert(greedy(32, ch.drop_last()) =~= "fnv1a64:".spec_bytes());
        assert(greedy(32, ch) =~= config_hash_spec(config@));
        lemma_greedy_len(32, ch);
    }
    (hash_buf, hash_len)
}

/// Prices the line `line` of a request that passed its checks and writes
/// the response document at the start of `out`.
fn price_line(out: &mut [u8], currency: &[u8], config: &[u8], line: &[u8]) -> (r: usize)
    requires
        scannable(config@),
        scannable(line@),
        line_safe(config@, line@),
    ensures
        holds_greedy(final(out)@, r as int, line_outcome(currency@, config@, line@)),
        final(out)@.len() == old(out)@.len(),
{
    proof {
        lemma_price_keys();
    }
    let line_id = extract_string(line, "\"id\"".as_bytes());
    let qty_raw = number_after_key(line, "\"quantity\"".as_bytes());
    let price_raw = number_after_key(line, "\"unit_price\"".as_bytes());
    if qty_raw.len() == 0 {
        return fail(
            out,
            currency,
            "invalid_quantity".as_bytes(),
            "[\"precondition failed: quantity missing\"]".as_bytes(),
        );
    }
    let q = match parse_int(qty_raw) {
        Some(v) => v,
        None => 0,
    };
    if starts_with_minus(qty_raw) || q <= 0 {
        let (buf, t) = build_line_trace(
            "[\"precondition failed: quantity must be > 0 for ".as_bytes(),
            line_id,
        );
        let bs = buf.as_slice();
        let trace = &bs[0..t];
        assert(trace@ =~= buf@.take(t as int));
        return fail(out, currency, "invalid_quantity".as_bytes(), trace);
    }
    if price_raw.len() == 0 || starts_with_minus(price_raw) {
        let (buf, t) = build_line_trace(
            "[\"precondition failed: unit_price must be >= 0 for ".as_bytes(),
            line_id,
        );
        let bs = buf.as_slice();
        let trace = &bs[0..t];
        assert(trace@ =~= buf@.take(t as int));
        return fail(out, currency, "invalid_unit_price".as_bytes(), trace);
    }
    let unit = match parse_money_cents(price_raw) {
        Some(v) => v,
        None => {
            return fail(
                out,
                currency,
                "calculation_error".as_bytes(),
                "[\"failed to parse unit_price\"]".as_bytes(),
            );
        },
    };
    let priced = compute_priced(currency, config, line, q, unit);
    let (hash_buf, hash_len) = hash_label(config);
    let hs = hash_buf.as_slice();
    let hash = &hs[0..hash_len];
    assert(hash@ =~= config_hash_spec(config@));
    write_priced(out, &priced, hash)
}

/// Prices the first line of the request in `input` and writes the response
/// document to `out`; returns its length. Each piece of the document lands
/// only where it fits whole.
pub fn evaluate(input: &[u8], out: &mut [u8]) -> (r: usize)
    requires
        scannable(input@),
        price_safe(input@),
    ensures
        holds_greedy(final(out)@, r as int, price_chunks(input@)),
        final(out)@.len() == old(out)@.len(),
{
    proof {
        lemma_price_keys();
    }
    let currency = extract_string_at_depth(input, "\"currency\"".as_bytes(), 1);
    let lines = match array_after_key_at_depth(input, "\"lines\"".as_bytes(), 1) {
        Some(l) => l,
        None => "[]".as_bytes(),
    };
    let config = match object_after_key_at_depth(input, "\"pricing_config\"".as_bytes(), 1) {
        Some(c) => c,
        None => {
            return fail(
                out,
                currency,
                "invalid_config".as_bytes(),
                "[\"precondition failed: pricing_config missing\"]".as_bytes(),
            );
        },
    };
    if currency.len() == 0 {
        return fail(
            out,
            "USD".as_bytes(),
            "invalid_config".as_bytes(),
            "[\"precondition failed: currency missing\"]".as_bytes(),
        );
    }
    let config_currency = extract_string(config, "\"currency\"".as_bytes());
    if config_currency.len() != 0 && !bytes_eq(config_currency, currency) {
        return fail(
            out,
            currency,
            "currency_mismatch".as_bytes(),
            "[\"precondition failed: currency mismatch\"]".as_bytes(),
        );
    }
    let line = match first_object_in_array(lines) {
        Some(l) => l,
        None => {
            return fail(
                out,
                currency,
                "empty_cart".as_bytes(),
                "[\"precondition failed: lines must be non-empty\"]".as_bytes(),
            );
        },
    };
    price_line(out, currency, config, line)
}

/// Whether a half-up division of `numer` by the positive `denom` stays
/// within `i64`.
fn half_fits(numer: i64, denom: i64) -> (r: bool)
    requires
        denom > 0,
    ensures
        r == half_up_div_fits(numer as int, denom as int),
{
    let half = denom / 2;
    if numer >= 0 {
        numer <= i64::MAX - half
    } else {
        numer >= i64::MIN + half
    }
}

/// Whether the discount that the rules array `rules` gives a line of `sku`
/// with `gross` can be computed within `i64`.
fn discount_safe_check(rules: &[u8], sku: &[u8], gross: i64) -> (r: bool)
    requires
        scannable(rules@),
    ensures
        r == select_discount_safe(rules@, sku@, gross as int),
{
    proof {
        lemma_price_keys();
    }
    if rules.len() == 0 || rules[0] != 91u8 {
        return true;
    }
    let tail = &rules[1..rules.len()];
    assert(tail@ =~= rules@.skip(1));
    let mut rest = skip_ws(tail);
    loop
        invariant
            scannable(rest@),
            select_discount_safe(rules@, sku@, gross as int) == discount_safe(rest@, sku@, gross as int),
            rules@.len() > 0 && rules@[0] == 91u8,
        decreases rest@.len(),
    {
        proof {
            lemma_price_keys();
        }
        let ghost before = rest@;
        let obj = match next_object(&mut rest) {
            Some(o) => o,
            None => {
                return true;
            },
        };
        let dtype = extract_string(obj, "\"type\"".as_bytes());
        let value_raw = number_after_key(obj, "\"value\"".as_bytes());
        proof {
            lemma_skip_commas_len(before);
        }
        let applies = array_after_key(obj, "\"applies_to\"".as_bytes());
        if let Some(arr) = applies {
            if sku.len() != 0 && !array_contains_string(arr, sku) {
                continue;
            }
        }
        let value = match parse_int(value_raw) {
            Some(v) => v,
            None => 0,
        };
        if bytes_eq(dtype, "percentage".as_bytes()) {
            return half_fits(sat_mul(gross, value), 100);
        }
        if bytes_eq(dtype, "fixed".as_bytes()) {
            return true;
        }
    }
}

/// Whether the tax that the rules array `rules` gives a line with tax code
/// `tax_code` and base `base` can be rounded within `i64`.
fn tax_safe_check(rules: &[u8], tax_code: &[u8], base: i64) -> (r: bool)
    requires
        scannable(rules@),
    ensures
        r == select_tax_safe(rules@, tax_code@, base as int),
{
    proof {
        lemma_price_keys();
    }
    if rules.len() == 0 || rules[0] != 91u8 {
        return true;
    }
    let tail = &rules[1..rules.len()];
    assert(tail@ =~= rules@.skip(1));
    let mut rest = skip_ws(tail);
    loop
        invariant
            scannable(rest@),
            select_tax_safe(rules@, tax_code@, base as int) == tax_safe(rest@, tax_code@, base as int),
            rules@.len() > 0 && rules@[0] == 91u8,
        decreases rest@.len(),
    {
        proof {
            lemma_price_keys();
        }
        let obj = match next_object(&mut rest) {
            Some(o) => o,
            None => {
                return true;
            },
        };
        let code = extract_string(obj, "\"tax_code\"".as_bytes());
        if tax_code.len() != 0 && code.len() != 0 && !bytes_eq(code, tax_code) {
            continue;
        }
        let rate_raw = number_after_key(obj, "\"rate\"".as_bytes());
        let rate = match parse_rate_scale4(rate_raw) {
            Some(r) => r,
            None => {
                continue;
            },
        };
        return half_fits(sat_mul(base, rate), 10000);
    }
}

/// Whether pricing the line `line` at `unit` cents a unit under `config`
/// stays within `i64`.
#[verifier::spinoff_prover]
#[verifier::rlimit(60)]
fn priced_safe_check(config: &[u8], line: &[u8], unit: i64) -> (r: bool)
    requires
        scannable(config@),
    ensures
        r == priced_safe(config@, line@, unit as int),
{
    proof {
        lemma_price_keys();
    }
    let sku = extract_string(line, "\"sku\"".as_bytes());
    let tax_code = extract_string(line, "\"tax_code\"".as_bytes());
    let quantity = match parse_int(number_after_key(line, "\"quantity\"".as_bytes())) {
        Some(v) => v,
        None => 0,
    };
    let gross = sat_mul(quantity, unit);
    let drules = match array_after_key(config, "\"discount_rules\"".as_bytes()) {
        Some(r) => r,
        None => "[]".as_bytes(),
    };
    if !discount_safe_check(drules, sku, gross) {
        return false;
    }
    let (_disc_id, _disc_type, disc_value, discount) = select_discount(drules, sku, gross);
    let wide: i128 = if discount > gross {
        0
    } else {
        gross as i128 - discount as i128
    };
    if !(wide > i64::MIN as i128 && wide <= i64::MAX as i128) {
        return false;
    }
    let taxable = wide as i64;
    let trules = match array_after_key(config, "\"tax_rules\"".as_bytes()) {
        Some(r) => r,
        None => "[]".as_bytes(),
    };
    if !tax_safe_check(trules, tax_code, taxable) {
        return false;
    }
    let (_tax_id, tax_amount, inclusive, tax_rate) = select_tax(trules, tax_code, taxable);
    let inc = inclusive && tax_amount > 0;
    let rest_ok = if inc {
        let denom_wide: i128 = 10000 + tax_rate as i128;
        let fits = if denom_wide > 0 {
            let denom: i64 = if denom_wide > i64::MAX as i128 { i64::MAX } else { denom_wide as i64 };
            half_fits(sat_mul(taxable, tax_rate), denom)
        } else {
            true
        };
        if fits {
            let extracted = extract_inclusive_tax(taxable, tax_rate);
            let left: i128 = taxable as i128 - extracted as i128;
            left > i64::MIN as i128 && left <= i64::MAX as i128
        } else {
            false
        }
    } else {
        let total: i128 = taxable as i128 + tax_amount as i128;
        total > i64::MIN as i128 && total <= i64::MAX as i128
    };
    rest_ok && unit > i64::MIN && gross > i64::MIN && disc_value > i64::MIN && discount > i64::MIN && tax_amount
        > i64::MIN
}

/// Whether pricing the request stays within `i64` (what `evaluate` needs).
pub fn price_safe_check(input: &[u8]) -> (r: bool)
    requires
        scannable(input@),
    ensures
        r == price_safe(input@),
{
    proof {
        lemma_price_keys();
    }
    let lines = match array_after_key_at_depth(input, "\"lines\"".as_bytes(), 1) {
        Some(l) => l,
        None => "[]".as_bytes(),
    };
    let config = match object_after_key_at_depth(input, "\"pricing_config\"".as_bytes(), 1) {
        Some(c) => c,
        None => return true,
    };
    let line = match first_object_in_array(lines) {
        Some(l) => l,
        None => return true,
    };
    let qty_raw = number_after_key(line, "\"quantity\"".as_bytes());
    let price_raw = number_after_key(line, "\"unit_price\"".as_bytes());
    if qty_raw.len() == 0 || starts_with_minus(qty_raw) {
        return true;
    }
    let q = match parse_int(qty_raw) {
        Some(v) => v,
        None => 0,
    };
    if q <= 0 || price_raw.len() == 0 || starts_with_minus(price_raw) {
        return true;
    }
    match parse_money_cents(price_raw) {
        Some(unit) => priced_safe_check(config, line, unit),
        None => true,
    }
}

/// The tax of the first rule of the array body `rest` whose rate reads as a
/// number, whatever tax codes the rules carry.
pub open spec fn first_rated(rest: Seq<u8>, base: int) -> Tax
    decreases rest.len(),
{
    let next = next_object_spec(rest);
    match next.0 {
        None => no_tax(),
        Some(obj) => if next.1.len() >= rest.len() {
            no_tax()
        } else {
            match parse_scaled_spec(number_after_key_spec(obj, "\"rate\"".spec_bytes()), 4) {
                None => first_rated(next.1, base),
                Some(rate) => Tax {
                    id: extract_string_spec(obj, "\"id\"".spec_bytes()),
                    amount: half_up_div_spec(clamp64(base * rate), 10000),
                    inclusive: extract_bool_spec(obj, "\"inclusive\"".spec_bytes()) == Some(true),
                    rate,
                },
            }
        },
    }
}

proof fn lemma_uncoded_line_from(rest: Seq<u8>, base: int)
    ensures
        tax_from(rest, Seq::empty(), base) == first_rated(rest, base),
    decreases rest.len(),
{
    let next = next_object_spec(rest);
    if next.0 is Some && next.1.len() < rest.len() {
        lemma_uncoded_line_from(next.1, base);
    }
}

/// A line without a tax code is taxed by the first rule of the rules array
/// whose rate reads as a number, whatever that rule's tax code is.
pub proof fn lemma_uncoded_line_takes_first_rated_rule(rules: Seq<u8>, base: int)
    ensures
        select_tax_spec(rules, Seq::empty(), base) == (if rules.len() == 0 || rules[0] != 91u8 {
            no_tax()
        } else {
            first_rated(skip_ws_spec(rules.skip(1)), base)
        }),
{
    if rules.len() > 0 && rules[0] == 91u8 {
        lemma_uncoded_line_from(skip_ws_spec(rules.skip(1)), base);
    }
}

/// A rule is passed over for its tax code only when both the line's code
/// and the rule's code are non-empty and differ: a rule whose rate reads as
/// a number and whose code is empty or the line's (or any rule, for a line
/// without a code) is the one applied when it comes first, and a rule whose
/// code differs from the line's non-empty code leaves the choice to the
/// rules after it.
pub proof fn lemma_tax_code_matching(rest: Seq<u8>, code: Seq<u8>, base: int)
    ensures
        ({
            let next = next_object_spec(rest);
            next.0 is Some && next.1.len() < rest.len() ==> {
                let obj = next.0->0;
                let c = extract_string_spec(obj, "\"tax_code\"".spec_bytes());
                let rate = parse_scaled_spec(number_after_key_spec(obj, "\"rate\"".spec_bytes()), 4);
                &&& (code.len() == 0 || c.len() == 0 || c == code) && rate is Some ==> {
                    &&& tax_from(rest, code, base).id == extract_string_spec(obj, "\"id\"".spec_bytes())
                    &&& tax_from(rest, code, base).rate == rate->0
                    &&& tax_from(rest, code, base).amount == half_up_div_spec(clamp64(base * rate->0), 10000)
                }
                &&& (code.len() > 0 && c.len() > 0 && c != code) ==> tax_from(rest, code, base) == tax_from(
                    next.1,
                    code,
                    base,
                )
            }
        }),
{
}

/// Half-up division rounds to the nearest whole number, halves away from
/// zero: for a non-negative numerator the result `r` has `numer` within
/// half a `denom` of `r * denom` (a tie going up), and a negative numerator
/// rounds to the negation of its magnitude's rounding.
pub proof fn lemma_half_up_rounds(numer: int, denom: int)
    requires
        denom > 0,
    ensures
        numer >= 0 ==> (2 * half_up_div_spec(numer, denom) - 1) * denom <= 2 * numer < (2 * half_up_div_spec(
            numer,
            denom,
        ) + 1) * denom,
        numer < 0 ==> half_up_div_spec(numer, denom) == -half_up_div_spec(-numer, denom),
{
    if numer >= 0 {
        let h = denom / 2;
        let r = (numer + h) / denom;
        let q = numer + h;
        assert(r * denom <= q < r * denom + denom) by (nonlinear_arith)
            requires
                denom > 0,
                r == q / denom,
        ;
        assert(2 * h <= denom <= 2 * h + 1);
        assert((2 * r - 1) * denom <= 2 * numer < (2 * r + 1) * denom) by (nonlinear_arith)
            requires
                r * denom <= numer + h < r * denom + denom,
                2 * h <= denom <= 2 * h + 1,
                denom > 0,
        ;
    }
}

} // verus!
