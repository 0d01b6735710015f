//! Purpose-bound consent: RFC 3339 timestamps on the proleptic Gregorian
//! calendar, and the decision whether a recorded consent covers a requested
//! purpose at a given instant.
use vstd::prelude::*;
use vstd::string::StringSliceAdditionalSpecFns;
use crate::pricing::pow10;
use crate::scan::{bytes_eq, digit_run, digits_value, is_digit, lemma_digit_run, lemma_digits_prefix_le};

verus! {

/// Every byte of `s` is an ASCII digit.
pub open spec fn all_digits(s: Seq<u8>) -> bool {
    forall|i: int| 0 <= i < s.len() ==> is_digit(#[trigger] s[i])
}

/// A non-empty run of decimal digits whose value fits in a `u32`.
pub open spec fn u32_spec(s: Seq<u8>) -> Option<nat> {
    if s.len() > 0 && all_digits(s) && digits_value(s) <= u32::MAX {
        Some(digits_value(s))
    } else {
        None
    }
}

/// Gregorian leap years: divisible by 4 but not by 100, or by 400.
pub open spec fn leap(year: int) -> bool {
    (year % 4 == 0 && year % 100 != 0) || year % 400 == 0
}

/// The length of `month` (1 to 12) in `year`.
pub open spec fn month_length(year: int, month: int) -> Option<int> {
    if month == 1 || month == 3 || month == 5 || month == 7 || month == 8 || month == 10 || month == 12 {
        Some(31)
    } else if month == 4 || month == 6 || month == 9 || month == 11 {
        Some(30)
    } else if month == 2 {
        Some(if leap(year) { 29 } else { 28 })
    } else {
        None
    }
}

/// The day number of a civil date, counted from 1970-01-01: the year is
/// taken to start in March, so that the leap day closes it, and the count
/// goes by 400-year eras of 146097 days.
pub open spec fn civil_days(y: int, m: int, d: int) -> int {
    let yy = if m <= 2 { y - 1 } else { y };
    let era = yy / 400;
    let yoe = yy - era * 400;
    let mp = if m > 2 { m - 3 } else { m + 9 };
    let doy = (153 * mp + 2) / 5 + d - 1;
    let doe = yoe * 365 + yoe / 4 - yoe / 100 + doy;
    era * 146097 + doe - 719468
}

/// The value of the unsigned decimal field `b[i..j]`.
pub open spec fn field(b: Seq<u8>, i: int, j: int) -> Option<nat> {
    u32_spec(b.subrange(i, j))
}

/// The nanoseconds that a fraction's digits give: its first nine digits,
/// scaled to nine places; later digits are dropped.
pub open spec fn nanos_of(digits: Seq<u8>) -> nat {
    let k = if digits.len() < 9 { digits.len() } else { 9 };
    (digits_value(digits.take(k as int)) * pow10((9 - k) as nat)) as nat
}

/// Where the zone designator starts, and the nanoseconds of the optional
/// fraction (a `.` or `,` then at least one digit) after the seconds.
pub open spec fn fraction(b: Seq<u8>) -> Option<(int, nat)> {
    if 19 < b.len() && (b[19] == 46u8 || b[19] == 44u8) {
        let n = digit_run(b.skip(20)) as int;
        if n == 0 {
            None
        } else {
            Some((20 + n, nanos_of(b.subrange(20, 20 + n))))
        }
    } else {
        Some((19, 0))
    }
}

/// The offset from UTC, in seconds, that a zone designator names: `Z`, or
/// a sign and `hh:mm`, `hhmm` or `hh`; the designator ends the text.
pub open spec fn zone_offset(z: Seq<u8>) -> Option<int> {
    if z.len() == 0 {
        None
    } else if z[0] == 90u8 || z[0] == 122u8 {
        if z.len() == 1 { Some(0) } else { None }
    } else if z[0] == 43u8 || z[0] == 45u8 {
        let sign: int = if z[0] == 43u8 { 1 } else { -1 };
        let tz = z.drop_first();
        if tz.len() == 5 && tz[2] == 58u8 {
            match (field(tz, 0, 2), field(tz, 3, 5)) {
                (Some(h), Some(mi)) => if h <= 23 && mi <= 59 { Some(sign * (h * 3600 + mi * 60)) } else { None },
                _ => None,
            }
        } else if tz.len() == 4 {
            match (field(tz, 0, 2), field(tz, 2, 4)) {
                (Some(h), Some(mi)) => if h <= 23 && mi <= 59 { Some(sign * (h * 3600 + mi * 60)) } else { None },
                _ => None,
            }
        } else if tz.len() == 2 {
            match field(tz, 0, 2) {
                Some(h) => if h <= 23 { Some(sign * (h * 3600)) } else { None },
                None => None,
            }
        } else {
            None
        }
    } else {
        None
    }
}

/// The value of the two decimal digits `a` and `b`.
pub open spec fn two_digits(a: u8, b: u8) -> int {
    (a - 48) * 10 + (b - 48)
}

proof fn lemma_two_digit_field(tz: Seq<u8>, i: int)
    requires
        0 <= i,
        i + 2 <= tz.len(),
        is_digit(tz[i]),
        is_digit(tz[i + 1]),
    ensures
        field(tz, i, i + 2) == Some(two_digits(tz[i], tz[i + 1]) as nat),
{
    let s = tz.subrange(i, i + 2);
    let one = seq![tz[i]];
    assert(s.drop_last() =~= one);
    assert(one.drop_last() =~= Seq::<u8>::empty());
    assert(digits_value(one) == digits_value(one.drop_last()) * 10 + (one.last() - 48) as nat);
    assert(digits_value(one) == (tz[i] - 48) as nat);
    assert(s.last() == tz[i + 1]);
    assert(digits_value(s) == digits_value(one) * 10 + (tz[i + 1] - 48) as nat);
    assert forall|k: int| 0 <= k < s.len() implies is_digit(#[trigger] s[k]) by {
        assert(s[k] == tz[i + k]);
    }
    assert(all_digits(s));
}

/// A zone designator `+hh:mm` or `-hh:mm` (two digits each) names the
/// offset `hh` hours and `mm` minutes east of UTC for `+` and west of it
/// for `-`; it names the same offset as `+hhmm` or `-hhmm`; and it is
/// refused when the hour passes 23 or the minute 59. `+hh` and `-hh` name
/// whole hours, and `Z` (or `z`) names UTC itself.
pub proof fn lemma_zone_offsets(sign: u8, h1: u8, h2: u8, m1: u8, m2: u8)
    requires
        sign == 43u8 || sign == 45u8,
        is_digit(h1) && is_digit(h2) && is_digit(m1) && is_digit(m2),
    ensures
        ({
            let h = two_digits(h1, h2);
            let m = two_digits(m1, m2);
            let off = if sign == 43u8 { h * 3600 + m * 60 } else { -(h * 3600 + m * 60) };
            &&& zone_offset(seq![sign, h1, h2, 58u8, m1, m2]) == (if h <= 23 && m <= 59 { Some(off) } else { None })
            &&& zone_offset(seq![sign, h1, h2, 58u8, m1, m2]) == zone_offset(seq![sign, h1, h2, m1, m2])
            &&& zone_offset(seq![sign, h1, h2]) == (if h <= 23 {
                Some(if sign == 43u8 { h * 3600 } else { -(h * 3600) })
            } else {
                None
            })
            &&& zone_offset(seq![90u8]) == Some(0int) && zone_offset(seq![122u8]) == Some(0int)
        }),
{
    let z1 = seq![sign, h1, h2, 58u8, m1, m2];
    let z2 = seq![sign, h1, h2, m1, m2];
    let t1 = z1.drop_first();
    let t2 = z2.drop_first();
    assert(t1 =~= seq![h1, h2, 58u8, m1, m2]);
    assert(t2 =~= seq![h1, h2, m1, m2]);
    lemma_two_digit_field(t1, 0);
    lemma_two_digit_field(t1, 3);
    lemma_two_digit_field(t2, 0);
    lemma_two_digit_field(t2, 2);
    assert(t1.len() == 5 && t1[2] == 58u8 && t1[0] == h1 && t1[1] == h2 && t1[3] == m1 && t1[4] == m2);
    assert(t2.len() == 4 && t2[0] == h1 && t2[1] == h2 && t2[2] == m1 && t2[3] == m2);
    let z3 = seq![sign, h1, h2];
    let t3 = z3.drop_first();
    assert(t3 =~= seq![h1, h2]);
    lemma_two_digit_field(t3, 0);
    assert(t3.len() == 2);
    assert(seq![90u8].len() == 1 && seq![122u8].len() == 1);
    let h = two_digits(h1, h2);
    let m = two_digits(m1, m2);
    assert(1int * (h * 3600) == h * 3600);
    assert(-1int * (h * 3600) == -(h * 3600));
    if sign == 43u8 {
        assert(1int * (h * 3600 + m * 60) == h * 3600 + m * 60);
    } else {
        assert(-1int * (h * 3600 + m * 60) == -(h * 3600 + m * 60));
    }
}

/// A timestamp ending in a zone designator (no fraction) names the instant
/// of the same local date and time read as UTC (`Z`), less the offset the
/// designator names; it is refused when either is.
pub proof fn lemma_zone_shifts_instant(local: Seq<u8>, zone: Seq<u8>)
    requires
        local.len() == 19,
        zone.len() > 0,
        zone[0] != 46u8 && zone[0] != 44u8,
    ensures
        timestamp_spec(local + zone) == match (timestamp_spec(local + seq![90u8]), zone_offset(zone)) {
            (Some((sec, nanos)), Some(off)) => Some((sec - off, nanos)),
            _ => None,
        },
{
    let a = local + zone;
    let b = local + seq![90u8];
    assert forall|i: int, j: int| 0 <= i <= j <= 19 implies #[trigger] a.subrange(i, j) == b.subrange(i, j) by {
        assert(a.subrange(i, j) =~= local.subrange(i, j));
        assert(b.subrange(i, j) =~= local.subrange(i, j));
    }
    assert(a.subrange(0, 4) == b.subrange(0, 4));
    assert(a.subrange(5, 7) == b.subrange(5, 7));
    assert(a.subrange(8, 10) == b.subrange(8, 10));
    assert(a.subrange(11, 13) == b.subrange(11, 13));
    assert(a.subrange(14, 16) == b.subrange(14, 16));
    assert(a.subrange(17, 19) == b.subrange(17, 19));
    assert(civil_fields(a) == civil_fields(b));
    assert(a.skip(19) =~= zone);
    assert(b.skip(19) =~= seq![90u8]);
}

/// The punctuation of `YYYY-MM-DDThh:mm:ss`.
pub open spec fn layout_marks(b: Seq<u8>) -> bool {
    &&& b.len() >= 19
    &&& b[4] == 45u8 && b[7] == 45u8
    &&& b[10] == 84u8 || b[10] == 116u8
    &&& b[13] == 58u8 && b[16] == 58u8
}

/// The date and time fields, each a digit run; the date a real one and the
/// time of day in range.
pub open spec fn civil_fields(b: Seq<u8>) -> Option<(int, int, int, int, int, int)> {
    match (field(b, 0, 4), field(b, 5, 7), field(b, 8, 10), field(b, 11, 13), field(b, 14, 16), field(b, 17, 19)) {
        (Some(y), Some(mo), Some(d), Some(h), Some(mi), Some(sec)) => {
            match month_length(y as int, mo as int) {
                Some(len) => if 1 <= d <= len && h <= 23 && mi <= 59 && sec <= 59 {
                    Some((y as int, mo as int, d as int, h as int, mi as int, sec as int))
                } else {
                    None
                },
                None => None,
            }
        },
        _ => None,
    }
}

/// The instant an RFC 3339 timestamp names: seconds since 1970-01-01T00:00Z
/// and nanoseconds.
pub open spec fn timestamp_spec(b: Seq<u8>) -> Option<(int, nat)> {
    if !layout_marks(b) {
        None
    } else {
        match (civil_fields(b), fraction(b)) {
            (Some((y, mo, d, h, mi, sec)), Some((idx, nanos))) => match zone_offset(b.skip(idx)) {
                Some(off) => Some((civil_days(y, mo, d) * 86400 + h * 3600 + mi * 60 + sec - off, nanos)),
                None => None,
            },
            _ => None,
        }
    }
}

/// A point in time: seconds since 1970-01-01T00:00:00Z and nanoseconds.
#[derive(Debug, Clone, Copy, PartialEq, Eq, Structural, PartialOrd, Ord)]
pub struct Timestamp {
    pub epoch_seconds: i64,
    pub nanos: u32,
}

/// The date after `y`-`m`-`d` on the Gregorian calendar.
pub open spec fn next_date(y: int, m: int, d: int) -> (int, int, int) {
    match month_length(y, m) {
        Some(len) => if d < len {
            (y, m, d + 1)
        } else if m < 12 {
            (y, m + 1, 1)
        } else {
            (y + 1, 1, 1)
        },
        None => (y, m, d),
    }
}

/// Day numbers count days: 1970-01-01 is day 0, and the date after a valid
/// date has the next day number.
pub proof fn lemma_day_numbers(y: int, m: int, d: int)
    requires
        1 <= m <= 12,
        1 <= d <= month_length(y, m)->0,
    ensures
        civil_days(1970, 1, 1) == 0,
        ({
            let (y2, m2, d2) = next_date(y, m, d);
            civil_days(y2, m2, d2) == civil_days(y, m, d) + 1
        }),
{
    let len = month_length(y, m)->0;
    if d == len && m == 2 {
        let yy = y - 1;
        let era = yy / 400;
        let yoe = yy - era * 400;
        assert(0 <= yoe < 400);
        assert(y % 4 == (yoe + 1) % 4 && y % 100 == (yoe + 1) % 100 && y % 400 == (yoe + 1) % 400) by {
            assert(y == era * 400 + yoe + 1);
            vstd::arithmetic::div_mod::lemma_mod_multiples_vanish(era * 100, yoe + 1, 4);
            vstd::arithmetic::div_mod::lemma_mod_multiples_vanish(era * 4, yoe + 1, 100);
            vstd::arithmetic::div_mod::lemma_mod_multiples_vanish(era, yoe + 1, 400);
            assert(4 * (era * 100) == era * 400) by (nonlinear_arith);
            assert(100 * (era * 4) == era * 400) by (nonlinear_arith);
            assert(400 * era == era * 400) by (nonlinear_arith);
        }
        if yoe < 399 {
            assert(y / 400 == era) by {
                vstd::arithmetic::div_mod::lemma_fundamental_div_mod_converse(y, 400, era, yoe + 1);
            }
        } else {
            assert(y / 400 == era + 1) by {
                vstd::arithmetic::div_mod::lemma_fundamental_div_mod_converse(y, 400, era + 1, 0);
            }
        }
    }
}

/// The unsigned decimal number `bytes` spells: `None` when it is empty,
/// holds another byte than a digit, or exceeds `u32::MAX`.
pub fn parse_u32(bytes: &[u8]) -> (r: Option<u32>)
    ensures
        r is Some == u32_spec(bytes@) is Some,
        r is Some ==> u32_spec(bytes@) == Some(r->0 as nat),
{
    if bytes.len() == 0 {
        return None;
    }
    let mut val: u32 = 0;
    let mut i: usize = 0;
    while i < bytes.len()
        invariant
            0 <= i <= bytes.len(),
            bytes@.len() > 0,
            val == digits_value(bytes@.take(i as int)),
            forall|t: int| 0 <= t < i ==> is_digit(#[trigger] bytes@[t]),
        decreases bytes.len() - i,
    {
        let b = bytes[i];
        assert(bytes@.take(i as int + 1).drop_last() =~= bytes@.take(i as int));
        if !(48 <= b && b <= 57) {
            return None;
        }
        let next = match val.checked_mul(10) {
            Some(v) => v.checked_add((b - 48) as u32),
            None => None,
        };
        match next {
            Some(v) => {
                val = v;
            },
            None => {
                proof {
                    if all_digits(bytes@) {
                        lemma_digits_prefix_le(bytes@, i as int + 1);
                    }
                }
                return None;
            },
        }
        i = i + 1;
    }
    assert(bytes@.take(i as int) =~= bytes@);
    Some(val)
}

/// A run of digits is worth less than ten to the power of its length.
pub proof fn lemma_digits_value_bound(s: Seq<u8>)
    requires
        all_digits(s),
    ensures
        digits_value(s) < pow10(s.len()),
    decreases s.len(),
{
    if s.len() > 0 {
        assert(all_digits(s.drop_last())) by {
            assert forall|i: int| 0 <= i < s.drop_last().len() implies is_digit(#[trigger] s.drop_last()[i]) by {
                assert(s.drop_last()[i] == s[i]);
            }
        }
        lemma_digits_value_bound(s.drop_last());
        assert(is_digit(s[s.len() - 1]));
        assert(pow10(s.len()) == 10 * pow10((s.len() - 1) as nat));
    }
}

/// The date and time fields of a timestamp whose punctuation is in place.
fn civil_part(bytes: &[u8]) -> (r: Option<(u32, u32, u32, u32, u32, u32)>)
    requires
        bytes@.len() >= 19,
    ensures
        match civil_fields(bytes@) {
            Some((y, mo, d, h, mi, sec)) => r == Some((y as u32, mo as u32, d as u32, h as u32, mi as u32, sec as u32))
                && 0 <= y <= 9999,
            None => r is None,
        },
{
    let year = match parse_u32(&bytes[0..4]) {
        Some(v) => v,
        None => return None,
    };
    let month = match parse_u32(&bytes[5..7]) {
        Some(v) => v,
        None => return None,
    };
    let day = match parse_u32(&bytes[8..10]) {
        Some(v) => v,
        None => return None,
    };
    let hour = match parse_u32(&bytes[11..13]) {
        Some(v) => v,
        None => return None,
    };
    let minute = match parse_u32(&bytes[14..16]) {
        Some(v) => v,
        None => return None,
    };
    let second = match parse_u32(&bytes[17..19]) {
        Some(v) => v,
        None => return None,
    };
    proof {
        lemma_digits_value_bound(bytes@.subrange(0, 4));
        reveal_with_fuel(pow10, 5);
    }
    if month < 1 || month > 12 {
        return None;
    }
    let max_days = match days_in_month(year as i64, month) {
        Some(n) => n,
        None => return None,
    };
    if day < 1 || day > max_days {
        return None;
    }
    if hour > 23 || minute > 59 || second > 59 {
        return None;
    }
    Some((year, month, day, hour, minute, second))
}

/// Where the zone designator starts after the seconds, and the nanoseconds
/// of the fraction before it.
fn fraction_part(bytes: &[u8]) -> (r: Option<(usize, u32)>)
    requires
        bytes@.len() >= 19,
    ensures
        match fraction(bytes@) {
            Some((i, n)) => r == Some((i as usize, n as u32)) && 19 <= i <= bytes@.len() && n < 1_000_000_000,
            None => r is None,
        },
{
    let mut idx: usize = 19;
    if !(idx < bytes.len() && (bytes[idx] == 46 || bytes[idx] == 44)) {
        return Some((19, 0));
    }
    idx = 20;
    let ghost rest = bytes@.skip(20);
    proof {
        lemma_digit_run(rest);
    }
    while idx < bytes.len() && 48 <= bytes[idx] && bytes[idx] <= 57
        invariant
            20 <= idx <= bytes.len(),
            rest == bytes@.skip(20),
            forall|t: int| 20 <= t < idx ==> is_digit(#[trigger] bytes@[t]),
            digit_run(rest) <= rest.len(),
            forall|i: int| 0 <= i < digit_run(rest) ==> is_digit(#[trigger] rest[i]),
            digit_run(rest) < rest.len() ==> !is_digit(rest[digit_run(rest) as int]),
        decreases bytes.len() - idx,
    {
        idx = idx + 1;
    }
    let ghost run = digit_run(rest) as int;
    proof {
        if idx - 20 < run {
            assert(rest[idx - 20] == bytes@[idx as int]);
            assert(is_digit(rest[idx - 20]));
        }
        if run < idx - 20 {
            assert(rest[run] == bytes@[20 + run]);
            assert(is_digit(bytes@[20 + run]));
        }
    }
    assert(idx - 20 == run);
    if idx == 20 {
        return None;
    }
    let digits = &bytes[20..idx];
    let k: usize = if digits.len() < 9 { digits.len() } else { 9 };
    let ghost dg = digits@;
    assert(dg == bytes@.subrange(20, 20 + run));
    assert(all_digits(dg)) by {
        assert forall|i: int| 0 <= i < dg.len() implies is_digit(#[trigger] dg[i]) by {
            assert(dg[i] == bytes@[20 + i]);
        }
    }
    let mut n: u32 = 0;
    let mut t: usize = 0;
    while t < k
        invariant
            k <= 9,
            k <= dg.len(),
            dg == digits@,
            all_digits(dg),
            t <= k,
            n == digits_value(dg.take(t as int)),
            n < pow10(t as nat),
        decreases k - t,
    {
        let d = digits[t];
        assert(dg.take(t as int + 1).drop_last() =~= dg.take(t as int));
        assert(is_digit(dg[t as int]));
        proof {
            lemma_pow9(t as nat);
            assert(pow10(t as nat + 1) == 10 * pow10(t as nat));
        }
        n = n * 10 + (d - 48) as u32;
        t = t + 1;
    }
    let ghost base = n as int;
    assert(pow10(0) == 1);
    assert(base * pow10(0) == base) by (nonlinear_arith)
        requires
            pow10(0) == 1,
    ;
    let mut sc: usize = k;
    assert(((sc - k) as nat) == 0);
    while sc < 9
        invariant
            k <= sc <= 9,
            n as int == base * pow10((sc - k) as nat),
            n < pow10(sc as nat),
        decreases 9 - sc,
    {
        proof {
            lemma_pow9(sc as nat);
            assert(pow10(sc as nat + 1) == 10 * pow10(sc as nat));
            assert(pow10((sc + 1 - k) as nat) == 10 * pow10((sc - k) as nat));
            assert(base * pow10((sc + 1 - k) as nat) == (base * pow10((sc - k) as nat)) * 10) by (nonlinear_arith)
                requires
                    pow10((sc + 1 - k) as nat) == 10 * pow10((sc - k) as nat),
            ;
        }
        n = n * 10;
        sc = sc + 1;
    }
    proof {
        lemma_pow9(8);
    }
    assert(n == nanos_of(dg));
    Some((idx, n))
}

/// Ten to the power of at most eight is below a billion.
proof fn lemma_pow9(t: nat)
    requires
        t <= 8,
    ensures
        pow10(t + 1) <= 1_000_000_000,
        pow10(t + 1) == 10 * pow10(t),
{
    reveal_with_fuel(pow10, 10);
    assert(t == 0 || t == 1 || t == 2 || t == 3 || t == 4 || t == 5 || t == 6 || t == 7 || t == 8);
}

/// The largest year magnitude the day count is computed for.
pub const YEAR_BOUND: i64 = 1_000_000_000_000;

/// Whether `year` is a Gregorian leap year.
pub fn is_leap_year(year: i64) -> (r: bool)
    ensures
        r == leap(year as int),
{
    let a: u64 = if year < 0 { (-(year as i128)) as u64 } else { year as u64 };
    proof {
        lemma_divisible_negated(year as int, 4);
        lemma_divisible_negated(year as int, 100);
        lemma_divisible_negated(year as int, 400);
    }
    (a % 4 == 0 && a % 100 != 0) || a % 400 == 0
}

/// `y` and `-y` have the same divisors.
pub proof fn lemma_divisible_negated(y: int, k: int)
    requires
        k > 0,
    ensures
        (y % k == 0) == ((-y) % k == 0),
{
    if y % k == 0 {
        let q = y / k;
        assert(y == k * q) by (nonlinear_arith)
            requires
                k > 0,
                y % k == 0,
                q == y / k,
        ;
        assert(-y == k * (-q)) by (nonlinear_arith)
            requires
                y == k * q,
        ;
        vstd::arithmetic::div_mod::lemma_mod_multiples_basic(-q, k);
        assert((-q) * k == k * (-q)) by (nonlinear_arith);
    }
    if (-y) % k == 0 {
        let q = (-y) / k;
        assert(-y == k * q) by (nonlinear_arith)
            requires
                k > 0,
                (-y) % k == 0,
                q == (-y) / k,
        ;
        vstd::arithmetic::div_mod::lemma_mod_multiples_basic(-q, k);
        assert((-q) * k == y) by (nonlinear_arith)
            requires
                -y == k * q,
        ;
    }
}

/// The number of days in `month` of `year`; `None` for a month outside 1 to
/// 12.
pub fn days_in_month(year: i64, month: u32) -> (r: Option<u32>)
    ensures
        match month_length(year as int, month as int) {
            Some(n) => r == Some(n as u32),
            None => r is None,
        },
{
    match month {
        1 | 3 | 5 | 7 | 8 | 10 | 12 => Some(31),
        4 | 6 | 9 | 11 => Some(30),
        2 => {
            if is_leap_year(year) {
                Some(29)
            } else {
                Some(28)
            }
        },
        _ => None,
    }
}

/// The day number of the civil date `y`-`m`-`d`, with 1970-01-01 as day 0.
pub fn days_from_civil(y: i64, m: u32, d: u32) -> (r: i64)
    requires
        -YEAR_BOUND <= y <= YEAR_BOUND,
        1 <= m <= 12,
        1 <= d <= 31,
    ensures
        r == civil_days(y as int, m as int, d as int),
        0 <= y <= 9999 ==> -1_000_000 <= r <= 4_000_000,
{
    let yy: i64 = if m <= 2 { y - 1 } else { y };
    let era: i64 = if yy >= 0 {
        ((yy as u64) / 400) as i64
    } else {
        let up: u64 = ((-yy) as u64 + 399) / 400;
        -(up as i64)
    };
    assert(era == yy / 400) by (nonlinear_arith)
        requires
            yy >= 0 ==> era == yy / 400,
            yy < 0 ==> era == -((-yy + 399) / 400),
    {
        if yy < 0 {
            let q = yy / 400;
            let r = yy % 400;
            assert(yy == 400 * q + r && 0 <= r < 400);
            assert(-yy + 399 == 400 * (-q) + (399 - r));
            assert((-yy + 399) / 400 == -q);
        }
    }
    let yoe: i64 = yy - era * 400;
    assert(0 <= yoe < 400) by (nonlinear_arith)
        requires
            era == yy / 400,
            yoe == yy - era * 400,
    ;
    let mp: u32 = if m > 2 { m - 3 } else { m + 9 };
    let doy: u32 = (153 * mp + 2) / 5 + d - 1;
    let yoe_u: u32 = yoe as u32;
    let doe: u32 = yoe_u * 365 + yoe_u / 4 - yoe_u / 100 + doy;
    assert(-3_000_000_000 <= era <= 3_000_000_000) by (nonlinear_arith)
        requires
            era == yy / 400,
            -YEAR_BOUND - 1 <= yy <= YEAR_BOUND,
    ;
    era * 146097 + (doe as i64) - 719468
}

/// The offset from UTC, in seconds, of the zone designator `z`.
fn zone_part(z: &[u8]) -> (r: Option<i64>)
    ensures
        match zone_offset(z@) {
            Some(o) => r == Some(o as i64) && -86400 < o < 86400,
            None => r is None,
        },
{
    if z.len() == 0 {
        return None;
    }
    if z[0] == 90 || z[0] == 122 {
        if z.len() == 1 {
            return Some(0);
        }
        return None;
    }
    if !(z[0] == 43 || z[0] == 45) {
        return None;
    }
    let sign: i64 = if z[0] == 43 { 1 } else { -1 };
    let tz = &z[1..z.len()];
    assert(tz@ =~= z@.drop_first());
    if tz.len() == 5 && tz[2] == 58 {
        let h = match parse_u32(&tz[0..2]) {
            Some(v) => v,
            None => return None,
        };
        let mi = match parse_u32(&tz[3..5]) {
            Some(v) => v,
            None => return None,
        };
        if h > 23 || mi > 59 {
            return None;
        }
        Some(sign * (h as i64 * 3600 + mi as i64 * 60))
    } else if tz.len() == 4 {
        let h = match parse_u32(&tz[0..2]) {
            Some(v) => v,
            None => return None,
        };
        let mi = match parse_u32(&tz[2..4]) {
            Some(v) => v,
            None => return None,
        };
        if h > 23 || mi > 59 {
            return None;
        }
        Some(sign * (h as i64 * 3600 + mi as i64 * 60))
    } else if tz.len() == 2 {
        let h = match parse_u32(&tz[0..2]) {
            Some(v) => v,
            None => return None,
        };
        if h > 23 {
            return None;
        }
        Some(sign * (h as i64 * 3600))
    } else {
        None
    }
}

/// The instant that the RFC 3339 timestamp in `bytes` names.
pub fn parse_timestamp_bytes(bytes: &[u8]) -> (r: Option<Timestamp>)
    ensures
        r is Some == timestamp_spec(bytes@) is Some,
        r is Some ==> timestamp_spec(bytes@) == Some((r->0.epoch_seconds as int, r->0.nanos as nat)),
{
    if bytes.len() < 19 {
        return None;
    }
    if bytes[4] != 45 || bytes[7] != 45 {
        return None;
    }
    if bytes[10] != 84 && bytes[10] != 116 {
        return None;
    }
    if bytes[13] != 58 || bytes[16] != 58 {
        return None;
    }
    let (year, month, day, hour, minute, second) = match civil_part(bytes) {
        Some(f) => f,
        None => return None,
    };
    let (idx, nanos) = match fraction_part(bytes) {
        Some(f) => f,
        None => return None,
    };
    let offset = match zone_part(&bytes[idx..bytes.len()]) {
        Some(o) => o,
        None => return None,
    };
    assert(bytes@.subrange(idx as int, bytes@.len() as int) =~= bytes@.skip(idx as int));
    let ghost spec_fields = civil_fields(bytes@);
    let ghost spec_frac = fraction(bytes@);
    let ghost spec_zone = zone_offset(bytes@.skip(idx as int));
    assert(spec_fields == Some((year as int, month as int, day as int, hour as int, minute as int, second as int)));
    assert(spec_frac == Some((idx as int, nanos as nat)));
    assert(spec_zone == Some(offset as int));
    let days = days_from_civil(year as i64, month, day);
    let total = days * 86400 + (hour as i64) * 3600 + (minute as i64) * 60 + (second as i64) - offset;
    Some(Timestamp { epoch_seconds: total, nanos })
}

/// The instant that the RFC 3339 timestamp `s` names (`T` or `t` between
/// date and time, an optional fraction after `.` or `,`, and `Z`, `z` or a
/// numeric offset at the end).
pub fn parse_timestamp(s: &str) -> (r: Option<Timestamp>)
    ensures
        r is Some == timestamp_spec(s.spec_bytes()) is Some,
        r is Some ==> timestamp_spec(s.spec_bytes()) == Some((r->0.epoch_seconds as int, r->0.nanos as nat)),
{
    parse_timestamp_bytes(s.as_bytes())
}

/// A member of a request object, as far as the decision reads it: absent
/// or `null`, a string (its UTF-8 bytes), or a value of another kind.
pub enum Field {
    Missing,
    Text(Vec<u8>),
    Other,
}

/// The optional `scope` member of a consent: absent or `null`, an array
/// (each item read as a `Field`), or a value of another kind.
pub enum Scope {
    Missing,
    List(Vec<Field>),
    Other,
}

/// One recorded consent; an array item that is no object has every member
/// `Missing`.
pub struct ConsentEntry {
    pub purpose: Field,
    pub status: Field,
    pub granted_at: Field,
    pub expires_at: Field,
    pub scope: Scope,
}

/// A consent check request; `consents` is `None` when the member is absent
/// or no array.
pub struct ConsentRequest {
    pub subject_id: Field,
    pub requested_purpose: Field,
    pub policy_version: Field,
    pub now: Field,
    pub consents: Option<Vec<ConsentEntry>>,
}

/// Whether processing may go ahead.
#[derive(Debug, Clone, Copy, PartialEq, Eq, Structural)]
pub enum Decision {
    Allow,
    Deny,
}

/// Why the decision came out as it did.
#[derive(Debug, Clone, Copy, PartialEq, Eq, Structural)]
pub enum Reason {
    InvalidInput,
    ConsentWithdrawn,
    ConsentDenied,
    ConsentExpired,
    ConsentGranted,
    PurposeNotGranted,
}

/// The state a consent records.
#[derive(Debug, Clone, Copy, PartialEq, Eq, Structural)]
pub enum Status {
    Granted,
    Denied,
    Withdrawn,
}

/// The answer to a consent check.
pub struct ConsentResponse {
    pub decision: Decision,
    pub reason: Reason,
    pub matched_consent_index: Option<usize>,
    pub policy_version: Vec<u8>,
}

impl Decision {
    /// The decision's name in a response document.
    pub fn as_str(&self) -> (r: &'static str)
        ensures
            r@ == (match self {
                Decision::Allow => "allow"@,
                Decision::Deny => "deny"@,
            }),
    {
        match self {
            Decision::Allow => "allow",
            Decision::Deny => "deny",
        }
    }
}

impl Reason {
    /// The reason code's name in a response document.
    pub fn as_str(&self) -> (r: &'static str)
        ensures
            r@ == (match self {
                Reason::InvalidInput => "invalid_input"@,
                Reason::ConsentWithdrawn => "consent_withdrawn"@,
                Reason::ConsentDenied => "consent_denied"@,
                Reason::ConsentExpired => "consent_expired"@,
                Reason::ConsentGranted => "consent_granted"@,
                Reason::PurposeNotGranted => "purpose_not_granted"@,
            }),
    {
        match self {
            Reason::InvalidInput => "invalid_input",
            Reason::ConsentWithdrawn => "consent_withdrawn",
            Reason::ConsentDenied => "consent_denied",
            Reason::ConsentExpired => "consent_expired",
            Reason::ConsentGranted => "consent_granted",
            Reason::PurposeNotGranted => "purpose_not_granted",
        }
    }
}

/// The bytes of a string member.
pub open spec fn text_of(f: Field) -> Option<Seq<u8>> {
    match f {
        Field::Text(v) => Some(v@),
        _ => None,
    }
}

/// The bytes of a string member that is not empty.
pub open spec fn nonempty_text(f: Field) -> Option<Seq<u8>> {
    match f {
        Field::Text(v) => if v@.len() > 0 { Some(v@) } else { None },
        _ => None,
    }
}

/// The status a member names: `granted`, `denied` or `withdrawn`.
pub open spec fn status_of(f: Field) -> Option<Status> {
    match f {
        Field::Text(v) => if v@ == "granted".spec_bytes() {
            Some(Status::Granted)
        } else if v@ == "denied".spec_bytes() {
            Some(Status::Denied)
        } else if v@ == "withdrawn".spec_bytes() {
            Some(Status::Withdrawn)
        } else {
            None
        },
        _ => None,
    }
}

/// An optional timestamp member: `Some(None)` when absent or `null`,
/// `Some(Some(t))` for a string that parses, `None` when invalid.
pub open spec fn instant_of(f: Field) -> Option<Option<(int, nat)>> {
    match f {
        Field::Missing => Some(None),
        Field::Text(v) => match timestamp_spec(v@) {
            Some(t) => Some(Some(t)),
            None => None,
        },
        Field::Other => None,
    }
}

/// A string member.
pub open spec fn is_text(f: Field) -> bool {
    f is Text
}

/// A scope is absent, `null`, or an array of strings.
pub open spec fn scope_ok(s: Scope) -> bool {
    match s {
        Scope::Missing => true,
        Scope::List(items) => forall|i: int| 0 <= i < items@.len() ==> is_text(#[trigger] items@[i]),
        Scope::Other => false,
    }
}

/// A consent whose members all have the required form.
pub open spec fn entry_valid(e: ConsentEntry) -> bool {
    &&& nonempty_text(e.purpose) is Some
    &&& status_of(e.status) is Some
    &&& instant_of(e.granted_at) is Some
    &&& instant_of(e.expires_at) is Some
    &&& scope_ok(e.scope)
}

/// Instants ordered by seconds, then nanoseconds.
pub open spec fn earlier(a: (int, nat), b: (int, nat)) -> bool {
    let (sa, na) = a;
    let (sb, nb) = b;
    sa < sb || (sa == sb && na < nb)
}

/// The first consent at or after `i` for `purpose`.
pub open spec fn first_for(es: Seq<ConsentEntry>, purpose: Seq<u8>, i: int) -> Option<int>
    decreases es.len() - i,
{
    if i < 0 || i >= es.len() {
        None
    } else if text_of(es[i].purpose) == Some(purpose) {
        Some(i)
    } else {
        first_for(es, purpose, i + 1)
    }
}

/// What a valid consent at index `i` answers at instant `now`.
pub open spec fn verdict(e: ConsentEntry, i: int, now: (int, nat)) -> (Reason, Option<int>) {
    match status_of(e.status) {
        Some(Status::Withdrawn) => (Reason::ConsentWithdrawn, Some(i)),
        Some(Status::Denied) => (Reason::ConsentDenied, Some(i)),
        _ => match (instant_of(e.granted_at), instant_of(e.expires_at)) {
            (Some(Some(g)), _) if earlier(now, g) => (Reason::InvalidInput, None),
            (_, Some(Some(x))) if !earlier(now, x) => (Reason::ConsentExpired, Some(i)),
            _ => (Reason::ConsentGranted, Some(i)),
        },
    }
}

/// The reason and matched index a consent check answers: a malformed
/// request is invalid input; otherwise the first consent recorded for the
/// requested purpose decides, and with none the purpose is not granted.
pub open spec fn consent_outcome(req: ConsentRequest) -> (Reason, Option<int>) {
    match (
        nonempty_text(req.subject_id),
        nonempty_text(req.requested_purpose),
        nonempty_text(req.policy_version),
        nonempty_text(req.now),
        req.consents,
    ) {
        (Some(_), Some(purpose), Some(_), Some(now_text), Some(list)) => match timestamp_spec(now_text) {
            Some(now) => {
                let es = list@;
                if exists|i: int| 0 <= i < es.len() && !entry_valid(#[trigger] es[i]) {
                    (Reason::InvalidInput, None)
                } else {
                    match first_for(es, purpose, 0) {
                        Some(i) => verdict(es[i], i, now),
                        None => (Reason::PurposeNotGranted, None),
                    }
                }
            },
            None => (Reason::InvalidInput, None),
        },
        _ => (Reason::InvalidInput, None),
    }
}

/// Only a granted consent allows.
pub open spec fn decision_for(r: Reason) -> Decision {
    if r == Reason::ConsentGranted { Decision::Allow } else { Decision::Deny }
}

/// The instant a timestamp stands for, as seconds and nanoseconds.
pub open spec fn instant_view(t: Timestamp) -> (int, nat) {
    (t.epoch_seconds as int, t.nanos as nat)
}

/// An index as an integer.
pub open spec fn index_view(m: Option<usize>) -> Option<int> {
    match m {
        Some(i) => Some(i as int),
        None => None,
    }
}

/// Whether `a` comes strictly before `b`.
pub fn is_earlier(a: &Timestamp, b: &Timestamp) -> (r: bool)
    ensures
        r == earlier(instant_view(*a), instant_view(*b)),
{
    a.epoch_seconds < b.epoch_seconds || (a.epoch_seconds == b.epoch_seconds && a.nanos < b.nanos)
}

/// The bytes of a non-empty string member.
fn nonempty(f: &Field) -> (r: Option<&Vec<u8>>)
    ensures
        match nonempty_text(*f) {
            Some(t) => r is Some && r->0@ == t,
            None => r is None,
        },
{
    match f {
        Field::Text(v) => if v.len() > 0 {
            Some(v)
        } else {
            None
        },
        _ => None,
    }
}

/// The status a member names.
fn status(f: &Field) -> (r: Option<Status>)
    ensures
        r == status_of(*f),
{
    match f {
        Field::Text(v) => {
            if bytes_eq(v.as_slice(), "granted".as_bytes()) {
                Some(Status::Granted)
            } else if bytes_eq(v.as_slice(), "denied".as_bytes()) {
                Some(Status::Denied)
            } else if bytes_eq(v.as_slice(), "withdrawn".as_bytes()) {
                Some(Status::Withdrawn)
            } else {
                None
            }
        },
        _ => None,
    }
}

/// An optional timestamp member, read.
fn instant(f: &Field) -> (r: Option<Option<Timestamp>>)
    ensures
        match instant_of(*f) {
            Some(None) => r == Some(None::<Timestamp>),
            Some(Some(t)) => r is Some && r->0 is Some && instant_view(r->0->0) == t,
            None => r is None,
        },
{
    match f {
        Field::Missing => Some(None),
        Field::Text(v) => match parse_timestamp_bytes(v.as_slice()) {
            Some(t) => Some(Some(t)),
            None => None,
        },
        Field::Other => None,
    }
}

/// Whether a scope member has the required form.
fn scope_valid(s: &Scope) -> (r: bool)
    ensures
        r == scope_ok(*s),
{
    match s {
        Scope::Missing => true,
        Scope::List(items) => {
            let mut i: usize = 0;
            while i < items.len()
                invariant
                    i <= items@.len(),
                    forall|j: int| 0 <= j < i ==> is_text(#[trigger] items@[j]),
                    scope_ok(*s) == (forall|j: int| 0 <= j < items@.len() ==> is_text(#[trigger] items@[j])),
                decreases items.len() - i,
            {
                match &items[i] {
                    Field::Text(_) => {},
                    _ => {
                        assert(!is_text(items@[i as int]));
                        return false;
                    },
                }
                i = i + 1;
            }
            true
        },
        Scope::Other => false,
    }
}

/// Whether every member of a consent has the required form.
fn entry_check(e: &ConsentEntry) -> (r: bool)
    ensures
        r == entry_valid(*e),
{
    nonempty(&e.purpose).is_some() && status(&e.status).is_some() && instant(&e.granted_at).is_some()
        && instant(&e.expires_at).is_some() && scope_valid(&e.scope)
}

/// What the valid consent `e`, at index `i`, answers at instant `now`.
fn consent_verdict(e: &ConsentEntry, i: usize, now: &Timestamp) -> (r: (Reason, Option<usize>))
    requires
        entry_valid(*e),
    ensures
        (r.0, index_view(r.1)) == verdict(*e, i as int, instant_view(*now)),
{
    match status(&e.status) {
        Some(Status::Withdrawn) => (Reason::ConsentWithdrawn, Some(i)),
        Some(Status::Denied) => (Reason::ConsentDenied, Some(i)),
        _ => {
            if let Some(Some(g)) = instant(&e.granted_at) {
                if is_earlier(now, &g) {
                    return (Reason::InvalidInput, None);
                }
            }
            if let Some(Some(x)) = instant(&e.expires_at) {
                if !is_earlier(now, &x) {
                    return (Reason::ConsentExpired, Some(i));
                }
            }
            (Reason::ConsentGranted, Some(i))
        },
    }
}

/// The reason and matched index for a request whose members have all been
/// read.
fn outcome(req: &ConsentRequest) -> (r: (Reason, Option<usize>))
    ensures
        (r.0, index_view(r.1)) == consent_outcome(*req),
{
    if nonempty(&req.subject_id).is_none() {
        return (Reason::InvalidInput, None);
    }
    let purpose = match nonempty(&req.requested_purpose) {
        Some(p) => p,
        None => return (Reason::InvalidInput, None),
    };
    if nonempty(&req.policy_version).is_none() {
        return (Reason::InvalidInput, None);
    }
    let now_text = match nonempty(&req.now) {
        Some(t) => t,
        None => return (Reason::InvalidInput, None),
    };
    let now = match parse_timestamp_bytes(now_text.as_slice()) {
        Some(t) => t,
        None => return (Reason::InvalidInput, None),
    };
    let list = match &req.consents {
        Some(l) => l,
        None => return (Reason::InvalidInput, None),
    };
    let ghost es = list@;
    let ghost decided = match first_for(es, purpose@, 0) {
        Some(j) => verdict(es[j], j, instant_view(now)),
        None => (Reason::PurposeNotGranted, None),
    };
    assert(timestamp_spec(now_text@) == Some(instant_view(now)));
    assert(consent_outcome(*req) == (if exists|j: int| 0 <= j < es.len() && !entry_valid(#[trigger] es[j]) {
        (Reason::InvalidInput, None)
    } else {
        decided
    }));
    let mut i: usize = 0;
    while i < list.len()
        invariant
            i <= es.len(),
            es == list@,
            forall|j: int| 0 <= j < i ==> entry_valid(#[trigger] es[j]),
            consent_outcome(*req) == (if exists|j: int| 0 <= j < es.len() && !entry_valid(#[trigger] es[j]) {
                (Reason::InvalidInput, None)
            } else {
                decided
            }),
        decreases list.len() - i,
    {
        if !entry_check(&list[i]) {
            assert(!entry_valid(es[i as int]));
            return (Reason::InvalidInput, None);
        }
        i = i + 1;
    }
    assert(consent_outcome(*req) == decided);
    let mut k: usize = 0;
    while k < list.len()
        invariant
            k <= es.len(),
            es == list@,
            forall|j: int| 0 <= j < es.len() ==> entry_valid(#[trigger] es[j]),
            first_for(es, purpose@, 0) == first_for(es, purpose@, k as int),
            consent_outcome(*req) == decided,
            decided == match first_for(es, purpose@, 0) {
                Some(j) => verdict(es[j], j, instant_view(now)),
                None => (Reason::PurposeNotGranted, None),
            },
        decreases list.len() - k,
    {
        let e = &list[k];
        let p = match &e.purpose {
            Field::Text(v) => v,
            _ => {
                assert(entry_valid(es[k as int]));
                return (Reason::InvalidInput, None);
            },
        };
        if bytes_eq(p.as_slice(), purpose.as_slice()) {
            assert(*e == es[k as int]);
            assert(entry_valid(es[k as int]));
            assert(first_for(es, purpose@, k as int) == Some(k as int));
            return consent_verdict(e, k, &now);
        }
        k = k + 1;
    }
    (Reason::PurposeNotGranted, None)
}

/// Decides whether the consents recorded in `req` allow processing for the
/// requested purpose at the instant `now` that it names, and echoes the
/// policy version (empty when it is no string).
pub fn check_consent(req: &ConsentRequest) -> (r: ConsentResponse)
    ensures
        (r.reason, index_view(r.matched_consent_index)) == consent_outcome(*req),
        r.decision == decision_for(r.reason),
        r.policy_version@ == (match text_of(req.policy_version) {
            Some(t) => t,
            None => Seq::<u8>::empty(),
        }),
{
    let (reason, matched) = outcome(req);
    let decision = if reason == Reason::ConsentGranted { Decision::Allow } else { Decision::Deny };
    let policy_version = match &req.policy_version {
        Field::Text(v) => vstd::slice::slice_to_vec(v.as_slice()),
        _ => Vec::new(),
    };
    ConsentResponse { decision, reason, matched_consent_index: matched, policy_version }
}

} // verus!
