//! Currency formatting from a fixed table of currencies (decimal places and
//! symbol) and locales (symbol placement and separators). An amount comes
//! already split into sign, whole units and fraction digits; an unknown
//! currency or locale gets a plain fallback and is reported unsupported.
use vstd::prelude::*;
use vstd::string::StringSliceAdditionalSpecFns;
use crate::emit::{decimal, decimal_digits};
use crate::scan::bytes_eq;
use crate::catalog::append;

verus! {

/// The decimal places and symbol (UTF-8) of a known currency code.
pub open spec fn currency_spec(code: Seq<u8>) -> Option<(u32, Seq<u8>)> {
    if code == "USD".spec_bytes() {
        Some((2, "$".spec_bytes()))
    } else if code == "EUR".spec_bytes() {
        Some((2, "\u{20ac}".spec_bytes()))
    } else if code == "GBP".spec_bytes() {
        Some((2, "\u{a3}".spec_bytes()))
    } else if code == "JPY".spec_bytes() {
        Some((0, "\u{a5}".spec_bytes()))
    } else if code == "CAD".spec_bytes() {
        Some((2, "$".spec_bytes()))
    } else if code == "AUD".spec_bytes() {
        Some((2, "$".spec_bytes()))
    } else if code == "INR".spec_bytes() {
        Some((2, "\u{20b9}".spec_bytes()))
    } else if code == "BHD".spec_bytes() {
        Some((3, "BHD".spec_bytes()))
    } else {
        None
    }
}

/// The conventions of a known locale: symbol before the number, a space
/// between them, the thousands separator and the decimal separator.
pub open spec fn locale_spec(locale: Seq<u8>) -> Option<(bool, bool, u8, u8)> {
    if locale == "en-US".spec_bytes() {
        Some((true, false, 44u8, 46u8))
    } else if locale == "en-GB".spec_bytes() {
        Some((true, false, 44u8, 46u8))
    } else if locale == "de-DE".spec_bytes() {
        Some((false, true, 46u8, 44u8))
    } else if locale == "fr-FR".spec_bytes() {
        Some((false, true, 32u8, 44u8))
    } else if locale == "ja-JP".spec_bytes() {
        Some((true, false, 44u8, 46u8))
    } else {
        None
    }
}

/// Looks up a currency code.
pub fn currency_info(code: &[u8]) -> (r: Option<(u32, &'static [u8])>)
    ensures
        match currency_spec(code@) {
            Some((dp, sym)) => r is Some && (r->0).0 == dp && (r->0).1@ == sym,
            None => r is None,
        },
{
    if bytes_eq(code, "USD".as_bytes()) {
        Some((2, "$".as_bytes()))
    } else if bytes_eq(code, "EUR".as_bytes()) {
        Some((2, "\u{20ac}".as_bytes()))
    } else if bytes_eq(code, "GBP".as_bytes()) {
        Some((2, "\u{a3}".as_bytes()))
    } else if bytes_eq(code, "JPY".as_bytes()) {
        Some((0, "\u{a5}".as_bytes()))
    } else if bytes_eq(code, "CAD".as_bytes()) {
        Some((2, "$".as_bytes()))
    } else if bytes_eq(code, "AUD".as_bytes()) {
        Some((2, "$".as_bytes()))
    } else if bytes_eq(code, "INR".as_bytes()) {
        Some((2, "\u{20b9}".as_bytes()))
    } else if bytes_eq(code, "BHD".as_bytes()) {
        Some((3, "BHD".as_bytes()))
    } else {
        None
    }
}

/// Looks up a locale.
pub fn locale_info(locale: &[u8]) -> (r: Option<(bool, bool, u8, u8)>)
    ensures
        r == locale_spec(locale@),
{
    if bytes_eq(locale, "en-US".as_bytes()) {
        Some((true, false, 44u8, 46u8))
    } else if bytes_eq(locale, "en-GB".as_bytes()) {
        Some((true, false, 44u8, 46u8))
    } else if bytes_eq(locale, "de-DE".as_bytes()) {
        Some((false, true, 46u8, 44u8))
    } else if bytes_eq(locale, "fr-FR".as_bytes()) {
        Some((false, true, 32u8, 44u8))
    } else if bytes_eq(locale, "ja-JP".as_bytes()) {
        Some((true, false, 44u8, 46u8))
    } else {
        None
    }
}

/// The digits `d` from index `i` on, with `sep` before every digit that
/// starts a group of three counted from the right.
pub open spec fn group_from(d: Seq<u8>, i: int, sep: u8) -> Seq<u8>
    decreases d.len() - i,
{
    if i < 0 || i >= d.len() {
        Seq::empty()
    } else {
        (if i > 0 && (d.len() - i) % 3 == 0 { seq![sep] } else { Seq::empty() }) + seq![d[i]] + group_from(d, i + 1, sep)
    }
}

/// The digits of `n` grouped by threes with `sep`: `0` for zero, nothing
/// for a negative number.
pub open spec fn grouped_spec(n: int, sep: u8) -> Seq<u8> {
    if n == 0 {
        seq![48u8]
    } else if n < 0 {
        Seq::empty()
    } else {
        group_from(decimal(n as nat), 0, sep)
    }
}

/// Groups the digits of `n` by threes from the right with `sep`.
pub fn group_digits(n: i64, sep: u8) -> (r: Vec<u8>)
    ensures
        r@ == grouped_spec(n as int, sep),
{
    let mut out: Vec<u8> = Vec::new();
    if n == 0 {
        out.push(48);
        assert(out@ =~= seq![48u8]);
        return out;
    }
    if n < 0 {
        assert(out@ =~= Seq::<u8>::empty());
        return out;
    }
    let d = decimal_digits(n as u64);
    let mut i: usize = 0;
    assert(out@ =~= Seq::<u8>::empty());
    while i < d.len()
        invariant
            i <= d@.len(),
            d@ == decimal(n as nat),
            group_from(d@, 0, sep) == out@ + group_from(d@, i as int, sep),
        decreases d@.len() - i,
    {
        let ghost before = out@;
        if i > 0 && (d.len() - i) % 3 == 0 {
            out.push(sep);
        }
        out.push(d[i]);
        assert(before + group_from(d@, i as int, sep) =~= out@ + group_from(d@, i + 1, sep));
        i = i + 1;
    }
    assert(out@ + group_from(d@, i as int, sep) =~= out@);
    out
}

/// `k` zero digits.
pub open spec fn zeros(k: int) -> Seq<u8> {
    Seq::new(if k < 0 { 0 } else { k as nat }, |_i: int| 48u8)
}

/// The digits of `n` with zeros in front up to `width`; all zeros when `n`
/// is not positive.
pub open spec fn padded_spec(n: int, width: int) -> Seq<u8> {
    if n <= 0 {
        zeros(width)
    } else {
        let d = decimal(n as nat);
        if d.len() < width { zeros(width - d.len()) + d } else { d }
    }
}

/// Writes `n` with leading zeros up to `width` digits.
pub fn pad_left_zero(n: i64, width: usize) -> (r: Vec<u8>)
    ensures
        r@ == padded_spec(n as int, width as int),
{
    let mut out: Vec<u8> = Vec::new();
    if n <= 0 {
        let mut k: usize = 0;
        while k < width
            invariant
                k <= width,
                out@ == zeros(k as int),
            decreases width - k,
        {
            out.push(48);
            k = k + 1;
            assert(out@ =~= zeros(k as int));
        }
        return out;
    }
    let d = decimal_digits(n as u64);
    let mut k: usize = 0;
    let fill: usize = if d.len() < width { width - d.len() } else { 0 };
    while k < fill
        invariant
            k <= fill,
            out@ == zeros(k as int),
        decreases fill - k,
    {
        out.push(48);
        k = k + 1;
        assert(out@ =~= zeros(k as int));
    }
    append(&mut out, d.as_slice());
    proof {
        if d@.len() >= width {
            assert(zeros(0) =~= Seq::<u8>::empty());
            assert(out@ =~= d@);
        }
    }
    out
}

/// The number part: the whole units grouped, then the decimal separator and
/// the fraction digits when the currency has decimal places.
pub open spec fn number_spec(whole: int, frac: int, places: int, tsep: u8, dsep: u8) -> Seq<u8> {
    grouped_spec(whole, tsep) + if places > 0 { seq![dsep] + padded_spec(frac, places) } else { Seq::empty() }
}

/// The decimal places of a currency (two for an unknown one).
pub open spec fn places_spec(code: Seq<u8>) -> u32 {
    match currency_spec(code) {
        Some((dp, _)) => dp,
        None => 2,
    }
}

/// The formatted amount and whether both the currency and the locale are
/// known.
pub open spec fn format_spec(negative: bool, whole: int, frac: int, code: Seq<u8>, locale: Seq<u8>) -> (Seq<u8>, bool) {
    let sign = if negative { seq![45u8] } else { Seq::empty() };
    match currency_spec(code) {
        Some((dp, sym)) => match locale_spec(locale) {
            Some((before, space, tsep, dsep)) => {
                let number = number_spec(whole, frac, dp as int, tsep, dsep);
                let gap = if space { seq![32u8] } else { Seq::empty() };
                (sign + if before { sym + gap + number } else { number + gap + sym }, true)
            },
            None => (sign + code + seq![32u8] + number_spec(whole, frac, dp as int, 44u8, 46u8), false),
        },
        None => (sign + code + seq![32u8] + number_spec(whole, frac, 2, 44u8, 46u8), false),
    }
}

/// The decimal places at which to split an amount in `code`.
pub fn decimal_places(code: &[u8]) -> (r: u32)
    ensures
        r == places_spec(code@),
{
    match currency_info(code) {
        Some((dp, _)) => dp,
        None => 2,
    }
}

/// Appends the number part.
fn append_number(out: &mut Vec<u8>, whole: i64, frac: i64, places: u32, tsep: u8, dsep: u8)
    ensures
        final(out)@ == old(out)@ + number_spec(whole as int, frac as int, places as int, tsep, dsep),
{
    let ghost o0 = out@;
    let g = group_digits(whole, tsep);
    append(out, g.as_slice());
    if places > 0 {
        out.push(dsep);
        let p = pad_left_zero(frac, places as usize);
        append(out, p.as_slice());
    }
    assert(out@ =~= o0 + number_spec(whole as int, frac as int, places as int, tsep, dsep));
}

/// Formats an amount split into sign, whole units and fraction digits (at
/// the currency's decimal places) for `code` and `locale`; tells whether
/// both are known.
pub fn format_parts(negative: bool, whole: i64, frac: i64, code: &[u8], locale: &[u8]) -> (r: (Vec<u8>, bool))
    ensures
        (r.0@, r.1) == format_spec(negative, whole as int, frac as int, code@, locale@),
{
    let mut out: Vec<u8> = Vec::new();
    if negative {
        out.push(45);
    }
    let ghost sign = out@;
    match currency_info(code) {
        Some((dp, sym)) => match locale_info(locale) {
            Some((before, space, tsep, dsep)) => {
                if before {
                    append(&mut out, sym);
                    if space {
                        out.push(32);
                    }
                    append_number(&mut out, whole, frac, dp, tsep, dsep);
                } else {
                    append_number(&mut out, whole, frac, dp, tsep, dsep);
                    if space {
                        out.push(32);
                    }
                    append(&mut out, sym);
                }
                proof {
                    let (fs, _) = format_spec(negative, whole as int, frac as int, code@, locale@);
                    assert(out@ =~= fs);
                }
                (out, true)
            },
            None => {
                append(&mut out, code);
                out.push(32);
                append_number(&mut out, whole, frac, dp, 44, 46);
                proof {
                    let (fs, _) = format_spec(negative, whole as int, frac as int, code@, locale@);
                    assert(out@ =~= fs);
                }
                (out, false)
            },
        },
        None => {
            append(&mut out, code);
            out.push(32);
            append_number(&mut out, whole, frac, 2, 44, 46);
            proof {
                let (fs, _) = format_spec(negative, whole as int, frac as int, code@, locale@);
                assert(out@ =~= fs);
            }
            (out, false)
        },
    }
}

/// The digits `d` in groups of three counted from the right, `sep` between
/// the groups (the first group has one to three digits).
pub open spec fn threes(d: Seq<u8>, sep: u8) -> Seq<u8>
    decreases d.len(),
{
    if d.len() <= 3 {
        d
    } else {
        threes(d.take(d.len() - 3), sep) + seq![sep] + d.skip(d.len() - 3)
    }
}

/// `s` with every `sep` taken out.
pub open spec fn without(s: Seq<u8>, sep: u8) -> Seq<u8>
    decreases s.len(),
{
    if s.len() == 0 {
        s
    } else {
        without(s.drop_last(), sep) + if s.last() == sep { Seq::empty() } else { seq![s.last()] }
    }
}

proof fn lemma_without_concat(a: Seq<u8>, b: Seq<u8>, sep: u8)
    ensures
        without(a + b, sep) == without(a, sep) + without(b, sep),
    decreases b.len(),
{
    if b.len() == 0 {
        assert(a + b =~= a);
        assert(without(a, sep) + without(b, sep) =~= without(a, sep));
    } else {
        lemma_without_concat(a, b.drop_last(), sep);
        assert((a + b).drop_last() =~= a + b.drop_last());
        assert((a + b).last() == b.last());
    }
}

proof fn lemma_without_none(d: Seq<u8>, sep: u8)
    requires
        forall|k: int| 0 <= k < d.len() ==> d[k] != sep,
    ensures
        without(d, sep) == d,
    decreases d.len(),
{
    if d.len() > 0 {
        lemma_without_none(d.drop_last(), sep);
        assert(d.drop_last().push(d.last()) =~= d);
    }
}

proof fn lemma_group_short(d: Seq<u8>, i: int, sep: u8)
    requires
        1 <= i <= d.len(),
        d.len() - i < 3,
    ensures
        group_from(d, i, sep) == d.skip(i),
    decreases d.len() - i,
{
    if i < d.len() {
        lemma_group_short(d, i + 1, sep);
        assert(d.skip(i) =~= seq![d[i]] + d.skip(i + 1));
    } else {
        assert(d.skip(i) =~= Seq::<u8>::empty());
    }
}

proof fn lemma_group_split(d: Seq<u8>, i: int, sep: u8)
    requires
        d.len() > 3,
        0 <= i <= d.len() - 3,
    ensures
        group_from(d, i, sep) == group_from(d.take(d.len() - 3), i, sep) + group_from(d, d.len() - 3, sep),
    decreases d.len() - 3 - i,
{
    let h = d.take(d.len() - 3);
    if i < d.len() - 3 {
        lemma_group_split(d, i + 1, sep);
        assert(h[i] == d[i]);
        assert((d.len() - i) % 3 == (h.len() - i) % 3);
    } else {
        assert(group_from(h, i, sep) =~= Seq::<u8>::empty());
    }
}

proof fn lemma_group_threes(d: Seq<u8>, sep: u8)
    requires
        d.len() > 0,
    ensures
        group_from(d, 0, sep) == threes(d, sep),
    decreases d.len(),
{
    if d.len() <= 3 {
        if d.len() > 1 {
            lemma_group_short(d, 1, sep);
        } else {
            assert(group_from(d, 1, sep) =~= Seq::<u8>::empty());
        }
        assert(group_from(d, 0, sep) =~= seq![d[0]] + group_from(d, 1, sep));
        assert(seq![d[0]] + d.skip(1) =~= d);
    } else {
        let n = d.len();
        lemma_group_split(d, 0, sep);
        lemma_group_threes(d.take(n - 3), sep);
        lemma_group_short(d, n - 2, sep);
        assert(group_from(d, n - 3, sep) =~= seq![sep] + seq![d[n - 3]] + group_from(d, n - 2, sep));
        assert(seq![sep] + seq![d[n - 3]] + d.skip(n - 2) =~= seq![sep] + d.skip(n - 3));
        assert(threes(d, sep) =~= threes(d.take(n - 3), sep) + (seq![sep] + d.skip(n - 3)));
    }
}

proof fn lemma_without_threes(d: Seq<u8>, sep: u8)
    requires
        forall|k: int| 0 <= k < d.len() ==> d[k] != sep,
    ensures
        without(threes(d, sep), sep) == d,
    decreases d.len(),
{
    if d.len() <= 3 {
        lemma_without_none(d, sep);
    } else {
        let n = d.len();
        let h = d.take(n - 3);
        let t = d.skip(n - 3);
        lemma_without_threes(h, sep);
        lemma_without_concat(threes(h, sep), seq![sep], sep);
        lemma_without_concat(threes(h, sep) + seq![sep], t, sep);
        lemma_without_none(t, sep);
        assert(without(seq![sep], sep) =~= Seq::<u8>::empty()) by {
            assert(seq![sep].drop_last() =~= Seq::<u8>::empty());
            assert(seq![sep].last() == sep);
            assert(without(Seq::<u8>::empty(), sep) =~= Seq::<u8>::empty());
            assert(without(seq![sep], sep) == without(seq![sep].drop_last(), sep) + Seq::<u8>::empty());
        }
        assert(h + t =~= d);
    }
}

proof fn lemma_decimal_digits(n: nat)
    ensures
        decimal(n).len() > 0,
        forall|k: int| 0 <= k < decimal(n).len() ==> 48 <= #[trigger] decimal(n)[k] <= 57,
    decreases n,
{
    if n >= 10 {
        lemma_decimal_digits(n / 10);
        let d = decimal(n);
        assert forall|k: int| 0 <= k < d.len() implies 48 <= #[trigger] d[k] <= 57 by {
            if k < d.len() - 1 {
                assert(d[k] == decimal(n / 10)[k]);
            }
        }
    }
}

/// Grouping a positive number's digits puts `sep` between groups of three
/// counted from the right, and taking the separators out again leaves its
/// decimal digits when `sep` is not a digit.
pub proof fn lemma_grouped_digits(n: int, sep: u8)
    requires
        n > 0,
    ensures
        grouped_spec(n, sep) == threes(decimal(n as nat), sep),
        !(48 <= sep <= 57) ==> without(grouped_spec(n, sep), sep) == decimal(n as nat),
{
    lemma_decimal_digits(n as nat);
    lemma_group_threes(decimal(n as nat), sep);
    if !(48 <= sep <= 57) {
        lemma_without_threes(decimal(n as nat), sep);
    }
}

} // verus!
