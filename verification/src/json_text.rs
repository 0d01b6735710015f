//! The text layer of JSON: reading a string literal (escapes decoded) and
//! writing a string literal or an integer.
use vstd::prelude::*;
use crate::validators::{is_unicode_ws, is_whitespace, chars_of};
use crate::emit::{decimal, decimal_digits};

verus! {

/// `char::from_u32`: the character whose scalar value is `code`, none for
/// a surrogate code point or a value past `0x10FFFF`.
#[verifier::external_body]
fn char_from_u32(code: u32) -> (r: Option<char>)
    ensures
        match r {
            Some(c) => c as u32 == code,
            None => (0xD800 <= code <= 0xDFFF) || code > 0x10FFFF,
        },
{
    char::from_u32(code)
}

/// The value of a hexadecimal digit.
pub open spec fn hex_value(c: char) -> Option<int> {
    let n = c as u32;
    if 48 <= n <= 57 {
        Some(n - 48)
    } else if 97 <= n <= 102 {
        Some(n - 87)
    } else if 65 <= n <= 70 {
        Some(n - 55)
    } else {
        None
    }
}

/// The value of the four hexadecimal digits at `i`.
pub open spec fn hex4(cs: Seq<char>, i: int) -> Option<int> {
    match (hex_value(cs[i]), hex_value(cs[i + 1]), hex_value(cs[i + 2]), hex_value(cs[i + 3])) {
        (Some(a), Some(b), Some(c), Some(d)) => Some(((a * 16 + b) * 16 + c) * 16 + d),
        _ => None,
    }
}

/// The character a `\u` escape of `code` stands for: the character of
/// that scalar value, the replacement character for a surrogate.
pub open spec fn unit_char(code: int) -> char {
    if 0xD800 <= code <= 0xDFFF { '\u{FFFD}' } else { (code as u32) as char }
}

/// The character a one-letter escape stands for.
pub open spec fn simple_escape(e: char) -> Option<char> {
    if e == '"' {
        Some('"')
    } else if e == '\\' {
        Some('\\')
    } else if e == '/' {
        Some('/')
    } else if e == 'n' {
        Some('\n')
    } else if e == 't' {
        Some('\t')
    } else if e == 'r' {
        Some('\r')
    } else if e == 'b' {
        Some('\u{8}')
    } else if e == 'f' {
        Some('\u{c}')
    } else {
        None
    }
}

/// The body of a string literal from index `i` on, decoded after `acc`, up
/// to its closing quote: the decoded text and the index after the quote;
/// none for an unterminated literal or a bad escape.
pub open spec fn decode_from(cs: Seq<char>, i: int, acc: Seq<char>) -> Option<(Seq<char>, int)>
    decreases cs.len() - i,
{
    if i < 0 || i >= cs.len() {
        None
    } else if cs[i] == '"' {
        Some((acc, i + 1))
    } else if cs[i] == '\\' {
        if i + 1 >= cs.len() {
            None
        } else if cs[i + 1] == 'u' {
            if i + 6 > cs.len() {
                None
            } else {
                match hex4(cs, i + 2) {
                    Some(code) => decode_from(cs, i + 6, acc.push(unit_char(code))),
                    None => None,
                }
            }
        } else {
            match simple_escape(cs[i + 1]) {
                Some(c) => decode_from(cs, i + 2, acc.push(c)),
                None => None,
            }
        }
    } else {
        decode_from(cs, i + 1, acc.push(cs[i]))
    }
}

/// The number of white-space characters from `i` on.
pub open spec fn ws_run(cs: Seq<char>, i: int) -> nat
    decreases cs.len() - i,
{
    if 0 <= i < cs.len() && is_unicode_ws(cs[i]) { 1 + ws_run(cs, i + 1) } else { 0 }
}

/// The string literal that opens `cs` at `start` (after white space): its
/// decoded text and the index after its closing quote.
pub open spec fn parse_string_spec(cs: Seq<char>, start: int) -> Option<(Seq<char>, int)> {
    let j = start + ws_run(cs, start);
    if 0 <= j < cs.len() && cs[j] == '"' {
        decode_from(cs, j + 1, Seq::empty())
    } else {
        None
    }
}

fn hex_digit(c: char) -> (r: Option<u32>)
    ensures
        match hex_value(c) {
            Some(v) => r == Some(v as u32),
            None => r is None,
        },
{
    let n = c as u32;
    if 48 <= n && n <= 57 {
        Some(n - 48)
    } else if 97 <= n && n <= 102 {
        Some(n - 87)
    } else if 65 <= n && n <= 70 {
        Some(n - 55)
    } else {
        None
    }
}

/// Reads the string literal at `start` of `cs` (white space first); returns
/// its decoded text and the index after its closing quote.
pub fn parse_string(cs: &[char], start: usize) -> (r: Option<(String, usize)>)
    ensures
        match parse_string_spec(cs@, start as int) {
            Some((text, end)) => r is Some && (r->0).0@ == text && (r->0).1 == end,
            None => r is None,
        },
{
    let mut j = start;
    proof {
        assert(start + ws_run(cs@, start as int) == j + ws_run(cs@, j as int));
    }
    while j < cs.len() && is_whitespace(cs[j])
        invariant
            start <= j,
            start + ws_run(cs@, start as int) == j + ws_run(cs@, j as int),
        decreases cs@.len() - j,
    {
        j = j + 1;
    }
    if j >= cs.len() || cs[j] != '"' {
        return None;
    }
    let mut out = String::new();
    let mut i = j + 1;
    let ghost target = parse_string_spec(cs@, start as int);
    assert(out@ =~= Seq::<char>::empty());
    loop
        invariant
            i <= cs@.len(),
            target == decode_from(cs@, i as int, out@),
            target == parse_string_spec(cs@, start as int),
        decreases cs@.len() - i,
    {
        if i >= cs.len() {
            return None;
        }
        let c = cs[i];
        if c == '"' {
            return Some((out, i + 1));
        }
        if c == '\\' {
            if i + 1 >= cs.len() {
                return None;
            }
            let e = cs[i + 1];
            if e == 'u' {
                if cs.len() - i < 6 {
                    return None;
                }
                let h0 = match hex_digit(cs[i + 2]) {
                    Some(d) => d,
                    None => return None,
                };
                let h1 = match hex_digit(cs[i + 3]) {
                    Some(d) => d,
                    None => return None,
                };
                let h2 = match hex_digit(cs[i + 4]) {
                    Some(d) => d,
                    None => return None,
                };
                let h3 = match hex_digit(cs[i + 5]) {
                    Some(d) => d,
                    None => return None,
                };
                let code: u32 = ((h0 * 16 + h1) * 16 + h2) * 16 + h3;
                let ch = match char_from_u32(code) {
                    Some(ch) => {
                        proof {
                            vstd::utf8::char_is_scalar(ch);
                        }
                        ch
                    },
                    None => '\u{FFFD}',
                };
                proof {
                    assert(hex4(cs@, i + 2) == Some(code as int));
                    if !(0xD800 <= code <= 0xDFFF) {
                        vstd::utf8::char_u32_cast(ch, code);
                        assert(unit_char(code as int) == ch);
                    }
                }
                proof {
                    assert(unit_char(code as int) == ch);
                    assert(decode_from(cs@, i as int, out@) == decode_from(cs@, i + 6, out@.push(ch)));
                }
                out.push(ch);
                i = i + 6;
            } else {
                let d: char = if e == '"' {
                    '"'
                } else if e == '\\' {
                    '\\'
                } else if e == '/' {
                    '/'
                } else if e == 'n' {
                    '\n'
                } else if e == 't' {
                    '\t'
                } else if e == 'r' {
                    '\r'
                } else if e == 'b' {
                    '\u{8}'
                } else if e == 'f' {
                    '\u{c}'
                } else {
                    return None;
                };
                proof {
                    assert(simple_escape(e) == Some(d));
                    assert(decode_from(cs@, i as int, out@) == decode_from(cs@, i + 2, out@.push(d)));
                }
                out.push(d);
                i = i + 2;
            }
        } else {
            out.push(c);
            i = i + 1;
        }
    }
}

/// The hexadecimal digit of `d` (lower case).
pub open spec fn hex_char(d: int) -> char {
    if d < 10 { (48 + d) as char } else { (87 + d) as char }
}

/// How one character of a string is written inside a JSON string literal.
pub open spec fn escape_char(c: char) -> Seq<char> {
    if c == '"' {
        seq!['\\', '"']
    } else if c == '\\' {
        seq!['\\', '\\']
    } else if c == '\n' {
        seq!['\\', 'n']
    } else if c == '\t' {
        seq!['\\', 't']
    } else if c == '\r' {
        seq!['\\', 'r']
    } else if (c as u32) < 0x20 {
        seq!['\\', 'u', '0', '0', hex_char((c as u32) as int / 16), hex_char((c as u32) as int % 16)]
    } else {
        seq![c]
    }
}

/// The characters of `s`, each escaped.
pub open spec fn escaped(s: Seq<char>) -> Seq<char>
    decreases s.len(),
{
    if s.len() == 0 { Seq::empty() } else { escaped(s.drop_last()) + escape_char(s.last()) }
}

fn hex_of(d: u32) -> (r: char)
    requires
        d < 16,
    ensures
        r == hex_char(d as int),
{
    if d < 10 {
        ((48 + d) as u8) as char
    } else {
        ((87 + d) as u8) as char
    }
}

/// Appends `s` as a JSON string literal: quoted, with quote, backslash and
/// control characters escaped.
pub fn write_string(s: &str, out: &mut String)
    ensures
        final(out)@ == old(out)@ + seq!['"'] + escaped(s@) + seq!['"'],
{
    let cs = chars_of(s);
    let ghost o0 = out@;
    out.push('"');
    let mut k: usize = 0;
    assert(cs@.take(0) =~= Seq::<char>::empty());
    while k < cs.len()
        invariant
            k <= cs@.len(),
            cs@ == s@,
            out@ == o0 + seq!['"'] + escaped(cs@.take(k as int)),
        decreases cs@.len() - k,
    {
        let c = cs[k];
        let ghost before = out@;
        if c == '"' {
            out.push('\\');
            out.push('"');
        } else if c == '\\' {
            out.push('\\');
            out.push('\\');
        } else if c == '\n' {
            out.push('\\');
            out.push('n');
        } else if c == '\t' {
            out.push('\\');
            out.push('t');
        } else if c == '\r' {
            out.push('\\');
            out.push('r');
        } else if (c as u32) < 0x20 {
            let code = c as u32;
            out.push('\\');
            out.push('u');
            out.push('0');
            out.push('0');
            out.push(hex_of(code / 16));
            out.push(hex_of(code % 16));
        } else {
            out.push(c);
        }
        proof {
            assert(cs@.take(k + 1).drop_last() =~= cs@.take(k as int));
            assert(cs@.take(k + 1).last() == c);
            assert(out@ =~= before + escape_char(c));
        }
        k = k + 1;
    }
    assert(cs@.take(k as int) =~= cs@);
    out.push('"');
}

/// The decimal digits of `n` as characters.
pub open spec fn decimal_chars(n: nat) -> Seq<char> {
    decimal(n).map_values(|b: u8| b as char)
}

/// Appends the integer `n` in decimal, with a minus sign when negative.
pub fn write_integer(n: i64, out: &mut String)
    requires
        n > i64::MIN,
    ensures
        final(out)@ == old(out)@ + (if n < 0 { seq!['-'] } else { Seq::empty() }) + decimal_chars(
            (if n < 0 { -(n as int) } else { n as int }) as nat,
        ),
{
    let ghost o0 = out@;
    let m: u64 = if n < 0 {
        out.push('-');
        (-n) as u64
    } else {
        n as u64
    };
    let ghost o1 = out@;
    let digits = decimal_digits(m);
    let mut k: usize = 0;
    while k < digits.len()
        invariant
            k <= digits@.len(),
            digits@ == decimal(m as nat),
            out@ == o1 + digits@.take(k as int).map_values(|b: u8| b as char),
        decreases digits@.len() - k,
    {
        out.push(digits[k] as char);
        k = k + 1;
        assert(out@ =~= o1 + digits@.take(k as int).map_values(|b: u8| b as char));
    }
    assert(digits@.take(k as int) =~= digits@);
    assert(out@ =~= o0 + (if n < 0 { seq!['-'] } else { Seq::empty() }) + decimal_chars(
        (if n < 0 { -(n as int) } else { n as int }) as nat,
    ));
}

proof fn lemma_escaped_concat(a: Seq<char>, b: Seq<char>)
    ensures
        escaped(a + b) == escaped(a) + escaped(b),
    decreases b.len(),
{
    if b.len() == 0 {
        assert(a + b =~= a);
        assert(escaped(a) + escaped(b) =~= escaped(a));
    } else {
        lemma_escaped_concat(a, b.drop_last());
        assert((a + b).drop_last() =~= a + b.drop_last());
        assert((a + b).last() == b.last());
    }
}

proof fn lemma_escape_one(c: char)
    ensures
        escaped(seq![c]) == escape_char(c),
{
    assert(seq![c].drop_last() =~= Seq::<char>::empty());
    assert(escaped(Seq::<char>::empty()) + escape_char(c) =~= escape_char(c));
}

proof fn lemma_decode_written(s: Seq<char>, rest: Seq<char>, k: int)
    requires
        0 <= k <= s.len(),
    ensures
        ({
            let w = seq!['"'] + escaped(s) + seq!['"'] + rest;
            decode_from(w, 1 + escaped(s.take(k)).len() as int, s.take(k)) == Some((s, escaped(s).len() + 2int))
        }),
    decreases s.len() - k,
{
    let w = seq!['"'] + escaped(s) + seq!['"'] + rest;
    lemma_escaped_concat(s.take(k), s.skip(k));
    assert(s.take(k) + s.skip(k) =~= s);
    let p: int = 1 + escaped(s.take(k)).len() as int;
    if k == s.len() {
        assert(s.take(k) =~= s);
        assert(w[p] == '"');
    } else {
        let c = s[k];
        let e = escape_char(c);
        assert(s.skip(k) =~= seq![c] + s.skip(k + 1));
        lemma_escaped_concat(seq![c], s.skip(k + 1));
        lemma_escape_one(c);
        assert(s.take(k + 1) =~= s.take(k).push(c));
        assert(s.take(k + 1).drop_last() =~= s.take(k));
        assert(s.take(k + 1).last() == c);
        assert(escaped(s.take(k + 1)) == escaped(s.take(k)) + e);
        assert forall|j: int| 0 <= j < e.len() implies w[p + j] == e[j] by {
            assert(escaped(s) == escaped(s.take(k)) + (e + escaped(s.skip(k + 1))));
            assert(w[p + j] == escaped(s)[p - 1 + j]);
        }
        lemma_decode_written(s, rest, k + 1);
        lemma_decode_one(w, p, c, s.take(k));
    }
}

proof fn lemma_decode_one(w: Seq<char>, p: int, c: char, acc: Seq<char>)
    requires
        0 <= p,
        p + escape_char(c).len() <= w.len(),
        forall|j: int| 0 <= j < escape_char(c).len() ==> w[p + j] == escape_char(c)[j],
    ensures
        decode_from(w, p, acc) == decode_from(w, p + escape_char(c).len(), acc.push(c)),
{
    let e = escape_char(c);
    assert(w[p] == e[0]);
    if c == '"' || c == '\\' || c == '\n' || c == '\t' || c == '\r' {
        assert(w[p + 1] == e[1]);
    } else if (c as u32) < 0x20 {
        assert(w[p + 1] == e[1]);
        assert(w[p + 2] == e[2] && w[p + 3] == e[3]);
        assert(w[p + 4] == e[4] && w[p + 5] == e[5]);
        let code = (c as u32) as int;
        assert(hex4(w, p + 2) == Some(code));
        vstd::utf8::char_u32_cast(c, c as u32);
        assert(unit_char(code) == c);
    }
}

/// Reading back a written string literal gives the string, and stops just
/// after the literal's closing quote, whatever follows it.
pub proof fn lemma_write_then_parse(s: Seq<char>, rest: Seq<char>)
    ensures
        parse_string_spec(seq!['"'] + escaped(s) + seq!['"'] + rest, 0) == Some((s, escaped(s).len() + 2int)),
{
    let w = seq!['"'] + escaped(s) + seq!['"'] + rest;
    assert(w[0] == '"');
    assert(!is_unicode_ws(w[0]));
    assert(ws_run(w, 0) == 0);
    assert(s.take(0) =~= Seq::<char>::empty());
    assert(escaped(Seq::<char>::empty()).len() == 0);
    lemma_decode_written(s, rest, 0);
}

} // verus!
