//! Text validators: the Luhn checksum of a card-style number, the shape of
//! an email address, and the structural strength of a password.
use vstd::prelude::*;

verus! {

/// The longest address accepted when the caller names no limit.
pub const DEFAULT_MAX_LENGTH: usize = 254;

/// The minimum password length when the caller names none.
pub const DEFAULT_MIN_LENGTH: usize = 8;

/// Whether `c` has the Unicode White_Space property, as `char::is_whitespace`
/// tests it.
pub open spec fn is_unicode_ws(c: char) -> bool {
    let n = c as u32;
    (9 <= n <= 13) || n == 32 || n == 0x85 || n == 0xA0 || n == 0x1680 || (0x2000 <= n <= 0x200A)
        || n == 0x2028 || n == 0x2029 || n == 0x202F || n == 0x205F || n == 0x3000
}

/// Whether `c` has the Unicode White_Space property.
pub fn is_whitespace(c: char) -> (r: bool)
    ensures
        r == is_unicode_ws(c),
{
    let n = c as u32;
    (9 <= n && n <= 13) || n == 32 || n == 0x85 || n == 0xA0 || n == 0x1680 || (0x2000 <= n && n
        <= 0x200A) || n == 0x2028 || n == 0x2029 || n == 0x202F || n == 0x205F || n == 0x3000
}

/// An ASCII decimal digit.
pub open spec fn is_ascii_digit(c: char) -> bool {
    '0' <= c <= '9'
}

/// The characters of `s` that a number keeps: with `strip`, whitespace and
/// hyphens are dropped.
pub open spec fn luhn_kept(s: Seq<char>, strip: bool) -> Seq<char>
    decreases s.len(),
{
    if s.len() == 0 {
        Seq::empty()
    } else {
        let r = luhn_kept(s.drop_last(), strip);
        let c = s.last();
        if strip && (is_unicode_ws(c) || c == '-') {
            r
        } else {
            r.push(c)
        }
    }
}

/// The Luhn value of a digit whose place from the right is `place`: every
/// second digit is doubled, less nine when that passes nine.
pub open spec fn luhn_digit(c: char, place: int) -> int {
    let d = c as int - 48;
    if place % 2 == 1 {
        if 2 * d > 9 {
            2 * d - 9
        } else {
            2 * d
        }
    } else {
        d
    }
}

/// The Luhn sum of the digits `d`.
pub open spec fn luhn_sum(d: Seq<char>) -> int
    decreases d.len(),
{
    if d.len() == 0 {
        0
    } else {
        luhn_digit(d[0], d.len() - 1) + luhn_sum(d.drop_first())
    }
}

/// The outcome of a Luhn check of `number`: refused when empty, when a kept
/// character is not a digit, when fewer than two digits are kept, or when
/// the Luhn sum is not a multiple of ten.
pub open spec fn luhn_spec(number: Seq<char>, strip: bool) -> Result<bool, &'static str> {
    let d = luhn_kept(number, strip);
    if number.len() == 0 {
        Err("empty")
    } else if exists|i: int| 0 <= i < d.len() && !is_ascii_digit(#[trigger] d[i]) {
        Err("non_digit_characters")
    } else if d.len() < 2 {
        Err("too_short")
    } else if luhn_sum(d) % 10 == 0 {
        Ok(true)
    } else {
        Err("checksum_failed")
    }
}

proof fn lemma_luhn_step(d: Seq<char>, j: int)
    requires
        0 <= j < d.len(),
    ensures
        luhn_sum(d.skip(j)) == luhn_digit(d[j], d.len() - 1 - j) + luhn_sum(d.skip(j + 1)),
{
    assert(d.skip(j).drop_first() =~= d.skip(j + 1));
}

/// The digit sum of `n` (at most two digits).
pub open spec fn digit_sum(n: int) -> int {
    n / 10 + n % 10
}

/// The Luhn sum with each doubled digit counted by the sum of the digits of
/// its double.
pub open spec fn doubled_digit_total(d: Seq<char>) -> int
    decreases d.len(),
{
    if d.len() == 0 {
        0
    } else {
        let v = d[0] as int - 48;
        (if (d.len() - 1) % 2 == 1 { digit_sum(2 * v) } else { v }) + doubled_digit_total(d.drop_first())
    }
}

/// Every second digit from the right is doubled and counts the sum of the
/// digits of its double (a doubled 5 counts 1, a doubled 9 counts 9); the
/// others count their own value. So the Luhn sum of a run of digits is the
/// sum of those contributions.
pub proof fn lemma_luhn_doubling(d: Seq<char>)
    requires
        forall|i: int| 0 <= i < d.len() ==> is_ascii_digit(#[trigger] d[i]),
    ensures
        forall|i: int|
            0 <= i < d.len() ==> #[trigger] luhn_digit(d[i], d.len() - 1 - i) == if (d.len() - 1 - i) % 2 == 1 {
                digit_sum(2 * (d[i] as int - 48))
            } else {
                d[i] as int - 48
            },
        luhn_sum(d) == doubled_digit_total(d),
    decreases d.len(),
{
    assert forall|i: int| 0 <= i < d.len() implies #[trigger] luhn_digit(d[i], d.len() - 1 - i) == if (d.len() - 1 - i)
        % 2 == 1 {
        digit_sum(2 * (d[i] as int - 48))
    } else {
        d[i] as int - 48
    } by {
        assert(is_ascii_digit(d[i]));
        let v = d[i] as int - 48;
        assert(0 <= v <= 9);
        if 2 * v > 9 {
            assert(2 * v / 10 == 1 && 2 * v % 10 == 2 * v - 10);
        } else {
            assert(2 * v / 10 == 0 && 2 * v % 10 == 2 * v);
        }
    }
    if d.len() > 0 {
        let t = d.drop_first();
        assert forall|i: int| 0 <= i < t.len() implies is_ascii_digit(#[trigger] t[i]) by {
            assert(t[i] == d[i + 1]);
        }
        lemma_luhn_doubling(t);
        assert(luhn_digit(d[0], d.len() - 1 - 0) == luhn_digit(d[0], d.len() - 1));
    }
}

/// Checks `number` with the Luhn checksum; with `strip_formatting`,
/// whitespace and hyphens are ignored.
#[verifier::rlimit(40)]
pub fn luhn_check(number: &str, strip_formatting: bool) -> (r: Result<bool, &'static str>)
    ensures
        r == luhn_spec(number@, strip_formatting),
{
    let n = number.unicode_len();
    if n == 0 {
        return Err("empty");
    }
    let mut kept: Vec<char> = Vec::new();
    let mut i: usize = 0;
    while i < n
        invariant
            n == number@.len(),
            i <= n,
            kept@ == luhn_kept(number@.take(i as int), strip_formatting),
        decreases n - i,
    {
        let c = number.get_char(i);
        proof {
            assert(number@.take(i as int + 1).drop_last() =~= number@.take(i as int));
        }
        if !(strip_formatting && (is_whitespace(c) || c == '-')) {
            kept.push(c);
        }
        i = i + 1;
    }
    assert(number@.take(n as int) =~= number@);
    let mut k: usize = 0;
    while k < kept.len()
        invariant
            k <= kept@.len(),
            kept@ == luhn_kept(number@, strip_formatting),
            number@.len() > 0,
            forall|j: int| 0 <= j < k ==> is_ascii_digit(#[trigger] kept@[j]),
        decreases kept@.len() - k,
    {
        if !('0' <= kept[k] && kept[k] <= '9') {
            assert(!is_ascii_digit(kept@[k as int]));
            return Err("non_digit_characters");
        }
        k = k + 1;
    }
    if kept.len() < 2 {
        return Err("too_short");
    }
    let len = kept.len();
    let ghost d = kept@;
    let mut j = len;
    let mut sum: u32 = 0;
    assert(d.skip(len as int) =~= Seq::<char>::empty());
    while j > 0
        invariant
            j <= len,
            len == d.len(),
            d == kept@,
            d == luhn_kept(number@, strip_formatting),
            number@.len() > 0,
            forall|q: int| 0 <= q < len ==> is_ascii_digit(#[trigger] d[q]),
            sum < 10,
            sum as int == luhn_sum(d.skip(j as int)) % 10,
        decreases j,
    {
        j = j - 1;
        proof {
            lemma_luhn_step(d, j as int);
        }
        let c = kept[j];
        let mut digit: u32 = (c as u32) - 48;
        if (len - 1 - j) % 2 == 1 {
            digit = digit * 2;
            if digit > 9 {
                digit = digit - 9;
            }
        }
        sum = (sum + digit) % 10;
    }
    assert(d.skip(0) =~= d);
    if sum == 0 {
        Ok(true)
    } else {
        Err("checksum_failed")
    }
}


/// A printable ASCII character that is neither a letter nor a digit.
pub open spec fn is_symbol_spec(c: char) -> bool {
    '!' <= c <= '~' && !('0' <= c <= '9') && !('a' <= c <= 'z') && !('A' <= c <= 'Z')
}

/// Whether `c` is a printable ASCII character that is neither a letter nor
/// a digit.
pub fn is_symbol(c: char) -> (r: bool)
    ensures
        r == is_symbol_spec(c),
{
    ('!' <= c && c <= '~') && !('0' <= c && c <= '9') && !('a' <= c && c <= 'z') && !('A' <= c
        && c <= 'Z')
}

/// The code of `c` with ASCII capitals lowered.
pub open spec fn lower_code(c: char) -> int {
    if 'A' <= c <= 'Z' {
        c as int + 32
    } else {
        c as int
    }
}

/// Four characters from `i` whose lowered codes climb or fall by one.
pub open spec fn sequential_at(chars: Seq<char>, i: int) -> bool {
    let a = lower_code(chars[i]);
    let b = lower_code(chars[i + 1]);
    let c = lower_code(chars[i + 2]);
    let d = lower_code(chars[i + 3]);
    (b == a + 1 && c == b + 1 && d == c + 1) || (b == a - 1 && c == b - 1 && d == c - 1)
}

/// Four equal characters from `i`.
pub open spec fn repeated_at(chars: Seq<char>, i: int) -> bool {
    chars[i] == chars[i + 1] && chars[i + 1] == chars[i + 2] && chars[i + 2] == chars[i + 3]
}

fn lower(c: char) -> (r: u32)
    ensures
        r as int == lower_code(c),
{
    if 'A' <= c && c <= 'Z' {
        (c as u32) + 32
    } else {
        c as u32
    }
}

/// Whether four consecutive characters of `chars` climb or fall by one
/// (ignoring ASCII case).
pub fn has_sequential_run(chars: &[char]) -> (r: bool)
    ensures
        r == exists|i: int| 0 <= i && i + 4 <= chars@.len() && #[trigger] sequential_at(chars@, i),
{
    if chars.len() < 4 {
        return false;
    }
    let mut i: usize = 0;
    while i + 3 < chars.len()
        invariant
            chars@.len() >= 4,
            i + 3 <= chars.len(),
            forall|j: int| 0 <= j < i ==> !#[trigger] sequential_at(chars@, j),
        decreases chars@.len() - i,
    {
        let a = lower(chars[i]) as i64;
        let b = lower(chars[i + 1]) as i64;
        let c = lower(chars[i + 2]) as i64;
        let d = lower(chars[i + 3]) as i64;
        if (b == a + 1 && c == b + 1 && d == c + 1) || (b == a - 1 && c == b - 1 && d == c - 1) {
            assert(sequential_at(chars@, i as int));
            return true;
        }
        i = i + 1;
    }
    false
}

/// Whether four consecutive characters of `chars` are equal.
pub fn has_repeated_run(chars: &[char]) -> (r: bool)
    ensures
        r == exists|i: int| 0 <= i && i + 4 <= chars@.len() && #[trigger] repeated_at(chars@, i),
{
    if chars.len() < 4 {
        return false;
    }
    let mut i: usize = 0;
    while i + 3 < chars.len()
        invariant
            chars@.len() >= 4,
            i + 3 <= chars.len(),
            forall|j: int| 0 <= j < i ==> !#[trigger] repeated_at(chars@, j),
        decreases chars@.len() - i,
    {
        if chars[i] == chars[i + 1] && chars[i + 1] == chars[i + 2] && chars[i + 2] == chars[i + 3] {
            assert(repeated_at(chars@, i as int));
            return true;
        }
        i = i + 1;
    }
    false
}

/// The score of a password, its strength word and what it could improve.
pub struct ScoreResult {
    pub score: i32,
    pub strength: &'static str,
    pub issues: Vec<&'static str>,
}

/// Whether some character of `s` lies between `lo` and `hi`.
pub open spec fn any_in(s: Seq<char>, lo: char, hi: char) -> bool {
    exists|i: int| 0 <= i < s.len() && lo <= #[trigger] s[i] <= hi
}

/// Whether some character of `s` is a symbol.
pub open spec fn any_symbol(s: Seq<char>) -> bool {
    exists|i: int| 0 <= i < s.len() && is_symbol_spec(#[trigger] s[i])
}

/// Whether some character of `chars` lies between `lo` and `hi`.
pub fn any_between(chars: &[char], lo: char, hi: char) -> (r: bool)
    ensures
        r == any_in(chars@, lo, hi),
{
    let mut i: usize = 0;
    while i < chars.len()
        invariant
            i <= chars@.len(),
            forall|j: int| 0 <= j < i ==> !(lo <= #[trigger] chars@[j] <= hi),
        decreases chars@.len() - i,
    {
        if lo <= chars[i] && chars[i] <= hi {
            return true;
        }
        i = i + 1;
    }
    false
}

/// Whether some character of `chars` is a symbol.
pub fn has_symbol(chars: &[char]) -> (r: bool)
    ensures
        r == any_symbol(chars@),
{
    let mut i: usize = 0;
    while i < chars.len()
        invariant
            i <= chars@.len(),
            forall|j: int| 0 <= j < i ==> !is_symbol_spec(#[trigger] chars@[j]),
        decreases chars@.len() - i,
    {
        if is_symbol(chars[i]) {
            return true;
        }
        i = i + 1;
    }
    false
}

/// The characters of `s`.
pub fn chars_of(s: &str) -> (r: Vec<char>)
    ensures
        r@ == s@,
{
    let n = s.unicode_len();
    let mut chars: Vec<char> = Vec::new();
    let mut i: usize = 0;
    while i < n
        invariant
            n == s@.len(),
            i <= n,
            chars@ == s@.take(i as int),
        decreases n - i,
    {
        chars.push(s.get_char(i));
        assert(chars@ =~= s@.take(i as int + 1));
        i = i + 1;
    }
    assert(chars@ =~= s@);
    chars
}

/// The score from the traits of a password: one point for each of
/// lowercase, uppercase, digit and symbol, one more for reaching `twice`
/// characters, one less for each of a sequential and a repeated run; at
/// most 1 below the minimum length, at most 3 without a symbol when one is
/// required; held within 0 to 4.
pub open spec fn score_of(
    has_length: bool,
    lower: bool,
    upper: bool,
    digit: bool,
    symbol: bool,
    long: bool,
    seq_run: bool,
    rep_run: bool,
    require_symbol: bool,
) -> int {
    let structural = (if lower { 1int } else { 0 }) + (if upper { 1int } else { 0 }) + (if digit {
        1int
    } else {
        0
    }) + (if symbol { 1int } else { 0 });
    let raw = structural + (if long { 1int } else { 0 }) - (if seq_run { 1int } else { 0 }) - (
    if rep_run {
        1int
    } else {
        0
    });
    let s1 = if has_length { raw } else if raw < 1 { raw } else { 1 };
    let s2 = if require_symbol && !symbol && s1 > 3 { 3 } else { s1 };
    if s2 < 0 {
        0
    } else if s2 > 4 {
        4
    } else {
        s2
    }
}

/// The issues from the traits of a password, in a fixed order.
pub open spec fn issues_of(
    has_length: bool,
    lower: bool,
    upper: bool,
    digit: bool,
    symbol: bool,
    seq_run: bool,
    rep_run: bool,
) -> Seq<&'static str> {
    let c = Seq::<&'static str>::empty();
    let c = if !has_length { c.push("too_short") } else { c };
    let c = if !lower { c.push("add_lowercase") } else { c };
    let c = if !upper { c.push("add_uppercase") } else { c };
    let c = if !digit { c.push("add_digit") } else { c };
    let c = if !symbol { c.push("add_symbol") } else { c };
    let c = if seq_run { c.push("sequential_pattern") } else { c };
    let c = if rep_run { c.push("repeated_characters") } else { c };
    c
}

/// Twice `n`, held at `usize::MAX`.
pub open spec fn twice_capped(n: nat) -> int {
    if n * 2 > usize::MAX {
        usize::MAX as int
    } else {
        (n * 2) as int
    }
}

/// The score of a password of characters `s`.
pub open spec fn score_spec(s: Seq<char>, min_length: nat, require_symbol: bool) -> int {
    score_of(
        s.len() >= min_length,
        any_in(s, 'a', 'z'),
        any_in(s, 'A', 'Z'),
        any_in(s, '0', '9'),
        any_symbol(s),
        s.len() >= twice_capped(min_length),
        exists|i: int| 0 <= i && i + 4 <= s.len() && #[trigger] sequential_at(s, i),
        exists|i: int| 0 <= i && i + 4 <= s.len() && #[trigger] repeated_at(s, i),
        require_symbol,
    )
}

/// The strength word of a score.
pub open spec fn strength_spec(score: int) -> &'static str {
    if score == 0 {
        "very_weak"
    } else if score == 1 {
        "weak"
    } else if score == 2 {
        "fair"
    } else if score == 3 {
        "strong"
    } else {
        "very_strong"
    }
}

/// The issues of a password of characters `s`: too short, a missing
/// lowercase, uppercase, digit or symbol, a sequential run, a repeated run.
pub open spec fn issues_spec(s: Seq<char>, min_length: nat) -> Seq<&'static str> {
    issues_of(
        s.len() >= min_length,
        any_in(s, 'a', 'z'),
        any_in(s, 'A', 'Z'),
        any_in(s, '0', '9'),
        any_symbol(s),
        exists|i: int| 0 <= i && i + 4 <= s.len() && #[trigger] sequential_at(s, i),
        exists|i: int| 0 <= i && i + 4 <= s.len() && #[trigger] repeated_at(s, i),
    )
}

/// Scores the structure of `password`.
pub fn score_password(password: &str, min_length: usize, require_symbol: bool) -> (r: ScoreResult)
    ensures
        r.score as int == score_spec(password@, min_length as nat, require_symbol),
        r.strength == strength_spec(r.score as int),
        r.issues@ == issues_spec(password@, min_length as nat),
{
    let chars = chars_of(password);
    let n = chars.len();
    let has_lower = any_between(chars.as_slice(), 'a', 'z');
    let has_upper = any_between(chars.as_slice(), 'A', 'Z');
    let has_digit = any_between(chars.as_slice(), '0', '9');
    let has_symbol = has_symbol(chars.as_slice());
    let char_count = n;
    let has_length = char_count >= min_length;
    let structural: i32 = (if has_lower { 1i32 } else { 0 }) + (if has_upper { 1i32 } else { 0 })
        + (if has_digit { 1i32 } else { 0 }) + (if has_symbol { 1i32 } else { 0 });
    let twice = match min_length.checked_mul(2) {
        Some(t) => t,
        None => usize::MAX,
    };
    let length_bonus: i32 = if char_count >= twice { 1 } else { 0 };
    let sequential = has_sequential_run(chars.as_slice());
    let repeated = has_repeated_run(chars.as_slice());
    let penalties: i32 = (if sequential { 1i32 } else { 0 }) + (if repeated { 1i32 } else { 0 });
    let raw = structural + length_bonus - penalties;
    let mut score = if has_length {
        raw
    } else if raw < 1 {
        raw
    } else {
        1
    };
    if require_symbol && !has_symbol && score > 3 {
        score = 3;
    }
    if score < 0 {
        score = 0;
    } else if score > 4 {
        score = 4;
    }
    let strength = if score == 0 {
        "very_weak"
    } else if score == 1 {
        "weak"
    } else if score == 2 {
        "fair"
    } else if score == 3 {
        "strong"
    } else {
        "very_strong"
    };
    let mut issues: Vec<&'static str> = Vec::new();
    if !has_length {
        issues.push("too_short");
    }
    if !has_lower {
        issues.push("add_lowercase");
    }
    if !has_upper {
        issues.push("add_uppercase");
    }
    if !has_digit {
        issues.push("add_digit");
    }
    if !has_symbol {
        issues.push("add_symbol");
    }
    if sequential {
        issues.push("sequential_pattern");
    }
    if repeated {
        issues.push("repeated_characters");
    }
    ScoreResult { score, strength, issues }
}


/// Whether `c` is a control character (general category Cc), as
/// `char::is_control` tests it.
pub open spec fn is_control_spec(c: char) -> bool {
    (c as u32) <= 0x1F || (0x7F <= (c as u32) <= 0x9F)
}

/// Whether `c` is a control character (general category Cc).
pub fn is_control(c: char) -> (r: bool)
    ensures
        r == is_control_spec(c),
{
    let n = c as u32;
    n <= 0x1F || (0x7F <= n && n <= 0x9F)
}

/// Whether `char::is_alphanumeric` holds of `c`.
pub uninterp spec fn alphanumeric(c: char) -> bool;

/// `char::is_alphanumeric`: whether `c` is alphabetic or numeric in
/// Unicode. The contract says that on ASCII characters this is exactly the
/// letters and the digits; above ASCII the Unicode tables of std decide, and
/// the contract names that result without spelling it out.
#[verifier::external_body]
pub(crate) fn is_alphanumeric(c: char) -> (r: bool)
    ensures
        r == alphanumeric(c),
        (c as u32) < 128 ==> (r <==> ('a' <= c <= 'z' || 'A' <= c <= 'Z' || '0' <= c <= '9')),
{
    c.is_alphanumeric()
}

/// The number of times `c` occurs in `s`.
pub open spec fn count_char(s: Seq<char>, c: char) -> nat
    decreases s.len(),
{
    if s.len() == 0 {
        0
    } else {
        count_char(s.drop_last(), c) + if s.last() == c { 1nat } else { 0nat }
    }
}

/// Whether `s` holds `c`.
pub open spec fn has_char(s: Seq<char>, c: char) -> bool {
    any_in(s, c, c)
}

/// Whether `s` holds two points in a row.
pub open spec fn has_double_dot(s: Seq<char>) -> bool {
    exists|i: int| 0 <= i && i + 1 < s.len() && #[trigger] s[i] == '.' && s[i + 1] == '.'
}

/// A character an address may hold in its local part.
pub open spec fn local_char(c: char) -> bool {
    alphanumeric(c) || c == '.' || c == '+' || c == '_' || c == '-'
}

/// A character an address may hold in its domain.
pub open spec fn domain_char(c: char) -> bool {
    alphanumeric(c) || c == '.' || c == '-'
}

/// What is wrong with the shape of the address `e`, if anything: checked in
/// a fixed order (emptiness, length, whitespace and control characters, the
/// at sign, the two parts, points in them, plus addressing, and the
/// characters each part may hold).
pub open spec fn email_spec(e: Seq<char>, allow_plus: bool, max_length: nat) -> Option<&'static str> {
    if e.len() == 0 {
        Some("empty")
    } else if e.len() > max_length {
        Some("exceeds_max_length")
    } else if exists|i: int| 0 <= i < e.len() && (is_unicode_ws(#[trigger] e[i]) || is_control_spec(e[i])) {
        Some("invalid_character")
    } else if count_char(e, '@') == 0 {
        Some("missing_at_sign")
    } else if count_char(e, '@') > 1 {
        Some("multiple_at_signs")
    } else {
        let p = choose|i: int| 0 <= i < e.len() && e[i] == '@';
        let local = e.take(p);
        let domain = e.skip(p + 1);
        if local.len() == 0 {
            Some("empty_local_part")
        } else if domain.len() == 0 {
            Some("empty_domain")
        } else if local[0] == '.' {
            Some("leading_dot_in_local_part")
        } else if has_double_dot(domain) {
            Some("consecutive_dots_in_domain")
        } else if !has_char(domain, '.') {
            Some("domain_missing_dot")
        } else if !allow_plus && has_char(local, '+') {
            Some("plus_addressing_disabled")
        } else if exists|i: int| 0 <= i < local.len() && !local_char(#[trigger] local[i]) {
            Some("invalid_character")
        } else if exists|i: int| 0 <= i < domain.len() && !domain_char(#[trigger] domain[i]) {
            Some("invalid_character")
        } else {
            None
        }
    }
}

proof fn lemma_count_char_positions(s: Seq<char>, c: char)
    ensures
        count_char(s, c) == 0 <==> !has_char(s, c),
        count_char(s, c) == 1 ==> exists|p: int|
            0 <= p < s.len() && s[p] == c && forall|j: int| 0 <= j < s.len() && j != p ==> s[j] != c,
    decreases s.len(),
{
    if s.len() > 0 {
        let t = s.drop_last();
        lemma_count_char_positions(t, c);
        assert forall|j: int| 0 <= j < t.len() implies t[j] == s[j] by {}
        if has_char(t, c) {
            let j = choose|j: int| 0 <= j < t.len() && t[j] == c;
            assert(s[j] == c);
        }
        if has_char(s, c) && s.last() != c {
            let j = choose|j: int| 0 <= j < s.len() && s[j] == c;
            assert(t[j] == c);
        }
        if count_char(s, c) == 1 {
            if s.last() == c {
                assert(!has_char(t, c));
                assert forall|j: int| 0 <= j < s.len() && j != s.len() - 1 implies s[j] != c by {
                    if s[j] == c {
                        assert(t[j] == c);
                    }
                }
            } else {
                let p = choose|p: int|
                    0 <= p < t.len() && t[p] == c && forall|j: int| 0 <= j < t.len() && j != p ==> t[j] != c;
                assert(s[p] == c);
            }
        }
    }
}

/// Whether `s` holds two points in a row.
fn double_dot(s: &[char]) -> (r: bool)
    ensures
        r == has_double_dot(s@),
{
    if s.len() < 2 {
        return false;
    }
    let mut k: usize = 0;
    while k + 1 < s.len()
        invariant
            s@.len() >= 2,
            k + 1 <= s.len(),
            forall|j: int| 0 <= j < k ==> !(#[trigger] s@[j] == '.' && s@[j + 1] == '.'),
        decreases s@.len() - k,
    {
        if s[k] == '.' && s[k + 1] == '.' {
            return true;
        }
        k = k + 1;
    }
    false
}

/// Whether every character of `s` may stand in a local part.
fn all_local(s: &[char]) -> (r: bool)
    ensures
        r == forall|j: int| 0 <= j < s@.len() ==> local_char(#[trigger] s@[j]),
{
    let mut k: usize = 0;
    while k < s.len()
        invariant
            forall|j: int| 0 <= j < k ==> local_char(#[trigger] s@[j]),
        decreases s@.len() - k,
    {
        let c = s[k];
        if !(is_alphanumeric(c) || c == '.' || c == '+' || c == '_' || c == '-') {
            return false;
        }
        k = k + 1;
    }
    true
}

/// Whether every character of `s` may stand in a domain.
fn all_domain(s: &[char]) -> (r: bool)
    ensures
        r == forall|j: int| 0 <= j < s@.len() ==> domain_char(#[trigger] s@[j]),
{
    let mut k: usize = 0;
    while k < s.len()
        invariant
            forall|j: int| 0 <= j < k ==> domain_char(#[trigger] s@[j]),
        decreases s@.len() - k,
    {
        let c = s[k];
        if !(is_alphanumeric(c) || c == '.' || c == '-') {
            return false;
        }
        k = k + 1;
    }
    true
}

/// Checks the shape of the address `email`; `None` when it passes, else
/// the first problem found.
pub fn validate_email(email: &str, allow_plus_addressing: bool, max_length: usize) -> (r: Option<&'static str>)
    ensures
        r == email_spec(email@, allow_plus_addressing, max_length as nat),
{
    let e = chars_of(email);
    let n = e.len();
    if n == 0 {
        return Some("empty");
    }
    if n > max_length {
        return Some("exceeds_max_length");
    }
    let mut i: usize = 0;
    let mut ats: usize = 0;
    let mut at_pos: usize = 0;
    while i < n
        invariant
            n == e@.len(),
            e@ == email@,
            0 < n <= max_length,
            i <= n,
            forall|j: int| 0 <= j < i ==> !(is_unicode_ws(#[trigger] e@[j]) || is_control_spec(e@[j])),
            ats as int == count_char(e@.take(i as int), '@'),
            ats <= i,
            ats > 0 ==> at_pos < i && e@[at_pos as int] == '@',
        decreases n - i,
    {
        let c = e[i];
        if is_whitespace(c) || is_control(c) {
            return Some("invalid_character");
        }
        proof {
            assert(e@.take(i as int + 1).drop_last() =~= e@.take(i as int));
        }
        if c == '@' {
            ats = ats + 1;
            at_pos = i;
        }
        i = i + 1;
    }
    assert(e@.take(n as int) =~= e@);
    proof {
        lemma_count_char_positions(e@, '@');
    }
    if ats == 0 {
        return Some("missing_at_sign");
    }
    if ats > 1 {
        return Some("multiple_at_signs");
    }
    let ghost p = choose|k: int| 0 <= k < e@.len() && e@[k] == '@';
    assert(p == at_pos as int);
    let es = e.as_slice();
    let local = &es[0..at_pos];
    let domain = &es[at_pos + 1..n];
    assert(local@ =~= e@.take(p));
    assert(domain@ =~= e@.skip(p + 1));
    if local.len() == 0 {
        return Some("empty_local_part");
    }
    if domain.len() == 0 {
        return Some("empty_domain");
    }
    if local[0] == '.' {
        return Some("leading_dot_in_local_part");
    }
    if double_dot(domain) {
        return Some("consecutive_dots_in_domain");
    }
    if !any_between(domain, '.', '.') {
        return Some("domain_missing_dot");
    }
    if !allow_plus_addressing && any_between(local, '+', '+') {
        return Some("plus_addressing_disabled");
    }
    if !all_local(local) {
        return Some("invalid_character");
    }
    if !all_domain(domain) {
        return Some("invalid_character");
    }
    None
}

} // verus!
