//! Document analysis for approval: the kind of document, the parties it
//! names, the dollar amounts it mentions, and from these signals a
//! confidence and a recommendation.
use vstd::prelude::*;
use vstd::string::StringSliceAdditionalSpecFns;
use crate::validators::{alphanumeric, is_alphanumeric, is_unicode_ws, is_whitespace};

verus! {

/// Whether `char::is_uppercase` holds of `c`.
pub uninterp spec fn uppercase_char(c: char) -> bool;

/// Whether `char::is_lowercase` holds of `c`.
pub uninterp spec fn lowercase_char(c: char) -> bool;

/// Whether `c` is white space: the Unicode White_Space characters.
pub open spec fn whitespace_char(c: char) -> bool {
    is_unicode_ws(c)
}

/// What `str::to_lowercase` gives for the characters `s`.
pub uninterp spec fn lowercased(s: Seq<char>) -> Seq<char>;

/// `char::is_uppercase`: whether `c` has the Unicode Uppercase property;
/// the contract names the result of std's tables and spells it out for
/// ASCII only, where exactly `A` to `Z` are uppercase.
#[verifier::external_body]
fn is_upper(c: char) -> (r: bool)
    ensures
        r == uppercase_char(c),
        (c as u32) < 128 ==> (r <==> 65 <= (c as u32) <= 90),
{
    c.is_uppercase()
}

/// `char::is_lowercase`: whether `c` has the Unicode Lowercase property;
/// the contract names the result of std's tables and spells it out for
/// ASCII only, where exactly `a` to `z` are lowercase.
#[verifier::external_body]
fn is_lower(c: char) -> (r: bool)
    ensures
        r == lowercase_char(c),
        (c as u32) < 128 ==> (r <==> 97 <= (c as u32) <= 122),
{
    c.is_lowercase()
}

/// Whether `c` is white space.
pub(crate) fn is_space(c: char) -> (r: bool)
    ensures
        r == whitespace_char(c),
{
    is_whitespace(c)
}

/// `str::to_lowercase`: the Unicode lowercase mapping of `s` (which may
/// change its length); the contract names the result without spelling the
/// mapping out.
#[verifier::external_body]
fn to_lower(s: &str) -> (r: String)
    ensures
        r@ == lowercased(s@),
{
    s.to_lowercase()
}

/// `String::push`: appends one character.
pub assume_specification[ String::push ](string: &mut String, ch: char)
    ensures
        final(string)@ == old(string)@.push(ch),
;

/// `needle` occurs in `hay` at index `i`.
pub open spec fn occurs_at(hay: Seq<char>, needle: Seq<char>, i: int) -> bool {
    0 <= i && i + needle.len() <= hay.len() && hay.subrange(i, i + needle.len()) == needle
}

/// `needle` occurs somewhere in `hay`.
pub open spec fn has_text(hay: Seq<char>, needle: Seq<char>) -> bool {
    exists|i: int| occurs_at(hay, needle, i)
}

/// The kind of document, from keywords in its lowercased text.
pub open spec fn doc_type_spec(document: Seq<char>) -> Seq<char> {
    let l = lowercased(document);
    if has_text(l, "invoice"@) {
        "invoice"@
    } else if has_text(l, "purchase order"@) || has_text(l, " po#"@) || has_text(l, " po "@) {
        "purchase_order"@
    } else if has_text(l, "receipt"@) {
        "receipt"@
    } else if has_text(l, "contract"@) || has_text(l, "agreement"@) {
        "contract"@
    } else {
        "general"@
    }
}

/// The characters of `s`.
pub fn chars_of(s: &str) -> (v: Vec<char>)
    ensures
        v@ == s@,
{
    let n = s.unicode_len();
    let mut v: Vec<char> = Vec::new();
    let mut i: usize = 0;
    while i < n
        invariant
            n == s@.len(),
            i <= n,
            v@ == s@.take(i as int),
        decreases n - i,
    {
        v.push(s.get_char(i));
        i = i + 1;
        assert(v@ =~= s@.take(i as int));
    }
    assert(s@.take(i as int) =~= s@);
    v
}

/// Whether `needle` occurs in `hay`.
pub fn find_text(hay: &Vec<char>, needle: &str) -> (r: bool)
    ensures
        r == has_text(hay@, needle@),
{
    let nd = chars_of(needle);
    if nd.len() > hay.len() {
        return false;
    }
    let hl = hay.len();
    let nl = nd.len();
    let mut i: usize = 0;
    while i <= hl - nl
        invariant
            nd@ == needle@,
            hl == hay@.len(),
            nl == nd@.len(),
            nl <= hl,
            i <= hl - nl + 1,
            forall|j: int| 0 <= j < i ==> !occurs_at(hay@, nd@, j),
        decreases hay@.len() - i,
    {
        let mut k: usize = 0;
        let mut same = true;
        while k < nl
            invariant
                hl == hay@.len(),
                nl == nd@.len(),
                i + nl <= hl,
                k <= nd@.len(),
                same == (forall|t: int| 0 <= t < k ==> hay@[i + t] == nd@[t]),
            decreases nd@.len() - k,
        {
            if hay[i + k] != nd[k] {
                same = false;
            }
            k = k + 1;
        }
        if same {
            assert(hay@.subrange(i as int, i + nd@.len()) =~= nd@);
            assert(occurs_at(hay@, nd@, i as int));
            return true;
        }
        proof {
            if occurs_at(hay@, nd@, i as int) {
                assert forall|t: int| 0 <= t < k implies hay@[i + t] == nd@[t] by {
                    assert(hay@.subrange(i as int, i + nd@.len())[t] == hay@[i + t]);
                }
            }
        }
        i = i + 1;
    }
    proof {
        assert forall|j: int| !occurs_at(hay@, nd@, j) by {
            if 0 <= j && j + nd@.len() <= hay@.len() {
                assert(j < i);
            }
        }
    }
    false
}

/// The kind of document: invoice, purchase order, receipt, contract or
/// general.
pub fn classify_doc_type(document: &str) -> (r: &'static str)
    ensures
        r@ == doc_type_spec(document@),
{
    let lower = to_lower(document);
    let l = chars_of(lower.as_str());
    if find_text(&l, "invoice") {
        "invoice"
    } else if find_text(&l, "purchase order") || find_text(&l, " po#") || find_text(&l, " po ") {
        "purchase_order"
    } else if find_text(&l, "receipt") {
        "receipt"
    } else if find_text(&l, "contract") || find_text(&l, "agreement") {
        "contract"
    } else {
        "general"
    }
}

/// An ASCII decimal digit.
pub open spec fn ascii_digit(c: char) -> bool {
    '0' <= c <= '9'
}

/// A capitalized word: an uppercase first character, then only lowercase
/// characters and ASCII digits.
pub open spec fn capitalized(w: Seq<char>) -> bool {
    w.len() > 0 && uppercase_char(w[0]) && forall|i: int|
        1 <= i < w.len() ==> lowercase_char(#[trigger] w[i]) || ascii_digit(w[i])
}

/// Whether `word` is capitalized.
pub fn is_capitalized_word(word: &str) -> (r: bool)
    ensures
        r == capitalized(word@),
{
    let w = chars_of(word);
    capitalized_chars(w.as_slice())
}

/// Whether the characters `w` make a capitalized word.
pub fn capitalized_chars(w: &[char]) -> (r: bool)
    ensures
        r == capitalized(w@),
{
    if w.len() == 0 || !is_upper(w[0]) {
        return false;
    }
    let mut i: usize = 1;
    while i < w.len()
        invariant
            1 <= i <= w@.len(),
            forall|j: int| 1 <= j < i ==> lowercase_char(#[trigger] w@[j]) || ascii_digit(w@[j]),
        decreases w@.len() - i,
    {
        let c = w[i];
        if !(is_lower(c) || ('0' <= c && c <= '9')) {
            return false;
        }
        i = i + 1;
    }
    true
}

/// The whitespace-separated words of `s` from index `i` on, `cur` being
/// the word in progress and `acc` the words before it.
pub open spec fn words_from(s: Seq<char>, i: int, cur: Seq<char>, acc: Seq<Seq<char>>) -> Seq<Seq<char>>
    decreases s.len() - i,
{
    if i < 0 || i >= s.len() {
        if cur.len() > 0 { acc.push(cur) } else { acc }
    } else if whitespace_char(s[i]) {
        words_from(s, i + 1, Seq::empty(), if cur.len() > 0 { acc.push(cur) } else { acc })
    } else {
        words_from(s, i + 1, cur.push(s[i]), acc)
    }
}

/// The whitespace-separated words of `s`.
pub open spec fn words_of(s: Seq<char>) -> Seq<Seq<char>> {
    words_from(s, 0, Seq::empty(), Seq::empty())
}

/// The number of leading characters of `w` that are not alphanumeric.
pub open spec fn lead_junk(w: Seq<char>) -> nat
    decreases w.len(),
{
    if w.len() > 0 && !alphanumeric(w[0]) { 1 + lead_junk(w.drop_first()) } else { 0 }
}

/// The number of trailing characters of `w` that are not alphanumeric.
pub open spec fn trail_junk(w: Seq<char>) -> nat
    decreases w.len(),
{
    if w.len() > 0 && !alphanumeric(w.last()) { 1 + trail_junk(w.drop_last()) } else { 0 }
}

/// `w` without the characters that are not alphanumeric at either end.
pub open spec fn trimmed(w: Seq<char>) -> Seq<char> {
    let a = w.skip(lead_junk(w) as int);
    a.take(a.len() - trail_junk(a))
}

/// The parties named by consecutive capitalized words of `ws` from index
/// `i` on, after the parties `acc` (each named once).
pub open spec fn parties_from(ws: Seq<Seq<char>>, i: int, acc: Seq<Seq<char>>) -> Seq<Seq<char>>
    decreases ws.len() - i,
{
    if i < 0 || i + 1 >= ws.len() {
        acc
    } else {
        let w1 = trimmed(ws[i]);
        let w2 = trimmed(ws[i + 1]);
        if capitalized(w1) && capitalized(w2) {
            let p = w1 + seq![' '] + w2;
            parties_from(ws, i + 2, if acc.contains(p) { acc } else { acc.push(p) })
        } else {
            parties_from(ws, i + 1, acc)
        }
    }
}

/// The parties a document names.
pub open spec fn parties_spec(document: Seq<char>) -> Seq<Seq<char>> {
    parties_from(words_of(document), 0, Seq::empty())
}

proof fn lemma_lead_junk(w: Seq<char>)
    ensures
        lead_junk(w) <= w.len(),
    decreases w.len(),
{
    if w.len() > 0 && !alphanumeric(w[0]) {
        lemma_lead_junk(w.drop_first());
    }
}

proof fn lemma_trail_junk(w: Seq<char>)
    ensures
        trail_junk(w) <= w.len(),
    decreases w.len(),
{
    if w.len() > 0 && !alphanumeric(w.last()) {
        lemma_trail_junk(w.drop_last());
    }
}

/// `w` without the characters that are not alphanumeric at either end.
pub fn trim_word(w: &[char]) -> (r: &[char])
    ensures
        r@ == trimmed(w@),
{
    let mut a: usize = 0;
    assert(w@.skip(0) =~= w@);
    while a < w.len() && !is_alphanumeric(w[a])
        invariant
            a <= w@.len(),
            lead_junk(w@) == a + lead_junk(w@.skip(a as int)),
        decreases w@.len() - a,
    {
        assert(w@.skip(a as int).drop_first() =~= w@.skip(a as int + 1));
        a = a + 1;
    }
    let rest = &w[a..w.len()];
    assert(rest@ =~= w@.skip(a as int));
    let mut b: usize = rest.len();
    assert(rest@.take(b as int) =~= rest@);
    proof {
        lemma_trail_junk(rest@);
    }
    while b > 0 && !is_alphanumeric(rest[b - 1])
        invariant
            b <= rest@.len(),
            trail_junk(rest@) == (rest@.len() - b) + trail_junk(rest@.take(b as int)),
        decreases b,
    {
        assert(rest@.take(b as int).drop_last() =~= rest@.take(b - 1));
        b = b - 1;
    }
    proof {
        lemma_trail_junk(rest@.take(b as int));
    }
    let r = &rest[0..b];
    assert(r@ =~= rest@.take(b as int));
    r
}

/// The whitespace-separated words of `s`.
pub fn split_words(s: &Vec<char>) -> (r: Vec<Vec<char>>)
    ensures
        r@.map_values(|w: Vec<char>| w@) == words_of(s@),
{
    let mut words: Vec<Vec<char>> = Vec::new();
    let mut cur: Vec<char> = Vec::new();
    let mut i: usize = 0;
    assert(words@.map_values(|w: Vec<char>| w@) =~= Seq::<Seq<char>>::empty());
    while i < s.len()
        invariant
            i <= s@.len(),
            words_of(s@) == words_from(s@, i as int, cur@, words@.map_values(|w: Vec<char>| w@)),
        decreases s@.len() - i,
    {
        let c = s[i];
        if is_space(c) {
            if cur.len() == 0 {
                assert(cur@ =~= Seq::<char>::empty());
            }
            if cur.len() > 0 {
                let ghost before = words@.map_values(|w: Vec<char>| w@);
                let done = cur;
                cur = Vec::new();
                words.push(done);
                assert(words@.map_values(|w: Vec<char>| w@) =~= before.push(done@));
            }
        } else {
            cur.push(c);
        }
        i = i + 1;
    }
    if cur.len() > 0 {
        let ghost before = words@.map_values(|w: Vec<char>| w@);
        let done = cur;
        words.push(done);
        assert(words@.map_values(|w: Vec<char>| w@) =~= before.push(done@));
    }
    words
}

/// Whether `list` holds a string equal to `s`.
fn holds_string(list: &Vec<String>, s: &String) -> (r: bool)
    ensures
        r == list@.map_values(|t: String| t@).contains(s@),
{
    let ghost v = list@.map_values(|t: String| t@);
    let mut k: usize = 0;
    while k < list.len()
        invariant
            k <= list@.len(),
            v == list@.map_values(|t: String| t@),
            forall|j: int| 0 <= j < k ==> v[j] != s@,
        decreases list@.len() - k,
    {
        if list[k] == *s {
            assert(v[k as int] == s@);
            return true;
        }
        k = k + 1;
    }
    false
}

/// Named parties: pairs of consecutive capitalized words, each once, in the
/// order they first appear.
pub fn extract_parties(document: &str) -> (r: Vec<String>)
    ensures
        r@.map_values(|s: String| s@) == parties_spec(document@),
{
    let chars = chars_of(document);
    let words = split_words(&chars);
    let ghost ws = words@.map_values(|w: Vec<char>| w@);
    let mut parties: Vec<String> = Vec::new();
    let mut i: usize = 0;
    assert(parties@.map_values(|s: String| s@) =~= Seq::<Seq<char>>::empty());
    while words.len() > 1 && i < words.len() - 1
        invariant
            ws == words@.map_values(|w: Vec<char>| w@),
            parties_spec(document@) == parties_from(ws, i as int, parties@.map_values(|s: String| s@)),
            words@.len() == ws.len(),
        decreases words@.len() - i,
    {
        let w1 = trim_word(words[i].as_slice());
        let w2 = trim_word(words[i + 1].as_slice());
        if capitalized_chars(w1) && capitalized_chars(w2) {
            let mut party = String::new();
            let mut k: usize = 0;
            while k < w1.len()
                invariant
                    k <= w1@.len(),
                    party@ == w1@.take(k as int),
                decreases w1@.len() - k,
            {
                party.push(w1[k]);
                k = k + 1;
                assert(party@ =~= w1@.take(k as int));
            }
            party.push(' ');
            let ghost head = party@;
            let mut k: usize = 0;
            while k < w2.len()
                invariant
                    k <= w2@.len(),
                    party@ == head + w2@.take(k as int),
                decreases w2@.len() - k,
            {
                party.push(w2[k]);
                k = k + 1;
                assert(party@ =~= head + w2@.take(k as int));
            }
            assert(party@ =~= w1@ + seq![' '] + w2@);
            if !holds_string(&parties, &party) {
                let ghost before = parties@.map_values(|s: String| s@);
                parties.push(party);
                assert(parties@.map_values(|s: String| s@) =~= before.push(w1@ + seq![' '] + w2@));
            }
            i = i + 2;
        } else {
            i = i + 1;
        }
    }
    parties
}

/// A character that continues a dollar amount.
pub open spec fn amount_char(c: char) -> bool {
    ascii_digit(c) || c == ',' || c == '.'
}

/// The end of the run of amount characters of `s` from index `j`.
pub open spec fn amount_run(s: Seq<char>, j: int) -> int
    decreases s.len() - j,
{
    if 0 <= j < s.len() && amount_char(s[j]) { amount_run(s, j + 1) } else { j }
}

pub proof fn lemma_amount_run(s: Seq<char>, j: int)
    ensures
        amount_run(s, j) >= j,
        0 <= j <= s.len() ==> amount_run(s, j) <= s.len(),
    decreases s.len() - j,
{
    if 0 <= j < s.len() && amount_char(s[j]) {
        lemma_amount_run(s, j + 1);
    }
}

/// The dollar amounts of `s` from index `i` on, after the amounts `acc`:
/// a `$` followed by at least one digit, comma or point.
pub open spec fn amounts_from(s: Seq<char>, i: int, acc: Seq<Seq<char>>) -> Seq<Seq<char>>
    decreases s.len() - i,
{
    if i < 0 || i >= s.len() {
        acc
    } else if s[i] == '$' {
        let j = amount_run(s, i + 1);
        proof {
            lemma_amount_run(s, i + 1);
        }
        amounts_from(s, j, if j > i + 1 { acc.push(seq!['$'] + s.subrange(i + 1, j)) } else { acc })
    } else {
        amounts_from(s, i + 1, acc)
    }
}

/// The dollar amounts a document mentions, in order.
pub open spec fn amounts_spec(document: Seq<char>) -> Seq<Seq<char>> {
    amounts_from(document, 0, Seq::empty())
}

/// Dollar amounts: a `$` followed by digits, commas and points.
pub fn extract_amounts(document: &str) -> (r: Vec<String>)
    ensures
        r@.map_values(|s: String| s@) == amounts_spec(document@),
{
    let cs = chars_of(document);
    let mut amounts: Vec<String> = Vec::new();
    let mut i: usize = 0;
    assert(amounts@.map_values(|s: String| s@) =~= Seq::<Seq<char>>::empty());
    while i < cs.len()
        invariant
            cs@ == document@,
            i <= cs@.len(),
            amounts_spec(document@) == amounts_from(cs@, i as int, amounts@.map_values(|s: String| s@)),
        decreases cs@.len() - i,
    {
        if cs[i] == '$' {
            let mut j = i + 1;
            let mut amount = String::new();
            amount.push('$');
            proof {
                lemma_amount_run(cs@, i + 1);
            }
            while j < cs.len() && (('0' <= cs[j] && cs[j] <= '9') || cs[j] == ',' || cs[j] == '.')
                invariant
                    i + 1 <= j <= cs@.len(),
                    amount_run(cs@, i + 1) == amount_run(cs@, j as int),
                    amount@ == seq!['$'] + cs@.subrange(i + 1, j as int),
                decreases cs@.len() - j,
            {
                amount.push(cs[j]);
                j = j + 1;
                assert(amount@ =~= seq!['$'] + cs@.subrange(i + 1, j as int));
            }
            if j > i + 1 {
                let ghost before = amounts@.map_values(|s: String| s@);
                let ghost a = amount@;
                amounts.push(amount);
                assert(amounts@.map_values(|s: String| s@) =~= before.push(a));
            }
            i = j;
        } else {
            i = i + 1;
        }
    }
    amounts
}

/// The confidence from the number of signals: a specific document kind,
/// named parties, mentioned amounts.
pub open spec fn confidence_spec(doc_type: Seq<u8>, has_parties: bool, has_amounts: bool) -> Seq<u8> {
    let signals = (if doc_type != "general".spec_bytes() { 1int } else { 0int }) + (if has_parties {
        1int
    } else {
        0int
    }) + (if has_amounts { 1int } else { 0int });
    if signals == 3 {
        "high".spec_bytes()
    } else if signals >= 1 {
        "medium".spec_bytes()
    } else {
        "low".spec_bytes()
    }
}

/// The confidence: high with all three signals, medium with one or two, low
/// with none.
pub fn determine_confidence(doc_type: &str, parties: &[String], amounts: &[String]) -> (r: &'static str)
    ensures
        r.spec_bytes() == confidence_spec(doc_type.spec_bytes(), parties@.len() > 0, amounts@.len() > 0),
{
    let mut signals: u8 = 0;
    if !crate::scan::bytes_eq(doc_type.as_bytes(), "general".as_bytes()) {
        signals = signals + 1;
    }
    if parties.len() > 0 {
        signals = signals + 1;
    }
    if amounts.len() > 0 {
        signals = signals + 1;
    }
    if signals == 3 {
        "high"
    } else if signals >= 1 {
        "medium"
    } else {
        "low"
    }
}

/// The recommendation that goes with a confidence.
pub open spec fn recommendation_spec(confidence: Seq<u8>) -> Seq<u8> {
    if confidence == "high".spec_bytes() {
        "approve".spec_bytes()
    } else if confidence == "medium".spec_bytes() {
        "manual_review".spec_bytes()
    } else {
        "insufficient_data".spec_bytes()
    }
}

/// Approve on high confidence, review on medium, and too little data
/// otherwise.
pub fn determine_recommendation(confidence: &str) -> (r: &'static str)
    ensures
        r.spec_bytes() == recommendation_spec(confidence.spec_bytes()),
{
    if crate::scan::bytes_eq(confidence.as_bytes(), "high".as_bytes()) {
        "approve"
    } else if crate::scan::bytes_eq(confidence.as_bytes(), "medium".as_bytes()) {
        "manual_review"
    } else {
        "insufficient_data"
    }
}

} // verus!
