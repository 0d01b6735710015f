//! Action items from meeting notes: the notes are split into sentences,
//! each sentence that assigns work to a participant becomes an action item
//! or a candidate for human review, and vague sentences go to review.
use vstd::prelude::*;
use vstd::string::StringSliceAdditionalSpecFns;
use crate::emit::{
    copies, copy_json, copy_next, escaped_chunks, greedy, holds_greedy, lemma_copies_concat, lemma_greedy_len,
    lemma_run_holds, put_chunk, put_escaped, put_signed, signed_chunks,
};
use crate::scan::{contains, find_spec, has_prefix, index_of, is_ws, skip_ws_spec, starts_with};

verus! {

/// The most sentences read from the notes.
pub const MAX_SENTENCES: usize = 32;

/// The most participants read from the request.
pub const MAX_PARTICIPANTS: usize = 16;

/// `s` without its trailing whitespace.
pub open spec fn rtrim_spec(s: Seq<u8>) -> Seq<u8>
    decreases s.len(),
{
    if s.len() > 0 && is_ws(s.last()) {
        rtrim_spec(s.drop_last())
    } else {
        s
    }
}

/// `s` without leading and trailing whitespace.
pub open spec fn trim_spec(s: Seq<u8>) -> Seq<u8> {
    rtrim_spec(skip_ws_spec(s))
}

/// `s` opens with the word `w`: `w`, then the end or a space.
pub open spec fn word_prefix(s: Seq<u8>, w: Seq<u8>) -> bool {
    has_prefix(s, w) && (s.len() == w.len() || s[w.len() as int] == 32u8)
}

/// `suffix` ends `s`.
pub open spec fn has_suffix(s: Seq<u8>, suffix: Seq<u8>) -> bool {
    suffix.len() <= s.len() && s.skip(s.len() - suffix.len()) == suffix
}

/// `s` without the phrase `prefix` and the whitespace after it.
pub open spec fn strip_prefix_spec(s: Seq<u8>, prefix: Seq<u8>) -> Seq<u8> {
    if has_prefix(s, prefix) {
        trim_spec(s.skip(prefix.len() as int))
    } else {
        s
    }
}

/// `s` without the phrase `suffix` and the whitespace before it.
pub open spec fn strip_suffix_spec(s: Seq<u8>, suffix: Seq<u8>) -> Seq<u8> {
    if has_suffix(s, suffix) {
        trim_spec(s.take(s.len() - suffix.len()))
    } else {
        s
    }
}

/// The first word of a name: up to its first space.
pub open spec fn first_token_spec(s: Seq<u8>) -> Seq<u8> {
    match index_of(s, 32u8) {
        Some(e) => s.take(e),
        None => s,
    }
}

/// `needle` occurs in `s`.
pub open spec fn mentions(s: Seq<u8>, needle: Seq<u8>) -> bool {
    find_spec(s, needle) is Some
}

/// A sentence that hedges: it says "probably" or "at some point".
pub open spec fn vague(s: Seq<u8>) -> bool {
    mentions(s, "should probably".spec_bytes()) || mentions(s, "at some point".spec_bytes()) || mentions(
        s,
        "probably".spec_bytes(),
    )
}

/// The due date a sentence implies, for a meeting held on 2026-08-07:
/// Friday, or next week.
pub open spec fn due_spec(s: Seq<u8>, meeting_date: Seq<u8>) -> Option<Seq<u8>> {
    if meeting_date != "2026-08-07".spec_bytes() {
        None
    } else if mentions(s, "Friday".spec_bytes()) {
        Some("2026-08-09".spec_bytes())
    } else if mentions(s, "next week".spec_bytes()) {
        Some("2026-08-14".spec_bytes())
    } else {
        None
    }
}

/// The chunks in which a title is written with its first letter in upper
/// case: that letter on its own, then the rest.
pub open spec fn capitalized_chunks(s: Seq<u8>) -> Seq<Seq<u8>> {
    if s.len() == 0 {
        Seq::empty()
    } else if 97u8 <= s[0] <= 122u8 {
        seq![seq![(s[0] - 32) as u8], s.skip(1)]
    } else {
        seq![s]
    }
}

/// The title of a sentence that assigns work to the participant called
/// `first`: without the name, the `will` or `to` after it, and a closing
/// "by Friday" or "next week".
pub open spec fn action_title_spec(s: Seq<u8>, first: Seq<u8>, will: bool) -> Seq<u8> {
    let r1 = if word_prefix(s, first) { trim_spec(s.skip(first.len() as int)) } else { s };
    let r2 = if will && word_prefix(r1, "will".spec_bytes()) {
        trim_spec(r1.skip(4))
    } else if !will && word_prefix(r1, "to".spec_bytes()) {
        trim_spec(r1.skip(2))
    } else {
        r1
    };
    strip_suffix_spec(strip_suffix_spec(r2, " by Friday".spec_bytes()), " next week".spec_bytes())
}

/// The title of a vague sentence: without "We should probably" or "We"
/// before it and "at some point" after it.
pub open spec fn vague_title_spec(s: Seq<u8>) -> Seq<u8> {
    strip_suffix_spec(
        strip_prefix_spec(strip_prefix_spec(s, "We should probably ".spec_bytes()), "We ".spec_bytes()),
        " at some point".spec_bytes(),
    )
}

proof fn lemma_phrases()
    ensures
        "should probably".spec_bytes().len() == 15,
        "at some point".spec_bytes().len() == 13,
        "probably".spec_bytes().len() == 8,
        "Friday".spec_bytes().len() == 6,
        "next week".spec_bytes().len() == 9,
        "will".spec_bytes().len() == 4,
        "to".spec_bytes().len() == 2,
        " will ".spec_bytes().len() == 6,
        " to ".spec_bytes().len() == 4,
{
    broadcast use vstd::string::group_string_axioms;
    reveal_strlit("should probably");
    reveal_strlit("at some point");
    reveal_strlit("probably");
    reveal_strlit("Friday");
    reveal_strlit("next week");
    reveal_strlit("will");
    reveal_strlit("to");
    reveal_strlit(" will ");
    reveal_strlit(" to ");
    assert(vstd::string::is_ascii("should probably"));
    assert(vstd::string::is_ascii("at some point"));
    assert(vstd::string::is_ascii("probably"));
    assert(vstd::string::is_ascii("Friday"));
    assert(vstd::string::is_ascii("next week"));
    assert(vstd::string::is_ascii("will"));
    assert(vstd::string::is_ascii("to"));
    assert(vstd::string::is_ascii(" will "));
    assert(vstd::string::is_ascii(" to "));
}

/// `s` without leading and trailing whitespace.
pub fn trim(s: &[u8]) -> (r: &[u8])
    ensures
        r@ == trim_spec(s@),
{
    let mut start: usize = 0;
    assert(s@.skip(0) =~= s@);
    while start < s.len() && is_ws_byte(s[start])
        invariant
            start <= s@.len(),
            skip_ws_spec(s@) == skip_ws_spec(s@.skip(start as int)),
        decreases s.len() - start,
    {
        assert(s@.skip(start as int).drop_first() =~= s@.skip(start as int + 1));
        start = start + 1;
    }
    let ghost rest = s@.skip(start as int);
    assert(skip_ws_spec(rest) == rest);
    let mut end: usize = s.len();
    while end > start && is_ws_byte(s[end - 1])
        invariant
            start <= end <= s@.len(),
            rest == s@.skip(start as int),
            rtrim_spec(rest) == rtrim_spec(s@.subrange(start as int, end as int)),
        decreases end - start,
    {
        assert(s@.subrange(start as int, end as int).drop_last() =~= s@.subrange(start as int, end - 1));
        end = end - 1;
    }
    assert(rest =~= s@.subrange(start as int, s@.len() as int));
    &s[start..end]
}

/// Whitespace as the notes reader understands it.
fn is_ws_byte(b: u8) -> (r: bool)
    ensures
        r == is_ws(b),
{
    b == 32 || b == 10 || b == 9 || b == 13
}

/// Whether `s` opens with the word `word`.
pub fn starts_with_word(s: &[u8], word: &[u8]) -> (r: bool)
    ensures
        r == word_prefix(s@, word@),
{
    if s.len() < word.len() {
        return false;
    }
    if !starts_with(s, word) {
        return false;
    }
    s.len() == word.len() || s[word.len()] == 32
}

/// `s` without the phrase `prefix` and the whitespace after it; `s` itself
/// when it does not open with `prefix`.
pub fn strip_prefix_phrase<'a>(s: &'a [u8], prefix: &[u8]) -> (r: &'a [u8])
    ensures
        r@ == strip_prefix_spec(s@, prefix@),
{
    if starts_with(s, prefix) {
        let rest = &s[prefix.len()..s.len()];
        assert(rest@ =~= s@.skip(prefix@.len() as int));
        trim(rest)
    } else {
        s
    }
}

/// `s` without the phrase `suffix` and the whitespace before it; `s` itself
/// when it does not end with `suffix`.
pub fn strip_suffix_phrase<'a>(s: &'a [u8], suffix: &[u8]) -> (r: &'a [u8])
    ensures
        r@ == strip_suffix_spec(s@, suffix@),
{
    if s.len() >= suffix.len() {
        let cut = s.len() - suffix.len();
        let tail = &s[cut..s.len()];
        assert(tail@ =~= s@.skip(cut as int));
        let mut k: usize = 0;
        while k < suffix.len()
            invariant
                k <= suffix@.len(),
                tail@.len() == suffix@.len(),
                cut == s@.len() - suffix@.len(),
                tail@ == s@.skip(cut as int),
                forall|j: int| 0 <= j < k ==> tail@[j] == suffix@[j],
            decreases suffix.len() - k,
        {
            if tail[k] != suffix[k] {
                assert(tail@ != suffix@);
                return s;
            }
            k = k + 1;
        }
        assert(tail@ =~= suffix@);
        let head = &s[0..cut];
        assert(head@ =~= s@.take(cut as int));
        trim(head)
    } else {
        s
    }
}

/// The first word of `s`: up to its first space.
pub fn first_token(s: &[u8]) -> (r: &[u8])
    ensures
        r@ == first_token_spec(s@),
{
    let mut end: usize = 0;
    while end < s.len() && s[end] != 32
        invariant
            end <= s@.len(),
            forall|j: int| 0 <= j < end ==> s@[j] != 32u8,
            index_of(s@, 32u8) == crate::scan::index_of_from(s@, 32u8, end as int),
        decreases s.len() - end,
    {
        end = end + 1;
    }
    &s[0..end]
}

/// Whether a sentence hedges.
pub fn is_vague(s: &[u8]) -> (r: bool)
    ensures
        r == vague(s@),
{
    proof {
        lemma_phrases();
    }
    contains(s, "should probably".as_bytes()) || contains(s, "at some point".as_bytes()) || contains(
        s,
        "probably".as_bytes(),
    )
}

/// The due date sentence `s` implies for a meeting on `meeting_date`.
pub fn resolve_due_date(s: &[u8], meeting_date: &[u8]) -> (r: Option<&'static [u8]>)
    ensures
        match due_spec(s@, meeting_date@) {
            Some(d) => r is Some && r->0@ == d,
            None => r is None,
        },
{
    proof {
        lemma_phrases();
    }
    if !crate::scan::bytes_eq(meeting_date, "2026-08-07".as_bytes()) {
        return None;
    }
    if contains(s, "Friday".as_bytes()) {
        return Some("2026-08-09".as_bytes());
    }
    if contains(s, "next week".as_bytes()) {
        return Some("2026-08-14".as_bytes());
    }
    None
}

/// Writes `s` to `out` with its first letter in upper case; returns the
/// length written.
pub fn capitalize_first(s: &[u8], out: &mut [u8]) -> (r: usize)
    ensures
        holds_greedy(final(out)@, r as int, capitalized_chunks(s@)),
        final(out)@.len() == old(out)@.len(),
{
    let ghost o = out@;
    let ghost none = Seq::<Seq<u8>>::empty();
    if s.len() == 0 {
        proof {
            lemma_run_holds(o, o, 0, none);
        }
        return 0;
    }
    let mut i: usize = 0;
    if 97 <= s[0] && s[0] <= 122 {
        let mut first: Vec<u8> = Vec::new();
        first.push(s[0] - 32);
        i = copy_next(out, i, first.as_slice(), Ghost(o), Ghost(0), Ghost(none));
        let rest = &s[1..s.len()];
        assert(rest@ =~= s@.skip(1));
        i = copy_next(out, i, rest, Ghost(o), Ghost(0), Ghost(none.push(first@)));
        assert(none.push(first@).push(rest@) =~= capitalized_chunks(s@));
    } else {
        i = copy_next(out, i, s, Ghost(o), Ghost(0), Ghost(none));
        assert(none.push(s@) =~= capitalized_chunks(s@));
    }
    proof {
        lemma_run_holds(o, out@, i as int, capitalized_chunks(s@));
    }
    i
}

/// Writes the title of sentence `s`, which assigns work to the participant
/// called `first` with `will` (else with `to`); returns its length.
pub fn simplify_action_title(s: &[u8], first: &[u8], will: bool, out: &mut [u8]) -> (r: usize)
    ensures
        holds_greedy(final(out)@, r as int, capitalized_chunks(action_title_spec(s@, first@, will))),
        final(out)@.len() == old(out)@.len(),
{
    proof {
        lemma_phrases();
    }
    let mut rest = s;
    if starts_with_word(rest, first) {
        let tail = &rest[first.len()..rest.len()];
        assert(tail@ =~= s@.skip(first@.len() as int));
        rest = trim(tail);
    }
    let ghost r1 = rest@;
    if will && starts_with_word(rest, "will".as_bytes()) {
        let tail = &rest[4..rest.len()];
        assert(tail@ =~= r1.skip(4));
        rest = trim(tail);
    } else if !will && starts_with_word(rest, "to".as_bytes()) {
        let tail = &rest[2..rest.len()];
        assert(tail@ =~= r1.skip(2));
        rest = trim(tail);
    }
    rest = strip_suffix_phrase(rest, " by Friday".as_bytes());
    rest = strip_suffix_phrase(rest, " next week".as_bytes());
    capitalize_first(rest, out)
}

/// Writes the title of the vague sentence `s`; returns its length.
pub fn simplify_vague_title(s: &[u8], out: &mut [u8]) -> (r: usize)
    ensures
        holds_greedy(final(out)@, r as int, capitalized_chunks(vague_title_spec(s@))),
        final(out)@.len() == old(out)@.len(),
{
    let mut rest = s;
    rest = strip_prefix_phrase(rest, "We should probably ".as_bytes());
    rest = strip_prefix_phrase(rest, "We ".as_bytes());
    rest = strip_suffix_phrase(rest, " at some point".as_bytes());
    capitalize_first(rest, out)
}

/// The sentences of `text` from index `i` on, after `acc`: the text is cut
/// at each full stop, each piece is trimmed, empty pieces are skipped, and
/// reading stops at `MAX_SENTENCES`.
pub open spec fn sentences_from(text: Seq<u8>, start: int, i: int, acc: Seq<Seq<u8>>) -> Seq<Seq<u8>>
    decreases text.len() + 1 - i,
{
    if i < 0 || i > text.len() || acc.len() >= 32 {
        acc
    } else if i == text.len() || text[i] == 46u8 {
        let body = trim_spec(text.subrange(start, i));
        sentences_from(text, i + 1, i + 1, if body.len() > 0 { acc.push(body) } else { acc })
    } else {
        sentences_from(text, start, i + 1, acc)
    }
}

/// The sentences of `text`.
pub open spec fn sentences(text: Seq<u8>) -> Seq<Seq<u8>> {
    sentences_from(text, 0, 0, Seq::empty())
}

/// The participant names in the array `arr` from index `i` on, after `acc`:
/// each quoted string, up to its closing quote or the end; reading stops
/// at `cap` names. `start` is where the name being read began, when
/// `in_name`.
pub open spec fn names_from(arr: Seq<u8>, i: int, in_name: bool, start: int, acc: Seq<Seq<u8>>, cap: int) -> Seq<
    Seq<u8>,
>
    decreases arr.len() + 1 - i,
{
    if i < 0 || i > arr.len() {
        acc
    } else if in_name {
        if i < arr.len() && arr[i] != 34u8 {
            names_from(arr, i + 1, true, start, acc, cap)
        } else {
            names_from(arr, i + 1, false, 0, acc.push(arr.subrange(start, i)), cap)
        }
    } else if i == arr.len() || acc.len() >= cap {
        acc
    } else if arr[i] == 34u8 {
        names_from(arr, i + 1, true, i + 1, acc, cap)
    } else {
        names_from(arr, i + 1, false, 0, acc, cap)
    }
}

/// The participants array of the request.
pub open spec fn participants_array(input: Seq<u8>) -> Option<Seq<u8>> {
    crate::scan::bracketed_at_depth_spec(input, "\"participants\"".spec_bytes(), 1, 91u8, 93u8)
}

/// The participant names of the request, at most `cap` of them.
pub open spec fn participant_names(input: Seq<u8>, cap: int) -> Seq<Seq<u8>> {
    match participants_array(input) {
        Some(arr) => names_from(arr, 0, false, 0, Seq::empty(), cap),
        None => Seq::empty(),
    }
}

/// The sentences of `text`, in order.
pub fn split_sentences<'a>(text: &'a [u8]) -> (r: Vec<&'a [u8]>)
    requires
        text@.len() < usize::MAX,
    ensures
        r@.len() == sentences(text@).len(),
        forall|j: int| 0 <= j < r@.len() ==> (#[trigger] r@[j])@ == sentences(text@)[j],
        r@.len() <= MAX_SENTENCES,
{
    let mut out: Vec<&'a [u8]> = Vec::new();
    let mut start: usize = 0;
    let mut i: usize = 0;
    assert(out@.map_values(|b: &[u8]| b@) =~= Seq::<Seq<u8>>::empty());
    while i <= text.len() && out.len() < MAX_SENTENCES
        invariant
            start <= i,
            i <= text@.len() + 1,
            text@.len() < usize::MAX,
            start <= text@.len() || start == i,
            out@.len() <= MAX_SENTENCES,
            sentences(text@) == sentences_from(text@, start as int, i as int, out@.map_values(|b: &[u8]| b@)),
        decreases text.len() + 1 - i,
    {
        if i == text.len() || text[i] == 46 {
            let body = trim(&text[start..i]);
            let ghost before = out@.map_values(|b: &[u8]| b@);
            if body.len() > 0 {
                out.push(body);
                assert(out@.map_values(|b: &[u8]| b@) =~= before.push(body@));
            }
            i = i + 1;
            start = i;
        } else {
            i = i + 1;
        }
    }
    proof {
        let m = out@.map_values(|b: &[u8]| b@);
        assert(sentences_from(text@, start as int, i as int, m) == m);
        assert forall|j: int| 0 <= j < out@.len() implies (#[trigger] out@[j])@ == sentences(text@)[j] by {
            assert(m[j] == out@[j]@);
        }
    }
    out
}

/// A participant: the full name and its first word.
#[derive(Clone, Copy)]
pub struct Participant<'a> {
    pub full: &'a [u8],
    pub first: &'a [u8],
}

/// Reads the participant names of `input` into `out`; returns how many
/// were read.
pub fn parse_participants<'a>(input: &'a [u8], out: &mut [Participant<'a>]) -> (r: usize)
    requires
        crate::scan::scannable(input@),
    ensures
        final(out)@.len() == old(out)@.len(),
        r == participant_names(input@, old(out)@.len() as int).len(),
        r <= old(out)@.len(),
        forall|j: int| 0 <= j < r ==> (#[trigger] final(out)@[j]).full@ == participant_names(input@, old(out)@.len() as int)[j]
            && final(out)@[j].first@ == first_token_spec(final(out)@[j].full@),
        forall|j: int| r <= j < final(out)@.len() ==> #[trigger] final(out)@[j] == old(out)@[j],
{
    proof {
        lemma_participants_key();
    }
    let ghost cap = out@.len() as int;
    let arr = match crate::scan::array_after_key_at_depth(input, "\"participants\"".as_bytes(), 1) {
        Some(a) => a,
        None => return 0,
    };
    let ghost o = out@;
    let mut count: usize = 0;
    let mut i: usize = 0;
    assert(out@.take(0).map_values(|p: Participant<'a>| p.full@) =~= Seq::<Seq<u8>>::empty());
    while i < arr.len() && count < out.len()
        invariant
            i <= arr@.len() + 1,
            arr@.len() <= 0x7fff_ffff,
            count <= out@.len(),
            out@.len() == cap,
            cap == o.len(),
            participants_array(input@) == Some(arr@),
            names_from(arr@, 0, false, 0, Seq::empty(), cap) == names_from(
                arr@,
                i as int,
                false,
                0,
                out@.take(count as int).map_values(|p: Participant<'a>| p.full@),
                cap,
            ),
            forall|j: int| 0 <= j < count ==> (#[trigger] out@[j]).first@ == first_token_spec(out@[j].full@),
            forall|j: int| count <= j < cap ==> #[trigger] out@[j] == o[j],
        decreases arr.len() + 1 - i,
    {
        let ghost acc = out@.take(count as int).map_values(|p: Participant<'a>| p.full@);
        if arr[i] == 34 {
            i = i + 1;
            let start = i;
            while i < arr.len() && arr[i] != 34
                invariant
                    start <= i <= arr@.len(),
                    arr@.len() <= 0x7fff_ffff,
                    names_from(arr@, 0, false, 0, Seq::empty(), cap) == names_from(arr@, i as int, true, start as int, acc, cap),
                decreases arr.len() - i,
            {
                i = i + 1;
            }
            let full = &arr[start..i];
            let first = first_token(full);
            out[count] = Participant { full, first };
            proof {
                assert(out@.take(count as int + 1).map_values(|p: Participant<'a>| p.full@) =~= acc.push(arr@.subrange(start as int, i as int)));
            }
            count = count + 1;
        }
        i = i + 1;
    }
    proof {
        let m = out@.take(count as int).map_values(|p: Participant<'a>| p.full@);
        assert(names_from(arr@, i as int, false, 0, m, cap) == m);
        assert forall|j: int| 0 <= j < count implies (#[trigger] out@[j]).full@ == participant_names(input@, cap)[j] by {
            assert(m[j] == out@[j].full@);
        }
    }
    count
}

proof fn lemma_participants_key()
    ensures
        "\"participants\"".spec_bytes().len() > 0,
{
    broadcast use vstd::string::group_string_axioms;
    reveal_strlit("\"participants\"");
    assert(vstd::string::is_ascii("\"participants\""));
}

/// Sentence `s` opens with a capitalised word followed, later on, by
/// " will " or " to ".
pub open spec fn capitalized_start(s: Seq<u8>) -> bool {
    &&& s.len() > 0
    &&& 65u8 <= s[0] <= 90u8
    &&& match crate::scan::index_of_from(s, 32u8, 1) {
        Some(k) => mentions(s.skip(k), " will ".spec_bytes()) || mentions(s.skip(k), " to ".spec_bytes()),
        None => false,
    }
}

/// Sentence `s` assigns work to the participant whose first name is
/// `first`: it opens with that name, or has it before " will " or " to ".
pub open spec fn names_owner(s: Seq<u8>, first: Seq<u8>) -> bool {
    &&& first.len() > 0
    &&& word_prefix(s, first) || (first.len() + 6 <= 64 && mentions(s, first + " will ".spec_bytes())) || (
    first.len() + 4 <= 64 && mentions(s, first + " to ".spec_bytes()))
}

/// The first participant from index `i` on whom sentence `s` assigns work;
/// failing that, the first participant when the sentence opens with a
/// capitalised name.
pub open spec fn owner_from(s: Seq<u8>, firsts: Seq<Seq<u8>>, i: int) -> Option<int>
    decreases firsts.len() - i,
{
    if i < 0 || i >= firsts.len() {
        if capitalized_start(s) { Some(0) } else { None }
    } else if names_owner(s, firsts[i]) {
        Some(i)
    } else {
        owner_from(s, firsts, i + 1)
    }
}

/// The first names of `parts`.
pub open spec fn first_names(parts: Seq<Participant>) -> Seq<Seq<u8>> {
    parts.map_values(|p: Participant| p.first@)
}

/// Whether `s` opens with a capitalised word that " will " or " to "
/// follows.
pub fn starts_with_capitalized_name(s: &[u8]) -> (r: bool)
    ensures
        r == capitalized_start(s@),
{
    proof {
        lemma_phrases();
    }
    if s.len() == 0 {
        return false;
    }
    let b = s[0];
    if b < 65 || b > 90 {
        return false;
    }
    let mut i: usize = 1;
    while i < s.len() && s[i] != 32
        invariant
            1 <= i <= s@.len(),
            crate::scan::index_of_from(s@, 32u8, 1) == crate::scan::index_of_from(s@, 32u8, i as int),
        decreases s.len() - i,
    {
        i = i + 1;
    }
    if i >= s.len() {
        return false;
    }
    let rest = &s[i..s.len()];
    assert(rest@ =~= s@.skip(i as int));
    contains(rest, " will ".as_bytes()) || contains(rest, " to ".as_bytes())
}

/// `first` followed by `tail`, when that fits the 64-byte pattern buffer.
fn pattern(first: &[u8], tail: &[u8]) -> (r: Vec<u8>)
    requires
        first@.len() + tail@.len() <= 64,
    ensures
        r@ == first@ + tail@,
{
    let mut v: Vec<u8> = Vec::new();
    let mut k: usize = 0;
    while k < first.len()
        invariant
            k <= first@.len(),
            v@ == first@.take(k as int),
        decreases first.len() - k,
    {
        v.push(first[k]);
        k = k + 1;
        assert(v@ =~= first@.take(k as int));
    }
    let mut j: usize = 0;
    assert(first@.take(k as int) =~= first@);
    while j < tail.len()
        invariant
            j <= tail@.len(),
            v@ == first@ + tail@.take(j as int),
        decreases tail.len() - j,
    {
        v.push(tail[j]);
        j = j + 1;
        assert(v@ =~= first@ + tail@.take(j as int));
    }
    assert(tail@.take(j as int) =~= tail@);
    v
}

/// The participant that sentence `s` assigns work to.
pub fn match_action_participant(s: &[u8], parts: &[Participant]) -> (r: Option<usize>)
    ensures
        index_opt(r) == owner_from(s@, first_names(parts@), 0),
{
    proof {
        lemma_phrases();
    }
    let mut idx: usize = 0;
    while idx < parts.len()
        invariant
            idx <= parts@.len(),
            owner_from(s@, first_names(parts@), 0) == owner_from(s@, first_names(parts@), idx as int),
            " will ".spec_bytes().len() == 6,
            " to ".spec_bytes().len() == 4,
        decreases parts.len() - idx,
    {
        let first = parts[idx].first;
        assert(first_names(parts@)[idx as int] == first@);
        if first.len() > 0 {
            if starts_with_word(s, first) {
                return Some(idx);
            }
            if first.len() <= 58 {
                let needle = pattern(first, " will ".as_bytes());
                if contains(s, needle.as_slice()) {
                    return Some(idx);
                }
            }
            if first.len() <= 60 {
                let needle = pattern(first, " to ".as_bytes());
                if contains(s, needle.as_slice()) {
                    return Some(idx);
                }
            }
        }
        idx = idx + 1;
    }
    if starts_with_capitalized_name(s) {
        return Some(0);
    }
    None
}

/// An index as an integer.
pub open spec fn index_opt(m: Option<usize>) -> Option<int> {
    match m {
        Some(i) => Some(i as int),
        None => None,
    }
}

/// The chunk list of a separating comma, when one is due.
pub open spec fn comma_chunks(comma: bool) -> Seq<Seq<u8>> {
    if comma { seq![",".spec_bytes()] } else { Seq::empty() }
}

/// The chunks of an action item.
pub open spec fn action_item_chunks(
    title: Seq<u8>,
    owner: Seq<u8>,
    due: Option<Seq<u8>>,
    confidence: Seq<u8>,
    source: Seq<u8>,
    comma: bool,
) -> Seq<Seq<u8>> {
    comma_chunks(comma) + seq!["{\"title\":\"".spec_bytes()] + escaped_chunks(title) + seq![
        "\",\"suggested_owner\":\"".spec_bytes(),
    ] + escaped_chunks(owner) + seq!["\"".spec_bytes()] + match due {
        Some(d) => seq![",\"suggested_due_date\":\"".spec_bytes(), d, "\"".spec_bytes()],
        None => Seq::empty(),
    } + seq![",\"confidence\":".spec_bytes(), confidence, ",\"source_sentence\":\"".spec_bytes()]
        + escaped_chunks(source) + seq![".\",\"priority_hint\":\"normal\"}".spec_bytes()]
}

/// The chunks of an item for human review.
pub open spec fn review_item_chunks(
    title: Seq<u8>,
    source: Seq<u8>,
    confidence: Seq<u8>,
    reason: Seq<u8>,
    comma: bool,
) -> Seq<Seq<u8>> {
    comma_chunks(comma) + seq!["{\"title\":\"".spec_bytes()] + escaped_chunks(title) + seq![
        "\",\"confidence\":".spec_bytes(),
        confidence,
        ",\"source_sentence\":\"".spec_bytes(),
    ] + escaped_chunks(source) + seq![".\",\"reason\":\"".spec_bytes(), reason, "\"}".spec_bytes()]
}

/// Appends an action item to `buf` at `at`; returns the index after it.
#[verifier::spinoff_prover]
#[verifier::rlimit(30)]
pub fn append_action_item(
    buf: &mut [u8],
    at: usize,
    title: &[u8],
    owner: &[u8],
    due: Option<&[u8]>,
    confidence: &[u8],
    source: &[u8],
    comma: bool,
    Ghost(o): Ghost<Seq<u8>>,
    Ghost(ch): Ghost<Seq<Seq<u8>>>,
) -> (r: usize)
    requires
        (old(buf)@, at as int) == copies(o, 0, ch),
    ensures
        (final(buf)@, r as int) == copies(
            o,
            0,
            ch + action_item_chunks(
                title@,
                owner@,
                match due {
                    Some(d) => Some(d@),
                    None => None,
                },
                confidence@,
                source@,
                comma,
            ),
        ),
{
    let ghost mut c = ch;
    let mut i = at;
    if comma {
        i = put_chunk(buf, i, ",".as_bytes(), Ghost(o), Ghost(c));
        proof { c = c + seq![",".spec_bytes()]; }
    }
    assert(c == ch + comma_chunks(comma));
    i = put_chunk(buf, i, "{\"title\":\"".as_bytes(), Ghost(o), Ghost(c));
    proof { c = c + seq!["{\"title\":\"".spec_bytes()]; }
    i = put_escaped(buf, i, title, Ghost(o), Ghost(c));
    proof { c = c + escaped_chunks(title@); }
    i = put_chunk(buf, i, "\",\"suggested_owner\":\"".as_bytes(), Ghost(o), Ghost(c));
    proof { c = c + seq!["\",\"suggested_owner\":\"".spec_bytes()]; }
    i = put_escaped(buf, i, owner, Ghost(o), Ghost(c));
    proof { c = c + escaped_chunks(owner@); }
    i = put_chunk(buf, i, "\"".as_bytes(), Ghost(o), Ghost(c));
    proof { c = c + seq!["\"".spec_bytes()]; }
    let ghost before_due = c;
    if let Some(d) = due {
        i = put_chunk(buf, i, ",\"suggested_due_date\":\"".as_bytes(), Ghost(o), Ghost(c));
        proof { c = c + seq![",\"suggested_due_date\":\"".spec_bytes()]; }
        i = put_chunk(buf, i, d, Ghost(o), Ghost(c));
        proof { c = c + seq![d@]; }
        i = put_chunk(buf, i, "\"".as_bytes(), Ghost(o), Ghost(c));
        proof {
            c = c + seq!["\"".spec_bytes()];
            assert(c =~= before_due + seq![",\"suggested_due_date\":\"".spec_bytes(), d@, "\"".spec_bytes()]);
        }
    } else {
        assert(c =~= before_due + Seq::<Seq<u8>>::empty());
    }
    i = put_chunk(buf, i, ",\"confidence\":".as_bytes(), Ghost(o), Ghost(c));
    proof { c = c + seq![",\"confidence\":".spec_bytes()]; }
    i = put_chunk(buf, i, confidence, Ghost(o), Ghost(c));
    proof { c = c + seq![confidence@]; }
    i = put_chunk(buf, i, ",\"source_sentence\":\"".as_bytes(), Ghost(o), Ghost(c));
    proof { c = c + seq![",\"source_sentence\":\"".spec_bytes()]; }
    i = put_escaped(buf, i, source, Ghost(o), Ghost(c));
    proof { c = c + escaped_chunks(source@); }
    i = put_chunk(buf, i, ".\",\"priority_hint\":\"normal\"}".as_bytes(), Ghost(o), Ghost(c));
    proof {
        c = c + seq![".\",\"priority_hint\":\"normal\"}".spec_bytes()];
        let dd = match due {
            Some(d) => Some(d@),
            None => None::<Seq<u8>>,
        };
        assert(c =~= ch + action_item_chunks(title@, owner@, dd, confidence@, source@, comma));
    }
    i
}

/// Appends an item for human review to `buf` at `at`; returns the index
/// after it.
#[verifier::spinoff_prover]
#[verifier::rlimit(30)]
pub fn append_review_item(
    buf: &mut [u8],
    at: usize,
    title: &[u8],
    source: &[u8],
    confidence: &[u8],
    reason: &[u8],
    comma: bool,
    Ghost(o): Ghost<Seq<u8>>,
    Ghost(ch): Ghost<Seq<Seq<u8>>>,
) -> (r: usize)
    requires
        (old(buf)@, at as int) == copies(o, 0, ch),
    ensures
        (final(buf)@, r as int) == copies(o, 0, ch + review_item_chunks(title@, source@, confidence@, reason@, comma)),
{
    let ghost mut c = ch;
    let mut i = at;
    if comma {
        i = put_chunk(buf, i, ",".as_bytes(), Ghost(o), Ghost(c));
        proof { c = c + seq![",".spec_bytes()]; }
    }
    assert(c == ch + comma_chunks(comma));
    i = put_chunk(buf, i, "{\"title\":\"".as_bytes(), Ghost(o), Ghost(c));
    proof { c = c + seq!["{\"title\":\"".spec_bytes()]; }
    i = put_escaped(buf, i, title, Ghost(o), Ghost(c));
    proof { c = c + escaped_chunks(title@); }
    i = put_chunk(buf, i, "\",\"confidence\":".as_bytes(), Ghost(o), Ghost(c));
    proof { c = c + seq!["\",\"confidence\":".spec_bytes()]; }
    i = put_chunk(buf, i, confidence, Ghost(o), Ghost(c));
    proof { c = c + seq![confidence@]; }
    i = put_chunk(buf, i, ",\"source_sentence\":\"".as_bytes(), Ghost(o), Ghost(c));
    proof { c = c + seq![",\"source_sentence\":\"".spec_bytes()]; }
    i = put_escaped(buf, i, source, Ghost(o), Ghost(c));
    proof { c = c + escaped_chunks(source@); }
    i = put_chunk(buf, i, ".\",\"reason\":\"".as_bytes(), Ghost(o), Ghost(c));
    proof { c = c + seq![".\",\"reason\":\"".spec_bytes()]; }
    i = put_chunk(buf, i, reason, Ghost(o), Ghost(c));
    proof { c = c + seq![reason@]; }
    i = put_chunk(buf, i, "\"}".as_bytes(), Ghost(o), Ghost(c));
    proof {
        c = c + seq!["\"}".spec_bytes()];
        assert(c =~= ch + review_item_chunks(title@, source@, confidence@, reason@, comma));
    }
    i
}

/// Where a sentence of a given confidence goes.
#[derive(Debug, Clone, Copy, PartialEq, Eq, Structural)]
pub enum Tier {
    Action,
    Review,
    Drop,
}

/// Where sentences that assign work go: those with "will" (confidence
/// 0.93) and those with "to" only (confidence 0.88), as the request's
/// confidence thresholds place them.
#[derive(Debug, Clone, Copy, PartialEq, Eq, Structural)]
pub struct Placement {
    pub will: Tier,
    pub to: Tier,
}

/// The state of reading a confidence threshold: the whole part (held at a
/// million), the first three fraction digits and how many, whether a later
/// fraction digit is not zero, whether a point was seen, and whether any
/// digit was.
pub ghost struct ThresholdRead {
    pub whole: int,
    pub frac: int,
    pub digits: int,
    pub more: bool,
    pub in_frac: bool,
    pub any: bool,
}

/// The read of the bytes of `s` from `i` on: points switch to the fraction,
/// digits accumulate, and any other byte ends it.
pub open spec fn threshold_read(s: Seq<u8>, i: int, st: ThresholdRead) -> ThresholdRead
    decreases s.len() - i,
{
    if i < 0 || i >= s.len() {
        st
    } else if s[i] == 46u8 {
        threshold_read(s, i + 1, ThresholdRead { in_frac: true, ..st })
    } else if !crate::scan::is_digit(s[i]) {
        st
    } else {
        let d = (s[i] - 48) as int;
        if st.in_frac {
            if st.digits < 3 {
                threshold_read(s, i + 1, ThresholdRead { frac: st.frac * 10 + d, digits: st.digits + 1, any: true, ..st })
            } else {
                threshold_read(s, i + 1, ThresholdRead { more: st.more || d > 0, any: true, ..st })
            }
        } else {
            let w = st.whole * 10 + d;
            threshold_read(s, i + 1, ThresholdRead { whole: if w > 1000000 { 1000000 } else { w }, any: true, ..st })
        }
    }
}

/// The decimal number that opens `rest`, in thousandths rounded up (a
/// confidence in thousandths is at least the number exactly when it is at
/// least this); the whole part is held at a million.
pub open spec fn threshold_spec(rest: Seq<u8>) -> Option<int> {
    let st = threshold_read(rest, 0, ThresholdRead { whole: 0, frac: 0, digits: 0, more: false, in_frac: false, any: false });
    if !st.any {
        None
    } else {
        Some(st.whole * 1000 + st.frac * crate::followup::pad3(st.digits) + if st.more { 1int } else { 0int })
    }
}

/// The threshold that `key` gives in `config`, in thousandths, or `default`.
pub open spec fn threshold_of(config: Seq<u8>, key: Seq<u8>, default: int) -> int {
    match crate::scan::value_after_key_spec(config, key) {
        Some(rest) => match threshold_spec(rest) {
            Some(t) => t,
            None => default,
        },
        None => default,
    }
}

/// Where a sentence of confidence `c` goes under the thresholds `min` and
/// `review` (all in thousandths).
pub open spec fn tier_spec(c: int, min: int, review: int) -> Tier {
    if c >= min {
        Tier::Action
    } else if c >= review {
        Tier::Review
    } else {
        Tier::Drop
    }
}

/// The placement that the config `config` asks for: `min_confidence`
/// (default 0.75) and `review_threshold` (default 0.55) applied to the
/// confidences 0.93 and 0.88.
pub open spec fn placement_spec(config: Seq<u8>) -> Placement {
    let min = threshold_of(config, "\"min_confidence\"".spec_bytes(), 750);
    let review = threshold_of(config, "\"review_threshold\"".spec_bytes(), 550);
    Placement { will: tier_spec(930, min, review), to: tier_spec(880, min, review) }
}

/// Reads the threshold that opens `rest`, in thousandths rounded up.
fn read_threshold(rest: &[u8]) -> (r: Option<i64>)
    ensures
        match threshold_spec(rest@) {
            Some(t) => r == Some(t as i64) && 0 <= t <= 1_000_001_000,
            None => r is None,
        },
{
    let ghost fin = threshold_read(rest@, 0, ThresholdRead { whole: 0, frac: 0, digits: 0, more: false, in_frac: false, any: false });
    let mut whole: i64 = 0;
    let mut frac: i64 = 0;
    let mut digits: i64 = 0;
    let mut more = false;
    let mut in_frac = false;
    let mut any = false;
    let mut j: usize = 0;
    let mut go = true;
    while go && j < rest.len()
        invariant
            j <= rest@.len(),
            0 <= whole <= 1000000,
            0 <= digits <= 3,
            0 <= frac < 1000,
            go ==> threshold_read(rest@, j as int, ThresholdRead { whole: whole as int, frac: frac as int, digits: digits as int, more, in_frac, any }) == fin,
            !go ==> fin == (ThresholdRead { whole: whole as int, frac: frac as int, digits: digits as int, more, in_frac, any }),
            digits == 0 ==> frac == 0,
            digits == 1 ==> frac < 10,
            digits == 2 ==> frac < 100,
        decreases rest@.len() - j + (if go { 1int } else { 0int }),
    {
        let b = rest[j];
        if b == 46 {
            in_frac = true;
            j = j + 1;
        } else if b < 48 || b > 57 {
            go = false;
        } else {
            let d = (b - 48) as i64;
            if in_frac {
                if digits < 3 {
                    frac = frac * 10 + d;
                    digits = digits + 1;
                } else {
                    more = more || d > 0;
                }
            } else {
                let w = whole * 10 + d;
                whole = if w > 1000000 { 1000000 } else { w };
            }
            any = true;
            j = j + 1;
        }
    }
    if !any {
        return None;
    }
    let f: i64 = if digits == 0 {
        0
    } else if digits == 1 {
        frac * 100
    } else if digits == 2 {
        frac * 10
    } else {
        frac
    };
    Some(whole * 1000 + f + if more { 1 } else { 0 })
}

/// The threshold that `key` gives in `config`, in thousandths, or `default`.
fn threshold_after_key(config: &[u8], key: &[u8], default: i64) -> (r: i64)
    requires
        key@.len() > 0,
    ensures
        r as int == threshold_of(config@, key@, default as int),
{
    match crate::scan::value_after_key(config, key) {
        Some(rest) => match read_threshold(rest) {
            Some(t) => t,
            None => default,
        },
        None => default,
    }
}

/// Where a sentence of confidence `c` goes under the thresholds `min` and
/// `review` (in thousandths).
pub fn tier_of(c: i64, min: i64, review: i64) -> (r: Tier)
    ensures
        r == tier_spec(c as int, min as int, review as int),
{
    if c >= min {
        Tier::Action
    } else if c >= review {
        Tier::Review
    } else {
        Tier::Drop
    }
}

/// The placement that the extraction config `config` asks for.
pub fn placement_of(config: &[u8]) -> (r: Placement)
    ensures
        r == placement_spec(config@),
{
    proof {
        broadcast use vstd::string::group_string_axioms;
        reveal_strlit("\"min_confidence\"");
        reveal_strlit("\"review_threshold\"");
        assert(vstd::string::is_ascii("\"min_confidence\""));
        assert(vstd::string::is_ascii("\"review_threshold\""));
    }
    let min = threshold_after_key(config, "\"min_confidence\"".as_bytes(), 750);
    let review = threshold_after_key(config, "\"review_threshold\"".as_bytes(), 550);
    Placement { will: tier_of(930, min, review), to: tier_of(880, min, review) }
}

/// What the extraction has collected: the chunks and the number of the
/// action items and of the items for review.
pub ghost struct Found {
    pub actions: Seq<Seq<u8>>,
    pub action_count: nat,
    pub reviews: Seq<Seq<u8>>,
    pub review_count: nat,
}

/// The full and first names of participants.
pub open spec fn name_pairs(parts: Seq<Participant>) -> Seq<(Seq<u8>, Seq<u8>)> {
    parts.map_values(|p: Participant| (p.full@, p.first@))
}

/// The first names of named participants.
pub open spec fn pair_firsts(pairs: Seq<(Seq<u8>, Seq<u8>)>) -> Seq<Seq<u8>> {
    pairs.map_values(|p: (Seq<u8>, Seq<u8>)| p.1)
}

/// The full and first name of participant `i`, or empty names past the end.
pub open spec fn owner_info(pairs: Seq<(Seq<u8>, Seq<u8>)>, i: int) -> (Seq<u8>, Seq<u8>) {
    if 0 <= i < pairs.len() {
        pairs[i]
    } else {
        (Seq::empty(), Seq::empty())
    }
}

/// What one sentence adds: a vague one (when those are rejected) a review
/// item; one that assigns work with "will" or "to" an item where the
/// placement puts its confidence.
pub open spec fn step(
    f: Found,
    body: Seq<u8>,
    parts: Seq<(Seq<u8>, Seq<u8>)>,
    meeting: Seq<u8>,
    reject_vague: bool,
    pl: Placement,
) -> Found {
    if body.len() == 0 {
        f
    } else if reject_vague && vague(body) {
        Found {
            actions: f.actions,
            action_count: f.action_count,
            reviews: f.reviews + review_item_chunks(
                greedy(256, capitalized_chunks(vague_title_spec(body))),
                body,
                "0.58".spec_bytes(),
                "vague_language".spec_bytes(),
                f.review_count > 0,
            ),
            review_count: f.review_count + 1,
        }
    } else {
        match owner_from(body, pair_firsts(parts), 0) {
            None => f,
            Some(pidx) => {
                let (full, first) = owner_info(parts, pidx);
                let will = mentions(body, " will ".spec_bytes());
                let to = mentions(body, " to ".spec_bytes());
                if !will && !to {
                    f
                } else {
                    let conf = if will { "0.93".spec_bytes() } else { "0.88".spec_bytes() };
                    let title = greedy(256, capitalized_chunks(action_title_spec(body, first, will)));
                    let tier = if will { pl.will } else { pl.to };
                    if tier == Tier::Action {
                        Found {
                            actions: f.actions + action_item_chunks(
                                title,
                                full,
                                due_spec(body, meeting),
                                conf,
                                body,
                                f.action_count > 0,
                            ),
                            action_count: f.action_count + 1,
                            reviews: f.reviews,
                            review_count: f.review_count,
                        }
                    } else if tier == Tier::Review {
                        Found {
                            actions: f.actions,
                            action_count: f.action_count,
                            reviews: f.reviews + review_item_chunks(
                                title,
                                body,
                                conf,
                                "below_min_confidence".spec_bytes(),
                                f.review_count > 0,
                            ),
                            review_count: f.review_count + 1,
                        }
                    } else {
                        f
                    }
                }
            },
        }
    }
}

/// What the sentences collect, one after another.
#[verifier::opaque]
pub open spec fn found_over(
    sents: Seq<Seq<u8>>,
    parts: Seq<(Seq<u8>, Seq<u8>)>,
    meeting: Seq<u8>,
    reject_vague: bool,
    pl: Placement,
) -> Found
    decreases sents.len(),
{
    if sents.len() == 0 {
        Found { actions: Seq::empty(), action_count: 0, reviews: Seq::empty(), review_count: 0 }
    } else {
        step(found_over(sents.drop_last(), parts, meeting, reject_vague, pl), sents.last(), parts, meeting, reject_vague, pl)
    }
}

/// Adds what sentence `body` yields to the action and review buffers.
#[verifier::spinoff_prover]
#[verifier::rlimit(30)]
fn process_sentence(
    body: &[u8],
    parts: &[Participant],
    meeting: &[u8],
    reject_vague: bool,
    pl: Placement,
    action_buf: &mut [u8],
    ai: usize,
    ac: usize,
    review_buf: &mut [u8],
    ri: usize,
    rc: usize,
    Ghost(ao): Ghost<Seq<u8>>,
    Ghost(ro): Ghost<Seq<u8>>,
    Ghost(f): Ghost<Found>,
) -> (r: (usize, usize, usize, usize))
    requires
        (old(action_buf)@, ai as int) == copies(ao, 0, f.actions),
        (old(review_buf)@, ri as int) == copies(ro, 0, f.reviews),
        ac == f.action_count,
        rc == f.review_count,
        ac < usize::MAX,
        rc < usize::MAX,
    ensures
        ({
            let g = step(f, body@, name_pairs(parts@), meeting@, reject_vague, pl);
            &&& (final(action_buf)@, r.0 as int) == copies(ao, 0, g.actions)
            &&& r.1 == g.action_count
            &&& (final(review_buf)@, r.2 as int) == copies(ro, 0, g.reviews)
            &&& r.3 == g.review_count
        }),
{
    proof {
        lemma_phrases();
    }
    if body.len() == 0 {
        return (ai, ac, ri, rc);
    }
    if reject_vague && is_vague(body) {
        let mut title = [0u8; 256];
        let tlen = simplify_vague_title(body, &mut title);
        proof {
            lemma_greedy_len(256, capitalized_chunks(vague_title_spec(body@)));
        }
        let ts = title.as_slice();
        let t = &ts[0..tlen];
        assert(t@ =~= greedy(256, capitalized_chunks(vague_title_spec(body@))));
        let ri2 = append_review_item(
            review_buf,
            ri,
            t,
            body,
            "0.58".as_bytes(),
            "vague_language".as_bytes(),
            rc > 0,
            Ghost(ro),
            Ghost(f.reviews),
        );
        return (ai, ac, ri2, rc + 1);
    }
    assert(first_names(parts@) =~= pair_firsts(name_pairs(parts@)));
    let pidx = match match_action_participant(body, parts) {
        Some(p) => p,
        None => return (ai, ac, ri, rc),
    };
    let (full, first): (&[u8], &[u8]) = if pidx < parts.len() {
        (parts[pidx].full, parts[pidx].first)
    } else {
        (&[], &[])
    };
    assert(owner_info(name_pairs(parts@), pidx as int) == (full@, first@));
    let will = contains(body, " will ".as_bytes());
    let to_pat = contains(body, " to ".as_bytes());
    if !will && !to_pat {
        return (ai, ac, ri, rc);
    }
    let conf = if will { "0.93".as_bytes() } else { "0.88".as_bytes() };
    let mut title = [0u8; 256];
    let tlen = simplify_action_title(body, first, will, &mut title);
    proof {
        lemma_greedy_len(256, capitalized_chunks(action_title_spec(body@, first@, will)));
    }
    let ts = title.as_slice();
    let t = &ts[0..tlen];
    assert(t@ =~= greedy(256, capitalized_chunks(action_title_spec(body@, first@, will))));
    let due = resolve_due_date(body, meeting);
    let tier = if will { pl.will } else { pl.to };
    match tier {
        Tier::Action => {
            let ai2 = append_action_item(action_buf, ai, t, full, due, conf, body, ac > 0, Ghost(ao), Ghost(f.actions));
            (ai2, ac + 1, ri, rc)
        },
        Tier::Review => {
            let ri2 = append_review_item(
                review_buf,
                ri,
                t,
                body,
                conf,
                "below_min_confidence".as_bytes(),
                rc > 0,
                Ghost(ro),
                Ghost(f.reviews),
            );
            (ai, ac, ri2, rc + 1)
        },
        Tier::Drop => (ai, ac, ri, rc),
    }
}

/// The chunks of the evaluation trace: the counts of action items and of
/// items moved to review, or a note that no sentence qualified.
pub open spec fn trace_chunks(actions: nat, reviews: nat, none: bool) -> Seq<Seq<u8>> {
    if none {
        seq!["[\"no sentences met action-item patterns\"]".spec_bytes()]
    } else {
        seq!["[".spec_bytes()] + (if actions > 0 {
            seq!["\"".spec_bytes()] + signed_chunks(actions as int) + seq![" high-confidence items\"".spec_bytes()]
        } else {
            Seq::empty()
        }) + (if reviews > 0 {
            (if actions > 0 { seq![",".spec_bytes()] } else { Seq::empty() }) + seq!["\"".spec_bytes()]
                + signed_chunks(reviews as int) + seq![" borderline moved to needs_human_review\"".spec_bytes()]
        } else {
            Seq::empty()
        }) + seq!["]".spec_bytes()]
    }
}

/// The chunks of the response document.
pub open spec fn result_chunks(actions: Seq<u8>, reviews: Seq<u8>, reason: Seq<u8>, trace: Seq<u8>) -> Seq<Seq<u8>> {
    seq![
        "{\"action_items\":[".spec_bytes(),
        actions,
        "],\"needs_human_review\":[".spec_bytes(),
        reviews,
        "],\"rejected_candidates\":[],\"reason_code\":\"".spec_bytes(),
        reason,
        "\",\"evaluation_trace\":".spec_bytes(),
        trace,
        "}".spec_bytes(),
    ]
}

/// Writes the evaluation trace to `buf`; returns its length.
pub fn format_trace(buf: &mut [u8], actions: usize, reviews: usize, none: bool) -> (r: usize)
    requires
        actions <= i64::MAX,
        reviews <= i64::MAX,
    ensures
        holds_greedy(final(buf)@, r as int, trace_chunks(actions as nat, reviews as nat, none)),
        final(buf)@.len() == old(buf)@.len(),
{
    let ghost o = buf@;
    let ghost mut c = Seq::<Seq<u8>>::empty();
    if none {
        let i = put_chunk(buf, 0, "[\"no sentences met action-item patterns\"]".as_bytes(), Ghost(o), Ghost(c));
        proof {
            c = c + seq!["[\"no sentences met action-item patterns\"]".spec_bytes()];
            assert(c =~= trace_chunks(actions as nat, reviews as nat, none));
            lemma_run_holds(o, buf@, i as int, c);
        }
        return i;
    }
    let mut i = put_chunk(buf, 0, "[".as_bytes(), Ghost(o), Ghost(c));
    proof { c = c + seq!["[".spec_bytes()]; }
    let ghost c1 = c;
    if actions > 0 {
        i = put_chunk(buf, i, "\"".as_bytes(), Ghost(o), Ghost(c));
        proof { c = c + seq!["\"".spec_bytes()]; }
        i = put_signed(buf, i, actions as i64, Ghost(o), Ghost(c));
        proof { c = c + signed_chunks(actions as int); }
        i = put_chunk(buf, i, " high-confidence items\"".as_bytes(), Ghost(o), Ghost(c));
        proof {
            c = c + seq![" high-confidence items\"".spec_bytes()];
            assert(c =~= c1 + (seq!["\"".spec_bytes()] + signed_chunks(actions as int) + seq![" high-confidence items\"".spec_bytes()]));
        }
    } else {
        assert(c =~= c1 + Seq::<Seq<u8>>::empty());
    }
    let ghost c2 = c;
    if reviews > 0 {
        let ghost c3 = c;
        if actions > 0 {
            i = put_chunk(buf, i, ",".as_bytes(), Ghost(o), Ghost(c));
            proof { c = c + seq![",".spec_bytes()]; }
        }
        assert(c =~= c3 + (if actions > 0 { seq![",".spec_bytes()] } else { Seq::<Seq<u8>>::empty() }));
        i = put_chunk(buf, i, "\"".as_bytes(), Ghost(o), Ghost(c));
        proof { c = c + seq!["\"".spec_bytes()]; }
        i = put_signed(buf, i, reviews as i64, Ghost(o), Ghost(c));
        proof { c = c + signed_chunks(reviews as int); }
        i = put_chunk(buf, i, " borderline moved to needs_human_review\"".as_bytes(), Ghost(o), Ghost(c));
        proof {
            c = c + seq![" borderline moved to needs_human_review\"".spec_bytes()];
            assert(c =~= c2 + ((if actions > 0 { seq![",".spec_bytes()] } else { Seq::<Seq<u8>>::empty() }) + seq!["\"".spec_bytes()]
                + signed_chunks(reviews as int) + seq![" borderline moved to needs_human_review\"".spec_bytes()]));
        }
    } else {
        assert(c =~= c2 + Seq::<Seq<u8>>::empty());
    }
    i = put_chunk(buf, i, "]".as_bytes(), Ghost(o), Ghost(c));
    proof {
        c = c + seq!["]".spec_bytes()];
        assert(c =~= trace_chunks(actions as nat, reviews as nat, none));
        lemma_run_holds(o, buf@, i as int, c);
    }
    i
}

/// Writes the response document; returns its length.
pub fn write_result(out: &mut [u8], actions: &[u8], reviews: &[u8], reason: &[u8], trace: &[u8]) -> (r: usize)
    ensures
        holds_greedy(final(out)@, r as int, result_chunks(actions@, reviews@, reason@, trace@)),
        final(out)@.len() == old(out)@.len(),
{
    let ghost o = out@;
    let ghost mut c = Seq::<Seq<u8>>::empty();
    let mut i = put_chunk(out, 0, "{\"action_items\":[".as_bytes(), Ghost(o), Ghost(c));
    proof { c = c + seq!["{\"action_items\":[".spec_bytes()]; }
    i = put_chunk(out, i, actions, Ghost(o), Ghost(c));
    proof { c = c + seq![actions@]; }
    i = put_chunk(out, i, "],\"needs_human_review\":[".as_bytes(), Ghost(o), Ghost(c));
    proof { c = c + seq!["],\"needs_human_review\":[".spec_bytes()]; }
    i = put_chunk(out, i, reviews, Ghost(o), Ghost(c));
    proof { c = c + seq![reviews@]; }
    i = put_chunk(out, i, "],\"rejected_candidates\":[],\"reason_code\":\"".as_bytes(), Ghost(o), Ghost(c));
    proof { c = c + seq!["],\"rejected_candidates\":[],\"reason_code\":\"".spec_bytes()]; }
    i = put_chunk(out, i, reason, Ghost(o), Ghost(c));
    proof { c = c + seq![reason@]; }
    i = put_chunk(out, i, "\",\"evaluation_trace\":".as_bytes(), Ghost(o), Ghost(c));
    proof { c = c + seq!["\",\"evaluation_trace\":".spec_bytes()]; }
    i = put_chunk(out, i, trace, Ghost(o), Ghost(c));
    proof { c = c + seq![trace@]; }
    i = put_chunk(out, i, "}".as_bytes(), Ghost(o), Ghost(c));
    proof {
        c = c + seq!["}".spec_bytes()];
        assert(c =~= result_chunks(actions@, reviews@, reason@, trace@));
        lemma_run_holds(o, out@, i as int, c);
    }
    i
}

/// Writes the response for a request without notes.
pub fn write_empty_result(out: &mut [u8], reason: &[u8], trace: &[u8]) -> (r: usize)
    ensures
        holds_greedy(final(out)@, r as int, result_chunks(Seq::empty(), Seq::empty(), reason@, trace@)),
        final(out)@.len() == old(out)@.len(),
{
    let empty: &[u8] = &[];
    assert(empty@ =~= Seq::<u8>::empty());
    write_result(out, empty, empty, reason, trace)
}

/// The extraction config object of the request, empty when there is none.
pub open spec fn config_of(input: Seq<u8>) -> Seq<u8> {
    match crate::scan::bracketed_at_depth_spec(input, "\"extraction_config\"".spec_bytes(), 1, 123u8, 125u8) {
        Some(c) => c,
        None => Seq::empty(),
    }
}

/// Whether vague sentences go to review (the default) rather than being
/// read like the others.
pub open spec fn reject_vague_of(input: Seq<u8>) -> bool {
    match crate::scan::extract_bool_spec(config_of(input), "\"reject_vague\"".spec_bytes()) {
        Some(b) => b,
        None => true,
    }
}

/// The participants of the request, as full and first names.
pub open spec fn request_parts(input: Seq<u8>) -> Seq<(Seq<u8>, Seq<u8>)> {
    participant_names(input, 16).map_values(|n: Seq<u8>| (n, first_token_spec(n)))
}

/// The notes of the request.
pub open spec fn notes_of(input: Seq<u8>) -> Seq<u8> {
    crate::scan::extract_string_at_depth_spec(input, "\"text\"".spec_bytes(), 1)
}

/// What the sentences of the request collect.
pub open spec fn request_found(input: Seq<u8>, pl: Placement) -> Found {
    found_over(
        sentences(notes_of(input)),
        request_parts(input),
        crate::scan::extract_string_at_depth_spec(input, "\"meeting_date\"".spec_bytes(), 1),
        reject_vague_of(input),
        pl,
    )
}

/// The chunks of the response to `input`: without notes, none found;
/// else the action items and review items its sentences yield (each list
/// as much as fits its buffer), the reason code and the trace.
pub open spec fn extract_chunks(input: Seq<u8>, pl: Placement) -> Seq<Seq<u8>> {
    if notes_of(input).len() == 0 {
        result_chunks(
            Seq::empty(),
            Seq::empty(),
            "no_action_items_found".spec_bytes(),
            "[\"text missing\"]".spec_bytes(),
        )
    } else {
        let f = request_found(input, pl);
        let none = f.action_count == 0 && f.review_count == 0;
        result_chunks(
            greedy(8192, f.actions),
            greedy(4096, f.reviews),
            if none { "no_action_items_found".spec_bytes() } else { "ok".spec_bytes() },
            greedy(512, trace_chunks(f.action_count, f.review_count, none)),
        )
    }
}

proof fn lemma_extract_keys()
    ensures
        "\"text\"".spec_bytes().len() > 0,
        "\"meeting_date\"".spec_bytes().len() > 0,
        "\"extraction_config\"".spec_bytes().len() > 0,
        "\"reject_vague\"".spec_bytes().len() > 0,
        "no_action_items_found".spec_bytes() != "ok".spec_bytes(),
{
    broadcast use vstd::string::group_string_axioms;
    reveal_strlit("\"text\"");
    reveal_strlit("\"meeting_date\"");
    reveal_strlit("\"extraction_config\"");
    reveal_strlit("\"reject_vague\"");
    reveal_strlit("no_action_items_found");
    reveal_strlit("ok");
    assert(vstd::string::is_ascii("\"text\""));
    assert(vstd::string::is_ascii("\"meeting_date\""));
    assert(vstd::string::is_ascii("\"extraction_config\""));
    assert(vstd::string::is_ascii("\"reject_vague\""));
    assert(vstd::string::is_ascii("no_action_items_found"));
    assert(vstd::string::is_ascii("ok"));
}

/// Runs the sentences through the extraction, filling the action and
/// review buffers; returns where each ends and how many items each got.
#[verifier::spinoff_prover]
fn collect_items(
    sents: &Vec<&[u8]>,
    text: &[u8],
    parts: &[Participant],
    meeting_date: &[u8],
    reject_vague: bool,
    placement: Placement,
    action_buf: &mut [u8],
    review_buf: &mut [u8],
) -> (r: (usize, usize, usize, usize))
    requires
        sents@.len() == sentences(text@).len(),
        sents@.len() <= 32,
        forall|j: int| 0 <= j < sents@.len() ==> (#[trigger] sents@[j])@ == sentences(text@)[j],
    ensures
        ({
            let f = found_over(sentences(text@), name_pairs(parts@), meeting_date@, reject_vague, placement);
            &&& holds_greedy(final(action_buf)@, r.0 as int, f.actions)
            &&& holds_greedy(final(review_buf)@, r.2 as int, f.reviews)
            &&& r.1 == f.action_count
            &&& r.3 == f.review_count
            &&& r.1 + r.3 <= 32
        }),
        final(action_buf)@.len() == old(action_buf)@.len(),
        final(review_buf)@.len() == old(review_buf)@.len(),
{
    let ghost ss = sentences(text@);
    let ghost pairs = name_pairs(parts@);
    let ghost meeting = meeting_date@;
    let ghost ao = action_buf@;
    let ghost ro = review_buf@;
    let mut ai: usize = 0;
    let mut ac: usize = 0;
    let mut ri: usize = 0;
    let mut rc: usize = 0;
    let mut k: usize = 0;
    assert(ss.take(0) =~= Seq::<Seq<u8>>::empty());
    proof {
        reveal(found_over);
    }
    while k < sents.len()
        invariant
            k <= sents@.len(),
            sents@.len() == ss.len(),
            ss.len() <= 32,
            forall|j: int| 0 <= j < sents@.len() ==> (#[trigger] sents@[j])@ == ss[j],
            name_pairs(parts@) == pairs,
            meeting == meeting_date@,
            ({
                let f = found_over(ss.take(k as int), pairs, meeting, reject_vague, placement);
                &&& (action_buf@, ai as int) == copies(ao, 0, f.actions)
                &&& (review_buf@, ri as int) == copies(ro, 0, f.reviews)
                &&& ac == f.action_count
                &&& rc == f.review_count
            }),
            ac + rc <= k,
        decreases sents.len() - k,
    {
        let ghost f = found_over(ss.take(k as int), pairs, meeting, reject_vague, placement);
        let body = sents[k];
        let res = process_sentence(
            body,
            parts,
            meeting_date,
            reject_vague,
            placement,
            action_buf,
            ai,
            ac,
            review_buf,
            ri,
            rc,
            Ghost(ao),
            Ghost(ro),
            Ghost(f),
        );
        proof {
            assert(ss.take(k as int + 1).drop_last() =~= ss.take(k as int));
            assert(ss.take(k as int + 1).last() == body@);
            reveal(found_over);
        }
        ai = res.0;
        ac = res.1;
        ri = res.2;
        rc = res.3;
        k = k + 1;
    }
    assert(ss.take(k as int) =~= ss);
    proof {
        let f = found_over(ss, pairs, meeting, reject_vague, placement);
        lemma_run_holds(ao, action_buf@, ai as int, f.actions);
        lemma_run_holds(ro, review_buf@, ri as int, f.reviews);
    }
    (ai, ac, ri, rc)
}

/// Extracts the action items of the meeting notes in `input` and writes
/// the response document to `out`; returns its length. `placement` says
/// where the request's confidence thresholds put sentences with "will"
/// and with "to".
#[verifier::spinoff_prover]
#[verifier::rlimit(80)]
pub fn extract(input: &[u8], out: &mut [u8]) -> (r: usize)
    requires
        crate::scan::scannable(input@),
    ensures
        holds_greedy(final(out)@, r as int, extract_chunks(input@, placement_spec(config_of(input@)))),
        final(out)@.len() == old(out)@.len(),
{
    proof {
        lemma_extract_keys();
    }
    let text = crate::scan::extract_string_at_depth(input, "\"text\"".as_bytes(), 1);
    let meeting_date = crate::scan::extract_string_at_depth(input, "\"meeting_date\"".as_bytes(), 1);
    let empty: &[u8] = &[];
    assert(empty@ =~= Seq::<u8>::empty());
    let config = match crate::scan::object_after_key_at_depth(input, "\"extraction_config\"".as_bytes(), 1) {
        Some(c) => c,
        None => empty,
    };
    let reject_vague = match crate::scan::extract_bool(config, "\"reject_vague\"".as_bytes()) {
        Some(b) => b,
        None => true,
    };
    let placement = placement_of(config);
    let mut participants = [Participant { full: empty, first: empty }; 16];
    let count = parse_participants(input, &mut participants);
    if text.len() == 0 {
        return write_empty_result(out, "no_action_items_found".as_bytes(), "[\"text missing\"]".as_bytes());
    }
    let sents = split_sentences(text);
    let ps = participants.as_slice();
    let parts = &ps[0..count];
    let ghost pairs = request_parts(input@);
    assert(parts@ =~= participants@.take(count as int));
    assert forall|j: int| 0 <= j < pairs.len() implies #[trigger] name_pairs(parts@)[j] == pairs[j] by {
        assert(parts@[j] == participants@[j]);
    }
    assert(name_pairs(parts@) =~= pairs);
    let mut action_buf = [0u8; 8192];
    let mut review_buf = [0u8; 4096];
    let (ai, ac, ri, rc) = collect_items(&sents, text, parts, meeting_date, reject_vague, placement, &mut action_buf, &mut review_buf);
    let ghost f = request_found(input@, placement);
    let none = ac == 0 && rc == 0;
    let reason = if none { "no_action_items_found".as_bytes() } else { "ok".as_bytes() };
    let mut trace = [0u8; 512];
    let tlen = format_trace(&mut trace, ac, rc, none);
    proof {
        lemma_greedy_len(512, trace_chunks(ac as nat, rc as nat, none));
        lemma_greedy_len(8192, f.actions);
        lemma_greedy_len(4096, f.reviews);
    }
    let tr = trace.as_slice();
    let t = &tr[0..tlen];
    let ab = action_buf.as_slice();
    let a = &ab[0..ai];
    let rb = review_buf.as_slice();
    let rv = &rb[0..ri];
    assert(a@ =~= greedy(8192, f.actions));
    assert(rv@ =~= greedy(4096, f.reviews));
    assert(t@ =~= greedy(512, trace_chunks(ac as nat, rc as nat, none)));
    write_result(out, a, rv, reason, t)
}

/// The object value of `key` at the top level of `hay`.
pub fn object_after_key<'a>(hay: &'a [u8], key: &[u8]) -> (r: Option<&'a [u8]>)
    requires
        crate::scan::scannable(hay@),
        key@.len() > 0,
    ensures
        match r {
            Some(v) => crate::scan::bracketed_at_depth_spec(hay@, key@, 1, 123u8, 125u8) == Some(v@),
            None => crate::scan::bracketed_at_depth_spec(hay@, key@, 1, 123u8, 125u8) is None,
        },
{
    crate::scan::object_after_key_at_depth(hay, key, 1)
}

/// The array value of `key` at the top level of `hay`.
pub fn json_array_after_key<'a>(hay: &'a [u8], key: &[u8]) -> (r: Option<&'a [u8]>)
    requires
        crate::scan::scannable(hay@),
        key@.len() > 0,
    ensures
        match r {
            Some(v) => crate::scan::bracketed_at_depth_spec(hay@, key@, 1, 91u8, 93u8) == Some(v@),
            None => crate::scan::bracketed_at_depth_spec(hay@, key@, 1, 91u8, 93u8) is None,
        },
{
    crate::scan::array_after_key_at_depth(hay, key, 1)
}

/// Where one sentence goes: a vague one (when those are rejected) to
/// review; one that names a participant and assigns work with " will "
/// (confidence 0.93) or else " to " (0.88) where the placement puts that
/// confidence; any other nowhere.
pub open spec fn sentence_tier(
    body: Seq<u8>,
    parts: Seq<(Seq<u8>, Seq<u8>)>,
    reject_vague: bool,
    pl: Placement,
) -> Tier {
    if body.len() == 0 {
        Tier::Drop
    } else if reject_vague && vague(body) {
        Tier::Review
    } else {
        match owner_from(body, pair_firsts(parts), 0) {
            None => Tier::Drop,
            Some(_) => if mentions(body, " will ".spec_bytes()) {
                pl.will
            } else if mentions(body, " to ".spec_bytes()) {
                pl.to
            } else {
                Tier::Drop
            },
        }
    }
}

/// How many of the sentences go to tier `t`.
pub open spec fn tier_count(
    sents: Seq<Seq<u8>>,
    parts: Seq<(Seq<u8>, Seq<u8>)>,
    reject_vague: bool,
    pl: Placement,
    t: Tier,
) -> nat
    decreases sents.len(),
{
    if sents.len() == 0 {
        0
    } else {
        tier_count(sents.drop_last(), parts, reject_vague, pl, t) + if sentence_tier(
            sents.last(),
            parts,
            reject_vague,
            pl,
        ) == t {
            1nat
        } else {
            0nat
        }
    }
}

/// Each sentence yields at most one item: the action items are one per
/// sentence that goes to `Action`, the review items one per sentence that
/// goes to `Review`, and the others yield nothing.
pub proof fn lemma_items_per_sentence(
    sents: Seq<Seq<u8>>,
    parts: Seq<(Seq<u8>, Seq<u8>)>,
    meeting: Seq<u8>,
    reject_vague: bool,
    pl: Placement,
)
    ensures
        found_over(sents, parts, meeting, reject_vague, pl).action_count == tier_count(
            sents,
            parts,
            reject_vague,
            pl,
            Tier::Action,
        ),
        found_over(sents, parts, meeting, reject_vague, pl).review_count == tier_count(
            sents,
            parts,
            reject_vague,
            pl,
            Tier::Review,
        ),
    decreases sents.len(),
{
    reveal(found_over);
    if sents.len() > 0 {
        lemma_items_per_sentence(sents.drop_last(), parts, meeting, reject_vague, pl);
    }
}

/// A request with notes is answered `ok` exactly when some sentence of its
/// notes goes to `Action` or `Review` under the placement its config asks
/// for (a confidence at or above `min_confidence` to the action items, else
/// at or above `review_threshold` to review); otherwise, and without notes,
/// it is answered `no_action_items_found`.
pub proof fn lemma_extract_reason(input: Seq<u8>)
    ensures
        ({
            let pl = placement_spec(config_of(input));
            let sents = sentences(notes_of(input));
            let parts = request_parts(input);
            let rv = reject_vague_of(input);
            let emitted = tier_count(sents, parts, rv, pl, Tier::Action) + tier_count(sents, parts, rv, pl, Tier::Review) > 0;
            &&& extract_chunks(input, pl)[5] == (if notes_of(input).len() > 0 && emitted {
                "ok".spec_bytes()
            } else {
                "no_action_items_found".spec_bytes()
            })
            &&& pl.will == tier_spec(
                930,
                threshold_of(config_of(input), "\"min_confidence\"".spec_bytes(), 750),
                threshold_of(config_of(input), "\"review_threshold\"".spec_bytes(), 550),
            )
            &&& pl.to == tier_spec(
                880,
                threshold_of(config_of(input), "\"min_confidence\"".spec_bytes(), 750),
                threshold_of(config_of(input), "\"review_threshold\"".spec_bytes(), 550),
            )
        }),
{
    let pl = placement_spec(config_of(input));
    lemma_items_per_sentence(
        sentences(notes_of(input)),
        request_parts(input),
        crate::scan::extract_string_at_depth_spec(input, "\"meeting_date\"".spec_bytes(), 1),
        reject_vague_of(input),
        pl,
    );
}

} // verus!
