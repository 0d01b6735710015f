//! Meeting notes: the transcript is cut into lines at newlines and full
//! stops, and each line with an action, decision or follow-up keyword is
//! collected, with the owner and due date read from the words around it.
use vstd::prelude::*;
use crate::doc_analysis::{
    capitalized, capitalized_chars, chars_of, find_text, split_words, trim_word, whitespace_char, words_of,
};
use crate::emit::{decimal, decimal_digits};
use crate::validators::{alphanumeric, is_alphanumeric};
use crate::doc_analysis::is_space;

verus! {

/// The capitalized first word of a line, without the characters that are
/// not alphanumeric at its ends.
pub open spec fn leading_name_spec(line: Seq<char>) -> Option<Seq<char>> {
    let ws = words_of(line);
    if ws.len() == 0 {
        None
    } else {
        let t = crate::doc_analysis::trimmed(ws[0]);
        if capitalized(t) { Some(t) } else { None }
    }
}

/// Appends the characters of `t` to `s`.
pub fn push_chars(s: &mut String, t: &[char])
    ensures
        final(s)@ == old(s)@ + t@,
{
    let ghost pre = s@;
    let mut k: usize = 0;
    while k < t.len()
        invariant
            k <= t@.len(),
            s@ == pre + t@.take(k as int),
        decreases t@.len() - k,
    {
        s.push(t[k]);
        k = k + 1;
        assert(s@ =~= pre + t@.take(k as int));
    }
    assert(t@.take(k as int) =~= t@);
}

/// The owner a line names: its first word, when capitalized.
pub fn leading_name(line: &str) -> (r: Option<String>)
    ensures
        match leading_name_spec(line@) {
            Some(n) => r is Some && r->0@ == n,
            None => r is None,
        },
{
    let cs = chars_of(line);
    leading_name_of(&cs)
}

/// The owner the line `cs` names.
fn leading_name_of(cs: &Vec<char>) -> (r: Option<String>)
    ensures
        match leading_name_spec(cs@) {
            Some(n) => r is Some && r->0@ == n,
            None => r is None,
        },
{
    let words = split_words(cs);
    if words.len() == 0 {
        return None;
    }
    proof {
        assert(words@.map_values(|w: Vec<char>| w@)[0] == words@[0]@);
    }
    let t = trim_word(words[0].as_slice());
    if capitalized_chars(t) {
        let mut s = String::new();
        push_chars(&mut s, t);
        assert(s@ =~= t@);
        Some(s)
    } else {
        None
    }
}

/// A character that may stay at the ends of a due date.
pub open spec fn due_char(c: char) -> bool {
    alphanumeric(c) || c == '-'
}

/// The number of leading characters of `w` that cannot end a due date.
pub open spec fn lead_due_junk(w: Seq<char>) -> nat
    decreases w.len(),
{
    if w.len() > 0 && !due_char(w[0]) { 1 + lead_due_junk(w.drop_first()) } else { 0 }
}

/// The number of trailing characters of `w` that cannot end a due date.
pub open spec fn trail_due_junk(w: Seq<char>) -> nat
    decreases w.len(),
{
    if w.len() > 0 && !due_char(w.last()) { 1 + trail_due_junk(w.drop_last()) } else { 0 }
}

/// `w` without the characters that cannot end a due date at either end.
pub open spec fn due_trimmed(w: Seq<char>) -> Seq<char> {
    let a = w.skip(lead_due_junk(w) as int);
    a.take(a.len() - trail_due_junk(a))
}

/// `c` with an ASCII capital letter lowered.
pub open spec fn ascii_lower_char(c: char) -> char {
    if 'A' <= c <= 'Z' { ((c as u32) + 32) as char } else { c }
}

/// The word is `by` in any ASCII case.
pub open spec fn is_by(w: Seq<char>) -> bool {
    w.len() == 2 && ascii_lower_char(w[0]) == 'b' && ascii_lower_char(w[1]) == 'y'
}

/// The first non-empty due date after a `by` among the words `ws`, from
/// index `i` on.
pub open spec fn due_from(ws: Seq<Seq<char>>, i: int) -> Option<Seq<char>>
    decreases ws.len() - i,
{
    if i < 0 || i >= ws.len() {
        None
    } else if is_by(ws[i]) && i + 1 < ws.len() && due_trimmed(ws[i + 1]).len() > 0 {
        Some(due_trimmed(ws[i + 1]))
    } else {
        due_from(ws, i + 1)
    }
}

/// The due date a line gives: the word after the first `by` that leaves
/// something once trimmed.
pub open spec fn find_due_spec(line: Seq<char>) -> Option<Seq<char>> {
    due_from(words_of(line), 0)
}

proof fn lemma_trail_due_junk(w: Seq<char>)
    ensures
        trail_due_junk(w) <= w.len(),
    decreases w.len(),
{
    if w.len() > 0 && !due_char(w.last()) {
        lemma_trail_due_junk(w.drop_last());
    }
}

/// `w` without the characters that cannot end a due date at either end.
fn trim_due(w: &[char]) -> (r: &[char])
    ensures
        r@ == due_trimmed(w@),
{
    let mut a: usize = 0;
    assert(w@.skip(0) =~= w@);
    while a < w.len() && !(is_alphanumeric(w[a]) || w[a] == '-')
        invariant
            a <= w@.len(),
            lead_due_junk(w@) == a + lead_due_junk(w@.skip(a as int)),
        decreases w@.len() - a,
    {
        assert(w@.skip(a as int).drop_first() =~= w@.skip(a as int + 1));
        a = a + 1;
    }
    let rest = &w[a..w.len()];
    assert(rest@ =~= w@.skip(a as int));
    let mut b: usize = rest.len();
    assert(rest@.take(b as int) =~= rest@);
    while b > 0 && !(is_alphanumeric(rest[b - 1]) || rest[b - 1] == '-')
        invariant
            b <= rest@.len(),
            trail_due_junk(rest@) == (rest@.len() - b) + trail_due_junk(rest@.take(b as int)),
        decreases b,
    {
        assert(rest@.take(b as int).drop_last() =~= rest@.take(b - 1));
        b = b - 1;
    }
    proof {
        lemma_trail_due_junk(rest@.take(b as int));
    }
    let r = &rest[0..b];
    assert(r@ =~= rest@.take(b as int));
    r
}

/// `c` with an ASCII capital letter lowered.
pub fn to_ascii_lower(c: char) -> (r: char)
    ensures
        r == ascii_lower_char(c),
{
    if 'A' <= c && c <= 'Z' {
        let v = (c as u8) + 32;
        v as char
    } else {
        c
    }
}

/// The due date a line gives, if any.
pub fn find_due(line: &str) -> (r: Option<String>)
    ensures
        match find_due_spec(line@) {
            Some(d) => r is Some && r->0@ == d,
            None => r is None,
        },
{
    let cs = chars_of(line);
    find_due_of(&cs)
}

/// The due date the line `cs` gives, if any.
fn find_due_of(cs: &Vec<char>) -> (r: Option<String>)
    ensures
        match find_due_spec(cs@) {
            Some(d) => r is Some && r->0@ == d,
            None => r is None,
        },
{
    let words = split_words(cs);
    let ghost ws = words@.map_values(|w: Vec<char>| w@);
    let mut i: usize = 0;
    while i < words.len()
        invariant
            ws == words@.map_values(|w: Vec<char>| w@),
            ws == words_of(cs@),
            i <= words@.len(),
            find_due_spec(cs@) == due_from(ws, i as int),
        decreases words@.len() - i,
    {
        let w = words[i].as_slice();
        assert(w@ == ws[i as int]);
        let by = w.len() == 2 && to_ascii_lower(w[0]) == 'b' && to_ascii_lower(w[1]) == 'y';
        if by && i + 1 < words.len() {
            let d = trim_due(words[i + 1].as_slice());
            assert(words[i + 1 as int]@ == ws[i + 1]);
            if d.len() > 0 {
                let mut s = String::new();
                push_chars(&mut s, d);
                assert(s@ =~= d@);
                return Some(s);
            }
        }
        i = i + 1;
    }
    None
}


/// A character that ends a transcript line.
pub open spec fn line_break(c: char) -> bool {
    c == '\n' || c == '.'
}

/// The number of leading whitespace characters of `w`.
pub open spec fn lead_space(w: Seq<char>) -> nat
    decreases w.len(),
{
    if w.len() > 0 && whitespace_char(w[0]) { 1 + lead_space(w.drop_first()) } else { 0 }
}

/// The number of trailing whitespace characters of `w`.
pub open spec fn trail_space(w: Seq<char>) -> nat
    decreases w.len(),
{
    if w.len() > 0 && whitespace_char(w.last()) { 1 + trail_space(w.drop_last()) } else { 0 }
}

/// `w` without whitespace at either end.
pub open spec fn trim_line(w: Seq<char>) -> Seq<char> {
    let a = w.skip(lead_space(w) as int);
    a.take(a.len() - trail_space(a))
}

/// `s` with its ASCII capital letters lowered.
pub open spec fn lower_line(s: Seq<char>) -> Seq<char> {
    s.map_values(|c: char| ascii_lower_char(c))
}

/// The line mentions an action.
pub open spec fn action_line(l: Seq<char>) -> bool {
    crate::doc_analysis::has_text(l, "will "@) || crate::doc_analysis::has_text(l, "todo"@)
        || crate::doc_analysis::has_text(l, "to-do"@) || crate::doc_analysis::has_text(l, "action item"@)
}

/// The line records a decision.
pub open spec fn decision_line(l: Seq<char>) -> bool {
    crate::doc_analysis::has_text(l, "decided"@) || crate::doc_analysis::has_text(l, "decision"@)
        || crate::doc_analysis::has_text(l, "agreed"@)
}

/// The line asks for a follow-up.
pub open spec fn follow_up_line(l: Seq<char>) -> bool {
    crate::doc_analysis::has_text(l, "follow up"@) || crate::doc_analysis::has_text(l, "follow-up"@)
        || crate::doc_analysis::has_text(l, "next step"@)
}

/// What the notes gather: the action items (task, owner, due date), the
/// decisions (text, who made them), the follow-ups, and the number of
/// non-empty lines.
pub ghost struct NotesView {
    pub actions: Seq<(Seq<char>, Option<Seq<char>>, Option<Seq<char>>)>,
    pub decisions: Seq<(Seq<char>, Option<Seq<char>>)>,
    pub follow_ups: Seq<Seq<char>>,
    pub lines: nat,
}

/// The notes after one more piece of the transcript.
pub open spec fn note_step(v: NotesView, piece: Seq<char>) -> NotesView {
    let line = trim_line(piece);
    if line.len() == 0 {
        v
    } else {
        let l = lower_line(line);
        let counted = NotesView { lines: v.lines + 1, ..v };
        if action_line(l) {
            NotesView {
                actions: v.actions.push((line, leading_name_spec(line), find_due_spec(line))),
                ..counted
            }
        } else if decision_line(l) {
            NotesView { decisions: v.decisions.push((line, leading_name_spec(line))), ..counted }
        } else if follow_up_line(l) {
            NotesView { follow_ups: v.follow_ups.push(line), ..counted }
        } else {
            counted
        }
    }
}

/// The notes over the transcript `s` from index `i` on, `cur` being the
/// line in progress: each newline or full stop ends a line.
pub open spec fn notes_scan(s: Seq<char>, i: int, cur: Seq<char>, v: NotesView) -> NotesView
    decreases s.len() - i,
{
    if i < 0 || i >= s.len() {
        note_step(v, cur)
    } else if line_break(s[i]) {
        notes_scan(s, i + 1, Seq::empty(), note_step(v, cur))
    } else {
        notes_scan(s, i + 1, cur.push(s[i]), v)
    }
}

/// The notes before any line.
pub open spec fn no_notes() -> NotesView {
    NotesView { actions: Seq::empty(), decisions: Seq::empty(), follow_ups: Seq::empty(), lines: 0 }
}

/// The notes of a transcript.
pub open spec fn notes_spec(transcript: Seq<char>) -> NotesView {
    notes_scan(transcript, 0, Seq::empty(), no_notes())
}

/// The decimal spelling of `n` as characters.
pub open spec fn decimal_chars(n: nat) -> Seq<char> {
    decimal(n).map_values(|b: u8| b as char)
}

/// The plural ending `ending` unless there is exactly one.
pub open spec fn plural(n: nat, ending: Seq<char>) -> Seq<char> {
    if n == 1 { Seq::empty() } else { ending }
}

/// The summary sentence.
pub open spec fn summary_spec(actions: nat, decisions: nat, follow_ups: nat, lines: nat) -> Seq<char> {
    decimal_chars(actions) + " action item"@ + plural(actions, "s"@) + ", "@ + decimal_chars(decisions)
        + " decision"@ + plural(decisions, "s"@) + ", and "@ + decimal_chars(follow_ups) + " follow-up"@ + plural(
        follow_ups,
        "s"@,
    ) + " identified from "@ + decimal_chars(lines) + " line"@ + plural(lines, "s"@) + " of transcript."@
}

/// An action item of the notes.
pub struct ActionNote {
    pub task: String,
    pub owner: Option<String>,
    pub due: Option<String>,
}

/// A decision of the notes.
pub struct DecisionNote {
    pub text: String,
    pub made_by: Option<String>,
}

/// The notes of a meeting.
pub struct MeetingNotes {
    pub action_items: Vec<ActionNote>,
    pub decisions: Vec<DecisionNote>,
    pub follow_ups: Vec<String>,
    pub summary: String,
}

pub open spec fn opt_view(o: Option<String>) -> Option<Seq<char>> {
    match o {
        Some(s) => Some(s@),
        None => None,
    }
}

pub open spec fn action_view(a: ActionNote) -> (Seq<char>, Option<Seq<char>>, Option<Seq<char>>) {
    (a.task@, opt_view(a.owner), opt_view(a.due))
}

pub open spec fn decision_view(d: DecisionNote) -> (Seq<char>, Option<Seq<char>>) {
    (d.text@, opt_view(d.made_by))
}


/// What the scan over the transcript has gathered so far.
struct Gathered {
    actions: Vec<ActionNote>,
    decisions: Vec<DecisionNote>,
    follow_ups: Vec<String>,
    lines: usize,
}

spec fn gathered_view(g: Gathered) -> NotesView {
    NotesView {
        actions: g.actions@.map_values(|a: ActionNote| action_view(a)),
        decisions: g.decisions@.map_values(|d: DecisionNote| decision_view(d)),
        follow_ups: g.follow_ups@.map_values(|f: String| f@),
        lines: g.lines as nat,
    }
}

proof fn lemma_trail_space(w: Seq<char>)
    ensures
        trail_space(w) <= w.len(),
    decreases w.len(),
{
    if w.len() > 0 && whitespace_char(w.last()) {
        lemma_trail_space(w.drop_last());
    }
}

/// `w` without whitespace at either end.
fn trim_chars(w: &[char]) -> (r: Vec<char>)
    ensures
        r@ == trim_line(w@),
{
    let mut a: usize = 0;
    assert(w@.skip(0) =~= w@);
    while a < w.len() && is_space(w[a])
        invariant
            a <= w@.len(),
            lead_space(w@) == a + lead_space(w@.skip(a as int)),
        decreases w@.len() - a,
    {
        assert(w@.skip(a as int).drop_first() =~= w@.skip(a as int + 1));
        a = a + 1;
    }
    let rest = &w[a..w.len()];
    assert(rest@ =~= w@.skip(a as int));
    let mut b: usize = rest.len();
    assert(rest@.take(b as int) =~= rest@);
    while b > 0 && is_space(rest[b - 1])
        invariant
            b <= rest@.len(),
            trail_space(rest@) == (rest@.len() - b) + trail_space(rest@.take(b as int)),
        decreases b,
    {
        assert(rest@.take(b as int).drop_last() =~= rest@.take(b - 1));
        b = b - 1;
    }
    proof {
        lemma_trail_space(rest@.take(b as int));
    }
    let mut v: Vec<char> = Vec::new();
    let mut k: usize = 0;
    while k < b
        invariant
            b <= rest@.len(),
            k <= b,
            v@ == rest@.take(k as int),
        decreases b - k,
    {
        v.push(rest[k]);
        k = k + 1;
        assert(v@ =~= rest@.take(k as int));
    }
    v
}

/// `s` with its ASCII capital letters lowered.
fn lower_chars(s: &Vec<char>) -> (r: Vec<char>)
    ensures
        r@ == lower_line(s@),
{
    let mut v: Vec<char> = Vec::new();
    let mut k: usize = 0;
    while k < s.len()
        invariant
            k <= s@.len(),
            v@ == s@.take(k as int).map_values(|c: char| ascii_lower_char(c)),
        decreases s@.len() - k,
    {
        v.push(to_ascii_lower(s[k]));
        k = k + 1;
        assert(v@ =~= s@.take(k as int).map_values(|c: char| ascii_lower_char(c)));
    }
    assert(s@.take(k as int) =~= s@);
    v
}

/// The characters `cs` as a string.
fn string_of(cs: &Vec<char>) -> (r: String)
    ensures
        r@ == cs@,
{
    let mut s = String::new();
    push_chars(&mut s, cs.as_slice());
    assert(s@ =~= cs@);
    s
}

/// Takes one more line of the transcript into the notes.
fn take_line(g: &mut Gathered, piece: &Vec<char>)
    requires
        old(g).lines < usize::MAX || piece@.len() == 0,
    ensures
        gathered_view(*final(g)) == note_step(gathered_view(*old(g)), piece@),
        final(g).lines <= old(g).lines + piece@.len(),
{
    let line = trim_chars(piece.as_slice());
    proof {
        lemma_trim_len(piece@);
    }
    if line.len() == 0 {
        return;
    }
    let ghost v = gathered_view(*g);
    g.lines = g.lines + 1;
    let l = lower_chars(&line);
    if find_text(&l, "will ") || find_text(&l, "todo") || find_text(&l, "to-do") || find_text(&l, "action item") {
        let note = ActionNote { task: string_of(&line), owner: leading_name_of(&line), due: find_due_of(&line) };
        let ghost nv = action_view(note);
        g.actions.push(note);
        assert(g.actions@.map_values(|a: ActionNote| action_view(a)) =~= v.actions.push(nv));
    } else if find_text(&l, "decided") || find_text(&l, "decision") || find_text(&l, "agreed") {
        let note = DecisionNote { text: string_of(&line), made_by: leading_name_of(&line) };
        let ghost nv = decision_view(note);
        g.decisions.push(note);
        assert(g.decisions@.map_values(|d: DecisionNote| decision_view(d)) =~= v.decisions.push(nv));
    } else if find_text(&l, "follow up") || find_text(&l, "follow-up") || find_text(&l, "next step") {
        let f = string_of(&line);
        let ghost fv = f@;
        g.follow_ups.push(f);
        assert(g.follow_ups@.map_values(|t: String| t@) =~= v.follow_ups.push(fv));
    }
}

proof fn lemma_lead_space(w: Seq<char>)
    ensures
        lead_space(w) <= w.len(),
    decreases w.len(),
{
    if w.len() > 0 && whitespace_char(w[0]) {
        lemma_lead_space(w.drop_first());
    }
}

proof fn lemma_trim_len(w: Seq<char>)
    ensures
        trim_line(w).len() <= w.len(),
{
    lemma_lead_space(w);
    let a = w.skip(lead_space(w) as int);
    lemma_trail_space(a);
}

/// Appends the characters of `t` to `s`.
fn push_text(s: &mut String, t: &str)
    ensures
        final(s)@ == old(s)@ + t@,
{
    let cs = chars_of(t);
    push_chars(s, cs.as_slice());
}

/// Appends the decimal spelling of `n` to `s`.
fn push_count(s: &mut String, n: usize)
    ensures
        final(s)@ == old(s)@ + decimal_chars(n as nat),
{
    let ds = decimal_digits(n as u64);
    let ghost pre = s@;
    let mut k: usize = 0;
    while k < ds.len()
        invariant
            k <= ds@.len(),
            ds@ == decimal(n as nat),
            s@ == pre + ds@.take(k as int).map_values(|b: u8| b as char),
        decreases ds@.len() - k,
    {
        s.push(ds[k] as char);
        k = k + 1;
        assert(s@ =~= pre + ds@.take(k as int).map_values(|b: u8| b as char));
    }
    assert(ds@.take(k as int) =~= ds@);
}

/// Appends the plural ending `ending` unless `n` is one.
fn push_plural(s: &mut String, n: usize, ending: &str)
    ensures
        final(s)@ == old(s)@ + plural(n as nat, ending@),
{
    if n != 1 {
        push_text(s, ending);
    } else {
        assert(old(s)@ + plural(n as nat, ending@) =~= old(s)@);
    }
}

/// The summary sentence of the notes.
pub fn summary(actions: usize, decisions: usize, follow_ups: usize, lines: usize) -> (r: String)
    ensures
        r@ == summary_spec(actions as nat, decisions as nat, follow_ups as nat, lines as nat),
{
    let mut s = String::new();
    push_count(&mut s, actions);
    push_text(&mut s, " action item");
    push_plural(&mut s, actions, "s");
    push_text(&mut s, ", ");
    push_count(&mut s, decisions);
    push_text(&mut s, " decision");
    push_plural(&mut s, decisions, "s");
    push_text(&mut s, ", and ");
    push_count(&mut s, follow_ups);
    push_text(&mut s, " follow-up");
    push_plural(&mut s, follow_ups, "s");
    push_text(&mut s, " identified from ");
    push_count(&mut s, lines);
    push_text(&mut s, " line");
    push_plural(&mut s, lines, "s");
    push_text(&mut s, " of transcript.");
    assert(s@ =~= summary_spec(actions as nat, decisions as nat, follow_ups as nat, lines as nat));
    s
}

/// The notes of a meeting transcript, with the summary sentence.
pub fn process(transcript: &str) -> (r: MeetingNotes)
    ensures
        r.action_items@.map_values(|a: ActionNote| action_view(a)) == notes_spec(transcript@).actions,
        r.decisions@.map_values(|d: DecisionNote| decision_view(d)) == notes_spec(transcript@).decisions,
        r.follow_ups@.map_values(|f: String| f@) == notes_spec(transcript@).follow_ups,
        r.summary@ == summary_spec(
            notes_spec(transcript@).actions.len(),
            notes_spec(transcript@).decisions.len(),
            notes_spec(transcript@).follow_ups.len(),
            notes_spec(transcript@).lines,
        ),
{
    let cs = chars_of(transcript);
    let mut g = Gathered { actions: Vec::new(), decisions: Vec::new(), follow_ups: Vec::new(), lines: 0 };
    assert(g.actions@.map_values(|a: ActionNote| action_view(a)) =~= Seq::empty());
    assert(g.decisions@.map_values(|d: DecisionNote| decision_view(d)) =~= Seq::empty());
    assert(g.follow_ups@.map_values(|f: String| f@) =~= Seq::empty());
    assert(gathered_view(g) == no_notes());
    let mut cur: Vec<char> = Vec::new();
    let mut i: usize = 0;
    while i < cs.len()
        invariant
            cs@ == transcript@,
            i <= cs@.len(),
            notes_spec(transcript@) == notes_scan(cs@, i as int, cur@, gathered_view(g)),
            g.lines + cur@.len() <= i,
        decreases cs@.len() - i,
    {
        let c = cs[i];
        if c == '\n' || c == '.' {
            take_line(&mut g, &cur);
            cur = Vec::new();
            assert(cur@ =~= Seq::<char>::empty());
        } else {
            cur.push(c);
        }
        i = i + 1;
    }
    take_line(&mut g, &cur);
    let text = summary(g.actions.len(), g.decisions.len(), g.follow_ups.len(), g.lines);
    MeetingNotes { action_items: g.actions, decisions: g.decisions, follow_ups: g.follow_ups, summary: text }
}

} // verus!
