//! Team action health: over the open items of a team, how many there are,
//! how many are overdue, the share on track, the owners with more than one
//! open item and the two items under the most pressure.
use vstd::prelude::*;
use vstd::string::StringSliceAdditionalSpecFns;
use crate::emit::{byte_chunks, copies, decimal, holds_greedy, lemma_run_holds, put_chunk, put_signed, signed_chunks};
use crate::followup::{lex_less, pad3};
use crate::scan::{
    balanced_spec, bracketed_at_depth_spec, extract_string, extract_string_at_depth, extract_string_at_depth_spec,
    extract_string_spec, find_spec, index_of, is_digit, scannable, skip_ws_spec, ws_comma_len,
};

verus! {

/// The statuses that count an item as open.
pub open spec fn open_status(s: Seq<u8>) -> bool {
    s == "open".spec_bytes() || s == "in_progress".spec_bytes() || s == "blocked".spec_bytes() || s
        == "snoozed".spec_bytes()
}

/// The state of reading a pressure score: the whole part, up to three
/// fraction digits and how many, and whether a point was seen.
pub ghost struct ScoreRead {
    pub whole: int,
    pub frac: int,
    pub digits: int,
    pub dot: bool,
}

/// The read of `s` from `i` on: a comma, a closing bracket, a space or a
/// newline ends it, a point switches to the fraction (fraction digits past
/// the third are passed over), a digit accumulates, anything else ends it.
pub open spec fn score_read(s: Seq<u8>, i: int, st: ScoreRead) -> ScoreRead
    decreases s.len() - i,
{
    if i < 0 || i >= s.len() {
        st
    } else {
        let b = s[i];
        if b == 44u8 || b == 125u8 || b == 93u8 || b == 32u8 || b == 10u8 {
            st
        } else if b == 46u8 {
            score_read(s, i + 1, ScoreRead { dot: true, ..st })
        } else if !is_digit(b) {
            st
        } else {
            let d = (b - 48) as int;
            if st.dot {
                if st.digits < 3 {
                    score_read(s, i + 1, ScoreRead { frac: st.frac * 10 + d, digits: st.digits + 1, ..st })
                } else {
                    score_read(s, i + 1, st)
                }
            } else {
                score_read(s, i + 1, ScoreRead { whole: st.whole * 10 + d, ..st })
            }
        }
    }
}

/// The pressure score of an item in thousandths (0 when it has none).
pub open spec fn score_spec(item: Seq<u8>) -> int {
    let key = "\"pressure_score\"".spec_bytes();
    match find_spec(item, key) {
        Some(p) => match index_of(item.skip(p + key.len()), 58u8) {
            Some(c) => {
                let rest = skip_ws_spec(item.skip(p + key.len()).skip(c + 1));
                if rest.len() == 0 {
                    0
                } else {
                    let st = score_read(rest, 0, ScoreRead { whole: 0, frac: 0, digits: 0, dot: false });
                    st.whole * 1000 + st.frac * pad3(st.digits)
                }
            },
            None => 0,
        },
        None => 0,
    }
}

/// What the walk over the items has gathered: counts, the owners with their
/// open counts (in order of first appearance), the two top pressure slots
/// (an empty id is an empty slot), and whether every score read fits a
/// `u32`.
pub ghost struct Tally {
    pub total: int,
    pub overdue: int,
    pub on_track: int,
    pub owners: Seq<(Seq<u8>, int)>,
    pub top: (Seq<u8>, int),
    pub second: (Seq<u8>, int),
    pub fits: bool,
}

/// The index of `owner` among `owners`, from `k` on.
pub open spec fn owner_index(owners: Seq<(Seq<u8>, int)>, owner: Seq<u8>, k: int) -> Option<int>
    decreases owners.len() - k,
{
    if k < 0 || k >= owners.len() {
        None
    } else if owners[k].0 == owner {
        Some(k)
    } else {
        owner_index(owners, owner, k + 1)
    }
}

/// One more open item for `owner` (ids over 64 bytes are not counted; at
/// most 64 owners are kept).
pub open spec fn bump(owners: Seq<(Seq<u8>, int)>, owner: Seq<u8>) -> Seq<(Seq<u8>, int)> {
    if owner.len() > 64 {
        owners
    } else {
        match owner_index(owners, owner, 0) {
            Some(k) => owners.update(k, (owner, owners[k].1 + 1)),
            None => if owners.len() >= 64 {
                owners
            } else {
                owners.push((owner, 1))
            },
        }
    }
}

/// The score `s` for `id` beats the slot `slot`: the slot is empty, or the
/// score is higher, or equal with an id that comes first.
pub open spec fn beats(id: Seq<u8>, s: int, slot: (Seq<u8>, int)) -> bool {
    slot.0.len() == 0 || s > slot.1 || (s == slot.1 && lex_less(id, slot.0))
}

/// The two top slots after an item `id` with score `s` (ids over 64 bytes
/// are not ranked).
pub open spec fn rank(top: (Seq<u8>, int), second: (Seq<u8>, int), id: Seq<u8>, s: int) -> (
    (Seq<u8>, int),
    (Seq<u8>, int),
) {
    if id.len() > 64 {
        (top, second)
    } else if beats(id, s, top) {
        ((id, s), top)
    } else if beats(id, s, second) {
        (top, (id, s))
    } else {
        (top, second)
    }
}

/// The walk's state after one more item.
pub open spec fn step(t: Tally, item: Seq<u8>, reference: Seq<u8>) -> Tally {
    let status = extract_string_spec(item, "\"status\"".spec_bytes());
    if !open_status(status) {
        t
    } else {
        let due = extract_string_spec(item, "\"due_date\"".spec_bytes());
        let overdue = due.len() > 0 && lex_less(due, reference);
        let owner = extract_string_spec(item, "\"owner_id\"".spec_bytes());
        let id = extract_string_spec(item, "\"id\"".spec_bytes());
        let s = score_spec(item);
        let counted = Tally {
            total: t.total + 1,
            overdue: if overdue { t.overdue + 1 } else { t.overdue },
            on_track: if overdue { t.on_track } else { t.on_track + 1 },
            owners: if owner.len() > 0 { bump(t.owners, owner) } else { t.owners },
            ..t
        };
        if id.len() == 0 {
            counted
        } else {
            let (top, second) = rank(t.top, t.second, id, s);
            Tally { top, second, fits: t.fits && s <= u32::MAX, ..counted }
        }
    }
}

/// The walk over the list `items` from index `pos` on: separators are
/// passed over, each object is one item, and anything else ends the walk.
pub open spec fn team_scan(items: Seq<u8>, pos: int, reference: Seq<u8>, t: Tally) -> Tally
    decreases items.len() - pos,
{
    if pos < 0 || pos >= items.len() {
        t
    } else {
        let p = pos + ws_comma_len(items.skip(pos)) as int;
        if p >= items.len() || items[p] != 123u8 {
            t
        } else {
            match balanced_spec(items.skip(p), 123u8, 125u8) {
                Some(end) => if 0 <= end && p + end < items.len() {
                    team_scan(items, p + end + 1, reference, step(t, items.subrange(p, p + end + 1), reference))
                } else {
                    t
                },
                None => t,
            }
        }
    }
}

/// The state before any item.
pub open spec fn empty_tally() -> Tally {
    Tally {
        total: 0,
        overdue: 0,
        on_track: 0,
        owners: Seq::empty(),
        top: (Seq::empty(), 0),
        second: (Seq::empty(), 0),
        fits: true,
    }
}

/// The list of items of the request (`[]` when it has none).
pub open spec fn items_of(input: Seq<u8>) -> Seq<u8> {
    match bracketed_at_depth_spec(input, "\"items\"".spec_bytes(), 1, 91u8, 93u8) {
        Some(v) => v,
        None => seq![91u8, 93u8],
    }
}

/// The tally of the open items of the request in `input`.
pub open spec fn team_tally(input: Seq<u8>) -> Tally {
    team_scan(items_of(input), 1, extract_string_at_depth_spec(input, "\"reference_date\"".spec_bytes(), 1), empty_tally())
}

/// The request can be answered without overflow: every pressure score read
/// fits a `u32`, and so does a thousand times the on-track count.
pub open spec fn health_fits(input: Seq<u8>) -> bool {
    team_tally(input).fits && team_tally(input).on_track * 1000 <= u32::MAX
}

/// The share of open items on track, in percent with one decimal (`0` when
/// there is none).
pub open spec fn pct_text(on_track: int, total: int) -> Seq<u8> {
    if total == 0 {
        seq![48u8]
    } else {
        let tenths = on_track * 1000 / total;
        decimal((tenths / 10) as nat) + seq![46u8, (48 + tenths % 10) as u8]
    }
}

/// The chunks of the list of owners with at least two open items.
pub open spec fn owner_list_chunks(owners: Seq<(Seq<u8>, int)>) -> Seq<Seq<u8>>
    decreases owners.len(),
{
    if owners.len() == 0 {
        Seq::empty()
    } else {
        let prev = owner_list_chunks(owners.drop_last());
        let o = owners.last();
        if o.1 < 2 {
            prev
        } else {
            prev + (if prev.len() > 0 { seq![",".spec_bytes()] } else { Seq::empty() }) + seq![
                "{\"owner_id\":\"".spec_bytes(),
                o.0,
            ] + seq!["\",\"open_count\":".spec_bytes()] + byte_chunks(decimal(o.1 as nat)) + seq!["}".spec_bytes()]
        }
    }
}

/// The chunks of the list of the top pressure items.
pub open spec fn top_list_chunks(top: Seq<u8>, second: Seq<u8>) -> Seq<Seq<u8>> {
    let first: Seq<Seq<u8>> = if top.len() > 0 { seq!["\"".spec_bytes(), top, "\"".spec_bytes()] } else { Seq::empty() };
    let rest: Seq<Seq<u8>> = if second.len() > 0 {
        (if top.len() > 0 { seq![",".spec_bytes()] } else { Seq::empty() }) + seq![
            "\"".spec_bytes(),
            second,
            "\"".spec_bytes(),
        ]
    } else {
        Seq::empty()
    };
    first + rest
}

/// The trace line of a tally.
pub open spec fn health_trace(total: int) -> Seq<u8> {
    crate::emit::greedy(
        64,
        seq!["[\"aggregated ".spec_bytes()] + byte_chunks(decimal(total as nat)) + seq![" items\"]".spec_bytes()],
    )
}

/// The chunks of the failure document with reason `reason`.
pub open spec fn error_chunks(reason: Seq<u8>) -> Seq<Seq<u8>> {
    seq![
        "{\"total_open\":0,\"on_track_pct\":0,\"overdue_count\":0,\"overloaded_owners\":[],\"top_pressure_items\":[],\"reason_code\":\"".spec_bytes(),
        reason,
        "\",\"evaluation_trace\":[]}".spec_bytes(),
    ]
}

/// The chunks of the summary document.
pub open spec fn summary_chunks(
    total: int,
    pct: Seq<u8>,
    overdue: int,
    owners: Seq<(Seq<u8>, int)>,
    top: Seq<u8>,
    second: Seq<u8>,
    trace: Seq<u8>,
) -> Seq<Seq<u8>> {
    seq!["{\"total_open\":".spec_bytes()] + byte_chunks(decimal(total as nat)) + seq![
        ",\"on_track_pct\":".spec_bytes(),
        pct,
        ",\"overdue_count\":".spec_bytes(),
    ] + byte_chunks(decimal(overdue as nat)) + seq![",\"overloaded_owners\":".spec_bytes(), "[".spec_bytes()]
        + owner_list_chunks(owners) + seq![
        "]".spec_bytes(),
        ",\"top_pressure_items\":".spec_bytes(),
        "[".spec_bytes(),
    ] + top_list_chunks(top, second) + seq![
        "]".spec_bytes(),
        ",\"reason_code\":\"ok\",\"evaluation_trace\":".spec_bytes(),
        trace,
        "}".spec_bytes(),
    ]
}

/// The chunks of the response document for the request in `input`.
pub open spec fn health_chunks(input: Seq<u8>) -> Seq<Seq<u8>> {
    let reference = extract_string_at_depth_spec(input, "\"reference_date\"".spec_bytes(), 1);
    let config = bracketed_at_depth_spec(input, "\"aggregation_config\"".spec_bytes(), 1, 123u8, 125u8);
    if reference.len() == 0 || config is None {
        error_chunks("invalid_input".spec_bytes())
    } else {
        let t = team_tally(input);
        summary_chunks(
            t.total,
            pct_text(t.on_track, t.total),
            t.overdue,
            t.owners,
            t.top.0,
            t.second.0,
            health_trace(t.total),
        )
    }
}


/// Ten to the number of fraction digits read so far: what bounds them.
pub open spec fn frac_limit(digits: int) -> int {
    if digits <= 0 { 1 } else if digits == 1 { 10 } else if digits == 2 { 100 } else { 1000 }
}

proof fn lemma_score_read_grows(s: Seq<u8>, i: int, st: ScoreRead)
    requires
        st.whole >= 0,
        st.frac >= 0,
    ensures
        score_read(s, i, st).whole >= st.whole,
        score_read(s, i, st).frac >= 0,
    decreases s.len() - i,
{
    if 0 <= i < s.len() {
        let b = s[i];
        if b == 44u8 || b == 125u8 || b == 93u8 || b == 32u8 || b == 10u8 {
        } else if b == 46u8 {
            lemma_score_read_grows(s, i + 1, ScoreRead { dot: true, ..st });
        } else if !is_digit(b) {
        } else {
            let d = (b - 48) as int;
            if st.dot {
                if st.digits < 3 {
                    lemma_score_read_grows(s, i + 1, ScoreRead { frac: st.frac * 10 + d, digits: st.digits + 1, ..st });
                } else {
                    lemma_score_read_grows(s, i + 1, st);
                }
            } else {
                lemma_score_read_grows(s, i + 1, ScoreRead { whole: st.whole * 10 + d, ..st });
            }
        }
    }
}

/// The score that opens `rest`, in thousandths.
fn read_score(rest: &[u8]) -> (r: u32)
    requires
        ({
            let st = score_read(rest@, 0, ScoreRead { whole: 0, frac: 0, digits: 0, dot: false });
            st.whole * 1000 + st.frac * pad3(st.digits) <= u32::MAX
        }),
    ensures
        ({
            let st = score_read(rest@, 0, ScoreRead { whole: 0, frac: 0, digits: 0, dot: false });
            r == st.whole * 1000 + st.frac * pad3(st.digits)
        }),
{
    let ghost fin = score_read(rest@, 0, ScoreRead { whole: 0, frac: 0, digits: 0, dot: false });
    let mut whole: u32 = 0;
    let mut frac: u32 = 0;
    let mut digits: u32 = 0;
    let mut dot = false;
    let mut j: usize = 0;
    let mut go = true;
    while go && j < rest.len()
        invariant
            j <= rest@.len(),
            fin.whole * 1000 + fin.frac * pad3(fin.digits) <= u32::MAX,
            go ==> score_read(rest@, j as int, ScoreRead { whole: whole as int, frac: frac as int, digits: digits as int, dot }) == fin,
            !go ==> fin == (ScoreRead { whole: whole as int, frac: frac as int, digits: digits as int, dot }),
            digits <= 3,
            frac < frac_limit(digits as int),
        decreases rest@.len() - j + (if go { 1int } else { 0int }),
    {
        let b = rest[j];
        if b == 44 || b == 125 || b == 93 || b == 32 || b == 10 {
            go = false;
        } else if b == 46 {
            dot = true;
            j = j + 1;
        } else if b < 48 || b > 57 {
            go = false;
        } else {
            let d = (b - 48) as u32;
            if dot {
                if digits < 3 {
                    frac = frac * 10 + d;
                    digits = digits + 1;
                }
            } else {
                proof {
                    let cur = ScoreRead { whole: whole as int, frac: frac as int, digits: digits as int, dot };
                    assert(score_read(rest@, j as int, cur) == score_read(
                        rest@,
                        j as int + 1,
                        ScoreRead { whole: whole * 10 + d, ..cur },
                    ));
                    lemma_score_read_grows(
                        rest@,
                        j as int + 1,
                        ScoreRead { whole: whole * 10 + d, frac: frac as int, digits: digits as int, dot },
                    );
                }
                whole = whole * 10 + d;
            }
            j = j + 1;
        }
    }
    let f: u32 = if digits == 0 {
        0
    } else if digits == 1 {
        frac * 100
    } else if digits == 2 {
        frac * 10
    } else {
        frac
    };
    whole * 1000 + f
}

/// The pressure score of `item`, in thousandths (0 when it has none).
pub fn parse_pressure_score(item: &[u8]) -> (r: u32)
    requires
        score_spec(item@) <= u32::MAX,
    ensures
        r == score_spec(item@),
{
    let key = "\"pressure_score\"".as_bytes();
    proof {
        broadcast use vstd::string::group_string_axioms;
        reveal_strlit("\"pressure_score\"");
        assert(vstd::string::is_ascii("\"pressure_score\""));
    }
    let pos = match crate::scan::find(item, key) {
        Some(p) => p,
        None => return 0,
    };
    let after = &item[pos + key.len()..item.len()];
    assert(after@ =~= item@.skip(pos + key@.len()));
    let colon = match crate::scan::index_of_byte(after, 58) {
        Some(c) => c,
        None => return 0,
    };
    let tail = &after[colon + 1..after.len()];
    assert(tail@ =~= after@.skip(colon + 1));
    let rest = crate::scan::skip_ws(tail);
    if rest.len() == 0 {
        return 0;
    }
    read_score(rest)
}

/// The owners as the library holds them: id and open count.
pub open spec fn owners_view(owners: Seq<(&[u8], u32)>) -> Seq<(Seq<u8>, int)> {
    owners.map_values(|p: (&[u8], u32)| (p.0@, p.1 as int))
}

/// Counts one more open item for `owner`.
pub fn bump_owner<'a>(owners: &mut Vec<(&'a [u8], u32)>, owner: &'a [u8], Ghost(bound): Ghost<int>)
    requires
        0 <= bound < u32::MAX,
        forall|k: int| 0 <= k < old(owners)@.len() ==> (#[trigger] old(owners)@[k]).1 <= bound,
    ensures
        owners_view(final(owners)@) == bump(owners_view(old(owners)@), owner@),
        forall|k: int| 0 <= k < final(owners)@.len() ==> (#[trigger] final(owners)@[k]).1 <= bound + 1,
{
    let ghost v = owners_view(owners@);
    if owner.len() > 64 {
        return;
    }
    let mut k: usize = 0;
    while k < owners.len()
        invariant
            k <= owners@.len(),
            owners@ == old(owners)@,
            v == owners_view(owners@),
            owner_index(v, owner@, 0) == owner_index(v, owner@, k as int),
            owner@.len() <= 64,
            0 <= bound < u32::MAX,
            forall|j: int| 0 <= j < owners@.len() ==> (#[trigger] owners@[j]).1 <= bound,
        decreases owners@.len() - k,
    {
        if crate::scan::bytes_eq(owners[k].0, owner) {
            let c = owners[k].1;
            owners.set(k, (owner, c + 1));
            proof {
                assert(owner_index(v, owner@, k as int) == Some(k as int));
                assert(owners_view(owners@) =~= v.update(k as int, (owner@, v[k as int].1 + 1)));
                assert forall|j: int| 0 <= j < owners@.len() implies (#[trigger] owners@[j]).1 <= bound + 1 by {
                    if j != k {
                        assert(owners@[j] == old(owners)@[j]);
                    }
                }
            }
            return;
        }
        k = k + 1;
    }
    proof {
        assert(owner_index(v, owner@, k as int) is None);
    }
    if owners.len() >= 64 {
        return;
    }
    owners.push((owner, 1));
    proof {
        assert(owners_view(owners@) =~= v.push((owner@, 1)));
        assert forall|j: int| 0 <= j < owners@.len() implies (#[trigger] owners@[j]).1 <= bound + 1 by {
            if j < old(owners)@.len() {
                assert(owners@[j] == old(owners)@[j]);
            }
        }
    }
}

/// Whether id `a` comes before id `b`: the first differing byte decides,
/// and a proper prefix comes first.
pub fn id_lt(a: &[u8], b: &[u8]) -> (r: bool)
    ensures
        r == lex_less(a@, b@),
{
    proof {
        reveal(lex_less);
    }
    let n = if a.len() < b.len() {
        a.len()
    } else {
        b.len()
    };
    let mut i: usize = 0;
    assert(a@.skip(0) =~= a@);
    assert(b@.skip(0) =~= b@);
    while i < n
        invariant
            n <= a@.len(),
            n <= b@.len(),
            n == a@.len() || n == b@.len(),
            i <= n,
            lex_less(a@, b@) == lex_less(a@.skip(i as int), b@.skip(i as int)),
        decreases n - i,
    {
        proof {
            reveal(lex_less);
        }
        assert(a@.skip(i as int)[0] == a@[i as int]);
        assert(b@.skip(i as int)[0] == b@[i as int]);
        if a[i] != b[i] {
            return a[i] < b[i];
        }
        assert(a@.skip(i as int).drop_first() =~= a@.skip(i as int + 1));
        assert(b@.skip(i as int).drop_first() =~= b@.skip(i as int + 1));
        i = i + 1;
    }
    proof {
        reveal(lex_less);
    }
    a.len() < b.len()
}

/// The two top slots after an item `id` with score `score`.
pub fn insert_top_pressure<'a>(top: (&'a [u8], u32), second: (&'a [u8], u32), id: &'a [u8], score: u32) -> (r: (
    (&'a [u8], u32),
    (&'a [u8], u32),
))
    ensures
        r matches ((a, x), (b, y)) && ((a@, x as int), (b@, y as int)) == rank(
            (top.0@, top.1 as int),
            (second.0@, second.1 as int),
            id@,
            score as int,
        ),
{
    if id.len() > 64 {
        return (top, second);
    }
    if top.0.len() == 0 || score > top.1 || (score == top.1 && id_lt(id, top.0)) {
        return ((id, score), top);
    }
    if second.0.len() == 0 || score > second.1 || (score == second.1 && id_lt(id, second.0)) {
        return (top, (id, score));
    }
    (top, second)
}

proof fn lemma_count_chunks(n: int)
    requires
        n >= 0,
    ensures
        signed_chunks(n) == byte_chunks(decimal(n as nat)),
{
    if n == 0 {
        assert(decimal(0) == seq![48u8]);
        assert(byte_chunks(decimal(0)) =~= seq![seq![48u8]]);
    }
}

/// Writes the digits of `n` one by one as the next chunks of the run `ch`.
fn put_count(out: &mut [u8], i: usize, n: u32, Ghost(o): Ghost<Seq<u8>>, Ghost(ch): Ghost<Seq<Seq<u8>>>) -> (r: usize)
    requires
        (old(out)@, i as int) == copies(o, 0, ch),
    ensures
        (final(out)@, r as int) == copies(o, 0, ch + byte_chunks(decimal(n as nat))),
{
    proof {
        lemma_count_chunks(n as int);
    }
    put_signed(out, i, n as i64, Ghost(o), Ghost(ch))
}

/// The share on track, in percent with one decimal.
pub fn format_on_track_pct(on_track: u32, total: u32) -> (r: Vec<u8>)
    requires
        on_track * 1000 <= u32::MAX,
    ensures
        r@ == pct_text(on_track as int, total as int),
{
    if total == 0 {
        let mut v: Vec<u8> = Vec::new();
        v.push(48u8);
        assert(v@ =~= seq![48u8]);
        return v;
    }
    let tenths = on_track * 1000 / total;
    let mut v = crate::emit::decimal_digits((tenths / 10) as u64);
    v.push(46u8);
    v.push(48u8 + (tenths % 10) as u8);
    assert(v@ =~= pct_text(on_track as int, total as int));
    v
}

/// The trace line for `total` open items, as it lands in 64 bytes.
pub fn trace_of(total: u32) -> (r: Vec<u8>)
    ensures
        r@ == health_trace(total as int),
{
    let mut buf: Vec<u8> = Vec::new();
    let mut z: usize = 0;
    while z < 64
        invariant
            z <= 64,
            buf@.len() == z,
        decreases 64 - z,
    {
        buf.push(0);
        z = z + 1;
    }
    let ghost o = buf@;
    let ghost mut c = Seq::<Seq<u8>>::empty();
    let mut i = put_chunk(buf.as_mut_slice(), 0, "[\"aggregated ".as_bytes(), Ghost(o), Ghost(c));
    proof { c = c + seq!["[\"aggregated ".spec_bytes()]; }
    i = put_count(buf.as_mut_slice(), i, total, Ghost(o), Ghost(c));
    proof { c = c + byte_chunks(decimal(total as nat)); }
    i = put_chunk(buf.as_mut_slice(), i, " items\"]".as_bytes(), Ghost(o), Ghost(c));
    proof {
        c = c + seq![" items\"]".spec_bytes()];
        lemma_run_holds(o, buf@, i as int, c);
        crate::emit::lemma_greedy_len(64, c);
    }
    buf.truncate(i);
    assert(buf@ =~= health_trace(total as int));
    buf
}

/// Writes the failure document with `reason`; returns its length.
pub fn write_error(out: &mut [u8], reason: &[u8]) -> (r: usize)
    ensures
        holds_greedy(final(out)@, r as int, error_chunks(reason@)),
        final(out)@.len() == old(out)@.len(),
{
    let ghost o = out@;
    let ghost mut c = Seq::<Seq<u8>>::empty();
    let head = "{\"total_open\":0,\"on_track_pct\":0,\"overdue_count\":0,\"overloaded_owners\":[],\"top_pressure_items\":[],\"reason_code\":\"".as_bytes();
    let mut i = put_chunk(out, 0, head, Ghost(o), Ghost(c));
    proof { c = c + seq![head@]; }
    i = put_chunk(out, i, reason, Ghost(o), Ghost(c));
    proof { c = c + seq![reason@]; }
    i = put_chunk(out, i, "\",\"evaluation_trace\":[]}".as_bytes(), Ghost(o), Ghost(c));
    proof {
        c = c + seq!["\",\"evaluation_trace\":[]}".spec_bytes()];
        assert(c =~= error_chunks(reason@));
        lemma_run_holds(o, out@, i as int, c);
    }
    i
}

/// Writes the list of owners with at least two open items as the next
/// chunks of the run `ch`.
pub fn write_overloaded_owners(
    out: &mut [u8],
    i: usize,
    owners: &Vec<(&[u8], u32)>,
    Ghost(o): Ghost<Seq<u8>>,
    Ghost(ch): Ghost<Seq<Seq<u8>>>,
) -> (r: usize)
    requires
        (old(out)@, i as int) == copies(o, 0, ch),
    ensures
        (final(out)@, r as int) == copies(o, 0, ch + owner_list_chunks(owners_view(owners@))),
{
    let ghost v = owners_view(owners@);
    let ghost mut c = ch;
    let mut j = i;
    let mut first = true;
    let mut k: usize = 0;
    assert(v.take(0) =~= Seq::<(Seq<u8>, int)>::empty());
    assert(ch + owner_list_chunks(v.take(0)) =~= ch);
    while k < owners.len()
        invariant
            k <= owners@.len(),
            v == owners_view(owners@),
            c == ch + owner_list_chunks(v.take(k as int)),
            first == (owner_list_chunks(v.take(k as int)).len() == 0),
            (out@, j as int) == copies(o, 0, c),
        decreases owners@.len() - k,
    {
        let (id, count) = owners[k];
        let ghost prev = c;
        proof {
            let t1 = v.take(k as int + 1);
            assert(t1.drop_last() =~= v.take(k as int));
            assert(t1.last() == (id@, count as int));
        }
        if count >= 2 {
            if !first {
                j = put_chunk(out, j, ",".as_bytes(), Ghost(o), Ghost(c));
                proof { c = c + seq![",".spec_bytes()]; }
            }
            first = false;
            j = put_chunk(out, j, "{\"owner_id\":\"".as_bytes(), Ghost(o), Ghost(c));
            proof { c = c + seq!["{\"owner_id\":\"".spec_bytes()]; }
            j = put_chunk(out, j, id, Ghost(o), Ghost(c));
            proof { c = c + seq![id@]; }
            j = put_chunk(out, j, "\",\"open_count\":".as_bytes(), Ghost(o), Ghost(c));
            proof { c = c + seq!["\",\"open_count\":".spec_bytes()]; }
            j = put_count(out, j, count, Ghost(o), Ghost(c));
            proof { c = c + byte_chunks(decimal(count as nat)); }
            j = put_chunk(out, j, "}".as_bytes(), Ghost(o), Ghost(c));
            proof {
                c = c + seq!["}".spec_bytes()];
                let t1 = v.take(k as int + 1);
                let pl = owner_list_chunks(v.take(k as int));
                assert(owner_list_chunks(t1) == pl + (if pl.len() > 0 { seq![",".spec_bytes()] } else {
                    Seq::empty()
                }) + seq!["{\"owner_id\":\"".spec_bytes(), id@] + seq!["\",\"open_count\":".spec_bytes()]
                    + byte_chunks(decimal(count as nat)) + seq!["}".spec_bytes()]);
                assert(c =~= ch + owner_list_chunks(t1));
            }
        } else {
            proof {
                let t1 = v.take(k as int + 1);
                assert(owner_list_chunks(t1) == owner_list_chunks(v.take(k as int)));
            }
        }
        k = k + 1;
    }
    assert(v.take(k as int) =~= v);
    j
}

/// Writes the ids of the top pressure slots that are filled as the next
/// chunks of the run `ch`.
pub fn write_top_pressure(
    out: &mut [u8],
    i: usize,
    top: &[u8],
    second: &[u8],
    Ghost(o): Ghost<Seq<u8>>,
    Ghost(ch): Ghost<Seq<Seq<u8>>>,
) -> (r: usize)
    requires
        (old(out)@, i as int) == copies(o, 0, ch),
    ensures
        (final(out)@, r as int) == copies(o, 0, ch + top_list_chunks(top@, second@)),
{
    let ghost mut c = ch;
    let mut i = i;
    if top.len() > 0 {
        i = put_chunk(out, i, "\"".as_bytes(), Ghost(o), Ghost(c));
        proof { c = c + seq!["\"".spec_bytes()]; }
        i = put_chunk(out, i, top, Ghost(o), Ghost(c));
        proof { c = c + seq![top@]; }
        i = put_chunk(out, i, "\"".as_bytes(), Ghost(o), Ghost(c));
        proof { c = c + seq!["\"".spec_bytes()]; }
    }
    if second.len() > 0 {
        if top.len() > 0 {
            i = put_chunk(out, i, ",".as_bytes(), Ghost(o), Ghost(c));
            proof { c = c + seq![",".spec_bytes()]; }
        }
        i = put_chunk(out, i, "\"".as_bytes(), Ghost(o), Ghost(c));
        proof { c = c + seq!["\"".spec_bytes()]; }
        i = put_chunk(out, i, second, Ghost(o), Ghost(c));
        proof { c = c + seq![second@]; }
        i = put_chunk(out, i, "\"".as_bytes(), Ghost(o), Ghost(c));
        proof { c = c + seq!["\"".spec_bytes()]; }
    }
    assert(c =~= ch + top_list_chunks(top@, second@));
    i
}

/// Writes the summary document; returns its length.
#[verifier::spinoff_prover]
#[verifier::rlimit(40)]
pub fn write_summary(
    out: &mut [u8],
    total: u32,
    pct: &[u8],
    overdue: u32,
    owners: &Vec<(&[u8], u32)>,
    top: &[u8],
    second: &[u8],
    trace: &[u8],
) -> (r: usize)
    ensures
        holds_greedy(
            final(out)@,
            r as int,
            summary_chunks(total as int, pct@, overdue as int, owners_view(owners@), top@, second@, trace@),
        ),
        final(out)@.len() == old(out)@.len(),
{
    let ghost o = out@;
    let ghost mut c = Seq::<Seq<u8>>::empty();
    let mut i = put_chunk(out, 0, "{\"total_open\":".as_bytes(), Ghost(o), Ghost(c));
    proof { c = c + seq!["{\"total_open\":".spec_bytes()]; }
    i = put_count(out, i, total, Ghost(o), Ghost(c));
    proof { c = c + byte_chunks(decimal(total as nat)); }
    i = put_chunk(out, i, ",\"on_track_pct\":".as_bytes(), Ghost(o), Ghost(c));
    proof { c = c + seq![",\"on_track_pct\":".spec_bytes()]; }
    i = put_chunk(out, i, pct, Ghost(o), Ghost(c));
    proof { c = c + seq![pct@]; }
    i = put_chunk(out, i, ",\"overdue_count\":".as_bytes(), Ghost(o), Ghost(c));
    proof { c = c + seq![",\"overdue_count\":".spec_bytes()]; }
    i = put_count(out, i, overdue, Ghost(o), Ghost(c));
    proof { c = c + byte_chunks(decimal(overdue as nat)); }
    i = put_chunk(out, i, ",\"overloaded_owners\":".as_bytes(), Ghost(o), Ghost(c));
    proof { c = c + seq![",\"overloaded_owners\":".spec_bytes()]; }
    i = put_chunk(out, i, "[".as_bytes(), Ghost(o), Ghost(c));
    proof { c = c + seq!["[".spec_bytes()]; }
    i = write_overloaded_owners(out, i, owners, Ghost(o), Ghost(c));
    proof { c = c + owner_list_chunks(owners_view(owners@)); }
    i = put_chunk(out, i, "]".as_bytes(), Ghost(o), Ghost(c));
    proof { c = c + seq!["]".spec_bytes()]; }
    i = put_chunk(out, i, ",\"top_pressure_items\":".as_bytes(), Ghost(o), Ghost(c));
    proof { c = c + seq![",\"top_pressure_items\":".spec_bytes()]; }
    i = put_chunk(out, i, "[".as_bytes(), Ghost(o), Ghost(c));
    proof { c = c + seq!["[".spec_bytes()]; }
    i = write_top_pressure(out, i, top, second, Ghost(o), Ghost(c));
    proof { c = c + top_list_chunks(top@, second@); }
    i = put_chunk(out, i, "]".as_bytes(), Ghost(o), Ghost(c));
    proof { c = c + seq!["]".spec_bytes()]; }
    i = put_chunk(out, i, ",\"reason_code\":\"ok\",\"evaluation_trace\":".as_bytes(), Ghost(o), Ghost(c));
    proof { c = c + seq![",\"reason_code\":\"ok\",\"evaluation_trace\":".spec_bytes()]; }
    i = put_chunk(out, i, trace, Ghost(o), Ghost(c));
    proof { c = c + seq![trace@]; }
    i = put_chunk(out, i, "}".as_bytes(), Ghost(o), Ghost(c));
    proof {
        c = c + seq!["}".spec_bytes()];
        assert(c =~= summary_chunks(total as int, pct@, overdue as int, owners_view(owners@), top@, second@, trace@));
        lemma_run_holds(o, out@, i as int, c);
    }
    i
}


proof fn lemma_scan_fits(items: Seq<u8>, pos: int, reference: Seq<u8>, t: Tally)
    ensures
        team_scan(items, pos, reference, t).fits ==> t.fits,
    decreases items.len() - pos,
{
    if 0 <= pos < items.len() {
        let p = pos + ws_comma_len(items.skip(pos)) as int;
        if p < items.len() && items[p] == 123u8 {
            match balanced_spec(items.skip(p), 123u8, 125u8) {
                Some(end) => if 0 <= end && p + end < items.len() {
                    lemma_scan_fits(items, p + end + 1, reference, step(t, items.subrange(p, p + end + 1), reference));
                },
                None => {},
            }
        }
    }
}

/// The walk's state as the evaluation holds it.
pub open spec fn tally_view(
    total: u32,
    overdue: u32,
    on_track: u32,
    owners: Seq<(&[u8], u32)>,
    top: (&[u8], u32),
    second: (&[u8], u32),
) -> Tally {
    Tally {
        total: total as int,
        overdue: overdue as int,
        on_track: on_track as int,
        owners: owners_view(owners),
        top: (top.0@, top.1 as int),
        second: (second.0@, second.1 as int),
        fits: true,
    }
}

proof fn lemma_health_keys()
    ensures
        "\"reference_date\"".spec_bytes().len() > 0,
        "\"items\"".spec_bytes().len() > 0,
        "\"aggregation_config\"".spec_bytes().len() > 0,
        "\"status\"".spec_bytes().len() > 0,
        "\"due_date\"".spec_bytes().len() > 0,
        "\"owner_id\"".spec_bytes().len() > 0,
        "\"id\"".spec_bytes().len() > 0,
{
    broadcast use vstd::string::group_string_axioms;
    reveal_strlit("\"reference_date\"");
    reveal_strlit("\"items\"");
    reveal_strlit("\"aggregation_config\"");
    reveal_strlit("\"status\"");
    reveal_strlit("\"due_date\"");
    reveal_strlit("\"owner_id\"");
    reveal_strlit("\"id\"");
    assert(vstd::string::is_ascii("\"reference_date\""));
    assert(vstd::string::is_ascii("\"items\""));
    assert(vstd::string::is_ascii("\"aggregation_config\""));
    assert(vstd::string::is_ascii("\"status\""));
    assert(vstd::string::is_ascii("\"due_date\""));
    assert(vstd::string::is_ascii("\"owner_id\""));
    assert(vstd::string::is_ascii("\"id\""));
}

/// Walks the list of items and gathers the tally.
#[verifier::spinoff_prover]
#[verifier::rlimit(80)]
fn gather<'a>(items: &'a [u8], reference: &[u8]) -> (r: (u32, u32, u32, Vec<(&'a [u8], u32)>, (&'a [u8], u32), (&'a [u8], u32)))
    requires
        scannable(items@),
        team_scan(items@, 1, reference@, empty_tally()).fits,
        team_scan(items@, 1, reference@, empty_tally()).on_track * 1000 <= u32::MAX,
    ensures
        r matches (total, overdue, on_track, owners, top, second) && tally_view(total, overdue, on_track, owners@, top, second)
            == team_scan(items@, 1, reference@, empty_tally()),
{
    proof {
        lemma_health_keys();
    }
    let ghost fin = team_scan(items@, 1, reference@, empty_tally());
    let empty: &[u8] = &items[0..0];
    assert(empty@ =~= Seq::<u8>::empty());
    let mut total: u32 = 0;
    let mut overdue: u32 = 0;
    let mut on_track: u32 = 0;
    let mut owners: Vec<(&'a [u8], u32)> = Vec::new();
    let mut top: (&'a [u8], u32) = (empty, 0);
    let mut second: (&'a [u8], u32) = (empty, 0);
    assert(owners_view(owners@) =~= Seq::<(Seq<u8>, int)>::empty());
    assert(tally_view(total, overdue, on_track, owners@, top, second) == empty_tally());
    let mut pos: usize = 1;
    let mut go = true;
    while go && pos < items.len()
        invariant
            scannable(items@),
            fin == team_scan(items@, 1, reference@, empty_tally()),
            fin.fits,
            fin.on_track * 1000 <= u32::MAX,
            pos >= 1,
            go ==> team_scan(items@, pos as int, reference@, tally_view(total, overdue, on_track, owners@, top, second))
                == fin,
            !go ==> tally_view(total, overdue, on_track, owners@, top, second) == fin,
            total <= pos,
            overdue + on_track == total,
            forall|k: int| 0 <= k < owners@.len() ==> (#[trigger] owners@[k]).1 <= total,
            "\"status\"".spec_bytes().len() > 0,
            "\"due_date\"".spec_bytes().len() > 0,
            "\"owner_id\"".spec_bytes().len() > 0,
            "\"id\"".spec_bytes().len() > 0,
        decreases items@.len() - pos + (if go { 1int } else { 0int }),
    {
        let ghost cur = tally_view(total, overdue, on_track, owners@, top, second);
        let tail = &items[pos..items.len()];
        assert(tail@ =~= items@.skip(pos as int));
        let k = crate::scan::skip_ws_comma(tail);
        proof {
            crate::scan::lemma_ws_comma_le(tail@);
        }
        let p = pos + k;
        if p >= items.len() || items[p] != 123 {
            go = false;
        } else {
            let rest = &items[p..items.len()];
            assert(rest@ =~= items@.skip(p as int));
            match crate::scan::balanced_end(rest, 123, 125) {
                None => {
                    go = false;
                },
                Some(end) => {
                    let item = &items[p..p + end + 1];
                    assert(item@ =~= items@.subrange(p as int, p + end + 1));
                    let ghost next = step(cur, item@, reference@);
                    proof {
                        assert(team_scan(items@, pos as int, reference@, cur) == team_scan(
                            items@,
                            p + end + 1,
                            reference@,
                            next,
                        ));
                        lemma_scan_fits(items@, p + end + 1, reference@, next);
                    }
                    let status = extract_string(item, "\"status\"".as_bytes());
                    if is_open_status(status) {
                        let ghost bound = total as int;
                        total = total + 1;
                        let due = extract_string(item, "\"due_date\"".as_bytes());
                        let late = due.len() > 0 && id_lt(due, reference);
                        if late {
                            overdue = overdue + 1;
                        } else {
                            on_track = on_track + 1;
                        }
                        let owner = extract_string(item, "\"owner_id\"".as_bytes());
                        if owner.len() > 0 {
                            bump_owner(&mut owners, owner, Ghost(bound));
                        }
                        let id = extract_string(item, "\"id\"".as_bytes());
                        if id.len() > 0 {
                            let score = parse_pressure_score(item);
                            let (t2, s2) = insert_top_pressure(top, second, id, score);
                            top = t2;
                            second = s2;
                        }
                        assert(tally_view(total, overdue, on_track, owners@, top, second) == next);
                    } else {
                        assert(next == cur);
                    }
                    pos = p + end + 1;
                },
            }
        }
    }
    (total, overdue, on_track, owners, top, second)
}

/// Whether `s` is one of the statuses that count an item as open.
pub fn is_open_status(s: &[u8]) -> (r: bool)
    ensures
        r == open_status(s@),
{
    crate::scan::bytes_eq(s, "open".as_bytes()) || crate::scan::bytes_eq(s, "in_progress".as_bytes())
        || crate::scan::bytes_eq(s, "blocked".as_bytes()) || crate::scan::bytes_eq(s, "snoozed".as_bytes())
}

/// Aggregates the health of the team's open items in `input` and writes the
/// response document to `out`; returns its length.
#[verifier::spinoff_prover]
#[verifier::rlimit(40)]
pub fn evaluate(input: &[u8], out: &mut [u8]) -> (r: usize)
    requires
        scannable(input@),
        health_fits(input@),
    ensures
        holds_greedy(final(out)@, r as int, health_chunks(input@)),
        final(out)@.len() == old(out)@.len(),
{
    proof {
        lemma_health_keys();
    }
    let reference = extract_string_at_depth(input, "\"reference_date\"".as_bytes(), 1);
    let default_items: &[u8] = &[91u8, 93u8];
    let items = match crate::scan::array_after_key_at_depth(input, "\"items\"".as_bytes(), 1) {
        Some(v) => v,
        None => default_items,
    };
    assert(items@ == items_of(input@));
    let config = crate::scan::object_after_key_at_depth(input, "\"aggregation_config\"".as_bytes(), 1);
    if reference.len() == 0 || config.is_none() {
        return write_error(out, "invalid_input".as_bytes());
    }
    let (total, overdue, on_track, owners, top, second) = gather(items, reference);
    let pct = format_on_track_pct(on_track, total);
    let trace = trace_of(total);
    write_summary(out, total, pct.as_slice(), overdue, &owners, top.0, second.0, trace.as_slice())
}

/// Whether the score that opens `rest` fits a `u32` in thousandths.
fn score_fits_at(rest: &[u8]) -> (r: bool)
    ensures
        ({
            let st = score_read(rest@, 0, ScoreRead { whole: 0, frac: 0, digits: 0, dot: false });
            r == (st.whole * 1000 + st.frac * pad3(st.digits) <= u32::MAX)
        }),
{
    let ghost fin = score_read(rest@, 0, ScoreRead { whole: 0, frac: 0, digits: 0, dot: false });
    let mut whole: u64 = 0;
    let mut frac: u64 = 0;
    let mut digits: u64 = 0;
    let mut dot = false;
    let mut j: usize = 0;
    let mut go = true;
    while go && j < rest.len()
        invariant
            j <= rest@.len(),
            fin == score_read(rest@, 0, ScoreRead { whole: 0, frac: 0, digits: 0, dot: false }),
            go ==> score_read(rest@, j as int, ScoreRead { whole: whole as int, frac: frac as int, digits: digits as int, dot }) == fin,
            !go ==> fin == (ScoreRead { whole: whole as int, frac: frac as int, digits: digits as int, dot }),
            whole <= 4294967,
            digits <= 3,
            frac < frac_limit(digits as int),
        decreases rest@.len() - j + (if go { 1int } else { 0int }),
    {
        let b = rest[j];
        if b == 44 || b == 125 || b == 93 || b == 32 || b == 10 {
            go = false;
        } else if b == 46 {
            dot = true;
            j = j + 1;
        } else if b < 48 || b > 57 {
            go = false;
        } else {
            let d = (b - 48) as u64;
            if dot {
                if digits < 3 {
                    frac = frac * 10 + d;
                    digits = digits + 1;
                }
            } else {
                let w = whole * 10 + d;
                if w > 4294967 {
                    proof {
                        let cur = ScoreRead { whole: whole as int, frac: frac as int, digits: digits as int, dot };
                        let next = ScoreRead { whole: w as int, ..cur };
                        assert(score_read(rest@, j as int, cur) == score_read(rest@, j as int + 1, next));
                        lemma_score_read_grows(rest@, j as int + 1, next);
                        assert(fin.frac * pad3(fin.digits) >= 0) by (nonlinear_arith)
                            requires
                                fin.frac >= 0,
                                pad3(fin.digits) >= 1,
                        ;
                    }
                    return false;
                }
                whole = w;
            }
            j = j + 1;
        }
    }
    let f: u64 = if digits == 0 {
        0
    } else if digits == 1 {
        frac * 100
    } else if digits == 2 {
        frac * 10
    } else {
        frac
    };
    whole * 1000 + f <= 0xffff_ffff
}

/// Whether the pressure score of `item` fits a `u32` in thousandths.
fn score_fits(item: &[u8]) -> (r: bool)
    ensures
        r == (score_spec(item@) <= u32::MAX),
{
    let key = "\"pressure_score\"".as_bytes();
    proof {
        broadcast use vstd::string::group_string_axioms;
        reveal_strlit("\"pressure_score\"");
        assert(vstd::string::is_ascii("\"pressure_score\""));
    }
    let pos = match crate::scan::find(item, key) {
        Some(p) => p,
        None => return true,
    };
    let after = &item[pos + key.len()..item.len()];
    assert(after@ =~= item@.skip(pos + key@.len()));
    let colon = match crate::scan::index_of_byte(after, 58) {
        Some(c) => c,
        None => return true,
    };
    let tail = &after[colon + 1..after.len()];
    assert(tail@ =~= after@.skip(colon + 1));
    let rest = crate::scan::skip_ws(tail);
    if rest.len() == 0 {
        return true;
    }
    score_fits_at(rest)
}

/// Whether the request can be answered without overflow (what `evaluate`
/// needs): every pressure score read fits a `u32`, and so does a thousand
/// times the on-track count.
pub fn health_fits_check(input: &[u8]) -> (r: bool)
    requires
        scannable(input@),
    ensures
        r == health_fits(input@),
{
    proof {
        lemma_health_keys();
    }
    let reference = extract_string_at_depth(input, "\"reference_date\"".as_bytes(), 1);
    let default_items: &[u8] = &[91u8, 93u8];
    let items = match crate::scan::array_after_key_at_depth(input, "\"items\"".as_bytes(), 1) {
        Some(v) => v,
        None => default_items,
    };
    assert(items@ == items_of(input@));
    let ghost fin = team_scan(items@, 1, reference@, empty_tally());
    let ghost mut cur = empty_tally();
    let mut fits = true;
    let mut on_track: u64 = 0;
    let mut pos: usize = 1;
    let mut go = true;
    while go && pos < items.len()
        invariant
            scannable(items@),
            fin == team_scan(items@, 1, reference@, empty_tally()),
            pos >= 1,
            go ==> team_scan(items@, pos as int, reference@, cur) == fin,
            !go ==> cur == fin,
            fits == cur.fits,
            on_track == cur.on_track,
            on_track <= pos,
            pos <= items@.len() + 1,
            "\"status\"".spec_bytes().len() > 0,
            "\"due_date\"".spec_bytes().len() > 0,
            "\"id\"".spec_bytes().len() > 0,
        decreases items@.len() - pos + (if go { 1int } else { 0int }),
    {
        let tail = &items[pos..items.len()];
        assert(tail@ =~= items@.skip(pos as int));
        let k = crate::scan::skip_ws_comma(tail);
        proof {
            crate::scan::lemma_ws_comma_le(tail@);
        }
        let p = pos + k;
        if p >= items.len() || items[p] != 123 {
            go = false;
        } else {
            let rest = &items[p..items.len()];
            assert(rest@ =~= items@.skip(p as int));
            match crate::scan::balanced_end(rest, 123, 125) {
                None => {
                    go = false;
                },
                Some(end) => {
                    let item = &items[p..p + end + 1];
                    assert(item@ =~= items@.subrange(p as int, p + end + 1));
                    let ghost next = step(cur, item@, reference@);
                    proof {
                        assert(team_scan(items@, pos as int, reference@, cur) == team_scan(
                            items@,
                            p + end + 1,
                            reference@,
                            next,
                        ));
                    }
                    let status = extract_string(item, "\"status\"".as_bytes());
                    if is_open_status(status) {
                        let due = extract_string(item, "\"due_date\"".as_bytes());
                        let late = due.len() > 0 && id_lt(due, reference);
                        if !late {
                            on_track = on_track + 1;
                        }
                        let id = extract_string(item, "\"id\"".as_bytes());
                        if id.len() > 0 {
                            fits = fits && score_fits(item);
                        }
                    }
                    proof {
                        cur = next;
                    }
                    pos = p + end + 1;
                },
            }
        }
    }
    fits && on_track * 1000 <= 0xffff_ffff
}

/// An item counts toward the open items exactly when its status is `open`,
/// `in_progress`, `blocked` or `snoozed`: each such item adds one to the
/// total and one to either the overdue or the on-track count, and an item
/// of any other status changes nothing.
pub proof fn lemma_open_items_counted(t: Tally, item: Seq<u8>, reference: Seq<u8>)
    ensures
        ({
            let status = extract_string_spec(item, "\"status\"".spec_bytes());
            let open = status == "open".spec_bytes() || status == "in_progress".spec_bytes() || status
                == "blocked".spec_bytes() || status == "snoozed".spec_bytes();
            let after = step(t, item, reference);
            &&& open ==> after.total == t.total + 1 && after.overdue + after.on_track == t.overdue + t.on_track + 1
            &&& !open ==> after == t
        }),
{
}

} // verus!
