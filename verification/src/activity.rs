//! Activity intervals: consecutive analysis windows of the same activity
//! class, each starting where the previous one ended, merge into one
//! interval.
use vstd::prelude::*;
use vstd::string::StringSliceAdditionalSpecFns;
use crate::emit::{
    byte_chunks, copies, copy, copy_next, whole_write, decimal, decimal_digits, holds_greedy, lemma_copies_concat,
    lemma_copies_greedy, lemma_holds_greedy_start,
};
use crate::scan::{
    digit_run, digits_value, find_from, find_spec, index_of_from, is_digit, lemma_digit_run,
    lemma_digits_prefix_le, occurs_at, occurs_at_exec,
};

verus! {

/// The most windows a request may hold.
pub const WINDOW_LIMIT: usize = 4096;

/// The first index at or after `from` where `key` occurs in `input`.
pub fn find(input: &[u8], key: &[u8], from: usize) -> (r: Option<usize>)
    requires
        key@.len() > 0,
    ensures
        match r {
            Some(p) => find_from(input@, key@, from as int) == Some(p as int) && p + key.len()
                <= input.len() && from <= p,
            None => find_from(input@, key@, from as int) is None,
        },
{
    if from > input.len() || key.len() > input.len() - from {
        return None;
    }
    let mut i = from;
    while i <= input.len() - key.len()
        invariant
            key@.len() > 0,
            key@.len() <= input@.len(),
            from <= i <= input.len() - key.len() + 1,
            find_from(input@, key@, from as int) == find_from(input@, key@, i as int),
        decreases input.len() - key.len() + 1 - i,
    {
        if occurs_at_exec(input, i, key) {
            return Some(i);
        }
        i = i + 1;
    }
    None
}

/// ASCII whitespace, as Rust's `is_ascii_whitespace` has it.
pub open spec fn is_ascii_ws(b: u8) -> bool {
    b == 32u8 || b == 9u8 || b == 10u8 || b == 12u8 || b == 13u8
}

/// The index of the first byte at or after `i` that is not ASCII
/// whitespace.
pub open spec fn ascii_ws_end(s: Seq<u8>, i: int) -> int
    decreases s.len() - i,
{
    if 0 <= i < s.len() && is_ascii_ws(s[i]) {
        ascii_ws_end(s, i + 1)
    } else {
        i
    }
}

/// The unsigned integer after the colon that follows the first `key` at or
/// after `from`: whitespace skipped, at least one digit, the value at most
/// `i32::MAX`.
pub open spec fn integer_spec(s: Seq<u8>, key: Seq<u8>, from: int) -> Option<int> {
    match find_from(s, key, from) {
        None => None,
        Some(p) => match index_of_from(s, 58u8, p + key.len()) {
            None => None,
            Some(c) => {
                let start = ascii_ws_end(s, c + 1);
                let run = digit_run(s.skip(start)) as int;
                let value = digits_value(s.subrange(start, start + run)) as int;
                if run == 0 || value > i32::MAX {
                    None
                } else {
                    Some(value)
                }
            },
        },
    }
}

/// The unsigned integer after the first `key` at or after `from`.
pub fn integer(input: &[u8], key: &[u8], from: usize) -> (r: Option<i32>)
    requires
        key@.len() > 0,
    ensures
        match r {
            Some(v) => integer_spec(input@, key@, from as int) == Some(v as int),
            None => integer_spec(input@, key@, from as int) is None,
        },
{
    let p = match find(input, key, from) {
        Some(p) => p,
        None => return None,
    };
    let mut c = p + key.len();
    while c < input.len() && input[c] != 58u8
        invariant
            p + key@.len() <= c,
            index_of_from(input@, 58u8, p + key@.len()) == index_of_from(input@, 58u8, c as int),
        decreases input@.len() - c,
    {
        c = c + 1;
    }
    if c >= input.len() {
        return None;
    }
    let mut j = c + 1;
    while j < input.len() && (input[j] == 32u8 || input[j] == 9u8 || input[j] == 10u8 || input[j]
        == 12u8 || input[j] == 13u8)
        invariant
            c + 1 <= j <= input@.len(),
            ascii_ws_end(input@, c + 1) == ascii_ws_end(input@, j as int),
        decreases input@.len() - j,
    {
        j = j + 1;
    }
    let start = j;
    let ghost tail = input@.skip(start as int);
    let ghost run = digit_run(tail) as int;
    proof {
        lemma_digit_run(tail);
        assert(tail.take(0) =~= Seq::<u8>::empty());
        assert(input@.subrange(start as int, start + run) =~= tail.take(run));
    }
    let mut value: i32 = 0;
    while j < input.len() && input[j] >= 48u8 && input[j] <= 57u8
        invariant
            start <= j <= input@.len(),
            tail == input@.skip(start as int),
            run == digit_run(tail),
            run <= tail.len(),
            forall|k: int| 0 <= k < run ==> is_digit(#[trigger] tail[k]),
            run < tail.len() ==> !is_digit(tail[run]),
            j - start <= run,
            value >= 0,
            value as int == digits_value(tail.take(j - start)),
            input@.subrange(start as int, start + run) == tail.take(run),
            start as int == ascii_ws_end(input@, c + 1),
            index_of_from(input@, 58u8, p + key@.len()) == Some(c as int),
            find_from(input@, key@, from as int) == Some(p as int),
        decreases input@.len() - j,
    {
        let ghost k = (j - start + 1) as int;
        proof {
            if j - start == run {
                assert(tail[run] == input@[j as int]);
            }
            assert(tail.take(k).drop_last() =~= tail.take(k - 1));
            assert(tail.take(k).last() == input@[j as int]);
            assert(tail.take(run).take(k) =~= tail.take(k));
            lemma_digits_prefix_le(tail.take(run), k);
        }
        let d = (input[j] - 48u8) as i32;
        let m = match value.checked_mul(10) {
            Some(m) => m,
            None => return None,
        };
        value = match m.checked_add(d) {
            Some(v) => v,
            None => return None,
        };
        j = j + 1;
    }
    proof {
        if j - start < run {
            assert(tail[j - start] == input@[j as int]);
        }
    }
    if j == start {
        return None;
    }
    Some(value)
}

/// The activity class of the window whose object starts at `from`: the text
/// up to the next closing brace says `quiet`, `clipped` or
/// `background_dominant`, else it is a possible event.
pub open spec fn quality_spec(s: Seq<u8>, from: int) -> Seq<u8> {
    let end = match find_from(s, "}".spec_bytes(), from) {
        Some(e) => e,
        None => s.len() as int,
    };
    let object = s.subrange(from, end);
    if find_spec(object, "quiet\"".spec_bytes()) is Some {
        "silence".spec_bytes()
    } else if find_spec(object, "clipped\"".spec_bytes()) is Some {
        "clipped".spec_bytes()
    } else if find_spec(object, "background_dominant".spec_bytes()) is Some {
        "background".spec_bytes()
    } else {
        "possible-event".spec_bytes()
    }
}

proof fn lemma_activity_keys()
    ensures
        "}".spec_bytes().len() == 1,
        "quiet\"".spec_bytes().len() > 0,
        "clipped\"".spec_bytes().len() > 0,
        "background_dominant".spec_bytes().len() > 0,
        "\"start_ms\"".spec_bytes().len() == 10,
        "\"end_ms\"".spec_bytes().len() > 0,
{
    broadcast use vstd::string::group_string_axioms;
    reveal_strlit("}");
    reveal_strlit("quiet\"");
    reveal_strlit("clipped\"");
    reveal_strlit("background_dominant");
    reveal_strlit("\"start_ms\"");
    reveal_strlit("\"end_ms\"");
    assert(vstd::string::is_ascii("}"));
    assert(vstd::string::is_ascii("quiet\""));
    assert(vstd::string::is_ascii("clipped\""));
    assert(vstd::string::is_ascii("background_dominant"));
    assert(vstd::string::is_ascii("\"start_ms\""));
    assert(vstd::string::is_ascii("\"end_ms\""));
}

/// The activity class of the window whose object starts at `from`.
pub fn quality_state(input: &[u8], from: usize) -> (r: &'static [u8])
    requires
        from <= input@.len(),
    ensures
        r@ == quality_spec(input@, from as int),
{
    proof {
        lemma_activity_keys();
    }
    let end = match find(input, "}".as_bytes(), from) {
        Some(e) => e,
        None => input.len(),
    };
    let object = &input[from..end];
    if crate::scan::contains(object, "quiet\"".as_bytes()) {
        "silence".as_bytes()
    } else if crate::scan::contains(object, "clipped\"".as_bytes()) {
        "clipped".as_bytes()
    } else if crate::scan::contains(object, "background_dominant".as_bytes()) {
        "background".as_bytes()
    } else {
        "possible-event".as_bytes()
    }
}


/// Appends `bytes` at `*at` when they fit whole.
pub fn put(output: &mut [u8], at: &mut usize, bytes: &[u8])
    ensures
        (final(output)@, *final(at) as int) == whole_write(old(output)@, *old(at) as int, bytes@),
        final(output)@.len() == old(output)@.len(),
{
    *at = copy(output, *at, bytes);
}

proof fn lemma_copies_push(o: Seq<u8>, b: int, ch: Seq<Seq<u8>>, x: Seq<u8>)
    ensures
        copies(o, b, ch.push(x)) == whole_write(copies(o, b, ch).0, copies(o, b, ch).1, x),
{
    assert(ch.push(x).drop_last() =~= ch);
}

/// The chunks in which a count is written: `0` whole, a positive value digit
/// by digit, and nothing for a negative value.
pub open spec fn count_chunks(v: int) -> Seq<Seq<u8>> {
    if v == 0 {
        seq![seq![48u8]]
    } else if v > 0 {
        byte_chunks(decimal(v as nat))
    } else {
        Seq::empty()
    }
}

/// Appends `value` in decimal, each digit where it fits; a negative value
/// writes nothing.
pub fn number(output: &mut [u8], at: &mut usize, value: i32)
    ensures
        (final(output)@, *final(at) as int) == copies(old(output)@, *old(at) as int, count_chunks(value as int)),
        final(output)@.len() == old(output)@.len(),
{
    let ghost o = output@;
    let ghost b = *at as int;
    if value == 0 {
        let mut zero: Vec<u8> = Vec::new();
        zero.push(48u8);
        put(output, at, zero.as_slice());
        proof {
            lemma_copies_push(o, b, Seq::empty(), zero@);
            assert(Seq::<Seq<u8>>::empty().push(zero@) =~= seq![seq![48u8]]);
        }
        return;
    }
    if value < 0 {
        return;
    }
    let digits = decimal_digits(value as u64);
    let ds = digits.as_slice();
    let mut k: usize = 0;
    assert(byte_chunks(ds@).take(0) =~= Seq::<Seq<u8>>::empty());
    while k < ds.len()
        invariant
            k <= ds@.len(),
            ds@ == decimal(value as nat),
            (output@, *at as int) == copies(o, b, byte_chunks(ds@).take(k as int)),
            output@.len() == o.len(),
        decreases ds@.len() - k,
    {
        let one = &ds[k..k + 1];
        proof {
            assert(one@ =~= seq![ds@[k as int]]);
            assert(byte_chunks(ds@).take(k as int + 1) =~= byte_chunks(ds@).take(k as int).push(one@));
            lemma_copies_push(o, b, byte_chunks(ds@).take(k as int), one@);
        }
        put(output, at, one);
        k = k + 1;
    }
    assert(byte_chunks(ds@).take(k as int) =~= byte_chunks(ds@));
}

/// The chunks of one interval entry.
pub open spec fn interval_chunks(first: bool, start: int, end: int, activity: Seq<u8>, count: int) -> Seq<Seq<u8>> {
    (if first { Seq::empty() } else { seq![",".spec_bytes()] }) + seq!["{\"start_ms\":".spec_bytes()]
        + count_chunks(start) + seq![",\"end_ms\":".spec_bytes()] + count_chunks(end) + seq![
        ",\"activity\":\"".spec_bytes(),
        activity,
        "\",\"window_count\":".spec_bytes(),
    ] + count_chunks(count) + seq!["}".spec_bytes()]
}

/// Appends one interval entry, with a comma before all but the first.
pub fn emit_interval(output: &mut [u8], at: &mut usize, first: bool, start: i32, end: i32, activity: &[u8], count: i32)
    ensures
        (final(output)@, *final(at) as int) == copies(old(output)@, *old(at) as int, interval_chunks(first, start as int, end as int, activity@, count as int)),
        final(output)@.len() == old(output)@.len(),
{
    let ghost o = output@;
    let ghost b = *at as int;
    let ghost mut ch = Seq::<Seq<u8>>::empty();
    if !first {
        let l = ",".as_bytes();
        proof { lemma_copies_push(o, b, ch, l@); }
        put(output, at, l);
        proof { ch = ch.push(l@); }
    }
    let l = "{\"start_ms\":".as_bytes();
    proof { lemma_copies_push(o, b, ch, l@); }
    put(output, at, l);
    proof { ch = ch.push(l@); lemma_copies_concat(o, b, ch, count_chunks(start as int)); }
    number(output, at, start);
    proof { ch = ch + count_chunks(start as int); }
    let l = ",\"end_ms\":".as_bytes();
    proof { lemma_copies_push(o, b, ch, l@); }
    put(output, at, l);
    proof { ch = ch.push(l@); lemma_copies_concat(o, b, ch, count_chunks(end as int)); }
    number(output, at, end);
    proof { ch = ch + count_chunks(end as int); }
    let l = ",\"activity\":\"".as_bytes();
    proof { lemma_copies_push(o, b, ch, l@); }
    put(output, at, l);
    proof { ch = ch.push(l@); lemma_copies_push(o, b, ch, activity@); }
    put(output, at, activity);
    proof { ch = ch.push(activity@); }
    let l = "\",\"window_count\":".as_bytes();
    proof { lemma_copies_push(o, b, ch, l@); }
    put(output, at, l);
    proof { ch = ch.push(l@); lemma_copies_concat(o, b, ch, count_chunks(count as int)); }
    number(output, at, count);
    proof { ch = ch + count_chunks(count as int); }
    let l = "}".as_bytes();
    proof { lemma_copies_push(o, b, ch, l@); }
    put(output, at, l);
    proof {
        ch = ch.push(l@);
        assert(ch =~= interval_chunks(first, start as int, end as int, activity@, count as int));
    }
}

/// The chunks of an error document.
pub open spec fn error_chunks(code: Seq<u8>) -> Seq<Seq<u8>> {
    seq!["{\"error\":\"".spec_bytes(), code, "\"}".spec_bytes()]
}

/// Writes an error document at the start of `output`.
pub fn error(output: &mut [u8], code: &[u8]) -> (r: usize)
    ensures
        holds_greedy(final(output)@, r as int, error_chunks(code@)),
        final(output)@.len() == old(output)@.len(),
{
    let ghost o = output@;
    let mut at: usize = 0;
    let l1 = "{\"error\":\"".as_bytes();
    let l2 = "\"}".as_bytes();
    proof { lemma_copies_push(o, 0, Seq::empty(), l1@); }
    put(output, &mut at, l1);
    proof { lemma_copies_push(o, 0, seq![l1@], code@); assert(Seq::<Seq<u8>>::empty().push(l1@) =~= seq![l1@]); }
    put(output, &mut at, code);
    proof { lemma_copies_push(o, 0, seq![l1@, code@], l2@); assert(seq![l1@].push(code@) =~= seq![l1@, code@]); }
    put(output, &mut at, l2);
    proof {
        assert(seq![l1@, code@].push(l2@) =~= error_chunks(code@));
        lemma_holds_greedy_start(o);
        lemma_copies_greedy(o, 0, Seq::empty(), error_chunks(code@));
        assert(Seq::<Seq<u8>>::empty() + error_chunks(code@) =~= error_chunks(code@));
    }
    at
}


/// The interval being built: its start and end, how many windows it merges,
/// and their activity class.
pub ghost struct Run {
    pub start: int,
    pub end: int,
    pub count: int,
    pub activity: Seq<u8>,
}

/// The closing chunks after the intervals.
pub open spec fn closing_chunks(windows: int) -> Seq<Seq<u8>> {
    seq!["],\"represented_window_count\":".spec_bytes()] + count_chunks(windows) + seq!["}".spec_bytes()]
}

/// The scan over the windows from `cursor`: `acc` holds the chunks written
/// so far, `run` the interval being built. Gives every chunk of the
/// document, or the error that refuses the request.
#[verifier::opaque]
pub open spec fn classify_scan(s: Seq<u8>, cursor: int, windows: int, first: bool, run: Run, acc: Seq<Seq<u8>>) -> Result<Seq<Seq<u8>>, Seq<u8>>
    decreases s.len() - cursor,
{
    match find_from(s, "\"start_ms\"".spec_bytes(), cursor) {
        None => {
            let done = if run.count > 0 {
                acc + interval_chunks(first, run.start, run.end, run.activity, run.count)
            } else {
                acc
            };
            Ok(done + closing_chunks(windows))
        },
        Some(position) => if position < cursor || position + 10 > s.len() {
            Err(Seq::empty())
        } else if windows >= 4096 {
            Err("window_limit_exceeded".spec_bytes())
        } else {
            let ns = match integer_spec(s, "\"start_ms\"".spec_bytes(), position) {
                Some(v) => v,
                None => -1,
            };
            let ne = match integer_spec(s, "\"end_ms\"".spec_bytes(), position) {
                Some(v) => v,
                None => -1,
            };
            if ns < 0 || ne <= ns {
                Err("invalid_window_interval".spec_bytes())
            } else {
                let na = quality_spec(s, position);
                if run.count > 0 && na == run.activity && run.end == ns {
                    classify_scan(
                        s,
                        position + 10,
                        windows + 1,
                        first,
                        Run { start: run.start, end: ne, count: run.count + 1, activity: run.activity },
                        acc,
                    )
                } else {
                    let acc2 = if run.count > 0 {
                        acc + interval_chunks(first, run.start, run.end, run.activity, run.count)
                    } else {
                        acc
                    };
                    classify_scan(
                        s,
                        position + 10,
                        windows + 1,
                        if run.count > 0 { false } else { first },
                        Run { start: ns, end: ne, count: 1, activity: na },
                        acc2,
                    )
                }
            }
        },
    }
}


/// What the scan gives when no window is left.
proof fn lemma_scan_done(s: Seq<u8>, cursor: int, windows: int, first: bool, run: Run, acc: Seq<Seq<u8>>)
    requires
        find_from(s, "\"start_ms\"".spec_bytes(), cursor) is None,
    ensures
        classify_scan(s, cursor, windows, first, run, acc) == Ok::<Seq<Seq<u8>>, Seq<u8>>(
            (if run.count > 0 {
                acc + interval_chunks(first, run.start, run.end, run.activity, run.count)
            } else {
                acc
            }) + closing_chunks(windows),
        ),
{
    reveal(classify_scan);
}

/// What the scan gives at a window that refuses the request.
proof fn lemma_scan_refused(s: Seq<u8>, cursor: int, windows: int, first: bool, run: Run, acc: Seq<Seq<u8>>, p: int)
    requires
        find_from(s, "\"start_ms\"".spec_bytes(), cursor) == Some(p),
        cursor <= p,
        p + 10 <= s.len(),
    ensures
        windows >= 4096 ==> classify_scan(s, cursor, windows, first, run, acc) == Err::<Seq<Seq<u8>>, Seq<u8>>("window_limit_exceeded".spec_bytes()),
        windows < 4096 && ({
            let ns = match integer_spec(s, "\"start_ms\"".spec_bytes(), p) { Some(v) => v, None => -1 };
            let ne = match integer_spec(s, "\"end_ms\"".spec_bytes(), p) { Some(v) => v, None => -1 };
            ns < 0 || ne <= ns
        }) ==> classify_scan(s, cursor, windows, first, run, acc) == Err::<Seq<Seq<u8>>, Seq<u8>>("invalid_window_interval".spec_bytes()),
{
    reveal(classify_scan);
}

/// One window that continues the interval being built.
proof fn lemma_scan_merge(s: Seq<u8>, cursor: int, windows: int, first: bool, run: Run, acc: Seq<Seq<u8>>, p: int, ns: int, ne: int)
    requires
        find_from(s, "\"start_ms\"".spec_bytes(), cursor) == Some(p),
        cursor <= p,
        p + 10 <= s.len(),
        windows < 4096,
        integer_spec(s, "\"start_ms\"".spec_bytes(), p) == Some(ns),
        integer_spec(s, "\"end_ms\"".spec_bytes(), p) == Some(ne),
        0 <= ns < ne,
        run.count > 0 && quality_spec(s, p) == run.activity && run.end == ns,
    ensures
        classify_scan(s, cursor, windows, first, run, acc) == classify_scan(
            s,
            p + 10,
            windows + 1,
            first,
            Run { start: run.start, end: ne, count: run.count + 1, activity: run.activity },
            acc,
        ),
{
    reveal(classify_scan);
}

/// One window that starts a new interval, closing the one being built.
proof fn lemma_scan_new(s: Seq<u8>, cursor: int, windows: int, first: bool, run: Run, acc: Seq<Seq<u8>>, p: int, ns: int, ne: int)
    requires
        find_from(s, "\"start_ms\"".spec_bytes(), cursor) == Some(p),
        cursor <= p,
        p + 10 <= s.len(),
        windows < 4096,
        integer_spec(s, "\"start_ms\"".spec_bytes(), p) == Some(ns),
        integer_spec(s, "\"end_ms\"".spec_bytes(), p) == Some(ne),
        0 <= ns < ne,
        !(run.count > 0 && quality_spec(s, p) == run.activity && run.end == ns),
    ensures
        classify_scan(s, cursor, windows, first, run, acc) == classify_scan(
            s,
            p + 10,
            windows + 1,
            if run.count > 0 { false } else { first },
            Run { start: ns, end: ne, count: 1, activity: quality_spec(s, p) },
            if run.count > 0 {
                acc + interval_chunks(first, run.start, run.end, run.activity, run.count)
            } else {
                acc
            },
        ),
{
    reveal(classify_scan);
}

/// The chunks of the response to `input`.
pub open spec fn classify_chunks(s: Seq<u8>) -> Seq<Seq<u8>> {
    match classify_scan(
        s,
        0,
        0,
        true,
        Run { start: 0, end: 0, count: 0, activity: Seq::empty() },
        seq!["{\"policy_version\":\"activity-1\",\"intervals\":[".spec_bytes()],
    ) {
        Ok(c) => c,
        Err(code) => error_chunks(code),
    }
}

/// Merges the analysis windows of `input` into activity intervals and
/// writes the response document to `output`; returns its length.
#[verifier::rlimit(40)]
pub fn classify(input: &[u8], output: &mut [u8]) -> (r: usize)
    ensures
        holds_greedy(final(output)@, r as int, classify_chunks(input@)),
        final(output)@.len() == old(output)@.len(),
{
    proof {
        lemma_activity_keys();
    }
    let ghost o = output@;
    let mut at: usize = 0;
    let head = "{\"policy_version\":\"activity-1\",\"intervals\":[".as_bytes();
    proof { lemma_copies_push(o, 0, Seq::empty(), head@); }
    put(output, &mut at, head);
    let ghost mut acc = seq![head@];
    assert(Seq::<Seq<u8>>::empty().push(head@) =~= acc);
    let mut cursor: usize = 0;
    let mut windows: usize = 0;
    let mut first = true;
    let mut start: i32 = 0;
    let mut end: i32 = 0;
    let mut count: i32 = 0;
    let mut activity: &[u8] = "".as_bytes();
    let ghost target = classify_scan(
        input@,
        0,
        0,
        true,
        Run { start: 0, end: 0, count: 0, activity: Seq::empty() },
        acc,
    );
    proof {
        broadcast use vstd::string::group_string_axioms;
        reveal_strlit("");
    }
    loop
        invariant
            "\"start_ms\"".spec_bytes().len() == 10,
            "\"end_ms\"".spec_bytes().len() > 0,
            cursor <= input@.len(),
            o == old(output)@,
            windows <= 4096,
            0 <= count <= windows,
            output@.len() == o.len(),
            (output@, at as int) == copies(o, 0, acc),
            classify_scan(
                input@,
                cursor as int,
                windows as int,
                first,
                Run { start: start as int, end: end as int, count: count as int, activity: activity@ },
                acc,
            ) == target,
            target == classify_scan(
                input@,
                0,
                0,
                true,
                Run { start: 0, end: 0, count: 0, activity: Seq::empty() },
                seq!["{\"policy_version\":\"activity-1\",\"intervals\":[".spec_bytes()],
            ),
        ensures
            find_from(input@, "\"start_ms\"".spec_bytes(), cursor as int) is None,
        decreases input@.len() - cursor,
    {
        let position = match find(input, "\"start_ms\"".as_bytes(), cursor) {
            Some(p) => p,
            None => {
                break;
            },
        };
        proof {
            lemma_scan_refused(
                input@,
                cursor as int,
                windows as int,
                first,
                Run { start: start as int, end: end as int, count: count as int, activity: activity@ },
                acc,
                position as int,
            );
        }
        if windows >= WINDOW_LIMIT {
            return error(output, "window_limit_exceeded".as_bytes());
        }
        let next_start = match integer(input, "\"start_ms\"".as_bytes(), position) {
            Some(v) => v,
            None => -1,
        };
        let next_end = match integer(input, "\"end_ms\"".as_bytes(), position) {
            Some(v) => v,
            None => -1,
        };
        if next_start < 0 || next_end <= next_start {
            return error(output, "invalid_window_interval".as_bytes());
        }
        let next_activity = quality_state(input, position);
        let ghost run0 = Run { start: start as int, end: end as int, count: count as int, activity: activity@ };
        if count > 0 && crate::scan::bytes_eq(next_activity, activity) && end == next_start {
            proof {
                lemma_scan_merge(input@, cursor as int, windows as int, first, run0, acc, position as int, next_start as int, next_end as int);
            }
            end = next_end;
            count = count + 1;
        } else {
            proof {
                lemma_scan_new(input@, cursor as int, windows as int, first, run0, acc, position as int, next_start as int, next_end as int);
            }
            if count > 0 {
                let ghost before = acc;
                proof {
                    lemma_copies_concat(o, 0, acc, interval_chunks(first, start as int, end as int, activity@, count as int));
                }
                emit_interval(output, &mut at, first, start, end, activity, count);
                proof {
                    acc = acc + interval_chunks(first, start as int, end as int, activity@, count as int);
                }
                first = false;
            }
            start = next_start;
            end = next_end;
            count = 1;
            activity = next_activity;
        }
        windows = windows + 1;
        cursor = position + 10;
    }
    proof {
        lemma_scan_done(
            input@,
            cursor as int,
            windows as int,
            first,
            Run { start: start as int, end: end as int, count: count as int, activity: activity@ },
            acc,
        );
    }
    if count > 0 {
        proof {
            lemma_copies_concat(o, 0, acc, interval_chunks(first, start as int, end as int, activity@, count as int));
        }
        emit_interval(output, &mut at, first, start, end, activity, count);
        proof {
            acc = acc + interval_chunks(first, start as int, end as int, activity@, count as int);
        }
    }
    let ghost done = acc;
    let l = "],\"represented_window_count\":".as_bytes();
    proof { lemma_copies_push(o, 0, acc, l@); }
    put(output, &mut at, l);
    proof {
        acc = acc.push(l@);
        lemma_copies_concat(o, 0, acc, count_chunks(windows as int));
    }
    number(output, &mut at, windows as i32);
    proof { acc = acc + count_chunks(windows as int); }
    let l = "}".as_bytes();
    proof { lemma_copies_push(o, 0, acc, l@); }
    put(output, &mut at, l);
    proof {
        acc = acc.push(l@);
        assert(acc =~= done + closing_chunks(windows as int));
        lemma_holds_greedy_start(o);
        lemma_copies_greedy(o, 0, Seq::empty(), acc);
        assert(Seq::<Seq<u8>>::empty() + acc =~= acc);
    }
    at
}

} // verus!
