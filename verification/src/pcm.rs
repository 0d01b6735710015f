//! PCM sample-rate and channel conversion.
use vstd::prelude::*;
use vstd::string::StringSliceAdditionalSpecFns;
use crate::scan::{digit_run, digits_value, find, find_spec, index_of_from, is_digit, is_ws, lemma_digit_run, lemma_digits_prefix_le};
use crate::emit::{byte_chunks, copies, copy_next, copy_signed, signed_chunks, decimal, decimal_digits, holds_greedy, lemma_copies_concat, lemma_copies_greedy, lemma_holds_greedy_start, splice, whole_write};

verus! {

/// The largest request accepted, in bytes.
pub const MAX_INPUT_BYTES: usize = 4_000_000;

/// The size of the response buffer the capability writes into.
pub const MAX_OUTPUT_BYTES: usize = 4_000_000;

/// The most samples a signal may hold, input or output.
pub const MAX_SAMPLES: usize = 480_000;

/// A bounded output writer: a piece lands only where it fits whole.
pub struct Writer<'a> {
    pub bytes: &'a mut [u8],
    pub position: usize,
}

impl<'a> Writer<'a> {
    /// Appends `value` whole, or nothing when it does not fit.
    pub fn bytes(&mut self, value: &[u8])
        ensures
            (final(self).bytes@, final(self).position as int) == whole_write(old(self).bytes@, old(self).position as int, value@),
    {
        if value.len() <= self.bytes.len() && self.position <= self.bytes.len() - value.len() {
            let ghost o = self.bytes@;
            let at = self.position;
            let mut k: usize = 0;
            while k < value.len()
                invariant
                    k <= value@.len(),
                    at + value@.len() <= self.bytes.len(),
                    at == self.position,
                    self.bytes@ == splice(o, at as int, value@.take(k as int)),
                    o.len() == self.bytes@.len(),
                decreases value@.len() - k,
            {
                self.bytes[at + k] = value[k];
                k = k + 1;
                assert(self.bytes@ =~= splice(o, at as int, value@.take(k as int)));
            }
            assert(value@.take(k as int) =~= value@);
            self.position = at + value.len();
        }
    }

    /// Appends the decimal digits of `value`, each where it fits.
    pub fn unsigned(&mut self, value: u64)
        ensures
            (final(self).bytes@, final(self).position as int) == copies(
                old(self).bytes@,
                old(self).position as int,
                byte_chunks(decimal(value as nat)),
            ),
    {
        let ghost o = self.bytes@;
        let ghost at = self.position as int;
        let digits = decimal_digits(value);
        let ds = digits.as_slice();
        let mut k: usize = 0;
        assert(byte_chunks(ds@).take(0) =~= Seq::<Seq<u8>>::empty());
        while k < ds.len()
            invariant
                k <= ds@.len(),
                ds@ == decimal(value as nat),
                (self.bytes@, self.position as int) == copies(o, at, byte_chunks(ds@).take(k as int)),
            decreases ds@.len() - k,
        {
            let one = &ds[k..k + 1];
            proof {
                assert(one@ =~= seq![ds@[k as int]]);
                assert(byte_chunks(ds@).take(k as int + 1) =~= byte_chunks(ds@).take(k as int).push(one@));
                assert(byte_chunks(ds@).take(k as int + 1).drop_last() =~= byte_chunks(ds@).take(k as int));
            }
            self.bytes(one);
            k = k + 1;
        }
        assert(byte_chunks(ds@).take(k as int) =~= byte_chunks(ds@));
    }

    /// Appends `value` in decimal: a minus sign for a negative value, then
    /// the digits of its magnitude, each where it fits.
    pub fn number(&mut self, value: i64)
        ensures
            (final(self).bytes@, final(self).position as int) == copies(
                old(self).bytes@,
                old(self).position as int,
                signed_chunks(value as int),
            ),
    {
        let ghost o = self.bytes@;
        let ghost at = self.position as int;
        if value < 0 {
            let mut minus: Vec<u8> = Vec::new();
            minus.push(45u8);
            self.bytes(minus.as_slice());
            proof {
                assert(seq![seq![45u8]].drop_last() =~= Seq::<Seq<u8>>::empty());
                assert(minus@ =~= seq![45u8]);
                assert(copies(o, at, Seq::<Seq<u8>>::empty()) == (o, at));
                assert(copies(o, at, seq![seq![45u8]]) == whole_write(o, at, seq![45u8]));
                assert((self.bytes@, self.position as int) == copies(o, at, seq![seq![45u8]]));
            }
            let wide: i128 = -(value as i128);
            let m = wide as u64;
            assert(m as nat == (-value) as nat);
            proof {
                lemma_copies_concat(o, at, seq![seq![45u8]], byte_chunks(decimal(m as nat)));
            }
            self.unsigned(m);
        } else {
            self.unsigned(value as u64);
            proof {
                if value == 0 {
                    assert(decimal(0) =~= seq![48u8]);
                    assert(byte_chunks(decimal(0)) =~= seq![seq![48u8]]);
                }
            }
        }
    }
}

/// The chunks of an error document with result class `code`.
pub open spec fn error_chunks(code: Seq<u8>) -> Seq<Seq<u8>> {
    seq!["{\"result_class\":\"".spec_bytes(), code, "\"}".spec_bytes()]
}

/// Writes an error document with result class `code` at the start of
/// `output`.
pub fn error(output: &mut [u8], code: &str) -> (r: usize)
    ensures
        holds_greedy(final(output)@, r as int, error_chunks(code.spec_bytes())),
        final(output)@.len() == old(output)@.len(),
{
    let ghost o = output@;
    let ghost ch = error_chunks(code.spec_bytes());
    let l1 = "{\"result_class\":\"".as_bytes();
    let c = code.as_bytes();
    let l2 = "\"}".as_bytes();
    let ghost c1 = seq![l1@];
    let ghost c2 = seq![l1@, c@];
    let i = copy_next(output, 0, l1, Ghost(o), Ghost(0), Ghost(Seq::empty()));
    assert(Seq::<Seq<u8>>::empty().push(l1@) =~= c1);
    let i = copy_next(output, i, c, Ghost(o), Ghost(0), Ghost(c1));
    assert(c1.push(c@) =~= c2);
    let i = copy_next(output, i, l2, Ghost(o), Ghost(0), Ghost(c2));
    proof {
        assert(Seq::<Seq<u8>>::empty().push(l1@) =~= seq![l1@]);
        assert(seq![l1@].push(c@) =~= seq![l1@, c@]);
        assert(seq![l1@, c@].push(l2@) =~= ch);
        lemma_holds_greedy_start(o);
        lemma_copies_greedy(o, 0, Seq::empty(), ch);
        assert(Seq::<Seq<u8>>::empty() + ch =~= ch);
    }
    i
}


/// The index of the first byte at or after `i` that is not whitespace.
pub open spec fn ws_end(s: Seq<u8>, i: int) -> int
    decreases s.len() - i,
{
    if 0 <= i < s.len() && is_ws(s[i]) {
        ws_end(s, i + 1)
    } else {
        i
    }
}

/// Moves `index` past the whitespace of `input` that starts there.
pub fn skip_space(input: &[u8], index: &mut usize)
    ensures
        *final(index) as int == ws_end(input@, *old(index) as int),
{
    while *index < input.len() && (input[*index] == 32u8 || input[*index] == 10u8 || input[*index]
        == 13u8 || input[*index] == 9u8)
        invariant
            ws_end(input@, *index as int) == ws_end(input@, *old(index) as int),
        decreases input@.len() - *index,
    {
        *index = *index + 1;
    }
}

/// The integer literal at `i` of `s`: an optional minus, then at least one
/// digit; refused when its magnitude passes `i32::MAX` (or, for a negative
/// one, 2^31). Gives the value and the index after the digits.
pub open spec fn signed_integer_spec(s: Seq<u8>, i: int) -> Option<(int, int)> {
    let neg = 0 <= i < s.len() && s[i] == 45u8;
    let start = if neg { i + 1 } else { i };
    let run = digit_run(s.skip(start)) as int;
    let value = digits_value(s.subrange(start, start + run)) as int;
    let limit = if neg { 0x8000_0000int } else { 0x7fff_ffffint };
    if i < 0 || i > s.len() || run == 0 || value > limit {
        None
    } else {
        Some((if neg { -value } else { value }, start + run))
    }
}

/// Reads the integer literal at `index` of `input`; returns its value and
/// the index after it.
pub fn signed_integer(input: &[u8], index: usize) -> (r: Option<(i32, usize)>)
    ensures
        match r {
            Some(p) => signed_integer_spec(input@, index as int) == Some((p.0 as int, p.1 as int)),
            None => signed_integer_spec(input@, index as int) is None,
        },
{
    let ghost i0 = index as int;
    let mut j = index;
    let negative = j < input.len() && input[j] == 45u8;
    if negative {
        j = j + 1;
    }
    let start = j;
    if start > input.len() {
        return None;
    }
    let ghost tail = input@.skip(start as int);
    let ghost run = digit_run(tail) as int;
    proof {
        lemma_digit_run(tail);
        assert(tail.take(0) =~= Seq::<u8>::empty());
        assert(input@.subrange(start as int, start + run) =~= tail.take(run));
    }
    let limit: u32 = if negative {
        0x8000_0000
    } else {
        0x7fff_ffff
    };
    let mut value: u32 = 0;
    while j < input.len() && input[j] >= 48u8 && input[j] <= 57u8
        invariant
            start <= j <= input@.len(),
            tail == input@.skip(start as int),
            run == digit_run(tail),
            run <= tail.len(),
            forall|k: int| 0 <= k < run ==> is_digit(#[trigger] tail[k]),
            run < tail.len() ==> !is_digit(tail[run]),
            j - start <= run,
            value as int == digits_value(tail.take(j - start)),
            value <= limit,
            limit == (if negative { 0x8000_0000u32 } else { 0x7fff_ffffu32 }),
            i0 == index as int,
            negative == (0 <= i0 < input@.len() && input@[i0] == 45u8),
            start == (if negative { i0 + 1 } else { i0 }),
            input@.subrange(start as int, start + run) == tail.take(run),
        decreases input@.len() - j,
    {
        let ghost k = (j - start + 1) as int;
        proof {
            if j - start == run {
                assert(tail[run] == input@[j as int]);
            }
            assert(tail.take(k).drop_last() =~= tail.take(k - 1));
            assert(tail.take(k).last() == input@[j as int]);
            assert(tail.take(run).take(k) =~= tail.take(k));
            lemma_digits_prefix_le(tail.take(run), k);
        }
        let d = (input[j] - 48u8) as u32;
        let p = match value.checked_mul(10) {
            Some(p) => p,
            None => {
                assert(digits_value(tail.take(k)) > limit);
                assert(digits_value(tail.take(run)) > limit);
                return None;
            },
        };
        let q = match p.checked_add(d) {
            Some(q) => q,
            None => {
                assert(digits_value(tail.take(k)) > limit);
                return None;
            },
        };
        if q > limit {
            return None;
        }
        value = q;
        j = j + 1;
    }
    proof {
        if j - start < run {
            assert(tail[j - start] == input@[j as int]);
        }
    }
    if j == start {
        return None;
    }
    let signed: i32 = if negative {
        if value == 0x8000_0000 {
            i32::MIN
        } else {
            -(value as i32)
        }
    } else {
        value as i32
    };
    Some((signed, j))
}

/// The index of the first colon at or after `from` in `input`.
fn colon_from(input: &[u8], from: usize) -> (r: Option<usize>)
    ensures
        match r {
            Some(c) => index_of_from(input@, 58u8, from as int) == Some(c as int) && c < input@.len(),
            None => index_of_from(input@, 58u8, from as int) is None,
        },
{
    let mut i = from;
    while i < input.len() && input[i] != 58u8
        invariant
            from <= i,
            index_of_from(input@, 58u8, from as int) == index_of_from(input@, 58u8, i as int),
        decreases input@.len() - i,
    {
        i = i + 1;
    }
    if i < input.len() {
        Some(i)
    } else {
        None
    }
}

/// The integer after the colon that follows the first `key` of `input`.
pub open spec fn integer_spec(s: Seq<u8>, key: Seq<u8>) -> Option<int> {
    match find_spec(s, key) {
        None => None,
        Some(p) => match index_of_from(s, 58u8, p) {
            None => None,
            Some(c) => match signed_integer_spec(s, ws_end(s, c + 1)) {
                Some(x) => Some(x.0),
                None => None,
            },
        },
    }
}

/// The integer after the colon that follows the first `key` of `input`.
pub fn integer(input: &[u8], key: &[u8]) -> (r: Option<i32>)
    requires
        key@.len() > 0,
    ensures
        match r {
            Some(v) => integer_spec(input@, key@) == Some(v as int),
            None => integer_spec(input@, key@) is None,
        },
{
    let start = match find(input, key) {
        Some(s) => s,
        None => return None,
    };
    let colon = match colon_from(input, start) {
        Some(c) => c,
        None => return None,
    };
    let mut index = colon + 1;
    skip_space(input, &mut index);
    match signed_integer(input, index) {
        Some(p) => Some(p.0),
        None => None,
    }
}


proof fn lemma_ws_end(s: Seq<u8>, x: int)
    ensures
        x <= ws_end(s, x),
        0 <= x <= s.len() ==> ws_end(s, x) <= s.len(),
        ws_end(s, ws_end(s, x)) == ws_end(s, x),
    decreases s.len() - x,
{
    if 0 <= x < s.len() && is_ws(s[x]) {
        lemma_ws_end(s, x + 1);
    }
}

/// The samples of an array body read from index `i` of `s` after `acc`:
/// integers within the range of `i16`, separated by commas, ending at the
/// closing bracket; refused when a value is out of range, a comma trails,
/// or more than `cap` values are given.
pub open spec fn items_from(s: Seq<u8>, i: int, acc: Seq<i16>, cap: nat) -> Option<Seq<i16>>
    decreases s.len() + 1 - i,
{
    let j = ws_end(s, i);
    if j < s.len() && s[j] == 93u8 && 0 <= j {
        Some(acc)
    } else if acc.len() >= cap {
        None
    } else {
        match signed_integer_spec(s, j) {
            None => None,
            Some(p) => {
                let v = p.0;
                let next = p.1;
                if v < -32768 || v > 32767 {
                    None
                } else {
                    let acc2 = acc.push(v as i16);
                    let k = ws_end(s, next);
                    if 0 <= k < s.len() && s[k] == 44u8 {
                        let m = ws_end(s, k + 1);
                        if m <= i || m > s.len() {
                            None
                        } else if m < s.len() && s[m] == 93u8 {
                            None
                        } else {
                            items_from(s, m, acc2, cap)
                        }
                    } else if 0 <= k < s.len() && s[k] == 93u8 {
                        Some(acc2)
                    } else {
                        None
                    }
                }
            },
        }
    }
}

/// The samples array of a request: the integers of the array after the
/// colon that follows the first `"samples_s16"`, at most `cap` of them.
pub open spec fn sample_array_spec(s: Seq<u8>, cap: nat) -> Option<Seq<i16>> {
    match find_spec(s, "\"samples_s16\"".spec_bytes()) {
        None => None,
        Some(p) => match index_of_from(s, 58u8, p) {
            None => None,
            Some(c) => {
                let j = ws_end(s, c + 1);
                if 0 <= j < s.len() && s[j] == 91u8 {
                    items_from(s, j + 1, Seq::empty(), cap)
                } else {
                    None
                }
            },
        },
    }
}

proof fn lemma_pcm_keys()
    ensures
        "\"samples_s16\"".spec_bytes().len() > 0,
        "\"input_sample_rate_hz\"".spec_bytes().len() > 0,
        "\"input_channel_count\"".spec_bytes().len() > 0,
        "\"target_sample_rate_hz\"".spec_bytes().len() > 0,
        "\"target_channel_count\"".spec_bytes().len() > 0,
{
    broadcast use vstd::string::group_string_axioms;
    reveal_strlit("\"samples_s16\"");
    reveal_strlit("\"input_sample_rate_hz\"");
    reveal_strlit("\"input_channel_count\"");
    reveal_strlit("\"target_sample_rate_hz\"");
    reveal_strlit("\"target_channel_count\"");
    assert(vstd::string::is_ascii("\"samples_s16\""));
    assert(vstd::string::is_ascii("\"input_sample_rate_hz\""));
    assert(vstd::string::is_ascii("\"input_channel_count\""));
    assert(vstd::string::is_ascii("\"target_sample_rate_hz\""));
    assert(vstd::string::is_ascii("\"target_channel_count\""));
}

/// Reads the samples array of `input` into `samples`; returns how many were
/// read, or `None` when the array is missing, malformed or too long.
pub fn sample_array(input: &[u8], samples: &mut [i16]) -> (r: Option<usize>)
    ensures
        final(samples)@.len() == old(samples)@.len(),
        match r {
            Some(n) => n <= final(samples)@.len() && sample_array_spec(input@, old(samples)@.len())
                == Some(final(samples)@.take(n as int)),
            None => sample_array_spec(input@, old(samples)@.len()) is None,
        },
{
    proof {
        lemma_pcm_keys();
    }
    let ghost cap = samples@.len();
    let key = match find(input, "\"samples_s16\"".as_bytes()) {
        Some(k) => k,
        None => return None,
    };
    let colon = match colon_from(input, key) {
        Some(c) => c,
        None => return None,
    };
    let mut index = colon + 1;
    skip_space(input, &mut index);
    if !(index < input.len() && input[index] == 91u8) {
        return None;
    }
    index = index + 1;
    let mut count: usize = 0;
    let ghost target = sample_array_spec(input@, cap);
    assert(samples@.take(0) =~= Seq::<i16>::empty());
    loop
        invariant
            cap == samples@.len(),
            cap == old(samples)@.len(),
            count <= cap,
            index <= input@.len(),
            items_from(input@, index as int, samples@.take(count as int), cap) == target,
            target == sample_array_spec(input@, cap),
        decreases input@.len() + 1 - index,
    {
        let ghost i0 = index as int;
        let ghost acc = samples@.take(count as int);
        proof {
            lemma_ws_end(input@, i0);
        }
        skip_space(input, &mut index);
        if index < input.len() && input[index] == 93u8 {
            return Some(count);
        }
        if count == samples.len() {
            return None;
        }
        let (value, next) = match signed_integer(input, index) {
            Some(p) => p,
            None => return None,
        };
        if value < -32768 || value > 32767 {
            return None;
        }
        samples[count] = value as i16;
        count = count + 1;
        proof {
            assert(samples@.take(count as int) =~= acc.push(value as i16));
            lemma_ws_end(input@, next as int);
        }
        index = next;
        skip_space(input, &mut index);
        if index < input.len() && input[index] == 44u8 {
            proof {
                lemma_ws_end(input@, index + 1);
            }
            index = index + 1;
            skip_space(input, &mut index);
            if index < input.len() && input[index] == 93u8 {
                return None;
            }
        } else if index < input.len() && input[index] == 93u8 {
            return Some(count);
        } else {
            return None;
        }
    }
}


/// Division truncated toward zero, as integer division in Rust.
pub open spec fn trunc_div(a: int, b: int) -> int {
    if a >= 0 {
        a / b
    } else {
        -((-a) / b)
    }
}

/// Whether the sample buffer and layout are fit for reading `frames`
/// frames of `ic` channels for an output of `ocs` channels.
pub open spec fn layout_ok(samples: Seq<i16>, ic: int, frames: int, oc: int, ocs: int) -> bool {
    &&& ic == 1 || ic == 2
    &&& ocs == 1 || ocs == 2
    &&& 0 <= oc < ocs
    &&& 1 <= frames
    &&& frames * ic <= samples.len()
}

/// The sample that output channel `oc` takes from input frame `frame` (held
/// at the last frame): the mean of a stereo pair for mono output, else the
/// matching channel (the only one of a mono input).
pub open spec fn frame_sample(samples: Seq<i16>, ic: int, frames: int, frame: int, oc: int, ocs: int) -> int {
    let f = if frame < frames - 1 { frame } else { frames - 1 };
    if ic == 2 && ocs == 1 {
        trunc_div(samples[2 * f] + samples[2 * f + 1], 2)
    } else if ic == 1 {
        samples[f] as int
    } else {
        samples[2 * f + oc] as int
    }
}

/// The sample that output channel `output_channel` takes from input frame
/// `frame`.
pub fn source_frame(
    samples: &[i16],
    input_channels: usize,
    frames: usize,
    frame: usize,
    output_channel: usize,
    output_channels: usize,
) -> (r: i16)
    requires
        layout_ok(samples@, input_channels as int, frames as int, output_channel as int, output_channels as int),
    ensures
        r as int == frame_sample(samples@, input_channels as int, frames as int, frame as int, output_channel as int, output_channels as int),
{
    let f = if frame < frames - 1 {
        frame
    } else {
        frames - 1
    };
    assert(input_channels == 2 ==> frames * 2 <= samples.len());
    assert(input_channels == 1 ==> frames <= samples.len());
    if input_channels == 2 && output_channels == 1 {
        let sum: i32 = samples[f * 2] as i32 + samples[f * 2 + 1] as i32;
        let half: i32 = if sum >= 0 {
            sum / 2
        } else {
            -((-sum) / 2)
        };
        return half as i16;
    }
    if input_channels == 1 {
        samples[f]
    } else {
        samples[f * 2 + output_channel]
    }
}

/// The box-average scan over the output interval up to `end`, from
/// `cursor`: each input frame's bin that the interval covers adds its
/// sample weighted by the length covered.
pub open spec fn box_from(
    samples: Seq<i16>,
    ic: int,
    frames: int,
    oc: int,
    ocs: int,
    tr: int,
    end: int,
    cursor: int,
    sum: int,
    weight: int,
) -> (int, int)
    decreases end - cursor,
{
    if cursor >= end || tr <= 0 {
        (sum, weight)
    } else {
        let idx = cursor / tr;
        if idx >= frames {
            (sum, weight)
        } else {
            let bin_end = (idx + 1) * tr;
            let seg_end = if end < bin_end { end } else { bin_end };
            if seg_end <= cursor {
                (sum, weight)
            } else {
                box_from(
                    samples,
                    ic,
                    frames,
                    oc,
                    ocs,
                    tr,
                    end,
                    seg_end,
                    sum + frame_sample(samples, ic, frames, idx, oc, ocs) * (seg_end - cursor),
                    weight + (seg_end - cursor),
                )
            }
        }
    }
}

/// The box average of the input over output frame `out_frame`: the input
/// bins (of length `tr` on a common time axis) that the output interval (of
/// length `ir`) covers, weighted by how much of them it covers.
pub open spec fn box_average(
    samples: Seq<i16>,
    ic: int,
    frames: int,
    out_frame: int,
    oc: int,
    ocs: int,
    ir: int,
    tr: int,
) -> int {
    let start = out_frame * ir;
    let source_end = frames * tr;
    let end = if start + ir < source_end { start + ir } else { source_end };
    let r = box_from(samples, ic, frames, oc, ocs, tr, end, start, 0, 0);
    if r.1 == 0 {
        0
    } else {
        trunc_div(r.0, r.1)
    }
}

proof fn lemma_bin(cursor: int, tr: int, frames: int)
    requires
        cursor >= 0,
        tr >= 1,
        cursor < frames * tr,
    ensures
        cursor / tr * tr <= cursor < (cursor / tr + 1) * tr,
        cursor / tr >= 0,
        cursor / tr < frames,
{
    assert(cursor / tr < frames) by (nonlinear_arith)
        requires
            cursor >= 0,
            tr >= 1,
            cursor < frames * tr,
    ;
    assert(cursor / tr * tr <= cursor < (cursor / tr + 1) * tr) by (nonlinear_arith)
        requires
            cursor >= 0,
            tr >= 1,
    ;
    assert(cursor / tr >= 0) by (nonlinear_arith)
        requires
            cursor >= 0,
            tr >= 1,
    ;
}

/// The box average of the input over output frame `output_frame`.
pub fn downsample_box_average(
    samples: &[i16],
    input_channels: usize,
    input_frames: usize,
    output_frame: usize,
    output_channel: usize,
    output_channels: usize,
    input_rate: u64,
    target_rate: u64,
) -> (r: i64)
    requires
        layout_ok(samples@, input_channels as int, input_frames as int, output_channel as int, output_channels as int),
        1 <= target_rate <= 192_000,
        input_rate <= 192_000,
        output_frame <= 1_000_000,
        input_frames <= 4_000_000,
    ensures
        r as int == box_average(samples@, input_channels as int, input_frames as int, output_frame as int, output_channel as int, output_channels as int, input_rate as int, target_rate as int),
{
    let ghost sv = samples@;
    let ghost (ic, fr, oc, ocs, tr) = (input_channels as int, input_frames as int, output_channel as int, output_channels as int, target_rate as int);
    assert(output_frame as u64 * input_rate <= 192_000_000_000) by (nonlinear_arith)
        requires
            output_frame <= 1_000_000,
            input_rate <= 192_000,
    ;
    assert(input_frames as u64 * target_rate <= 768_000_000_000) by (nonlinear_arith)
        requires
            input_frames <= 4_000_000,
            target_rate <= 192_000,
    ;
    let start = output_frame as u64 * input_rate;
    let source_end = input_frames as u64 * target_rate;
    let end = if start + input_rate < source_end {
        start + input_rate
    } else {
        source_end
    };
    let ghost target = box_from(sv, ic, fr, oc, ocs, tr, end as int, start as int, 0, 0);
    let mut cursor = start;
    let mut weighted_sum: i64 = 0;
    let mut total_weight: u64 = 0;
    while cursor < end
        invariant
            sv == samples@,
            layout_ok(sv, ic, fr, oc, ocs),
            ic == input_channels as int,
            fr == input_frames as int,
            oc == output_channel as int,
            ocs == output_channels as int,
            tr == target_rate as int,
            1 <= target_rate <= 192_000,
            input_rate <= 192_000,
            input_frames <= 4_000_000,
            start <= cursor,
            end <= start + input_rate,
            end <= input_frames as u64 * target_rate,
            cursor <= end || (cursor == start && total_weight == 0),
            total_weight == cursor - start,
            -32768 * total_weight <= weighted_sum <= 32768 * total_weight,
            box_from(sv, ic, fr, oc, ocs, tr, end as int, cursor as int, weighted_sum as int, total_weight as int) == target,
        ensures
            target == (weighted_sum as int, total_weight as int),
            -32768 * total_weight <= weighted_sum <= 32768 * total_weight,
            total_weight <= 192_000,
        decreases end - cursor,
    {
        proof {
            lemma_bin(cursor as int, tr, fr);
        }
        let idx = cursor / target_rate;
        if idx as usize >= input_frames {
            break;
        }
        assert((idx + 1) * target_rate <= 768_000_000_000) by (nonlinear_arith)
            requires
                idx < input_frames,
                input_frames <= 4_000_000,
                target_rate <= 192_000,
        ;
        let bin_end = (idx + 1) * target_rate;
        let seg_end = if end < bin_end {
            end
        } else {
            bin_end
        };
        let weight = seg_end - cursor;
        let sample = source_frame(samples, input_channels, input_frames, idx as usize, output_channel, output_channels);
        proof {
            assert(-32768 * weight <= sample * weight <= 32767 * weight) by (nonlinear_arith)
                requires
                    -32768 <= sample <= 32767,
                    weight >= 1,
            ;
        }
        weighted_sum = weighted_sum + sample as i64 * weight as i64;
        total_weight = total_weight + weight;
        cursor = seg_end;
    }
    if total_weight == 0 {
        0
    } else {
        let tw = total_weight as i64;
        if weighted_sum >= 0 {
            weighted_sum / tw
        } else {
            -((-weighted_sum) / tw)
        }
    }
}


/// The chunks of a list of samples: each in decimal, commas between.
pub open spec fn samples_chunks(v: Seq<i16>) -> Seq<Seq<u8>>
    decreases v.len(),
{
    if v.len() == 0 {
        Seq::empty()
    } else {
        samples_chunks(v.drop_last()) + (if v.len() > 1 { seq![",".spec_bytes()] } else { Seq::empty() })
            + signed_chunks(v.last() as int)
    }
}

/// The chunks of the document for a converted signal.
pub open spec fn success_chunks(ir: int, ic: int, tr: int, tc: int, frames: int, samples: Seq<i16>) -> Seq<Seq<u8>> {
    seq!["{\"result_class\":\"transformed\",\"sample_format\":\"s16le\",\"input_sample_rate_hz\":".spec_bytes()]
        + signed_chunks(ir) + seq![",\"input_channel_count\":".spec_bytes()] + signed_chunks(ic) + seq![
        ",\"sample_rate_hz\":".spec_bytes(),
    ] + signed_chunks(tr) + seq![",\"channel_count\":".spec_bytes()] + signed_chunks(tc) + seq![
        ",\"frame_count\":".spec_bytes(),
    ] + signed_chunks(frames) + seq![",\"samples_s16\":[".spec_bytes()] + samples_chunks(samples)
        + seq!["]}".spec_bytes()]
}

/// Copies `bytes` whole after the run `ch` of copies that started at the
/// beginning of `o`.
fn put(out: &mut [u8], i: usize, bytes: &[u8], Ghost(o): Ghost<Seq<u8>>, Ghost(ch): Ghost<Seq<Seq<u8>>>) -> (r: usize)
    requires
        (old(out)@, i as int) == copies(o, 0, ch),
    ensures
        (final(out)@, r as int) == copies(o, 0, ch + seq![bytes@]),
{
    assert(ch.push(bytes@) =~= ch + seq![bytes@]);
    copy_next(out, i, bytes, Ghost(o), Ghost(0), Ghost(ch))
}

/// Writes `v` in decimal after the run `ch`.
fn put_number(out: &mut [u8], i: usize, v: i64, Ghost(o): Ghost<Seq<u8>>, Ghost(ch): Ghost<Seq<Seq<u8>>>) -> (r: usize)
    requires
        (old(out)@, i as int) == copies(o, 0, ch),
        v > i64::MIN,
    ensures
        (final(out)@, r as int) == copies(o, 0, ch + signed_chunks(v as int)),
{
    proof {
        lemma_copies_concat(o, 0, ch, signed_chunks(v as int));
    }
    copy_signed(out, i, v)
}

/// Writes the document for a converted signal at the start of `output`.
pub fn write_success(
    output: &mut [u8],
    input_rate: i32,
    input_channels: i32,
    target_rate: i32,
    target_channels: i32,
    frames: usize,
    samples: &[i16],
) -> (r: usize)
    requires
        input_rate > i32::MIN,
        input_channels > i32::MIN,
        target_rate > i32::MIN,
        target_channels > i32::MIN,
        frames <= i64::MAX,
    ensures
        holds_greedy(
            final(output)@,
            r as int,
            success_chunks(input_rate as int, input_channels as int, target_rate as int, target_channels as int, frames as int, samples@),
        ),
        final(output)@.len() == old(output)@.len(),
{
    let ghost o = output@;
    let ghost mut ch = Seq::<Seq<u8>>::empty();
    let l = "{\"result_class\":\"transformed\",\"sample_format\":\"s16le\",\"input_sample_rate_hz\":".as_bytes();
    let mut i = put(output, 0, l, Ghost(o), Ghost(ch));
    proof { ch = ch + seq![l@]; }
    i = put_number(output, i, input_rate as i64, Ghost(o), Ghost(ch));
    proof { ch = ch + signed_chunks(input_rate as int); }
    let l = ",\"input_channel_count\":".as_bytes();
    i = put(output, i, l, Ghost(o), Ghost(ch));
    proof { ch = ch + seq![l@]; }
    i = put_number(output, i, input_channels as i64, Ghost(o), Ghost(ch));
    proof { ch = ch + signed_chunks(input_channels as int); }
    let l = ",\"sample_rate_hz\":".as_bytes();
    i = put(output, i, l, Ghost(o), Ghost(ch));
    proof { ch = ch + seq![l@]; }
    i = put_number(output, i, target_rate as i64, Ghost(o), Ghost(ch));
    proof { ch = ch + signed_chunks(target_rate as int); }
    let l = ",\"channel_count\":".as_bytes();
    i = put(output, i, l, Ghost(o), Ghost(ch));
    proof { ch = ch + seq![l@]; }
    i = put_number(output, i, target_channels as i64, Ghost(o), Ghost(ch));
    proof { ch = ch + signed_chunks(target_channels as int); }
    let l = ",\"frame_count\":".as_bytes();
    i = put(output, i, l, Ghost(o), Ghost(ch));
    proof { ch = ch + seq![l@]; }
    i = put_number(output, i, frames as i64, Ghost(o), Ghost(ch));
    proof { ch = ch + signed_chunks(frames as int); }
    let l = ",\"samples_s16\":[".as_bytes();
    i = put(output, i, l, Ghost(o), Ghost(ch));
    proof { ch = ch + seq![l@]; }
    let ghost head = ch;
    let mut k: usize = 0;
    assert(samples@.take(0) =~= Seq::<i16>::empty());
    assert(head + samples_chunks(Seq::<i16>::empty()) =~= head);
    while k < samples.len()
        invariant
            k <= samples@.len(),
            (output@, i as int) == copies(o, 0, head + samples_chunks(samples@.take(k as int))),
        decreases samples@.len() - k,
    {
        let ghost before = head + samples_chunks(samples@.take(k as int));
        let ghost mut c = before;
        if k > 0 {
            let comma = ",".as_bytes();
            i = put(output, i, comma, Ghost(o), Ghost(c));
            proof { c = c + seq![comma@]; }
        }
        i = put_number(output, i, samples[k] as i64, Ghost(o), Ghost(c));
        proof {
            c = c + signed_chunks(samples@[k as int] as int);
            let t = samples@.take(k as int + 1);
            assert(t.drop_last() =~= samples@.take(k as int));
            assert(t.last() == samples@[k as int]);
            assert(c =~= head + samples_chunks(t));
        }
        k = k + 1;
    }
    assert(samples@.take(k as int) =~= samples@);
    let l = "]}".as_bytes();
    i = put(output, i, l, Ghost(o), Ghost(head + samples_chunks(samples@)));
    proof {
        let full = head + samples_chunks(samples@) + seq![l@];
        assert(full =~= success_chunks(input_rate as int, input_channels as int, target_rate as int, target_channels as int, frames as int, samples@));
        lemma_holds_greedy_start(o);
        lemma_copies_greedy(o, 0, Seq::empty(), full);
        assert(Seq::<Seq<u8>>::empty() + full =~= full);
    }
    i
}


proof fn lemma_items_len(s: Seq<u8>, i: int, acc: Seq<i16>, cap: nat)
    requires
        0 <= i,
    ensures
        items_from(s, i, acc, cap) matches Some(r) ==> r.len() <= acc.len() + s.len() - i,
    decreases s.len() + 1 - i,
{
    let j = ws_end(s, i);
    lemma_ws_end(s, i);
    if j < s.len() && s[j] == 93u8 && 0 <= j {
    } else if acc.len() >= cap {
    } else {
        match signed_integer_spec(s, j) {
            None => {},
            Some(p) => {
                let next = p.1;
                lemma_ws_end(s, next);
                let k = ws_end(s, next);
                if 0 <= k < s.len() && s[k] == 44u8 {
                    let m = ws_end(s, k + 1);
                    if m <= i || m > s.len() {
                    } else if m < s.len() && s[m] == 93u8 {
                    } else if p.0 < -32768 || p.0 > 32767 {
                    } else {
                        lemma_items_len(s, m, acc.push(p.0 as i16), cap);
                    }
                }
            },
        }
    }
}

/// A sample held within the range of `i16`.
pub open spec fn clamp16(v: int) -> int {
    if v < -32768 {
        -32768
    } else if v > 32767 {
        32767
    } else {
        v
    }
}

/// The linear interpolation between the two input frames around output
/// frame `frame` (input rate `ir`, output rate `tr`).
pub open spec fn interp_sample(src: Seq<i16>, ic: int, frames: int, ir: int, tr: int, tc: int, frame: int, ch: int) -> int {
    let pos = frame * ir;
    let left = pos / tr;
    let frac = pos % tr;
    let right = if left + 1 < frames - 1 { left + 1 } else { frames - 1 };
    let a = frame_sample(src, ic, frames, left, ch, tc);
    let b = frame_sample(src, ic, frames, right, ch, tc);
    trunc_div(a * (tr - frac) + b * frac, tr)
}

/// Output sample `ch` of output frame `frame`: the box average of the input
/// when the rate goes down, else the linear interpolation; held within
/// `i16`.
pub open spec fn out_sample(src: Seq<i16>, ic: int, frames: int, ir: int, tr: int, tc: int, frame: int, ch: int) -> i16 {
    clamp16(
        if tr < ir {
            box_average(src, ic, frames, frame, ch, tc, ir, tr)
        } else {
            interp_sample(src, ic, frames, ir, tr, tc, frame, ch)
        },
    ) as i16
}

/// The first `n` output samples, channels interleaved.
pub open spec fn resampled(src: Seq<i16>, ic: int, frames: int, ir: int, tr: int, tc: int, n: int) -> Seq<i16> {
    Seq::new(n as nat, |k: int| out_sample(src, ic, frames, ir, tr, tc, k / tc, k % tc))
}

/// A conversion as the request asks for it: rates, channel counts, output
/// frame count and output samples.
pub ghost struct Conversion {
    pub ir: int,
    pub ic: int,
    pub tr: int,
    pub tc: int,
    pub frames: int,
    pub out: Seq<i16>,
}

/// The conversion that `input` asks for with a sample buffer of `cap`
/// samples, or the result class that refuses it.
pub open spec fn conversion(input: Seq<u8>, cap: nat) -> Result<Conversion, Seq<u8>> {
    let ir = or_zero(integer_spec(input, "\"input_sample_rate_hz\"".spec_bytes()));
    let ic = or_zero(integer_spec(input, "\"input_channel_count\"".spec_bytes()));
    let tr = or_zero(integer_spec(input, "\"target_sample_rate_hz\"".spec_bytes()));
    let tc = or_zero(integer_spec(input, "\"target_channel_count\"".spec_bytes()));
    if input.len() > 4_000_000 {
        Err("input_limit_exceeded".spec_bytes())
    } else if ir < 8000 || ir > 192_000 || tr < 8000 || tr > 192_000 {
        Err("unsupported_sample_rate".spec_bytes())
    } else if !(1 <= ic <= 2) || !(1 <= tc <= 2) {
        Err("unsupported_channel_count".spec_bytes())
    } else {
        match sample_array_spec(input, cap) {
            None => Err("invalid_samples".spec_bytes()),
            Some(src) => if src.len() == 0 || (src.len() as int) % ic != 0 {
                Err("invalid_samples".spec_bytes())
            } else {
                let frames = (src.len() as int) / ic;
                let tf = (frames * tr + ir / 2) / ir;
                if tf == 0 || tf > 480_000int / tc {
                    Err("output_limit_exceeded".spec_bytes())
                } else {
                    Ok(Conversion { ir, ic, tr, tc, frames: tf, out: resampled(src, ic, frames, ir, tr, tc, tf * tc) })
                }
            },
        }
    }
}

/// `o`'s value, or zero.
pub open spec fn or_zero(o: Option<int>) -> int {
    match o {
        Some(v) => v,
        None => 0,
    }
}

/// The chunks of the response to `input`.
pub open spec fn transform_chunks(input: Seq<u8>, cap: nat) -> Seq<Seq<u8>> {
    match conversion(input, cap) {
        Ok(c) => success_chunks(c.ir, c.ic, c.tr, c.tc, c.frames, c.out),
        Err(code) => error_chunks(code),
    }
}

/// Computes output sample `ch` of output frame `frame`.
fn convert_one(src: &[i16], ic: usize, frames: usize, ir: u64, tr: u64, tc: usize, frame: usize, ch: usize) -> (r: i16)
    requires
        layout_ok(src@, ic as int, frames as int, ch as int, tc as int),
        8000 <= ir <= 192_000,
        8000 <= tr <= 192_000,
        frames <= 4_000_000,
        frame <= 480_000,
    ensures
        r == out_sample(src@, ic as int, frames as int, ir as int, tr as int, tc as int, frame as int, ch as int),
{
    let sample: i64 = if tr < ir {
        downsample_box_average(src, ic, frames, frame, ch, tc, ir, tr)
    } else {
        assert(frame as u64 * ir <= 92_160_000_000) by (nonlinear_arith)
            requires
                frame <= 480_000,
                ir <= 192_000,
        ;
        let position = frame as u64 * ir;
        let left = position / tr;
        let fraction = position % tr;
        assert(left <= 11_520_000) by (nonlinear_arith)
            requires
                tr >= 8000,
                left == position / tr,
                position == frame * ir,
                frame <= 480_000,
                ir <= 192_000,
        ;
        let left = left as usize;
        let right = if left + 1 < frames - 1 {
            left + 1
        } else {
            frames - 1
        };
        let a = source_frame(src, ic, frames, left, ch, tc);
        let b = source_frame(src, ic, frames, right, ch, tc);
        let wa = (tr - fraction) as i64;
        let wb = fraction as i64;
        assert(-32768 * wa <= a * wa <= 32767 * wa) by (nonlinear_arith)
            requires
                -32768 <= a <= 32767,
                wa >= 0,
        ;
        assert(-32768 * wb <= b * wb <= 32767 * wb) by (nonlinear_arith)
            requires
                -32768 <= b <= 32767,
                wb >= 0,
        ;
        let weighted = a as i64 * wa + b as i64 * wb;
        let t = tr as i64;
        if weighted >= 0 {
            weighted / t
        } else {
            -((-weighted) / t)
        }
    };
    let clamped = if sample < -32768 {
        -32768
    } else if sample > 32767 {
        32767
    } else {
        sample
    };
    clamped as i16
}


/// Converts the signal that `input` describes to the target rate and
/// channel count and writes the response document to `output`; returns its
/// length. `source` holds the parsed input samples, `target` the output
/// samples.
#[verifier::spinoff_prover]
pub fn transform(input: &[u8], output: &mut [u8], source: &mut [i16], target: &mut [i16]) -> (r: usize)
    requires
        old(target)@.len() >= 480_000,
    ensures
        holds_greedy(final(output)@, r as int, transform_chunks(input@, old(source)@.len())),
        final(output)@.len() == old(output)@.len(),
        match conversion(input@, old(source)@.len()) {
            Ok(c) => final(target)@.take(c.frames * c.tc) == c.out,
            Err(_) => true,
        },
{
    proof {
        lemma_pcm_keys();
    }
    let ghost cap = source@.len();
    if input.len() > MAX_INPUT_BYTES {
        return error(output, "input_limit_exceeded");
    }
    let input_rate = match integer(input, "\"input_sample_rate_hz\"".as_bytes()) {
        Some(v) => v,
        None => 0,
    };
    let input_channels = match integer(input, "\"input_channel_count\"".as_bytes()) {
        Some(v) => v,
        None => 0,
    };
    let target_rate = match integer(input, "\"target_sample_rate_hz\"".as_bytes()) {
        Some(v) => v,
        None => 0,
    };
    let target_channels = match integer(input, "\"target_channel_count\"".as_bytes()) {
        Some(v) => v,
        None => 0,
    };
    if input_rate < 8000 || input_rate > 192_000 || target_rate < 8000 || target_rate > 192_000 {
        return error(output, "unsupported_sample_rate");
    }
    if !(1 <= input_channels && input_channels <= 2) || !(1 <= target_channels && target_channels <= 2) {
        return error(output, "unsupported_channel_count");
    }
    let sample_count = match sample_array(input, source) {
        Some(n) => n,
        None => {
            return error(output, "invalid_samples");
        },
    };
    let ic = input_channels as usize;
    let tc = target_channels as usize;
    if sample_count == 0 || sample_count % ic != 0 {
        return error(output, "invalid_samples");
    }
    let ghost src = source@.take(sample_count as int);
    proof {
        let s0 = input@;
        let p = find_spec(s0, "\"samples_s16\"".spec_bytes())->0;
        let c = index_of_from(s0, 58u8, p)->0;
        let j = ws_end(s0, c + 1);
        lemma_items_len(s0, j + 1, Seq::empty(), cap);
        lemma_ws_end(s0, c + 1);
    }
    let input_frames = sample_count / ic;
    let ir = input_rate as u64;
    let tr = target_rate as u64;
    assert(input_frames * ic == sample_count && input_frames <= sample_count) by (nonlinear_arith)
        requires
            ic == 1 || ic == 2,
            sample_count % ic == 0,
            input_frames == sample_count / ic,
    ;
    assert(input_frames as u64 * tr <= 768_000_000_000) by (nonlinear_arith)
        requires
            input_frames <= 4_000_000,
            tr <= 192_000,
    ;
    let target_frames = (input_frames as u64 * tr + ir / 2) / ir;
    if target_frames == 0 || target_frames > (MAX_SAMPLES / tc) as u64 {
        return error(output, "output_limit_exceeded");
    }
    let tf = target_frames as usize;
    assert(tf * tc <= 480_000) by (nonlinear_arith)
        requires
            tc == 1 || tc == 2,
            tf <= 480_000usize / tc,
    ;
    let n = tf * tc;
    let srcs = &source[0..sample_count];
    assert(srcs@ =~= src);
    let ghost want = resampled(src, ic as int, input_frames as int, ir as int, tr as int, tc as int, n as int);
    assert(src.len() == sample_count);
    assert(1 <= input_frames);
    assert(layout_ok(src, ic as int, input_frames as int, 0, tc as int));
    let mut k: usize = 0;
    while k < n
        invariant
            k <= n,
            n == tf * tc,
            n <= 480_000,
            tc == 1 || tc == 2,
            ic == 1 || ic == 2,
            srcs@ == src,
            layout_ok(src, ic as int, input_frames as int, 0, tc as int),
            8000 <= ir <= 192_000,
            8000 <= tr <= 192_000,
            input_frames <= 4_000_000,
            target@.len() >= 480_000,
            target@.len() == old(target)@.len(),
            want == resampled(src, ic as int, input_frames as int, ir as int, tr as int, tc as int, n as int),
            forall|j: int| 0 <= j < k ==> target@[j] == want[j],
        decreases n - k,
    {
        let frame = if tc == 1 {
            k
        } else {
            k / 2
        };
        let channel = if tc == 1 {
            0
        } else {
            k % 2
        };
        let v = convert_one(srcs, ic, input_frames, ir, tr, tc, frame, channel);
        target[k] = v;
        k = k + 1;
    }
    proof {
        assert(target@.take(n as int) =~= want);
    }
    write_success(output, input_rate, input_channels, target_rate, target_channels, tf, &target[0..n])
}

} // verus!
