//! Writing response documents into a fixed output buffer.
//!
//! Every writer takes the buffer and the index at which to continue and
//! returns the index after what it wrote. A writer that runs out of room
//! writes less (or nothing) rather than failing, so a response that does not
//! fit comes out cut short.
//!
//! Each writer states exactly what it does to the buffer, and also the
//! weaker fact `writes(..)`: when its text fits, the text lands right after
//! what was written before. `tracks(..)` carries that fact across a whole
//! response, so a capability can promise that whenever its response fits,
//! the buffer holds exactly that response.
use vstd::prelude::*;
use vstd::string::StringSliceAdditionalSpecFns;

verus! {

/// `buf` with `bytes` written over it from index `at` on.
pub open spec fn splice(buf: Seq<u8>, at: int, bytes: Seq<u8>) -> Seq<u8> {
    Seq::new(buf.len(), |j: int| if at <= j < at + bytes.len() { bytes[j - at] } else { buf[j] })
}

/// A writer that started at index `i` of buffer `o` and left buffer `o2`
/// with next index `i2` did its part in emitting `b`: it advanced by at most
/// `b.len()`, stayed inside the buffer, and, when `b` fitted, wrote exactly
/// `b` after what came before.
pub open spec fn writes(o: Seq<u8>, i: int, o2: Seq<u8>, i2: int, b: Seq<u8>) -> bool {
    &&& o2.len() == o.len()
    &&& i <= i2 <= i + b.len()
    &&& (i <= o.len() ==> i2 <= o.len())
    &&& (i + b.len() <= o.len() ==> i2 == i + b.len() && o2.take(i2) == o.take(i) + b)
}

/// The buffer `o` with next index `i` holds the response document `d` as far
/// as it fits: the index never passes the document, and when the whole
/// document fits it stands at the start of the buffer.
pub open spec fn tracks(o: Seq<u8>, i: int, d: Seq<u8>) -> bool {
    &&& 0 <= i <= d.len()
    &&& i <= o.len()
    &&& (d.len() <= o.len() ==> i == d.len() && o.take(i) == d)
}

/// The response `d` was emitted into `out` with end index `n`: when it fits,
/// `out` starts with exactly `d` and `n` is its length.
pub open spec fn emitted(out: Seq<u8>, n: int, d: Seq<u8>) -> bool {
    &&& n <= out.len()
    &&& n <= d.len()
    &&& (d.len() <= out.len() ==> n == d.len() && out.take(n) == d)
}

pub proof fn lemma_tracks_start(o: Seq<u8>)
    ensures
        tracks(o, 0, Seq::empty()),
{
    assert(o.take(0) =~= Seq::<u8>::empty());
}

pub proof fn lemma_tracks_extend(o: Seq<u8>, i: int, d: Seq<u8>, o2: Seq<u8>, i2: int, b: Seq<u8>)
    requires
        tracks(o, i, d),
        writes(o, i, o2, i2, b),
    ensures
        tracks(o2, i2, d + b),
{
    if (d + b).len() <= o2.len() {
        assert(o2.take(i2) =~= d + b);
    }
}

pub proof fn lemma_tracks_emitted(o: Seq<u8>, i: int, d: Seq<u8>)
    requires
        tracks(o, i, d),
    ensures
        emitted(o, i, d),
{
}

/// The decimal spelling of `n`, most significant digit first.
pub open spec fn decimal(n: nat) -> Seq<u8>
    decreases n,
{
    if n < 10 {
        seq![(48 + n) as u8]
    } else {
        decimal(n / 10).push((48 + n % 10) as u8)
    }
}

/// The decimal spelling of a signed integer: a minus sign before the
/// magnitude of a negative one.
pub open spec fn signed_decimal(n: int) -> Seq<u8> {
    if n < 0 {
        seq![45u8] + decimal((-n) as nat)
    } else {
        decimal(n as nat)
    }
}

/// The JSON string-body spelling of `s`: quote and backslash get a
/// backslash before them, every other byte stands as it is.
pub open spec fn json_escape(s: Seq<u8>) -> Seq<u8>
    decreases s.len(),
{
    if s.len() == 0 {
        Seq::empty()
    } else {
        json_escape(s.drop_last()) + escape_byte(s.last())
    }
}

/// How one byte is spelled inside a JSON string body.
pub open spec fn escape_byte(b: u8) -> Seq<u8> {
    if b == 34u8 {
        seq![92u8, 34u8]
    } else if b == 92u8 {
        seq![92u8, 92u8]
    } else {
        seq![b]
    }
}

/// The result of the per-byte writer on buffer `buf` at index `i`: a byte
/// lands when there is room for it.
pub open spec fn guarded_write(buf: Seq<u8>, i: int, bytes: Seq<u8>) -> (Seq<u8>, int) {
    let room = if 0 <= i < buf.len() { buf.len() - i } else { 0 };
    let k = if bytes.len() <= room { bytes.len() as int } else { room };
    (splice(buf, i, bytes.take(k)), i + k)
}

/// The result of the all-or-nothing writer: `bytes` lands only if it fits
/// whole.
pub open spec fn whole_write(buf: Seq<u8>, i: int, bytes: Seq<u8>) -> (Seq<u8>, int) {
    if i + bytes.len() <= buf.len() {
        (splice(buf, i, bytes), i + bytes.len())
    } else {
        (buf, i)
    }
}

/// The result of the escaping writer: each byte of `s` is emitted in turn,
/// an escaped pair with the all-or-nothing writer, a plain byte when there
/// is room for it.
pub open spec fn escaped_write(buf: Seq<u8>, i: int, s: Seq<u8>) -> (Seq<u8>, int)
    decreases s.len(),
{
    if s.len() == 0 {
        (buf, i)
    } else {
        let prev = escaped_write(buf, i, s.drop_last());
        let b = s.last();
        if b == 34u8 || b == 92u8 {
            whole_write(prev.0, prev.1, escape_byte(b))
        } else {
            guarded_write(prev.0, prev.1, seq![b])
        }
    }
}

proof fn lemma_guarded_writes(buf: Seq<u8>, i: int, bytes: Seq<u8>)
    requires
        0 <= i,
    ensures
        writes(buf, i, guarded_write(buf, i, bytes).0, guarded_write(buf, i, bytes).1, bytes),
{
    let (o2, i2) = guarded_write(buf, i, bytes);
    if i + bytes.len() <= buf.len() {
        assert(bytes.take(bytes.len() as int) =~= bytes);
        assert(o2.take(i2) =~= buf.take(i) + bytes);
    }
}

proof fn lemma_whole_writes(buf: Seq<u8>, i: int, bytes: Seq<u8>)
    requires
        0 <= i,
    ensures
        writes(buf, i, whole_write(buf, i, bytes).0, whole_write(buf, i, bytes).1, bytes),
{
    let (o2, i2) = whole_write(buf, i, bytes);
    if i + bytes.len() <= buf.len() {
        assert(o2.take(i2) =~= buf.take(i) + bytes);
    }
}

proof fn lemma_writes_compose(
    o: Seq<u8>,
    i: int,
    o2: Seq<u8>,
    i2: int,
    a: Seq<u8>,
    o3: Seq<u8>,
    i3: int,
    b: Seq<u8>,
)
    requires
        writes(o, i, o2, i2, a),
        writes(o2, i2, o3, i3, b),
    ensures
        writes(o, i, o3, i3, a + b),
{
    if i + (a + b).len() <= o.len() {
        assert(o3.take(i3) =~= o.take(i) + (a + b));
    }
}

proof fn lemma_escaped_writes(buf: Seq<u8>, i: int, s: Seq<u8>)
    requires
        0 <= i,
    ensures
        writes(buf, i, escaped_write(buf, i, s).0, escaped_write(buf, i, s).1, json_escape(s)),
    decreases s.len(),
{
    if s.len() == 0 {
        assert(buf.take(i) + Seq::<u8>::empty() =~= buf.take(i));
    } else {
        lemma_escaped_writes(buf, i, s.drop_last());
        let prev = escaped_write(buf, i, s.drop_last());
        let b = s.last();
        if b == 34u8 || b == 92u8 {
            lemma_whole_writes(prev.0, prev.1, escape_byte(b));
        } else {
            lemma_guarded_writes(prev.0, prev.1, seq![b]);
        }
        lemma_writes_compose(
            buf,
            i,
            prev.0,
            prev.1,
            json_escape(s.drop_last()),
            escaped_write(buf, i, s).0,
            escaped_write(buf, i, s).1,
            escape_byte(b),
        );
    }
}

/// Copies `bytes` to `out` at `at` if they fit whole; otherwise leaves `out`
/// alone. Returns the index after the copy (or `at`).
pub fn copy(out: &mut [u8], at: usize, bytes: &[u8]) -> (r: usize)
    ensures
        (final(out)@, r as int) == whole_write(old(out)@, at as int, bytes@),
        writes(old(out)@, at as int, final(out)@, r as int, bytes@),
{
    proof {
        lemma_whole_writes(old(out)@, at as int, bytes@);
    }
    if at > out.len() || bytes.len() > out.len() - at {
        return at;
    }
    let end = at + bytes.len();
    let ghost o = out@;
    let mut k: usize = 0;
    while k < bytes.len()
        invariant
            end == at + bytes@.len(),
            end <= out@.len(),
            k <= bytes@.len(),
            out@ == splice(o, at as int, bytes@.take(k as int)),
            o.len() == out@.len(),
        decreases bytes@.len() - k,
    {
        out[at + k] = bytes[k];
        k = k + 1;
        assert(out@ =~= splice(o, at as int, bytes@.take(k as int)));
    }
    assert(bytes@.take(k as int) =~= bytes@);
    end
}

/// Writes `bytes` to `out` at `i` one byte at a time, each byte only when
/// there is room for it. Returns the index after the last byte written.
pub fn put_bytes(out: &mut [u8], i: usize, bytes: &[u8]) -> (r: usize)
    ensures
        (final(out)@, r as int) == guarded_write(old(out)@, i as int, bytes@),
        writes(old(out)@, i as int, final(out)@, r as int, bytes@),
{
    proof {
        lemma_guarded_writes(old(out)@, i as int, bytes@);
    }
    let ghost o = out@;
    let ghost room: int = if i < o.len() { o.len() - i } else { 0 };
    let ghost k_end: int = if bytes@.len() <= room { bytes@.len() as int } else { room };
    let mut j: usize = i;
    let mut k: usize = 0;
    while k < bytes.len()
        invariant
            o.len() == out@.len(),
            room == (if i < o.len() { o.len() - i } else { 0 }),
            k_end == (if bytes@.len() <= room { bytes@.len() as int } else { room }),
            k <= bytes@.len(),
            k <= k_end ==> j == i + k,
            k > k_end ==> j == i + k_end,
            j <= i + k_end,
            out@ == splice(o, i as int, bytes@.take(if k <= k_end { k as int } else { k_end })),
        decreases bytes@.len() - k,
    {
        if j < out.len() {
            out[j] = bytes[k];
            j = j + 1;
            assert(out@ =~= splice(o, i as int, bytes@.take(k + 1)));
        }
        k = k + 1;
    }
    assert(bytes@.take(k as int) =~= bytes@);
    j
}

/// The decimal digits of `n`.
pub fn decimal_digits(n: u64) -> (v: Vec<u8>)
    ensures
        v@ == decimal(n as nat),
    decreases n,
{
    if n < 10 {
        let mut v: Vec<u8> = Vec::new();
        v.push(48u8 + n as u8);
        v
    } else {
        let mut v = decimal_digits(n / 10);
        v.push(48u8 + (n % 10) as u8);
        v
    }
}

/// Writes the decimal spelling of `n` at `i`, digit by digit while there is
/// room. Returns the index after the last digit written.
pub fn write_u32(out: &mut [u8], i: usize, n: u32) -> (r: usize)
    ensures
        (final(out)@, r as int) == guarded_write(old(out)@, i as int, decimal(n as nat)),
        writes(old(out)@, i as int, final(out)@, r as int, decimal(n as nat)),
{
    let digits = decimal_digits(n as u64);
    put_bytes(out, i, digits.as_slice())
}

/// Writes the decimal spelling of `n` at `i`, digit by digit while there is
/// room.
pub fn write_u64(out: &mut [u8], i: usize, n: u64) -> (r: usize)
    ensures
        (final(out)@, r as int) == guarded_write(old(out)@, i as int, decimal(n as nat)),
        writes(old(out)@, i as int, final(out)@, r as int, decimal(n as nat)),
{
    let digits = decimal_digits(n);
    put_bytes(out, i, digits.as_slice())
}

/// Writes the decimal spelling of `n` (with a minus sign when negative) at
/// `i`: the sign goes with the all-or-nothing writer, the digits one by one.
pub fn write_i32(out: &mut [u8], i: usize, n: i32) -> (r: usize)
    requires
        n > i32::MIN,
    ensures
        writes(old(out)@, i as int, final(out)@, r as int, signed_decimal(n as int)),
{
    if n < 0 {
        let ghost o = out@;
        proof {
            lemma_minus_bytes();
        }
        let j = copy(out, i, "-".as_bytes());
        let ghost o2 = out@;
        let r = write_u32(out, j, (-n) as u32);
        proof {
            lemma_writes_compose(o, i as int, o2, j as int, seq![45u8], out@, r as int, decimal((-n) as nat));
        }
        r
    } else {
        write_u32(out, i, n as u32)
    }
}

/// Writes `s` as the body of a JSON string at `i`: quote and backslash are
/// escaped (an escaped pair lands only whole), other bytes land one by one
/// while there is room. Returns the index after the last byte written.
pub fn copy_json_escaped(out: &mut [u8], i: usize, s: &[u8]) -> (r: usize)
    ensures
        (final(out)@, r as int) == escaped_write(old(out)@, i as int, s@),
        writes(old(out)@, i as int, final(out)@, r as int, json_escape(s@)),
{
    proof {
        lemma_escaped_writes(old(out)@, i as int, s@);
    }
    let ghost o = out@;
    let mut j: usize = i;
    let mut k: usize = 0;
    assert(s@.take(0) =~= Seq::<u8>::empty());
    while k < s.len()
        invariant
            k <= s@.len(),
            (out@, j as int) == escaped_write(o, i as int, s@.take(k as int)),
        decreases s@.len() - k,
    {
        let b = s[k];
        assert(s@.take(k + 1).drop_last() =~= s@.take(k as int));
        assert(s@.take(k + 1).last() == b);
        if b == 34u8 {
            proof { lemma_escape_pair(34u8); }
            j = copy(out, j, "\\\"".as_bytes());
        } else if b == 92u8 {
            proof { lemma_escape_pair(92u8); }
            j = copy(out, j, "\\\\".as_bytes());
        } else {
            if j < out.len() {
                out[j] = b;
                j = j + 1;
            }
            proof {
                let prev = escaped_write(o, i as int, s@.take(k as int));
                assert(out@ =~= guarded_write(prev.0, prev.1, seq![b]).0);
            }
        }
        k = k + 1;
    }
    assert(s@.take(k as int) =~= s@);
    j
}

proof fn lemma_minus_bytes()
    ensures
        "-".spec_bytes() == seq![45u8],
{
    broadcast use vstd::string::group_string_axioms;
    reveal_strlit("-");
    assert(vstd::string::is_ascii("-"));
    assert("-".spec_bytes() =~= seq![45u8]);
}

proof fn lemma_escape_pair(b: u8)
    requires
        b == 34u8 || b == 92u8,
    ensures
        b == 34u8 ==> "\\\"".spec_bytes() == escape_byte(b),
        b == 92u8 ==> "\\\\".spec_bytes() == escape_byte(b),
{
    broadcast use vstd::string::group_string_axioms;
    reveal_strlit("\\\"");
    reveal_strlit("\\\\");
    assert(vstd::string::is_ascii("\\\""));
    assert(vstd::string::is_ascii("\\\\"));
    assert("\\\"".spec_bytes() =~= seq![92u8, 34u8]);
    assert("\\\\".spec_bytes() =~= seq![92u8, 92u8]);
}

/// Emits `bytes` with `copy` as the next part of the response `doc`.
pub fn emit_bytes(out: &mut [u8], i: usize, bytes: &[u8], Ghost(doc): Ghost<Seq<u8>>) -> (r: usize)
    requires
        tracks(old(out)@, i as int, doc),
    ensures
        tracks(final(out)@, r as int, doc + bytes@),
        final(out)@.len() == old(out)@.len(),
{
    let ghost o = out@;
    let r = copy(out, i, bytes);
    proof {
        lemma_tracks_extend(o, i as int, doc, out@, r as int, bytes@);
    }
    r
}

/// Emits `s` escaped as a JSON string body as the next part of `doc`.
pub fn emit_escaped(out: &mut [u8], i: usize, s: &[u8], Ghost(doc): Ghost<Seq<u8>>) -> (r: usize)
    requires
        tracks(old(out)@, i as int, doc),
    ensures
        tracks(final(out)@, r as int, doc + json_escape(s@)),
        final(out)@.len() == old(out)@.len(),
{
    let ghost o = out@;
    let r = copy_json_escaped(out, i, s);
    proof {
        lemma_tracks_extend(o, i as int, doc, out@, r as int, json_escape(s@));
    }
    r
}

/// Emits the decimal spelling of `n` as the next part of `doc`.
pub fn emit_u32(out: &mut [u8], i: usize, n: u32, Ghost(doc): Ghost<Seq<u8>>) -> (r: usize)
    requires
        tracks(old(out)@, i as int, doc),
    ensures
        tracks(final(out)@, r as int, doc + decimal(n as nat)),
        final(out)@.len() == old(out)@.len(),
{
    let ghost o = out@;
    let r = write_u32(out, i, n);
    proof {
        lemma_tracks_extend(o, i as int, doc, out@, r as int, decimal(n as nat));
    }
    r
}

/// Emits the decimal spelling of `n` as the next part of `doc`.
pub fn emit_u64(out: &mut [u8], i: usize, n: u64, Ghost(doc): Ghost<Seq<u8>>) -> (r: usize)
    requires
        tracks(old(out)@, i as int, doc),
    ensures
        tracks(final(out)@, r as int, doc + decimal(n as nat)),
        final(out)@.len() == old(out)@.len(),
{
    let ghost o = out@;
    let r = write_u64(out, i, n);
    proof {
        lemma_tracks_extend(o, i as int, doc, out@, r as int, decimal(n as nat));
    }
    r
}

/// Emits the signed decimal spelling of `n` as the next part of `doc`.
pub fn emit_i32(out: &mut [u8], i: usize, n: i32, Ghost(doc): Ghost<Seq<u8>>) -> (r: usize)
    requires
        tracks(old(out)@, i as int, doc),
        n > i32::MIN,
    ensures
        tracks(final(out)@, r as int, doc + signed_decimal(n as int)),
        final(out)@.len() == old(out)@.len(),
{
    let ghost o = out@;
    let r = write_i32(out, i, n);
    proof {
        lemma_tracks_extend(o, i as int, doc, out@, r as int, signed_decimal(n as int));
    }
    r
}

/// Stores byte `b` at `i`, which must be inside the buffer, as the next
/// part of `doc`.
pub fn emit_byte(out: &mut [u8], i: usize, b: u8, Ghost(doc): Ghost<Seq<u8>>) -> (r: usize)
    requires
        tracks(old(out)@, i as int, doc),
        i < old(out)@.len(),
    ensures
        tracks(final(out)@, r as int, doc.push(b)),
        final(out)@.len() == old(out)@.len(),
        r == i + 1,
{
    let ghost o = out@;
    out[i] = b;
    proof {
        assert(out@.take(i + 1) =~= o.take(i as int) + seq![b]);
        lemma_tracks_extend(o, i as int, doc, out@, i + 1, seq![b]);
        assert(doc + seq![b] =~= doc.push(b));
    }
    i + 1
}

/// The text left by a run of all-or-nothing copies of `chunks` into a buffer
/// of `cap` bytes, starting at its beginning: a chunk lands only when it
/// fits after what landed before.
pub open spec fn greedy(cap: int, chunks: Seq<Seq<u8>>) -> Seq<u8>
    decreases chunks.len(),
{
    if chunks.len() == 0 {
        Seq::empty()
    } else {
        let acc = greedy(cap, chunks.drop_last());
        let c = chunks.last();
        if acc.len() + c.len() <= cap {
            acc + c
        } else {
            acc
        }
    }
}

/// The concatenation of `chunks`.
pub open spec fn flatten(chunks: Seq<Seq<u8>>) -> Seq<u8>
    decreases chunks.len(),
{
    if chunks.len() == 0 {
        Seq::empty()
    } else {
        flatten(chunks.drop_last()) + chunks.last()
    }
}

/// When all of `chunks` fit, every one of them lands.
pub proof fn lemma_greedy_full(cap: int, chunks: Seq<Seq<u8>>)
    requires
        flatten(chunks).len() <= cap,
    ensures
        greedy(cap, chunks) == flatten(chunks),
    decreases chunks.len(),
{
    if chunks.len() > 0 {
        lemma_greedy_full(cap, chunks.drop_last());
    }
}

pub proof fn lemma_greedy_len(cap: int, chunks: Seq<Seq<u8>>)
    requires
        cap >= 0,
    ensures
        greedy(cap, chunks).len() <= cap,
    decreases chunks.len(),
{
    if chunks.len() > 0 {
        lemma_greedy_len(cap, chunks.drop_last());
    }
}

/// The buffer starts with what the copies of `chunks` left, and `i` is
/// where the next copy goes.
pub open spec fn holds_greedy(o: Seq<u8>, i: int, chunks: Seq<Seq<u8>>) -> bool {
    &&& i == greedy(o.len() as int, chunks).len()
    &&& o.take(i) == greedy(o.len() as int, chunks)
}

pub proof fn lemma_holds_greedy_start(o: Seq<u8>)
    ensures
        holds_greedy(o, 0, Seq::empty()),
{
    assert(o.take(0) =~= Seq::<u8>::empty());
}

/// Copies `bytes` as the next chunk of a run of all-or-nothing copies.
pub fn copy_chunk(out: &mut [u8], i: usize, bytes: &[u8], Ghost(chunks): Ghost<Seq<Seq<u8>>>) -> (r: usize)
    requires
        holds_greedy(old(out)@, i as int, chunks),
    ensures
        holds_greedy(final(out)@, r as int, chunks.push(bytes@)),
        final(out)@.len() == old(out)@.len(),
{
    let ghost o = out@;
    proof {
        lemma_greedy_len(o.len() as int, chunks);
    }
    let r = copy(out, i, bytes);
    proof {
        assert(chunks.push(bytes@).drop_last() =~= chunks);
        if i + bytes@.len() <= o.len() {
            assert(out@.take(r as int) =~= o.take(i as int) + bytes@);
        } else {
            assert(out@ == o);
        }
    }
    r
}

/// The buffer and next index left by all-or-nothing copies of `chunks`, one
/// after another, starting at index `at`.
pub open spec fn copies(buf: Seq<u8>, at: int, chunks: Seq<Seq<u8>>) -> (Seq<u8>, int)
    decreases chunks.len(),
{
    if chunks.len() == 0 {
        (buf, at)
    } else {
        let prev = copies(buf, at, chunks.drop_last());
        whole_write(prev.0, prev.1, chunks.last())
    }
}

pub proof fn lemma_copies_greedy(o: Seq<u8>, i: int, ch: Seq<Seq<u8>>, more: Seq<Seq<u8>>)
    requires
        holds_greedy(o, i, ch),
    ensures
        holds_greedy(copies(o, i, more).0, copies(o, i, more).1, ch + more),
        copies(o, i, more).0.len() == o.len(),
    decreases more.len(),
{
    if more.len() == 0 {
        assert(ch + more =~= ch);
    } else {
        lemma_copies_greedy(o, i, ch, more.drop_last());
        let prev = copies(o, i, more.drop_last());
        let c = more.last();
        assert((ch + more).drop_last() =~= ch + more.drop_last());
        assert((ch + more).last() == c);
        lemma_greedy_len(o.len() as int, ch + more.drop_last());
        if prev.1 + c.len() <= prev.0.len() {
            let nw = whole_write(prev.0, prev.1, c);
            assert(nw.0.take(nw.1) =~= prev.0.take(prev.1) + c);
        }
    }
}


/// Copies that follow one another compose: the copies of `a + b` are the
/// copies of `b` after those of `a`.
pub proof fn lemma_copies_concat(o: Seq<u8>, at: int, a: Seq<Seq<u8>>, b: Seq<Seq<u8>>)
    ensures
        copies(o, at, a + b) == copies(copies(o, at, a).0, copies(o, at, a).1, b),
    decreases b.len(),
{
    if b.len() == 0 {
        assert(a + b =~= a);
    } else {
        lemma_copies_concat(o, at, a, b.drop_last());
        assert((a + b).drop_last() =~= a + b.drop_last());
        assert((a + b).last() == b.last());
    }
}

/// Copies `bytes` whole, as the next of a run of all-or-nothing copies of
/// `chunks` that started on buffer `o` at index `at`.
pub fn copy_next(
    out: &mut [u8],
    i: usize,
    bytes: &[u8],
    Ghost(o): Ghost<Seq<u8>>,
    Ghost(at): Ghost<int>,
    Ghost(chunks): Ghost<Seq<Seq<u8>>>,
) -> (r: usize)
    requires
        (old(out)@, i as int) == copies(o, at, chunks),
    ensures
        (final(out)@, r as int) == copies(o, at, chunks.push(bytes@)),
{
    proof {
        assert(chunks.push(bytes@).drop_last() =~= chunks);
    }
    copy(out, i, bytes)
}

/// Each byte of `d` as a chunk of its own.
pub open spec fn byte_chunks(d: Seq<u8>) -> Seq<Seq<u8>> {
    Seq::new(d.len(), |k: int| seq![d[k]])
}

/// The chunks in which the signed decimal writer copies `v`: `0` whole, else
/// a minus sign for a negative value, then each digit on its own.
pub open spec fn signed_chunks(v: int) -> Seq<Seq<u8>> {
    if v == 0 {
        seq![seq![48u8]]
    } else if v < 0 {
        seq![seq![45u8]] + byte_chunks(decimal((-v) as nat))
    } else {
        byte_chunks(decimal(v as nat))
    }
}

/// Copies the decimal spelling of `v` at `at`: `0` whole, else the sign and
/// then each digit, each landing only where it fits.
pub fn copy_signed(out: &mut [u8], at: usize, v: i64) -> (r: usize)
    requires
        v > i64::MIN,
    ensures
        (final(out)@, r as int) == copies(old(out)@, at as int, signed_chunks(v as int)),
{
    let ghost o = out@;
    let ghost empty_chunks = Seq::<Seq<u8>>::empty();
    if v == 0 {
        let mut zero: Vec<u8> = Vec::new();
        zero.push(48u8);
        let r = copy_next(out, at, zero.as_slice(), Ghost(o), Ghost(at as int), Ghost(empty_chunks));
        assert(empty_chunks.push(seq![48u8]) =~= seq![seq![48u8]]);
        return r;
    }
    let m: u64 = if v < 0 {
        (-v) as u64
    } else {
        v as u64
    };
    let mut i = at;
    let ghost mut pre = empty_chunks;
    if v < 0 {
        let mut minus: Vec<u8> = Vec::new();
        minus.push(45u8);
        i = copy_next(out, i, minus.as_slice(), Ghost(o), Ghost(at as int), Ghost(empty_chunks));
        proof {
            pre = empty_chunks.push(seq![45u8]);
            assert(pre =~= seq![seq![45u8]]);
        }
    }
    let digits = decimal_digits(m);
    let ds = digits.as_slice();
    let mut k: usize = 0;
    assert(pre + byte_chunks(ds@).take(0) =~= pre);
    while k < ds.len()
        invariant
            k <= ds@.len(),
            (out@, i as int) == copies(o, at as int, pre + byte_chunks(ds@).take(k as int)),
        decreases ds@.len() - k,
    {
        let mut one: Vec<u8> = Vec::new();
        one.push(ds[k]);
        proof {
            assert(pre + byte_chunks(ds@).take(k as int + 1) =~= (pre + byte_chunks(
                ds@,
            ).take(k as int)).push(one@));
        }
        i = copy_next(out, i, one.as_slice(), Ghost(o), Ghost(at as int), Ghost(pre + byte_chunks(ds@).take(k as int)));
        k = k + 1;
    }
    assert(byte_chunks(ds@).take(k as int) =~= byte_chunks(ds@));
    assert(pre + byte_chunks(ds@) =~= signed_chunks(v as int));
    i
}


/// Copies `bytes` whole as the next chunk after the run `ch` of copies that
/// started at the beginning of `o`.
pub fn put_chunk(out: &mut [u8], i: usize, bytes: &[u8], Ghost(o): Ghost<Seq<u8>>, Ghost(ch): Ghost<Seq<Seq<u8>>>) -> (r: usize)
    requires
        (old(out)@, i as int) == copies(o, 0, ch),
    ensures
        (final(out)@, r as int) == copies(o, 0, ch + seq![bytes@]),
{
    assert(ch.push(bytes@) =~= ch + seq![bytes@]);
    copy_next(out, i, bytes, Ghost(o), Ghost(0), Ghost(ch))
}

/// Copies the decimal spelling of `v` as the next chunks after the run `ch`.
pub fn put_signed(out: &mut [u8], i: usize, v: i64, Ghost(o): Ghost<Seq<u8>>, Ghost(ch): Ghost<Seq<Seq<u8>>>) -> (r: usize)
    requires
        (old(out)@, i as int) == copies(o, 0, ch),
        v > i64::MIN,
    ensures
        (final(out)@, r as int) == copies(o, 0, ch + signed_chunks(v as int)),
{
    proof {
        lemma_copies_concat(o, 0, ch, signed_chunks(v as int));
    }
    copy_signed(out, i, v)
}

/// Finishes a run of copies that started at the beginning of `o`: the
/// buffer then holds what a greedy run of `ch` leaves.
pub proof fn lemma_run_holds(o: Seq<u8>, out: Seq<u8>, i: int, ch: Seq<Seq<u8>>)
    requires
        (out, i) == copies(o, 0, ch),
    ensures
        holds_greedy(out, i, ch),
        out.len() == o.len(),
{
    lemma_holds_greedy_start(o);
    lemma_copies_greedy(o, 0, Seq::empty(), ch);
    assert(Seq::<Seq<u8>>::empty() + ch =~= ch);
}

/// The chunks in which a string body is copied with its quotes and
/// backslashes escaped: each byte, or its escaped pair, whole.
pub open spec fn escaped_chunks(s: Seq<u8>) -> Seq<Seq<u8>> {
    Seq::new(s.len(), |k: int| escape_byte(s[k]))
}

/// Copies `s` at `at` as the body of a JSON string.
pub fn copy_json(out: &mut [u8], at: usize, s: &[u8]) -> (r: usize)
    ensures
        (final(out)@, r as int) == copies(old(out)@, at as int, escaped_chunks(s@)),
{
    let ghost o = out@;
    let mut i = at;
    let mut k: usize = 0;
    assert(escaped_chunks(s@).take(0) =~= Seq::<Seq<u8>>::empty());
    while k < s.len()
        invariant
            k <= s@.len(),
            (out@, i as int) == copies(o, at as int, escaped_chunks(s@).take(k as int)),
        decreases s@.len() - k,
    {
        let b = s[k];
        let mut piece: Vec<u8> = Vec::new();
        if b == 34u8 {
            piece.push(92u8);
            piece.push(34u8);
        } else if b == 92u8 {
            piece.push(92u8);
            piece.push(92u8);
        } else {
            piece.push(b);
        }
        proof {
            assert(piece@ =~= escape_byte(b));
            assert(escaped_chunks(s@).take(k as int + 1) =~= escaped_chunks(s@).take(k as int).push(piece@));
        }
        i = copy_next(out, i, piece.as_slice(), Ghost(o), Ghost(at as int), Ghost(escaped_chunks(s@).take(k as int)));
        k = k + 1;
    }
    assert(escaped_chunks(s@).take(k as int) =~= escaped_chunks(s@));
    i
}

/// Copies `s` as the body of a JSON string, as the next chunks after the
/// run `ch`.
pub fn put_escaped(out: &mut [u8], i: usize, s: &[u8], Ghost(o): Ghost<Seq<u8>>, Ghost(ch): Ghost<Seq<Seq<u8>>>) -> (r: usize)
    requires
        (old(out)@, i as int) == copies(o, 0, ch),
    ensures
        (final(out)@, r as int) == copies(o, 0, ch + escaped_chunks(s@)),
{
    proof {
        lemma_copies_concat(o, 0, ch, escaped_chunks(s@));
    }
    copy_json(out, i, s)
}

} // verus!
