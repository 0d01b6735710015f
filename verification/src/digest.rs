//! Digests: the 64-bit FNV-1a hash and its spelling in hex.
use vstd::prelude::*;

verus! {

/// One FNV-1a step: the byte is folded in, then the state is multiplied by
/// the 64-bit FNV prime, wrapping.
pub open spec fn fnv_step(h: u64, b: u8) -> u64 {
    (((h ^ (b as u64)) as nat * 0x100000001b3nat) % 0x1_0000_0000_0000_0000nat) as u64
}

/// The 64-bit FNV-1a hash of `s`.
pub open spec fn fnv_state(s: Seq<u8>) -> u64
    decreases s.len(),
{
    if s.len() == 0 {
        0xcbf2_9ce4_8422_2325u64
    } else {
        fnv_step(fnv_state(s.drop_last()), s.last())
    }
}

/// The lowercase hex digit of a nibble.
pub open spec fn hex_digit(n: u64) -> u8 {
    if n < 10 {
        (48 + n) as u8
    } else {
        (87 + n) as u8
    }
}

/// The sixteen lowercase hex digits of `h`, most significant first.
pub open spec fn hex16(h: u64) -> Seq<u8> {
    Seq::new(16, |i: int| hex_digit((h >> ((60 - 4 * i) as u64)) & 0xfu64))
}

/// The 64-bit FNV-1a hash of `bytes`.
pub fn fnv1a64(bytes: &[u8]) -> (h: u64)
    ensures
        h == fnv_state(bytes@),
{
    let mut h: u64 = 0xcbf2_9ce4_8422_2325;
    let mut k: usize = 0;
    while k < bytes.len()
        invariant
            k <= bytes@.len(),
            h == fnv_state(bytes@.take(k as int)),
        decreases bytes@.len() - k,
    {
        proof {
            assert(bytes@.take(k as int + 1).drop_last() =~= bytes@.take(k as int));
        }
        h = (h ^ (bytes[k] as u64)).wrapping_mul(0x0100_0000_01b3);
        k = k + 1;
    }
    assert(bytes@.take(k as int) =~= bytes@);
    h
}

/// The sixteen lowercase hex digits of `h`, most significant first.
pub fn hex_digits(h: u64) -> (r: [u8; 16])
    ensures
        r@ == hex16(h),
{
    let mut out = [48u8; 16];
    let mut i: usize = 0;
    while i < 16
        invariant
            i <= 16,
            out@.len() == 16,
            forall|j: int| 0 <= j < i ==> out@[j] == hex16(h)[j],
        decreases 16 - i,
    {
        let shift: u64 = 60 - 4 * (i as u64);
        let nib: u64 = (h >> shift) & 0xf;
        assert(((h >> shift) & 0xf) < 16) by (bit_vector);
        let d: u8 = if nib < 10 {
            48u8 + nib as u8
        } else {
            87u8 + nib as u8
        };
        out[i] = d;
        i = i + 1;
    }
    assert(out@ =~= hex16(h));
    out
}

/// The value of a lowercase hex digit.
pub open spec fn digit_value(d: u8) -> int {
    if 48 <= d <= 57 {
        d - 48
    } else {
        d - 87
    }
}

/// Whether `d` is a lowercase hex digit.
pub open spec fn is_hex_digit(d: u8) -> bool {
    (48 <= d <= 57) || (97 <= d <= 102)
}

/// The number that the hex digits `s` spell, most significant first.
pub open spec fn hex_number(s: Seq<u8>) -> int
    decreases s.len(),
{
    if s.len() == 0 {
        0
    } else {
        hex_number(s.drop_last()) * 16 + digit_value(s.last())
    }
}

proof fn lemma_hex_digit_value(h: u64, i: int)
    requires
        0 <= i < 16,
    ensures
        is_hex_digit(hex16(h)[i]),
        digit_value(hex16(h)[i]) == ((h >> ((60 - 4 * i) as u64)) & 0xfu64),
{
    let sh: u64 = (60 - 4 * i) as u64;
    let n = (h >> sh) & 0xfu64;
    assert(n < 16) by (bit_vector)
        requires
            n == (h >> sh) & 0xfu64,
    ;
}

proof fn lemma_hex_prefix(h: u64, k: int)
    requires
        1 <= k <= 16,
    ensures
        hex_number(hex16(h).take(k)) == h >> ((64 - 4 * k) as u64),
    decreases k,
{
    let s = hex16(h);
    lemma_hex_digit_value(h, k - 1);
    if k == 1 {
        assert(s.take(1).drop_last() =~= Seq::<u8>::empty());
        assert(s.take(1).last() == s[0]);
        assert(hex_number(s.take(1)) == hex_number(s.take(1).drop_last()) * 16 + digit_value(s.take(1).last()));
        assert(h >> 60u64 == (h >> 60u64) & 0xfu64) by (bit_vector);
    } else {
        lemma_hex_prefix(h, k - 1);
        assert(s.take(k).drop_last() =~= s.take(k - 1));
        assert(s.take(k).last() == s[k - 1]);
        assert(hex_number(s.take(k)) == hex_number(s.take(k - 1)) * 16 + digit_value(s[k - 1]));
        let sh: u64 = (64 - 4 * k) as u64;
        assert(((h >> ((sh + 4) as u64)) * 16 + ((h >> sh) & 0xfu64)) == h >> sh) by (bit_vector)
            requires
                sh <= 56,
        ;
        assert((64 - 4 * (k - 1)) as u64 == (sh + 4) as u64);
        assert((60 - 4 * (k - 1)) as u64 == sh);
    }
}

/// The spelling of a hash is sixteen lowercase hex digits whose value, read
/// most significant first, is the hash itself.
pub proof fn lemma_hex16_reads_back(h: u64)
    ensures
        hex16(h).len() == 16,
        forall|i: int| 0 <= i < 16 ==> is_hex_digit(#[trigger] hex16(h)[i]),
        hex_number(hex16(h)) == h,
{
    assert forall|i: int| 0 <= i < 16 implies is_hex_digit(#[trigger] hex16(h)[i]) by {
        lemma_hex_digit_value(h, i);
    }
    lemma_hex_prefix(h, 16);
    assert(hex16(h).take(16) =~= hex16(h));
    assert(h >> 0u64 == h) by (bit_vector);
}

} // verus!
