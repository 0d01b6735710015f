//! The layout of a WHSP1 weight table: a 5-byte magic, fourteen 32-bit
//! header words (dimensions), five token ids, then the tensors of the
//! speech model one after another (each float tensor as 4-byte values,
//! each quantized matrix as a 4-byte scale and one byte per entry), then
//! one length byte per base vocabulary token and the token bytes.
//! Reading the layout finds where every tensor lies; a table too short
//! for what its header announces has no layout.
use vstd::prelude::*;

verus! {

/// The little-endian 32-bit word at `at` of `b`.
pub open spec fn u32_le(b: Seq<u8>, at: int) -> int {
    b[at] as int + 256 * (b[at + 1] as int) + 65536 * (b[at + 2] as int) + 16777216 * (b[at + 3] as int)
}

/// The word at `at`, or 0 when the four bytes are not all there.
pub open spec fn read_u32_spec(b: Seq<u8>, at: int) -> int {
    if 0 <= at && at + 4 <= b.len() { u32_le(b, at) } else { 0 }
}

/// Reads the little-endian 32-bit word at `at` (0 when it does not fit).
pub fn read_u32(b: &[u8], at: usize) -> (r: u32)
    ensures
        r as int == read_u32_spec(b@, at as int),
{
    if at > b.len() || b.len() - at < 4 {
        return 0;
    }
    (b[at] as u32) + 256 * (b[at + 1] as u32) + 65536 * (b[at + 2] as u32) + 16777216 * (b[at + 3] as u32)
}

/// A view over `len` little-endian 4-byte values.
pub struct F32View<'a> {
    pub data: &'a [u8],
}

impl<'a> F32View<'a> {
    /// The view of the first `len` values of `data`.
    pub fn new(data: &'a [u8], len: usize) -> (r: F32View<'a>)
        requires
            len * 4 <= data@.len(),
        ensures
            r.data@ == data@.take(len * 4),
    {
        let dl = data.len();
        assert(len * 4 <= dl);
        let d = &data[0..len * 4];
        assert(d@ =~= data@.take(len * 4));
        F32View { data: d }
    }
}

/// A tensor of the table: whether it is a quantized matrix (a scale, then
/// one byte an entry) or a float tensor (four bytes an entry), and its
/// number of entries.
pub open spec fn tensor_bytes(t: (bool, int)) -> int {
    if t.0 { 4 + t.1 } else { 4 * t.1 }
}

/// The tensors of one encoder layer of width `s`.
pub open spec fn encoder_plan(s: int) -> Seq<(bool, int)> {
    seq![
        (true, s * s), (true, s * s), (true, s * s), (true, s * s), (true, s * (s * 4)), (true, (s * 4) * s),
        (false, s), (false, s), (false, s), (false, s), (false, s), (false, s * 4), (false, s), (false, s),
        (false, s),
    ]
}

/// The tensors of one decoder layer of width `t`.
pub open spec fn decoder_plan(t: int) -> Seq<(bool, int)> {
    seq![
        (true, t * t), (true, t * t), (true, t * t), (true, t * t), (true, t * t), (true, t * t), (true, t * t),
        (true, t * t), (true, t * (t * 4)), (true, (t * 4) * t),
        (false, t), (false, t), (false, t), (false, t), (false, t), (false, t), (false, t), (false, t),
        (false, t), (false, t), (false, t * 4), (false, t), (false, t), (false, t),
    ]
}

/// Places the tensors `ts` one after another from offset `off` in a table of
/// `len` bytes: their offsets and byte lengths, and the offset after them;
/// none when one runs past the end.
pub open spec fn place(ts: Seq<(bool, int)>, off: int, len: int) -> Option<(Seq<(int, int)>, int)>
    decreases ts.len(),
{
    if ts.len() == 0 {
        Some((Seq::empty(), off))
    } else {
        let size = tensor_bytes(ts[0]);
        if off + size > len {
            None
        } else {
            match place(ts.drop_first(), off + size, len) {
                Some((rest, end)) => Some((seq![(off, size)] + rest, end)),
                None => None,
            }
        }
    }
}

/// Places `n` layers of the tensors `ts` one after another.
pub open spec fn place_layers(ts: Seq<(bool, int)>, n: nat, off: int, len: int) -> Option<(Seq<(int, int)>, int)>
    decreases n,
{
    if n == 0 {
        Some((Seq::empty(), off))
    } else {
        match place(ts, off, len) {
            Some((first, mid)) => match place_layers(ts, (n - 1) as nat, mid, len) {
                Some((rest, end)) => Some((first + rest, end)),
                None => None,
            },
            None => None,
        }
    }
}

/// The sum of the bytes of `s`.
pub open spec fn byte_sum(s: Seq<u8>) -> int
    decreases s.len(),
{
    if s.len() == 0 { 0 } else { byte_sum(s.drop_last()) + s.last() as int }
}

/// Where everything of a table lies: its fourteen header words, its five
/// token ids, the offset and byte length of each tensor in table order, and
/// the offset and length of the vocabulary lengths and of the vocabulary
/// bytes.
pub ghost struct LayoutView {
    pub dims: Seq<int>,
    pub tokens: Seq<int>,
    pub tensors: Seq<(int, int)>,
    pub vocab_lens: (int, int),
    pub vocab_bytes: (int, int),
}

/// Header word `k` (0 to 13) of the table.
pub open spec fn dim(b: Seq<u8>, k: int) -> int {
    u32_le(b, 5 + 4 * k)
}

/// The layout of the table `b`, or none when it is not a WHSP1 table or is
/// too short for what its header announces.
pub open spec fn model_layout_spec(b: Seq<u8>) -> Option<LayoutView> {
    if b.len() < 81 || b.take(5) != seq![87u8, 72u8, 83u8, 80u8, 49u8] {
        None
    } else {
        let mels = dim(b, 1);
        let bins = dim(b, 2);
        let s = dim(b, 4);
        let n_audio_layer = dim(b, 6);
        let vocab = dim(b, 7);
        let base_vocab = dim(b, 8);
        let text_ctx = dim(b, 9);
        let t = dim(b, 10);
        let n_text_layer = dim(b, 12);
        let head = seq![(false, mels * bins), (false, s * mels * 3), (false, s), (false, s * s * 3), (false, s)];
        let middle = seq![(false, s), (false, s), (true, vocab * t), (false, text_ctx * t)];
        let tail = seq![(false, t), (false, t)];
        match place(head, 81, b.len() as int) {
            None => None,
            Some((p1, o1)) => match place_layers(encoder_plan(s), n_audio_layer as nat, o1, b.len() as int) {
                None => None,
                Some((p2, o2)) => match place(middle, o2, b.len() as int) {
                    None => None,
                    Some((p3, o3)) => match place_layers(decoder_plan(t), n_text_layer as nat, o3, b.len() as int) {
                        None => None,
                        Some((p4, o4)) => match place(tail, o4, b.len() as int) {
                            None => None,
                            Some((p5, o5)) => if o5 + base_vocab > b.len() {
                                None
                            } else {
                                let total = byte_sum(b.subrange(o5, o5 + base_vocab));
                                if o5 + base_vocab + total > b.len() {
                                    None
                                } else {
                                    Some(
                                        LayoutView {
                                            dims: Seq::new(14, |k: int| dim(b, k)),
                                            tokens: Seq::new(5, |k: int| u32_le(b, 61 + 4 * k)),
                                            tensors: p1 + p2 + p3 + p4 + p5,
                                            vocab_lens: (o5, base_vocab),
                                            vocab_bytes: (o5 + base_vocab, total),
                                        },
                                    )
                                }
                            },
                        },
                    },
                },
            },
        }
    }
}

/// Where everything of a table lies, as the library holds it.
pub struct ModelLayout {
    pub dims: Vec<u32>,
    pub tokens: Vec<u32>,
    pub tensors: Vec<(usize, usize)>,
    pub vocab_lens: (usize, usize),
    pub vocab_bytes: (usize, usize),
}

pub open spec fn layout_view(m: ModelLayout) -> LayoutView {
    LayoutView {
        dims: m.dims@.map_values(|d: u32| d as int),
        tokens: m.tokens@.map_values(|d: u32| d as int),
        tensors: m.tensors@.map_values(|p: (usize, usize)| (p.0 as int, p.1 as int)),
        vocab_lens: (m.vocab_lens.0 as int, m.vocab_lens.1 as int),
        vocab_bytes: (m.vocab_bytes.0 as int, m.vocab_bytes.1 as int),
    }
}

pub open spec fn placed_view(v: Seq<(usize, usize)>) -> Seq<(int, int)> {
    v.map_values(|p: (usize, usize)| (p.0 as int, p.1 as int))
}

/// A plan of tensors as the library holds it, read as kinds and entry counts.
pub open spec fn plan_view(ts: Seq<(bool, u128)>) -> Seq<(bool, int)> {
    ts.map_values(|t: (bool, u128)| (t.0, t.1 as int))
}

/// The product of two entry counts of a table's header.
fn mul_wide(a: u128, b: u128) -> (r: u128)
    requires
        a < 0x1_0000_0000_0000_0000,
        b < 0x10_0000_0000,
    ensures
        r == a * b,
        r < 0x10_0000_0000_0000_0000_0000_0000,
        a < 0x1_0000_0000 && b < 0x1_0000_0000 ==> r < 0x1_0000_0000_0000_0000,
{
    proof {
        assert(a * b < 0x10_0000_0000_0000_0000_0000_0000) by (nonlinear_arith)
            requires
                a < 0x1_0000_0000_0000_0000,
                b < 0x10_0000_0000,
        ;
        assert(a < 0x1_0000_0000 && b < 0x1_0000_0000 ==> a * b < 0x1_0000_0000_0000_0000) by (nonlinear_arith);
    }
    a * b
}

/// Places the tensors `ts` (given as pairs of kind and entry count) from
/// `off`, appending their places to `acc`; returns the offset after them,
/// or none when one runs past the end of a table of `len` bytes.
fn place_exec(ts: &Vec<(bool, u128)>, off: u128, len: usize, acc: &mut Vec<(usize, usize)>) -> (r: Option<u128>)
    requires
        off <= len,
        forall|k: int| 0 <= k < ts@.len() ==> (#[trigger] ts@[k]).1 < 0x10_0000_0000_0000_0000_0000_0000,
    ensures
        match place(plan_view(ts@), off as int, len as int) {
            Some((ps, end)) => r == Some(end as u128) && 0 <= end <= len && placed_view(final(acc)@) == placed_view(
                old(acc)@,
            ) + ps,
            None => r is None,
        },
{
    let ghost plan = plan_view(ts@);
    let ghost start = placed_view(acc@);
    let mut o = off;
    let mut k: usize = 0;
    assert(plan.skip(0) =~= plan);
    while k < ts.len()
        invariant
            k <= ts@.len(),
            o <= len,
            plan == plan_view(ts@),
            forall|j: int| 0 <= j < ts@.len() ==> (#[trigger] ts@[j]).1 < 0x10_0000_0000_0000_0000_0000_0000,
            place(plan, off as int, len as int) == match place(plan.skip(k as int), o as int, len as int) {
                Some((ps, end)) => Some((placed_view(acc@).subrange(start.len() as int, placed_view(acc@).len() as int) + ps, end)),
                None => None,
            },
            placed_view(acc@).take(start.len() as int) == start,
            start.len() <= placed_view(acc@).len(),
        decreases ts@.len() - k,
    {
        let (quant, n) = ts[k];
        let size: u128 = if quant { 4 + n } else { 4 * n };
        proof {
            assert(plan.skip(k as int)[0] == plan[k as int]);
            assert(plan.skip(k as int).drop_first() =~= plan.skip(k as int + 1));
        }
        if o + size > len as u128 {
            return None;
        }
        let ghost before = placed_view(acc@);
        acc.push((o as usize, size as usize));
        proof {
            assert(placed_view(acc@) =~= before.push((o as int, size as int)));
            assert(placed_view(acc@).take(start.len() as int) =~= start);
            assert(placed_view(acc@).subrange(start.len() as int, placed_view(acc@).len() as int) =~= before.subrange(
                start.len() as int,
                before.len() as int,
            ) + seq![(o as int, size as int)]);
        }
        o = o + size;
        k = k + 1;
    }
    proof {
        assert(plan.skip(k as int) =~= Seq::<(bool, int)>::empty());
        assert(placed_view(acc@) =~= start + placed_view(acc@).subrange(start.len() as int, placed_view(acc@).len() as int));
    }
    Some(o)
}

/// Places `n` layers of the tensors `ts` from `off`, appending their places
/// to `acc`; returns the offset after them, or none when one runs past the
/// end of a table of `len` bytes.
fn place_layers_exec(ts: &Vec<(bool, u128)>, n: u32, off: u128, len: usize, acc: &mut Vec<(usize, usize)>) -> (r: Option<u128>)
    requires
        off <= len,
        forall|k: int| 0 <= k < ts@.len() ==> (#[trigger] ts@[k]).1 < 0x10_0000_0000_0000_0000_0000_0000,
    ensures
        match place_layers(plan_view(ts@), n as nat, off as int, len as int) {
            Some((ps, end)) => r == Some(end as u128) && 0 <= end <= len && placed_view(final(acc)@) == placed_view(
                old(acc)@,
            ) + ps,
            None => r is None,
        },
{
    let ghost plan = plan_view(ts@);
    let ghost start = placed_view(acc@);
    let mut o = off;
    let mut i: u32 = 0;
    while i < n
        invariant
            i <= n,
            o <= len,
            plan == plan_view(ts@),
            forall|j: int| 0 <= j < ts@.len() ==> (#[trigger] ts@[j]).1 < 0x10_0000_0000_0000_0000_0000_0000,
            place_layers(plan, n as nat, off as int, len as int) == match place_layers(plan, (n - i) as nat, o as int, len as int) {
                Some((ps, end)) => Some((placed_view(acc@).skip(start.len() as int) + ps, end)),
                None => None,
            },
            placed_view(acc@).take(start.len() as int) == start,
            start.len() <= placed_view(acc@).len(),
        decreases n - i,
    {
        let ghost before = placed_view(acc@);
        let step = place_exec(ts, o, len, acc);
        match step {
            None => {
                return None;
            },
            Some(e) => {
                proof {
                    let pr = place(plan, o as int, len as int);
                    assert(pr is Some);
                    let first = placed_view(acc@).skip(before.len() as int);
                    let (ps0, end0) = pr->0;
                    assert(ps0 =~= first);
                    assert(e as int == end0);
                    let m: nat = (n - i) as nat;
                    assert(place_layers(plan, m, o as int, len as int) == match place_layers(plan, (m - 1) as nat, e as int, len as int) {
                        Some((rest, end)) => Some((first + rest, end)),
                        None => None,
                    });
                    assert((m - 1) as nat == (n - (i + 1)) as nat);
                    assert(placed_view(acc@) =~= before + first);
                    assert(placed_view(acc@).take(start.len() as int) =~= start);
                    assert(placed_view(acc@).skip(start.len() as int) =~= before.skip(start.len() as int) + first);
                    match place_layers(plan, (n - i - 1) as nat, e as int, len as int) {
                        Some((rest, end)) => {
                            assert(before.skip(start.len() as int) + (first + rest) =~= placed_view(acc@).skip(
                                start.len() as int,
                            ) + rest);
                        },
                        None => {},
                    }
                }
                o = e;
                i = i + 1;
            },
        }
    }
    proof {
        assert(placed_view(acc@) =~= start + placed_view(acc@).skip(start.len() as int));
    }
    Some(o)
}


/// Whether every entry count of a plan leaves room for its byte length.
pub open spec fn plan_fits(ts: Seq<(bool, u128)>) -> bool {
    forall|k: int| 0 <= k < ts.len() ==> (#[trigger] ts[k]).1 < 0x10_0000_0000_0000_0000_0000_0000
}

/// The tensors of one encoder layer of width `s`, as a plan.
fn encoder_plan_exec(s: u128) -> (r: Vec<(bool, u128)>)
    requires
        s < 0x1_0000_0000,
    ensures
        plan_view(r@) == encoder_plan(s as int),
        plan_fits(r@),
{
    let ss = mul_wide(s, s);
    let s4 = mul_wide(s, 4);
    let wide1 = mul_wide(s, s4);
    let wide2 = mul_wide(s4, s);
    let mut r: Vec<(bool, u128)> = Vec::new();
    r.push((true, ss));
    r.push((true, ss));
    r.push((true, ss));
    r.push((true, ss));
    r.push((true, wide1));
    r.push((true, wide2));
    let mut k: usize = 0;
    while k < 9
        invariant
            k <= 9,
            r@.len() == 6 + k,
            r@[0] == (true, ss),
            r@[1] == (true, ss),
            r@[2] == (true, ss),
            r@[3] == (true, ss),
            r@[4] == (true, wide1),
            r@[5] == (true, wide2),
            forall|j: int| 6 <= j < 6 + k ==> (#[trigger] r@[j]) == (false, if j == 11 { s4 } else { s }),
        decreases 9 - k,
    {
        if k == 5 {
            r.push((false, s4));
        } else {
            r.push((false, s));
        }
        k = k + 1;
    }
    assert(plan_view(r@) =~= encoder_plan(s as int));
    r
}

/// The tensors of one decoder layer of width `t`, as a plan.
fn decoder_plan_exec(t: u128) -> (r: Vec<(bool, u128)>)
    requires
        t < 0x1_0000_0000,
    ensures
        plan_view(r@) == decoder_plan(t as int),
        plan_fits(r@),
{
    let tt = mul_wide(t, t);
    let t4 = mul_wide(t, 4);
    let wide1 = mul_wide(t, t4);
    let wide2 = mul_wide(t4, t);
    let mut r: Vec<(bool, u128)> = Vec::new();
    let mut k: usize = 0;
    while k < 8
        invariant
            k <= 8,
            r@.len() == k,
            forall|j: int| 0 <= j < k ==> (#[trigger] r@[j]) == (true, tt),
        decreases 8 - k,
    {
        r.push((true, tt));
        k = k + 1;
    }
    r.push((true, wide1));
    r.push((true, wide2));
    let mut k: usize = 0;
    while k < 14
        invariant
            k <= 14,
            r@.len() == 10 + k,
            forall|j: int| 0 <= j < 8 ==> (#[trigger] r@[j]) == (true, tt),
            r@[8] == (true, wide1),
            r@[9] == (true, wide2),
            forall|j: int| 10 <= j < 10 + k ==> (#[trigger] r@[j]) == (false, if j == 20 { t4 } else { t }),
        decreases 14 - k,
    {
        if k == 10 {
            r.push((false, t4));
        } else {
            r.push((false, t));
        }
        k = k + 1;
    }
    assert(plan_view(r@) =~= decoder_plan(t as int));
    r
}

/// The sum of the bytes of `b[from..to]`.
fn sum_bytes(b: &[u8], from: usize, to: usize) -> (r: u128)
    requires
        from <= to <= b@.len(),
    ensures
        r == byte_sum(b@.subrange(from as int, to as int)),
        r <= 255 * (to - from),
{
    let mut k = from;
    let mut acc: u128 = 0;
    assert(b@.subrange(from as int, from as int) =~= Seq::<u8>::empty());
    while k < to
        invariant
            from <= k <= to,
            to <= b@.len(),
            acc == byte_sum(b@.subrange(from as int, k as int)),
            acc <= 255 * (k - from),
        decreases to - k,
    {
        assert(b@.subrange(from as int, k + 1).drop_last() =~= b@.subrange(from as int, k as int));
        acc = acc + b[k] as u128;
        k = k + 1;
    }
    acc
}

/// Reads the layout of a WHSP1 table: where each tensor, the vocabulary
/// lengths and the vocabulary bytes lie. None when the table is shorter than
/// its header, does not start with the magic, or is too short for a tensor
/// or the vocabulary that its header announces.
pub fn parse_model_layout(bytes: &[u8]) -> (r: Option<ModelLayout>)
    ensures
        match model_layout_spec(bytes@) {
            Some(v) => r is Some && layout_view(r->0) == v,
            None => r is None,
        },
{
    let len = bytes.len();
    if len < 81 {
        return None;
    }
    if !(bytes[0] == 87 && bytes[1] == 72 && bytes[2] == 83 && bytes[3] == 80 && bytes[4] == 49) {
        proof {
            if bytes@.take(5) == seq![87u8, 72u8, 83u8, 80u8, 49u8] {
                assert(bytes@.take(5)[0] == 87u8);
                assert(bytes@.take(5)[1] == 72u8);
                assert(bytes@.take(5)[2] == 83u8);
                assert(bytes@.take(5)[3] == 80u8);
                assert(bytes@.take(5)[4] == 49u8);
            }
        }
        return None;
    }
    assert(bytes@.take(5) =~= seq![87u8, 72u8, 83u8, 80u8, 49u8]);
    let mut dims: Vec<u32> = Vec::new();
    let mut k: usize = 0;
    while k < 14
        invariant
            k <= 14,
            len == bytes@.len(),
            len >= 81,
            dims@.len() == k,
            forall|j: int| 0 <= j < k ==> (#[trigger] dims@[j]) as int == dim(bytes@, j),
        decreases 14 - k,
    {
        let v = read_u32(bytes, 5 + 4 * k);
        dims.push(v);
        k = k + 1;
    }
    let mut tokens: Vec<u32> = Vec::new();
    let mut k: usize = 0;
    while k < 5
        invariant
            k <= 5,
            len == bytes@.len(),
            len >= 81,
            tokens@.len() == k,
            forall|j: int| 0 <= j < k ==> (#[trigger] tokens@[j]) as int == u32_le(bytes@, 61 + 4 * j),
        decreases 5 - k,
    {
        let v = read_u32(bytes, 61 + 4 * k);
        tokens.push(v);
        k = k + 1;
    }
    let mels = dims[1] as u128;
    let bins = dims[2] as u128;
    let s = dims[4] as u128;
    let vocab = dims[7] as u128;
    let base_vocab = dims[8];
    let text_ctx = dims[9] as u128;
    let t = dims[10] as u128;
    let ghost b = bytes@;
    let ghost head_spec = seq![
        (false, dim(b, 1) * dim(b, 2)),
        (false, dim(b, 4) * dim(b, 1) * 3),
        (false, dim(b, 4)),
        (false, dim(b, 4) * dim(b, 4) * 3),
        (false, dim(b, 4)),
    ];
    let ghost middle_spec = seq![
        (false, dim(b, 4)),
        (false, dim(b, 4)),
        (true, dim(b, 7) * dim(b, 10)),
        (false, dim(b, 9) * dim(b, 10)),
    ];
    let ghost tail_spec = seq![(false, dim(b, 10)), (false, dim(b, 10))];
    let mut head: Vec<(bool, u128)> = Vec::new();
    head.push((false, mul_wide(mels, bins)));
    let sm = mul_wide(s, mels);
    head.push((false, mul_wide(sm, 3)));
    head.push((false, s));
    let ss = mul_wide(s, s);
    head.push((false, mul_wide(ss, 3)));
    head.push((false, s));
    assert(plan_view(head@) =~= head_spec);
    assert(plan_fits(head@));
    let enc = encoder_plan_exec(s);
    let mut middle: Vec<(bool, u128)> = Vec::new();
    middle.push((false, s));
    middle.push((false, s));
    middle.push((true, mul_wide(vocab, t)));
    middle.push((false, mul_wide(text_ctx, t)));
    assert(plan_view(middle@) =~= middle_spec);
    assert(plan_fits(middle@));
    let dec = decoder_plan_exec(t);
    let mut tail: Vec<(bool, u128)> = Vec::new();
    tail.push((false, t));
    tail.push((false, t));
    assert(plan_view(tail@) =~= tail_spec);
    assert(plan_fits(tail@));
    let mut acc: Vec<(usize, usize)> = Vec::new();
    let o1 = match place_exec(&head, 81, len, &mut acc) {
        Some(o) => o,
        None => {
            return None;
        },
    };
    let ghost a1 = placed_view(acc@);
    let o2 = match place_layers_exec(&enc, dims[6], o1, len, &mut acc) {
        Some(o) => o,
        None => {
            return None;
        },
    };
    let ghost a2 = placed_view(acc@);
    let o3 = match place_exec(&middle, o2, len, &mut acc) {
        Some(o) => o,
        None => {
            return None;
        },
    };
    let ghost a3 = placed_view(acc@);
    let o4 = match place_layers_exec(&dec, dims[12], o3, len, &mut acc) {
        Some(o) => o,
        None => {
            return None;
        },
    };
    let ghost a4 = placed_view(acc@);
    let o5 = match place_exec(&tail, o4, len, &mut acc) {
        Some(o) => o,
        None => {
            return None;
        },
    };
    let o5u = o5 as usize;
    let bv = base_vocab as usize;
    if bv > len - o5u {
        return None;
    }
    let lens_end = o5u + bv;
    let total = sum_bytes(bytes, o5u, lens_end);
    if total > (len - lens_end) as u128 {
        return None;
    }
    let r = ModelLayout { dims, tokens, tensors: acc, vocab_lens: (o5u, bv), vocab_bytes: (lens_end, total as usize) };
    proof {
        assert(layout_view(r).dims =~= Seq::new(14, |k: int| dim(b, k)));
        assert(layout_view(r).tokens =~= Seq::new(5, |k: int| u32_le(b, 61 + 4 * k)));
    }
    Some(r)
}

/// The bytes of token `id` of the table `b` laid out as `v`: its length is
/// its vocabulary length byte, and it starts after the bytes of the tokens
/// before it; nothing for an id outside the base vocabulary.
pub open spec fn token_bytes_spec(b: Seq<u8>, v: LayoutView, id: int) -> Seq<u8> {
    let lens = b.subrange(v.vocab_lens.0, v.vocab_lens.0 + v.vocab_lens.1);
    if id < 0 || id >= v.vocab_lens.1 {
        Seq::empty()
    } else {
        let start = v.vocab_bytes.0 + byte_sum(lens.take(id));
        b.subrange(start, start + lens[id] as int)
    }
}

proof fn lemma_byte_sum_prefix(s: Seq<u8>, k: int)
    requires
        0 <= k <= s.len(),
    ensures
        byte_sum(s.take(k)) <= byte_sum(s),
        0 <= byte_sum(s.take(k)),
        k < s.len() ==> byte_sum(s.take(k + 1)) == byte_sum(s.take(k)) + s[k] as int,
    decreases s.len() - k,
{
    if k < s.len() {
        assert(s.take(k + 1).drop_last() =~= s.take(k));
        lemma_byte_sum_prefix(s, k + 1);
    } else {
        assert(s.take(k) =~= s);
    }
    lemma_byte_sum_nonneg(s.take(k));
}

proof fn lemma_byte_sum_nonneg(s: Seq<u8>)
    ensures
        byte_sum(s) >= 0,
    decreases s.len(),
{
    if s.len() > 0 {
        lemma_byte_sum_nonneg(s.drop_last());
    }
}

/// Appends the bytes of token `id` (nothing for a special token outside
/// the base vocabulary).
pub fn decode_token_bytes(bytes: &[u8], layout: &ModelLayout, id: u32, out: &mut Vec<u8>)
    requires
        model_layout_spec(bytes@) == Some(layout_view(*layout)),
    ensures
        final(out)@ == old(out)@ + token_bytes_spec(bytes@, layout_view(*layout), id as int),
{
    let ghost v = layout_view(*layout);
    let (lens_at, n) = layout.vocab_lens;
    let ghost lens = bytes@.subrange(lens_at as int, lens_at + n);
    if id as usize >= n {
        assert(token_bytes_spec(bytes@, v, id as int) =~= Seq::<u8>::empty());
        assert(out@ + Seq::<u8>::empty() =~= out@);
        return;
    }
    let k = id as usize;
    let mut start: usize = layout.vocab_bytes.0;
    let mut i: usize = 0;
    proof {
        assert(lens.take(0) =~= Seq::<u8>::empty());
        lemma_byte_sum_prefix(lens, k as int);
    }
    while i < k
        invariant
            i <= k < n,
            model_layout_spec(bytes@) == Some(v),
            v == layout_view(*layout),
            lens == bytes@.subrange(lens_at as int, lens_at + n),
            lens_at == v.vocab_lens.0,
            n == v.vocab_lens.1,
            lens_at + n + v.vocab_bytes.1 <= bytes@.len(),
            v.vocab_bytes.0 == lens_at + n,
            v.vocab_bytes.1 == byte_sum(lens),
            start == v.vocab_bytes.0 + byte_sum(lens.take(i as int)),
            byte_sum(lens.take(k as int)) <= byte_sum(lens),
        decreases k - i,
    {
        proof {
            lemma_byte_sum_prefix(lens, i as int);
            lemma_byte_sum_prefix(lens, i + 1);
            lemma_byte_sum_prefix(lens.take(k as int), i + 1);
            assert(lens.take(k as int).take(i + 1) =~= lens.take(i + 1));
            assert(lens[i as int] == bytes@[lens_at + i]);
        }
        start = start + bytes[lens_at + i] as usize;
        i = i + 1;
    }
    proof {
        lemma_byte_sum_prefix(lens, k as int);
        lemma_byte_sum_prefix(lens, k + 1);
        assert(lens[k as int] == bytes@[lens_at + k]);
    }
    let len = bytes[lens_at + k] as usize;
    let piece = &bytes[start..start + len];
    assert(piece@ =~= token_bytes_spec(bytes@, v, id as int));
    let mut j: usize = 0;
    let ghost o0 = out@;
    while j < piece.len()
        invariant
            j <= piece@.len(),
            out@ == o0 + piece@.take(j as int),
        decreases piece@.len() - j,
    {
        out.push(piece[j]);
        j = j + 1;
        assert(out@ =~= o0 + piece@.take(j as int));
    }
    assert(piece@.take(j as int) =~= piece@);
}

} // verus!
