//! Little-endian integers and byte strings: the building blocks of the
//! filter's binary layout.
use vstd::prelude::*;

verus! {

/// The two bytes of `x`, least significant first.
pub open spec fn u16_le(x: u16) -> Seq<u8> {
    seq![(x & 0xff) as u8, ((x >> 8u16) & 0xff) as u8]
}

/// The four bytes of `x`, least significant first.
pub open spec fn u32_le(x: u32) -> Seq<u8> {
    seq![
        (x & 0xff) as u8,
        ((x >> 8u32) & 0xff) as u8,
        ((x >> 16u32) & 0xff) as u8,
        ((x >> 24u32) & 0xff) as u8,
    ]
}

/// The eight bytes of `x`, least significant first.
pub open spec fn u64_le(x: u64) -> Seq<u8> {
    seq![
        (x & 0xff) as u8,
        ((x >> 8u64) & 0xff) as u8,
        ((x >> 16u64) & 0xff) as u8,
        ((x >> 24u64) & 0xff) as u8,
        ((x >> 32u64) & 0xff) as u8,
        ((x >> 40u64) & 0xff) as u8,
        ((x >> 48u64) & 0xff) as u8,
        ((x >> 56u64) & 0xff) as u8,
    ]
}

/// The `u16` stored little-endian at position `i` of `s`.
pub open spec fn le_u16(s: Seq<u8>, i: int) -> u16 {
    (s[i] as u16) | ((s[i + 1] as u16) << 8u16)
}

/// The `u32` stored little-endian at position `i` of `s`.
pub open spec fn le_u32(s: Seq<u8>, i: int) -> u32 {
    (s[i] as u32) | ((s[i + 1] as u32) << 8u32) | ((s[i + 2] as u32) << 16u32) | ((s[i + 3] as u32)
        << 24u32)
}

/// The `u64` stored little-endian at position `i` of `s`.
pub open spec fn le_u64(s: Seq<u8>, i: int) -> u64 {
    (s[i] as u64) | ((s[i + 1] as u64) << 8u64) | ((s[i + 2] as u64) << 16u64) | ((s[i + 3] as u64)
        << 24u64) | ((s[i + 4] as u64) << 32u64) | ((s[i + 5] as u64) << 40u64) | ((s[i + 6] as u64)
        << 48u64) | ((s[i + 7] as u64) << 56u64)
}

/// A sequence of `u32`s, each in its four little-endian bytes.
pub open spec fn u32s_le(s: Seq<u32>) -> Seq<u8>
    decreases s.len(),
{
    if s.len() == 0 {
        Seq::empty()
    } else {
        u32s_le(s.drop_last()) + u32_le(s.last())
    }
}

proof fn lemma_u16_bytes(b0: u8, b1: u8)
    by (bit_vector)
    ensures
        (((b0 as u16) | ((b1 as u16) << 8u16)) & 0xff) as u8 == b0,
        ((((b0 as u16) | ((b1 as u16) << 8u16)) >> 8u16) & 0xff) as u8 == b1,
{
}

proof fn lemma_u16_value(x: u16)
    by (bit_vector)
    ensures
        x == (((x & 0xff) as u8) as u16) | (((((x >> 8u16) & 0xff) as u8) as u16) << 8u16),
{
}

proof fn lemma_u32_bytes(b0: u8, b1: u8, b2: u8, b3: u8)
    by (bit_vector)
    ensures
        ({
            let x = (b0 as u32) | ((b1 as u32) << 8u32) | ((b2 as u32) << 16u32) | ((b3 as u32)
                << 24u32);
            &&& (x & 0xff) as u8 == b0
            &&& ((x >> 8u32) & 0xff) as u8 == b1
            &&& ((x >> 16u32) & 0xff) as u8 == b2
            &&& ((x >> 24u32) & 0xff) as u8 == b3
        }),
{
}

proof fn lemma_u32_value(x: u32)
    by (bit_vector)
    ensures
        x == (((x & 0xff) as u8) as u32) | (((((x >> 8u32) & 0xff) as u8) as u32) << 8u32) | (((((x
            >> 16u32) & 0xff) as u8) as u32) << 16u32) | (((((x >> 24u32) & 0xff) as u8) as u32)
            << 24u32),
{
}

proof fn lemma_u64_bytes(b0: u8, b1: u8, b2: u8, b3: u8, b4: u8, b5: u8, b6: u8, b7: u8)
    by (bit_vector)
    ensures
        ({
            let x = (b0 as u64) | ((b1 as u64) << 8u64) | ((b2 as u64) << 16u64) | ((b3 as u64)
                << 24u64) | ((b4 as u64) << 32u64) | ((b5 as u64) << 40u64) | ((b6 as u64)
                << 48u64) | ((b7 as u64) << 56u64);
            &&& (x & 0xff) as u8 == b0
            &&& ((x >> 8u64) & 0xff) as u8 == b1
            &&& ((x >> 16u64) & 0xff) as u8 == b2
            &&& ((x >> 24u64) & 0xff) as u8 == b3
            &&& ((x >> 32u64) & 0xff) as u8 == b4
            &&& ((x >> 40u64) & 0xff) as u8 == b5
            &&& ((x >> 48u64) & 0xff) as u8 == b6
            &&& ((x >> 56u64) & 0xff) as u8 == b7
        }),
{
}

proof fn lemma_u64_value(x: u64)
    by (bit_vector)
    ensures
        x == (((x & 0xff) as u8) as u64) | (((((x >> 8u64) & 0xff) as u8) as u64) << 8u64) | (((((x
            >> 16u64) & 0xff) as u8) as u64) << 16u64) | (((((x >> 24u64) & 0xff) as u8) as u64)
            << 24u64) | (((((x >> 32u64) & 0xff) as u8) as u64) << 32u64) | (((((x >> 40u64) & 0xff)
            as u8) as u64) << 40u64) | (((((x >> 48u64) & 0xff) as u8) as u64) << 48u64) | (((((x
            >> 56u64) & 0xff) as u8) as u64) << 56u64),
{
}

/// Reading back the bytes of a `u16` gives the `u16`; the bytes read as a
/// `u16` and written again are the same bytes.
pub proof fn lemma_u16_round_trip(x: u16, s: Seq<u8>, i: int)
    requires
        0 <= i,
        i + 2 <= s.len(),
    ensures
        le_u16(u16_le(x), 0) == x,
        u16_le(le_u16(s, i)) == s.subrange(i, i + 2),
{
    lemma_u16_value(x);
    lemma_u16_bytes(s[i], s[i + 1]);
    assert(u16_le(le_u16(s, i)) =~= s.subrange(i, i + 2));
}

/// The same for `u32`.
pub proof fn lemma_u32_round_trip(x: u32, s: Seq<u8>, i: int)
    requires
        0 <= i,
        i + 4 <= s.len(),
    ensures
        le_u32(u32_le(x), 0) == x,
        u32_le(le_u32(s, i)) == s.subrange(i, i + 4),
{
    lemma_u32_value(x);
    lemma_u32_bytes(s[i], s[i + 1], s[i + 2], s[i + 3]);
    assert(u32_le(le_u32(s, i)) =~= s.subrange(i, i + 4));
}

/// The same for `u64`.
pub proof fn lemma_u64_round_trip(x: u64, s: Seq<u8>, i: int)
    requires
        0 <= i,
        i + 8 <= s.len(),
    ensures
        le_u64(u64_le(x), 0) == x,
        u64_le(le_u64(s, i)) == s.subrange(i, i + 8),
{
    lemma_u64_value(x);
    lemma_u64_bytes(s[i], s[i + 1], s[i + 2], s[i + 3], s[i + 4], s[i + 5], s[i + 6], s[i + 7]);
    assert(u64_le(le_u64(s, i)) =~= s.subrange(i, i + 8));
}

/// The encoding of `n` fingerprints takes `4 * n` bytes.
pub proof fn lemma_u32s_len(s: Seq<u32>)
    ensures
        u32s_le(s).len() == 4 * s.len(),
    decreases s.len(),
{
    if s.len() > 0 {
        lemma_u32s_len(s.drop_last());
    }
}

/// Appends the bytes of `a`.
pub fn append_bytes(out: &mut Vec<u8>, a: &[u8])
    ensures
        final(out)@ == old(out)@ + a@,
{
    let ghost start = out@;
    let mut i: usize = 0;
    while i < a.len()
        invariant
            i <= a@.len(),
            out@ == start + a@.subrange(0, i as int),
        decreases a@.len() - i,
    {
        out.push(a[i]);
        i = i + 1;
        assert(out@ =~= start + a@.subrange(0, i as int));
    }
    assert(a@.subrange(0, a@.len() as int) =~= a@);
}

/// A fresh vector holding the bytes of `a`.
pub fn copy_bytes(a: &[u8]) -> (r: Vec<u8>)
    ensures
        r@ == a@,
{
    let mut out: Vec<u8> = Vec::new();
    append_bytes(&mut out, a);
    assert(out@ =~= a@);
    out
}

/// Appends the two little-endian bytes of `x`.
pub fn push_u16_le(out: &mut Vec<u8>, x: u16)
    ensures
        final(out)@ == old(out)@ + u16_le(x),
{
    out.push((x & 0xff) as u8);
    out.push(((x >> 8u16) & 0xff) as u8);
    assert(out@ =~= old(out)@ + u16_le(x));
}

/// Appends the four little-endian bytes of `x`.
pub fn push_u32_le(out: &mut Vec<u8>, x: u32)
    ensures
        final(out)@ == old(out)@ + u32_le(x),
{
    out.push((x & 0xff) as u8);
    out.push(((x >> 8u32) & 0xff) as u8);
    out.push(((x >> 16u32) & 0xff) as u8);
    out.push(((x >> 24u32) & 0xff) as u8);
    assert(out@ =~= old(out)@ + u32_le(x));
}

/// Appends the eight little-endian bytes of `x`.
pub fn push_u64_le(out: &mut Vec<u8>, x: u64)
    ensures
        final(out)@ == old(out)@ + u64_le(x),
{
    out.push((x & 0xff) as u8);
    out.push(((x >> 8u64) & 0xff) as u8);
    out.push(((x >> 16u64) & 0xff) as u8);
    out.push(((x >> 24u64) & 0xff) as u8);
    out.push(((x >> 32u64) & 0xff) as u8);
    out.push(((x >> 40u64) & 0xff) as u8);
    out.push(((x >> 48u64) & 0xff) as u8);
    out.push(((x >> 56u64) & 0xff) as u8);
    assert(out@ =~= old(out)@ + u64_le(x));
}

/// Appends each value in four little-endian bytes.
pub fn push_u32s_le(out: &mut Vec<u8>, values: &[u32])
    ensures
        final(out)@ == old(out)@ + u32s_le(values@),
{
    let ghost start = out@;
    let mut i: usize = 0;
    while i < values.len()
        invariant
            i <= values@.len(),
            out@ == start + u32s_le(values@.subrange(0, i as int)),
        decreases values@.len() - i,
    {
        push_u32_le(out, values[i]);
        proof {
            let next = values@.subrange(0, i + 1);
            assert(next.drop_last() =~= values@.subrange(0, i as int));
        }
        i = i + 1;
    }
    assert(values@.subrange(0, values@.len() as int) =~= values@);
}

/// The `u16` stored little-endian at `pos`.
pub fn read_u16_le(data: &[u8], pos: usize) -> (r: u16)
    requires
        pos + 2 <= data@.len(),
    ensures
        r == le_u16(data@, pos as int),
{
    (data[pos] as u16) | ((data[pos + 1] as u16) << 8u16)
}

/// The `u32` stored little-endian at `pos`.
pub fn read_u32_le(data: &[u8], pos: usize) -> (r: u32)
    requires
        pos + 4 <= data@.len(),
    ensures
        r == le_u32(data@, pos as int),
{
    (data[pos] as u32) | ((data[pos + 1] as u32) << 8u32) | ((data[pos + 2] as u32) << 16u32) | ((
    data[pos + 3] as u32) << 24u32)
}

/// The `u64` stored little-endian at `pos`.
pub fn read_u64_le(data: &[u8], pos: usize) -> (r: u64)
    requires
        pos + 8 <= data@.len(),
    ensures
        r == le_u64(data@, pos as int),
{
    (data[pos] as u64) | ((data[pos + 1] as u64) << 8u64) | ((data[pos + 2] as u64) << 16u64) | ((
    data[pos + 3] as u64) << 24u64) | ((data[pos + 4] as u64) << 32u64) | ((data[pos + 5] as u64)
        << 40u64) | ((data[pos + 6] as u64) << 48u64) | ((data[pos + 7] as u64) << 56u64)
}

/// Reads `count` little-endian `u32`s starting at `pos`; the bytes they came
/// from are exactly their encoding.
pub fn read_u32s_le(data: &[u8], pos: usize, count: usize) -> (r: Vec<u32>)
    requires
        pos + 4 * count <= data@.len(),
    ensures
        r@.len() == count,
        u32s_le(r@) == data@.subrange(pos as int, pos + 4 * count),
{
    let mut out: Vec<u32> = Vec::new();
    let len = data.len();
    let mut i: usize = 0;
    while i < count
        invariant
            len == data@.len(),
            i <= count,
            pos + 4 * count <= data@.len(),
            out@.len() == i,
            u32s_le(out@) == data@.subrange(pos as int, pos + 4 * i),
        decreases count - i,
    {
        assert(4 * i + 4 <= 4 * count) by (nonlinear_arith)
            requires
                i < count,
        ;
        let at = pos + 4 * i;
        let v = read_u32_le(data, at);
        proof {
            lemma_u32_round_trip(v, data@, at as int);
        }
        let ghost before = out@;
        out.push(v);
        proof {
            assert(out@.drop_last() =~= before);
            assert(data@.subrange(pos as int, pos + 4 * (i + 1)) =~= data@.subrange(
                pos as int,
                pos + 4 * i,
            ) + data@.subrange(at as int, at + 4));
        }
        i = i + 1;
    }
    out
}

} // verus!
