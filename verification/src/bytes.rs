//! Big-endian fixed-width integer encoding shared by the binary formats.
use vstd::prelude::*;

verus! {

/// Big-endian bytes of a `u16`.
pub open spec fn be16(v: u16) -> Seq<u8> {
    seq![(v >> 8u16) as u8, v as u8]
}

/// Big-endian bytes of a `u32`.
pub open spec fn be32(v: u32) -> Seq<u8> {
    seq![(v >> 24u32) as u8, (v >> 16u32) as u8, (v >> 8u32) as u8, v as u8]
}

/// Big-endian bytes of a `u64`.
pub open spec fn be64(v: u64) -> Seq<u8> {
    seq![
        (v >> 56u64) as u8,
        (v >> 48u64) as u8,
        (v >> 40u64) as u8,
        (v >> 32u64) as u8,
        (v >> 24u64) as u8,
        (v >> 16u64) as u8,
        (v >> 8u64) as u8,
        v as u8,
    ]
}

/// The `u16` whose big-endian bytes start `s` at `at`.
pub open spec fn read_be16(s: Seq<u8>, at: int) -> u16 {
    ((s[at] as u16) << 8u16) | (s[at + 1] as u16)
}

/// The `u32` whose big-endian bytes start `s` at `at`.
pub open spec fn read_be32(s: Seq<u8>, at: int) -> u32 {
    ((s[at] as u32) << 24u32) | ((s[at + 1] as u32) << 16u32) | ((s[at + 2] as u32) << 8u32)
        | (s[at + 3] as u32)
}

/// The `u64` whose big-endian bytes start `s` at `at`.
pub open spec fn read_be64(s: Seq<u8>, at: int) -> u64 {
    ((s[at] as u64) << 56u64) | ((s[at + 1] as u64) << 48u64) | ((s[at + 2] as u64) << 40u64)
        | ((s[at + 3] as u64) << 32u64) | ((s[at + 4] as u64) << 24u64) | ((s[at + 5] as u64)
        << 16u64) | ((s[at + 6] as u64) << 8u64) | (s[at + 7] as u64)
}

/// Reading back the bytes of a `u16` yields the `u16`.
pub proof fn lemma_be16_round_trip(v: u16, s: Seq<u8>, at: int)
    requires
        0 <= at,
        at + 2 <= s.len(),
        s.subrange(at, at + 2) == be16(v),
    ensures
        read_be16(s, at) == v,
{
    assert(s[at] == be16(v)[0]);
    assert(s[at + 1] == be16(v)[1]);
    let b0 = s[at];
    let b1 = s[at + 1];
    assert(((((v >> 8u16) as u8) as u16) << 8u16) | (((v as u8) as u16)) == v) by (bit_vector);
}

/// Reading back the bytes of a `u32` yields the `u32`.
pub proof fn lemma_be32_round_trip(v: u32, s: Seq<u8>, at: int)
    requires
        0 <= at,
        at + 4 <= s.len(),
        s.subrange(at, at + 4) == be32(v),
    ensures
        read_be32(s, at) == v,
{
    assert(s[at] == be32(v)[0]);
    assert(s[at + 1] == be32(v)[1]);
    assert(s[at + 2] == be32(v)[2]);
    assert(s[at + 3] == be32(v)[3]);
    assert(((((v >> 24u32) as u8) as u32) << 24u32) | ((((v >> 16u32) as u8) as u32) << 16u32)
        | ((((v >> 8u32) as u8) as u32) << 8u32) | (((v as u8) as u32)) == v) by (bit_vector);
}

/// Reading back the bytes of a `u64` yields the `u64`.
pub proof fn lemma_be64_round_trip(v: u64, s: Seq<u8>, at: int)
    requires
        0 <= at,
        at + 8 <= s.len(),
        s.subrange(at, at + 8) == be64(v),
    ensures
        read_be64(s, at) == v,
{
    assert(s[at] == be64(v)[0]);
    assert(s[at + 1] == be64(v)[1]);
    assert(s[at + 2] == be64(v)[2]);
    assert(s[at + 3] == be64(v)[3]);
    assert(s[at + 4] == be64(v)[4]);
    assert(s[at + 5] == be64(v)[5]);
    assert(s[at + 6] == be64(v)[6]);
    assert(s[at + 7] == be64(v)[7]);
    assert(((((v >> 56u64) as u8) as u64) << 56u64) | ((((v >> 48u64) as u8) as u64) << 48u64)
        | ((((v >> 40u64) as u8) as u64) << 40u64) | ((((v >> 32u64) as u8) as u64) << 32u64)
        | ((((v >> 24u64) as u8) as u64) << 24u64) | ((((v >> 16u64) as u8) as u64) << 16u64)
        | ((((v >> 8u64) as u8) as u64) << 8u64) | (((v as u8) as u64)) == v) by (bit_vector);
}

/// The bytes at `at` are those of the `u16` read there.
pub proof fn lemma_read_be16(s: Seq<u8>, at: int)
    requires
        0 <= at,
        at + 2 <= s.len(),
    ensures
        s.subrange(at, at + 2) == be16(read_be16(s, at)),
{
    let b0 = s[at];
    let b1 = s[at + 1];
    let v = read_be16(s, at);
    assert(v == ((b0 as u16) << 8u16) | (b1 as u16));
    assert(((((b0 as u16) << 8u16) | (b1 as u16)) >> 8u16) as u8 == b0 && (((b0 as u16) << 8u16) | (b1 as u16)) as u8
        == b1) by (bit_vector);
    assert(s.subrange(at, at + 2) =~= be16(v));
}

/// The bytes at `at` are those of the `u32` read there.
pub proof fn lemma_read_be32(s: Seq<u8>, at: int)
    requires
        0 <= at,
        at + 4 <= s.len(),
    ensures
        s.subrange(at, at + 4) == be32(read_be32(s, at)),
{
    let b0 = s[at];
    let b1 = s[at + 1];
    let b2 = s[at + 2];
    let b3 = s[at + 3];
    let v = read_be32(s, at);
    assert(v == ((b0 as u32) << 24u32) | ((b1 as u32) << 16u32) | ((b2 as u32) << 8u32) | (b3 as u32));
    assert({
        let w = ((b0 as u32) << 24u32) | ((b1 as u32) << 16u32) | ((b2 as u32) << 8u32) | (b3 as u32);
        (w >> 24u32) as u8 == b0 && (w >> 16u32) as u8 == b1 && (w >> 8u32) as u8 == b2 && w as u8 == b3
    }) by (bit_vector);
    assert(s.subrange(at, at + 4) =~= be32(v));
}

/// The bytes at `at` are those of the `u64` read there.
pub proof fn lemma_read_be64(s: Seq<u8>, at: int)
    requires
        0 <= at,
        at + 8 <= s.len(),
    ensures
        s.subrange(at, at + 8) == be64(read_be64(s, at)),
{
    let b0 = s[at];
    let b1 = s[at + 1];
    let b2 = s[at + 2];
    let b3 = s[at + 3];
    let b4 = s[at + 4];
    let b5 = s[at + 5];
    let b6 = s[at + 6];
    let b7 = s[at + 7];
    let v = read_be64(s, at);
    assert(v == ((b0 as u64) << 56u64) | ((b1 as u64) << 48u64) | ((b2 as u64) << 40u64) | ((b3 as u64) << 32u64)
        | ((b4 as u64) << 24u64) | ((b5 as u64) << 16u64) | ((b6 as u64) << 8u64) | (b7 as u64));
    assert({
        let w = ((b0 as u64) << 56u64) | ((b1 as u64) << 48u64) | ((b2 as u64) << 40u64) | ((b3 as u64) << 32u64)
            | ((b4 as u64) << 24u64) | ((b5 as u64) << 16u64) | ((b6 as u64) << 8u64) | (b7 as u64);
        &&& (w >> 56u64) as u8 == b0
        &&& (w >> 48u64) as u8 == b1
        &&& (w >> 40u64) as u8 == b2
        &&& (w >> 32u64) as u8 == b3
        &&& (w >> 24u64) as u8 == b4
        &&& (w >> 16u64) as u8 == b5
        &&& (w >> 8u64) as u8 == b6
        &&& w as u8 == b7
    }) by (bit_vector);
    assert(s.subrange(at, at + 8) =~= be64(v));
}

/// The bytes of a zero `u32` are four zero bytes.
pub proof fn lemma_be32_zero()
    ensures
        be32(0) == seq![0u8, 0u8, 0u8, 0u8],
{
    assert((0u32 >> 24u32) as u8 == 0u8 && (0u32 >> 16u32) as u8 == 0u8 && (0u32 >> 8u32) as u8
        == 0u8 && 0u32 as u8 == 0u8) by (bit_vector);
    assert(be32(0) =~= seq![0u8, 0u8, 0u8, 0u8]);
}

/// Appends `count` zero bytes.
pub fn push_zeros(out: &mut Vec<u8>, count: usize)
    ensures
        final(out)@ == old(out)@ + Seq::new(count as nat, |j: int| 0u8),
{
    let mut g: usize = 0;
    while g < count
        invariant
            g <= count,
            out@ == old(out)@ + Seq::new(g as nat, |j: int| 0u8),
        decreases count - g,
    {
        out.push(0u8);
        g = g + 1;
        assert(out@ =~= old(out)@ + Seq::new(g as nat, |j: int| 0u8));
    }
}

/// Appends the big-endian bytes of `v`.
pub fn push_u16(out: &mut Vec<u8>, v: u16)
    ensures
        final(out)@ == old(out)@ + be16(v),
{
    out.push((v >> 8u16) as u8);
    out.push(v as u8);
    assert(final(out)@ =~= old(out)@ + be16(v));
}

/// Appends the big-endian bytes of `v`.
pub fn push_u32(out: &mut Vec<u8>, v: u32)
    ensures
        final(out)@ == old(out)@ + be32(v),
{
    out.push((v >> 24u32) as u8);
    out.push((v >> 16u32) as u8);
    out.push((v >> 8u32) as u8);
    out.push(v as u8);
    assert(final(out)@ =~= old(out)@ + be32(v));
}

/// Appends the big-endian bytes of `v`.
pub fn push_u64(out: &mut Vec<u8>, v: u64)
    ensures
        final(out)@ == old(out)@ + be64(v),
{
    out.push((v >> 56u64) as u8);
    out.push((v >> 48u64) as u8);
    out.push((v >> 40u64) as u8);
    out.push((v >> 32u64) as u8);
    out.push((v >> 24u64) as u8);
    out.push((v >> 16u64) as u8);
    out.push((v >> 8u64) as u8);
    out.push(v as u8);
    assert(final(out)@ =~= old(out)@ + be64(v));
}

/// Appends every byte of `bytes`.
pub fn push_all(out: &mut Vec<u8>, bytes: &[u8])
    ensures
        final(out)@ == old(out)@ + bytes@,
{
    let mut i: usize = 0;
    while i < bytes.len()
        invariant
            i <= bytes.len(),
            out@ == old(out)@ + bytes@.take(i as int),
        decreases bytes.len() - i,
    {
        out.push(bytes[i]);
        i = i + 1;
        assert(out@ =~= old(out)@ + bytes@.take(i as int));
    }
    assert(bytes@.take(i as int) =~= bytes@);
}

/// Copies `input[start..end]`.
pub fn copy_range(input: &[u8], start: usize, end: usize) -> (v: Vec<u8>)
    requires
        start <= end <= input@.len(),
    ensures
        v@ == input@.subrange(start as int, end as int),
{
    let mut v: Vec<u8> = Vec::new();
    let mut i: usize = start;
    while i < end
        invariant
            start <= i <= end,
            end <= input@.len(),
            v@ == input@.subrange(start as int, i as int),
        decreases end - i,
    {
        v.push(input[i]);
        i = i + 1;
        assert(v@ =~= input@.subrange(start as int, i as int));
    }
    v
}

/// Reads a big-endian `u16` at `at`.
pub fn get_u16(input: &[u8], at: usize) -> (r: u16)
    requires
        at + 2 <= input@.len(),
    ensures
        r == read_be16(input@, at as int),
{
    ((input[at] as u16) << 8u16) | (input[at + 1] as u16)
}

/// Reads a big-endian `u32` at `at`.
pub fn get_u32(input: &[u8], at: usize) -> (r: u32)
    requires
        at + 4 <= input@.len(),
    ensures
        r == read_be32(input@, at as int),
{
    ((input[at] as u32) << 24u32) | ((input[at + 1] as u32) << 16u32) | ((input[at + 2] as u32)
        << 8u32) | (input[at + 3] as u32)
}

/// Reads a big-endian `u64` at `at`.
pub fn get_u64(input: &[u8], at: usize) -> (r: u64)
    requires
        at + 8 <= input@.len(),
    ensures
        r == read_be64(input@, at as int),
{
    ((input[at] as u64) << 56u64) | ((input[at + 1] as u64) << 48u64) | ((input[at + 2] as u64)
        << 40u64) | ((input[at + 3] as u64) << 32u64) | ((input[at + 4] as u64) << 24u64) | ((
    input[at + 5] as u64) << 16u64) | ((input[at + 6] as u64) << 8u64) | (input[at + 7] as u64)
}

/// Overwrites two bytes at `at` with the big-endian bytes of `v`.
pub fn set_u16(buf: &mut Vec<u8>, at: usize, v: u16)
    requires
        at + 2 <= old(buf)@.len(),
    ensures
        final(buf)@.len() == old(buf)@.len(),
        final(buf)@ == old(buf)@.take(at as int) + be16(v) + old(buf)@.skip(at + 2),
{
    let _len = buf.len();
    let a1 = at + 1;
    buf.set(at, (v >> 8u16) as u8);
    buf.set(a1, v as u8);
    assert(final(buf)@ =~= old(buf)@.take(at as int) + be16(v) + old(buf)@.skip(at + 2));
}

/// Overwrites four bytes at `at` with the big-endian bytes of `v`.
pub fn set_u32(buf: &mut Vec<u8>, at: usize, v: u32)
    requires
        at + 4 <= old(buf)@.len(),
    ensures
        final(buf)@.len() == old(buf)@.len(),
        final(buf)@ == old(buf)@.take(at as int) + be32(v) + old(buf)@.skip(at + 4),
{
    let _len = buf.len();
    let a1 = at + 1;
    let a2 = at + 2;
    let a3 = at + 3;
    buf.set(at, (v >> 24u32) as u8);
    buf.set(a1, (v >> 16u32) as u8);
    buf.set(a2, (v >> 8u32) as u8);
    buf.set(a3, v as u8);
    assert(final(buf)@ =~= old(buf)@.take(at as int) + be32(v) + old(buf)@.skip(at + 4));
}

} // verus!
