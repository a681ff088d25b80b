//! Big-endian integers as they stand on the wire.
use vstd::prelude::*;

verus! {

/// The value of two bytes read as a big-endian unsigned integer.
pub open spec fn be_u16(hi: u8, lo: u8) -> u16 {
    (hi as int * 256 + lo as int) as u16
}

/// The value of four bytes read as a big-endian unsigned integer.
pub open spec fn be_u32(b0: u8, b1: u8, b2: u8, b3: u8) -> u32 {
    (b0 as int * 0x100_0000 + b1 as int * 0x1_0000 + b2 as int * 0x100 + b3 as int) as u32
}

/// The value of four bytes read as a big-endian two's-complement integer.
pub open spec fn be_i32(b0: u8, b1: u8, b2: u8, b3: u8) -> i32 {
    be_u32(b0, b1, b2, b3) as i32
}

/// The two big-endian bytes of `v`.
pub open spec fn u16_bytes(v: u16) -> Seq<u8> {
    seq![(v / 256) as u8, (v % 256) as u8]
}

/// The four big-endian bytes of `v`.
pub open spec fn u32_bytes(v: u32) -> Seq<u8> {
    seq![
        (v / 0x100_0000) as u8,
        (v / 0x1_0000 % 256) as u8,
        (v / 0x100 % 256) as u8,
        (v % 256) as u8,
    ]
}

/// The four big-endian bytes of `v` in two's complement.
pub open spec fn i32_bytes(v: i32) -> Seq<u8> {
    u32_bytes(v as u32)
}

/// Two big-endian bytes read back give the value they were written from.
pub proof fn lemma_u16_round_trip(v: u16)
    ensures
        be_u16(u16_bytes(v)[0], u16_bytes(v)[1]) == v,
{
}

/// Four big-endian bytes read back give the value they were written from.
pub proof fn lemma_i32_round_trip(v: i32)
    ensures
        be_i32(i32_bytes(v)[0], i32_bytes(v)[1], i32_bytes(v)[2], i32_bytes(v)[3]) == v,
{
    let u = v as u32;
    assert(u as i32 == v) by (bit_vector)
        requires
            u == v as u32,
    ;
    assert(u / 0x100_0000 * 0x100_0000 + (u / 0x1_0000 % 256) * 0x1_0000 + (u / 0x100 % 256)
        * 0x100 + u % 256 == u) by (nonlinear_arith);
}

/// The big-endian bytes of `v`.
pub fn u16_to_bytes(v: u16) -> (r: [u8; 2])
    ensures
        r@ == u16_bytes(v),
{
    let r = [(v / 256) as u8, (v % 256) as u8];
    assert(r@ =~= u16_bytes(v));
    r
}

/// The big-endian two's-complement bytes of `v`.
pub fn i32_to_bytes(v: i32) -> (r: [u8; 4])
    ensures
        r@ == i32_bytes(v),
{
    let u = v as u32;
    let r = [(u / 0x100_0000) as u8, (u / 0x1_0000 % 256) as u8, (u / 0x100 % 256) as u8, (u
        % 256) as u8];
    assert(r@ =~= i32_bytes(v));
    r
}

} // verus!

verus! {

/// Appends `bytes` to `out`.
pub fn extend_bytes(out: &mut Vec<u8>, bytes: &[u8])
    ensures
        final(out)@ == old(out)@ + bytes@,
{
    let mut i: usize = 0;
    while i < bytes.len()
        invariant
            0 <= i <= bytes@.len(),
            out@ == old(out)@ + bytes@.subrange(0, i as int),
        decreases bytes@.len() - i,
    {
        out.push(bytes[i]);
        i = i + 1;
        assert(out@ =~= old(out)@ + bytes@.subrange(0, i as int));
    }
    assert(bytes@.subrange(0, bytes@.len() as int) =~= bytes@);
}

} // verus!
