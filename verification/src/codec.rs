use vstd::prelude::*;
use crate::constants::BLOCK_SIZE;

verus! {

/// The 32-bit value of the four bytes of `s` that start at `off`, least significant first.
pub open spec fn le_u32(s: Seq<u8>, off: int) -> u32 {
    (s[off] as int + s[off + 1] as int * 0x100 + s[off + 2] as int * 0x10000
        + s[off + 3] as int * 0x1000000) as u32
}

/// The 32-bit value of the four bytes of `s` that start at `off`, most significant first.
pub open spec fn be_u32(s: Seq<u8>, off: int) -> u32 {
    (s[off] as int * 0x1000000 + s[off + 1] as int * 0x10000 + s[off + 2] as int * 0x100
        + s[off + 3] as int) as u32
}

/// Byte `k` (0 is the least significant) of `x`.
pub open spec fn byte_of(x: u32, k: int) -> u8 {
    if k == 0 {
        (x % 0x100) as u8
    } else if k == 1 {
        ((x / 0x100) % 0x100) as u8
    } else if k == 2 {
        ((x / 0x10000) % 0x100) as u8
    } else {
        (x / 0x1000000) as u8
    }
}

/// `s` with `x` stored little-endian in the four bytes that start at `off`.
pub open spec fn put_u32(s: Seq<u8>, off: int, x: u32) -> Seq<u8> {
    s.update(off, byte_of(x, 0)).update(off + 1, byte_of(x, 1)).update(off + 2, byte_of(x, 2)).update(
        off + 3,
        byte_of(x, 3),
    )
}

/// A block of all-zero bytes.
pub open spec fn zero_block() -> Seq<u8> {
    Seq::new(BLOCK_SIZE as nat, |i: int| 0u8)
}

pub proof fn lemma_u32_bytes(x: u32)
    ensures
        x % 0x100 < 0x100,
        (x / 0x100) % 0x100 < 0x100,
        (x / 0x10000) % 0x100 < 0x100,
        x / 0x1000000 < 0x100,
        x == x % 0x100 + ((x / 0x100) % 0x100) * 0x100 + ((x / 0x10000) % 0x100) * 0x10000 + (x
            / 0x1000000) * 0x1000000,
{
    assert(x % 0x100 < 0x100) by (bit_vector);
    assert((x / 0x100) % 0x100 < 0x100) by (bit_vector);
    assert((x / 0x10000) % 0x100 < 0x100) by (bit_vector);
    assert(x / 0x1000000 < 0x100) by (bit_vector);
    assert(x == x % 0x100 + ((x / 0x100) % 0x100) * 0x100 + ((x / 0x10000) % 0x100) * 0x10000 + (x
        / 0x1000000) * 0x1000000) by (bit_vector);
}

/// Storing a value and reading it back at the same place gives the value.
pub proof fn lemma_put_get(s: Seq<u8>, off: int, x: u32)
    requires
        0 <= off,
        off + 4 <= s.len(),
    ensures
        le_u32(put_u32(s, off, x), off) == x,
        put_u32(s, off, x).len() == s.len(),
{
    lemma_u32_bytes(x);
}

/// Storing a value leaves the words that do not overlap it as they were.
pub proof fn lemma_put_get_other(s: Seq<u8>, off: int, x: u32, o2: int)
    requires
        0 <= off,
        off + 4 <= s.len(),
        0 <= o2,
        o2 + 4 <= s.len(),
        o2 + 4 <= off || off + 4 <= o2,
    ensures
        le_u32(put_u32(s, off, x), o2) == le_u32(s, o2),
{
    let t = put_u32(s, off, x);
    assert(t[o2] == s[o2]);
    assert(t[o2 + 1] == s[o2 + 1]);
    assert(t[o2 + 2] == s[o2 + 2]);
    assert(t[o2 + 3] == s[o2 + 3]);
}

/// Reads the little-endian word at `off` of a block buffer.
pub fn read_u32_le(d: &[u8; BLOCK_SIZE], off: usize) -> (r: u32)
    requires
        off + 4 <= BLOCK_SIZE,
    ensures
        r == le_u32(d@, off as int),
{
    let b0 = d[off] as u32;
    let b1 = d[off + 1] as u32;
    let b2 = d[off + 2] as u32;
    let b3 = d[off + 3] as u32;
    b0 + b1 * 0x100 + b2 * 0x10000 + b3 * 0x1000000
}

/// Stores `x` little-endian at `off` of a block buffer.
pub fn write_u32_le(d: &mut [u8; BLOCK_SIZE], off: usize, x: u32)
    requires
        off + 4 <= BLOCK_SIZE,
    ensures
        final(d)@ == put_u32(old(d)@, off as int, x),
{
    proof {
        lemma_u32_bytes(x);
    }
    d[off] = (x % 0x100) as u8;
    d[off + 1] = ((x / 0x100) % 0x100) as u8;
    d[off + 2] = ((x / 0x10000) % 0x100) as u8;
    d[off + 3] = (x / 0x1000000) as u8;
    assert(d@ =~= put_u32(old(d)@, off as int, x));
}

} // verus!
