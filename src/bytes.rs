//! Big-endian integers read from a byte buffer at a given offset.
use vstd::prelude::*;

verus! {

/// The unsigned integer held by the two bytes at `p`, most significant first.
pub open spec fn be_u16(b: Seq<u8>, p: int) -> int {
    b[p] as int * 256 + b[p + 1] as int
}

/// The unsigned integer held by the four bytes at `p`, most significant first.
pub open spec fn be_u32(b: Seq<u8>, p: int) -> int {
    be_u16(b, p) * 0x1_0000 + be_u16(b, p + 2)
}

/// The unsigned integer held by the eight bytes at `p`, most significant first.
pub open spec fn be_u64(b: Seq<u8>, p: int) -> int {
    be_u32(b, p) * 0x1_0000_0000 + be_u32(b, p + 4)
}

/// The two bytes at `p` read as a two's complement signed integer.
pub open spec fn be_i16(b: Seq<u8>, p: int) -> int {
    let u = be_u16(b, p);
    if u >= 0x8000 {
        u - 0x1_0000
    } else {
        u
    }
}

/// Reads the big-endian `u16` that starts at offset `p`.
pub fn as_u16_be(b: &[u8], p: usize) -> (r: u16)
    requires
        p + 2 <= b.len(),
    ensures
        r == be_u16(b@, p as int),
{
    (b[p] as u16) * 256 + (b[p + 1] as u16)
}

/// Reads the big-endian `u32` that starts at offset `p`.
pub fn as_u32_be(b: &[u8], p: usize) -> (r: u32)
    requires
        p + 4 <= b.len(),
    ensures
        r == be_u32(b@, p as int),
{
    let hi = as_u16_be(b, p);
    let lo = as_u16_be(b, p + 2);
    (hi as u32) * 0x1_0000 + (lo as u32)
}

/// Reads the big-endian `u64` that starts at offset `p`.
pub fn as_u64_be(b: &[u8], p: usize) -> (r: u64)
    requires
        p + 8 <= b.len(),
    ensures
        r == be_u64(b@, p as int),
{
    let hi = as_u32_be(b, p);
    let lo = as_u32_be(b, p + 4);
    (hi as u64) * 0x1_0000_0000 + (lo as u64)
}

/// Reads the big-endian two's complement `i16` that starts at offset `p`.
pub fn as_i16_be(b: &[u8], p: usize) -> (r: i16)
    requires
        p + 2 <= b.len(),
    ensures
        r == be_i16(b@, p as int),
{
    let u = as_u16_be(b, p);
    if u >= 0x8000 {
        ((u as i32) - 0x1_0000) as i16
    } else {
        u as i16
    }
}

} // verus!
