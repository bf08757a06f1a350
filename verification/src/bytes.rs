//! Readers for the little-endian header integers and the big-endian
//! decoder register of the table format.

use vstd::prelude::*;

verus! {

/// The 16-bit little-endian integer at offset `i`.
pub open spec fn spec_u16_le(s: Seq<u8>, i: int) -> int {
    s[i] + 0x100 * s[i + 1]
}

/// The 32-bit little-endian integer at offset `i`.
pub open spec fn spec_u32_le(s: Seq<u8>, i: int) -> int {
    s[i] + 0x100 * s[i + 1] + 0x1_0000 * s[i + 2] + 0x100_0000 * s[i + 3]
}

/// The 64-bit big-endian integer at offset `i`.
pub open spec fn spec_u64_be(s: Seq<u8>, i: int) -> int {
    0x100_0000_0000_0000 * s[i] + 0x1_0000_0000_0000 * s[i + 1] + 0x100_0000_0000 * s[i + 2]
        + 0x1_0000_0000 * s[i + 3] + 0x100_0000 * s[i + 4] + 0x1_0000 * s[i + 5] + 0x100 * s[i + 6]
        + s[i + 7]
}

/// The 32-bit big-endian integer at offset `i`.
pub open spec fn spec_u32_be(s: Seq<u8>, i: int) -> int {
    0x100_0000 * s[i] + 0x1_0000 * s[i + 1] + 0x100 * s[i + 2] + s[i + 3]
}

/// Read one byte.
pub fn read_u8(b: &Vec<u8>, i: usize) -> (r: u8)
    requires
        i < b@.len(),
    ensures
        r == b@[i as int],
{
    let _n = b.len();
    b[i]
}

/// Read a 16-bit little-endian integer.
pub fn read_u16_le(b: &Vec<u8>, i: usize) -> (r: u16)
    requires
        i + 2 <= b@.len(),
    ensures
        r == spec_u16_le(b@, i as int),
{
    let _n = b.len();
    b[i] as u16 + 0x100 * (b[i + 1] as u16)
}

/// Read a 32-bit little-endian integer.
pub fn read_u32_le(b: &Vec<u8>, i: usize) -> (r: u32)
    requires
        i + 4 <= b@.len(),
    ensures
        r == spec_u32_le(b@, i as int),
{
    let _n = b.len();
    b[i] as u32 + 0x100 * (b[i + 1] as u32) + 0x1_0000 * (b[i + 2] as u32) + 0x100_0000 * (b[i
        + 3] as u32)
}

/// Read a 64-bit big-endian integer.
pub fn read_u64_be(b: &Vec<u8>, i: usize) -> (r: u64)
    requires
        i + 8 <= b@.len(),
    ensures
        r == spec_u64_be(b@, i as int),
{
    let _n = b.len();
    0x100_0000_0000_0000 * (b[i] as u64) + 0x1_0000_0000_0000 * (b[i + 1] as u64)
        + 0x100_0000_0000 * (b[i + 2] as u64) + 0x1_0000_0000 * (b[i + 3] as u64) + 0x100_0000 * (b[
        i + 4] as u64) + 0x1_0000 * (b[i + 5] as u64) + 0x100 * (b[i + 6] as u64) + (b[i
        + 7] as u64)
}

/// Read a 32-bit big-endian integer.
pub fn read_u32_be(b: &Vec<u8>, i: usize) -> (r: u32)
    requires
        i + 4 <= b@.len(),
    ensures
        r == spec_u32_be(b@, i as int),
{
    let _n = b.len();
    0x100_0000 * (b[i] as u32) + 0x1_0000 * (b[i + 1] as u32) + 0x100 * (b[i + 2] as u32) + (b[i
        + 3] as u32)
}

} // verus!
