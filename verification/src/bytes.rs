//! Little-endian integers inside a page buffer.

use vstd::prelude::*;

use crate::page::PAGE_SIZE;

verus! {

/// The 16-bit little-endian integer at offset `at` of `s`.
pub open spec fn le16(s: Seq<u8>, at: int) -> int {
    s[at] + 256 * s[at + 1]
}

/// The 32-bit little-endian integer at offset `at` of `s`.
pub open spec fn le32(s: Seq<u8>, at: int) -> int {
    s[at] + 256 * (s[at + 1] + 256 * (s[at + 2] + 256 * s[at + 3]))
}

/// The 64-bit little-endian integer at offset `at` of `s`.
pub open spec fn le64(s: Seq<u8>, at: int) -> int {
    le32(s, at) + 0x1_0000_0000 * le32(s, at + 4)
}

/// `new` agrees with `old` everywhere outside `lo..hi`.
pub open spec fn same_outside(old: Seq<u8>, new: Seq<u8>, lo: int, hi: int) -> bool {
    &&& old.len() == new.len()
    &&& forall|j: int| 0 <= j < old.len() && !(lo <= j < hi) ==> #[trigger] new[j] == old[j]
}

/// Read the `u16` stored at `at`.
pub fn read_u16(buf: &[u8; PAGE_SIZE], at: usize) -> (v: u16)
    requires
        at + 2 <= PAGE_SIZE,
    ensures
        v == le16(buf@, at as int),
{
    buf[at] as u16 + 256 * (buf[at + 1] as u16)
}

/// Read the `u32` stored at `at`.
pub fn read_u32(buf: &[u8; PAGE_SIZE], at: usize) -> (v: u32)
    requires
        at + 4 <= PAGE_SIZE,
    ensures
        v == le32(buf@, at as int),
{
    buf[at] as u32 + 256 * (buf[at + 1] as u32 + 256 * (buf[at + 2] as u32 + 256 * (buf[at + 3] as u32)))
}

/// Read the `u64` stored at `at`.
pub fn read_u64(buf: &[u8; PAGE_SIZE], at: usize) -> (v: u64)
    requires
        at + 8 <= PAGE_SIZE,
    ensures
        v == le64(buf@, at as int),
{
    let lo: u32 = read_u32(buf, at);
    let hi: u32 = read_u32(buf, at + 4);
    lo as u64 + 0x1_0000_0000 * (hi as u64)
}

/// Store `v` at `at`.
pub fn write_u16(buf: &mut [u8; PAGE_SIZE], at: usize, v: u16)
    requires
        at + 2 <= PAGE_SIZE,
    ensures
        le16(final(buf)@, at as int) == v,
        same_outside(old(buf)@, final(buf)@, at as int, at + 2),
{
    buf[at] = (v % 256) as u8;
    buf[at + 1] = (v / 256) as u8;
}

/// Store `v` at `at`.
pub fn write_u32(buf: &mut [u8; PAGE_SIZE], at: usize, v: u32)
    requires
        at + 4 <= PAGE_SIZE,
    ensures
        le32(final(buf)@, at as int) == v,
        same_outside(old(buf)@, final(buf)@, at as int, at + 4),
{
    let v1: u32 = v / 256;
    let v2: u32 = v1 / 256;
    let v3: u32 = v2 / 256;
    buf[at] = (v % 256) as u8;
    buf[at + 1] = (v1 % 256) as u8;
    buf[at + 2] = (v2 % 256) as u8;
    buf[at + 3] = v3 as u8;
}

/// Store `v` at `at`.
pub fn write_u64(buf: &mut [u8; PAGE_SIZE], at: usize, v: u64)
    requires
        at + 8 <= PAGE_SIZE,
    ensures
        le64(final(buf)@, at as int) == v,
        same_outside(old(buf)@, final(buf)@, at as int, at + 8),
{
    let lo: u32 = (v % 0x1_0000_0000) as u32;
    let hi: u32 = (v / 0x1_0000_0000) as u32;
    write_u32(buf, at, lo);
    write_u32(buf, at + 4, hi);
}

} // verus!
