//! Little-endian integers in byte buffers.

use byteorder::{ByteOrder, LittleEndian, WriteBytesExt};
use vstd::prelude::*;
use vstd::slice::slice_subrange;

verus! {

/// The unsigned 16-bit value stored little-endian at `off`.
pub open spec fn u16_le(s: Seq<u8>, off: int) -> int {
    s[off] as int + 256 * (s[off + 1] as int)
}

/// The unsigned 32-bit value stored little-endian at `off`.
pub open spec fn u32_le(s: Seq<u8>, off: int) -> int {
    s[off] as int + 256 * (s[off + 1] as int) + 65536 * (s[off + 2] as int) + 16777216 * (s[off
        + 3] as int)
}

/// The two bytes that store `n` little-endian.
pub open spec fn u16_le_bytes(n: u16) -> Seq<u8> {
    seq![(n % 256) as u8, (n / 256) as u8]
}

/// The four bytes that store `n` little-endian.
pub open spec fn u32_le_bytes(n: u32) -> Seq<u8> {
    seq![(n % 256) as u8, (n / 256 % 256) as u8, (n / 65536 % 256) as u8, (n / 16777216) as u8]
}

/// `byteorder::LittleEndian::read_u16`: the first two bytes of the slice, read as a
/// little-endian integer. The function panics on a shorter slice.
#[verifier::external_body]
fn le_read_u16(bytes: &[u8]) -> (r: u16)
    requires
        bytes@.len() >= 2,
    ensures
        r as int == u16_le(bytes@, 0),
{
    LittleEndian::read_u16(bytes)
}

/// `byteorder::LittleEndian::read_u32`: the first four bytes of the slice, read as a
/// little-endian integer. The function panics on a shorter slice.
#[verifier::external_body]
fn le_read_u32(bytes: &[u8]) -> (r: u32)
    requires
        bytes@.len() >= 4,
    ensures
        r as int == u32_le(bytes@, 0),
{
    LittleEndian::read_u32(bytes)
}

/// `byteorder::WriteBytesExt::write_u16` on a `Vec<u8>` with `LittleEndian`: the two
/// bytes of `n`, low byte first, are appended. Writing to a `Vec` does not fail.
#[verifier::external_body]
pub(crate) fn push_u16_le(out: &mut Vec<u8>, n: u16)
    ensures
        final(out)@ == old(out)@ + u16_le_bytes(n),
{
    let _ = out.write_u16::<LittleEndian>(n);
}

/// `byteorder::WriteBytesExt::write_u32` on a `Vec<u8>` with `LittleEndian`: the four
/// bytes of `n`, low byte first, are appended. Writing to a `Vec` does not fail.
#[verifier::external_body]
pub(crate) fn push_u32_le(out: &mut Vec<u8>, n: u32)
    ensures
        final(out)@ == old(out)@ + u32_le_bytes(n),
{
    let _ = out.write_u32::<LittleEndian>(n);
}

/// Reads the little-endian `u16` at `off`.
pub fn get_u16_le(buf: &[u8], off: usize) -> (r: u16)
    requires
        off + 2 <= buf.len(),
    ensures
        r as int == u16_le(buf@, off as int),
{
    let part = slice_subrange(buf, off, off + 2);
    le_read_u16(part)
}

/// Reads the little-endian `u32` at `off`.
pub fn get_u32_le(buf: &[u8], off: usize) -> (r: u32)
    requires
        off + 4 <= buf.len(),
    ensures
        r as int == u32_le(buf@, off as int),
{
    let part = slice_subrange(buf, off, off + 4);
    le_read_u32(part)
}

/// The little-endian `u32` at `off`, or 0 where the buffer does not hold four bytes
/// there.
pub open spec fn u32_le_or_zero(s: Seq<u8>, off: int) -> int {
    if off + 4 <= s.len() {
        u32_le(s, off)
    } else {
        0
    }
}

/// Reads the little-endian `u32` at `off`, or 0 where the buffer ends before it.
pub fn get_u32_le_or_zero(buf: &[u8], off: usize) -> (r: u32)
    ensures
        r as int == u32_le_or_zero(buf@, off as int),
{
    if buf.len() >= 4 && off <= buf.len() - 4 {
        get_u32_le(buf, off)
    } else {
        0
    }
}

/// Reading back what was written gives the value.
pub proof fn lemma_u16_le_of_bytes(n: u16)
    ensures
        u16_le_bytes(n).len() == 2,
        u16_le(u16_le_bytes(n), 0) == n,
{
}

/// Reading back what was written gives the value.
pub proof fn lemma_u32_le_of_bytes(n: u32)
    ensures
        u32_le_bytes(n).len() == 4,
        u32_le(u32_le_bytes(n), 0) == n,
{
}

/// A value read at `off` depends only on the four bytes there.
pub proof fn lemma_u32_le_at(s: Seq<u8>, off: int, n: u32)
    requires
        0 <= off,
        off + 4 <= s.len(),
        s.subrange(off, off + 4) == u32_le_bytes(n),
    ensures
        u32_le(s, off) == n,
{
    let t = s.subrange(off, off + 4);
    assert(t[0] == s[off] && t[1] == s[off + 1] && t[2] == s[off + 2] && t[3] == s[off + 3]);
    lemma_u32_le_of_bytes(n);
}

/// A value read at `off` depends only on the two bytes there.
pub proof fn lemma_u16_le_at(s: Seq<u8>, off: int, n: u16)
    requires
        0 <= off,
        off + 2 <= s.len(),
        s.subrange(off, off + 2) == u16_le_bytes(n),
    ensures
        u16_le(s, off) == n,
{
    let t = s.subrange(off, off + 2);
    assert(t[0] == s[off] && t[1] == s[off + 1]);
    lemma_u16_le_of_bytes(n);
}

} // verus!
