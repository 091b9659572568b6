//! What a Huffman-coded payload means: the table walk as a mathematical function.

use super::lz_spec::{bit_at, lz_decode};
use super::JpkError;
use crate::endian::u16_le;
use vstd::prelude::*;

verus! {

/// The table length that the payload declares.
pub open spec fn huff_table_length(buf: Seq<u8>) -> int {
    u16_le(buf, 0)
}

/// Where the bit stream begins, for a declared table length.
pub open spec fn huff_data_base(table_length: int) -> int {
    2 + 4 * table_length - 0x3fc
}

/// The payload has a table length, and the walk can start from it.
pub open spec fn huff_header_ok(buf: Seq<u8>) -> bool {
    buf.len() >= 2 && huff_table_length(buf) >= 0x100
}

/// Cell `idx` of the table, where the buffer holds it.
pub open spec fn huff_entry(buf: Seq<u8>, idx: int) -> Option<int> {
    if 0 <= idx && 2 + 2 * idx + 2 <= buf.len() {
        Some(u16_le(buf, 2 + 2 * idx))
    } else {
        None
    }
}

/// Bit `p` of the bit stream that begins at byte `base`, each byte from its highest
/// bit down.
pub open spec fn huff_stream_bit(buf: Seq<u8>, base: int, p: int) -> Option<u8> {
    if 0 <= p && 0 <= base && base + p / 8 < buf.len() {
        Some(bit_at(buf[base + p / 8], (7 - p % 8) as u8))
    } else {
        None
    }
}

/// The number of bits of the stream that are left at bit `p`.
pub open spec fn huff_bits_left(buf: Seq<u8>, base: int, p: int) -> int {
    if 8 * (buf.len() - base) > p {
        8 * (buf.len() - base) - p
    } else {
        0
    }
}

/// The walk from the node `data` at bit `p`: each bit picks one of the node's two
/// cells, until a cell holds a byte. Gives the byte and the bit after it.
pub open spec fn huff_symbol(buf: Seq<u8>, base: int, p: int, data: int) -> Option<(u8, int)>
    decreases huff_bits_left(buf, base, p),
{
    if data < 0x100 {
        Some((data as u8, p))
    } else {
        match huff_stream_bit(buf, base, p) {
            None => None,
            Some(b) => match huff_entry(buf, 2 * data - 0x200 + b as int) {
                None => None,
                Some(d) => huff_symbol(buf, base, p + 1, d),
            },
        }
    }
}

/// A walk does not go back in the stream, and from an inner node it uses a bit.
pub proof fn lemma_huff_symbol_advances(buf: Seq<u8>, base: int, p: int, data: int)
    requires
        0 <= p,
    ensures
        huff_symbol(buf, base, p, data) matches Some((_, q)) ==> p <= q && q <= p
            + huff_bits_left(buf, base, p) && (data >= 0x100 ==> p < q),
    decreases huff_bits_left(buf, base, p),
{
    if data >= 0x100 {
        match huff_stream_bit(buf, base, p) {
            None => {},
            Some(b) => match huff_entry(buf, 2 * data - 0x200 + b as int) {
                None => {},
                Some(d) => {
                    lemma_huff_symbol_advances(buf, base, p + 1, d);
                },
            },
        }
    }
}

/// All the bytes that can be read from bit `p` on, one walk from the root after
/// another, until a walk fails.
pub open spec fn huff_all(buf: Seq<u8>, base: int, root: int, p: int) -> Seq<u8>
    decreases huff_bits_left(buf, base, p),
{
    if root < 0x100 || p < 0 {
        Seq::empty()
    } else {
        proof {
            lemma_huff_symbol_advances(buf, base, p, root);
        }
        match huff_symbol(buf, base, p, root) {
            None => Seq::empty(),
            Some((v, q)) => seq![v] + huff_all(buf, base, root, q),
        }
    }
}

/// The byte stream that a Huffman-coded payload holds.
pub open spec fn huff_stream(buf: Seq<u8>) -> Seq<u8> {
    huff_all(buf, huff_data_base(huff_table_length(buf)), huff_table_length(buf), 0)
}

/// What a Huffman-only payload decodes to: its whole byte stream.
pub open spec fn huff_decode(buf: Seq<u8>) -> Result<Seq<u8>, JpkError> {
    if huff_header_ok(buf) {
        Ok(huff_stream(buf))
    } else {
        Err(JpkError::MalformedHeader)
    }
}

/// What a Huffman-only payload decodes to when exactly `size` bytes are asked for.
pub open spec fn huff_decode_sized(buf: Seq<u8>, size: nat) -> Result<Seq<u8>, JpkError> {
    if !huff_header_ok(buf) {
        Err(JpkError::MalformedHeader)
    } else if huff_stream(buf).len() < size {
        Err(JpkError::TruncatedPayload)
    } else {
        Ok(huff_stream(buf).take(size as int))
    }
}

/// What a Huffman-and-LZ payload decodes to: its byte stream, read as an LZ stream.
pub open spec fn huff_lz_decode(buf: Seq<u8>, size: nat) -> Result<Seq<u8>, JpkError> {
    if huff_header_ok(buf) {
        lz_decode(huff_stream(buf), size)
    } else {
        Err(JpkError::MalformedHeader)
    }
}

} // verus!
