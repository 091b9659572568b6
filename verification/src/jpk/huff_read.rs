//! Reading bytes out of a Huffman-coded payload.

use super::huff_spec::{
    huff_all, huff_bits_left, huff_data_base, huff_header_ok, huff_stream, huff_stream_bit,
    huff_symbol,
};

use super::source::ByteSource;
use super::JpkError;
use crate::endian::get_u16_le;
use vstd::prelude::*;

verus! {

/// The state of the table walk over one payload.
#[derive(Clone, Copy, Debug)]
pub struct HuffmanState {
    /// The byte of the bit stream that is being used up.
    pub flag: u8,
    /// The number of bits of `flag` that are still unread; negative before the first
    /// read.
    pub flag_shift: i8,
    /// The table length that the payload declares: the node at which each walk starts.
    pub table_length: u16,
    /// Where the table begins in the payload.
    pub table_offset: usize,
    /// Where the next byte of the bit stream is.
    pub data_offset: usize,
}

/// The state before anything has been read.
pub fn initialize_huffman_state(table_length: u16, table_offset: usize, data_offset: usize) -> (r:
    HuffmanState)
    ensures
        r.flag == 0,
        r.flag_shift == -1,
        r.table_length == table_length,
        r.table_offset == table_offset,
        r.data_offset == data_offset,
{
    HuffmanState { flag: 0, flag_shift: -1, table_length, table_offset, data_offset }
}

/// The number of bits of the stream that have been read in state `hf`.
pub open spec fn hf_bits_read(hf: HuffmanState) -> int {
    8 * (hf.data_offset - huff_data_base(hf.table_length as int)) - (if hf.flag_shift > 0 {
        hf.flag_shift as int
    } else {
        0
    })
}

/// `hf` is a state of the walk over `buf`.
pub open spec fn hf_wf(buf: Seq<u8>, hf: HuffmanState) -> bool {
    &&& hf.table_offset == 2
    &&& hf.table_length >= 0x100
    &&& hf.data_offset >= huff_data_base(hf.table_length as int)
    &&& -1 <= hf.flag_shift <= 7
    &&& hf.flag_shift > 0 ==> hf.data_offset > huff_data_base(hf.table_length as int)
        && hf.data_offset <= buf.len() && hf.flag == buf[hf.data_offset - 1]
}

/// Reads one byte: walks the table from the root, one bit of the stream per step,
/// until a cell holds a byte. Fails where the stream or the table ends first.
pub fn read_huff_byte(buf: &[u8], hf: &mut HuffmanState) -> (r: Result<u8, JpkError>)
    requires
        hf_wf(buf@, *old(hf)),
    ensures
        hf_wf(buf@, *final(hf)),
        final(hf).table_length == old(hf).table_length,
        match huff_symbol(
            buf@,
            huff_data_base(old(hf).table_length as int),
            hf_bits_read(*old(hf)),
            old(hf).table_length as int,
        ) {
            None => r == Err::<u8, JpkError>(JpkError::TruncatedPayload),
            Some((v, q)) => r == Ok::<u8, JpkError>(v) && hf_bits_read(*final(hf)) == q,
        },
{
    let ghost base: int = huff_data_base(hf.table_length as int);
    let ghost start: int = hf_bits_read(*hf);
    let mut data: u16 = hf.table_length;
    while data >= 0x100
        invariant
            hf_wf(buf@, *hf),
            hf.table_length == old(hf).table_length,
            base == huff_data_base(hf.table_length as int),
            start == hf_bits_read(*old(hf)),
            0 <= hf_bits_read(*hf),
            huff_symbol(buf@, base, start, old(hf).table_length as int) == huff_symbol(
                buf@,
                base,
                hf_bits_read(*hf),
                data as int,
            ),
        decreases huff_bits_left(buf@, base, hf_bits_read(*hf)),
    {
        let ghost p: int = hf_bits_read(*hf);
        let next: i8 = hf.flag_shift - 1;
        if next < 0 {
            if hf.data_offset >= buf.len() {
                return Err(JpkError::TruncatedPayload);
            }
            hf.flag = buf[hf.data_offset];
            hf.data_offset = hf.data_offset + 1;
            hf.flag_shift = 7;
        } else {
            hf.flag_shift = next;
        }
        let k: u8 = hf.flag_shift as u8;
        let bit: u8 = (hf.flag >> k) & 1;
        proof {
            let f: u8 = hf.flag;
            assert(((f >> k) & 1) <= 1) by (bit_vector);
            assert(huff_stream_bit(buf@, base, p) == Some(bit));
        }
        let idx: usize = data as usize * 2 - 0x200 + bit as usize;
        let offset: usize = idx * 2 + 2;
        if buf.len() < 2 || offset > buf.len() - 2 {
            return Err(JpkError::TruncatedPayload);
        }
        data = get_u16_le(buf, offset);
    }
    Ok(data as u8)
}

/// A Huffman-coded payload, read byte by byte.
pub struct HuffmanReader<'a> {
    buf: &'a [u8],
    hf: HuffmanState,
}

impl<'a> HuffmanReader<'a> {
    /// The payload that is read.
    pub closed spec fn buffer(&self) -> Seq<u8> {
        self.buf@
    }

    /// Starts reading `buf`. Fails where `buf` has no table length or the length is
    /// below 256, from which no walk can start.
    pub fn new(buf: &'a [u8]) -> (r: Result<Self, JpkError>)
        ensures
            match r {
                Ok(reader) => huff_header_ok(buf@) && reader.wf() && reader.buffer() == buf@
                    && reader.remaining() == huff_stream(buf@),
                Err(e) => !huff_header_ok(buf@) && e == JpkError::MalformedHeader,
            },
    {
        if buf.len() < 2 {
            return Err(JpkError::MalformedHeader);
        }
        let table_length: u16 = get_u16_le(buf, 0);
        if table_length < 0x100 {
            return Err(JpkError::MalformedHeader);
        }
        let table_offset: usize = 2;
        let data_offset: usize = table_offset + table_length as usize * 4 - 0x3fc;
        let hf = initialize_huffman_state(table_length, table_offset, data_offset);
        Ok(HuffmanReader { buf, hf })
    }
}

impl<'a> ByteSource for HuffmanReader<'a> {
    closed spec fn wf(&self) -> bool {
        hf_wf(self.buf@, self.hf)
    }

    closed spec fn remaining(&self) -> Seq<u8> {
        huff_all(
            self.buf@,
            huff_data_base(self.hf.table_length as int),
            self.hf.table_length as int,
            hf_bits_read(self.hf),
        )
    }

    fn next_byte(&mut self) -> (r: Option<u8>) {
        let ghost before = self.remaining();
        match read_huff_byte(self.buf, &mut self.hf) {
            Err(_) => None,
            Ok(v) => {
                proof {
                    assert(before.skip(1) =~= self.remaining());
                }
                Some(v)
            },
        }
    }
}

} // verus!
