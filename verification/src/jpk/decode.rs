//! Decoders for the JPK payload codings.

use super::lz_spec::{
    lemma_lz_token_grows, lz_bit, lz_bits, lz_copy, lz_decode, lz_run, lz_token, BitState,
};
use super::huff_read::HuffmanReader;
use super::huff_spec::{
    huff_decode, huff_decode_sized, huff_header_ok, huff_lz_decode, huff_stream,
};
use super::source::{ByteCursor, ByteSource};
use super::JpkError;
use vstd::prelude::*;

verus! {

/// A state read from position `pos` of `inp` is the state read from the start of
/// what is left, moved by `pos`.
pub proof fn lemma_lz_bit_skip(inp: Seq<u8>, pos: int, flag: u8, shift: int)
    requires
        0 <= pos <= inp.len(),
    ensures
        lz_bit(inp, (pos, flag, shift)) == match lz_bit(inp.skip(pos), (0, flag, shift)) {
            None => None,
            Some((b, st)) => Some((b, (pos + st.0, st.1, st.2))),
        },
{
}

/// Takes one control bit from the flag byte, fetching a new flag byte from `src`
/// when the bits of the current one are used up.
pub fn consume_bit<S: ByteSource>(src: &mut S, shift_idx: &mut i8, flag: &mut u8) -> (r: Result<
    u8,
    JpkError,
>)
    requires
        old(src).wf(),
        i8::MIN < *old(shift_idx) <= 8,
    ensures
        final(src).wf(),
        match lz_bit(old(src).remaining(), (0, *old(flag), *old(shift_idx) as int)) {
            None => r == Err::<u8, JpkError>(JpkError::TruncatedPayload)
                && *final(flag) == *old(flag) && *final(shift_idx) == *old(shift_idx),
            Some((b, st)) => r == Ok::<u8, JpkError>(b)
                && final(src).remaining() == old(src).remaining().skip(st.0)
                && *final(flag) == st.1 && *final(shift_idx) as int == st.2,
        },
{
    let next: i8 = *shift_idx - 1;
    if next < 0 {
        match src.next_byte() {
            None => {
                return Err(JpkError::TruncatedPayload);
            },
            Some(b) => {
                *shift_idx = 7;
                *flag = b;
            },
        }
    } else {
        assert(src.remaining().skip(0) =~= src.remaining());
        *shift_idx = next;
    }
    let k: u8 = *shift_idx as u8;
    Ok((*flag >> k) & 1)
}

/// Appends `length` bytes to `out`, each copied from `offset + 1` places before the
/// end as it stands when the byte is appended.
pub fn backref_to_out(out: &mut Vec<u8>, offset: usize, length: usize)
    requires
        length > 0 ==> offset < old(out).len(),
    ensures
        final(out)@ == lz_copy(old(out)@, offset as int, length as nat),
{
    let mut k: usize = 0;
    while k < length
        invariant
            k <= length,
            length > 0 ==> offset < out.len(),
            lz_copy(old(out)@, offset as int, length as nat) == lz_copy(
                out@,
                offset as int,
                (length - k) as nat,
            ),
        decreases length - k,
    {
        let byte: u8 = out[out.len() - offset - 1];
        out.push(byte);
        k = k + 1;
    }
}

/// Reads one control bit at position `pos` of `inp`.
fn take_bit<S: ByteSource>(
    src: &mut S,
    shift_idx: &mut i8,
    flag: &mut u8,
    Ghost(inp): Ghost<Seq<u8>>,
    Ghost(pos): Ghost<int>,
) -> (r: Option<u8>)
    requires
        old(src).wf(),
        -1 <= *old(shift_idx) <= 7,
        0 <= pos <= inp.len(),
        old(src).remaining() == inp.skip(pos),
    ensures
        final(src).wf(),
        -1 <= *final(shift_idx) <= 7,
        match lz_bit(inp, (pos, *old(flag), *old(shift_idx) as int)) {
            None => r is None,
            Some((b, st)) => r == Some(b) && b <= 1 && pos <= st.0 <= inp.len()
                && final(src).remaining() == inp.skip(st.0) && *final(flag) == st.1
                && *final(shift_idx) as int == st.2,
        },
{
    proof {
        lemma_lz_bit_skip(inp, pos, *flag, *shift_idx as int);
    }
    match consume_bit(src, shift_idx, flag) {
        Err(_) => None,
        Ok(b) => {
            proof {
                let st = lz_bit(inp.skip(pos), (0, *old(flag), *old(shift_idx) as int)).unwrap().1;
                assert(inp.skip(pos).skip(st.0) =~= inp.skip(pos + st.0));
                let f: u8 = *flag;
                let k: u8 = *shift_idx as u8;
                assert(((f >> k) & 1) <= 1) by (bit_vector);
            }
            Some(b)
        },
    }
}

/// Reads one payload byte at position `pos` of `inp`.
fn take_byte<S: ByteSource>(src: &mut S, Ghost(inp): Ghost<Seq<u8>>, Ghost(pos): Ghost<int>) -> (r:
    Option<u8>)
    requires
        old(src).wf(),
        0 <= pos <= inp.len(),
        old(src).remaining() == inp.skip(pos),
    ensures
        final(src).wf(),
        pos < inp.len() ==> r == Some(inp[pos]) && final(src).remaining() == inp.skip(pos + 1),
        pos >= inp.len() ==> r is None,
{
    let r = src.next_byte();
    proof {
        if pos < inp.len() {
            assert(inp.skip(pos).skip(1) =~= inp.skip(pos + 1));
        }
    }
    r
}

/// Reads `n` control bits as a number, highest bit first.
fn take_bits<S: ByteSource>(
    src: &mut S,
    shift_idx: &mut i8,
    flag: &mut u8,
    n: u8,
    Ghost(inp): Ghost<Seq<u8>>,
    Ghost(pos): Ghost<int>,
) -> (r: Option<usize>)
    requires
        old(src).wf(),
        -1 <= *old(shift_idx) <= 7,
        0 <= pos <= inp.len(),
        old(src).remaining() == inp.skip(pos),
        n <= 4,
    ensures
        final(src).wf(),
        -1 <= *final(shift_idx) <= 7,
        match lz_bits(inp, (pos, *old(flag), *old(shift_idx) as int), n as nat, 0) {
            None => r is None,
            Some((v, st)) => 0 <= v < 16 && r == Some(v as usize) && pos <= st.0 <= inp.len()
                && final(src).remaining() == inp.skip(st.0) && *final(flag) == st.1
                && *final(shift_idx) as int == st.2,
        },
{
    let mut acc: usize = 0;
    let mut k: u8 = 0;
    let ghost mut cur: int = pos;
    let ghost start: BitState = (pos, *flag, *shift_idx as int);
    let mut limit: usize = 1;
    while k < n
        invariant
            k <= n <= 4,
            src.wf(),
            -1 <= *shift_idx <= 7,
            0 <= pos <= cur <= inp.len(),
            start == (pos, *old(flag), *old(shift_idx) as int),
            src.remaining() == inp.skip(cur),
            acc < limit <= 16,
            k < 4 ==> limit <= 8,
            k < 3 ==> limit <= 4,
            k < 2 ==> limit <= 2,
            k < 1 ==> limit <= 1,
            lz_bits(inp, start, n as nat, 0) == lz_bits(
                inp,
                (cur, *flag, *shift_idx as int),
                (n - k) as nat,
                acc as int,
            ),
        decreases n - k,
    {
        let ghost before: BitState = (cur, *flag, *shift_idx as int);
        match take_bit(src, shift_idx, flag, Ghost(inp), Ghost(cur)) {
            None => {
                return None;
            },
            Some(b) => {
                proof {
                    cur = lz_bit(inp, before).unwrap().1.0;
                }
                acc = 2 * acc + b as usize;
                limit = 2 * limit;
                k = k + 1;
            },
        }
    }
    Some(acc)
}

/// Appends the next `run` bytes of the input to `out`; `false` where the input ends
/// before that.
fn copy_literals<S: ByteSource>(
    src: &mut S,
    out: &mut Vec<u8>,
    run: usize,
    Ghost(inp): Ghost<Seq<u8>>,
    Ghost(base): Ghost<int>,
) -> (r: bool)
    requires
        old(src).wf(),
        0 <= base <= inp.len(),
        old(src).remaining() == inp.skip(base),
    ensures
        final(src).wf(),
        r == (base + run <= inp.len()),
        r ==> final(src).remaining() == inp.skip(base + run) && final(out)@ == old(out)@
            + inp.subrange(base, base + run),
{
    let mut k: usize = 0;
    assert(out@ =~= old(out)@ + inp.subrange(base, base + 0));
    while k < run
        invariant
            k <= run,
            src.wf(),
            0 <= base,
            base + k <= inp.len(),
            src.remaining() == inp.skip(base + k),
            out@ == old(out)@ + inp.subrange(base, base + k),
        decreases run - k,
    {
        match take_byte(src, Ghost(inp), Ghost(base + k)) {
            None => {
                return false;
            },
            Some(v) => {
                out.push(v);
                assert(out@ =~= old(out)@ + inp.subrange(base, base + k + 1));
                k = k + 1;
            },
        }
    }
    true
}

/// One step of the decoder: a literal byte or a back-reference is appended to `out`.
fn lz_step<S: ByteSource>(
    src: &mut S,
    shift_idx: &mut i8,
    flag: &mut u8,
    out: &mut Vec<u8>,
    Ghost(inp): Ghost<Seq<u8>>,
    Ghost(pos): Ghost<int>,
) -> (r: Result<(), JpkError>)
    requires
        old(src).wf(),
        -1 <= *old(shift_idx) <= 7,
        0 <= pos <= inp.len(),
        old(src).remaining() == inp.skip(pos),
    ensures
        final(src).wf(),
        -1 <= *final(shift_idx) <= 7,
        match lz_token(inp, (pos, *old(flag), *old(shift_idx) as int), old(out)@) {
            Err(e) => r == Err::<(), JpkError>(e),
            Ok((st, o)) => r is Ok && pos <= st.0 <= inp.len() && final(src).remaining()
                == inp.skip(st.0) && *final(flag) == st.1 && *final(shift_idx) as int == st.2
                && final(out)@ == o,
        },
{
    let ghost st0: BitState = (pos, *flag, *shift_idx as int);
    let bit = match take_bit(src, shift_idx, flag, Ghost(inp), Ghost(pos)) {
        None => {
            return Err(JpkError::TruncatedPayload);
        },
        Some(b) => b,
    };
    let ghost st1: BitState = lz_bit(inp, st0).unwrap().1;
    if bit == 0 {
        match take_byte(src, Ghost(inp), Ghost(st1.0)) {
            None => {
                return Err(JpkError::TruncatedPayload);
            },
            Some(v) => {
                out.push(v);
                return Ok(());
            },
        }
    }
    let kind = match take_bit(src, shift_idx, flag, Ghost(inp), Ghost(st1.0)) {
        None => {
            return Err(JpkError::TruncatedPayload);
        },
        Some(b) => b,
    };
    let ghost st2: BitState = lz_bit(inp, st1).unwrap().1;
    if kind == 0 {
        let code = match take_bits(src, shift_idx, flag, 2, Ghost(inp), Ghost(st2.0)) {
            None => {
                return Err(JpkError::TruncatedPayload);
            },
            Some(v) => v,
        };
        let ghost st3: BitState = lz_bits(inp, st2, 2, 0).unwrap().1;
        let offset = match take_byte(src, Ghost(inp), Ghost(st3.0)) {
            None => {
                return Err(JpkError::TruncatedPayload);
            },
            Some(v) => v,
        };
        if offset as usize >= out.len() {
            return Err(JpkError::BadBackReference);
        }
        backref_to_out(out, offset as usize, code + 3);
        return Ok(());
    }
    let hi = match take_byte(src, Ghost(inp), Ghost(st2.0)) {
        None => {
            return Err(JpkError::TruncatedPayload);
        },
        Some(v) => v,
    };
    let lo = match take_byte(src, Ghost(inp), Ghost(st2.0 + 1)) {
        None => {
            return Err(JpkError::TruncatedPayload);
        },
        Some(v) => v,
    };
    let ghost st4: BitState = (st2.0 + 2, st2.1, st2.2);
    let length: usize = (hi / 32) as usize;
    let offset: usize = (hi % 32) as usize * 256 + lo as usize;
    if length != 0 {
        if offset >= out.len() {
            return Err(JpkError::BadBackReference);
        }
        backref_to_out(out, offset, length + 2);
        return Ok(());
    }
    let special = match take_bit(src, shift_idx, flag, Ghost(inp), Ghost(st4.0)) {
        None => {
            return Err(JpkError::TruncatedPayload);
        },
        Some(b) => b,
    };
    let ghost st5: BitState = lz_bit(inp, st4).unwrap().1;
    if special == 0 {
        let ext = match take_bits(src, shift_idx, flag, 4, Ghost(inp), Ghost(st5.0)) {
            None => {
                return Err(JpkError::TruncatedPayload);
            },
            Some(v) => v,
        };
        if offset >= out.len() {
            return Err(JpkError::BadBackReference);
        }
        backref_to_out(out, offset, ext + 10);
        return Ok(());
    }
    let t = match take_byte(src, Ghost(inp), Ghost(st5.0)) {
        None => {
            return Err(JpkError::TruncatedPayload);
        },
        Some(v) => v,
    };
    if t != 0xFF {
        if offset >= out.len() {
            return Err(JpkError::BadBackReference);
        }
        backref_to_out(out, offset, t as usize + 0x1A);
        return Ok(());
    }
    if copy_literals(src, out, offset + 0x1B, Ghost(inp), Ghost(st5.0 + 1)) {
        Ok(())
    } else {
        Err(JpkError::TruncatedPayload)
    }
}

/// Decodes an LZ stream taken from `src` until `size` bytes have come out.
pub fn decode_lz_from<S: ByteSource>(src: &mut S, size: usize) -> (r: Result<Vec<u8>, JpkError>)
    requires
        old(src).wf(),
    ensures
        final(src).wf(),
        match lz_decode(old(src).remaining(), size as nat) {
            Err(e) => r == Err::<Vec<u8>, JpkError>(e),
            Ok(o) => r is Ok && r.unwrap()@ == o,
        },
{
    let ghost inp: Seq<u8> = src.remaining();
    let ghost mut pos: int = 0;
    let mut flag: u8 = 0;
    let mut shift_idx: i8 = -1;
    let mut out: Vec<u8> = Vec::new();
    assert(inp.skip(0) =~= inp);
    while out.len() < size
        invariant
            src.wf(),
            -1 <= shift_idx <= 7,
            0 <= pos <= inp.len(),
            inp == old(src).remaining(),
            src.remaining() == inp.skip(pos),
            lz_decode(inp, size as nat) == lz_run(
                inp,
                (pos, flag, shift_idx as int),
                out@,
                size as nat,
            ),
        decreases
                (if out.len() < size {
                    size - out.len()
                } else {
                    0
                }),
    {
        let ghost before: BitState = (pos, flag, shift_idx as int);
        let ghost out0: Seq<u8> = out@;
        proof {
            lemma_lz_token_grows(inp, before, out0);
        }
        match lz_step(src, &mut shift_idx, &mut flag, &mut out, Ghost(inp), Ghost(pos)) {
            Err(e) => {
                return Err(e);
            },
            Ok(()) => {
                proof {
                    pos = lz_token(inp, before, out0).unwrap().0.0;
                }
            },
        }
    }
    if out.len() == size {
        Ok(out)
    } else {
        Err(JpkError::SizeMismatch)
    }
}

/// Decodes an LZ payload of which `size` bytes are expected.
pub fn decode_jpk_lz(buf: &[u8], size: usize) -> (r: Result<Vec<u8>, JpkError>)
    ensures
        match lz_decode(buf@, size as nat) {
            Err(e) => r == Err::<Vec<u8>, JpkError>(e),
            Ok(o) => r is Ok && r.unwrap()@ == o,
        },
{
    let mut cursor = ByteCursor::new(buf);
    decode_lz_from(&mut cursor, size)
}

/// The payload of the raw coding is the content itself.
pub open spec fn raw_decode(inp: Seq<u8>, size: nat) -> Result<Seq<u8>, JpkError> {
    if inp.len() == size {
        Ok(inp)
    } else {
        Err(JpkError::SizeMismatch)
    }
}

/// Decodes a raw payload of which `size` bytes are expected.
pub fn decode_jpk_raw(buf: &[u8], size: usize) -> (r: Result<Vec<u8>, JpkError>)
    ensures
        match raw_decode(buf@, size as nat) {
            Err(e) => r == Err::<Vec<u8>, JpkError>(e),
            Ok(o) => r is Ok && r.unwrap()@ == o,
        },
{
    if buf.len() == size {
        Ok(vstd::slice::slice_to_vec(buf))
    } else {
        Err(JpkError::SizeMismatch)
    }
}

/// Takes one control bit of an LZ stream that is itself Huffman-coded: the flag
/// bytes come out of the table walk.
pub fn consume_huff_bit(reader: &mut HuffmanReader, shift_idx: &mut i8, flag: &mut u8) -> (r:
    Result<u8, JpkError>)
    requires
        old(reader).wf(),
        i8::MIN < *old(shift_idx) <= 8,
    ensures
        final(reader).wf(),
        match lz_bit(old(reader).remaining(), (0, *old(flag), *old(shift_idx) as int)) {
            None => r == Err::<u8, JpkError>(JpkError::TruncatedPayload)
                && *final(flag) == *old(flag) && *final(shift_idx) == *old(shift_idx),
            Some((b, st)) => r == Ok::<u8, JpkError>(b)
                && final(reader).remaining() == old(reader).remaining().skip(st.0)
                && *final(flag) == st.1 && *final(shift_idx) as int == st.2,
        },
{
    consume_bit(reader, shift_idx, flag)
}

/// Decodes a Huffman-only payload: every byte that the bit stream gives.
pub fn decode_jpk_huff(buf: &[u8]) -> (r: Result<Vec<u8>, JpkError>)
    ensures
        match huff_decode(buf@) {
            Err(e) => r == Err::<Vec<u8>, JpkError>(e),
            Ok(o) => r is Ok && r.unwrap()@ == o,
        },
{
    let mut reader = match HuffmanReader::new(buf) {
        Err(e) => {
            return Err(e);
        },
        Ok(reader) => reader,
    };
    let mut out_vec: Vec<u8> = Vec::new();
    loop
        invariant_except_break
            reader.wf(),
            out_vec@ + reader.remaining() == huff_stream(buf@),
        ensures
            out_vec@ == huff_stream(buf@),
        decreases reader.remaining().len(),
    {
        let ghost rest = reader.remaining();
        match reader.next_byte() {
            None => {
                assert(out_vec@ + rest =~= out_vec@);
                break ;
            },
            Some(byte) => {
                assert(out_vec@.push(byte) + rest.skip(1) =~= out_vec@ + rest);
                out_vec.push(byte);
            },
        }
    }
    Ok(out_vec)
}

/// Decodes the first `size` bytes of a Huffman-only payload.
pub fn decode_jpk_huff_raw(buf: &[u8], size: usize) -> (r: Result<Vec<u8>, JpkError>)
    ensures
        match huff_decode_sized(buf@, size as nat) {
            Err(e) => r == Err::<Vec<u8>, JpkError>(e),
            Ok(o) => r is Ok && r.unwrap()@ == o,
        },
{
    let mut reader = match HuffmanReader::new(buf) {
        Err(e) => {
            return Err(e);
        },
        Ok(reader) => reader,
    };
    let mut out_vec: Vec<u8> = Vec::new();
    while out_vec.len() < size
        invariant
            reader.wf(),
            out_vec.len() <= size,
            out_vec@ + reader.remaining() == huff_stream(buf@),
            huff_header_ok(buf@),
        decreases size - out_vec.len(),
    {
        let ghost rest = reader.remaining();
        match reader.next_byte() {
            None => {
                assert(out_vec@ + rest =~= out_vec@);
                return Err(JpkError::TruncatedPayload);
            },
            Some(byte) => {
                assert(out_vec@.push(byte) + rest.skip(1) =~= out_vec@ + rest);
                out_vec.push(byte);
            },
        }
    }
    assert(huff_stream(buf@).take(size as int) =~= out_vec@);
    Ok(out_vec)
}

/// Decodes a Huffman-and-LZ payload of which `size` bytes are expected.
pub fn decode_jpk_huff_lz(buf: &[u8], size: usize) -> (r: Result<Vec<u8>, JpkError>)
    ensures
        match huff_lz_decode(buf@, size as nat) {
            Err(e) => r == Err::<Vec<u8>, JpkError>(e),
            Ok(o) => r is Ok && r.unwrap()@ == o,
        },
{
    let mut reader = match HuffmanReader::new(buf) {
        Err(e) => {
            return Err(e);
        },
        Ok(reader) => reader,
    };
    decode_lz_from(&mut reader, size)
}

} // verus!
