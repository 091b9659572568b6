//! What the LZ bit stream means: the decoder as a mathematical function.

use super::JpkError;
use vstd::prelude::*;

verus! {

/// Bit `k` of `x`, as 0 or 1.
pub open spec fn bit_at(x: u8, k: u8) -> u8 {
    (x >> k) & 1
}

/// The state of the control-bit reader: the position of the next unread byte, the
/// flag byte in use and the number of its bits that are still unread.
pub type BitState = (int, u8, int);

/// Reads one control bit. A flag byte is used from its highest bit down; when none
/// of its bits is left the next input byte becomes the flag.
pub open spec fn lz_bit(inp: Seq<u8>, st: BitState) -> Option<(u8, BitState)> {
    let (pos, flag, shift) = st;
    if shift <= 0 {
        if 0 <= pos < inp.len() {
            Some((bit_at(inp[pos], 7), (pos + 1, inp[pos], 7)))
        } else {
            None
        }
    } else {
        Some((bit_at(flag, (shift - 1) as u8), (pos, flag, shift - 1)))
    }
}

/// Reads `n` control bits as a number, the first bit being the highest.
pub open spec fn lz_bits(inp: Seq<u8>, st: BitState, n: nat, acc: int) -> Option<(int, BitState)>
    decreases n,
{
    if n == 0 {
        Some((acc, st))
    } else {
        match lz_bit(inp, st) {
            None => None,
            Some((b, st1)) => lz_bits(inp, st1, (n - 1) as nat, 2 * acc + b as int),
        }
    }
}

/// Reads one payload byte.
pub open spec fn lz_byte(inp: Seq<u8>, st: BitState) -> Option<(u8, BitState)> {
    let (pos, flag, shift) = st;
    if 0 <= pos < inp.len() {
        Some((inp[pos], (pos + 1, flag, shift)))
    } else {
        None
    }
}

/// Appends `len` bytes, each a copy of the byte `offset + 1` places before the end
/// at the moment it is appended, so that a copy may run into what it has just
/// written.
pub open spec fn lz_copy(out: Seq<u8>, offset: int, len: nat) -> Seq<u8>
    decreases len,
{
    if len == 0 {
        out
    } else {
        lz_copy(out.push(out[out.len() - offset - 1]), offset, (len - 1) as nat)
    }
}

/// A back-reference: the copy, or an error where it would start before the output.
pub open spec fn lz_backref(out: Seq<u8>, st: BitState, offset: int, len: nat) -> Result<
    (BitState, Seq<u8>),
    JpkError,
> {
    if offset < out.len() {
        Ok((st, lz_copy(out, offset, len)))
    } else {
        Err(JpkError::BadBackReference)
    }
}

/// A short back-reference: two bits of length, one byte of offset.
pub open spec fn lz_short(inp: Seq<u8>, st: BitState, out: Seq<u8>) -> Result<
    (BitState, Seq<u8>),
    JpkError,
> {
    match lz_bits(inp, st, 2, 0) {
        None => Err(JpkError::TruncatedPayload),
        Some((len, st1)) => match lz_byte(inp, st1) {
            None => Err(JpkError::TruncatedPayload),
            Some((off, st2)) => lz_backref(out, st2, off as int, (len + 3) as nat),
        },
    }
}

/// The extended forms that follow a long back-reference of length zero: four bits
/// of length, or a length byte, or with the byte `0xFF` a run of literal bytes.
pub open spec fn lz_extended(inp: Seq<u8>, st: BitState, out: Seq<u8>, offset: int) -> Result<
    (BitState, Seq<u8>),
    JpkError,
> {
    match lz_bit(inp, st) {
        None => Err(JpkError::TruncatedPayload),
        Some((s, st1)) => if s == 0 {
            match lz_bits(inp, st1, 4, 0) {
                None => Err(JpkError::TruncatedPayload),
                Some((len, st2)) => lz_backref(out, st2, offset, (len + 10) as nat),
            }
        } else {
            match lz_byte(inp, st1) {
                None => Err(JpkError::TruncatedPayload),
                Some((t, st2)) => if t == 0xFF {
                    let n = offset + 0x1B;
                    if st2.0 + n <= inp.len() {
                        Ok(
                            (
                                (st2.0 + n, st2.1, st2.2),
                                out + inp.subrange(st2.0, st2.0 + n),
                            ),
                        )
                    } else {
                        Err(JpkError::TruncatedPayload)
                    }
                } else {
                    lz_backref(out, st2, offset, (t as int + 0x1A) as nat)
                },
            }
        },
    }
}

/// A long back-reference: two bytes that hold three bits of length and thirteen of
/// offset.
pub open spec fn lz_long(inp: Seq<u8>, st: BitState, out: Seq<u8>) -> Result<
    (BitState, Seq<u8>),
    JpkError,
> {
    match lz_byte(inp, st) {
        None => Err(JpkError::TruncatedPayload),
        Some((hi, st1)) => match lz_byte(inp, st1) {
            None => Err(JpkError::TruncatedPayload),
            Some((lo, st2)) => {
                let len = hi as int / 32;
                let offset = (hi as int % 32) * 256 + lo as int;
                if len != 0 {
                    lz_backref(out, st2, offset, (len + 2) as nat)
                } else {
                    lz_extended(inp, st2, out, offset)
                }
            },
        },
    }
}

/// One step of the decoder: a literal byte or a back-reference.
pub open spec fn lz_token(inp: Seq<u8>, st: BitState, out: Seq<u8>) -> Result<
    (BitState, Seq<u8>),
    JpkError,
> {
    match lz_bit(inp, st) {
        None => Err(JpkError::TruncatedPayload),
        Some((b, st1)) => if b == 0 {
            match lz_byte(inp, st1) {
                None => Err(JpkError::TruncatedPayload),
                Some((v, st2)) => Ok((st2, out.push(v))),
            }
        } else {
            match lz_bit(inp, st1) {
                None => Err(JpkError::TruncatedPayload),
                Some((t, st2)) => if t == 0 {
                    lz_short(inp, st2, out)
                } else {
                    lz_long(inp, st2, out)
                },
            }
        },
    }
}

/// A copy appends exactly `len` bytes and keeps what was there.
pub proof fn lemma_lz_copy_len(out: Seq<u8>, offset: int, len: nat)
    ensures
        lz_copy(out, offset, len).len() == out.len() + len,
        lz_copy(out, offset, len).subrange(0, out.len() as int) == out,
    decreases len,
{
    if len > 0 {
        let o1 = out.push(out[out.len() - offset - 1]);
        lemma_lz_copy_len(o1, offset, (len - 1) as nat);
        assert(lz_copy(out, offset, len).subrange(0, out.len() as int) =~= o1.subrange(
            0,
            out.len() as int,
        ));
        assert(o1.subrange(0, out.len() as int) =~= out);
    } else {
        assert(out.subrange(0, out.len() as int) =~= out);
    }
}

/// A number read bit by bit is not negative.
pub proof fn lemma_lz_bits_range(inp: Seq<u8>, st: BitState, n: nat, acc: int)
    requires
        acc >= 0,
    ensures
        lz_bits(inp, st, n, acc) matches Some((v, _)) ==> v >= 0,
    decreases n,
{
    if n > 0 {
        match lz_bit(inp, st) {
            None => {},
            Some((b, st1)) => {
                lemma_lz_bits_range(inp, st1, (n - 1) as nat, 2 * acc + b as int);
            },
        }
    }
}

/// Every step makes the output longer.
pub proof fn lemma_lz_token_grows(inp: Seq<u8>, st: BitState, out: Seq<u8>)
    ensures
        lz_token(inp, st, out) matches Ok((_, o)) ==> o.len() > out.len(),
{
    match lz_token(inp, st, out) {
        Ok((_, o)) => {
            assert forall|off: int, len: nat| len > 0 implies #[trigger] lz_copy(
                out,
                off,
                len,
            ).len() > out.len() by {
                lemma_lz_copy_len(out, off, len);
            }
            assert forall|s: BitState, n: nat|
                (#[trigger] lz_bits(inp, s, n, 0)) is Some implies lz_bits(inp, s, n, 0).unwrap().0
                >= 0 by {
                lemma_lz_bits_range(inp, s, n, 0);
            }
        },
        Err(_) => {},
    }
}

/// The decoder from a given state: steps are taken until the output has reached
/// `size` bytes; a step that overshoots is an error.
pub open spec fn lz_run(inp: Seq<u8>, st: BitState, out: Seq<u8>, size: nat) -> Result<
    Seq<u8>,
    JpkError,
>
    decreases
            (if out.len() < size {
                size - out.len()
            } else {
                0
            }),
{
    if out.len() >= size {
        if out.len() == size {
            Ok(out)
        } else {
            Err(JpkError::SizeMismatch)
        }
    } else {
        proof {
            lemma_lz_token_grows(inp, st, out);
        }
        match lz_token(inp, st, out) {
            Err(e) => Err(e),
            Ok((st1, o1)) => lz_run(inp, st1, o1, size),
        }
    }
}

/// The state in which decoding starts: nothing read, no flag bits at hand.
pub open spec fn lz_start() -> BitState {
    (0, 0u8, -1)
}

/// What an LZ payload decodes to when `size` bytes were declared.
pub open spec fn lz_decode(inp: Seq<u8>, size: nat) -> Result<Seq<u8>, JpkError> {
    lz_run(inp, lz_start(), Seq::empty(), size)
}

} // verus!
