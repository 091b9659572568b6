//! Why the LZ encoder's output decodes to its input: the encoder's writes, one by
//! one, are what the decoder reads.

use super::lz_spec::{lz_bit, lz_bits, lz_byte, lz_copy, lz_run, lz_token, BitState};
use super::JpkError;
use vstd::prelude::*;

verus! {

/// The encoder's state: the bytes written, the index of the flag byte in use and
/// the number of its bits that are still free.
pub type EncState = (Seq<u8>, int, int);

/// The lowest `s` bits of `x` are zero.
pub open spec fn low_clear(x: u8, s: u8) -> bool {
    (x >> s) << s == x
}

/// A state the encoder can be in: the free bits of the flag byte are still zero.
pub open spec fn enc_wf(s: EncState) -> bool {
    &&& 0 <= s.2 <= 7
    &&& s.2 > 0 ==> 0 <= s.1 < s.0.len() && low_clear(s.0[s.1], s.2 as u8)
}

/// The state in which encoding starts.
pub open spec fn enc_start() -> EncState {
    (Seq::empty(), 0, 0)
}

/// Writing one control bit: the next free bit of the flag byte is taken, from the
/// highest down; a new flag byte is appended when none is free.
pub open spec fn enc_bit(s: EncState, b: u8) -> EncState {
    if s.2 <= 0 {
        (
            s.0.push(
                if b == 1 {
                    0x80u8
                } else {
                    0u8
                },
            ),
            s.0.len() as int,
            7,
        )
    } else {
        (
            if b == 1 {
                s.0.update(s.1, s.0[s.1] | (1u8 << ((s.2 - 1) as u8)))
            } else {
                s.0
            },
            s.1,
            s.2 - 1,
        )
    }
}

/// Writing one payload byte.
pub open spec fn enc_byte(s: EncState, v: u8) -> EncState {
    (s.0.push(v), s.1, s.2)
}

/// Writing a four-bit number, highest bit first.
pub open spec fn enc_bits4(s: EncState, v: int) -> EncState {
    enc_bit(
        enc_bit(enc_bit(enc_bit(s, (v / 8 % 2) as u8), (v / 4 % 2) as u8), (v / 2 % 2) as u8),
        (v % 2) as u8,
    )
}

/// A literal byte.
pub open spec fn enc_literal(s: EncState, v: u8) -> EncState {
    enc_byte(enc_bit(s, 0), v)
}

/// A short back-reference: length 3 to 6, offset below 256.
pub open spec fn enc_short(s: EncState, offset: int, len: int) -> EncState {
    enc_byte(
        enc_bit(enc_bit(enc_bit(enc_bit(s, 1), 0), ((len - 3) / 2) as u8), ((len - 3) % 2) as u8),
        offset as u8,
    )
}

/// The two bytes of a long back-reference, after its two control bits.
pub open spec fn enc_long_head(s: EncState, offset: int, code: int) -> EncState {
    enc_byte(
        enc_byte(enc_bit(enc_bit(s, 1), 1), (code * 32 + offset / 256) as u8),
        (offset % 256) as u8,
    )
}

/// A long back-reference: length 3 to 9, offset below 8192.
pub open spec fn enc_long(s: EncState, offset: int, len: int) -> EncState {
    enc_long_head(s, offset, len - 2)
}

/// An extended back-reference with four bits of length: length 10 to 25.
pub open spec fn enc_ext4(s: EncState, offset: int, len: int) -> EncState {
    enc_bits4(enc_bit(enc_long_head(s, offset, 0), 0), len - 10)
}

/// An extended back-reference with a length byte: length 26 to 280.
pub open spec fn enc_ext8(s: EncState, offset: int, len: int) -> EncState {
    enc_byte(enc_bit(enc_long_head(s, offset, 0), 1), (len - 26) as u8)
}

/// A finished stream `f` agrees with the state `s`: it holds the bytes written so
/// far, and in the flag byte in use the bits written so far.
pub open spec fn compat(s: EncState, f: Seq<u8>) -> bool {
    &&& f.len() >= s.0.len()
    &&& forall|j: int| 0 <= j < s.0.len() && (j != s.1 || s.2 <= 0) ==> f[j] == s.0[j]
    &&& s.2 > 0 ==> (f[s.1] >> (s.2 as u8)) == (s.0[s.1] >> (s.2 as u8))
}

/// Where the decoder stands in `f` when it has read what `s` holds.
pub open spec fn dec_state(s: EncState, f: Seq<u8>) -> BitState {
    (
        s.0.len() as int,
        if 0 <= s.1 < f.len() {
            f[s.1]
        } else {
            0u8
        },
        s.2,
    )
}

proof fn lemma_flag_bits(x: u8, o: u8, o2: u8, b: u8, s: u8, t: u8)
    by (bit_vector)
    requires
        1 <= s <= 7,
        t == s - 1,
        b <= 1,
        (o >> s) << s == o,
        b == 1 ==> o2 == o | (1u8 << t),
        b != 1 ==> o2 == o,
        x >> t == o2 >> t,
    ensures
        x >> s == o >> s,
        (x >> t) & 1 == b,
{
}

proof fn lemma_flag_clear(o: u8, s: u8, t: u8)
    by (bit_vector)
    requires
        1 <= s <= 7,
        t == s - 1,
        (o >> s) << s == o,
    ensures
        (o >> t) << t == o,
        ((o | (1u8 << t)) >> t) << t == o | (1u8 << t),
{
}

proof fn lemma_flag_top(x: u8, v: u8, b: u8)
    by (bit_vector)
    requires
        b <= 1,
        b == 1 ==> v == 0x80,
        b != 1 ==> v == 0,
        x >> 7 == v >> 7,
    ensures
        (x >> 7) & 1 == b,
        (v >> 7) << 7 == v,
{
}

/// Writing a bit keeps the state well formed.
pub proof fn lemma_enc_bit_wf(s: EncState, b: u8)
    requires
        enc_wf(s),
    ensures
        enc_wf(enc_bit(s, b)),
        enc_bit(s, b).0.len() >= s.0.len(),
{
    if s.2 <= 0 {
        let v: u8 = if b == 1 {
            0x80u8
        } else {
            0u8
        };
        assert((v >> 7u8) << 7u8 == v) by (bit_vector)
            requires
                v == 0x80u8 || v == 0u8,
        ;
    } else {
        lemma_flag_clear(s.0[s.1], s.2 as u8, (s.2 - 1) as u8);
    }
}

/// The decoder reads back a control bit that the encoder wrote.
pub proof fn lemma_enc_bit(s: EncState, b: u8, f: Seq<u8>)
    requires
        enc_wf(s),
        b <= 1,
        compat(enc_bit(s, b), f),
    ensures
        compat(s, f),
        lz_bit(f, dec_state(s, f)) == Some((b, dec_state(enc_bit(s, b), f))),
{
    let s2 = enc_bit(s, b);
    if s.2 <= 0 {
        let n = s.0.len() as int;
        let v: u8 = if b == 1 {
            0x80u8
        } else {
            0u8
        };
        assert(s2.0[n] == v);
        lemma_flag_top(f[n], v, b);
        assert forall|j: int| 0 <= j < s.0.len() implies f[j] == s.0[j] by {
            assert(f[j] == s2.0[j]);
        }
    } else {
        let t: u8 = (s.2 - 1) as u8;
        let o: u8 = s.0[s.1];
        let o2: u8 = s2.0[s.1];
        if s2.2 <= 0 {
            assert(f[s.1] == s2.0[s.1]);
        }
        assert(f[s.1] >> t == o2 >> t);
        lemma_flag_bits(f[s.1], o, o2, b, s.2 as u8, t);
        assert forall|j: int| 0 <= j < s.0.len() && j != s.1 implies f[j] == s.0[j] by {
            assert(f[j] == s2.0[j]);
        }
    }
}

/// The decoder reads back a payload byte that the encoder wrote.
pub proof fn lemma_enc_byte(s: EncState, v: u8, f: Seq<u8>)
    requires
        enc_wf(s),
        compat(enc_byte(s, v), f),
    ensures
        enc_wf(enc_byte(s, v)),
        compat(s, f),
        lz_byte(f, dec_state(s, f)) == Some((v, dec_state(enc_byte(s, v), f))),
{
    let s2 = enc_byte(s, v);
    let n = s.0.len() as int;
    assert(s2.0[n] == v);
    assert(f[n] == v);
    assert forall|j: int| 0 <= j < s.0.len() && (j != s.1 || s.2 <= 0) implies f[j] == s.0[j] by {
        assert(f[j] == s2.0[j]);
    }
}

/// The decoder reads back a literal.
pub proof fn lemma_enc_literal(s: EncState, v: u8, f: Seq<u8>, out: Seq<u8>)
    requires
        enc_wf(s),
        compat(enc_literal(s, v), f),
    ensures
        enc_wf(enc_literal(s, v)),
        compat(s, f),
        lz_token(f, dec_state(s, f), out) == Ok::<(BitState, Seq<u8>), JpkError>(
            (dec_state(enc_literal(s, v), f), out.push(v)),
        ),
{
    let s1 = enc_bit(s, 0);
    lemma_enc_bit_wf(s, 0);
    lemma_enc_byte(s1, v, f);
    lemma_enc_bit(s, 0, f);
}

/// The decoder reads back a short back-reference.
pub proof fn lemma_enc_short(s: EncState, offset: int, len: int, f: Seq<u8>, out: Seq<u8>)
    requires
        enc_wf(s),
        0 <= offset < 256,
        3 <= len <= 6,
        offset < out.len(),
        compat(enc_short(s, offset, len), f),
    ensures
        enc_wf(enc_short(s, offset, len)),
        compat(s, f),
        lz_token(f, dec_state(s, f), out) == Ok::<(BitState, Seq<u8>), JpkError>(
            (dec_state(enc_short(s, offset, len), f), lz_copy(out, offset, len as nat)),
        ),
{
    let b1: u8 = ((len - 3) / 2) as u8;
    let b0: u8 = ((len - 3) % 2) as u8;
    let s1 = enc_bit(s, 1);
    let s2 = enc_bit(s1, 0);
    let s3 = enc_bit(s2, b1);
    let s4 = enc_bit(s3, b0);
    lemma_enc_bit_wf(s, 1);
    lemma_enc_bit_wf(s1, 0);
    lemma_enc_bit_wf(s2, b1);
    lemma_enc_bit_wf(s3, b0);
    lemma_enc_byte(s4, offset as u8, f);
    lemma_enc_bit(s3, b0, f);
    lemma_enc_bit(s2, b1, f);
    lemma_enc_bit(s1, 0, f);
    lemma_enc_bit(s, 1, f);
    reveal_with_fuel(lz_bits, 3);
    assert(lz_bits(f, dec_state(s2, f), 2, 0) == Some((len - 3, dec_state(s4, f))));
}

/// The decoder reads back the head of a long back-reference.
proof fn lemma_enc_long_head(s: EncState, offset: int, code: int, f: Seq<u8>)
    requires
        enc_wf(s),
        0 <= offset < 8192,
        0 <= code <= 7,
        compat(enc_long_head(s, offset, code), f),
    ensures
        enc_wf(enc_long_head(s, offset, code)),
        compat(s, f),
        lz_bit(f, dec_state(s, f)) == Some((1u8, dec_state(enc_bit(s, 1), f))),
        lz_bit(f, dec_state(enc_bit(s, 1), f)) == Some(
            (1u8, dec_state(enc_bit(enc_bit(s, 1), 1), f)),
        ),
        lz_byte(f, dec_state(enc_bit(enc_bit(s, 1), 1), f)) == Some(
            (
                (code * 32 + offset / 256) as u8,
                dec_state(
                    enc_byte(enc_bit(enc_bit(s, 1), 1), (code * 32 + offset / 256) as u8),
                    f,
                ),
            ),
        ),
        lz_byte(
            f,
            dec_state(enc_byte(enc_bit(enc_bit(s, 1), 1), (code * 32 + offset / 256) as u8), f),
        ) == Some(((offset % 256) as u8, dec_state(enc_long_head(s, offset, code), f))),
{
    let hi: u8 = (code * 32 + offset / 256) as u8;
    let lo: u8 = (offset % 256) as u8;
    let s1 = enc_bit(s, 1);
    let s2 = enc_bit(s1, 1);
    let s3 = enc_byte(s2, hi);
    lemma_enc_bit_wf(s, 1);
    lemma_enc_bit_wf(s1, 1);
    lemma_enc_byte(s3, lo, f);
    lemma_enc_byte(s2, hi, f);
    lemma_enc_bit(s1, 1, f);
    lemma_enc_bit(s, 1, f);
}

/// The decoder reads back a long back-reference.
pub proof fn lemma_enc_long(s: EncState, offset: int, len: int, f: Seq<u8>, out: Seq<u8>)
    requires
        enc_wf(s),
        0 <= offset < 8192,
        3 <= len <= 9,
        offset < out.len(),
        compat(enc_long(s, offset, len), f),
    ensures
        enc_wf(enc_long(s, offset, len)),
        compat(s, f),
        lz_token(f, dec_state(s, f), out) == Ok::<(BitState, Seq<u8>), JpkError>(
            (dec_state(enc_long(s, offset, len), f), lz_copy(out, offset, len as nat)),
        ),
{
    lemma_enc_long_head(s, offset, len - 2, f);
    let hi: u8 = ((len - 2) * 32 + offset / 256) as u8;
    assert(hi as int / 32 == len - 2);
    assert((hi as int % 32) * 256 + (offset % 256) == offset);
}

/// The decoder reads back an extended back-reference with four bits of length.
#[verifier::rlimit(30)]
pub proof fn lemma_enc_ext4(s: EncState, offset: int, len: int, f: Seq<u8>, out: Seq<u8>)
    requires
        enc_wf(s),
        0 <= offset < 8192,
        10 <= len <= 25,
        offset < out.len(),
        compat(enc_ext4(s, offset, len), f),
    ensures
        enc_wf(enc_ext4(s, offset, len)),
        compat(s, f),
        lz_token(f, dec_state(s, f), out) == Ok::<(BitState, Seq<u8>), JpkError>(
            (dec_state(enc_ext4(s, offset, len), f), lz_copy(out, offset, len as nat)),
        ),
{
    let v = len - 10;
    let h = enc_long_head(s, offset, 0);
    let b3: u8 = (v / 8 % 2) as u8;
    let b2: u8 = (v / 4 % 2) as u8;
    let b1: u8 = (v / 2 % 2) as u8;
    let b0: u8 = (v % 2) as u8;
    let a0 = enc_bit(h, 0);
    let a1 = enc_bit(a0, b3);
    let a2 = enc_bit(a1, b2);
    let a3 = enc_bit(a2, b1);
    let a4 = enc_bit(a3, b0);
    // well-formedness runs forward from a state that needs no stream
    lemma_enc_long_head_wf(s, offset, 0);
    lemma_enc_bit_wf(h, 0);
    lemma_enc_bit_wf(a0, b3);
    lemma_enc_bit_wf(a1, b2);
    lemma_enc_bit_wf(a2, b1);
    lemma_enc_bit_wf(a3, b0);
    lemma_enc_bit(a3, b0, f);
    lemma_enc_bit(a2, b1, f);
    lemma_enc_bit(a1, b2, f);
    lemma_enc_bit(a0, b3, f);
    lemma_enc_bit(h, 0, f);
    lemma_enc_long_head(s, offset, 0, f);
    reveal_with_fuel(lz_bits, 5);
    assert(lz_bits(f, dec_state(a0, f), 4, 0) == Some((v, dec_state(a4, f))));
    let hi: u8 = (offset / 256) as u8;
    assert(hi as int / 32 == 0);
    assert((hi as int % 32) * 256 + (offset % 256) == offset);
}

/// The decoder reads back an extended back-reference with a length byte.
pub proof fn lemma_enc_ext8(s: EncState, offset: int, len: int, f: Seq<u8>, out: Seq<u8>)
    requires
        enc_wf(s),
        0 <= offset < 8192,
        26 <= len <= 280,
        offset < out.len(),
        compat(enc_ext8(s, offset, len), f),
    ensures
        enc_wf(enc_ext8(s, offset, len)),
        compat(s, f),
        lz_token(f, dec_state(s, f), out) == Ok::<(BitState, Seq<u8>), JpkError>(
            (dec_state(enc_ext8(s, offset, len), f), lz_copy(out, offset, len as nat)),
        ),
{
    let h = enc_long_head(s, offset, 0);
    let a0 = enc_bit(h, 1);
    lemma_enc_long_head_wf(s, offset, 0);
    lemma_enc_bit_wf(h, 1);
    lemma_enc_byte(a0, (len - 26) as u8, f);
    lemma_enc_bit(h, 1, f);
    lemma_enc_long_head(s, offset, 0, f);
    let hi: u8 = (offset / 256) as u8;
    assert(hi as int / 32 == 0);
    assert((hi as int % 32) * 256 + (offset % 256) == offset);
}

/// Writing the head of a long back-reference keeps the state well formed.
proof fn lemma_enc_long_head_wf(s: EncState, offset: int, code: int)
    requires
        enc_wf(s),
    ensures
        enc_wf(enc_long_head(s, offset, code)),
{
    let s1 = enc_bit(s, 1);
    lemma_enc_bit_wf(s, 1);
    lemma_enc_bit_wf(s1, 1);
}

/// A copy from a place where the input repeats itself gives the input.
pub proof fn lemma_copy_match(input: Seq<u8>, i: int, offset: int, len: nat)
    requires
        0 <= offset < i,
        i + len <= input.len(),
        forall|k: int| i <= k < i + len ==> #[trigger] input[k] == input[k - offset - 1],
    ensures
        lz_copy(input.take(i), offset, len) == input.take(i + len),
    decreases len,
{
    if len > 0 {
        let o = input.take(i);
        assert(o[o.len() - offset - 1] == input[i]);
        assert(o.push(input[i]) =~= input.take(i + 1));
        lemma_copy_match(input, i + 1, offset, (len - 1) as nat);
    }
}

/// The flag and the count of free bits do not matter to a decoder that has no bit
/// left.
pub proof fn lemma_run_fresh(f: Seq<u8>, pos: int, flag: u8, shift: int, out: Seq<u8>, n: nat)
    requires
        shift <= 0,
    ensures
        lz_run(f, (pos, flag, shift), out, n) == lz_run(f, (pos, 0u8, -1), out, n),
{
    assert(lz_bit(f, (pos, flag, shift)) == lz_bit(f, (pos, 0u8, -1)));
}

/// One step of the run.
pub proof fn lemma_run_step(
    f: Seq<u8>,
    st: BitState,
    out: Seq<u8>,
    st2: BitState,
    out2: Seq<u8>,
    n: nat,
)
    requires
        out.len() < n,
        lz_token(f, st, out) == Ok::<(BitState, Seq<u8>), JpkError>((st2, out2)),
    ensures
        lz_run(f, st, out, n) == lz_run(f, st2, out2, n),
{
}

/// Bytes after the end of a stream do not change how a step reads it.
pub proof fn lemma_lz_token_extend(s: Seq<u8>, e: Seq<u8>, st: BitState, out: Seq<u8>)
    requires
        lz_token(s, st, out) is Ok,
    ensures
        lz_token(s + e, st, out) == lz_token(s, st, out),
{
    let f = s + e;
    assert forall|i: int| 0 <= i < s.len() implies f[i] == s[i] by {}
    assert forall|a: BitState| (#[trigger] lz_bit(s, a)) is Some implies lz_bit(f, a) == lz_bit(
        s,
        a,
    ) by {}
    assert forall|a: BitState| (#[trigger] lz_byte(s, a)) is Some implies lz_byte(f, a)
        == lz_byte(s, a) by {}
    assert forall|a: BitState, n: nat, acc: int| (#[trigger] lz_bits(s, a, n, acc)) is Some implies lz_bits(
        f,
        a,
        n,
        acc,
    ) == lz_bits(s, a, n, acc) by {
        lemma_lz_bits_extend(s, e, a, n, acc);
    }
    assert forall|a: int, b: int| 0 <= a <= b <= s.len() implies #[trigger] f.subrange(a, b)
        == s.subrange(a, b) by {
        assert(f.subrange(a, b) =~= s.subrange(a, b));
    }
    match lz_bit(s, st) {
        None => {},
        Some((b, st1)) => {
            if b != 0 {
                match lz_bit(s, st1) {
                    None => {},
                    Some((t, st2)) => {
                        if t != 0 {
                            match lz_byte(s, st2) {
                                None => {},
                                Some((hi, st3)) => match lz_byte(s, st3) {
                                    None => {},
                                    Some((lo, st4)) => {
                                        if hi as int / 32 == 0 {
                                            match lz_bit(s, st4) {
                                                None => {},
                                                Some((x, st5)) => {
                                                    if x != 0 {
                                                        match lz_byte(s, st5) {
                                                            None => {},
                                                            Some((y, st6)) => {
                                                                assert(lz_byte(f, st5) == lz_byte(
                                                                    s,
                                                                    st5,
                                                                ));
                                                            },
                                                        }
                                                    }
                                                },
                                            }
                                        }
                                    },
                                },
                            }
                        }
                    },
                }
            }
        },
    }
}

proof fn lemma_lz_bits_extend(s: Seq<u8>, e: Seq<u8>, st: BitState, n: nat, acc: int)
    requires
        lz_bits(s, st, n, acc) is Some,
    ensures
        lz_bits(s + e, st, n, acc) == lz_bits(s, st, n, acc),
    decreases n,
{
    if n > 0 {
        let f = s + e;
        match lz_bit(s, st) {
            None => {},
            Some((b, st1)) => {
                assert(st.2 <= 0 ==> f[st.0] == s[st.0]);
                lemma_lz_bits_extend(s, e, st1, (n - 1) as nat, 2 * acc + b as int);
            },
        }
    }
}

/// Bytes after the end of a stream do not change what it decodes to.
pub proof fn lemma_lz_run_extend(s: Seq<u8>, e: Seq<u8>, st: BitState, out: Seq<u8>, n: nat)
    requires
        lz_run(s, st, out, n) is Ok,
    ensures
        lz_run(s + e, st, out, n) == lz_run(s, st, out, n),
    decreases
            (if out.len() < n {
                n - out.len()
            } else {
                0
            }),
{
    if out.len() < n {
        super::lz_spec::lemma_lz_token_grows(s, st, out);
        lemma_lz_token_extend(s, e, st, out);
        match lz_token(s, st, out) {
            Err(_) => {},
            Ok((st1, o1)) => {
                lemma_lz_run_extend(s, e, st1, o1, n);
            },
        }
    }
}

/// A literal takes at most two bytes of the stream, a back-reference at most four.
pub proof fn lemma_enc_token_len(s: EncState, v: u8, offset: int, len: int)
    requires
        enc_wf(s),
    ensures
        enc_literal(s, v).0.len() <= s.0.len() + 2,
        enc_short(s, offset, len).0.len() <= s.0.len() + 2,
        enc_long(s, offset, len).0.len() <= s.0.len() + 3,
        enc_ext4(s, offset, len).0.len() <= s.0.len() + 3,
        enc_ext8(s, offset, len).0.len() <= s.0.len() + 4,
{
    let b1: u8 = ((len - 3) / 2) as u8;
    let b0: u8 = ((len - 3) % 2) as u8;
    let s1 = enc_bit(s, 1);
    let s2 = enc_bit(s1, 0);
    let s3 = enc_bit(s2, b1);
    let s4 = enc_bit(s3, b0);
    assert(s4.0.len() <= s.0.len() + 1);
    let h = enc_long_head(s, offset, 0);
    let v4 = len - 10;
    let a0 = enc_bit(h, 0);
    let a1 = enc_bit(a0, (v4 / 8 % 2) as u8);
    let a2 = enc_bit(a1, (v4 / 4 % 2) as u8);
    let a3 = enc_bit(a2, (v4 / 2 % 2) as u8);
    let a4 = enc_bit(a3, (v4 % 2) as u8);
    assert(h.2 == enc_bit(enc_bit(s, 1), 1).2);
    assert(a4.0.len() <= s.0.len() + 3);
}

} // verus!
