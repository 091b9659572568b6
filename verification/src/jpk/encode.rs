//! The LZ encoder.

use super::lz_proof::{
    compat, dec_state, enc_bit, enc_ext4, enc_ext8, enc_literal, enc_long, enc_long_head,
    enc_short, enc_start, enc_wf, lemma_copy_match, lemma_enc_bit_wf, lemma_enc_ext4,
    lemma_enc_ext8, lemma_enc_literal, lemma_enc_long, lemma_enc_short, lemma_enc_token_len,
    lemma_run_fresh, lemma_run_step, EncState,
};
use super::lz_spec::{lz_copy, lz_decode, lz_run};
use super::JpkError;
use std::collections::HashMap;
use vstd::prelude::*;
use vstd::slice::slice_subrange;

verus! {

broadcast use vstd::std_specs::hash::group_hash_axioms;

/// The longest match the encoder looks for.
pub const MAX_MATCH: usize = 280;

/// A match must start less than this many bytes back.
pub const WINDOW: usize = 8192;

/// The key under which a position is filed: its first three bytes as a number, or
/// 0 where fewer than three are given.
pub open spec fn hash3(s: Seq<u8>) -> int {
    if s.len() < 3 {
        0
    } else {
        s[0] as int + 256 * (s[1] as int) + 65536 * (s[2] as int)
    }
}

/// Two runs of three bytes with the same key are the same bytes.
pub proof fn lemma_hash3_injective(a: Seq<u8>, b: Seq<u8>)
    requires
        a.len() >= 3,
        b.len() >= 3,
        hash3(a) == hash3(b),
    ensures
        a[0] == b[0],
        a[1] == b[1],
        a[2] == b[2],
{
}

/// The key of the first three bytes of `buf`.
pub fn calculate_hash(buf: &[u8]) -> (r: u32)
    ensures
        r as int == hash3(buf@),
{
    if buf.len() < 3 {
        return 0;
    }
    buf[0] as u32 + 256 * (buf[1] as u32) + 65536 * (buf[2] as u32)
}

/// `a` from `ai` and `b` from `bi` agree for exactly `e` bytes: they agree that far,
/// and then one of them ends or they differ.
pub open spec fn common_extension(a: Seq<u8>, ai: int, b: Seq<u8>, bi: int, e: int) -> bool {
    &&& 0 <= e
    &&& ai + e <= a.len()
    &&& bi + e <= b.len()
    &&& forall|t: int| 0 <= t < e ==> #[trigger] a[ai + t] == b[bi + t]
    &&& (ai + e == a.len() || bi + e == b.len() || a[ai + e] != b[bi + e])
}

/// Looks up where the first `min_length` bytes of `current_buffer` were last filed
/// in `hash_chain`, and measures how far `in_buffer` from there agrees with
/// `current_buffer`. Returns the place and the length of the agreement, the first
/// `min_length` bytes counted in.
pub fn find_longest_match(
    in_buffer: &[u8],
    hash_chain: &HashMap<u32, usize>,
    current_buffer: &[u8],
    min_length: usize,
) -> (r: Option<(usize, usize)>)
    requires
        forall|h: u32| #[trigger]
            hash_chain@.contains_key(h) ==> hash_chain@[h] + min_length <= in_buffer.len(),
    ensures
        match r {
            None => current_buffer.len() < min_length || in_buffer.len() < min_length
                || !hash_chain@.contains_key(
                hash3(current_buffer@.take(min_length as int)) as u32,
            ),
            Some((start, total)) => {
                let h = hash3(current_buffer@.take(min_length as int)) as u32;
                &&& current_buffer.len() >= min_length
                &&& hash_chain@.contains_key(h)
                &&& start == hash_chain@[h]
                &&& total >= min_length
                &&& common_extension(
                    in_buffer@,
                    start + min_length,
                    current_buffer@,
                    min_length as int,
                    total - min_length,
                )
            },
        },
{
    if current_buffer.len() < min_length || in_buffer.len() < min_length {
        return None;
    }
    let pattern = slice_subrange(current_buffer, 0, min_length);
    assert(pattern@ =~= current_buffer@.take(min_length as int));
    let pattern_hash: u32 = calculate_hash(pattern);
    match hash_chain.get(&pattern_hash) {
        None => None,
        Some(found) => {
            let start: usize = *found;
            let mut e: usize = 0;
            while start + min_length + e < in_buffer.len() && min_length + e
                < current_buffer.len() && in_buffer[start + min_length + e]
                == current_buffer[min_length + e]
                invariant
                    start + min_length + e <= in_buffer.len(),
                    min_length + e <= current_buffer.len(),
                    forall|t: int|
                        0 <= t < e ==> #[trigger] in_buffer@[start + min_length + t]
                            == current_buffer@[min_length + t],
                decreases current_buffer.len() - e,
            {
                e = e + 1;
            }
            Some((start, min_length + e))
        },
    }
}

/// Writes one control bit: the bit is set where `bit_val` is 1. A fresh flag byte
/// is appended when the one in use is full.
pub fn set_bit_flag(out_buffer: &mut Vec<u8>, flag_idx: &mut usize, shift_idx: &mut i8, bit_val: u8)
    requires
        i8::MIN < *old(shift_idx) <= 8,
        *old(shift_idx) > 0 && bit_val == 1 ==> *old(flag_idx) < old(out_buffer).len(),
    ensures
        (final(out_buffer)@, *final(flag_idx) as int, *final(shift_idx) as int) == enc_bit(
            (old(out_buffer)@, *old(flag_idx) as int, *old(shift_idx) as int),
            bit_val,
        ),
        enc_wf((old(out_buffer)@, *old(flag_idx) as int, *old(shift_idx) as int)) ==> enc_wf(
            (final(out_buffer)@, *final(flag_idx) as int, *final(shift_idx) as int),
        ),
{
    proof {
        if enc_wf((out_buffer@, *flag_idx as int, *shift_idx as int)) {
            lemma_enc_bit_wf((out_buffer@, *flag_idx as int, *shift_idx as int), bit_val);
        }
    }
    let next: i8 = *shift_idx - 1;
    if next < 0 {
        *shift_idx = 7;
        out_buffer.push(0);
        *flag_idx = out_buffer.len() - 1;
    } else {
        *shift_idx = next;
    }
    if bit_val == 1 {
        let k: u8 = *shift_idx as u8;
        let cur: u8 = out_buffer[*flag_idx];
        assert(0u8 | (1u8 << 7u8) == 0x80u8) by (bit_vector);
        out_buffer.set(*flag_idx, cur | (1u8 << k));
    }
    assert(out_buffer@ =~= enc_bit(
        (old(out_buffer)@, *old(flag_idx) as int, *old(shift_idx) as int),
        bit_val,
    ).0);
}

/// What the table of filed positions holds while the encoder stands at `upto`:
/// each key leads to an earlier place where three bytes with that key begin.
pub open spec fn dict_ok(dict: Map<u32, usize>, data: Seq<u8>, upto: int) -> bool {
    forall|h: u32| #[trigger]
        dict.contains_key(h) ==> dict[h] < upto && dict[h] + 3 <= data.len() && hash3(
            data.subrange(dict[h] as int, dict[h] + 3),
        ) == h
}

/// The table of filed positions after position `p` has been passed: `p` is filed
/// under the key of its three bytes, unless it is one of the first three positions
/// or fewer than three bytes are left; and the entry of the position 8192 back is
/// dropped if it is still the one filed under its key.
pub open spec fn dict_step(dict: Map<u32, usize>, data: Seq<u8>, p: int) -> Map<u32, usize> {
    let filed = if p >= 3 && p + 3 <= data.len() {
        dict.insert(hash3(data.subrange(p, p + 3)) as u32, p as usize)
    } else {
        dict
    };
    let old_hash = hash3(data.subrange(p - WINDOW, p - WINDOW + 3)) as u32;
    if p >= WINDOW && filed.contains_key(old_hash) && filed[old_hash] == p - WINDOW {
        filed.remove(old_hash)
    } else {
        filed
    }
}

/// The table of filed positions when the encoder stands at position `i`.
pub open spec fn dict_at(data: Seq<u8>, i: nat) -> Map<u32, usize>
    decreases i,
{
    if i == 0 {
        Map::empty()
    } else {
        dict_step(dict_at(data, (i - 1) as nat), data, i - 1)
    }
}

/// How far `a` from `ai` and `b` from `bi` agree.
pub open spec fn match_len(a: Seq<u8>, ai: int, b: Seq<u8>, bi: int) -> nat
    decreases a.len() - ai,
{
    if 0 <= ai < a.len() && 0 <= bi < b.len() && a[ai] == b[bi] {
        1 + match_len(a, ai + 1, b, bi + 1)
    } else {
        0
    }
}

/// The agreement ends where one of the two ends.
pub proof fn lemma_match_len_bound(a: Seq<u8>, ai: int, b: Seq<u8>, bi: int)
    requires
        bi <= b.len(),
    ensures
        bi + match_len(a, ai, b, bi) <= b.len(),
    decreases a.len() - ai,
{
    if 0 <= ai < a.len() && 0 <= bi < b.len() && a[ai] == b[bi] {
        lemma_match_len_bound(a, ai + 1, b, bi + 1);
    }
}

/// A back-reference that the encoder takes covers at least three bytes and stays
/// inside the buffer.
pub proof fn lemma_lz_choice_len(data: Seq<u8>, i: int)
    requires
        0 <= i < data.len(),
    ensures
        lz_choice(data, i) matches Some((_, len)) ==> 3 <= len && i + len <= data.len(),
{
    let ahead = if data.len() - i < MAX_MATCH {
        data.len() - i
    } else {
        MAX_MATCH as int
    };
    let current = data.subrange(i, i + ahead);
    if current.len() >= 3 {
        let dict = dict_at(data, i as nat);
        let key = hash3(current.take(3)) as u32;
        if dict.contains_key(key) {
            lemma_match_len_bound(data, dict[key] + 3, current, 3);
        }
    }
}

/// The agreement that was measured is the agreement.
pub proof fn lemma_match_len(a: Seq<u8>, ai: int, b: Seq<u8>, bi: int, e: int)
    requires
        0 <= ai,
        0 <= bi,
        common_extension(a, ai, b, bi, e),
    ensures
        e == match_len(a, ai, b, bi),
    decreases e,
{
    if e > 0 {
        assert(a[ai + 0] == b[bi + 0]);
        assert forall|t: int| 0 <= t < e - 1 implies #[trigger] a[ai + 1 + t] == b[bi + 1 + t] by {
            assert(a[ai + (t + 1)] == b[bi + (t + 1)]);
        }
        lemma_match_len(a, ai + 1, b, bi + 1, e - 1);
    }
}

/// The back-reference that the encoder takes at position `i`, as offset and
/// length: the place last filed under the key of the next three bytes, if it lies
/// in the window, and the agreement from there, of at most 280 bytes. `None`
/// where a literal is written.
pub open spec fn lz_choice(data: Seq<u8>, i: int) -> Option<(int, int)> {
    let ahead = if data.len() - i < MAX_MATCH {
        data.len() - i
    } else {
        MAX_MATCH as int
    };
    let current = data.subrange(i, i + ahead);
    let key = hash3(current.take(3)) as u32;
    let dict = dict_at(data, i as nat);
    if current.len() < 3 || !dict.contains_key(key) {
        None
    } else if dict[key] < i && i - dict[key] - 1 < WINDOW - 1 {
        Some((i - dict[key] - 1, 3 + match_len(data, dict[key] + 3, current, 3) as int))
    } else {
        None
    }
}

/// The stream when the encoder goes on from position `i` in state `s`: at each
/// position the back-reference that `lz_choice` gives is written in its shortest
/// form, or a literal where it gives none.
pub open spec fn lz_encode_from(data: Seq<u8>, i: int, s: EncState) -> EncState
    decreases data.len() - i,
{
    if i < 0 || i >= data.len() {
        s
    } else {
        proof {
            lemma_lz_choice_len(data, i);
        }
        match lz_choice(data, i) {
            None => lz_encode_from(data, i + 1, enc_literal(s, data[i])),
            Some((offset, len)) => lz_encode_from(data, i + len, enc_backref(s, offset, len)),
        }
    }
}

/// The LZ stream of `data`.
pub open spec fn lz_encode(data: Seq<u8>) -> Seq<u8> {
    lz_encode_from(data, 0, enc_start()).0
}

/// Files position `p` under the key of its three bytes, and drops the entry of the
/// position that has just left the window if it is still the one filed.
fn update_dict(dict: &mut HashMap<u32, usize>, data: &[u8], p: usize)
    requires
        p < data.len(),
    ensures
        final(dict)@ == dict_step(old(dict)@, data@, p as int),
{
    if p >= 3 && data.len() - p >= 3 {
        let hash: u32 = calculate_hash(slice_subrange(data, p, p + 3));
        dict.insert(hash, p);
    }
    if p >= WINDOW {
        let old_pos: usize = p - WINDOW;
        let old_hash: u32 = calculate_hash(slice_subrange(data, old_pos, old_pos + 3));
        let stale: bool = match dict.get(&old_hash) {
            Some(index) => *index == old_pos,
            None => false,
        };
        if stale {
            dict.remove(&old_hash);
        }
    }
}

/// Writes a literal: control bit 0, then the byte.
fn emit_literal(out: &mut Vec<u8>, flag_idx: &mut usize, shift_idx: &mut i8, v: u8)
    requires
        enc_wf((old(out)@, *old(flag_idx) as int, *old(shift_idx) as int)),
    ensures
        (final(out)@, *final(flag_idx) as int, *final(shift_idx) as int) == enc_literal(
            (old(out)@, *old(flag_idx) as int, *old(shift_idx) as int),
            v,
        ),
{
    set_bit_flag(out, flag_idx, shift_idx, 0);
    out.push(v);
}

/// Writes a back-reference in the shortest form that holds it.
fn emit_backref(
    out: &mut Vec<u8>,
    flag_idx: &mut usize,
    shift_idx: &mut i8,
    offset: usize,
    length: usize,
)
    requires
        enc_wf((old(out)@, *old(flag_idx) as int, *old(shift_idx) as int)),
        offset < 8192,
        3 <= length <= 280,
    ensures
        (final(out)@, *final(flag_idx) as int, *final(shift_idx) as int) == enc_backref(
            (old(out)@, *old(flag_idx) as int, *old(shift_idx) as int),
            offset as int,
            length as int,
        ),
{
    set_bit_flag(out, flag_idx, shift_idx, 1);
    if offset < 256 && length <= 6 {
        set_bit_flag(out, flag_idx, shift_idx, 0);
        let code: u8 = (length - 3) as u8;
        set_bit_flag(out, flag_idx, shift_idx, code / 2);
        set_bit_flag(out, flag_idx, shift_idx, code % 2);
        out.push(offset as u8);
    } else if length <= 9 {
        set_bit_flag(out, flag_idx, shift_idx, 1);
        let high: u8 = ((length - 2) * 32 + offset / 256) as u8;
        out.push(high);
        out.push((offset % 256) as u8);
    } else {
        set_bit_flag(out, flag_idx, shift_idx, 1);
        out.push((offset / 256) as u8);
        out.push((offset % 256) as u8);
        if length <= 25 {
            set_bit_flag(out, flag_idx, shift_idx, 0);
            let code: u8 = (length - 10) as u8;
            set_bit_flag(out, flag_idx, shift_idx, code / 8 % 2);
            set_bit_flag(out, flag_idx, shift_idx, code / 4 % 2);
            set_bit_flag(out, flag_idx, shift_idx, code / 2 % 2);
            set_bit_flag(out, flag_idx, shift_idx, code % 2);
        } else {
            set_bit_flag(out, flag_idx, shift_idx, 1);
            out.push((length - 26) as u8);
        }
    }
}

/// The form in which a back-reference is written: the shortest that holds its
/// offset and length.
pub open spec fn enc_backref(s: EncState, offset: int, len: int) -> EncState {
    if offset < 256 && len <= 6 {
        enc_short(s, offset, len)
    } else if len <= 9 {
        enc_long(s, offset, len)
    } else if len <= 25 {
        enc_ext4(s, offset, len)
    } else {
        enc_ext8(s, offset, len)
    }
}

/// The decoder reads back a back-reference, whatever its form.
proof fn lemma_enc_backref(s: EncState, offset: int, len: int, f: Seq<u8>, out: Seq<u8>)
    requires
        enc_wf(s),
        0 <= offset < 8192,
        3 <= len <= 280,
        offset < out.len(),
        compat(enc_backref(s, offset, len), f),
    ensures
        enc_wf(enc_backref(s, offset, len)),
        compat(s, f),
        super::lz_spec::lz_token(f, dec_state(s, f), out) == Ok::<
            (super::lz_spec::BitState, Seq<u8>),
            JpkError,
        >((dec_state(enc_backref(s, offset, len), f), lz_copy(out, offset, len as nat))),
{
    if offset < 256 && len <= 6 {
        lemma_enc_short(s, offset, len, f, out);
    } else if len <= 9 {
        lemma_enc_long(s, offset, len, f, out);
    } else if len <= 25 {
        lemma_enc_ext4(s, offset, len, f, out);
    } else {
        lemma_enc_ext8(s, offset, len, f, out);
    }
}

/// Writing a token keeps the state well formed.
proof fn lemma_enc_token_wf(s: EncState, v: u8, offset: int, len: int)
    requires
        enc_wf(s),
    ensures
        enc_wf(enc_literal(s, v)),
        enc_wf(enc_backref(s, offset, len)),
{
    lemma_enc_bit_wf(s, 0);
    let s1 = enc_bit(s, 1);
    lemma_enc_bit_wf(s, 1);
    lemma_enc_bit_wf(s1, 0);
    lemma_enc_bit_wf(s1, 1);
    let s2 = enc_bit(s1, 0);
    let s3 = enc_bit(s2, ((len - 3) / 2) as u8);
    lemma_enc_bit_wf(s2, ((len - 3) / 2) as u8);
    lemma_enc_bit_wf(s3, ((len - 3) % 2) as u8);
    let h = enc_long_head(s, offset, 0);
    lemma_enc_bit_wf(h, 0);
    lemma_enc_bit_wf(h, 1);
    let v4 = len - 10;
    let a0 = enc_bit(h, 0);
    let a1 = enc_bit(a0, (v4 / 8 % 2) as u8);
    let a2 = enc_bit(a1, (v4 / 4 % 2) as u8);
    let a3 = enc_bit(a2, (v4 / 2 % 2) as u8);
    lemma_enc_bit_wf(a0, (v4 / 8 % 2) as u8);
    lemma_enc_bit_wf(a1, (v4 / 4 % 2) as u8);
    lemma_enc_bit_wf(a2, (v4 / 2 % 2) as u8);
    lemma_enc_bit_wf(a3, (v4 % 2) as u8);
}

/// Any stream that agrees with the state `s` decodes, up to where `s` ends, to the
/// first `i` bytes of `input`.
pub open spec fn decodes_so_far(input: Seq<u8>, s: EncState, i: int) -> bool {
    forall|f: Seq<u8>| #[trigger]
        compat(s, f) ==> lz_decode(f, input.len()) == lz_run(
            f,
            dec_state(s, f),
            input.take(i),
            input.len(),
        )
}

/// Before anything is written, nothing has been decoded.
proof fn lemma_decodes_start(input: Seq<u8>)
    ensures
        decodes_so_far(input, enc_start(), 0),
{
    assert(input.take(0) =~= Seq::<u8>::empty());
    assert forall|f: Seq<u8>| #[trigger] compat(enc_start(), f) implies lz_decode(f, input.len())
        == lz_run(f, dec_state(enc_start(), f), input.take(0), input.len()) by {
        let d = dec_state(enc_start(), f);
        lemma_run_fresh(f, 0, d.1, 0, Seq::empty(), input.len());
    }
}

/// When all is written, the stream decodes to the input.
proof fn lemma_decodes_end(input: Seq<u8>, s: EncState)
    requires
        decodes_so_far(input, s, input.len() as int),
    ensures
        lz_decode(s.0, input.len()) == Ok::<Seq<u8>, JpkError>(input),
{
    assert(compat(s, s.0));
    assert(input.take(input.len() as int) =~= input);
}

/// Writing the next byte as a literal keeps the stream decoding to the input.
proof fn lemma_literal_step(input: Seq<u8>, s: EncState, i: int)
    requires
        0 <= i < input.len(),
        enc_wf(s),
        decodes_so_far(input, s, i),
    ensures
        enc_wf(enc_literal(s, input[i])),
        enc_literal(s, input[i]).0.len() <= s.0.len() + 2,
        decodes_so_far(input, enc_literal(s, input[i]), i + 1),
{
    let v = input[i];
    let s1 = enc_literal(s, v);
    lemma_enc_token_wf(s, v, 0, 0);
    lemma_enc_token_len(s, v, 0, 0);
    assert(input.take(i).push(v) =~= input.take(i + 1));
    assert forall|f: Seq<u8>| #[trigger] compat(s1, f) implies lz_decode(f, input.len())
        == lz_run(f, dec_state(s1, f), input.take(i + 1), input.len()) by {
        lemma_enc_literal(s, v, f, input.take(i));
        lemma_run_step(
            f,
            dec_state(s, f),
            input.take(i),
            dec_state(s1, f),
            input.take(i + 1),
            input.len(),
        );
    }
}

/// The input repeats itself at `i`: the `len` bytes from there are those from
/// `offset + 1` places back.
pub open spec fn repeats(input: Seq<u8>, i: int, offset: int, len: int) -> bool {
    &&& 0 <= offset < i
    &&& i + len <= input.len()
    &&& forall|k: int| i <= k < i + len ==> #[trigger] input[k] == input[k - offset - 1]
}

/// Writing a back-reference to a place where the input repeats itself keeps the
/// stream decoding to the input.
proof fn lemma_backref_step(input: Seq<u8>, s: EncState, i: int, offset: int, len: int)
    requires
        0 <= i < input.len(),
        enc_wf(s),
        decodes_so_far(input, s, i),
        offset < 8192,
        3 <= len <= 280,
        repeats(input, i, offset, len),
    ensures
        enc_wf(enc_backref(s, offset, len)),
        enc_backref(s, offset, len).0.len() <= s.0.len() + 4,
        decodes_so_far(input, enc_backref(s, offset, len), i + len),
{
    let s1 = enc_backref(s, offset, len);
    lemma_enc_token_wf(s, 0, offset, len);
    lemma_enc_token_len(s, 0, offset, len);
    lemma_copy_match(input, i, offset, len as nat);
    assert forall|f: Seq<u8>| #[trigger] compat(s1, f) implies lz_decode(f, input.len())
        == lz_run(f, dec_state(s1, f), input.take(i + len), input.len()) by {
        lemma_enc_backref(s, offset, len, f, input.take(i));
        lemma_run_step(
            f,
            dec_state(s, f),
            input.take(i),
            dec_state(s1, f),
            input.take(i + len),
            input.len(),
        );
    }
}

/// Passing a position keeps the table of filed positions sound.
proof fn lemma_dict_step_ok(dict: Map<u32, usize>, data: Seq<u8>, p: int)
    requires
        0 <= p < data.len(),
        p <= usize::MAX,
        dict_ok(dict, data, p),
    ensures
        dict_ok(dict_step(dict, data, p), data, p + 1),
{
    let next = dict_step(dict, data, p);
    assert forall|h: u32| #[trigger] next.contains_key(h) implies next[h] < p + 1 && next[h] + 3
        <= data.len() && hash3(data.subrange(next[h] as int, next[h] + 3)) == h by {
        if !(dict.contains_key(h) && dict[h] == next[h]) {
            assert(p >= 3 && p + 3 <= data.len());
            assert(h == hash3(data.subrange(p, p + 3)) as u32);
            assert(next[h] == p);
        }
    }
}

/// The table of filed positions is sound at every position.
pub proof fn lemma_dict_at_ok(data: Seq<u8>, i: nat)
    requires
        i <= data.len(),
        data.len() <= usize::MAX,
    ensures
        dict_ok(dict_at(data, i), data, i as int),
    decreases i,
{
    if i > 0 {
        lemma_dict_at_ok(data, (i - 1) as nat);
        lemma_dict_step_ok(dict_at(data, (i - 1) as nat), data, i - 1);
    }
}

/// As far as the agreement goes, the bytes agree.
pub proof fn lemma_match_len_agrees(a: Seq<u8>, ai: int, b: Seq<u8>, bi: int, t: int)
    requires
        0 <= ai,
        0 <= bi,
        0 <= t < match_len(a, ai, b, bi),
    ensures
        ai + t < a.len(),
        bi + t < b.len(),
        a[ai + t] == b[bi + t],
    decreases t,
{
    if t > 0 {
        lemma_match_len_agrees(a, ai + 1, b, bi + 1, t - 1);
    }
}

/// Where the encoder takes a back-reference, the input repeats itself.
pub proof fn lemma_lz_choice_repeats(data: Seq<u8>, i: int)
    requires
        0 <= i < data.len(),
        data.len() <= usize::MAX,
    ensures
        lz_choice(data, i) matches Some((offset, len)) ==> offset < 8192 && 3 <= len <= 280
            && repeats(data, i, offset, len),
{
    let ahead = if data.len() - i < MAX_MATCH {
        data.len() - i
    } else {
        MAX_MATCH as int
    };
    let current = data.subrange(i, i + ahead);
    if let Some((offset, len)) = lz_choice(data, i) {
        let key = hash3(current.take(3)) as u32;
        let dict = dict_at(data, i as nat);
        let start = dict[key] as int;
        lemma_dict_at_ok(data, i as nat);
        lemma_match_len_bound(data, start + 3, current, 3);
        let there = data.subrange(start, start + 3);
        lemma_hash3_injective(current.take(3), there);
        assert forall|k: int| i <= k < i + len implies #[trigger] data[k] == data[k - offset
            - 1] by {
            let t = k - i;
            if t < 3 {
                assert(current.take(3)[t] == there[t]);
            } else {
                lemma_match_len_agrees(data, start + 3, current, 3, t - 3);
            }
        }
    }
}

/// Going on from a state whose stream decodes to the input so far gives a stream
/// that decodes to the whole input.
proof fn lemma_encode_from(data: Seq<u8>, i: int, s: EncState)
    requires
        0 <= i <= data.len(),
        data.len() <= usize::MAX,
        enc_wf(s),
        decodes_so_far(data, s, i),
    ensures
        decodes_so_far(data, lz_encode_from(data, i, s), data.len() as int),
    decreases data.len() - i,
{
    if i < data.len() {
        lemma_lz_choice_len(data, i);
        lemma_lz_choice_repeats(data, i);
        match lz_choice(data, i) {
            None => {
                lemma_literal_step(data, s, i);
                lemma_encode_from(data, i + 1, enc_literal(s, data[i]));
            },
            Some((offset, len)) => {
                lemma_backref_step(data, s, i, offset, len);
                lemma_encode_from(data, i + len, enc_backref(s, offset, len));
            },
        }
    }
}

/// Decoding the LZ stream of a buffer with the buffer's length gives the buffer
/// back.
pub proof fn lemma_lz_round_trip(data: Seq<u8>)
    requires
        data.len() <= usize::MAX,
    ensures
        lz_decode(lz_encode(data), data.len()) == Ok::<Seq<u8>, JpkError>(data),
{
    lemma_decodes_start(data);
    lemma_encode_from(data, 0, enc_start());
    lemma_decodes_end(data, lz_encode_from(data, 0, enc_start()));
}

/// Looks for the back-reference to take at position `i`.
fn choose_match(decoded_buffer: &[u8], pattern_dict: &HashMap<u32, usize>, i: usize) -> (r: Option<
    (usize, usize),
>)
    requires
        i < decoded_buffer.len(),
        pattern_dict@ == dict_at(decoded_buffer@, i as nat),
    ensures
        match r {
            None => lz_choice(decoded_buffer@, i as int) is None,
            Some((offset, length)) => lz_choice(decoded_buffer@, i as int) == Some(
                (offset as int, length as int),
            ) && offset < 8192 && 3 <= length <= 280 && i + length <= decoded_buffer.len(),
        },
{
    proof {
        lemma_dict_at_ok(decoded_buffer@, i as nat);
        lemma_lz_choice_len(decoded_buffer@, i as int);
        lemma_lz_choice_repeats(decoded_buffer@, i as int);
    }
    let total: usize = decoded_buffer.len();
    let max_search_len: usize = if total - i < MAX_MATCH {
        total - i
    } else {
        MAX_MATCH
    };
    let current = slice_subrange(decoded_buffer, i, i + max_search_len);
    match find_longest_match(decoded_buffer, pattern_dict, current, 3) {
        None => None,
        Some((match_start_idx, length)) => {
            proof {
                lemma_match_len(decoded_buffer@, match_start_idx + 3, current@, 3, length - 3);
            }
            if match_start_idx < i && i - match_start_idx - 1 < WINDOW - 1 {
                Some((i - match_start_idx - 1, length))
            } else {
                None
            }
        },
    }
}

/// Files the positions from `from` up to `upto`.
fn update_dict_range(dict: &mut HashMap<u32, usize>, data: &[u8], from: usize, upto: usize)
    requires
        from <= upto <= data.len(),
        old(dict)@ == dict_at(data@, from as nat),
    ensures
        final(dict)@ == dict_at(data@, upto as nat),
{
    let mut p: usize = from;
    while p < upto
        invariant
            from <= p <= upto <= data.len(),
            dict@ == dict_at(data@, p as nat),
        decreases upto - p,
    {
        update_dict(dict, data, p);
        p = p + 1;
    }
}

/// Compresses `decoded_buffer` into an LZ stream: at each position a
/// back-reference to the place last filed under the next three bytes is written
/// if there is one in the window, else a literal. Decoding the stream with the
/// buffer's length gives the buffer back. The stream is at most twice as long as
/// the buffer.
pub fn encode_jpk_lz(decoded_buffer: &[u8]) -> (out_buffer: Vec<u8>)
    ensures
        out_buffer@ == lz_encode(decoded_buffer@),
        lz_decode(out_buffer@, decoded_buffer@.len()) == Ok::<Seq<u8>, JpkError>(
            decoded_buffer@,
        ),
        out_buffer@.len() <= 2 * decoded_buffer@.len(),
{
    let mut out_buffer: Vec<u8> = Vec::new();
    let mut flag_idx: usize = 0;
    let mut shift_idx: i8 = 0;
    let mut pattern_dict: HashMap<u32, usize> = HashMap::new();
    let ghost input: Seq<u8> = decoded_buffer@;
    let mut i: usize = 0;
    while i < decoded_buffer.len()
        invariant
            input == decoded_buffer@,
            i <= decoded_buffer.len(),
            out_buffer@.len() <= 2 * i,
            enc_wf((out_buffer@, flag_idx as int, shift_idx as int)),
            pattern_dict@ == dict_at(input, i as nat),
            lz_encode_from(input, 0, enc_start()) == lz_encode_from(
                input,
                i as int,
                (out_buffer@, flag_idx as int, shift_idx as int),
            ),
        decreases decoded_buffer.len() - i,
    {
        let ghost s0: EncState = (out_buffer@, flag_idx as int, shift_idx as int);
        match choose_match(decoded_buffer, &pattern_dict, i) {
            None => {
                proof {
                    lemma_enc_token_wf(s0, input[i as int], 0, 0);
                    lemma_enc_token_len(s0, input[i as int], 0, 0);
                }
                emit_literal(&mut out_buffer, &mut flag_idx, &mut shift_idx, decoded_buffer[i]);
                update_dict(&mut pattern_dict, decoded_buffer, i);
                i = i + 1;
            },
            Some((relative_offset, length)) => {
                proof {
                    lemma_enc_token_wf(s0, 0, relative_offset as int, length as int);
                    lemma_enc_token_len(s0, 0, relative_offset as int, length as int);
                }
                emit_backref(
                    &mut out_buffer,
                    &mut flag_idx,
                    &mut shift_idx,
                    relative_offset,
                    length,
                );
                update_dict_range(&mut pattern_dict, decoded_buffer, i, i + length);
                i = i + length;
            },
        }
    }
    proof {
        lemma_lz_round_trip(input);
    }
    out_buffer
}

} // verus!
