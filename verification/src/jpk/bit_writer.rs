//! Writing a bit stream, each byte from its highest bit down.

use super::lz_proof::low_clear;
use super::lz_spec::bit_at;
use vstd::prelude::*;

verus! {

/// Appends bits to a byte buffer. The byte that is being filled is kept aside
/// until it is full or the writer is flushed.
pub struct BitWriter {
    buffer: Vec<u8>,
    start: usize,
    current_byte: u8,
    shift_idx: i8,
}

proof fn lemma_set_bit(c: u8, b: u8, s: u8, t: u8, k: u8)
    by (bit_vector)
    requires
        1 <= s <= 8,
        t == s - 1,
        b <= 1,
        s < 8 ==> (c >> s) << s == c,
        s == 8 ==> c == 0,
        k < 8,
    ensures
        k > t ==> ((c | (b << t)) >> k) & 1 == (c >> k) & 1,
        ((c | (b << t)) >> t) & 1 == b,
        ((c | (b << t)) >> t) << t == c | (b << t),
        c | (0u8 << t) == c,
{
}

proof fn lemma_low_bits(c: u8, s: u8, k: u8)
    by (bit_vector)
    requires
        s <= 8,
        s < 8 ==> (c >> s) << s == c,
        s == 8 ==> c == 0,
        k < s,
    ensures
        (c >> k) & 1 == 0,
{
}

impl BitWriter {
    /// The bytes that the buffer holds now; the byte that is being filled is not
    /// among them.
    pub closed spec fn buffer_view(&self) -> Seq<u8> {
        self.buffer@
    }

    /// Where in the buffer the bit stream begins.
    pub closed spec fn start_view(&self) -> int {
        self.start as int
    }

    /// The number of bits written into the byte that is being filled.
    pub closed spec fn pending(&self) -> int {
        8 - self.shift_idx
    }

    /// The writer is in a consistent state.
    pub closed spec fn wf(&self) -> bool {
        &&& self.start <= self.buffer@.len()
        &&& 0 <= self.shift_idx <= 8
        &&& self.shift_idx == 8 ==> self.current_byte == 0
        &&& self.shift_idx < 8 ==> low_clear(self.current_byte, self.shift_idx as u8)
    }

    /// The bits written so far, in order, each 0 or 1.
    pub closed spec fn bits(&self) -> Seq<u8> {
        let stream = self.buffer@.push(self.current_byte);
        Seq::new(
            (8 * (self.buffer@.len() - self.start) + 8 - self.shift_idx) as nat,
            |k: int| bit_at(stream[self.start + k / 8], (7 - k % 8) as u8),
        )
    }

    /// A writer that appends its bit stream to `buffer`.
    pub fn new(buffer: Vec<u8>) -> (r: Self)
        ensures
            r.wf(),
            r.buffer_view() == buffer@,
            r.start_view() == buffer@.len(),
            r.bits() == Seq::<u8>::empty(),
            r.pending() == 0,
    {
        let start: usize = buffer.len();
        let r = BitWriter { buffer, start, current_byte: 0, shift_idx: 8 };
        assert(r.bits() =~= Seq::<u8>::empty());
        r
    }

    /// Writes one bit: 1 where `bit` is 1, else 0.
    pub fn write_bit(&mut self, bit: u8)
        requires
            old(self).wf(),
        ensures
            final(self).wf(),
            final(self).start_view() == old(self).start_view(),
            final(self).buffer_view().take(final(self).start_view()) == old(
                self,
            ).buffer_view().take(old(self).start_view()),
            final(self).bits() == old(self).bits().push(
                if bit == 1 {
                    1u8
                } else {
                    0u8
                },
            ),
    {
        let ghost b: u8 = if bit == 1 {
            1u8
        } else {
            0u8
        };
        let ghost old_stream = self.buffer@.push(self.current_byte);
        let ghost old_bits = self.bits();
        let next: i8 = self.shift_idx - 1;
        if next < 0 {
            self.buffer.push(self.current_byte);
            self.shift_idx = 7;
            self.current_byte = 0;
        } else {
            self.shift_idx = next;
        }
        let ghost mid: u8 = self.current_byte;
        if bit == 1 {
            self.current_byte = self.current_byte | (1u8 << (self.shift_idx as u8));
        }
        proof {
            let t: u8 = self.shift_idx as u8;
            let s: u8 = (t + 1) as u8;
            let stream = self.buffer@.push(self.current_byte);
            lemma_set_bit(mid, b, s, t, 0);
            assert(self.current_byte == mid | (b << t));
            assert(old(self).buffer@.take(self.start as int) =~= self.buffer@.take(
                self.start as int,
            ));
            let nb = self.bits();
            assert(nb.len() == old_bits.len() + 1);
            assert forall|k: int| 0 <= k < nb.len() implies nb[k] == old_bits.push(b)[k] by {
                let kk: u8 = (7 - k % 8) as u8;
                lemma_set_bit(mid, b, s, t, kk);
                if k < old_bits.len() {
                    if self.start + k / 8 < self.buffer@.len() {
                        assert(stream[self.start + k / 8] == old_stream[self.start + k / 8]);
                    } else {
                        assert(old_stream[self.start + k / 8] == mid);
                    }
                } else {
                    assert(kk == t);
                }
            }
            assert(nb =~= old_bits.push(b));
        }
    }

    /// Writes the lowest `num` bits of `bits`, the highest of them first.
    pub fn write_bits(&mut self, bits: u16, num: usize)
        requires
            old(self).wf(),
            num <= 16,
        ensures
            final(self).wf(),
            final(self).start_view() == old(self).start_view(),
            final(self).buffer_view().take(final(self).start_view()) == old(
                self,
            ).buffer_view().take(old(self).start_view()),
            final(self).bits() == old(self).bits() + bits_of(bits, num as int),
    {
        let mut i: usize = num;
        assert(self.bits() + bits_of(bits, num as int).take(0) =~= self.bits());
        while i > 0
            invariant
                i <= num <= 16,
                self.wf(),
                self.start_view() == old(self).start_view(),
                self.buffer_view().take(self.start_view()) == old(self).buffer_view().take(
                    old(self).start_view(),
                ),
                self.bits() == old(self).bits() + bits_of(bits, num as int).take(num - i),
            decreases i,
        {
            i = i - 1;
            let bit: u8 = ((bits >> (i as u16)) & 1) as u8;
            proof {
                let sh: u16 = i as u16;
                assert(((bits >> sh) & 1) <= 1) by (bit_vector);
            }
            self.write_bit(bit);
            proof {
                let all = bits_of(bits, num as int);
                assert(all[num - i - 1] == bit);
                assert(all.take(num - i) =~= all.take(num - i - 1).push(bit));
                assert(self.bits() =~= old(self).bits() + all.take(num - i));
            }
        }
        assert(bits_of(bits, num as int).take(num as int) =~= bits_of(bits, num as int));
    }

    /// Writes the code of `byte`.
    pub fn write_huff_byte(&mut self, byte: u8, code_map: &Vec<Vec<u8>>)
        requires
            old(self).wf(),
            code_map.len() == 256,
        ensures
            final(self).wf(),
            final(self).start_view() == old(self).start_view(),
            final(self).buffer_view().take(final(self).start_view()) == old(
                self,
            ).buffer_view().take(old(self).start_view()),
            final(self).bits() == old(self).bits() + normal_bits(code_map@[byte as int]@),
    {
        let code = &code_map[byte as usize];
        let mut i: usize = 0;
        assert(self.bits() + normal_bits(code@).take(0) =~= self.bits());
        while i < code.len()
            invariant
                i <= code.len(),
                code@ == code_map@[byte as int]@,
                self.wf(),
                self.start_view() == old(self).start_view(),
                self.buffer_view().take(self.start_view()) == old(self).buffer_view().take(
                    old(self).start_view(),
                ),
                self.bits() == old(self).bits() + normal_bits(code@).take(i as int),
            decreases code.len() - i,
        {
            self.write_bit(code[i]);
            proof {
                let all = normal_bits(code@);
                assert(all.take(i + 1) =~= all.take(i as int).push(all[i as int]));
                assert(self.bits() =~= old(self).bits() + all.take(i + 1));
            }
            i = i + 1;
        }
        assert(normal_bits(code@).take(code.len() as int) =~= normal_bits(code@));
    }

    /// Moves the byte that is being filled into the buffer, its unwritten bits
    /// zero. Does nothing where no bit is pending.
    pub fn flush(&mut self)
        requires
            old(self).wf(),
        ensures
            final(self).wf(),
            final(self).pending() == 0,
            final(self).start_view() == old(self).start_view(),
            final(self).buffer_view().take(final(self).start_view()) == old(
                self,
            ).buffer_view().take(old(self).start_view()),
            old(self).bits().len() <= final(self).bits().len() < old(self).bits().len() + 8,
            final(self).bits().take(old(self).bits().len() as int) == old(self).bits(),
            forall|k: int|
                old(self).bits().len() <= k < final(self).bits().len()
                    ==> #[trigger] final(self).bits()[k] == 0,
            final(self).buffer_view().len() == final(self).start_view() + (old(self).bits().len()
                + 7) / 8,
            final(self).bits().len() == 8 * (final(self).buffer_view().len()
                - final(self).start_view()),
            forall|k: int|
                0 <= k < final(self).bits().len() ==> #[trigger] final(self).bits()[k] == bit_at(
                    final(self).buffer_view()[final(self).start_view() + k / 8],
                    (7 - k % 8) as u8,
                ),
    {
        let ghost old_bits = self.bits();
        let ghost old_stream = self.buffer@.push(self.current_byte);
        if self.shift_idx != 8 {
            self.buffer.push(self.current_byte);
            self.current_byte = 0;
            self.shift_idx = 8;
        }
        proof {
            assert(old(self).buffer@.take(self.start as int) =~= self.buffer@.take(
                self.start as int,
            ));
            let nb = self.bits();
            let stream = self.buffer@.push(self.current_byte);
            assert forall|k: int| 0 <= k < old_bits.len() implies nb[k] == old_bits[k] by {
                assert(stream[self.start + k / 8] == old_stream[self.start + k / 8]);
            }
            assert(nb.take(old_bits.len() as int) =~= old_bits);
            assert forall|k: int| old_bits.len() <= k < nb.len() implies #[trigger] nb[k] == 0 by {
                let c = old(self).current_byte;
                lemma_low_bits(c, old(self).shift_idx as u8, (7 - k % 8) as u8);
                assert(stream[self.start + k / 8] == c);
            }
        }
    }

    /// Gives the buffer back; bits that are pending are lost.
    pub fn into_buffer(self) -> (r: Vec<u8>)
        ensures
            r@ == self.buffer_view(),
    {
        self.buffer
    }
}

/// The lowest `num` bits of `v`, the highest of them first.
pub open spec fn bits_of(v: u16, num: int) -> Seq<u8> {
    Seq::new(num as nat, |k: int| ((v >> ((num - 1 - k) as u16)) & 1) as u8)
}

/// The bits of a code as they are written: 1 for 1, 0 for anything else.
pub open spec fn normal_bits(code: Seq<u8>) -> Seq<u8> {
    Seq::new(
        code.len(),
        |k: int|
            if code[k] == 1 {
                1u8
            } else {
                0u8
            },
    )
}

} // verus!
