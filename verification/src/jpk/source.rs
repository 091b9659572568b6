//! Where a decoder takes its bytes from.

use vstd::prelude::*;

verus! {

/// A source of bytes that is read front to back.
pub trait ByteSource {
    /// The source is in a consistent state.
    spec fn wf(&self) -> bool;

    /// The bytes that are still to come, in order.
    spec fn remaining(&self) -> Seq<u8>;

    /// Takes the next byte, or reports that none is left.
    fn next_byte(&mut self) -> (r: Option<u8>)
        requires
            old(self).wf(),
        ensures
            final(self).wf(),
            old(self).remaining().len() == 0 ==> r is None,
            old(self).remaining().len() > 0 ==> r == Some(old(self).remaining()[0])
                && final(self).remaining() == old(self).remaining().skip(1),
    ;
}

/// A read position in a byte slice.
pub struct ByteCursor<'a> {
    buf: &'a [u8],
    pos: usize,
}

impl<'a> ByteCursor<'a> {
    /// The slice that is read.
    pub closed spec fn buffer(&self) -> Seq<u8> {
        self.buf@
    }

    /// The number of bytes already read.
    pub closed spec fn spec_position(&self) -> int {
        self.pos as int
    }

    /// A cursor at the start of `buf`.
    pub fn new(buf: &'a [u8]) -> (r: Self)
        ensures
            r.wf(),
            r.buffer() == buf@,
            r.spec_position() == 0,
            r.remaining() == buf@,
    {
        let r = ByteCursor { buf, pos: 0 };
        assert(buf@.skip(0) =~= buf@);
        r
    }

    /// The number of bytes already read.
    pub fn position(&self) -> (r: usize)
        ensures
            r as int == self.spec_position(),
    {
        self.pos
    }

    /// Takes the next byte, or `None` at the end of the slice.
    pub fn read_u8(&mut self) -> (r: Option<u8>)
        requires
            old(self).wf(),
        ensures
            final(self).wf(),
            final(self).buffer() == old(self).buffer(),
            old(self).spec_position() >= old(self).buffer().len() ==> r is None
                && final(self).spec_position() == old(self).spec_position(),
            old(self).spec_position() < old(self).buffer().len() ==> r == Some(
                old(self).buffer()[old(self).spec_position()],
            ) && final(self).spec_position() == old(self).spec_position() + 1,
    {
        if self.pos < self.buf.len() {
            let b: u8 = self.buf[self.pos];
            self.pos = self.pos + 1;
            Some(b)
        } else {
            None
        }
    }
}

impl<'a> ByteSource for ByteCursor<'a> {
    closed spec fn wf(&self) -> bool {
        self.pos <= self.buf@.len()
    }

    closed spec fn remaining(&self) -> Seq<u8> {
        self.buf@.skip(self.pos as int)
    }

    fn next_byte(&mut self) -> (r: Option<u8>) {
        let ghost before = self.buf@.skip(self.pos as int);
        let r = self.read_u8();
        proof {
            if r is Some {
                assert(self.buf@.skip(self.pos as int) =~= before.skip(1));
            }
        }
        r
    }
}

} // verus!
