//! A read-only cursor over a byte slice.
use crate::error::DnsError;
use crate::wire::{be_i32, be_u16};
use vstd::prelude::*;
use vstd::slice::slice_subrange;

verus! {

/// A cursor over an immutable byte slice: the bytes, and the offset of the next
/// byte to read, which never exceeds their length.
#[derive(Debug)]
pub struct ByteBuffer<'a> {
    buf: &'a [u8],
    pos: usize,
}

impl<'a> ByteBuffer<'a> {
    /// The bytes under the cursor.
    pub closed spec fn data(&self) -> Seq<u8> {
        self.buf@
    }

    /// The offset of the next byte to read.
    pub closed spec fn position(&self) -> int {
        self.pos as int
    }

    /// The offset lies within the bytes or just past the last one.
    pub open spec fn wf(&self) -> bool {
        0 <= self.position() <= self.data().len()
    }

    /// The bytes from the cursor to the end.
    pub open spec fn rest(&self) -> Seq<u8> {
        self.data().subrange(self.position(), self.data().len() as int)
    }

    /// A cursor at the start of `buf`.
    pub fn from(buf: &'a [u8]) -> (r: ByteBuffer<'a>)
        ensures
            r.wf(),
            r.data() == buf@,
            r.position() == 0,
    {
        ByteBuffer { buf, pos: 0 }
    }

    /// The offset of the next byte to read.
    pub fn pos(&self) -> (r: usize)
        ensures
            r == self.position(),
    {
        self.pos
    }

    /// The byte at offset `pos`, if there is one; the cursor does not move.
    pub fn get(&self, pos: usize) -> (r: Option<u8>)
        ensures
            r == (if pos < self.data().len() {
                Some(self.data()[pos as int])
            } else {
                None::<u8>
            }),
    {
        match self.check_bounds(pos, 1) {
            Ok(()) => Some(self.buf[pos]),
            Err(_) => None,
        }
    }

    /// The next byte, if there is one; the cursor does not move.
    pub fn peek(&self) -> (r: Option<u8>)
        ensures
            r == (if self.position() < self.data().len() {
                Some(self.data()[self.position()])
            } else {
                None::<u8>
            }),
    {
        self.get(self.pos)
    }

    /// The next byte, if there is one; the cursor moves past it.
    pub fn read(&mut self) -> (r: Option<u8>)
        requires
            old(self).wf(),
        ensures
            final(self).wf(),
            final(self).data() == old(self).data(),
            r == (if old(self).position() < old(self).data().len() {
                Some(old(self).data()[old(self).position()])
            } else {
                None::<u8>
            }),
            final(self).position() == old(self).position() + (if r is Some {
                1int
            } else {
                0int
            }),
    {
        if self.pos < self.buf.len() {
            let value = self.buf[self.pos];
            self.pos = self.pos + 1;
            Some(value)
        } else {
            None
        }
    }

    /// Moves the cursor to offset `pos`, which must name a byte of the buffer.
    pub fn jump(&mut self, pos: usize) -> (r: Result<(), DnsError>)
        requires
            old(self).wf(),
        ensures
            final(self).wf(),
            final(self).data() == old(self).data(),
            r is Ok <==> pos < old(self).data().len(),
            r is Err ==> r == Err::<(), DnsError>(DnsError::OutOfBounds),
            final(self).position() == (if r is Ok {
                pos as int
            } else {
                old(self).position()
            }),
    {
        self.check_bounds(pos, 1)?;
        self.pos = pos;
        Ok(())
    }

    /// The next `len` bytes; the cursor moves past them. Fails, and leaves the
    /// cursor where it was, when fewer than `len` bytes remain.
    pub fn read_range(&mut self, len: usize) -> (r: Result<&'a [u8], DnsError>)
        requires
            old(self).wf(),
        ensures
            final(self).wf(),
            final(self).data() == old(self).data(),
            r is Ok <==> old(self).position() + len <= old(self).data().len(),
            r is Err ==> r == Err::<&'a [u8], DnsError>(DnsError::OutOfBounds),
            r is Ok ==> r->Ok_0@ == old(self).data().subrange(
                old(self).position(),
                old(self).position() + len,
            ),
            final(self).position() == old(self).position() + (if r is Ok {
                len as int
            } else {
                0int
            }),
    {
        self.check_bounds(self.pos, len)?;
        let slice = slice_subrange(self.buf, self.pos, self.pos + len);
        self.pos = self.pos + len;
        Ok(slice)
    }

    /// The next two bytes as a big-endian unsigned integer; the cursor moves past
    /// them.
    pub fn read_u16(&mut self) -> (r: Result<u16, DnsError>)
        requires
            old(self).wf(),
        ensures
            final(self).wf(),
            final(self).data() == old(self).data(),
            r is Ok <==> old(self).position() + 2 <= old(self).data().len(),
            r is Err ==> r == Err::<u16, DnsError>(DnsError::OutOfBounds),
            r is Ok ==> r->Ok_0 == be_u16(
                old(self).data()[old(self).position()],
                old(self).data()[old(self).position() + 1],
            ),
            final(self).position() == old(self).position() + (if r is Ok {
                2int
            } else {
                0int
            }),
    {
        let bytes = self.read_range(2)?;
        Ok((bytes[0] as u16) * 256 + bytes[1] as u16)
    }

    /// The next four bytes as a big-endian two's-complement integer; the cursor
    /// moves past them.
    pub fn read_i32(&mut self) -> (r: Result<i32, DnsError>)
        requires
            old(self).wf(),
        ensures
            final(self).wf(),
            final(self).data() == old(self).data(),
            r is Ok <==> old(self).position() + 4 <= old(self).data().len(),
            r is Err ==> r == Err::<i32, DnsError>(DnsError::OutOfBounds),
            r is Ok ==> r->Ok_0 == be_i32(
                old(self).data()[old(self).position()],
                old(self).data()[old(self).position() + 1],
                old(self).data()[old(self).position() + 2],
                old(self).data()[old(self).position() + 3],
            ),
            final(self).position() == old(self).position() + (if r is Ok {
                4int
            } else {
                0int
            }),
    {
        let bytes = self.read_range(4)?;
        let value: u32 = (bytes[0] as u32) * 0x100_0000 + (bytes[1] as u32) * 0x1_0000
            + (bytes[2] as u32) * 0x100 + bytes[3] as u32;
        Ok(value as i32)
    }

    /// Moves the cursor to offset `pos`, which may be just past the last byte.
    pub(crate) fn seek(&mut self, pos: usize)
        requires
            old(self).wf(),
            pos <= old(self).data().len(),
        ensures
            final(self).wf(),
            final(self).data() == old(self).data(),
            final(self).position() == pos,
    {
        self.pos = pos;
    }

    /// Succeeds exactly when the `count` bytes from offset `from` all lie in the
    /// buffer.
    fn check_bounds(&self, from: usize, count: usize) -> (r: Result<(), DnsError>)
        ensures
            r is Ok <==> from + count <= self.data().len(),
            r is Err ==> r == Err::<(), DnsError>(DnsError::OutOfBounds),
            self.data().len() <= usize::MAX,
    {
        if from > self.buf.len() {
            Err(DnsError::OutOfBounds)
        } else if count > self.buf.len() - from {
            Err(DnsError::OutOfBounds)
        } else {
            Ok(())
        }
    }
}

} // verus!
