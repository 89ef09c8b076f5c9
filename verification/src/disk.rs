//! A block device held in memory, with a cursor.

use crate::bytes::{copy_into, copy_range, le32, put32, read_u32, splice, write_u32};
use crate::error::Ext2Error;
use vstd::prelude::*;

verus! {

/// The bytes of a device and the position of the next transfer.
pub struct Disk {
    data: Vec<u8>,
    pos: u64,
}

impl View for Disk {
    type V = Seq<u8>;

    closed spec fn view(&self) -> Seq<u8> {
        self.data@
    }
}

impl Disk {
    /// Where the next transfer starts.
    pub closed spec fn cursor(&self) -> int {
        self.pos as int
    }

    /// A device over `data`, positioned at its start.
    pub fn new(data: Vec<u8>) -> (d: Disk)
        ensures
            d@ == data@,
            d.cursor() == 0,
    {
        Disk { data, pos: 0 }
    }

    /// The number of bytes on the device.
    pub fn size(&self) -> (n: usize)
        ensures
            n == self@.len(),
    {
        self.data.len()
    }

    /// Where the next transfer starts.
    pub fn position(&self) -> (p: u64)
        ensures
            p == self.cursor(),
    {
        self.pos
    }

    /// Moves the cursor; the bytes stay.
    pub fn set_position(&mut self, pos: u64)
        ensures
            final(self)@ == old(self)@,
            final(self).cursor() == pos,
    {
        self.pos = pos;
    }

    /// Fills `buf` from the cursor on and moves the cursor past what was read.
    /// A transfer that would pass the end of the device fails and changes nothing.
    pub fn read_exact(&mut self, buf: &mut Vec<u8>) -> (r: Result<(), Ext2Error>)
        ensures
            final(self)@ == old(self)@,
            final(buf)@.len() == old(buf)@.len(),
            match r {
                Ok(_) => {
                    &&& old(self).cursor() + old(buf)@.len() <= old(self)@.len()
                    &&& final(buf)@ == old(self)@.subrange(
                        old(self).cursor(),
                        old(self).cursor() + old(buf)@.len(),
                    )
                    &&& final(self).cursor() == old(self).cursor() + old(buf)@.len()
                },
                Err(e) => {
                    &&& e == Ext2Error::IoError
                    &&& old(self).cursor() + old(buf)@.len() > old(self)@.len()
                    &&& final(buf)@ == old(buf)@
                    &&& final(self).cursor() == old(self).cursor()
                },
            },
    {
        let n = buf.len();
        let size = self.data.len();
        if self.pos > size as u64 || n > size - (self.pos as usize) {
            return Err(Ext2Error::IoError);
        }
        let start = self.pos as usize;
        let mut i: usize = 0;
        while i < n
            invariant
                i <= n,
                n == buf@.len(),
                start + n <= self.data@.len(),
                self.data@.len() == size,
                self.data@ == old(self).data@,
                self.pos == old(self).pos,
                start == self.pos,
                forall|j: int| 0 <= j < i ==> buf@[j] == self.data@[start + j],
            decreases n - i,
        {
            buf[i] = self.data[start + i];
            i = i + 1;
        }
        assert(buf@ =~= self.data@.subrange(start as int, start + n));
        self.pos = self.pos + n as u64;
        Ok(())
    }

    /// Stores `buf` from the cursor on and moves the cursor past what was written.
    /// A transfer that would pass the end of the device fails and changes nothing.
    pub fn write_exact(&mut self, buf: &[u8]) -> (r: Result<(), Ext2Error>)
        ensures
            match r {
                Ok(_) => {
                    &&& old(self).cursor() + buf@.len() <= old(self)@.len()
                    &&& final(self)@ == splice(old(self)@, old(self).cursor(), buf@)
                    &&& final(self).cursor() == old(self).cursor() + buf@.len()
                },
                Err(e) => {
                    &&& e == Ext2Error::IoError
                    &&& old(self).cursor() + buf@.len() > old(self)@.len()
                    &&& final(self)@ == old(self)@
                    &&& final(self).cursor() == old(self).cursor()
                },
            },
    {
        let n = buf.len();
        let size = self.data.len();
        if self.pos > size as u64 || n > size - (self.pos as usize) {
            return Err(Ext2Error::IoError);
        }
        let start = self.pos as usize;
        copy_into(&mut self.data, start, buf);
        self.pos = self.pos + n as u64;
        Ok(())
    }

    /// A copy of `len` bytes that start at `off`; the cursor stays.
    pub fn load(&self, off: usize, len: usize) -> (r: Vec<u8>)
        requires
            off + len <= self@.len(),
        ensures
            r@ == self@.subrange(off as int, off + len),
    {
        copy_range(self.data.as_slice(), off, len)
    }

    /// Overwrites the bytes from `off` on with `data`; the cursor stays.
    pub fn store(&mut self, off: usize, data: &[u8])
        requires
            off + data@.len() <= old(self)@.len(),
        ensures
            final(self)@ == splice(old(self)@, off as int, data@),
            final(self).cursor() == old(self).cursor(),
    {
        copy_into(&mut self.data, off, data);
    }

    /// The byte at `off`.
    pub fn byte(&self, off: usize) -> (b: u8)
        requires
            off < self@.len(),
        ensures
            b == self@[off as int],
    {
        self.data[off]
    }

    /// Replaces the byte at `off`.
    pub fn set_byte(&mut self, off: usize, b: u8)
        requires
            off < old(self)@.len(),
        ensures
            final(self)@ == old(self)@.update(off as int, b),
            final(self).cursor() == old(self).cursor(),
    {
        self.data[off] = b;
    }

    /// The unsigned 32-bit number stored at `off`, low byte first.
    pub fn word(&self, off: usize) -> (w: u32)
        requires
            off + 4 <= self@.len(),
        ensures
            w == le32(self@, off as int),
    {
        read_u32(self.data.as_slice(), off)
    }

    /// Stores `w` at `off`, low byte first.
    pub fn set_word(&mut self, off: usize, w: u32)
        requires
            off + 4 <= old(self)@.len(),
        ensures
            final(self)@ == put32(old(self)@, off as int, w as int),
            final(self).cursor() == old(self).cursor(),
    {
        write_u32(&mut self.data, off, w);
    }

    /// Gives the bytes back.
    pub fn into_bytes(self) -> (v: Vec<u8>)
        ensures
            v@ == self@,
    {
        self.data
    }
}

} // verus!
