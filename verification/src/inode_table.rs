//! The inode table: where the record of an inode lies, and reading and
//! writing it.

use crate::bytes::{same_outside, splice};
use crate::error::Ext2Error;
use crate::fs::Ext2FileSystem;
use crate::inode::Inode;
use crate::volume::{lemma_block_fits, lemma_inode_fits, Volume};
use vstd::prelude::*;

verus! {

impl Volume {
    /// The volume with the record of inode `n` replaced by that of `ino`.
    pub open spec fn with_record(self, n: int, ino: Inode) -> Volume {
        Volume { image: splice(self.image, self.inode_off(n), ino.spec_encode()), ..self }
    }
}

impl Ext2FileSystem {
    /// The group of inode `n` and the byte of its record within the group's
    /// inode table; `NotFound` where `n` is 0 or past the last inode.
    pub fn locate(&self, n: u32) -> (r: Result<(u32, u64), Ext2Error>)
        requires
            self.wf(),
        ensures
            match r {
                Ok((group, offset)) => {
                    &&& self@.inode_valid(n as int)
                    &&& group == (n - 1) / (self.superblock.inodes_per_group as int)
                    &&& offset == ((n - 1) % (self.superblock.inodes_per_group as int))
                        * self@.isz()
                    &&& group < self.groups@.len()
                },
                Err(e) => e == Ext2Error::NotFound && !self@.inode_valid(n as int),
            },
    {
        if n == 0 || n > self.superblock.inodes_count {
            return Err(Ext2Error::NotFound);
        }
        proof {
            lemma_inode_fits(self@, n as int);
        }
        let ipg = self.superblock.inodes_per_group;
        let isz = self.superblock.inode_record_size() as u64;
        let group = (n - 1) / ipg;
        let index = ((n - 1) % ipg) as u64;
        assert(index * isz <= 524288 * 65536) by (nonlinear_arith)
            requires
                index <= 524288,
                isz <= 65536,
        ;
        Ok((group, index * isz))
    }

    /// The byte on the device where the record of inode `n` begins.
    pub fn inode_offset(&self, n: u32) -> (off: usize)
        requires
            self.wf(),
            self@.inode_valid(n as int),
        ensures
            off == self@.inode_off(n as int),
            off + 128 <= self.dev@.len(),
            self.dev@.len() <= usize::MAX,
    {
        proof {
            lemma_inode_fits(self@, n as int);
        }
        let total = self.dev.size();
        match self.locate(n) {
            Ok((group, offset)) => {
                let table = self.groups[group as usize].inode_table;
                proof {
                    lemma_block_fits(self@, table as int);
                }
                let base = self.block_offset(table);
                base + offset as usize
            },
            Err(_) => 0,
        }
    }

    /// Whether the inode bitmap marks inode `n` as in use.
    pub fn inode_in_use(&self, n: u32) -> (used: bool)
        requires
            self.wf(),
            self@.inode_valid(n as int),
        ensures
            used == self@.inode_used(n as int),
    {
        proof {
            lemma_inode_fits(self@, n as int);
        }
        let ipg = self.superblock.inodes_per_group;
        let group = (n - 1) / ipg;
        let index = (n - 1) % ipg;
        let bitmap = self.groups[group as usize].inode_bitmap;
        let base = self.block_offset(bitmap);
        let byte = self.dev.byte(base + (index / 8) as usize);
        crate::bitmap::test_byte(byte, (index % 8) as u8)
    }

    /// Reads inode `n`; `NotFound` where `n` is 0, past the last inode, or
    /// not marked in use.
    pub fn read_inode(&self, n: u32) -> (r: Result<Inode, Ext2Error>)
        requires
            self.wf(),
        ensures
            r == self@.read_inode_result(n as int),
    {
        if n == 0 || n > self.superblock.inodes_count {
            return Err(Ext2Error::NotFound);
        }
        if !self.inode_in_use(n) {
            return Err(Ext2Error::NotFound);
        }
        let off = self.inode_offset(n);
        let rec = self.dev.load(off, 128);
        let ino = Inode::decode(rec.as_slice(), 0);
        assert(rec@.subrange(0, 128) =~= rec@);
        Ok(ino)
    }

    /// Writes the record of inode `n` in place; `NotFound` where `n` is 0 or
    /// past the last inode. Only the 128 bytes of the record change.
    pub fn write_inode(&mut self, n: u32, ino: &Inode) -> (r: Result<(), Ext2Error>)
        requires
            old(self).wf(),
        ensures
            final(self).wf(),
            final(self).superblock == old(self).superblock,
            final(self).groups@ == old(self).groups@,
            final(self).root == old(self).root,
            match r {
                Ok(_) => {
                    let off = old(self)@.inode_off(n as int);
                    &&& old(self)@.inode_valid(n as int)
                    &&& same_outside(final(self)@.image, old(self)@.image, off, off + 128)
                    &&& final(self)@.inode_at(n as int) == *ino
                    &&& final(self)@ == old(self)@.with_record(n as int, *ino)
                },
                Err(e) => e == Ext2Error::NotFound && !old(self)@.inode_valid(n as int)
                    && final(self)@ == old(self)@,
            },
    {
        if n == 0 || n > self.superblock.inodes_count {
            return Err(Ext2Error::NotFound);
        }
        let off = self.inode_offset(n);
        let rec = ino.encode();
        self.dev.store(off, rec.as_slice());
        assert(self.dev@.subrange(off as int, off + 128) =~= rec@);
        Ok(())
    }
}

} // verus!
