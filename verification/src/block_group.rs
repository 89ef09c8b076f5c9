//! Block-group descriptors: one 32-byte record for each group of blocks.

use crate::bytes::{
    le16, le32, lemma_le16_unique, lemma_le32_unique, read_u16, read_u32, write_u16, write_u32,
    zeroed,
};
use vstd::prelude::*;

verus! {

/// Where a group keeps its bitmaps and its inode table, and what it has free.
#[derive(Clone, Copy, Debug)]
pub struct BlockGroupDescriptor {
    /// Block that holds the group's block bitmap.
    pub block_bitmap: u32,
    /// Block that holds the group's inode bitmap.
    pub inode_bitmap: u32,
    /// First block of the group's inode table.
    pub inode_table: u32,
    /// Number of unallocated blocks in the group.
    pub free_blocks_count: u16,
    /// Number of unallocated inodes in the group.
    pub free_inodes_count: u16,
    /// Number of directories in the group.
    pub used_dirs_count: u16,
    /// Padding.
    pub pad: u16,
    /// The rest of the record, as three words.
    pub reserved: [u32; 3],
}

impl BlockGroupDescriptor {
    /// The descriptor that the 32-byte record `rec` holds.
    pub open spec fn spec_decode(rec: Seq<u8>) -> BlockGroupDescriptor {
        BlockGroupDescriptor {
            block_bitmap: le32(rec, 0) as u32,
            inode_bitmap: le32(rec, 4) as u32,
            inode_table: le32(rec, 8) as u32,
            free_blocks_count: le16(rec, 12) as u16,
            free_inodes_count: le16(rec, 14) as u16,
            used_dirs_count: le16(rec, 16) as u16,
            pad: le16(rec, 18) as u16,
            reserved: [le32(rec, 20) as u32, le32(rec, 24) as u32, le32(rec, 28) as u32],
        }
    }

    /// Reads the descriptor that starts at `off`.
    pub fn decode(buf: &[u8], off: usize) -> (d: BlockGroupDescriptor)
        requires
            off + 32 <= buf@.len(),
        ensures
            d == Self::spec_decode(buf@.subrange(off as int, off + 32)),
    {
        let total = buf.len();
        assert(off + 32 <= total);
        let d = BlockGroupDescriptor {
            block_bitmap: read_u32(buf, off),
            inode_bitmap: read_u32(buf, off + 4),
            inode_table: read_u32(buf, off + 8),
            free_blocks_count: read_u16(buf, off + 12),
            free_inodes_count: read_u16(buf, off + 14),
            used_dirs_count: read_u16(buf, off + 16),
            pad: read_u16(buf, off + 18),
            reserved: [read_u32(buf, off + 20), read_u32(buf, off + 24), read_u32(buf, off + 28)],
        };
        proof {
            let rec = buf@.subrange(off as int, off + 32);
            assert(d.reserved =~= Self::spec_decode(rec).reserved);
        }
        d
    }

    /// The 32 bytes of this descriptor on disk.
    pub fn encode(&self) -> (out: Vec<u8>)
        ensures
            out@.len() == 32,
            Self::spec_decode(out@) == *self,
    {
        let mut out = zeroed(32);
        write_u32(&mut out, 0, self.block_bitmap);
        write_u32(&mut out, 4, self.inode_bitmap);
        write_u32(&mut out, 8, self.inode_table);
        write_u16(&mut out, 12, self.free_blocks_count);
        write_u16(&mut out, 14, self.free_inodes_count);
        write_u16(&mut out, 16, self.used_dirs_count);
        write_u16(&mut out, 18, self.pad);
        write_u32(&mut out, 20, self.reserved[0]);
        write_u32(&mut out, 24, self.reserved[1]);
        write_u32(&mut out, 28, self.reserved[2]);
        assert(Self::spec_decode(out@).reserved =~= self.reserved);
        out
    }
}

/// Two records that hold the same descriptor are the same 32 bytes.
pub proof fn lemma_descriptor_fixes_bytes(r1: Seq<u8>, r2: Seq<u8>)
    requires
        r1.len() == 32,
        r2.len() == 32,
        BlockGroupDescriptor::spec_decode(r1) == BlockGroupDescriptor::spec_decode(r2),
    ensures
        r1 == r2,
{
    let a = BlockGroupDescriptor::spec_decode(r1);
    let b = BlockGroupDescriptor::spec_decode(r2);
    assert(a.reserved@[0] == b.reserved@[0]);
    assert(a.reserved@[1] == b.reserved@[1]);
    assert(a.reserved@[2] == b.reserved@[2]);
    lemma_le32_unique(r1, 0, r2, 0);
    lemma_le32_unique(r1, 4, r2, 4);
    lemma_le32_unique(r1, 8, r2, 8);
    lemma_le16_unique(r1, 12, r2, 12);
    lemma_le16_unique(r1, 14, r2, 14);
    lemma_le16_unique(r1, 16, r2, 16);
    lemma_le16_unique(r1, 18, r2, 18);
    lemma_le32_unique(r1, 20, r2, 20);
    lemma_le32_unique(r1, 24, r2, 24);
    lemma_le32_unique(r1, 28, r2, 28);
    assert(r1 =~= r2);
}

} // verus!
