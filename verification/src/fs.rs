//! A mounted ext2 volume: the device together with the superblock and the
//! table of group descriptors that were read from it.

use crate::block_group::BlockGroupDescriptor;
use crate::bytes::{put32, same_outside, splice, zeroed, zeros};
use crate::disk::Disk;
use crate::error::{sure, Ext2Error};
use crate::superblock::{lemma_encoding_fixes_value, Superblock};
use crate::volume::{
    descriptor_ok, lemma_block_fits, lemma_flush_start, lemma_flush_step, lemma_flushed_upto_all,
    lemma_groups_cover, lemma_mul_le, lemma_mul_sum, mount_refusal, table_of, volume_of, Volume,
};
use vstd::prelude::*;

verus! {

/// The inode of the root directory.
pub const ROOT_INODE: u32 = 2;

/// A mounted volume. The superblock and the descriptors held here are the
/// ones in force; the copies on the device are brought up to date by the
/// flush operations.
pub struct Ext2FileSystem {
    /// The superblock in force.
    pub superblock: Superblock,
    /// The group descriptors in force.
    pub groups: Vec<BlockGroupDescriptor>,
    /// The device.
    pub dev: Disk,
    /// The inode of the root directory, once it has been looked at.
    pub root: Option<u32>,
}

impl View for Ext2FileSystem {
    type V = Volume;

    open spec fn view(&self) -> Volume {
        Volume { image: self.dev@, sb: self.superblock, groups: self.groups@ }
    }
}

impl Ext2FileSystem {
    /// The invariant that every operation needs and keeps.
    pub open spec fn wf(&self) -> bool {
        &&& self@.wf()
        &&& (self.root matches Some(r) ==> r == ROOT_INODE)
    }

    /// The size of a block in bytes.
    pub fn block_size(&self) -> (bs: u32)
        requires
            self.wf(),
        ensures
            bs == self@.bs(),
            1024 <= bs <= 32768,
            bs % 1024 == 0,
    {
        self.superblock.block_size()
    }

    /// The byte where block `b` begins.
    pub fn block_offset(&self, b: u32) -> (off: usize)
        requires
            self.wf(),
            b < self.superblock.blocks_count,
        ensures
            off == b * self@.bs(),
            off + self@.bs() <= self.dev@.len(),
            self.dev@.len() <= usize::MAX,
    {
        proof {
            lemma_block_fits(self@, b as int);
        }
        let total = self.dev.size();
        let bs = self.block_size() as u64;
        let off = (b as u64) * bs;
        off as usize
    }

    /// A copy of block `b`.
    pub fn read_block(&self, b: u32) -> (data: Vec<u8>)
        requires
            self.wf(),
            b < self.superblock.blocks_count,
        ensures
            data@ == self@.block(b as int),
            data@.len() == self@.bs(),
    {
        let off = self.block_offset(b);
        let bs = self.block_size() as usize;
        self.dev.load(off, bs)
    }

    /// Overwrites block `b` from its start with `data`, which is at most one
    /// block long.
    pub fn write_block(&mut self, b: u32, data: &[u8])
        requires
            old(self).wf(),
            b < old(self).superblock.blocks_count,
            data@.len() <= old(self)@.bs(),
        ensures
            final(self).wf(),
            final(self).superblock == old(self).superblock,
            final(self).groups@ == old(self).groups@,
            final(self).root == old(self).root,
            final(self)@.image == splice(old(self)@.image, b * old(self)@.bs(), data@),
    {
        let off = self.block_offset(b);
        self.dev.store(off, data);
    }

    /// Overwrites the bytes of block `b` from place `within` on with `data`,
    /// which ends inside the block.
    pub fn write_bytes(&mut self, b: u32, within: usize, data: &[u8])
        requires
            old(self).wf(),
            b < old(self).superblock.blocks_count,
            within + data@.len() <= old(self)@.bs(),
        ensures
            final(self).wf(),
            final(self).superblock == old(self).superblock,
            final(self).groups@ == old(self).groups@,
            final(self).root == old(self).root,
            final(self)@.image == splice(old(self)@.image, b * old(self)@.bs() + within, data@),
            final(self)@.image.len() == old(self)@.image.len(),
    {
        let off = self.block_offset(b);
        self.dev.store(off + within, data);
    }

    /// Fills block `b` with zero bytes.
    pub fn zero_block(&mut self, b: u32)
        requires
            old(self).wf(),
            b < old(self).superblock.blocks_count,
        ensures
            final(self).wf(),
            final(self).superblock == old(self).superblock,
            final(self).groups@ == old(self).groups@,
            final(self).root == old(self).root,
            same_outside(
                final(self)@.image,
                old(self)@.image,
                b * old(self)@.bs(),
                b * old(self)@.bs() + old(self)@.bs(),
            ),
            forall|j: int|
                b * old(self)@.bs() <= j < b * old(self)@.bs() + old(self)@.bs()
                    ==> final(self)@.image[j] == 0,
            final(self)@.image == splice(
                old(self)@.image,
                b * old(self)@.bs(),
                zeros(old(self)@.bs()),
            ),
    {
        let bs = self.block_size() as usize;
        let zeros = zeroed(bs);
        self.write_block(b, zeros.as_slice());
        proof {
            let off = b * old(self)@.bs();
            lemma_block_fits(old(self)@, b as int);
            assert forall|j: int| off <= j < off + bs implies self@.image[j] == 0 by {
                assert(self@.image[j] == zeros@[j - off]);
            }
        }
    }

    /// The pointer in slot `slot` of block `b`.
    pub fn block_word(&self, b: u32, slot: u32) -> (w: u32)
        requires
            self.wf(),
            b < self.superblock.blocks_count,
            slot < self@.ptrs(),
        ensures
            w == self@.word(b as int, slot as int),
    {
        let off = self.block_offset(b);
        self.dev.word(off + 4 * (slot as usize))
    }

    /// Stores `w` in slot `slot` of block `b`.
    pub fn set_block_word(&mut self, b: u32, slot: u32, w: u32)
        requires
            old(self).wf(),
            b < old(self).superblock.blocks_count,
            slot < old(self)@.ptrs(),
        ensures
            final(self).wf(),
            final(self).superblock == old(self).superblock,
            final(self).groups@ == old(self).groups@,
            final(self).root == old(self).root,
            final(self)@.image == put32(
                old(self)@.image,
                b * old(self)@.bs() + 4 * slot,
                w as int,
            ),
            final(self)@.word(b as int, slot as int) == w,
            same_outside(
                final(self)@.image,
                old(self)@.image,
                b * old(self)@.bs() + 4 * slot,
                b * old(self)@.bs() + 4 * slot + 4,
            ),
    {
        let off = self.block_offset(b);
        proof {
            crate::bytes::lemma_put32(self.dev@, off + 4 * slot, w as int);
        }
        self.dev.set_word(off + 4 * (slot as usize), w);
    }

    fn load_groups(dev: &Disk, sb: &Superblock) -> (groups: Vec<BlockGroupDescriptor>)
        requires
            sb.geometry_ok(),
            volume_of(*sb, dev@).extent_ok(),
        ensures
            groups@ == table_of(*sb, dev@),
    {
        let ghost v = volume_of(*sb, dev@);
        let bs = sb.block_size() as u64;
        let count = sb.group_count();
        let total = dev.size();
        proof {
            lemma_groups_cover(32 * count, bs as int);
            lemma_mul_sum(v.table_block(), v.table_blocks(), bs as int);
            lemma_mul_le(v.table_block() + v.table_blocks(), sb.blocks_count as int, bs as int);
            lemma_mul_le(0, v.table_block(), bs as int);
        }
        let base = if bs <= 1024 {
            2 * bs
        } else {
            bs
        };
        let mut groups: Vec<BlockGroupDescriptor> = Vec::new();
        let mut g: u32 = 0;
        while g < count
            invariant
                g <= count,
                count == v.group_count(),
                base == v.table_off(),
                base + 32 * count <= total,
                total == dev@.len(),
                v == volume_of(*sb, dev@),
                groups@.len() == g,
                forall|i: int| 0 <= i < g ==> groups@[i] == table_of(*sb, dev@)[i],
            decreases count - g,
        {
            let off = (base + 32 * (g as u64)) as usize;
            let rec = dev.load(off, 32);
            let d = BlockGroupDescriptor::decode(rec.as_slice(), 0);
            assert(rec@.subrange(0, 32) =~= rec@);
            groups.push(d);
            g = g + 1;
        }
        assert(groups@ =~= table_of(*sb, dev@));
        groups
    }

    /// Reads the table of group descriptors, which begins in the block after
    /// the superblock's and holds one 32-byte record for each group.
    /// `CorruptLayout` where the table would end past the last block or the
    /// device does not hold every block of the volume.
    pub fn load_table(dev: &Disk, sb: &Superblock) -> (r: Result<
        Vec<BlockGroupDescriptor>,
        Ext2Error,
    >)
        requires
            sb.geometry_ok(),
        ensures
            match r {
                Ok(groups) => volume_of(*sb, dev@).extent_ok() && groups@ == table_of(*sb, dev@),
                Err(e) => e == Ext2Error::CorruptLayout && !volume_of(*sb, dev@).extent_ok(),
            },
    {
        if !Self::check_extent(dev, sb) {
            return Err(Ext2Error::CorruptLayout);
        }
        Ok(Self::load_groups(dev, sb))
    }

    /// Reads the superblock from bytes 1024 to 2048 of the device. The bytes
    /// of the device stay as they are, whatever the outcome. `IoError` where
    /// the device has fewer than 2048 bytes, `InvalidSuperblock` where the two
    /// bytes at 0x38 of the record are not the magic.
    pub fn read_superblock(disk: &mut Disk) -> (r: Result<Superblock, Ext2Error>)
        ensures
            final(disk)@ == old(disk)@,
            match r {
                Ok(sb) => old(disk)@.len() >= 2048 && sb.magic == Superblock::MAGIC
                    && sb.is_encoding(old(disk)@.subrange(1024, 2048)),
                Err(e) => if old(disk)@.len() < 2048 {
                    e == Ext2Error::IoError
                } else {
                    e == Ext2Error::InvalidSuperblock && crate::bytes::le16(
                        old(disk)@,
                        0x438int,
                    ) != Superblock::MAGIC
                },
            },
    {
        let mut rec = zeroed(1024);
        disk.set_position(1024);
        match disk.read_exact(&mut rec) {
            Err(e) => {
                return Err(e);
            },
            Ok(_) => {},
        }
        let sb = Superblock::new_from_buf(rec.as_mut_slice());
        assert(rec@.subrange(0, 1024) =~= old(disk)@.subrange(1024, 2048));
        if sb.magic != Superblock::MAGIC {
            return Err(Ext2Error::InvalidSuperblock);
        }
        Ok(sb)
    }

    fn check_extent(dev: &Disk, sb: &Superblock) -> (ok: bool)
        requires
            sb.geometry_ok(),
        ensures
            ok == volume_of(*sb, dev@).extent_ok(),
    {
        let bs = sb.block_size() as u64;
        let count = sb.group_count() as u64;
        let table_blocks = (32 * count + bs - 1) / bs;
        let first: u64 = if bs <= 1024 {
            2
        } else {
            1
        };
        if first + table_blocks > sb.blocks_count as u64 {
            return false;
        }
        assert(sb.blocks_count * bs <= 0xffff_ffff * 65536) by (nonlinear_arith)
            requires
                sb.blocks_count <= 0xffff_ffff,
                bs <= 65536,
        ;
        (sb.blocks_count as u64) * bs <= dev.size() as u64
    }

    fn check_descriptor(sb: &Superblock, d: &BlockGroupDescriptor) -> (ok: bool)
        requires
            sb.geometry_ok(),
        ensures
            ok == descriptor_ok(*sb, *d),
    {
        let bs = sb.block_size() as u64;
        let isz = sb.inode_record_size() as u64;
        let ipg = sb.inodes_per_group as u64;
        assert(ipg * isz <= 524288 * 65536) by (nonlinear_arith)
            requires
                ipg <= 524288,
                isz <= 65536,
        ;
        let table = (ipg * isz + bs - 1) / bs;
        let first = sb.first_data_block;
        let last = sb.blocks_count;
        first < d.block_bitmap && d.block_bitmap < last && first < d.inode_bitmap && d.inode_bitmap
            < last && first < d.inode_table && d.inode_table as u64 + table <= last as u64
    }

    fn check_descriptors(sb: &Superblock, groups: &Vec<BlockGroupDescriptor>) -> (ok: bool)
        requires
            sb.geometry_ok(),
        ensures
            ok == (forall|i: int|
                0 <= i < groups@.len() ==> descriptor_ok(*sb, #[trigger] groups@[i])),
    {
        let mut g: usize = 0;
        while g < groups.len()
            invariant
                g <= groups@.len(),
                sb.geometry_ok(),
                forall|i: int| 0 <= i < g ==> descriptor_ok(*sb, #[trigger] groups@[i]),
            decreases groups@.len() - g,
        {
            if !Self::check_descriptor(sb, &groups[g]) {
                return false;
            }
            g = g + 1;
        }
        true
    }

    /// Mounts the volume on `disk`. Nothing is written to the device.
    ///
    /// A device of fewer than 2048 bytes gives `IoError`. Otherwise the record
    /// at byte 1024 decides: `InvalidSuperblock` where its magic or geometry
    /// is refused, `CorruptLayout` where a table leaves the volume, the volume
    /// leaves the device, or inode 2 is not a directory in use.
    pub fn mount(disk: Disk) -> (r: Result<Ext2FileSystem, Ext2Error>)
        ensures
            r matches Ok(fs) ==> fs.superblock.is_encoding(disk@.subrange(1024, 2048)) && fs.dev@
                == disk@ && fs.root is None,
            r matches Err(e) ==> e == Ext2Error::IoError || e == Ext2Error::InvalidSuperblock || e
                == Ext2Error::CorruptLayout,
            disk@.len() < 2048 ==> (r matches Err(e) && e == Ext2Error::IoError),
            disk@.len() >= 2048 ==> forall|sb: Superblock| #[trigger]
                sb.is_encoding(disk@.subrange(1024, 2048)) ==> match r {
                    Ok(fs) => mount_refusal(sb, disk@) is None && fs@ == volume_of(sb, disk@)
                        && fs.wf(),
                    Err(e) => mount_refusal(sb, disk@) == Some(e),
                },
    {
        let mut disk = disk;
        let ghost image = disk@;
        let probed = Self::read_superblock(&mut disk);
        if disk.size() < 2048 {
            return Err(Ext2Error::IoError);
        }
        assert forall|other: Superblock| #[trigger]
            other.is_encoding(image.subrange(1024, 2048)) implies (match probed {
            Ok(sb) => other == sb,
            Err(_) => other.magic != Superblock::MAGIC,
        }) by {
            match probed {
                Ok(sb) => {
                    lemma_encoding_fixes_value(other, sb, image.subrange(1024, 2048));
                },
                Err(_) => {},
            }
        }
        let sb = match probed {
            Ok(sb) => sb,
            Err(e) => {
                return Err(e);
            },
        };
        if !sb.check_geometry() {
            return Err(Ext2Error::InvalidSuperblock);
        }
        let groups = match Self::load_table(&disk, &sb) {
            Ok(groups) => groups,
            Err(e) => {
                return Err(e);
            },
        };
        let sound = Self::check_descriptors(&sb, &groups);
        proof {
            let v = volume_of(sb, image);
            assert forall|i: int| 0 <= i < v.groups.len() implies v.desc_ok(
                #[trigger] v.groups[i],
            ) == descriptor_ok(sb, groups@[i]) by {}
        }
        if !sound {
            return Err(Ext2Error::CorruptLayout);
        }
        let fs = Ext2FileSystem { superblock: sb, groups, dev: disk, root: None };
        assert(fs@ == volume_of(sb, image));
        match fs.read_inode(ROOT_INODE) {
            Ok(ino) => {
                if !ino.is_dir() {
                    return Err(Ext2Error::CorruptLayout);
                }
            },
            Err(_) => {
                return Err(Ext2Error::CorruptLayout);
            },
        }
        Ok(fs)
    }

    /// Mounts the volume on `disk`, or gives `None` where `mount` fails.
    pub fn new(disk: Disk) -> (r: Option<Ext2FileSystem>)
        ensures
            disk@.len() < 2048 ==> r is None,
            disk@.len() >= 2048 ==> forall|sb: Superblock| #[trigger]
                sb.is_encoding(disk@.subrange(1024, 2048)) ==> match r {
                    Some(fs) => mount_refusal(sb, disk@) is None && fs@ == volume_of(sb, disk@)
                        && fs.wf(),
                    None => mount_refusal(sb, disk@) is Some,
                },
    {
        match Self::mount(disk) {
            Ok(fs) => Some(fs),
            Err(_) => None,
        }
    }

    /// Looks at the root directory and remembers it. Doing so again changes
    /// nothing.
    pub fn init(&mut self)
        requires
            old(self).wf(),
        ensures
            final(self).wf(),
            final(self)@ == old(self)@,
            final(self).root == (if old(self)@.root_ok() {
                Some(ROOT_INODE)
            } else {
                old(self).root
            }),
    {
        match self.read_inode(ROOT_INODE) {
            Ok(ino) => {
                if ino.is_dir() {
                    self.root = Some(ROOT_INODE);
                }
            },
            Err(_) => {},
        }
    }

    /// The inode of the root directory. It is looked at on the first call
    /// and remembered; `CorruptLayout` where inode 2 is not a directory in use
    /// and was never seen to be one.
    pub fn root_dir(&mut self) -> (r: Result<u32, Ext2Error>)
        requires
            old(self).wf(),
        ensures
            final(self).wf(),
            final(self)@ == old(self)@,
            match r {
                Ok(n) => n == ROOT_INODE && final(self).root == Some(ROOT_INODE) && (old(self).root
                    is Some || old(self)@.root_ok()),
                Err(e) => e == Ext2Error::CorruptLayout && old(self).root is None
                    && !old(self)@.root_ok() && final(self).root is None,
            },
    {
        if self.root.is_none() {
            self.init();
        }
        match self.root {
            Some(n) => Ok(n),
            None => Err(Ext2Error::CorruptLayout),
        }
    }

    /// Writes the descriptor of group `index` to its place in the table on
    /// the device; `CorruptLayout` where there is no such group.
    pub fn flush_group(&mut self, index: u32) -> (r: Result<(), Ext2Error>)
        requires
            old(self).wf(),
        ensures
            final(self).wf(),
            final(self).superblock == old(self).superblock,
            final(self).groups@ == old(self).groups@,
            final(self).root == old(self).root,
            match r {
                Ok(_) => {
                    let off = old(self)@.table_off() + 32 * index;
                    &&& index < old(self).groups@.len()
                    &&& same_outside(final(self)@.image, old(self)@.image, off, off + 32)
                    &&& BlockGroupDescriptor::spec_decode(
                        final(self)@.image.subrange(off, off + 32),
                    ) == old(self).groups@[index as int]
                },
                Err(e) => e == Ext2Error::CorruptLayout && index >= old(self).groups@.len()
                    && final(self)@ == old(self)@,
            },
    {
        if index as usize >= self.groups.len() {
            return Err(Ext2Error::CorruptLayout);
        }
        let ghost v = self@;
        let bs = self.block_size() as u64;
        let total = self.dev.size();
        proof {
            lemma_groups_cover(32 * v.group_count(), bs as int);
            lemma_mul_sum(v.table_block(), v.table_blocks(), bs as int);
            lemma_mul_le(v.table_block() + v.table_blocks(), v.sb.blocks_count as int, bs as int);
            lemma_mul_le(0, v.table_block(), bs as int);
        }
        let base = if bs <= 1024 {
            2 * bs
        } else {
            bs
        };
        let off = (base + 32 * (index as u64)) as usize;
        let rec = self.groups[index as usize].encode();
        self.dev.store(off, rec.as_slice());
        assert(self.dev@.subrange(off as int, off + 32) =~= rec@);
        Ok(())
    }

    /// Writes the superblock to its place on the device, bytes 1024 to 2048.
    pub fn flush_superblock(&mut self)
        requires
            old(self).wf(),
        ensures
            final(self).wf(),
            final(self).superblock == old(self).superblock,
            final(self).groups@ == old(self).groups@,
            final(self).root == old(self).root,
            same_outside(final(self)@.image, old(self)@.image, 1024, 2048),
            old(self).superblock.is_encoding(final(self)@.image.subrange(1024, 2048)),
    {
        let ghost v = self@;
        proof {
            lemma_groups_cover(32 * v.group_count(), v.bs());
            lemma_mul_sum(1, 1, v.bs());
            if v.bs() == 1024 {
                lemma_mul_le(2, v.sb.blocks_count as int, v.bs());
            } else {
                lemma_mul_le(1, v.sb.blocks_count as int, v.bs());
            }
        }
        let rec = self.superblock.encode();
        self.dev.store(1024, rec.as_slice());
        assert(self.dev@.subrange(1024, 2048) =~= rec@);
    }

    /// Writes the superblock and every descriptor to the device, which then
    /// holds what is in force. Nothing else on the device changes.
    pub fn sync(&mut self)
        requires
            old(self).wf(),
        ensures
            final(self).wf(),
            final(self).superblock == old(self).superblock,
            final(self).groups@ == old(self).groups@,
            final(self).root == old(self).root,
            final(self)@.flushed(),
            final(self)@.only_tables_differ(old(self)@),
    {
        let ghost v0 = self@;
        self.flush_superblock();
        proof {
            lemma_flush_start(v0, self@);
            crate::volume::lemma_group_count_bound(v0);
        }
        let n = self.groups.len();
        let mut g: usize = 0;
        while g < n
            invariant
                g <= n,
                n == self.groups@.len(),
                n <= 0xffff_ffff,
                self@.image.len() == v0.image.len(),
                self.wf(),
                v0.wf(),
                self.superblock == v0.sb,
                self.groups@ == v0.groups,
                self.root == old(self).root,
                self@.flushed_upto(g as int),
                self@.only_tables_differ(v0),
            decreases n - g,
        {
            let ghost v1 = self@;
            sure(self.flush_group(g as u32));
            proof {
                lemma_flush_step(v0, v1, self@, g as int);
            }
            g = g + 1;
        }
        proof {
            lemma_flushed_upto_all(self@);
        }
    }

    /// Gives the device back.
    pub fn into_disk(self) -> (d: Disk)
        ensures
            d@ == self.dev@,
    {
        self.dev
    }
}

} // verus!
