//! The mathematical model of a mounted volume: its bytes, its superblock and
//! its table of group descriptors, and where the layout puts each thing.

use crate::bitmap::byte_bit;
use crate::block_group::BlockGroupDescriptor;
use crate::bytes::le32;
use crate::error::Ext2Error;
use crate::inode::Inode;
use crate::superblock::{groups_for, Superblock};
use vstd::prelude::*;

verus! {

/// A volume as contracts see it.
pub struct Volume {
    /// Every byte of the device.
    pub image: Seq<u8>,
    /// The superblock in force.
    pub sb: Superblock,
    /// The group descriptors in force, one for each group.
    pub groups: Seq<BlockGroupDescriptor>,
}

impl Volume {
    /// The size of a block in bytes.
    pub open spec fn bs(self) -> int {
        self.sb.spec_block_size()
    }

    /// The size of an inode record in bytes.
    pub open spec fn isz(self) -> int {
        self.sb.spec_inode_record_size()
    }

    /// The number of block groups.
    pub open spec fn group_count(self) -> int {
        self.sb.spec_group_count()
    }

    /// The block where the table of group descriptors begins: the one after
    /// the block that holds the superblock.
    pub open spec fn table_block(self) -> int {
        self.sb.spec_superblock_block() + 1
    }

    /// The byte where the table of group descriptors begins.
    pub open spec fn table_off(self) -> int {
        self.table_block() * self.bs()
    }

    /// The number of blocks that the table of group descriptors takes.
    pub open spec fn table_blocks(self) -> int {
        groups_for(32 * self.group_count(), self.bs())
    }

    /// The number of blocks that one group's inode table takes.
    pub open spec fn inode_table_blocks(self) -> int {
        groups_for(self.sb.inodes_per_group * self.isz(), self.bs())
    }

    /// The number of block pointers that fit in one block.
    pub open spec fn ptrs(self) -> int {
        self.bs() / 4
    }

    /// Whether `b` is a block that a file's data or pointers may live in.
    pub open spec fn is_data_block(self, b: int) -> bool {
        self.sb.first_data_block < b < self.sb.blocks_count
    }

    /// Whether a descriptor keeps its bitmaps and inode table inside the volume.
    pub open spec fn desc_ok(self, d: BlockGroupDescriptor) -> bool {
        &&& self.is_data_block(d.block_bitmap as int)
        &&& self.is_data_block(d.inode_bitmap as int)
        &&& self.sb.first_data_block < d.inode_table
        &&& d.inode_table + self.inode_table_blocks() <= self.sb.blocks_count
    }

    /// The table of descriptors ends inside the volume and the device holds
    /// every block of the volume.
    pub open spec fn extent_ok(self) -> bool {
        &&& self.table_block() + self.table_blocks() <= self.sb.blocks_count
        &&& self.sb.blocks_count * self.bs() <= self.image.len()
    }

    /// The volume's invariant: a geometry this library works with, every table
    /// inside the volume, the volume inside the device.
    pub open spec fn wf(self) -> bool {
        &&& self.sb.geometry_ok()
        &&& self.extent_ok()
        &&& self.groups.len() == self.group_count()
        &&& forall|g: int| 0 <= g < self.groups.len() ==> self.desc_ok(#[trigger] self.groups[g])
    }

    /// `other` has the geometry of this volume: the same sizes and counts, a
    /// device of the same length, and every group's tables in the same place.
    pub open spec fn same_geometry(self, other: Volume) -> bool {
        &&& self.image.len() == other.image.len()
        &&& self.groups.len() == other.groups.len()
        &&& self.sb.magic == other.sb.magic
        &&& self.sb.inodes_count == other.sb.inodes_count
        &&& self.sb.blocks_count == other.sb.blocks_count
        &&& self.sb.first_data_block == other.sb.first_data_block
        &&& self.sb.log_block_size == other.sb.log_block_size
        &&& self.sb.blocks_per_group == other.sb.blocks_per_group
        &&& self.sb.inodes_per_group == other.sb.inodes_per_group
        &&& self.sb.rev_major == other.sb.rev_major
        &&& self.sb.inode_size == other.sb.inode_size
        &&& forall|g: int|
            0 <= g < self.groups.len() ==> {
                &&& (#[trigger] self.groups[g]).block_bitmap == other.groups[g].block_bitmap
                &&& self.groups[g].inode_bitmap == other.groups[g].inode_bitmap
                &&& self.groups[g].inode_table == other.groups[g].inode_table
            }
    }

    /// The bytes of block `b`.
    pub open spec fn block(self, b: int) -> Seq<u8> {
        self.image.subrange(b * self.bs(), b * self.bs() + self.bs())
    }

    /// The pointer in slot `slot` of block `b`.
    pub open spec fn word(self, b: int, slot: int) -> int {
        le32(self.image, b * self.bs() + 4 * slot)
    }

    /// Bit `k` of the bitmap held in block `b`.
    pub open spec fn bitmap_bit(self, b: int, k: int) -> bool {
        byte_bit(self.image[b * self.bs() + k / 8], (k % 8) as u8)
    }

    /// Whether `n` is the number of an inode of this volume.
    pub open spec fn inode_valid(self, n: int) -> bool {
        1 <= n <= self.sb.inodes_count
    }

    /// The group that inode `n` belongs to.
    pub open spec fn inode_group(self, n: int) -> int {
        (n - 1) / (self.sb.inodes_per_group as int)
    }

    /// The place of inode `n` within its group.
    pub open spec fn inode_index(self, n: int) -> int {
        (n - 1) % (self.sb.inodes_per_group as int)
    }

    /// The byte where the record of inode `n` begins.
    pub open spec fn inode_off(self, n: int) -> int {
        self.groups[self.inode_group(n)].inode_table * self.bs() + self.inode_index(n)
            * self.isz()
    }

    /// Whether the inode bitmap marks inode `n` as in use.
    pub open spec fn inode_used(self, n: int) -> bool {
        self.bitmap_bit(
            self.groups[self.inode_group(n)].inode_bitmap as int,
            self.inode_index(n),
        )
    }

    /// The record of inode `n`, decoded.
    pub open spec fn inode_at(self, n: int) -> Inode {
        Inode::spec_decode(self.image.subrange(self.inode_off(n), self.inode_off(n) + 128))
    }

    /// What reading inode `n` gives: the record, or `NotFound` where the
    /// number is 0, past the last inode, or not marked in use.
    pub open spec fn read_inode_result(self, n: int) -> Result<Inode, Ext2Error> {
        if self.inode_valid(n) && self.inode_used(n) {
            Ok(self.inode_at(n))
        } else {
            Err(Ext2Error::NotFound)
        }
    }

    /// The number of inodes that group `g` really has.
    pub open spec fn group_inodes(self, g: int) -> int {
        let rest = self.sb.inodes_count - g * self.sb.inodes_per_group;
        if rest <= 0 {
            0
        } else if rest < self.sb.inodes_per_group {
            rest
        } else {
            self.sb.inodes_per_group as int
        }
    }

    /// The first block of group `g`.
    pub open spec fn group_first_block(self, g: int) -> int {
        self.sb.first_data_block + g * self.sb.blocks_per_group
    }

    /// The number of blocks that group `g` really has.
    pub open spec fn group_blocks(self, g: int) -> int {
        let rest = self.sb.blocks_count - self.group_first_block(g);
        if rest <= 0 {
            0
        } else if rest < self.sb.blocks_per_group {
            rest
        } else {
            self.sb.blocks_per_group as int
        }
    }

    /// The group that block `b` belongs to.
    pub open spec fn block_group(self, b: int) -> int {
        (b - self.sb.first_data_block) / (self.sb.blocks_per_group as int)
    }

    /// The place of block `b` within its group.
    pub open spec fn block_index(self, b: int) -> int {
        (b - self.sb.first_data_block) % (self.sb.blocks_per_group as int)
    }

    /// Whether the block bitmap marks block `b` as in use.
    pub open spec fn block_used(self, b: int) -> bool {
        self.bitmap_bit(
            self.groups[self.block_group(b)].block_bitmap as int,
            self.block_index(b),
        )
    }

    /// The device holds the superblock and the descriptors that are in
    /// force.
    pub open spec fn flushed(self) -> bool {
        &&& self.sb.is_encoding(self.image.subrange(1024, 2048))
        &&& self.groups == table_of(self.sb, self.image)
    }

    /// The device holds the superblock and the first `k` descriptors that are
    /// in force.
    #[verifier::opaque]
    pub open spec fn flushed_upto(self, k: int) -> bool {
        &&& self.sb.is_encoding(self.image.subrange(1024, 2048))
        &&& forall|h: int|
            0 <= h < k ==> BlockGroupDescriptor::spec_decode(
                self.image.subrange(self.table_off() + 32 * h, self.table_off() + 32 * h + 32),
            ) == #[trigger] self.groups[h]
    }

    /// The device of this volume is that of `other` but for the superblock's
    /// record and the table of descriptors.
    #[verifier::opaque]
    pub open spec fn only_tables_differ(self, other: Volume) -> bool {
        &&& self.image.len() == other.image.len()
        &&& forall|j: int|
            0 <= j < other.image.len() && !(1024 <= j < 2048) && !(other.table_off() <= j
                < other.table_off() + 32 * other.groups.len()) ==> self.image[j]
                == other.image[j]
    }

    /// The root directory is there: inode 2 is in use and is a directory.
    pub open spec fn root_ok(self) -> bool {
        match self.read_inode_result(2) {
            Ok(ino) => ino.spec_is_dir(),
            Err(_) => false,
        }
    }
}

/// Whether a descriptor keeps its bitmaps and inode table inside a volume
/// with superblock `sb`.
pub open spec fn descriptor_ok(sb: Superblock, d: BlockGroupDescriptor) -> bool {
    (Volume { image: Seq::empty(), sb, groups: Seq::empty() }).desc_ok(d)
}

/// The descriptors that the table on the device holds.
pub open spec fn table_of(sb: Superblock, image: Seq<u8>) -> Seq<BlockGroupDescriptor> {
    let v = Volume { image, sb, groups: Seq::empty() };
    Seq::new(
        v.group_count() as nat,
        |g: int|
            BlockGroupDescriptor::spec_decode(
                image.subrange(v.table_off() + 32 * g, v.table_off() + 32 * g + 32),
            ),
    )
}

/// The volume that a device with superblock `sb` holds.
pub open spec fn volume_of(sb: Superblock, image: Seq<u8>) -> Volume {
    Volume { image, sb, groups: table_of(sb, image) }
}

/// Why a device with superblock `sb` cannot be mounted, if it cannot:
/// `InvalidSuperblock` for a geometry this library does not work with, else
/// `CorruptLayout` where a table leaves the volume, the volume leaves the
/// device, or inode 2 is not a directory in use.
pub open spec fn mount_refusal(sb: Superblock, image: Seq<u8>) -> Option<Ext2Error> {
    if !sb.geometry_ok() {
        Some(Ext2Error::InvalidSuperblock)
    } else if !volume_of(sb, image).wf() || !volume_of(sb, image).root_ok() {
        Some(Ext2Error::CorruptLayout)
    } else {
        None
    }
}

/// A volume whose device holds what is in force is the volume that its
/// device holds: mounting the device again gives the same superblock and the
/// same descriptors.
pub proof fn lemma_flushed_mounts_alike(v: Volume, sb: Superblock)
    requires
        v.flushed(),
        sb.is_encoding(v.image.subrange(1024, 2048)),
    ensures
        sb == v.sb,
        volume_of(sb, v.image) == v,
{
    crate::superblock::lemma_encoding_fixes_value(sb, v.sb, v.image.subrange(1024, 2048));
}

/// The table of descriptors begins past the superblock's record.
pub proof fn lemma_table_after_superblock(v: Volume)
    requires
        v.wf(),
    ensures
        2048 <= v.table_off(),
        v.table_off() + 32 * v.groups.len() <= v.image.len(),
{
    lemma_groups_cover(32 * v.group_count(), v.bs());
    lemma_mul_sum(v.table_block(), v.table_blocks(), v.bs());
    lemma_mul_le(v.table_block() + v.table_blocks(), v.sb.blocks_count as int, v.bs());
    lemma_mul_le(0, v.table_block(), v.bs());
    if v.bs() <= 1024 {
        lemma_mul_sum(1, 1, v.bs());
    } else {
        lemma_mul_sum(0, 1, v.bs());
    }
}

/// With the superblock written the device holds it, and nothing outside its
/// record has changed.
pub proof fn lemma_flush_start(v0: Volume, v1: Volume)
    requires
        v0.wf(),
        v1.sb == v0.sb,
        v1.groups == v0.groups,
        crate::bytes::same_outside(v1.image, v0.image, 1024, 2048),
        v1.sb.is_encoding(v1.image.subrange(1024, 2048)),
    ensures
        v1.flushed_upto(0),
        v1.only_tables_differ(v0),
{
    reveal(Volume::flushed_upto);
    reveal(Volume::only_tables_differ);
}

/// Writing the descriptor of group `g` to its place keeps the superblock's
/// record and the descriptors written before, and changes nothing outside
/// the record and the table.
pub proof fn lemma_flush_step(v0: Volume, v1: Volume, v2: Volume, g: int)
    requires
        v0.wf(),
        v1.sb == v0.sb,
        v1.groups == v0.groups,
        v2.sb == v0.sb,
        v2.groups == v0.groups,
        0 <= g < v0.groups.len(),
        v1.image.len() == v0.image.len(),
        crate::bytes::same_outside(
            v2.image,
            v1.image,
            v0.table_off() + 32 * g,
            v0.table_off() + 32 * g + 32,
        ),
        BlockGroupDescriptor::spec_decode(
            v2.image.subrange(v0.table_off() + 32 * g, v0.table_off() + 32 * g + 32),
        ) == v0.groups[g],
        v1.flushed_upto(g),
        v1.only_tables_differ(v0),
    ensures
        v2.flushed_upto(g + 1),
        v2.only_tables_differ(v0),
{
    reveal(Volume::flushed_upto);
    reveal(Volume::only_tables_differ);
    lemma_table_after_superblock(v0);
    let base = v0.table_off();
    assert(v2.image.subrange(1024, 2048) =~= v1.image.subrange(1024, 2048));
    assert forall|h: int| 0 <= h < g + 1 implies BlockGroupDescriptor::spec_decode(
        v2.image.subrange(base + 32 * h, base + 32 * h + 32),
    ) == #[trigger] v2.groups[h] by {
        if h < g {
            assert(v2.image.subrange(base + 32 * h, base + 32 * h + 32) =~= v1.image.subrange(
                base + 32 * h,
                base + 32 * h + 32,
            ));
            assert(v1.groups[h] == v2.groups[h]);
        }
    }
}

/// With every descriptor written the device holds what is in force.
pub proof fn lemma_flushed_upto_all(v: Volume)
    requires
        v.wf(),
        v.flushed_upto(v.groups.len() as int),
    ensures
        v.flushed(),
{
    reveal(Volume::flushed_upto);
    assert(v.groups =~= table_of(v.sb, v.image));
}

/// A quotient is below the number of groups that the total takes.
pub proof fn lemma_group_index(x: int, per: int, total: int)
    requires
        0 <= x < total,
        0 < per,
    ensures
        0 <= x / per < groups_for(total, per),
        0 <= x % per < per,
        x == (x / per) * per + x % per,
{
    assert(0 <= x / per && x / per < (total + per - 1) / per && 0 <= x % per < per && x == (x
        / per) * per + x % per) by (nonlinear_arith)
        requires
            0 <= x < total,
            0 < per,
    ;
}

/// Groups of `per` that hold `total` hold at least `total`.
pub proof fn lemma_groups_cover(total: int, per: int)
    requires
        0 <= total,
        0 < per,
    ensures
        groups_for(total, per) * per >= total,
        groups_for(total, per) >= 0,
{
    assert(((total + per - 1) / per) * per >= total && (total + per - 1) / per >= 0)
        by (nonlinear_arith)
        requires
            0 <= total,
            0 < per,
    ;
}

/// Products keep the order of their left factors.
pub proof fn lemma_mul_le(a: int, b: int, c: int)
    requires
        0 <= a <= b,
        0 <= c,
    ensures
        0 <= a * c <= b * c,
{
    assert(0 <= a * c <= b * c) by (nonlinear_arith)
        requires
            0 <= a <= b,
            0 <= c,
    ;
}

/// A product of a sum is the sum of the products.
pub proof fn lemma_mul_sum(a: int, b: int, c: int)
    ensures
        (a + b) * c == a * c + b * c,
        1 * c == c,
{
    assert((a + b) * c == a * c + b * c) by (nonlinear_arith);
}

/// A block of the volume lies inside the device.
pub proof fn lemma_block_fits(v: Volume, b: int)
    requires
        v.wf(),
        0 <= b < v.sb.blocks_count,
    ensures
        1024 <= v.bs() <= 32768,
        v.bs() % 1024 == 0,
        0 <= b * v.bs(),
        b * v.bs() + v.bs() <= v.image.len(),
        b * v.bs() + v.bs() <= v.sb.blocks_count * v.bs(),
{
    lemma_mul_le(b + 1, v.sb.blocks_count as int, v.bs());
    lemma_mul_le(0, b, v.bs());
    lemma_mul_sum(b, 1, v.bs());
}

/// The record and the bitmap bit of a valid inode lie inside the device.
pub proof fn lemma_inode_fits(v: Volume, n: int)
    requires
        v.wf(),
        v.inode_valid(n),
    ensures
        0 <= v.inode_group(n) < v.groups.len(),
        0 <= v.inode_index(n) < v.sb.inodes_per_group,
        n == v.inode_group(n) * v.sb.inodes_per_group + v.inode_index(n) + 1,
        v.desc_ok(v.groups[v.inode_group(n)]),
        0 <= v.inode_index(n) * v.isz(),
        v.inode_index(n) * v.isz() + v.isz() <= v.inode_table_blocks() * v.bs(),
        0 <= v.inode_off(n),
        v.inode_off(n) + v.isz() <= v.image.len(),
        v.inode_index(n) / 8 < v.bs(),
{
    let ipg = v.sb.inodes_per_group as int;
    let g = v.inode_group(n);
    let idx = v.inode_index(n);
    lemma_group_index(n - 1, ipg, v.sb.inodes_count as int);
    let d = v.groups[g];
    assert(v.desc_ok(d));
    lemma_mul_le(idx + 1, ipg, v.isz());
    lemma_mul_le(0, idx, v.isz());
    lemma_mul_sum(idx, 1, v.isz());
    lemma_groups_cover(ipg * v.isz(), v.bs());
    lemma_mul_le(0, ipg, v.isz());
    let last = d.inode_table + v.inode_table_blocks();
    lemma_mul_le(last, v.sb.blocks_count as int, v.bs());
    lemma_mul_sum(d.inode_table as int, v.inode_table_blocks(), v.bs());
    lemma_mul_le(0, d.inode_table as int, v.bs());
}

/// A data block belongs to a group of the table, at a place inside the group.
pub proof fn lemma_block_place(v: Volume, b: int)
    requires
        v.wf(),
        v.is_data_block(b),
    ensures
        0 <= v.block_group(b) < v.groups.len(),
        0 <= v.block_index(b) < v.group_blocks(v.block_group(b)),
        v.block_index(b) < v.sb.blocks_per_group,
        b == v.group_first_block(v.block_group(b)) + v.block_index(b),
        v.desc_ok(v.groups[v.block_group(b)]),
        v.block_index(b) / 8 < v.bs(),
{
    let bpg = v.sb.blocks_per_group as int;
    let x = b - v.sb.first_data_block;
    lemma_group_index(x, bpg, v.sb.blocks_count as int);
    let g = v.block_group(b);
    assert(v.desc_ok(v.groups[g]));
}

/// Having the geometry of a volume carries over from one volume to the next.
pub proof fn lemma_same_geometry_trans(a: Volume, b: Volume, c: Volume)
    requires
        b.same_geometry(a),
        c.same_geometry(b),
    ensures
        c.same_geometry(a),
{
}

/// A volume with the superblock, the descriptors and the length of one that
/// has a geometry has that geometry too.
pub proof fn lemma_geometry_carries(a: Volume, b: Volume, c: Volume)
    requires
        b.same_geometry(a),
        c.sb == b.sb,
        c.groups == b.groups,
        c.image.len() == b.image.len(),
    ensures
        c.same_geometry(a),
{
}

/// There are no more groups than blocks.
pub proof fn lemma_group_count_bound(v: Volume)
    requires
        v.wf(),
    ensures
        0 < v.group_count() <= v.sb.blocks_count,
{
    let total = v.sb.blocks_count as int;
    let per = v.sb.blocks_per_group as int;
    assert(0 < (total + per - 1) / per <= total) by (nonlinear_arith)
        requires
            0 < total,
            0 < per,
    ;
}

} // verus!
