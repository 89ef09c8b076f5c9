//! The free-space allocator: which group an allocation goes to, which bit it
//! takes, and what taking or releasing a bit does to the volume.

use crate::bitmap::{
    all_set, bit_at, byte_with_bit, find_first_clear, flip_byte, is_first_clear,
    lemma_byte_with_bit, test_byte,
};
use crate::block_group::BlockGroupDescriptor;
use crate::error::{sure, Ext2Error};
use crate::fs::Ext2FileSystem;
use crate::superblock::Superblock;
use crate::volume::{
    lemma_block_fits, lemma_block_place, lemma_group_count_bound, lemma_inode_fits, Volume,
};
use vstd::prelude::*;

verus! {

/// How far group `g` is from the preferred group.
pub open spec fn group_distance(g: int, preferred: int) -> int {
    if g >= preferred {
        g - preferred
    } else {
        preferred - g
    }
}

/// `g` is the candidate closest to `preferred`; of two equally close ones,
/// the lower.
pub open spec fn is_closest(candidates: Seq<bool>, preferred: int, g: int) -> bool {
    &&& 0 <= g < candidates.len()
    &&& candidates[g]
    &&& forall|h: int|
        0 <= h < candidates.len() && candidates[h] ==> group_distance(g, preferred)
            < group_distance(h, preferred) || (group_distance(g, preferred) == group_distance(
            h,
            preferred,
        ) && g <= h)
}

/// One more, but never past the largest 16-bit number.
pub open spec fn bump16(x: u16) -> u16 {
    if x < 0xffff {
        (x + 1) as u16
    } else {
        x
    }
}

/// One more, but never past the largest 32-bit number.
pub open spec fn bump32(x: u32) -> u32 {
    if x < 0xffff_ffff {
        (x + 1) as u32
    } else {
        x
    }
}

/// One less, but never below zero.
pub open spec fn drop16(x: u16) -> u16 {
    if x > 0 {
        (x - 1) as u16
    } else {
        x
    }
}

/// One less, but never below zero.
pub open spec fn drop32(x: u32) -> u32 {
    if x > 0 {
        (x - 1) as u32
    } else {
        x
    }
}

impl Volume {
    /// For each group, whether its descriptor counts a free block.
    pub open spec fn groups_with_blocks(self) -> Seq<bool> {
        Seq::new(self.groups.len(), |g: int| self.groups[g].free_blocks_count > 0)
    }

    /// For each group, whether its descriptor counts a free inode.
    pub open spec fn groups_with_inodes(self) -> Seq<bool> {
        Seq::new(self.groups.len(), |g: int| self.groups[g].free_inodes_count > 0)
    }

    /// The groups that count a free inode (`inodes`) or a free block.
    pub open spec fn candidates(self, inodes: bool) -> Seq<bool> {
        if inodes {
            self.groups_with_inodes()
        } else {
            self.groups_with_blocks()
        }
    }

    /// The block bitmap of group `g`.
    pub open spec fn block_bitmap(self, g: int) -> Seq<u8> {
        self.block(self.groups[g].block_bitmap as int)
    }

    /// The inode bitmap of group `g`.
    pub open spec fn inode_bitmap(self, g: int) -> Seq<u8> {
        self.block(self.groups[g].inode_bitmap as int)
    }

    /// The image with bit `k` of the bitmap in block `bitmap` set or cleared.
    pub open spec fn image_with_bit(self, bitmap: int, k: int, on: bool) -> Seq<u8> {
        let at = bitmap * self.bs() + k / 8;
        self.image.update(at, byte_with_bit(self.image[at], (k % 8) as u8, on))
    }

    /// The volume after block `b` was taken (`on`) or released: its bit
    /// flipped, and the free counts of its group and of the superblock one
    /// less or one more.
    pub open spec fn with_block(self, b: int, on: bool) -> Volume {
        let g = self.block_group(b);
        let d = self.groups[g];
        Volume {
            image: self.image_with_bit(d.block_bitmap as int, self.block_index(b), on),
            sb: Superblock {
                free_blocks_count: if on {
                    drop32(self.sb.free_blocks_count)
                } else {
                    bump32(self.sb.free_blocks_count)
                },
                ..self.sb
            },
            groups: self.groups.update(
                g,
                BlockGroupDescriptor {
                    free_blocks_count: if on {
                        drop16(d.free_blocks_count)
                    } else {
                        bump16(d.free_blocks_count)
                    },
                    ..d
                },
            ),
        }
    }

    /// The volume after inode `n` was taken (`on`) or released: its bit
    /// flipped, the free counts of its group and of the superblock one less
    /// or one more, and for a directory the group's count of directories one
    /// more or one less.
    pub open spec fn with_inode(self, n: int, on: bool, dir: bool) -> Volume {
        let g = self.inode_group(n);
        let d = self.groups[g];
        Volume {
            image: self.image_with_bit(d.inode_bitmap as int, self.inode_index(n), on),
            sb: Superblock {
                free_inodes_count: if on {
                    drop32(self.sb.free_inodes_count)
                } else {
                    bump32(self.sb.free_inodes_count)
                },
                ..self.sb
            },
            groups: self.groups.update(
                g,
                BlockGroupDescriptor {
                    free_inodes_count: if on {
                        drop16(d.free_inodes_count)
                    } else {
                        bump16(d.free_inodes_count)
                    },
                    used_dirs_count: if !dir {
                        d.used_dirs_count
                    } else if on {
                        bump16(d.used_dirs_count)
                    } else {
                        drop16(d.used_dirs_count)
                    },
                    ..d
                },
            ),
        }
    }

    /// Every data block that was free in `before` is free in this volume.
    pub open spec fn frees_only(self, before: Volume) -> bool {
        forall|x: int|
            before.is_data_block(x) && !before.block_used(x) ==> !#[trigger] self.block_used(x)
    }

    /// Whether byte `j` of the device lies in the block bitmap of a group.
    pub open spec fn in_block_bitmap(self, j: int) -> bool {
        exists|g: int|
            0 <= g < self.groups.len() && (#[trigger] self.groups[g]).block_bitmap * self.bs() <= j
                < self.groups[g].block_bitmap * self.bs() + self.bs()
    }

    /// The volume after the first `k` of `blocks` were taken, one after the
    /// other.
    pub open spec fn taken(self, blocks: Seq<u32>, k: int) -> Volume
        decreases k,
    {
        if k <= 0 {
            self
        } else {
            self.taken(blocks, k - 1).with_block(blocks[k - 1] as int, true)
        }
    }

    /// Each of the first `k` of `blocks` was a free data block, counted as
    /// free, when its turn came.
    pub open spec fn takeable(self, blocks: Seq<u32>, k: int) -> bool
        decreases k,
    {
        if k <= 0 {
            true
        } else {
            let v = self.taken(blocks, k - 1);
            let b = blocks[k - 1] as int;
            &&& self.takeable(blocks, k - 1)
            &&& v.wf()
            &&& v.is_data_block(b)
            &&& !v.block_used(b)
            &&& v.sb.free_blocks_count > 0
            &&& v.groups[v.block_group(b)].free_blocks_count > 0
        }
    }

    /// What asking for a block near `preferred` comes to: the one outcome
    /// that it has.
    pub open spec fn block_pick(self, preferred: int) -> Result<u32, Ext2Error> {
        choose|r: Result<u32, Ext2Error>| self.block_alloc_outcome(preferred, r)
    }

    /// What asking for an inode near `preferred` comes to, for a directory
    /// (`dir`) or for something else: the one outcome that it has.
    pub open spec fn inode_pick(self, preferred: int, dir: bool) -> Result<u32, Ext2Error> {
        choose|r: Result<u32, Ext2Error>| self.inode_alloc_outcome(preferred, dir, r)
    }

    /// The first `k` of `blocks` are what asking for a block near `preferred`
    /// gives, time after time, each block taken before the next is asked for.
    pub open spec fn run_ok(self, preferred: int, blocks: Seq<u32>, k: int) -> bool {
        forall|i: int|
            0 <= i < k ==> (#[trigger] self.taken(blocks, i)).block_alloc_outcome(
                preferred,
                Ok::<u32, Ext2Error>(blocks[i]),
            )
    }

    /// Asking for `count` blocks near `preferred` stops with the error `e`
    /// after the blocks `had` were given.
    pub open spec fn run_stops(
        self,
        preferred: int,
        count: int,
        had: Seq<u32>,
        e: Ext2Error,
    ) -> bool {
        &&& had.len() < count
        &&& self.run_ok(preferred, had, had.len() as int)
        &&& self.taken(had, had.len() as int).block_alloc_outcome(
            preferred,
            Err::<u32, Ext2Error>(e),
        )
    }

    /// What asking for a block near `preferred` comes to.
    ///
    /// The group is the one closest to `preferred` whose descriptor counts a
    /// free block; with none, `OutOfSpace`. The block is the lowest one of
    /// that group whose bit is clear. `CorruptLayout` where the superblock
    /// counts no free block, where the group's bitmap has no clear bit, or
    /// where the clear bit stands for the block of the superblock.
    pub open spec fn block_alloc_outcome(self, preferred: int, r: Result<u32, Ext2Error>) -> bool {
        match r {
            Ok(b) => {
                let g = self.block_group(b as int);
                &&& self.is_data_block(b as int)
                &&& self.sb.free_blocks_count > 0
                &&& is_closest(self.groups_with_blocks(), preferred, g)
                &&& is_first_clear(
                    self.block_bitmap(g),
                    self.group_blocks(g),
                    self.block_index(b as int),
                )
            },
            Err(Ext2Error::OutOfSpace) => forall|g: int|
                0 <= g < self.groups.len() ==> !#[trigger] self.groups_with_blocks()[g],
            Err(Ext2Error::CorruptLayout) => exists|g: int| #[trigger]
                is_closest(self.groups_with_blocks(), preferred, g) && {
                    ||| self.sb.free_blocks_count == 0
                    ||| all_set(self.block_bitmap(g), self.group_blocks(g))
                    ||| is_first_clear(self.block_bitmap(g), self.group_blocks(g), 0) && g == 0
                },
            Err(_) => false,
        }
    }

    /// What asking for an inode near `preferred` comes to, for a directory
    /// (`dir`) or for something else.
    ///
    /// The group is the one closest to `preferred` whose descriptor counts a
    /// free inode; with none, `OutOfSpace`. The inode is the lowest one of
    /// that group whose bit is clear. `CorruptLayout` where the superblock
    /// counts no free inode, where the group's bitmap has no clear bit, or
    /// where the group's count of directories cannot go up.
    pub open spec fn inode_alloc_outcome(
        self,
        preferred: int,
        dir: bool,
        r: Result<u32, Ext2Error>,
    ) -> bool {
        match r {
            Ok(n) => {
                let g = self.inode_group(n as int);
                &&& self.inode_valid(n as int)
                &&& self.sb.free_inodes_count > 0
                &&& (dir ==> self.groups[g].used_dirs_count < 0xffff)
                &&& is_closest(self.groups_with_inodes(), preferred, g)
                &&& is_first_clear(
                    self.inode_bitmap(g),
                    self.group_inodes(g),
                    self.inode_index(n as int),
                )
            },
            Err(Ext2Error::OutOfSpace) => forall|g: int|
                0 <= g < self.groups.len() ==> !#[trigger] self.groups_with_inodes()[g],
            Err(Ext2Error::CorruptLayout) => exists|g: int| #[trigger]
                is_closest(self.groups_with_inodes(), preferred, g) && {
                    ||| self.sb.free_inodes_count == 0
                    ||| dir && self.groups[g].used_dirs_count == 0xffff
                    ||| all_set(self.inode_bitmap(g), self.group_inodes(g))
                },
            Err(_) => false,
        }
    }
}

/// Among the candidates one group only is the closest to `preferred`.
pub proof fn lemma_closest_unique(candidates: Seq<bool>, preferred: int, g: int, h: int)
    requires
        is_closest(candidates, preferred, g),
        is_closest(candidates, preferred, h),
    ensures
        g == h,
{
}

/// Asking for a block near a group has one outcome only: which block is
/// given, or which error, depends on the volume and the group alone.
pub proof fn lemma_block_outcome_unique(
    v: Volume,
    preferred: int,
    a: Result<u32, Ext2Error>,
    b: Result<u32, Ext2Error>,
)
    requires
        v.wf(),
        v.block_alloc_outcome(preferred, a),
        v.block_alloc_outcome(preferred, b),
    ensures
        a == b,
{
    let c = v.groups_with_blocks();
    match (a, b) {
        (Ok(x), Ok(y)) => {
            lemma_closest_unique(c, preferred, v.block_group(x as int), v.block_group(y as int));
            lemma_block_place(v, x as int);
            lemma_block_place(v, y as int);
        },
        (Ok(x), Err(e)) => {
            lemma_outcome_apart(v, preferred, x, e);
        },
        (Err(e), Ok(y)) => {
            lemma_outcome_apart(v, preferred, y, e);
        },
        (Err(d), Err(e)) => {
            if d != e {
                let g = choose|g: int| is_closest(c, preferred, g);
                assert(c[g]);
            }
        },
    }
}

/// Where asking for a block near a group gives a block, it gives no error.
proof fn lemma_outcome_apart(v: Volume, preferred: int, x: u32, e: Ext2Error)
    requires
        v.wf(),
        v.block_alloc_outcome(preferred, Ok::<u32, Ext2Error>(x)),
    ensures
        !v.block_alloc_outcome(preferred, Err::<u32, Ext2Error>(e)),
{
    let c = v.groups_with_blocks();
    let g = v.block_group(x as int);
    lemma_block_place(v, x as int);
    assert(c[g]);
    if v.block_alloc_outcome(preferred, Err::<u32, Ext2Error>(e)) {
        assert(e == Ext2Error::CorruptLayout);
        let h = choose|h: int| #[trigger]
            is_closest(c, preferred, h) && {
                ||| v.sb.free_blocks_count == 0
                ||| all_set(v.block_bitmap(h), v.group_blocks(h))
                ||| is_first_clear(v.block_bitmap(h), v.group_blocks(h), 0) && h == 0
            };
        lemma_closest_unique(c, preferred, g, h);
        let k = v.block_index(x as int);
        let bits = v.block_bitmap(g);
        assert(!bit_at(bits, k));
        assert(0 <= k < v.group_blocks(g));
        if is_first_clear(bits, v.group_blocks(g), 0) && g == 0 {
            if k > 0 {
                assert(bit_at(bits, 0));
            }
            assert(x == v.group_first_block(0) + 0);
        }
    }
}

/// Asking for an inode near a group has one outcome only: which inode is
/// given, or which error, depends on the volume, the group and the kind
/// alone.
pub proof fn lemma_inode_outcome_unique(
    v: Volume,
    preferred: int,
    dir: bool,
    a: Result<u32, Ext2Error>,
    b: Result<u32, Ext2Error>,
)
    requires
        v.wf(),
        v.inode_alloc_outcome(preferred, dir, a),
        v.inode_alloc_outcome(preferred, dir, b),
    ensures
        a == b,
{
    let c = v.groups_with_inodes();
    let ipg = v.sb.inodes_per_group as int;
    match (a, b) {
        (Ok(x), Ok(y)) => {
            lemma_closest_unique(c, preferred, v.inode_group(x as int), v.inode_group(y as int));
            assert(x == y) by (nonlinear_arith)
                requires
                    ipg > 0,
                    (x - 1) / ipg == (y - 1) / ipg,
                    (x - 1) % ipg == (y - 1) % ipg,
            ;
        },
        (Ok(x), Err(e)) => {
            lemma_inode_outcome_apart(v, preferred, dir, x, e);
        },
        (Err(e), Ok(y)) => {
            lemma_inode_outcome_apart(v, preferred, dir, y, e);
        },
        (Err(d), Err(e)) => {
            if d != e {
                let g = choose|g: int| is_closest(c, preferred, g);
                assert(c[g]);
            }
        },
    }
}

/// Where asking for an inode near a group gives an inode, it gives no error.
proof fn lemma_inode_outcome_apart(v: Volume, preferred: int, dir: bool, x: u32, e: Ext2Error)
    requires
        v.wf(),
        v.inode_alloc_outcome(preferred, dir, Ok::<u32, Ext2Error>(x)),
    ensures
        !v.inode_alloc_outcome(preferred, dir, Err::<u32, Ext2Error>(e)),
{
    let c = v.groups_with_inodes();
    let g = v.inode_group(x as int);
    assert(c[g]);
    if v.inode_alloc_outcome(preferred, dir, Err::<u32, Ext2Error>(e)) {
        assert(e == Ext2Error::CorruptLayout);
        let h = choose|h: int| #[trigger]
            is_closest(c, preferred, h) && {
                ||| v.sb.free_inodes_count == 0
                ||| dir && v.groups[h].used_dirs_count == 0xffff
                ||| all_set(v.inode_bitmap(h), v.group_inodes(h))
            };
        lemma_closest_unique(c, preferred, g, h);
        assert(!bit_at(v.inode_bitmap(g), v.inode_index(x as int)));
    }
}

/// An outcome of asking for a block near a group is the outcome.
pub proof fn lemma_block_pick(v: Volume, preferred: int, r: Result<u32, Ext2Error>)
    requires
        v.wf(),
        v.block_alloc_outcome(preferred, r),
    ensures
        v.block_pick(preferred) == r,
{
    lemma_block_outcome_unique(v, preferred, r, v.block_pick(preferred));
}

/// An outcome of asking for an inode near a group is the outcome.
pub proof fn lemma_inode_pick(v: Volume, preferred: int, dir: bool, r: Result<u32, Ext2Error>)
    requires
        v.wf(),
        v.inode_alloc_outcome(preferred, dir, r),
    ensures
        v.inode_pick(preferred, dir) == r,
{
    lemma_inode_outcome_unique(v, preferred, dir, r, v.inode_pick(preferred, dir));
}

/// Two runs of asking for blocks near a group, on one volume, give the same
/// blocks as far as both go, and leave the same volume.
pub proof fn lemma_run_prefix(v: Volume, preferred: int, a: Seq<u32>, b: Seq<u32>, k: int)
    requires
        v.wf(),
        0 <= k <= a.len(),
        k <= b.len(),
        v.run_ok(preferred, a, k),
        v.run_ok(preferred, b, k),
    ensures
        forall|i: int| 0 <= i < k ==> a[i] == b[i],
        v.taken(a, k) == v.taken(b, k),
        v.taken(a, k).wf(),
    decreases k,
{
    if k > 0 {
        lemma_run_prefix(v, preferred, a, b, k - 1);
        let u = v.taken(a, k - 1);
        assert(u.block_alloc_outcome(preferred, Ok::<u32, Ext2Error>(a[k - 1])));
        assert(v.taken(b, k - 1).block_alloc_outcome(preferred, Ok::<u32, Ext2Error>(b[k - 1])));
        lemma_block_outcome_unique(
            u,
            preferred,
            Ok::<u32, Ext2Error>(a[k - 1]),
            Ok::<u32, Ext2Error>(b[k - 1]),
        );
        lemma_with_block(u, a[k - 1] as int, true);
    }
}

/// Asking for `count` blocks near a group has one outcome only: the blocks
/// given, or the blocks given before it stopped and the error it stopped
/// with, depend on the volume, the group and the count alone.
pub proof fn lemma_run_unique(
    v: Volume,
    preferred: int,
    count: int,
    a: Seq<u32>,
    b: Seq<u32>,
    d: Ext2Error,
    e: Ext2Error,
)
    requires
        v.wf(),
    ensures
        a.len() == count && b.len() == count && v.run_ok(preferred, a, count) && v.run_ok(
            preferred,
            b,
            count,
        ) ==> a == b,
        v.run_stops(preferred, count, a, d) && v.run_stops(preferred, count, b, e) ==> a == b && d
            == e,
        v.run_stops(preferred, count, a, d) && b.len() == count ==> !v.run_ok(preferred, b, count),
{
    if a.len() == count && b.len() == count && v.run_ok(preferred, a, count) && v.run_ok(
        preferred,
        b,
        count,
    ) {
        lemma_run_prefix(v, preferred, a, b, count);
        assert(a =~= b);
    }
    if v.run_stops(preferred, count, a, d) {
        let k = a.len() as int;
        if v.run_stops(preferred, count, b, e) {
            let m = b.len() as int;
            let least = if k <= m {
                k
            } else {
                m
            };
            lemma_run_prefix(v, preferred, a, b, least);
            let u = v.taken(a, least);
            if k < m {
                assert(v.taken(b, k).block_alloc_outcome(preferred, Ok::<u32, Ext2Error>(b[k])));
                lemma_outcome_apart(u, preferred, b[k], d);
            } else if m < k {
                assert(v.taken(a, m).block_alloc_outcome(preferred, Ok::<u32, Ext2Error>(a[m])));
                lemma_outcome_apart(u, preferred, a[m], e);
            } else {
                lemma_block_outcome_unique(
                    u,
                    preferred,
                    Err::<u32, Ext2Error>(d),
                    Err::<u32, Ext2Error>(e),
                );
                assert(a =~= b);
            }
        }
        if b.len() == count && v.run_ok(preferred, b, count) {
            lemma_run_prefix(v, preferred, a, b, k);
            assert(v.taken(b, k).block_alloc_outcome(preferred, Ok::<u32, Ext2Error>(b[k])));
            lemma_outcome_apart(v.taken(a, k), preferred, b[k], d);
        }
    }
}

/// Taking or releasing a block keeps the volume's invariant, gives the bit
/// its new value and leaves every other byte of the device alone.
pub proof fn lemma_with_block(v: Volume, b: int, on: bool)
    requires
        v.wf(),
        v.is_data_block(b),
    ensures
        v.with_block(b, on).wf(),
        v.with_block(b, on).same_geometry(v),
        v.with_block(b, on).block_used(b) == on,
        v.with_block(b, on).image.len() == v.image.len(),
        v.block_used(b) == on ==> v.with_block(b, on).image == v.image,
{
    lemma_block_place(v, b);
    let g = v.block_group(b);
    let k = v.block_index(b);
    let bitmap = v.groups[g].block_bitmap as int;
    lemma_block_fits(v, bitmap);
    let at = bitmap * v.bs() + k / 8;
    lemma_byte_with_bit(v.image[at], (k % 8) as u8, on);
    let w = v.with_block(b, on);
    assert(w.groups[g].block_bitmap == bitmap);
    assert forall|h: int| 0 <= h < w.groups.len() implies w.desc_ok(#[trigger] w.groups[h]) by {
        assert(v.desc_ok(v.groups[h]));
    }
    if v.block_used(b) == on {
        assert(w.image =~= v.image);
    }
}

/// Releasing a block takes no block: what was free stays free.
pub proof fn lemma_release_frees_only(v: Volume, b: int)
    requires
        v.wf(),
        v.is_data_block(b),
    ensures
        v.with_block(b, false).frees_only(v),
{
    lemma_block_place(v, b);
    let g = v.block_group(b);
    let k = v.block_index(b);
    let bitmap = v.groups[g].block_bitmap as int;
    lemma_block_fits(v, bitmap);
    let at = bitmap * v.bs() + k / 8;
    lemma_byte_with_bit(v.image[at], (k % 8) as u8, false);
    let w = v.with_block(b, false);
    assert forall|x: int| v.is_data_block(x) && !v.block_used(x) implies !#[trigger] w.block_used(
        x,
    ) by {
        lemma_block_place(v, x);
        let h = v.block_group(x);
        lemma_block_fits(v, v.groups[h].block_bitmap as int);
        assert(w.groups[h].block_bitmap == v.groups[h].block_bitmap);
    }
}

/// Volumes of one geometry that each take no block from the one before take
/// no block from the first.
pub proof fn lemma_frees_only_trans(a: Volume, b: Volume, c: Volume)
    requires
        b.same_geometry(a),
        b.frees_only(a),
        c.frees_only(b),
    ensures
        c.frees_only(a),
{
    assert forall|x: int| a.is_data_block(x) && !a.block_used(x) implies !#[trigger] c.block_used(
        x,
    ) by {
        assert(!b.block_used(x));
    }
}

/// Releasing a block that was just taken gives the volume back.
pub proof fn lemma_block_undo(v: Volume, b: int)
    requires
        v.wf(),
        v.is_data_block(b),
        !v.block_used(b),
        v.sb.free_blocks_count > 0,
        v.groups[v.block_group(b)].free_blocks_count > 0,
    ensures
        v.with_block(b, true).with_block(b, false) == v,
{
    lemma_block_place(v, b);
    let g = v.block_group(b);
    let k = v.block_index(b);
    let bitmap = v.groups[g].block_bitmap as int;
    lemma_block_fits(v, bitmap);
    let at = bitmap * v.bs() + k / 8;
    lemma_byte_with_bit(v.image[at], (k % 8) as u8, true);
    let w = v.with_block(b, true);
    let u = w.with_block(b, false);
    assert(u.image =~= v.image);
    assert(u.groups =~= v.groups);
    assert(u.sb == v.sb);
}

/// What taking the first `k` blocks of a list comes to depends on those `k`
/// only.
pub proof fn lemma_taken_prefix(v: Volume, a: Seq<u32>, b: Seq<u32>, k: int)
    requires
        0 <= k <= a.len(),
        k <= b.len(),
        forall|i: int| 0 <= i < k ==> a[i] == b[i],
    ensures
        v.taken(a, k) == v.taken(b, k),
        v.takeable(a, k) == v.takeable(b, k),
    decreases k,
{
    if k > 0 {
        lemma_taken_prefix(v, a, b, k - 1);
    }
}

/// Taking blocks changes neither the geometry nor where the groups keep
/// their tables.
pub proof fn lemma_taken_keeps_geometry(v: Volume, blocks: Seq<u32>, k: int)
    requires
        v.wf(),
        0 <= k <= blocks.len(),
        v.takeable(blocks, k),
    ensures
        v.taken(blocks, k).wf(),
        v.taken(blocks, k).same_geometry(v),
        v.taken(blocks, k).sb.free_blocks_count == v.sb.free_blocks_count - k,
    decreases k,
{
    if k > 0 {
        lemma_taken_keeps_geometry(v, blocks, k - 1);
        let u = v.taken(blocks, k - 1);
        lemma_with_block(u, blocks[k - 1] as int, true);
        lemma_block_place(u, blocks[k - 1] as int);
    }
}

/// Taking a block changes no byte outside the block bitmaps and releases no
/// block.
pub proof fn lemma_take_touches_bitmap(v: Volume, b: int)
    requires
        v.wf(),
        v.is_data_block(b),
    ensures
        forall|j: int|
            0 <= j < v.image.len() && !v.in_block_bitmap(j) ==> #[trigger] v.with_block(
                b,
                true,
            ).image[j] == v.image[j],
        forall|x: int|
            v.is_data_block(x) && v.block_used(x) ==> #[trigger] v.with_block(b, true).block_used(
                x,
            ),
{
    lemma_block_place(v, b);
    let g = v.block_group(b);
    let k = v.block_index(b);
    let bitmap = v.groups[g].block_bitmap as int;
    lemma_block_fits(v, bitmap);
    let at = bitmap * v.bs() + k / 8;
    lemma_byte_with_bit(v.image[at], (k % 8) as u8, true);
    let w = v.with_block(b, true);
    assert(v.in_block_bitmap(at)) by {
        assert(v.groups[g].block_bitmap * v.bs() <= at < v.groups[g].block_bitmap * v.bs()
            + v.bs());
    }
    assert forall|x: int| v.is_data_block(x) && v.block_used(x) implies #[trigger] w.block_used(
        x,
    ) by {
        lemma_block_place(v, x);
        let h = v.block_group(x);
        lemma_block_fits(v, v.groups[h].block_bitmap as int);
        assert(w.groups[h].block_bitmap == v.groups[h].block_bitmap);
    }
}

/// Taking blocks changes no byte outside the block bitmaps, and each of the
/// blocks was free before any was taken.
pub proof fn lemma_taken_touches_bitmaps(v: Volume, blocks: Seq<u32>, k: int)
    requires
        v.wf(),
        0 <= k <= blocks.len(),
        v.takeable(blocks, k),
    ensures
        forall|j: int|
            0 <= j < v.image.len() && !v.in_block_bitmap(j) ==> #[trigger] v.taken(
                blocks,
                k,
            ).image[j] == v.image[j],
        forall|x: int|
            v.is_data_block(x) && v.block_used(x) ==> #[trigger] v.taken(blocks, k).block_used(x),
        forall|i: int| 0 <= i < k ==> !v.block_used(#[trigger] blocks[i] as int),
    decreases k,
{
    if k > 0 {
        lemma_taken_touches_bitmaps(v, blocks, k - 1);
        lemma_taken_keeps_geometry(v, blocks, k - 1);
        let u = v.taken(blocks, k - 1);
        let b = blocks[k - 1] as int;
        lemma_take_touches_bitmap(u, b);
        let w = v.taken(blocks, k);
        assert forall|j: int|
            0 <= j < v.image.len() && !v.in_block_bitmap(j) implies #[trigger] w.image[j]
            == v.image[j] by {
            if u.in_block_bitmap(j) {
                let g = choose|g: int|
                    0 <= g < u.groups.len() && (#[trigger] u.groups[g]).block_bitmap * u.bs() <= j
                        < u.groups[g].block_bitmap * u.bs() + u.bs();
                assert(v.groups[g].block_bitmap == u.groups[g].block_bitmap);
                assert(v.in_block_bitmap(j));
            }
            assert(u.image[j] == v.image[j]);
        }
        assert forall|x: int| v.is_data_block(x) && v.block_used(x) implies #[trigger] w.block_used(
            x,
        ) by {
            assert(u.block_used(x));
        }
        assert(!v.block_used(b)) by {
            if v.block_used(b) {
                assert(u.block_used(b));
            }
        }
    }
}

/// Taking or releasing an inode keeps the volume's invariant, gives the bit
/// its new value and leaves every other byte of the device alone.
pub proof fn lemma_with_inode(v: Volume, n: int, on: bool, dir: bool)
    requires
        v.wf(),
        v.inode_valid(n),
    ensures
        v.with_inode(n, on, dir).wf(),
        v.with_inode(n, on, dir).same_geometry(v),
        v.with_inode(n, on, dir).inode_used(n) == on,
        v.with_inode(n, on, dir).image.len() == v.image.len(),
{
    lemma_inode_fits(v, n);
    let g = v.inode_group(n);
    let k = v.inode_index(n);
    let bitmap = v.groups[g].inode_bitmap as int;
    lemma_block_fits(v, bitmap);
    let at = bitmap * v.bs() + k / 8;
    lemma_byte_with_bit(v.image[at], (k % 8) as u8, on);
    let w = v.with_inode(n, on, dir);
    assert(w.groups[g].inode_bitmap == bitmap);
    assert forall|h: int| 0 <= h < w.groups.len() implies w.desc_ok(#[trigger] w.groups[h]) by {
        assert(v.desc_ok(v.groups[h]));
    }
}

/// An inode that is released and is then the lowest free one of its group is
/// the one that the next allocation near that group gives.
pub proof fn lemma_freed_inode_is_reused(v: Volume, n: int, dir: bool, r: Result<u32, Ext2Error>)
    requires
        v.wf(),
        v.inode_valid(n),
        v.inode_used(n),
        forall|j: int|
            0 <= j < v.inode_index(n) ==> bit_at(v.inode_bitmap(v.inode_group(n)), j),
        v.with_inode(n, false, dir).inode_alloc_outcome(v.inode_group(n), dir, r),
    ensures
        r == Ok::<u32, Ext2Error>(n as u32),
{
    lemma_inode_fits(v, n);
    lemma_with_inode(v, n, false, dir);
    let g = v.inode_group(n);
    let k = v.inode_index(n);
    let w = v.with_inode(n, false, dir);
    let bitmap = v.groups[g].inode_bitmap as int;
    lemma_block_fits(v, bitmap);
    let at = bitmap * v.bs() + k / 8;
    lemma_byte_with_bit(v.image[at], (k % 8) as u8, false);
    assert(w.groups[g].inode_bitmap == bitmap);
    assert(w.groups_with_inodes()[g]);
    assert(group_distance(g, g) == 0);
    // The freed bit is clear and every lower bit of the group is still set.
    assert(!bit_at(w.inode_bitmap(g), k)) by {
        assert(w.inode_bitmap(g)[k / 8] == w.image[at]);
    }
    assert forall|j: int| 0 <= j < k implies bit_at(w.inode_bitmap(g), j) by {
        assert(bit_at(v.inode_bitmap(g), j));
        assert(v.inode_bitmap(g)[j / 8] == v.image[bitmap * v.bs() + j / 8]);
        assert(w.inode_bitmap(g)[j / 8] == w.image[bitmap * v.bs() + j / 8]);
        if j / 8 == k / 8 {
            assert(((j % 8) as u8) != ((k % 8) as u8));
        }
    }
    assert(k < w.group_inodes(g));
    match r {
        Ok(m) => {
            let gm = w.inode_group(m as int);
            // Group `g` is at distance zero, so the closest group is `g`.
            assert(gm == g);
            let km = w.inode_index(m as int);
            assert(km == k) by {
                if km < k {
                    assert(bit_at(w.inode_bitmap(g), km));
                } else if k < km {
                    assert(!bit_at(w.inode_bitmap(g), k));
                }
            }
            lemma_inode_fits(w, m as int);
        },
        Err(Ext2Error::OutOfSpace) => {
            assert(!w.groups_with_inodes()[g]);
        },
        Err(Ext2Error::CorruptLayout) => {
            let h = choose|h: int| #[trigger]
                is_closest(w.groups_with_inodes(), g, h) && (w.sb.free_inodes_count == 0 || (dir
                    && w.groups[h].used_dirs_count == 0xffff) || all_set(
                    w.inode_bitmap(h),
                    w.group_inodes(h),
                ));
            assert(h == g);
            assert(!bit_at(w.inode_bitmap(g), k));
        },
        Err(_) => {},
    }
}

impl Ext2FileSystem {
    /// The group closest to `preferred` whose descriptor counts a free block
    /// (or, with `inodes`, a free inode); of two equally close ones, the lower.
    pub fn closest_group(&self, preferred: u32, inodes: bool) -> (r: Option<u32>)
        requires
            self.wf(),
        ensures
            match r {
                Some(g) => is_closest(self@.candidates(inodes), preferred as int, g as int),
                None => forall|h: int|
                    0 <= h < self.groups@.len() ==> !#[trigger] self@.candidates(inodes)[h],
            },
    {
        let ghost cands = self@.candidates(inodes);
        let n = self.groups.len();
        proof {
            lemma_group_count_bound(self@);
        }
        let mut best: Option<u32> = None;
        let mut h: usize = 0;
        while h < n
            invariant
                h <= n,
                n == self.groups@.len(),
                n <= 0xffff_ffff,
                cands == self@.candidates(inodes),
                forall|i: int|
                    0 <= i < n ==> cands[i] == (if inodes {
                        self.groups@[i].free_inodes_count > 0
                    } else {
                        self.groups@[i].free_blocks_count > 0
                    }),
                match best {
                    Some(g) => {
                        &&& g < h
                        &&& cands[g as int]
                        &&& forall|i: int|
                            0 <= i < h && cands[i] ==> group_distance(g as int, preferred as int)
                                < group_distance(i, preferred as int) || (group_distance(
                                g as int,
                                preferred as int,
                            ) == group_distance(i, preferred as int) && g <= i)
                    },
                    None => forall|i: int| 0 <= i < h ==> !cands[i],
                },
            decreases n - h,
        {
            let free = if inodes {
                self.groups[h].free_inodes_count > 0
            } else {
                self.groups[h].free_blocks_count > 0
            };
            if free {
                let cur = h as u32;
                let dh = if cur >= preferred {
                    cur - preferred
                } else {
                    preferred - cur
                };
                match best {
                    Some(g) => {
                        let dg = if g >= preferred {
                            g - preferred
                        } else {
                            preferred - g
                        };
                        if dh < dg {
                            best = Some(cur);
                        }
                    },
                    None => {
                        best = Some(cur);
                    },
                }
            }
            h = h + 1;
        }
        best
    }

    /// Takes the lowest free block of the group closest to `preferred_group`
    /// that counts a free block. A failure changes nothing.
    pub fn allocate_block(&mut self, preferred_group: u32) -> (r: Result<u32, Ext2Error>)
        requires
            old(self).wf(),
        ensures
            final(self).wf(),
            final(self).root == old(self).root,
            final(self)@.same_geometry(old(self)@),
            old(self)@.block_alloc_outcome(preferred_group as int, r),
            match r {
                Ok(b) => {
                    &&& final(self)@ == old(self)@.with_block(b as int, true)
                    &&& !old(self)@.block_used(b as int)
                    &&& final(self)@.block_used(b as int)
                },
                Err(_) => final(self)@ == old(self)@,
            },
    {
        assert(self@.candidates(false) == self@.groups_with_blocks());
        let g = match self.closest_group(preferred_group, false) {
            Some(g) => g,
            None => {
                return Err(Ext2Error::OutOfSpace);
            },
        };
        let ghost v = self@;
        if self.superblock.free_blocks_count == 0 {
            return Err(Ext2Error::CorruptLayout);
        }
        let d = self.groups[g as usize];
        assert(v.desc_ok(v.groups[g as int]));
        assert(0 <= g * self.superblock.blocks_per_group <= 0xffff_ffff * 524288)
            by (nonlinear_arith)
            requires
                0 <= g <= 0xffff_ffff,
                0 <= self.superblock.blocks_per_group <= 524288,
        ;
        let first = self.superblock.first_data_block as u64 + (g as u64) * (
        self.superblock.blocks_per_group as u64);
        let total = self.superblock.blocks_count as u64;
        let nbits: u64 = if first >= total {
            0
        } else if total - first < self.superblock.blocks_per_group as u64 {
            total - first
        } else {
            self.superblock.blocks_per_group as u64
        };
        let bitmap = self.read_block(d.block_bitmap);
        let k = match find_first_clear(bitmap.as_slice(), nbits as usize) {
            Some(k) => k,
            None => {
                return Err(Ext2Error::CorruptLayout);
            },
        };
        if first + k as u64 <= self.superblock.first_data_block as u64 {
            assert(g == 0 && k == 0) by (nonlinear_arith)
                requires
                    first == self.superblock.first_data_block + g
                        * self.superblock.blocks_per_group,
                    first + k <= self.superblock.first_data_block,
                    self.superblock.blocks_per_group > 0,
            ;
            return Err(Ext2Error::CorruptLayout);
        }
        let b = (first + k as u64) as u32;
        proof {
            lemma_group_place(v, g as int, k as int);
            lemma_with_block(v, b as int, true);
            lemma_block_fits(v, d.block_bitmap as int);
            assert(v.block_bitmap(g as int)[k as int / 8] == v.image[d.block_bitmap * v.bs() + k
                / 8]);
        }
        let at = self.block_offset(d.block_bitmap) + k / 8;
        let byte = self.dev.byte(at);
        self.dev.set_byte(at, flip_byte(byte, (k % 8) as u8, true));
        self.superblock.free_blocks_count = self.superblock.free_blocks_count - 1;
        let mut nd = d;
        nd.free_blocks_count = d.free_blocks_count - 1;
        self.groups[g as usize] = nd;
        proof {
            let w = v.with_block(b as int, true);
            assert(self@.image =~= w.image);
            assert(self@.groups =~= w.groups);
            assert(self@.sb == w.sb);
        }
        Ok(b)
    }

    /// Takes `count` blocks near `preferred_group`, one after the other. Where
    /// one of them cannot be had, those taken before it are released again
    /// and nothing has changed.
    pub fn allocate_many(&mut self, preferred_group: u32, count: usize) -> (r: Result<
        Vec<u32>,
        Ext2Error,
    >)
        requires
            old(self).wf(),
        ensures
            final(self).wf(),
            final(self).root == old(self).root,
            final(self)@.same_geometry(old(self)@),
            match r {
                Ok(blocks) => {
                    &&& blocks@.len() == count
                    &&& old(self)@.run_ok(preferred_group as int, blocks@, count as int)
                    &&& old(self)@.takeable(blocks@, count as int)
                    &&& final(self)@ == old(self)@.taken(blocks@, count as int)
                    &&& forall|i: int|
                        0 <= i < count ==> old(self)@.is_data_block(#[trigger] blocks@[i] as int)
                },
                Err(e) => {
                    &&& final(self)@ == old(self)@
                    &&& (e == Ext2Error::OutOfSpace || e == Ext2Error::CorruptLayout)
                    &&& exists|had: Seq<u32>| #[trigger]
                        old(self)@.run_stops(preferred_group as int, count as int, had, e)
                },
            },
    {
        let ghost v0 = self@;
        let mut blocks: Vec<u32> = Vec::new();
        while blocks.len() < count
            invariant
                self.wf(),
                v0.wf(),
                v0 == old(self)@,
                self.root == old(self).root,
                blocks@.len() <= count,
                v0.takeable(blocks@, blocks@.len() as int),
                v0.run_ok(preferred_group as int, blocks@, blocks@.len() as int),
                self@ == v0.taken(blocks@, blocks@.len() as int),
                forall|i: int|
                    0 <= i < blocks@.len() ==> v0.is_data_block(#[trigger] blocks@[i] as int),
            decreases count - blocks@.len(),
        {
            let ghost before = blocks@;
            let ghost k = blocks@.len() as int;
            proof {
                lemma_taken_keeps_geometry(v0, before, k);
            }
            match self.allocate_block(preferred_group) {
                Ok(b) => {
                    blocks.push(b);
                    proof {
                        lemma_taken_prefix(v0, before, blocks@, k);
                        let u = v0.taken(before, k);
                        assert(u.groups_with_blocks()[u.block_group(b as int)]);
                        assert forall|i: int| 0 <= i < k + 1 implies (#[trigger] v0.taken(
                            blocks@,
                            i,
                        )).block_alloc_outcome(
                            preferred_group as int,
                            Ok::<u32, Ext2Error>(blocks@[i]),
                        ) by {
                            lemma_taken_prefix(v0, before, blocks@, i);
                            if i < k {
                                assert(v0.taken(before, i).block_alloc_outcome(
                                    preferred_group as int,
                                    Ok::<u32, Ext2Error>(before[i]),
                                ));
                            }
                        }
                    }
                },
                Err(e) => {
                    assert(v0.run_stops(preferred_group as int, count as int, blocks@, e));
                    self.release_many(&blocks, Ghost(v0));
                    return Err(e);
                },
            }
        }
        proof {
            lemma_taken_keeps_geometry(v0, blocks@, count as int);
        }
        Ok(blocks)
    }

    /// Releases blocks that were taken one after the other, the last one
    /// first, which gives back the volume as it was before the first of them
    /// was taken.
    pub(crate) fn release_many(&mut self, blocks: &Vec<u32>, Ghost(v0): Ghost<Volume>)
        requires
            old(self).wf(),
            v0.wf(),
            v0.takeable(blocks@, blocks@.len() as int),
            old(self)@ == v0.taken(blocks@, blocks@.len() as int),
        ensures
            final(self).wf(),
            final(self).root == old(self).root,
            final(self)@ == v0,
    {
        let mut k = blocks.len();
        while k > 0
            invariant
                k <= blocks@.len(),
                self.wf(),
                v0.wf(),
                self.root == old(self).root,
                v0.takeable(blocks@, k as int),
                self@ == v0.taken(blocks@, k as int),
            decreases k,
        {
            proof {
                let u = v0.taken(blocks@, k - 1);
                lemma_with_block(u, blocks@[k - 1] as int, true);
                lemma_block_undo(u, blocks@[k - 1] as int);
            }
            sure(self.free_block(blocks[k - 1]));
            k = k - 1;
        }
    }

    /// Releases block `b`. Releasing a block that is free already changes
    /// nothing and succeeds. `CorruptLayout` where `b` is no data block.
    pub fn free_block(&mut self, b: u32) -> (r: Result<(), Ext2Error>)
        requires
            old(self).wf(),
        ensures
            final(self).wf(),
            final(self).root == old(self).root,
            final(self)@.same_geometry(old(self)@),
            final(self)@.frees_only(old(self)@),
            match r {
                Ok(_) => {
                    &&& old(self)@.is_data_block(b as int)
                    &&& final(self)@ == (if old(self)@.block_used(b as int) {
                        old(self)@.with_block(b as int, false)
                    } else {
                        old(self)@
                    })
                    &&& !final(self)@.block_used(b as int)
                },
                Err(e) => e == Ext2Error::CorruptLayout && !old(self)@.is_data_block(b as int)
                    && final(self)@ == old(self)@,
            },
    {
        if b <= self.superblock.first_data_block || b >= self.superblock.blocks_count {
            return Err(Ext2Error::CorruptLayout);
        }
        let ghost v = self@;
        proof {
            lemma_block_place(v, b as int);
            lemma_with_block(v, b as int, false);
            lemma_release_frees_only(v, b as int);
        }
        let x = b - self.superblock.first_data_block;
        let g = x / self.superblock.blocks_per_group;
        let k = x % self.superblock.blocks_per_group;
        let d = self.groups[g as usize];
        proof {
            lemma_block_fits(v, d.block_bitmap as int);
        }
        let at = self.block_offset(d.block_bitmap) + (k / 8) as usize;
        let byte = self.dev.byte(at);
        if !test_byte(byte, (k % 8) as u8) {
            return Ok(());
        }
        self.dev.set_byte(at, flip_byte(byte, (k % 8) as u8, false));
        if self.superblock.free_blocks_count < 0xffff_ffff {
            self.superblock.free_blocks_count = self.superblock.free_blocks_count + 1;
        }
        let mut nd = d;
        if d.free_blocks_count < 0xffff {
            nd.free_blocks_count = d.free_blocks_count + 1;
        }
        self.groups[g as usize] = nd;
        proof {
            let w = v.with_block(b as int, false);
            assert(self@.image =~= w.image);
            assert(self@.groups =~= w.groups);
            assert(self@.sb == w.sb);
        }
        Ok(())
    }

    /// Takes the lowest free inode of the group closest to `preferred_group`
    /// that counts a free inode. A failure changes nothing.
    pub fn allocate_inode(&mut self, preferred_group: u32, is_directory: bool) -> (r: Result<
        u32,
        Ext2Error,
    >)
        requires
            old(self).wf(),
        ensures
            final(self).wf(),
            final(self).root == old(self).root,
            final(self)@.same_geometry(old(self)@),
            old(self)@.inode_alloc_outcome(preferred_group as int, is_directory, r),
            match r {
                Ok(n) => {
                    &&& final(self)@ == old(self)@.with_inode(n as int, true, is_directory)
                    &&& !old(self)@.inode_used(n as int)
                    &&& final(self)@.inode_used(n as int)
                },
                Err(_) => final(self)@ == old(self)@,
            },
    {
        assert(self@.candidates(true) == self@.groups_with_inodes());
        let g = match self.closest_group(preferred_group, true) {
            Some(g) => g,
            None => {
                return Err(Ext2Error::OutOfSpace);
            },
        };
        let ghost v = self@;
        if self.superblock.free_inodes_count == 0 {
            return Err(Ext2Error::CorruptLayout);
        }
        let d = self.groups[g as usize];
        if is_directory && d.used_dirs_count == 0xffff {
            return Err(Ext2Error::CorruptLayout);
        }
        assert(v.desc_ok(v.groups[g as int]));
        let ipg = self.superblock.inodes_per_group as u64;
        assert(0 <= g * ipg <= 0xffff_ffff * 524288) by (nonlinear_arith)
            requires
                0 <= g <= 0xffff_ffff,
                0 <= ipg <= 524288,
        ;
        let first = (g as u64) * ipg;
        let total = self.superblock.inodes_count as u64;
        let nbits: u64 = if first >= total {
            0
        } else if total - first < ipg {
            total - first
        } else {
            ipg
        };
        let bitmap = self.read_block(d.inode_bitmap);
        let k = match find_first_clear(bitmap.as_slice(), nbits as usize) {
            Some(k) => k,
            None => {
                return Err(Ext2Error::CorruptLayout);
            },
        };
        let n = (first + k as u64 + 1) as u32;
        proof {
            lemma_inode_place(v, g as int, k as int);
            lemma_with_inode(v, n as int, true, is_directory);
            lemma_block_fits(v, d.inode_bitmap as int);
            assert(v.inode_bitmap(g as int)[k as int / 8] == v.image[d.inode_bitmap * v.bs() + k
                / 8]);
        }
        let at = self.block_offset(d.inode_bitmap) + k / 8;
        let byte = self.dev.byte(at);
        self.dev.set_byte(at, flip_byte(byte, (k % 8) as u8, true));
        self.superblock.free_inodes_count = self.superblock.free_inodes_count - 1;
        let mut nd = d;
        nd.free_inodes_count = d.free_inodes_count - 1;
        if is_directory {
            nd.used_dirs_count = d.used_dirs_count + 1;
        }
        self.groups[g as usize] = nd;
        proof {
            let w = v.with_inode(n as int, true, is_directory);
            assert(self@.image =~= w.image);
            assert(self@.groups =~= w.groups);
            assert(self@.sb == w.sb);
        }
        Ok(n)
    }

    /// Releases inode `n`, which is a directory (`dir`) or something else.
    /// Releasing an inode that is free already changes nothing and succeeds.
    /// `NotFound` where `n` is 0 or past the last inode.
    pub fn release_inode(&mut self, n: u32, dir: bool) -> (r: Result<(), Ext2Error>)
        requires
            old(self).wf(),
        ensures
            final(self).wf(),
            final(self).root == old(self).root,
            final(self)@.same_geometry(old(self)@),
            match r {
                Ok(_) => {
                    &&& old(self)@.inode_valid(n as int)
                    &&& final(self)@ == (if old(self)@.inode_used(n as int) {
                        old(self)@.with_inode(n as int, false, dir)
                    } else {
                        old(self)@
                    })
                    &&& !final(self)@.inode_used(n as int)
                },
                Err(e) => e == Ext2Error::NotFound && !old(self)@.inode_valid(n as int)
                    && final(self)@ == old(self)@,
            },
    {
        if n == 0 || n > self.superblock.inodes_count {
            return Err(Ext2Error::NotFound);
        }
        if !self.inode_in_use(n) {
            return Ok(());
        }
        let ghost v = self@;
        proof {
            lemma_inode_fits(v, n as int);
            lemma_with_inode(v, n as int, false, dir);
        }
        let g = (n - 1) / self.superblock.inodes_per_group;
        let k = (n - 1) % self.superblock.inodes_per_group;
        let d = self.groups[g as usize];
        proof {
            lemma_block_fits(v, d.inode_bitmap as int);
        }
        let at = self.block_offset(d.inode_bitmap) + (k / 8) as usize;
        let byte = self.dev.byte(at);
        self.dev.set_byte(at, flip_byte(byte, (k % 8) as u8, false));
        if self.superblock.free_inodes_count < 0xffff_ffff {
            self.superblock.free_inodes_count = self.superblock.free_inodes_count + 1;
        }
        let mut nd = d;
        if d.free_inodes_count < 0xffff {
            nd.free_inodes_count = d.free_inodes_count + 1;
        }
        if dir && d.used_dirs_count > 0 {
            nd.used_dirs_count = d.used_dirs_count - 1;
        }
        self.groups[g as usize] = nd;
        proof {
            let w = v.with_inode(n as int, false, dir);
            assert(self@.image =~= w.image);
            assert(self@.groups =~= w.groups);
            assert(self@.sb == w.sb);
        }
        Ok(())
    }

    /// Releases inode `n`. Releasing an inode that is free already changes
    /// nothing and succeeds. `NotFound` where `n` is 0 or past the last inode.
    /// The group's count of directories goes down where the record says
    /// directory.
    pub fn free_inode(&mut self, n: u32) -> (r: Result<(), Ext2Error>)
        requires
            old(self).wf(),
        ensures
            final(self).wf(),
            final(self).root == old(self).root,
            final(self)@.same_geometry(old(self)@),
            match r {
                Ok(_) => {
                    &&& old(self)@.inode_valid(n as int)
                    &&& final(self)@ == (if old(self)@.inode_used(n as int) {
                        old(self)@.with_inode(
                            n as int,
                            false,
                            old(self)@.inode_at(n as int).spec_is_dir(),
                        )
                    } else {
                        old(self)@
                    })
                    &&& !final(self)@.inode_used(n as int)
                },
                Err(e) => e == Ext2Error::NotFound && !old(self)@.inode_valid(n as int)
                    && final(self)@ == old(self)@,
            },
    {
        match self.read_inode(n) {
            Ok(ino) => self.release_inode(n, ino.is_dir()),
            Err(_) => self.release_inode(n, false),
        }
    }
}

/// A block that is free after an inode was taken was free before.
pub proof fn lemma_taking_inode_keeps_free_blocks(v: Volume, n: int, dir: bool, b: int)
    requires
        v.wf(),
        v.inode_valid(n),
        v.is_data_block(b),
        !v.with_inode(n, true, dir).block_used(b),
    ensures
        !v.block_used(b),
{
    lemma_inode_fits(v, n);
    lemma_block_place(v, b);
    let g = v.inode_group(n);
    let k = v.inode_index(n);
    let at = v.groups[g].inode_bitmap * v.bs() + k / 8;
    lemma_block_fits(v, v.groups[g].inode_bitmap as int);
    lemma_byte_with_bit(v.image[at], (k % 8) as u8, true);
    let w = v.with_inode(n, true, dir);
    let h = v.block_group(b);
    let j = v.block_index(b);
    lemma_block_fits(v, v.groups[h].block_bitmap as int);
    assert(w.groups[h].block_bitmap == v.groups[h].block_bitmap);
}

/// Releasing an inode that was just taken gives the volume back.
pub proof fn lemma_inode_undo(v: Volume, n: int, dir: bool)
    requires
        v.wf(),
        v.inode_valid(n),
        !v.inode_used(n),
        v.sb.free_inodes_count > 0,
        v.groups[v.inode_group(n)].free_inodes_count > 0,
        dir ==> v.groups[v.inode_group(n)].used_dirs_count < 0xffff,
    ensures
        v.with_inode(n, true, dir).with_inode(n, false, dir) == v,
{
    lemma_inode_fits(v, n);
    let g = v.inode_group(n);
    let k = v.inode_index(n);
    let bitmap = v.groups[g].inode_bitmap as int;
    lemma_block_fits(v, bitmap);
    let at = bitmap * v.bs() + k / 8;
    lemma_byte_with_bit(v.image[at], (k % 8) as u8, true);
    let w = v.with_inode(n, true, dir);
    let u = w.with_inode(n, false, dir);
    assert(u.image =~= v.image);
    assert(u.groups =~= v.groups);
    assert(u.sb == v.sb);
}

/// The block at place `k` of group `g` belongs to that group at that place.
pub proof fn lemma_group_place(v: Volume, g: int, k: int)
    requires
        v.wf(),
        0 <= g < v.groups.len(),
        0 <= k < v.group_blocks(g),
    ensures
        v.group_first_block(g) + k < v.sb.blocks_count,
        v.block_group(v.group_first_block(g) + k) == g,
        v.block_index(v.group_first_block(g) + k) == k,
{
    let bpg = v.sb.blocks_per_group as int;
    assert((g * bpg + k) / bpg == g && (g * bpg + k) % bpg == k) by (nonlinear_arith)
        requires
            0 <= k < bpg,
            0 <= g,
    ;
}

/// The inode at place `k` of group `g` belongs to that group at that place.
pub proof fn lemma_inode_place(v: Volume, g: int, k: int)
    requires
        v.wf(),
        0 <= g < v.groups.len(),
        0 <= k < v.group_inodes(g),
    ensures
        v.inode_valid(g * v.sb.inodes_per_group + k + 1),
        v.inode_group(g * v.sb.inodes_per_group + k + 1) == g,
        v.inode_index(g * v.sb.inodes_per_group + k + 1) == k,
{
    let ipg = v.sb.inodes_per_group as int;
    assert((g * ipg + k) / ipg == g && (g * ipg + k) % ipg == k && g * ipg >= 0)
        by (nonlinear_arith)
        requires
            0 <= k < ipg,
            0 <= g,
    ;
}

} // verus!
