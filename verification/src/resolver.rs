//! The block address resolver: from the index of a block within a file to
//! the block on the device, through the inode's direct and indirect pointers.

use crate::allocator::{
    lemma_run_unique, lemma_taken_keeps_geometry, lemma_taken_touches_bitmaps,
};
use crate::bytes::{kept, lemma_kept_len, lemma_kept_step, put32, same_outside, splice, zeros};
use crate::error::{sure, Ext2Error};
use crate::fs::Ext2FileSystem;
use crate::inode::{with_pointer, Inode};
use crate::volume::{
    lemma_block_fits, lemma_geometry_carries, lemma_inode_fits, lemma_mul_le, lemma_mul_sum,
    Volume,
};
use vstd::prelude::*;

verus! {

/// The number of blocks that one pointer of the given level leads to: 1 for
/// a direct pointer, then `p` times more with each level of indirection.
pub open spec fn span(p: int, level: int) -> int {
    if level <= 0 {
        1
    } else if level == 1 {
        p
    } else if level == 2 {
        p * p
    } else {
        p * p * p
    }
}

/// The level of the pointer of the inode that leads to block `idx` of the
/// file: 0 for the twelve direct ones, 1 to 3 for the indirect ones, 4 where
/// `idx` lies beyond what the pointers reach.
pub open spec fn tier_level(p: int, idx: int) -> int {
    if idx < 12 {
        0
    } else if idx - 12 < p {
        1
    } else if idx - 12 - p < p * p {
        2
    } else if idx - 12 - p - p * p < p * p * p {
        3
    } else {
        4
    }
}

/// Which of the inode's fifteen pointers leads to block `idx` of the file.
pub open spec fn tier_slot(p: int, idx: int) -> int {
    if tier_level(p, idx) == 0 {
        idx
    } else {
        11 + tier_level(p, idx)
    }
}

/// The place of block `idx` among the blocks that its pointer leads to.
pub open spec fn tier_rel(p: int, idx: int) -> int {
    let level = tier_level(p, idx);
    if level == 0 {
        0
    } else if level == 1 {
        idx - 12
    } else if level == 2 {
        idx - 12 - p
    } else {
        idx - 12 - p - p * p
    }
}

impl Volume {
    /// Where a pointer of the given level leads for the place `rel`: nothing
    /// for a zero pointer (a hole), `CorruptLayout` for a pointer that is no
    /// data block, else the block itself (level 0) or what the pointer found
    /// in it leads to.
    pub open spec fn follow(self, level: int, blk: int, rel: int) -> Result<Option<u32>, Ext2Error>
        decreases level,
    {
        if blk == 0 {
            Ok(None)
        } else if !self.is_data_block(blk) {
            Err(Ext2Error::CorruptLayout)
        } else if level <= 0 {
            Ok(Some(blk as u32))
        } else {
            let s = span(self.ptrs(), level - 1);
            self.follow(level - 1, self.word(blk, rel / s), rel % s)
        }
    }

    /// How many blocks are missing on the way from a pointer of the given
    /// level to the place `rel`: none where a data block is reached, else the
    /// levels from the first zero pointer down, the data block included.
    pub open spec fn missing_from(self, level: int, blk: int, rel: int) -> int
        decreases level,
    {
        if blk == 0 {
            level + 1
        } else if level <= 0 {
            0
        } else {
            let s = span(self.ptrs(), level - 1);
            self.missing_from(level - 1, self.word(blk, rel / s), rel % s)
        }
    }

    /// Where the first zero pointer on the way from a pointer of the given
    /// level to the place `rel` lies, where it lies in a pointer block: the
    /// block and the slot.
    pub open spec fn gap_from(self, level: int, blk: int, rel: int) -> Option<(int, int)>
        decreases level,
    {
        if blk == 0 || level <= 0 {
            None
        } else {
            let s = span(self.ptrs(), level - 1);
            let next = self.word(blk, rel / s);
            if next == 0 {
                Some((blk, rel / s))
            } else {
                self.gap_from(level - 1, next, rel % s)
            }
        }
    }

    /// Where the first zero pointer on the way to block `idx` of the file
    /// with inode `ino` lies, where it lies in a pointer block.
    pub open spec fn gap_spec(self, ino: Inode, idx: int) -> Option<(int, int)> {
        let p = self.ptrs();
        if tier_level(p, idx) > 3 {
            None
        } else {
            self.gap_from(
                tier_level(p, idx),
                ino.block[tier_slot(p, idx)] as int,
                tier_rel(p, idx),
            )
        }
    }

    /// Whether giving block `idx` of the file with inode `n` a block may
    /// change byte `j` of the device: a byte of the inode's record, of a
    /// block bitmap, of a block that is free, or of the first zero pointer
    /// on the way.
    pub open spec fn grow_may_touch(self, n: int, ino: Inode, idx: int, j: int) -> bool {
        ||| self.inode_off(n) <= j < self.inode_off(n) + 128
        ||| self.in_block_bitmap(j)
        ||| self.is_data_block(j / self.bs()) && !self.block_used(j / self.bs())
        ||| (self.gap_spec(ino, idx) matches Some((blk, slot)) && blk * self.bs() + 4 * slot <= j
            < blk * self.bs() + 4 * slot + 4)
    }

    /// How many blocks are missing on the way to block `idx` of the file
    /// with inode `ino`.
    pub open spec fn missing_spec(self, ino: Inode, idx: int) -> int {
        let p = self.ptrs();
        if tier_level(p, idx) > 3 {
            0
        } else {
            self.missing_from(
                tier_level(p, idx),
                ino.block[tier_slot(p, idx)] as int,
                tier_rel(p, idx),
            )
        }
    }

    /// Whether block `b` holds zero bytes only.
    pub open spec fn blank(self, b: int) -> bool {
        forall|j: int| b * self.bs() <= j < b * self.bs() + self.bs() ==> self.image[j] == 0
    }

    /// The block of level `a` on the way from a pointer of the given level to
    /// the place `rel`: the pointer itself at its own level, below it what
    /// the pointers on the way lead to, and zero below a zero pointer.
    pub open spec fn way_block(self, level: int, blk: int, rel: int, a: int) -> int
        decreases level,
    {
        if a >= level || level <= 0 || blk == 0 {
            blk
        } else {
            let s = span(self.ptrs(), level - 1);
            self.way_block(level - 1, self.word(blk, rel / s), rel % s, a)
        }
    }

    /// The block of level `a` of the chain to a place of a file, the blocks
    /// `had` standing in for the levels that have none: `had` from the data
    /// block up, above them the blocks on the way.
    pub open spec fn staged_block(
        self,
        level: int,
        blk: int,
        rel: int,
        had: Seq<u32>,
        a: int,
    ) -> int {
        if a < had.len() {
            had[a] as int
        } else {
            self.way_block(level, blk, rel, a)
        }
    }

    /// Whether the blocks `had`, taken for what is missing on the way from a
    /// pointer of the given level to the place `rel`, can be linked for the
    /// inode whose record begins at byte `lo`. With the blocks taken, the way
    /// ends in the hole it ended in before, and as many blocks are missing
    /// as were taken; the blocks of the chain, those on the way and the new
    /// ones, are all different, and none of them overlaps the inode's
    /// record.
    pub open spec fn linkable_from(
        self,
        lo: int,
        level: int,
        blk: int,
        rel: int,
        had: Seq<u32>,
    ) -> bool {
        let after = self.taken(had, had.len() as int);
        &&& after.follow(level, blk, rel) == Ok::<Option<u32>, Ext2Error>(None)
        &&& after.missing_from(level, blk, rel) == had.len()
        &&& after.gap_from(level, blk, rel) == self.gap_from(level, blk, rel)
        &&& forall|a: int, b: int|
            0 <= a <= level && 0 <= b <= level && a != b ==> #[trigger] after.staged_block(
                level,
                blk,
                rel,
                had,
                a,
            ) != #[trigger] after.staged_block(level, blk, rel, had, b)
        &&& forall|a: int|
            0 <= a <= level ==> lo + 128 <= (#[trigger] after.staged_block(
                level,
                blk,
                rel,
                had,
                a,
            )) * self.bs() || after.staged_block(level, blk, rel, had, a) * self.bs() + self.bs()
                <= lo
    }

    /// The record of an inode after block `idx` of its file was given a
    /// block, `had` being the blocks taken for it: where the inode's own
    /// pointer was zero it is the highest of them, and the count of sectors
    /// has grown by theirs.
    pub open spec fn grown_inode(self, ino: Inode, idx: int, had: Seq<u32>) -> Inode {
        let p = self.ptrs();
        Inode {
            block: if had.len() > tier_level(p, idx) {
                with_pointer(ino.block, tier_slot(p, idx), had[tier_level(p, idx)])
            } else {
                ino.block
            },
            blocks: capped32(ino.blocks + had.len() * (self.bs() / 512)),
            ..ino
        }
    }

    /// The volume after block `idx` of the file with inode `n` was given a
    /// block, `had` being the blocks taken for it, the data block first. The
    /// blocks are taken, zeroed and linked to each other; the first zero
    /// pointer on the way, where it lies in a pointer block, leads to the
    /// highest of them; and the inode's record is written.
    pub open spec fn grown(self, n: int, ino: Inode, idx: int, had: Seq<u32>) -> Volume {
        let p = self.ptrs();
        let top = tier_level(p, idx);
        let rel = tier_rel(p, idx);
        let v = self.taken(had, had.len() as int);
        let chained = linked(v.image, self.bs(), p, top, rel, had, had.len() as int);
        let joined = match self.gap_spec(ino, idx) {
            Some((blk, slot)) => put32(
                chained,
                blk * self.bs() + 4 * slot,
                had[had.len() - 1] as int,
            ),
            None => chained,
        };
        (Volume { image: joined, ..v }).with_record(n, self.grown_inode(ino, idx, had))
    }

    /// What giving a block to a place of the file with inode `n` comes to,
    /// the place lying `rel` blocks into what a pointer `blk` of the given
    /// level leads to, and `had` being the blocks that asking for a block
    /// near the inode's group gave.
    ///
    /// As many blocks are asked for as are missing on the way. Where one of
    /// them cannot be had, the error is the one that asking for it gave.
    /// Where all were had, the first of them is the block given, unless they
    /// cannot be linked, which is `CorruptLayout`.
    pub open spec fn grow_outcome_from(
        self,
        n: int,
        level: int,
        blk: int,
        rel: int,
        had: Seq<u32>,
        r: Result<u32, Ext2Error>,
    ) -> bool {
        let missing = self.missing_from(level, blk, rel);
        let group = self.inode_group(n);
        let fits = self.linkable_from(self.inode_off(n), level, blk, rel, had);
        &&& had.len() <= missing
        &&& self.run_ok(group, had, had.len() as int)
        &&& match r {
            Ok(b) => had.len() == missing && fits && b == had[0],
            Err(e) => if had.len() < missing {
                self.taken(had, had.len() as int).block_alloc_outcome(
                    group,
                    Err::<u32, Ext2Error>(e),
                )
            } else {
                e == Ext2Error::CorruptLayout && !fits
            },
        }
    }

    /// What giving block `idx` of the file with inode `n` a block comes to
    /// where it has none and `idx` lies within what the pointers reach, `had`
    /// being the blocks that asking for a block near the inode's group gave.
    pub open spec fn grow_outcome(
        self,
        n: int,
        ino: Inode,
        idx: int,
        had: Seq<u32>,
        r: Result<u32, Ext2Error>,
    ) -> bool {
        let p = self.ptrs();
        self.grow_outcome_from(
            n,
            tier_level(p, idx),
            ino.block[tier_slot(p, idx)] as int,
            tier_rel(p, idx),
            had,
            r,
        )
    }

    /// The blocks that giving block `idx` of the file with inode `n` a block
    /// asks for and gets, and what it comes to, where the block is missing
    /// and `idx` lies within what the pointers reach.
    pub open spec fn grow_plan(self, n: int, ino: Inode, idx: int) -> (
        Seq<u32>,
        Result<u32, Ext2Error>,
    ) {
        choose|plan: (Seq<u32>, Result<u32, Ext2Error>)|
            self.grow_outcome(n, ino, idx, plan.0, plan.1)
    }

    /// Whether giving block `idx` of the file with inode `n` a block takes
    /// blocks and links them: the block is missing, `idx` lies within what
    /// the pointers reach, and the blocks can be had and linked.
    pub open spec fn grows(self, n: int, ino: Inode, idx: int) -> bool {
        &&& self.inode_valid(n)
        &&& self.resolve_spec(ino, idx) == Ok::<Option<u32>, Ext2Error>(None)
        &&& tier_level(self.ptrs(), idx) <= 3
        &&& self.grow_plan(n, ino, idx).1 is Ok
    }

    /// What giving block `idx` of the file with inode `n` a block comes to.
    ///
    /// `NotFound` where `n` is no inode number, `CorruptLayout` where a
    /// pointer on the way is no data block. The block that is there where
    /// there is one. `OutOfSpace` where `idx` lies beyond what the pointers
    /// reach. Else what asking for the missing blocks and linking them comes
    /// to.
    pub open spec fn grow_value(self, n: int, ino: Inode, idx: int) -> Result<u32, Ext2Error> {
        if !self.inode_valid(n) {
            Err(Ext2Error::NotFound)
        } else {
            match self.resolve_spec(ino, idx) {
                Err(c) => Err(c),
                Ok(Some(q)) => Ok(q),
                Ok(None) => if tier_level(self.ptrs(), idx) > 3 {
                    Err(Ext2Error::OutOfSpace)
                } else {
                    self.grow_plan(n, ino, idx).1
                },
            }
        }
    }

    /// The volume after block `idx` of the file with inode `n` was given a
    /// block: as it was, unless blocks were taken and linked for it.
    pub open spec fn grow_volume(self, n: int, ino: Inode, idx: int) -> Volume {
        if self.grows(n, ino, idx) {
            self.grown(n, ino, idx, self.grow_plan(n, ino, idx).0)
        } else {
            self
        }
    }

    /// The record of the inode after block `idx` of its file was given a
    /// block: as it was, unless blocks were taken and linked for it.
    pub open spec fn grow_inode(self, n: int, ino: Inode, idx: int) -> Inode {
        if self.grows(n, ino, idx) {
            self.grown_inode(ino, idx, self.grow_plan(n, ino, idx).0)
        } else {
            ino
        }
    }

    /// The block of the device that holds block `idx` of the file with inode
    /// `ino`; nothing for a hole or where `idx` lies beyond what the pointers
    /// reach.
    pub open spec fn resolve_spec(self, ino: Inode, idx: int) -> Result<Option<u32>, Ext2Error> {
        let p = self.ptrs();
        if tier_level(p, idx) > 3 {
            Ok(None)
        } else {
            self.follow(
                tier_level(p, idx),
                ino.block[tier_slot(p, idx)] as int,
                tier_rel(p, idx),
            )
        }
    }
}

/// The place within a pointer's blocks splits into a slot below the number of
/// pointers in a block and a place within that slot's blocks.
pub proof fn lemma_slot_bound(p: int, level: int, rel: int)
    requires
        1 <= level <= 3,
        0 < p,
        0 <= rel < span(p, level),
    ensures
        0 < span(p, level - 1),
        0 <= rel / span(p, level - 1) < p,
        0 <= rel % span(p, level - 1) < span(p, level - 1),
{
    let s = span(p, level - 1);
    assert(0 < s) by (nonlinear_arith)
        requires
            0 < p,
            s == 1 || s == p || s == p * p,
    ;
    assert(span(p, level) == s * p) by (nonlinear_arith)
        requires
            (s == 1 && span(p, level) == p) || (s == p && span(p, level) == p * p) || (s == p
                * p && span(p, level) == p * p * p),
    ;
    assert(0 <= rel / s < p && 0 <= rel % s < s) by (nonlinear_arith)
        requires
            0 < s,
            0 <= rel < s * p,
    ;
}

/// The place, within what a pointer of level `a` leads to, of the block that
/// lies `rel` blocks into what a pointer of level `top` leads to: at each
/// level down, the remainder by what a pointer of that level leads to.
pub open spec fn way_rel(p: int, top: int, rel: int, a: int) -> int
    decreases top - a,
{
    if a >= top {
        rel
    } else {
        way_rel(p, top, rel, a + 1) % span(p, a)
    }
}

/// The slot to follow in the pointer block of level `a` on the way to that
/// block.
pub open spec fn way_slot(p: int, top: int, rel: int, a: int) -> int {
    way_rel(p, top, rel, a) / span(p, a - 1)
}

/// The image after the first `level` of the new blocks `had` of a chain were
/// zeroed and given their pointers, the highest first: each pointer block
/// holds, in the slot of the way, the pointer to the block below it.
pub open spec fn linked(
    img: Seq<u8>,
    bs: int,
    p: int,
    top: int,
    rel: int,
    had: Seq<u32>,
    level: int,
) -> Seq<u8>
    decreases level,
{
    if level <= 0 {
        img
    } else {
        let x = level - 1;
        let blank = splice(img, had[x] * bs, zeros(bs));
        let next = if x >= 1 {
            put32(blank, had[x] * bs + 4 * way_slot(p, top, rel, x), had[x - 1] as int)
        } else {
            blank
        };
        linked(next, bs, p, top, rel, had, x)
    }
}

/// The slots and places of a way are those that the place at the top gives.
pub proof fn lemma_way_slots(p: int, top: int, slots: Seq<u32>, rels: Seq<int>, a: int)
    requires
        0 <= a <= top <= 3,
        way_ok(p, top, slots, rels),
    ensures
        rels[a] == way_rel(p, top, rels[top], a),
        a >= 1 ==> slots[a] == way_slot(p, top, rels[top], a),
    decreases top - a,
{
    if a < top {
        lemma_way_slots(p, top, slots, rels, a + 1);
        assert(slots[a + 1] == rels[a + 1] / span(p, a));
        assert(rels[a] == rels[a + 1] % span(p, a));
    }
    if a >= 1 {
        assert(slots[a] == rels[a] / span(p, a - 1));
    }
}

/// The slots and places of a way through `level` levels of pointer blocks
/// with `p` pointers each: at each level the slot is the place divided by
/// what one pointer of the level below leads to, and the place below is the
/// remainder.
pub open spec fn way_ok(p: int, level: int, slots: Seq<u32>, rels: Seq<int>) -> bool {
    &&& rels.len() == 4
    &&& slots.len() == 4
    &&& forall|a: int|
        1 <= a <= level ==> (#[trigger] slots[a]) == rels[a] / span(p, a - 1) && rels[a - 1]
            == rels[a] % span(p, a - 1) && slots[a] < p
}

/// Below a pointer that is not zero, at most as many blocks are missing as
/// the pointer has levels.
pub proof fn lemma_missing_bound(v: Volume, level: int, blk: int, rel: int)
    requires
        0 <= level,
    ensures
        0 <= v.missing_from(level, blk, rel) <= level + 1,
        blk != 0 ==> v.missing_from(level, blk, rel) <= level,
    decreases level,
{
    if blk != 0 && level > 0 {
        let s = span(v.ptrs(), level - 1);
        lemma_missing_bound(v, level - 1, v.word(blk, rel / s), rel % s);
    }
}

/// A number of sectors, held at the largest 32-bit number.
pub open spec fn capped32(x: int) -> u32 {
    if x > 0xffff_ffff {
        0xffff_ffffu32
    } else {
        x as u32
    }
}

/// Two different blocks do not overlap.
pub proof fn lemma_blocks_apart(a: int, b: int, bs: int)
    requires
        0 <= a,
        0 <= b,
        a != b,
        0 < bs,
    ensures
        a * bs + bs <= b * bs || b * bs + bs <= a * bs,
        0 <= a * bs,
{
    lemma_mul_sum(a, 1, bs);
    lemma_mul_sum(b, 1, bs);
    lemma_mul_le(0, a, bs);
    if a < b {
        lemma_mul_le(a + 1, b, bs);
    } else {
        lemma_mul_le(b + 1, a, bs);
    }
}

/// A block of zeros stays one when the bytes that changed lie outside it.
pub proof fn lemma_blank_kept(v1: Volume, v2: Volume, lo: int, hi: int, b: int)
    requires
        v1.wf(),
        v1.is_data_block(b),
        v2.bs() == v1.bs(),
        same_outside(v2.image, v1.image, lo, hi),
        hi <= b * v1.bs() || b * v1.bs() + v1.bs() <= lo,
        v1.blank(b),
    ensures
        v2.blank(b),
{
    lemma_block_fits(v1, b);
}

/// A pointer stays what it was when the bytes that changed lie outside its
/// block.
pub proof fn lemma_word_kept(v1: Volume, v2: Volume, lo: int, hi: int, blk: int, slot: int)
    requires
        v1.bs() == v2.bs(),
        1024 <= v1.bs(),
        v1.bs() % 4 == 0,
        same_outside(v2.image, v1.image, lo, hi),
        0 <= blk,
        0 <= slot < v1.ptrs(),
        hi <= blk * v1.bs() || blk * v1.bs() + v1.bs() <= lo,
        blk * v1.bs() + v1.bs() <= v1.image.len(),
    ensures
        v2.word(blk, slot) == v1.word(blk, slot),
{
    lemma_mul_le(0, blk, v1.bs());
}

/// A chain of blocks, each holding the pointer to the next in the slot that
/// the place asks for, leads from its top to its last block.
pub proof fn lemma_follow_chain(
    v: Volume,
    level: int,
    chain: Seq<u32>,
    slots: Seq<u32>,
    rels: Seq<int>,
)
    requires
        0 <= level <= 3,
        chain.len() == 4,
        slots.len() == 4,
        rels.len() == 4,
        forall|a: int| 0 <= a <= level ==> v.is_data_block(#[trigger] chain[a] as int),
        forall|a: int|
            1 <= a <= level ==> (#[trigger] slots[a]) == rels[a] / span(v.ptrs(), a - 1) && rels[a
                - 1] == rels[a] % span(v.ptrs(), a - 1) && v.word(
                chain[a] as int,
                slots[a] as int,
            ) == chain[a - 1],
    ensures
        v.follow(level, chain[level] as int, rels[level]) == Ok::<Option<u32>, Ext2Error>(
            Some(chain[0]),
        ),
    decreases level,
{
    assert(v.is_data_block(chain[level] as int));
    if level > 0 {
        lemma_follow_chain(v, level - 1, chain, slots, rels);
        assert(slots[level] == rels[level] / span(v.ptrs(), level - 1));
    }
}

/// The blocks of a chain, each holding the pointer to the next in the slot
/// that the place asks for, are the blocks on the way from its top.
pub proof fn lemma_way_chain(
    v: Volume,
    top: int,
    level: int,
    low: int,
    chain: Seq<u32>,
    slots: Seq<u32>,
    rels: Seq<int>,
    a: int,
)
    requires
        0 <= low <= a <= level <= top <= 3,
        chain.len() == 4,
        way_ok(v.ptrs(), top, slots, rels),
        forall|c: int| low <= c <= top ==> v.is_data_block(#[trigger] chain[c] as int),
        forall|c: int|
            low < c <= top ==> v.word((#[trigger] chain[c]) as int, slots[c] as int) == chain[c
                - 1],
    ensures
        v.way_block(level, chain[level] as int, rels[level], a) == chain[a],
    decreases level,
{
    if a < level {
        assert(v.is_data_block(chain[level] as int));
        assert(slots[level] == rels[level] / span(v.ptrs(), level - 1));
        assert(rels[level - 1] == rels[level] % span(v.ptrs(), level - 1));
        assert(v.word(chain[level] as int, slots[level] as int) == chain[level - 1]);
        lemma_way_chain(v, top, level - 1, low, chain, slots, rels, a);
    }
}

/// A chain made of new blocks below and of the blocks on the way above can
/// be linked just where its blocks are all different and none of them
/// overlaps the inode's record, once the way is seen to end in the same hole
/// as before the new blocks were taken.
pub proof fn lemma_linkable(
    v0: Volume,
    lo: int,
    top: int,
    blk: int,
    chain: Seq<u32>,
    slots: Seq<u32>,
    rels: Seq<int>,
    had: Seq<u32>,
)
    requires
        0 <= top <= 3,
        chain.len() == 4,
        1 <= had.len() <= top + 1,
        v0.taken(had, had.len() as int).bs() == v0.bs(),
        way_ok(v0.taken(had, had.len() as int).ptrs(), top, slots, rels),
        forall|a: int| 0 <= a < had.len() ==> chain[a] == had[a],
        forall|a: int|
            had.len() <= a <= top ==> v0.taken(had, had.len() as int).is_data_block(
                #[trigger] chain[a] as int,
            ),
        forall|a: int|
            had.len() < a <= top ==> v0.taken(had, had.len() as int).word(
                (#[trigger] chain[a]) as int,
                slots[a] as int,
            ) == chain[a - 1],
        had.len() <= top ==> chain[top] == blk,
        v0.taken(had, had.len() as int).follow(top, blk, rels[top]) == Ok::<
            Option<u32>,
            Ext2Error,
        >(None),
        v0.taken(had, had.len() as int).missing_from(top, blk, rels[top]) == had.len(),
        v0.taken(had, had.len() as int).gap_from(top, blk, rels[top]) == v0.gap_from(
            top,
            blk,
            rels[top],
        ),
    ensures
        v0.linkable_from(lo, top, blk, rels[top], had) <==> (forall|a: int, b: int|
            0 <= a <= top && 0 <= b <= top && a != b ==> chain[a] != chain[b]) && (forall|a: int|
            0 <= a <= top ==> lo + 128 <= (#[trigger] chain[a]) * v0.bs() || chain[a] * v0.bs()
                + v0.bs() <= lo),
{
    let v1 = v0.taken(had, had.len() as int);
    let rel = rels[top];
    assert forall|a: int| 0 <= a <= top implies (#[trigger] v1.staged_block(
        top,
        blk,
        rel,
        had,
        a,
    )) == chain[a] by {
        if a >= had.len() {
            lemma_way_chain(v1, top, top, had.len() as int, chain, slots, rels, a);
        }
    }
    if v0.linkable_from(lo, top, blk, rel, had) {
        assert forall|a: int, b: int| 0 <= a <= top && 0 <= b <= top && a != b implies chain[a]
            != chain[b] by {
            assert(v1.staged_block(top, blk, rel, had, a) == chain[a]);
            assert(v1.staged_block(top, blk, rel, had, b) == chain[b]);
        }
        assert forall|a: int| 0 <= a <= top implies lo + 128 <= (#[trigger] chain[a]) * v0.bs()
            || chain[a] * v0.bs() + v0.bs() <= lo by {
            assert(v1.staged_block(top, blk, rel, had, a) == chain[a]);
        }
    }
}

/// Giving a block to a place of a file has one outcome only: the blocks
/// taken and the block given, or the error, depend on the volume, the inode
/// and the place alone.
pub proof fn lemma_grow_unique(
    v: Volume,
    n: int,
    ino: Inode,
    idx: int,
    a: Seq<u32>,
    q: Result<u32, Ext2Error>,
    b: Seq<u32>,
    r: Result<u32, Ext2Error>,
)
    requires
        v.wf(),
        v.grow_outcome(n, ino, idx, a, q),
        v.grow_outcome(n, ino, idx, b, r),
    ensures
        a == b,
        q == r,
{
    let p = v.ptrs();
    let missing = v.missing_from(
        tier_level(p, idx),
        ino.block[tier_slot(p, idx)] as int,
        tier_rel(p, idx),
    );
    let group = v.inode_group(n);
    let d = match q {
        Err(e) => e,
        Ok(_) => Ext2Error::CorruptLayout,
    };
    let e = match r {
        Err(e) => e,
        Ok(_) => Ext2Error::CorruptLayout,
    };
    lemma_run_unique(v, group, missing, a, b, d, e);
    lemma_run_unique(v, group, missing, b, a, e, d);
    if a.len() < missing {
        assert(v.run_stops(group, missing, a, d));
    }
    if b.len() < missing {
        assert(v.run_stops(group, missing, b, e));
    }
}

/// The blocks that giving a block to a place of a file takes, and what it
/// comes to, are those of any one outcome.
pub proof fn lemma_grow_plan(
    v: Volume,
    n: int,
    ino: Inode,
    idx: int,
    had: Seq<u32>,
    r: Result<u32, Ext2Error>,
)
    requires
        v.wf(),
        v.grow_outcome(n, ino, idx, had, r),
    ensures
        v.grow_plan(n, ino, idx) == (had, r),
{
    let w = (had, r);
    assert(v.grow_outcome(n, ino, idx, w.0, w.1));
    let plan = v.grow_plan(n, ino, idx);
    lemma_grow_unique(v, n, ino, idx, had, r, plan.0, plan.1);
}

/// The level, the inode's pointer and the place for a block of a file.
pub struct Tier {
    /// The level of the pointer: 0 to 3.
    pub level: u8,
    /// Which of the inode's fifteen pointers.
    pub slot: usize,
    /// The place among the blocks that the pointer leads to.
    pub rel: u64,
}

impl Ext2FileSystem {
    /// The number of pointers in a block.
    pub fn ptrs_per_block(&self) -> (p: u64)
        requires
            self.wf(),
        ensures
            p == self@.ptrs(),
            256 <= p <= 8192,
    {
        (self.block_size() / 4) as u64
    }

    /// The number of blocks that one pointer of the given level leads to.
    pub fn span_of(&self, level: u8) -> (s: u64)
        requires
            self.wf(),
            level <= 3,
        ensures
            s == span(self@.ptrs(), level as int),
            0 < s <= 0x80_0000_0000,
    {
        let p = self.ptrs_per_block();
        assert(p * p <= 8192 * 8192 && p * p * p <= 8192 * 8192 * 8192 && 0 < p * p && 0 < p * p
            * p) by (nonlinear_arith)
            requires
                0 < p <= 8192,
        ;
        if level == 0 {
            1
        } else if level == 1 {
            p
        } else if level == 2 {
            p * p
        } else {
            p * p * p
        }
    }

    /// Which pointer of the inode leads to block `idx` of a file, and the
    /// place of the block among that pointer's blocks; nothing where `idx`
    /// lies beyond what the pointers reach.
    pub fn tier(&self, idx: u32) -> (r: Option<Tier>)
        requires
            self.wf(),
        ensures
            match r {
                Some(t) => {
                    &&& t.level == tier_level(self@.ptrs(), idx as int)
                    &&& t.level <= 3
                    &&& t.slot == tier_slot(self@.ptrs(), idx as int)
                    &&& t.slot < 15
                    &&& t.rel == tier_rel(self@.ptrs(), idx as int)
                    &&& t.rel < span(self@.ptrs(), t.level as int)
                },
                None => tier_level(self@.ptrs(), idx as int) > 3,
            },
    {
        let p = self.ptrs_per_block();
        let square = self.span_of(2);
        let cube = self.span_of(3);
        let i = idx as u64;
        if i < 12 {
            Some(Tier { level: 0, slot: idx as usize, rel: 0 })
        } else if i - 12 < p {
            Some(Tier { level: 1, slot: 12, rel: i - 12 })
        } else if i - 12 - p < square {
            Some(Tier { level: 2, slot: 13, rel: i - 12 - p })
        } else if i - 12 - p - square < cube {
            Some(Tier { level: 3, slot: 14, rel: i - 12 - p - square })
        } else {
            None
        }
    }

    /// Whether `b` is a block that a file's data or pointers may live in.
    pub fn is_data_block(&self, b: u32) -> (ok: bool)
        ensures
            ok == self@.is_data_block(b as int),
    {
        self.superblock.first_data_block < b && b < self.superblock.blocks_count
    }

    /// The block of the device that holds block `idx` of the file with inode
    /// `ino`: read from the inode's twelve direct pointers, or through one,
    /// two or three levels of pointer blocks. `Ok(None)` is a hole: a zero
    /// pointer on the way, or an index beyond what the pointers reach.
    /// `CorruptLayout` where a pointer on the way is no data block.
    pub fn resolve(&self, ino: &Inode, idx: u32) -> (r: Result<Option<u32>, Ext2Error>)
        requires
            self.wf(),
        ensures
            r == self@.resolve_spec(*ino, idx as int),
            r matches Err(e) ==> e == Ext2Error::CorruptLayout,
            r matches Ok(Some(b)) ==> self@.is_data_block(b as int),
    {
        let t = match self.tier(idx) {
            Some(t) => t,
            None => {
                return Ok(None);
            },
        };
        let mut level = t.level;
        let mut rel = t.rel;
        let mut cur = ino.block[t.slot];
        while level > 0
            invariant
                self.wf(),
                level <= 3,
                0 <= rel < span(self@.ptrs(), level as int),
                self@.follow(level as int, cur as int, rel as int) == self@.resolve_spec(
                    *ino,
                    idx as int,
                ),
            decreases level,
        {
            if cur == 0 {
                return Ok(None);
            }
            if !self.is_data_block(cur) {
                return Err(Ext2Error::CorruptLayout);
            }
            proof {
                lemma_slot_bound(self@.ptrs(), level as int, rel as int);
            }
            let s = self.span_of(level - 1);
            cur = self.block_word(cur, (rel / s) as u32);
            rel = rel % s;
            level = level - 1;
        }
        if cur == 0 {
            Ok(None)
        } else if !self.is_data_block(cur) {
            Err(Ext2Error::CorruptLayout)
        } else {
            Ok(Some(cur))
        }
    }
    /// The slot to follow in the pointer block of each level on the way to
    /// the place `t.rel`.
    fn split(&self, t: &Tier) -> (r: ([u32; 4], Ghost<Seq<int>>))
        requires
            self.wf(),
            t.level <= 3,
            t.rel < span(self@.ptrs(), t.level as int),
        ensures
            way_ok(self@.ptrs(), t.level as int, r.0@, r.1@),
            r.1@[t.level as int] == t.rel,
    {
        let mut slots: [u32; 4] = [0u32; 4];
        let ghost mut rels: Seq<int> = seq![0int, 0int, 0int, 0int].update(
            t.level as int,
            t.rel as int,
        );
        let mut level = t.level;
        let mut rel = t.rel;
        while level > 0
            invariant
                self.wf(),
                level <= t.level <= 3,
                rels.len() == 4,
                rels[t.level as int] == t.rel,
                rels[level as int] == rel,
                0 <= rel < span(self@.ptrs(), level as int),
                forall|a: int|
                    level < a <= t.level ==> (#[trigger] slots@[a]) == rels[a] / span(
                        self@.ptrs(),
                        a - 1,
                    ) && rels[a - 1] == rels[a] % span(self@.ptrs(), a - 1) && slots@[a]
                        < self@.ptrs(),
            decreases level,
        {
            let ghost at = level as int;
            let ghost place = rel as int;
            let ghost slots0 = slots@;
            let ghost rels0 = rels;
            proof {
                lemma_slot_bound(self@.ptrs(), at, place);
            }
            let s = self.span_of(level - 1);
            slots[level as usize] = (rel / s) as u32;
            rel = rel % s;
            proof {
                rels = rels.update(at - 1, rel as int);
                assert forall|a: int| at - 1 < a <= t.level implies (#[trigger] slots@[a])
                    == rels[a] / span(self@.ptrs(), a - 1) && rels[a - 1] == rels[a] % span(
                    self@.ptrs(),
                    a - 1,
                ) && slots@[a] < self@.ptrs() by {
                    if a == at {
                        assert(rels[a] == place);
                        assert(slots@[a] == place / span(self@.ptrs(), at - 1));
                        assert(rels[a - 1] == place % span(self@.ptrs(), at - 1));
                    } else {
                        assert(slots@[a] == slots0[a]);
                        assert(rels[a] == rels0[a]);
                        assert(rels[a - 1] == rels0[a - 1]);
                    }
                }
            }
            level = level - 1;
        }
        (slots, Ghost(rels))
    }

    /// Follows the pointers that are there on the way to a block of a file.
    /// Gives the blocks found, by level, and the number of levels, counted
    /// from the data block up, that have no block yet. `CorruptLayout` where
    /// a pointer is no data block or nothing is missing: where the way does
    /// not end in a hole.
    fn trace(&self, ino: &Inode, t: &Tier, slots: &[u32; 4], Ghost(rels): Ghost<Seq<int>>) -> (r:
        Result<([u32; 4], usize), Ext2Error>)
        requires
            self.wf(),
            t.level <= 3,
            t.slot < 15,
            way_ok(self@.ptrs(), t.level as int, slots@, rels),
        ensures
            match r {
                Ok((chain, missing)) => {
                    &&& 1 <= missing <= t.level + 1
                    &&& missing == self@.missing_from(
                        t.level as int,
                        ino.block@[t.slot as int] as int,
                        rels[t.level as int],
                    )
                    &&& self@.gap_from(
                        t.level as int,
                        ino.block@[t.slot as int] as int,
                        rels[t.level as int],
                    ) == (if missing <= t.level {
                        Some((chain@[missing as int] as int, slots@[missing as int] as int))
                    } else {
                        None
                    })
                    &&& forall|a: int|
                        missing <= a <= t.level ==> self@.is_data_block(#[trigger] chain@[a] as int)
                    &&& forall|a: int|
                        missing < a <= t.level ==> self@.word(
                            (#[trigger] chain@[a]) as int,
                            slots@[a] as int,
                        ) == chain@[a - 1]
                    &&& (missing <= t.level ==> chain@[t.level as int] == ino.block@[t.slot as int])
                    &&& (missing > t.level ==> ino.block@[t.slot as int] == 0)
                },
                Err(e) => e == Ext2Error::CorruptLayout,
            },
            r is Ok <==> self@.follow(
                t.level as int,
                ino.block@[t.slot as int] as int,
                rels[t.level as int],
            ) == Ok::<Option<u32>, Ext2Error>(None),
    {
        let top = t.level as usize;
        let mut chain: [u32; 4] = [0u32; 4];
        let mut cur = ino.block[t.slot];
        let mut level = top + 1;
        while level > 0 && cur != 0
            invariant
                self.wf(),
                top == t.level,
                top <= 3,
                level <= top + 1,
                way_ok(self@.ptrs(), top as int, slots@, rels),
                level >= 1,
                self@.missing_from(
                    top as int,
                    ino.block@[t.slot as int] as int,
                    rels[top as int],
                ) == self@.missing_from(level - 1, cur as int, rels[level - 1]),
                self@.follow(top as int, ino.block@[t.slot as int] as int, rels[top as int])
                    == self@.follow(level - 1, cur as int, rels[level - 1]),
                self@.gap_from(top as int, ino.block@[t.slot as int] as int, rels[top as int]) == (
                if level > top {
                    self@.gap_from(top as int, cur as int, rels[top as int])
                } else if cur == 0 {
                    Some((chain@[level as int] as int, slots@[level as int] as int))
                } else {
                    self@.gap_from(level - 1, cur as int, rels[level - 1])
                }),
                forall|a: int|
                    level <= a <= top ==> self@.is_data_block(#[trigger] chain@[a] as int),
                forall|a: int|
                    level < a <= top ==> self@.word(
                        (#[trigger] chain@[a]) as int,
                        slots@[a] as int,
                    ) == chain@[a - 1],
                level <= top ==> chain@[top as int] == ino.block@[t.slot as int],
                level <= top ==> cur == self@.word(
                    chain@[level as int] as int,
                    slots@[level as int] as int,
                ),
                level > top ==> cur == ino.block@[t.slot as int],
            decreases level,
        {
            if !self.is_data_block(cur) {
                return Err(Ext2Error::CorruptLayout);
            }
            level = level - 1;
            chain[level] = cur;
            if level == 0 {
                return Err(Ext2Error::CorruptLayout);
            }
            cur = self.block_word(cur, slots[level]);
        }
        if level == 0 {
            return Err(Ext2Error::CorruptLayout);
        }
        Ok((chain, level))
    }

    /// Whether the blocks of a chain are all different.
    fn chain_distinct(chain: &[u32; 4], top: usize) -> (ok: bool)
        requires
            top <= 3,
        ensures
            ok == (forall|a: int, b: int|
                0 <= a <= top && 0 <= b <= top && a != b ==> chain@[a] != chain@[b]),
    {
        let mut a: usize = 0;
        while a <= top
            invariant
                a <= top + 1,
                top <= 3,
                forall|x: int, y: int|
                    0 <= x < a && 0 <= y <= top && x != y ==> chain@[x] != chain@[y],
            decreases top + 1 - a,
        {
            let mut b: usize = 0;
            while b <= top
                invariant
                    b <= top + 1,
                    a <= top <= 3,
                    forall|y: int| 0 <= y < b && a != y ==> chain@[a as int] != chain@[y],
                decreases top + 1 - b,
            {
                if a != b && chain[a] == chain[b] {
                    return false;
                }
                b = b + 1;
            }
            a = a + 1;
        }
        true
    }

    /// Whether no block of a chain overlaps the bytes from `lo` up to `hi`.
    fn chain_avoids(&self, chain: &[u32; 4], top: usize, lo: u64, hi: u64) -> (ok: bool)
        requires
            self.wf(),
            top <= 3,
        ensures
            ok == (forall|a: int|
                0 <= a <= top ==> hi <= (#[trigger] chain@[a]) * self@.bs() || chain@[a]
                    * self@.bs() + self@.bs() <= lo),
    {
        let bs = self.block_size() as u64;
        let mut a: usize = 0;
        while a <= top
            invariant
                a <= top + 1,
                top <= 3,
                bs == self@.bs(),
                bs <= 32768,
                forall|x: int|
                    0 <= x < a ==> hi <= (#[trigger] chain@[x]) * bs || chain@[x] * bs + bs <= lo,
            decreases top + 1 - a,
        {
            assert(chain@[a as int] * bs <= 0xffff_ffff * 32768) by (nonlinear_arith)
                requires
                    chain@[a as int] <= 0xffff_ffff,
                    bs <= 32768,
            ;
            let start = (chain[a] as u64) * bs;
            if !(hi <= start || start + bs <= lo) {
                return false;
            }
            a = a + 1;
        }
        true
    }

    /// Zeroes the new blocks of a chain and stores in every pointer block of
    /// the chain the pointer to the block of the level below.
    fn link(
        &mut self,
        chain: &[u32; 4],
        slots: &[u32; 4],
        top: usize,
        missing: usize,
        Ghost(base): Ghost<Seq<u8>>,
        Ghost(allowed): Ghost<spec_fn(int) -> bool>,
        Ghost(rel): Ghost<int>,
        Ghost(had): Ghost<Seq<u32>>,
    )
        requires
            old(self).wf(),
            top <= 3,
            1 <= missing <= top + 1,
            had.len() == missing,
            forall|a: int| 0 <= a < missing ==> chain@[a] == had[a],
            forall|a: int|
                1 <= a <= top ==> (#[trigger] slots@[a]) == way_slot(
                    old(self)@.ptrs(),
                    top as int,
                    rel,
                    a,
                ),
            kept(old(self)@.image, base, allowed),
            forall|a: int, j: int|
                0 <= a < missing && (#[trigger] chain@[a]) * old(self)@.bs() <= j < chain@[a]
                    * old(self)@.bs() + old(self)@.bs() ==> #[trigger] allowed(j),
            missing <= top ==> forall|j: int|
                chain@[missing as int] * old(self)@.bs() + 4 * slots@[missing as int] <= j
                    < chain@[missing as int] * old(self)@.bs() + 4 * slots@[missing as int] + 4
                    ==> #[trigger] allowed(j),
            forall|a: int| 0 <= a <= top ==> old(self)@.is_data_block(#[trigger] chain@[a] as int),
            forall|a: int, b: int|
                0 <= a <= top && 0 <= b <= top && a != b ==> chain@[a] != chain@[b],
            forall|a: int| 1 <= a <= top ==> (#[trigger] slots@[a]) < old(self)@.ptrs(),
            forall|a: int|
                missing < a <= top ==> old(self)@.word(
                    (#[trigger] chain@[a]) as int,
                    slots@[a] as int,
                ) == chain@[a - 1],
        ensures
            final(self).wf(),
            final(self).superblock == old(self).superblock,
            final(self).groups@ == old(self).groups@,
            final(self).root == old(self).root,
            final(self)@.image.len() == old(self)@.image.len(),
            kept(final(self)@.image, base, allowed),
            forall|a: int|
                1 <= a <= top ==> final(self)@.word(
                    (#[trigger] chain@[a]) as int,
                    slots@[a] as int,
                ) == chain@[a - 1],
            final(self)@.blank(chain@[0] as int),
            final(self)@.image == ({
                let bs = old(self)@.bs();
                let chained = linked(
                    old(self)@.image,
                    bs,
                    old(self)@.ptrs(),
                    top as int,
                    rel,
                    had,
                    missing as int,
                );
                if missing <= top {
                    put32(
                        chained,
                        chain@[missing as int] * bs + 4 * slots@[missing as int],
                        had[missing - 1] as int,
                    )
                } else {
                    chained
                }
            }),
    {
        let ghost bs = self@.bs();
        let ghost p = self@.ptrs();
        proof {
            lemma_kept_len(self@.image, base, allowed);
        }
        let mut level = missing;
        while level > 0
            invariant
                level <= missing <= top + 1,
                top <= 3,
                self.wf(),
                kept(self@.image, base, allowed),
                base.len() == self@.image.len(),
                forall|a: int, j: int|
                    0 <= a < missing && (#[trigger] chain@[a]) * bs <= j < chain@[a] * bs + bs
                        ==> #[trigger] allowed(j),
                self.superblock == old(self).superblock,
                self.groups@ == old(self).groups@,
                self.root == old(self).root,
                self@.image.len() == old(self)@.image.len(),
                bs == self@.bs(),
                forall|a: int| 0 <= a <= top ==> self@.is_data_block(#[trigger] chain@[a] as int),
                forall|a: int, b: int|
                    0 <= a <= top && 0 <= b <= top && a != b ==> chain@[a] != chain@[b],
                forall|a: int| 1 <= a <= top ==> (#[trigger] slots@[a]) < self@.ptrs(),
                forall|a: int|
                    1 <= a <= top && a != missing && a >= level ==> self@.word(
                        (#[trigger] chain@[a]) as int,
                        slots@[a] as int,
                    ) == chain@[a - 1],
                level == 0 ==> self@.blank(chain@[0] as int),
                p == self@.ptrs(),
                had.len() == missing,
                forall|a: int| 0 <= a < missing ==> chain@[a] == had[a],
                forall|a: int|
                    1 <= a <= top ==> (#[trigger] slots@[a]) == way_slot(p, top as int, rel, a),
                linked(self@.image, bs, p, top as int, rel, had, level as int) == linked(
                    old(self)@.image,
                    bs,
                    p,
                    top as int,
                    rel,
                    had,
                    missing as int,
                ),
            decreases level,
        {
            let x = level - 1;
            let c = chain[x];
            let ghost v1 = self@;
            assert(self@.is_data_block(chain@[x as int] as int));
            self.zero_block(c);
            let ghost v2 = self@;
            proof {
                lemma_kept_step(base, v1.image, v2.image, allowed, c * bs, c * bs + bs);
                lemma_block_fits(v1, c as int);
                assert forall|a: int| 1 <= a <= top && a != missing && a >= level implies v2.word(
                    (#[trigger] chain@[a]) as int,
                    slots@[a] as int,
                ) == chain@[a - 1] by {
                    assert(v1.is_data_block(chain@[a] as int));
                    lemma_block_fits(v1, chain@[a] as int);
                    lemma_blocks_apart(c as int, chain@[a] as int, bs);
                    lemma_word_kept(
                        v1,
                        v2,
                        c * bs,
                        c * bs + bs,
                        chain@[a] as int,
                        slots@[a] as int,
                    );
                }
            }
            if x >= 1 {
                self.set_block_word(c, slots[x], chain[x - 1]);
                let ghost v3 = self@;
                proof {
                    lemma_kept_step(
                        base,
                        v2.image,
                        v3.image,
                        allowed,
                        c * bs + 4 * slots@[x as int],
                        c * bs + 4 * slots@[x as int] + 4,
                    );
                    assert forall|a: int|
                        1 <= a <= top && a != missing && a >= level implies v3.word(
                        (#[trigger] chain@[a]) as int,
                        slots@[a] as int,
                    ) == chain@[a - 1] by {
                        assert(v1.is_data_block(chain@[a] as int));
                        lemma_block_fits(v1, chain@[a] as int);
                        lemma_blocks_apart(c as int, chain@[a] as int, bs);
                        lemma_word_kept(
                            v2,
                            v3,
                            c * bs + 4 * slots@[x as int],
                            c * bs + 4 * slots@[x as int] + 4,
                            chain@[a] as int,
                            slots@[a] as int,
                        );
                    }
                }
            }
            level = x;
        }
        if missing <= top {
            let c = chain[missing];
            let ghost v1 = self@;
            assert(self@.is_data_block(chain@[missing as int] as int));
            self.set_block_word(c, slots[missing], chain[missing - 1]);
            let ghost v2 = self@;
            proof {
                lemma_kept_step(
                    base,
                    v1.image,
                    v2.image,
                    allowed,
                    c * bs + 4 * slots@[missing as int],
                    c * bs + 4 * slots@[missing as int] + 4,
                );
                lemma_block_fits(v1, c as int);
                lemma_blocks_apart(c as int, chain@[0] as int, bs);
                lemma_blank_kept(
                    v1,
                    v2,
                    c * bs + 4 * slots@[missing as int],
                    c * bs + 4 * slots@[missing as int] + 4,
                    chain@[0] as int,
                );
                assert forall|a: int| 1 <= a <= top && a != missing implies v2.word(
                    (#[trigger] chain@[a]) as int,
                    slots@[a] as int,
                ) == chain@[a - 1] by {
                    assert(v1.is_data_block(chain@[a] as int));
                    lemma_block_fits(v1, chain@[a] as int);
                    lemma_blocks_apart(c as int, chain@[a] as int, bs);
                    lemma_word_kept(
                        v1,
                        v2,
                        c * bs + 4 * slots@[missing as int],
                        c * bs + 4 * slots@[missing as int] + 4,
                        chain@[a] as int,
                        slots@[a] as int,
                    );
                }
            }
        }
    }

    /// Makes sure that block `idx` of the file with inode `n` has a block on
    /// the device, and gives that block.
    ///
    /// Where the block is there already, nothing changes. Otherwise the
    /// block given was free and lies clear of the inode's record: the
    /// pointer blocks that are missing on the way and the data block, and no
    /// other block, are taken near the inode's group, zeroed and linked, and
    /// the inode, with its new pointer and sector count, is written back. The
    /// block given holds zeros. Nothing else on the device changes: only
    /// bytes of the inode's record, of block bitmaps, of blocks that were
    /// free and of the first zero pointer on the way. A failure changes
    /// nothing: blocks taken before it are released again. The result, the
    /// volume and the inode's record afterwards are those of `grow_value`,
    /// `grow_volume` and `grow_inode`.
    ///
    /// `NotFound` where `n` is no inode number, `CorruptLayout` where a
    /// pointer on the way is no data block, `OutOfSpace` where `idx` lies
    /// beyond what the pointers reach. Where one of the missing blocks cannot
    /// be had, the error that asking for it gave: `OutOfSpace` where no group
    /// counts a free block. `CorruptLayout` where the blocks were had and
    /// cannot be linked: where two blocks of the chain are the same, one of
    /// them overlaps the inode's record, or the way reads otherwise once the
    /// blocks are taken.
    pub fn grow(&mut self, n: u32, ino: &mut Inode, idx: u32) -> (r: Result<u32, Ext2Error>)
        requires
            old(self).wf(),
        ensures
            final(self).wf(),
            final(self).root == old(self).root,
            final(self)@.same_geometry(old(self)@),
            match r {
                Ok(b) => {
                    &&& old(self)@.inode_valid(n as int)
                    &&& final(self)@.resolve_spec(*final(ino), idx as int) == Ok::<
                        Option<u32>,
                        Ext2Error,
                    >(Some(b))
                    &&& *final(ino) == (Inode {
                        block: final(ino).block,
                        blocks: final(ino).blocks,
                        ..*old(ino)
                    })
                    &&& match old(self)@.resolve_spec(*old(ino), idx as int) {
                        Ok(Some(q)) => b == q && final(self)@ == old(self)@ && *final(ino)
                            == *old(ino),
                        Ok(None) => {
                            let missing = old(self)@.missing_spec(*old(ino), idx as int);
                            let slot = tier_slot(old(self)@.ptrs(), idx as int);
                            &&& final(self)@.inode_at(n as int) == *final(ino)
                            &&& 1 <= missing <= 4
                            &&& final(self)@.sb.free_blocks_count
                                == old(self)@.sb.free_blocks_count - missing
                            &&& final(ino).blocks == capped32(
                                old(ino).blocks + missing * (old(self)@.bs() / 512),
                            )
                            &&& forall|i: int|
                                0 <= i < 15 && i != slot ==> final(ino).block@[i]
                                    == old(ino).block@[i]
                            &&& old(ino).block@[slot] != 0 ==> final(ino).block == old(ino).block
                            &&& forall|j: int|
                                0 <= j < old(self)@.image.len() && !old(self)@.grow_may_touch(
                                    n as int,
                                    *old(ino),
                                    idx as int,
                                    j,
                                ) ==> #[trigger] final(self)@.image[j] == old(self)@.image[j]
                            &&& !old(self)@.block_used(b as int)
                            &&& final(self)@.blank(b as int)
                            &&& old(self)@.inode_off(n as int) + 128 <= b * old(self)@.bs() || b
                                * old(self)@.bs() + old(self)@.bs() <= old(self)@.inode_off(
                                n as int,
                            )
                        },
                        Err(_) => false,
                    }
                },
                Err(e) => {
                    &&& final(self)@ == old(self)@
                    &&& *final(ino) == *old(ino)
                    &&& (e == Ext2Error::NotFound || e == Ext2Error::OutOfSpace || e
                        == Ext2Error::CorruptLayout)
                    &&& (e == Ext2Error::NotFound <==> !old(self)@.inode_valid(n as int))
                    &&& (old(self)@.inode_valid(n as int) ==> match old(self)@.resolve_spec(
                        *old(ino),
                        idx as int,
                    ) {
                        Ok(Some(_)) => false,
                        Ok(None) => e == Ext2Error::OutOfSpace || e == Ext2Error::CorruptLayout,
                        Err(c) => e == c,
                    })
                },
            },
            r == old(self)@.grow_value(n as int, *old(ino), idx as int),
            final(self)@ == old(self)@.grow_volume(n as int, *old(ino), idx as int),
            *final(ino) == old(self)@.grow_inode(n as int, *old(ino), idx as int),
    {
        if n == 0 || n > self.superblock.inodes_count {
            return Err(Ext2Error::NotFound);
        }
        match self.resolve(ino, idx) {
            Ok(Some(b)) => {
                return Ok(b);
            },
            Ok(None) => {},
            Err(e) => {
                return Err(e);
            },
        }
        let t = match self.tier(idx) {
            Some(t) => t,
            None => {
                return Err(Ext2Error::OutOfSpace);
            },
        };
        let (slots, Ghost(rels)) = self.split(&t);
        let ghost v0 = self@;
        let ghost before = *ino;
        let ghost allowed = |j: int| v0.grow_may_touch(n as int, before, idx as int, j);
        let (staged, Ghost(had)) = self.stage(n, ino, &t, &slots, Ghost(rels), Ghost(allowed));
        let (chain, missing) = match staged {
            Ok(staged) => staged,
            Err(e) => {
                proof {
                    lemma_grow_plan(
                        v0,
                        n as int,
                        before,
                        idx as int,
                        had,
                        Err::<u32, Ext2Error>(e),
                    );
                }
                return Err(e);
            },
        };
        let ghost v1 = self@;
        proof {
            let bs = v0.bs();
            assert forall|a: int, j: int|
                0 <= a < missing && (#[trigger] chain@[a]) * bs <= j < chain@[a] * bs
                    + bs implies #[trigger] allowed(j) by {
                crate::file::lemma_pos_in_block(bs, chain@[a] as int, j - chain@[a] * bs);
                assert(j / bs == chain@[a]);
                assert(v1.is_data_block(chain@[a] as int));
            }
            lemma_inode_fits(v0, n as int);
            assert(v1.groups[v0.inode_group(n as int)].inode_table == v0.groups[v0.inode_group(
                n as int,
            )].inode_table);
            assert(v1.inode_off(n as int) == v0.inode_off(n as int));
            assert(v1.inode_off(n as int) + 128 <= chain@[0] * v1.bs() || chain@[0] * v1.bs()
                + v1.bs() <= v1.inode_off(n as int));
        }
        self.commit(
            n,
            ino,
            &t,
            &chain,
            &slots,
            Ghost(rels),
            missing,
            Ghost(v0.image),
            Ghost(allowed),
            Ghost(had),
        );
        proof {
            assert forall|j: int|
                0 <= j < v0.image.len() && !v0.grow_may_touch(
                    n as int,
                    before,
                    idx as int,
                    j,
                ) implies #[trigger] self@.image[j] == v0.image[j] by {
                reveal(kept);
                assert(!allowed(j));
            }
            lemma_geometry_carries(v0, v1, self@);
            lemma_missing_bound(
                v0,
                t.level as int,
                old(ino).block@[t.slot as int] as int,
                t.rel as int,
            );
            assert(missing == v0.missing_spec(*old(ino), idx as int));
            lemma_grow_plan(
                v0,
                n as int,
                before,
                idx as int,
                had,
                Ok::<u32, Ext2Error>(chain@[0]),
            );
            assert(*ino == v0.grown_inode(before, idx as int, had));
            assert(v0.gap_spec(before, idx as int) == (if missing <= t.level {
                Some((chain@[missing as int] as int, slots@[missing as int] as int))
            } else {
                None::<(int, int)>
            }));
            assert(self@ == v0.grown(n as int, before, idx as int, had));
        }
        Ok(chain[0])
    }

    /// Finds what is missing on the way to a block of a file and takes the
    /// blocks for it. Gives the chain of blocks by level, the new ones
    /// included but not yet linked, and the number of new ones. A failure
    /// changes nothing.
    fn stage(
        &mut self,
        n: u32,
        ino: &Inode,
        t: &Tier,
        slots: &[u32; 4],
        Ghost(rels): Ghost<Seq<int>>,
        Ghost(allowed): Ghost<spec_fn(int) -> bool>,
    ) -> (r: (Result<([u32; 4], usize), Ext2Error>, Ghost<Seq<u32>>))
        requires
            old(self).wf(),
            old(self)@.inode_valid(n as int),
            t.level <= 3,
            t.slot < 15,
            forall|j: int| old(self)@.in_block_bitmap(j) ==> #[trigger] allowed(j),
            way_ok(old(self)@.ptrs(), t.level as int, slots@, rels),
            old(self)@.follow(
                t.level as int,
                ino.block@[t.slot as int] as int,
                rels[t.level as int],
            ) == Ok::<Option<u32>, Ext2Error>(None),
        ensures
            final(self).wf(),
            final(self).root == old(self).root,
            final(self)@.same_geometry(old(self)@),
            old(self)@.grow_outcome_from(
                n as int,
                t.level as int,
                ino.block@[t.slot as int] as int,
                rels[t.level as int],
                r.1@,
                match r.0 {
                    Ok((chain, _)) => Ok::<u32, Ext2Error>(chain@[0]),
                    Err(e) => Err::<u32, Ext2Error>(e),
                },
            ),
            match r.0 {
                Ok((chain, missing)) => {
                    let off = final(self)@.inode_off(n as int);
                    &&& 1 <= missing <= t.level + 1
                    &&& missing == old(self)@.missing_from(
                        t.level as int,
                        ino.block@[t.slot as int] as int,
                        rels[t.level as int],
                    )
                    &&& final(self)@.sb.free_blocks_count == old(self)@.sb.free_blocks_count
                        - missing
                    &&& kept(final(self)@.image, old(self)@.image, allowed)
                    &&& forall|a: int|
                        0 <= a < missing ==> !old(self)@.block_used(#[trigger] chain@[a] as int)
                    &&& (missing <= t.level ==> old(self)@.gap_from(
                        t.level as int,
                        ino.block@[t.slot as int] as int,
                        rels[t.level as int],
                    ) == Some((chain@[missing as int] as int, slots@[missing as int] as int)))
                    &&& final(self)@.inode_valid(n as int)
                    &&& final(self)@.ptrs() == old(self)@.ptrs()
                    &&& forall|a: int|
                        0 <= a <= t.level ==> final(self)@.is_data_block(
                            #[trigger] chain@[a] as int,
                        )
                    &&& forall|a: int, b: int|
                        0 <= a <= t.level && 0 <= b <= t.level && a != b ==> chain@[a] != chain@[b]
                    &&& forall|a: int|
                        0 <= a <= t.level ==> off + 128 <= (#[trigger] chain@[a])
                            * final(self)@.bs() || chain@[a] * final(self)@.bs()
                            + final(self)@.bs() <= off
                    &&& forall|a: int|
                        missing < a <= t.level ==> final(self)@.word(
                            (#[trigger] chain@[a]) as int,
                            slots@[a] as int,
                        ) == chain@[a - 1]
                    &&& (missing <= t.level ==> chain@[t.level as int] == ino.block@[t.slot as int])
                    &&& !old(self)@.block_used(chain@[0] as int)
                    &&& r.1@.len() == missing
                    &&& final(self)@ == old(self)@.taken(r.1@, missing as int)
                    &&& forall|a: int| 0 <= a < missing ==> chain@[a] == r.1@[a]
                },
                Err(e) => final(self)@ == old(self)@ && (e == Ext2Error::OutOfSpace || e
                    == Ext2Error::CorruptLayout),
            },
    {
        let top = t.level as usize;
        let ghost blk = ino.block@[t.slot as int] as int;
        let ghost rel = rels[t.level as int];
        let (first, missing) = match self.trace(ino, t, slots, Ghost(rels)) {
            Ok(found) => found,
            Err(e) => {
                return (Err(e), Ghost(Seq::empty()));
            },
        };
        let ghost v0 = self@;
        proof {
            lemma_inode_fits(v0, n as int);
        }
        let group = (n - 1) / self.superblock.inodes_per_group;
        let blocks = match self.allocate_many(group, missing) {
            Ok(blocks) => blocks,
            Err(e) => {
                let ghost had = choose|had: Seq<u32>|
                    v0.run_stops(group as int, missing as int, had, e);
                return (Err(e), Ghost(had));
            },
        };
        let ghost had = blocks@;
        proof {
            lemma_taken_keeps_geometry(v0, had, missing as int);
            lemma_taken_touches_bitmaps(v0, had, missing as int);
            assert(kept(self@.image, v0.image, allowed)) by {
                reveal(kept);
            }
        }
        // The pointers are read again: taking the blocks has written to
        // bitmaps, and what is linked later must hold of the device as it is.
        assert(self@.ptrs() == v0.ptrs());
        let mut chain = match self.trace(ino, t, slots, Ghost(rels)) {
            Ok((chain, again)) => {
                if again != missing || (missing <= top && chain[missing] != first[missing]) {
                    assert(!v0.linkable_from(v0.inode_off(n as int), top as int, blk, rel, had));
                    self.release_many(&blocks, Ghost(v0));
                    return (Err(Ext2Error::CorruptLayout), Ghost(had));
                }
                chain
            },
            Err(_) => {
                assert(!v0.linkable_from(v0.inode_off(n as int), top as int, blk, rel, had));
                self.release_many(&blocks, Ghost(v0));
                return (Err(Ext2Error::CorruptLayout), Ghost(had));
            },
        };
        let mut i: usize = 0;
        while i < missing
            invariant
                i <= missing <= top + 1,
                top <= 3,
                top == t.level,
                t.slot < 15,
                blocks@.len() == missing,
                missing <= top ==> chain@[missing as int] == first@[missing as int],
                forall|a: int| 0 <= a < i ==> (#[trigger] chain@[a]) == blocks@[a],
                forall|a: int|
                    missing <= a <= top ==> self@.is_data_block(#[trigger] chain@[a] as int),
                forall|a: int|
                    missing < a <= top ==> self@.word(
                        (#[trigger] chain@[a]) as int,
                        slots@[a] as int,
                    ) == chain@[a - 1],
                missing <= top ==> chain@[top as int] == ino.block@[t.slot as int],
            decreases missing - i,
        {
            chain[i] = blocks[i];
            i = i + 1;
        }
        let off = self.inode_offset(n) as u64;
        let apart = Self::chain_distinct(&chain, top);
        let clear = self.chain_avoids(&chain, top, off, off + 128);
        proof {
            assert(off == v0.inode_off(n as int));
            lemma_linkable(v0, off as int, top as int, blk, chain@, slots@, rels, had);
        }
        if !apart || !clear {
            self.release_many(&blocks, Ghost(v0));
            return (Err(Ext2Error::CorruptLayout), Ghost(had));
        }
        assert forall|a: int| 0 <= a <= top implies self@.is_data_block(
            #[trigger] chain@[a] as int,
        ) by {
            if a < missing {
                assert(v0.is_data_block(blocks@[a] as int));
            }
        }
        assert(chain@[0] == blocks@[0]);
        (Ok((chain, missing)), Ghost(had))
    }

    /// Links a staged chain and writes the inode back with its new pointer
    /// and sector count.
    fn commit(
        &mut self,
        n: u32,
        ino: &mut Inode,
        t: &Tier,
        chain: &[u32; 4],
        slots: &[u32; 4],
        Ghost(rels): Ghost<Seq<int>>,
        missing: usize,
        Ghost(base): Ghost<Seq<u8>>,
        Ghost(allowed): Ghost<spec_fn(int) -> bool>,
        Ghost(had): Ghost<Seq<u32>>,
    )
        requires
            old(self).wf(),
            old(self)@.inode_valid(n as int),
            t.level <= 3,
            t.slot < 15,
            1 <= missing <= t.level + 1,
            had.len() == missing,
            forall|a: int| 0 <= a < missing ==> chain@[a] == had[a],
            kept(old(self)@.image, base, allowed),
            forall|a: int, j: int|
                0 <= a < missing && (#[trigger] chain@[a]) * old(self)@.bs() <= j < chain@[a]
                    * old(self)@.bs() + old(self)@.bs() ==> #[trigger] allowed(j),
            missing <= t.level ==> forall|j: int|
                chain@[missing as int] * old(self)@.bs() + 4 * slots@[missing as int] <= j
                    < chain@[missing as int] * old(self)@.bs() + 4 * slots@[missing as int] + 4
                    ==> #[trigger] allowed(j),
            forall|j: int|
                old(self)@.inode_off(n as int) <= j < old(self)@.inode_off(n as int) + 128
                    ==> #[trigger] allowed(j),
            way_ok(old(self)@.ptrs(), t.level as int, slots@, rels),
            rels[t.level as int] == t.rel,
            forall|a: int|
                0 <= a <= t.level ==> old(self)@.is_data_block(#[trigger] chain@[a] as int),
            forall|a: int, b: int|
                0 <= a <= t.level && 0 <= b <= t.level && a != b ==> chain@[a] != chain@[b],
            forall|a: int|
                0 <= a <= t.level ==> old(self)@.inode_off(n as int) + 128 <= (
                #[trigger] chain@[a]) * old(self)@.bs() || chain@[a] * old(self)@.bs()
                    + old(self)@.bs() <= old(self)@.inode_off(n as int),
            forall|a: int|
                missing < a <= t.level ==> old(self)@.word(
                    (#[trigger] chain@[a]) as int,
                    slots@[a] as int,
                ) == chain@[a - 1],
            missing <= t.level ==> chain@[t.level as int] == old(ino).block@[t.slot as int],
        ensures
            final(self).wf(),
            final(self).root == old(self).root,
            final(self).superblock == old(self).superblock,
            final(self).groups@ == old(self).groups@,
            final(self)@.image.len() == old(self)@.image.len(),
            kept(final(self)@.image, base, allowed),
            final(self)@.follow(
                t.level as int,
                final(ino).block@[t.slot as int] as int,
                t.rel as int,
            ) == Ok::<Option<u32>, Ext2Error>(Some(chain@[0])),
            final(self)@.inode_at(n as int) == *final(ino),
            *final(ino) == (Inode {
                block: final(ino).block,
                blocks: capped32(old(ino).blocks + missing * (old(self)@.bs() / 512)),
                ..*old(ino)
            }),
            forall|i: int|
                0 <= i < 15 && i != t.slot ==> final(ino).block@[i] == old(ino).block@[i],
            missing <= t.level ==> final(ino).block == old(ino).block,
            final(self)@.blank(chain@[0] as int),
            final(ino).block == (if missing > t.level {
                with_pointer(old(ino).block, t.slot as int, had[t.level as int])
            } else {
                old(ino).block
            }),
            final(self)@ == ({
                let v = old(self)@;
                let chained = linked(
                    v.image,
                    v.bs(),
                    v.ptrs(),
                    t.level as int,
                    t.rel as int,
                    had,
                    missing as int,
                );
                let joined = if missing <= t.level {
                    put32(
                        chained,
                        chain@[missing as int] * v.bs() + 4 * slots@[missing as int],
                        had[missing - 1] as int,
                    )
                } else {
                    chained
                };
                (Volume { image: joined, ..v }).with_record(n as int, *final(ino))
            }),
    {
        let top = t.level as usize;
        proof {
            assert forall|a: int| 1 <= a <= top implies (#[trigger] slots@[a]) == way_slot(
                self@.ptrs(),
                top as int,
                t.rel as int,
                a,
            ) by {
                lemma_way_slots(self@.ptrs(), top as int, slots@, rels, a);
            }
        }
        self.link(
            chain,
            slots,
            top,
            missing,
            Ghost(base),
            Ghost(allowed),
            Ghost(t.rel as int),
            Ghost(had),
        );
        if missing > top {
            ino.block[t.slot] = chain[top];
            assert(ino.block =~= with_pointer(old(ino).block, t.slot as int, had[top as int]));
        }
        let per = (self.block_size() / 512) as u64;
        assert(missing * per <= 4 * 64) by (nonlinear_arith)
            requires
                missing <= 4,
                per <= 64,
        ;
        let sectors = (missing as u64) * per;
        let total = ino.blocks as u64 + sectors;
        ino.blocks = if total > 0xffff_ffff {
            0xffff_ffff
        } else {
            total as u32
        };
        let ghost v1 = self@;
        let ghost off = v1.inode_off(n as int);
        sure(self.write_inode(n, ino));
        proof {
            let v2 = self@;
            lemma_kept_step(base, v1.image, v2.image, allowed, off, off + 128);
            assert(v1.is_data_block(chain@[0] as int));
            lemma_blank_kept(v1, v2, off, off + 128, chain@[0] as int);
            assert forall|a: int| 1 <= a <= top implies (#[trigger] slots@[a]) == rels[a] / span(
                v2.ptrs(),
                a - 1,
            ) && rels[a - 1] == rels[a] % span(v2.ptrs(), a - 1) && v2.word(
                chain@[a] as int,
                slots@[a] as int,
            ) == chain@[a - 1] by {
                assert(v1.is_data_block(chain@[a] as int));
                lemma_block_fits(v1, chain@[a] as int);
                lemma_word_kept(v1, v2, off, off + 128, chain@[a] as int, slots@[a] as int);
            }
            assert forall|a: int| 0 <= a <= top implies v2.is_data_block(
                #[trigger] chain@[a] as int,
            ) by {
                assert(v1.is_data_block(chain@[a] as int));
            }
            lemma_follow_chain(v2, top as int, chain@, slots@, rels);
        }
    }
}

impl Volume {
    /// A block that a place of a file resolves to is a data block.
    pub proof fn lemma_resolved_is_data_block(self, ino: Inode, idx: int)
        ensures
            self.resolve_spec(ino, idx) matches Ok(Some(b)) ==> self.is_data_block(b as int),
    {
        let p = self.ptrs();
        if tier_level(p, idx) <= 3 {
            self.lemma_followed_is_data_block(
                tier_level(p, idx),
                ino.block[tier_slot(p, idx)] as int,
                tier_rel(p, idx),
            );
        }
    }

    /// A block that a pointer leads to is a data block.
    pub proof fn lemma_followed_is_data_block(self, level: int, blk: int, rel: int)
        ensures
            self.follow(level, blk, rel) matches Ok(Some(b)) ==> self.is_data_block(b as int),
        decreases level,
    {
        if blk != 0 && self.is_data_block(blk) && level > 0 {
            let s = span(self.ptrs(), level - 1);
            self.lemma_followed_is_data_block(level - 1, self.word(blk, rel / s), rel % s);
        }
    }
}

} // verus!
