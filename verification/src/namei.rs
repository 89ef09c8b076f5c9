//! Names in directories: looking a name up, listing a directory, and adding
//! and removing entries together with the inodes they name.

use crate::allocator::{
    bump16, lemma_block_pick, lemma_block_undo, lemma_frees_only_trans, lemma_inode_pick,
    lemma_inode_undo, lemma_taking_inode_keeps_free_blocks, lemma_with_block, lemma_with_inode,
};
use crate::bytes::{same_outside, splice};
use crate::dir::{
    align4, chain_ok, empty_block, entries, entries_from, find, find_from, first_fit, insert,
    inserted, remove, removed, slot_inode, vacant_block, views, DirectoryEntry, EntryView,
};
use crate::error::{sure, Ext2Error};
use crate::fs::Ext2FileSystem;
use crate::inode::{with_pointer, FileType, Inode};
use crate::superblock::groups_for;
use crate::volume::{
    lemma_geometry_carries, lemma_inode_fits, lemma_same_geometry_trans, Volume,
};
use vstd::prelude::*;

verus! {

/// A list with more entries put in front of it; an error stays.
pub open spec fn prepend(front: Seq<EntryView>, rest: Result<Seq<EntryView>, Ext2Error>) -> Result<
    Seq<EntryView>,
    Ext2Error,
> {
    match rest {
        Ok(list) => Ok(front + list),
        Err(e) => Err(e),
    }
}

impl Volume {
    /// The number of blocks that a file of `size` bytes spans.
    pub open spec fn blocks_of(self, size: int) -> int {
        groups_for(size, self.bs())
    }

    /// The inode that `name` stands for in the blocks `idx` up to `n` of the
    /// directory with inode `dir`: that of the first live record with the
    /// name, blocks taken in their order and holes passed over. `NotFound`
    /// where no block has such a record; `CorruptLayout` where, before one is
    /// found, a pointer is no data block or a block is no sound chain.
    pub open spec fn lookup_from(self, dir: Inode, name: Seq<u8>, idx: int, n: int) -> Result<
        u32,
        Ext2Error,
    >
        decreases n - idx,
    {
        if idx >= n {
            Err(Ext2Error::NotFound)
        } else {
            match self.resolve_spec(dir, idx) {
                Err(e) => Err(e),
                Ok(None) => self.lookup_from(dir, name, idx + 1, n),
                Ok(Some(b)) => if !chain_ok(self.block(b as int), 0) {
                    Err(Ext2Error::CorruptLayout)
                } else {
                    match find_from(self.block(b as int), 0, None, name) {
                        Some((_, at)) => Ok(slot_inode(self.block(b as int), at) as u32),
                        None => self.lookup_from(dir, name, idx + 1, n),
                    }
                },
            }
        }
    }

    /// The first of the blocks `idx` up to `n` of the directory with inode
    /// `dir` that holds a live record with the name, where the search for the
    /// name finds one.
    pub open spec fn holder_from(self, dir: Inode, name: Seq<u8>, idx: int, n: int) -> Option<u32>
        decreases n - idx,
    {
        if idx >= n {
            None
        } else {
            match self.resolve_spec(dir, idx) {
                Err(_) => None,
                Ok(None) => self.holder_from(dir, name, idx + 1, n),
                Ok(Some(b)) => if !chain_ok(self.block(b as int), 0) {
                    None
                } else if find_from(self.block(b as int), 0, None, name) is Some {
                    Some(b)
                } else {
                    self.holder_from(dir, name, idx + 1, n)
                },
            }
        }
    }

    /// The block of the directory with inode `dir` that holds the record
    /// that `name` is found in.
    pub open spec fn holder_spec(self, dir: Inode, name: Seq<u8>) -> Option<u32> {
        self.holder_from(dir, name, 0, self.blocks_of(dir.size as int))
    }

    /// The inode that `name` stands for in the directory with inode `dir`.
    pub open spec fn lookup_spec(self, dir: Inode, name: Seq<u8>) -> Result<u32, Ext2Error> {
        self.lookup_from(dir, name, 0, self.blocks_of(dir.size as int))
    }

    /// The live records of the blocks `idx` up to `n` of the directory with
    /// inode `dir`, blocks taken in their order and holes passed over.
    pub open spec fn list_from(self, dir: Inode, idx: int, n: int) -> Result<
        Seq<EntryView>,
        Ext2Error,
    >
        decreases n - idx,
    {
        if idx >= n {
            Ok(Seq::empty())
        } else {
            match self.resolve_spec(dir, idx) {
                Err(e) => Err(e),
                Ok(None) => self.list_from(dir, idx + 1, n),
                Ok(Some(b)) => if !chain_ok(self.block(b as int), 0) {
                    Err(Ext2Error::CorruptLayout)
                } else {
                    prepend(
                        entries_from(self.block(b as int), 0),
                        self.list_from(dir, idx + 1, n),
                    )
                },
            }
        }
    }

    /// The live records of the directory with inode `dir`.
    pub open spec fn list_spec(self, dir: Inode) -> Result<Seq<EntryView>, Ext2Error> {
        self.list_from(dir, 0, self.blocks_of(dir.size as int))
    }

    /// The first of the blocks `idx` up to `n` of the directory with inode
    /// `dir` that has a record with `needed` bytes to give away: its place in
    /// the directory and the block itself. Holes are passed over.
    /// `CorruptLayout` where, before one is found, a pointer is no data block
    /// or a block is no sound chain.
    pub open spec fn room_from(self, dir: Inode, needed: int, idx: int, n: int) -> Result<
        Option<(int, u32)>,
        Ext2Error,
    >
        decreases n - idx,
    {
        if idx >= n {
            Ok(None)
        } else {
            match self.resolve_spec(dir, idx) {
                Err(e) => Err(e),
                Ok(None) => self.room_from(dir, needed, idx + 1, n),
                Ok(Some(b)) => if !chain_ok(self.block(b as int), 0) {
                    Err(Ext2Error::CorruptLayout)
                } else if first_fit(self.block(b as int), 0, needed) is Some {
                    Ok(Some((idx, b)))
                } else {
                    self.room_from(dir, needed, idx + 1, n)
                },
            }
        }
    }

    /// The first block of the directory with inode `dir` that has room for a
    /// record with a name of `len` bytes.
    pub open spec fn room_spec(self, dir: Inode, len: int) -> Result<
        Option<(int, u32)>,
        Ext2Error,
    > {
        self.room_from(dir, align4(8 + len), 0, self.blocks_of(dir.size as int))
    }

    /// Whether block `b` lies clear of the record of inode `n`.
    pub open spec fn clear_of_record(self, n: int, b: int) -> bool {
        self.inode_off(n) + 128 <= b * self.bs() || b * self.bs() + self.bs() <= self.inode_off(n)
    }

    /// What making the directory with inode `n` one block longer comes to:
    /// what giving the block after its last a block comes to. `OutOfSpace`
    /// where the directory would pass the largest length, `CorruptLayout`
    /// where a block that is there already overlaps the directory's inode
    /// record.
    pub open spec fn extend_value(self, n: int, dir: Inode) -> Result<u32, Ext2Error> {
        let idx = self.blocks_of(dir.size as int);
        if (idx + 1) * self.bs() > 0xffff_ffff {
            Err(Ext2Error::OutOfSpace)
        } else {
            match self.grow_value(n, dir, idx) {
                Err(e) => Err(e),
                Ok(q) => if self.clear_of_record(n, q as int) {
                    Ok(q)
                } else {
                    Err(Ext2Error::CorruptLayout)
                },
            }
        }
    }

    /// What putting a record for a name of `len` bytes into the directory
    /// with inode `n` comes to: the first block with room for it, or the
    /// block that the directory grows by; the error of reading the
    /// directory's records or of making the directory longer.
    pub open spec fn entry_value(self, n: int, dir: Inode, len: int) -> Result<u32, Ext2Error> {
        match self.room_spec(dir, len) {
            Err(e) => Err(e),
            Ok(Some((_, b))) => Ok(b),
            Ok(None) => self.extend_value(n, dir),
        }
    }

    /// The record of the directory with inode `n` after a record for a name
    /// of `len` bytes was put into it: as it was, unless the directory grew
    /// by a block for it.
    pub open spec fn entered_inode(self, n: int, dir: Inode, len: int) -> Inode {
        match self.room_spec(dir, len) {
            Ok(None) => if self.extend_value(n, dir) is Ok {
                let idx = self.blocks_of(dir.size as int);
                Inode { size: ((idx + 1) * self.bs()) as u32, ..self.grow_inode(n, dir, idx) }
            } else {
                dir
            },
            _ => dir,
        }
    }

    /// The volume after a record for `name` and `child` was put into the
    /// directory with inode `n`: into the first room of the first block that
    /// has room, or, where none has, into a block that the directory grew
    /// by, after which the directory's record is written. As it was where
    /// that fails.
    pub open spec fn entered(
        self,
        n: int,
        dir: Inode,
        name: Seq<u8>,
        child: u32,
        code: u8,
    ) -> Volume {
        let len = name.len() as int;
        match self.room_spec(dir, len) {
            Err(_) => self,
            Ok(Some((_, b))) => match first_fit(self.block(b as int), 0, align4(8 + len)) {
                Some(at) => Volume {
                    image: splice(
                        self.image,
                        b * self.bs(),
                        inserted(self.block(b as int), at, child, code, name),
                    ),
                    ..self
                },
                None => self,
            },
            Ok(None) => match self.extend_value(n, dir) {
                Err(_) => self,
                Ok(b) => {
                    let grown = self.grow_volume(n, dir, self.blocks_of(dir.size as int));
                    (Volume {
                        image: splice(
                            grown.image,
                            b * self.bs(),
                            inserted(vacant_block(self.bs()), 0, child, code, name),
                        ),
                        ..grown
                    }).with_record(n, self.entered_inode(n, dir, len))
                },
            },
        }
    }

    /// What taking an inode for something of the given kind, for a directory
    /// a block as well, and putting the record for `name` into the directory
    /// with inode `n` comes to: the volume and the directory's record after
    /// it, and the inode and the block taken. The inode is asked for near
    /// the directory's group, the block as well, and the record is put in
    /// once these are taken. Where one of the three fails, its error, and
    /// the volume as it was.
    pub open spec fn reservation(self, n: int, dir: Inode, name: Seq<u8>, kind: FileType) -> (
        Volume,
        Inode,
        Result<(u32, u32), Ext2Error>,
    ) {
        let group = self.inode_group(n);
        let is_dir = kind == FileType::Dir;
        match self.inode_pick(group, is_dir) {
            Err(e) => (self, dir, Err(e)),
            Ok(m) => {
                let v = self.with_inode(m as int, true, is_dir);
                let pick = if is_dir {
                    v.block_pick(group)
                } else {
                    Ok(0u32)
                };
                match pick {
                    Err(e) => (self, dir, Err(e)),
                    Ok(first) => {
                        let w = if is_dir {
                            v.with_block(first as int, true)
                        } else {
                            v
                        };
                        match w.entry_value(n, dir, name.len() as int) {
                            Err(e) => (self, dir, Err(e)),
                            Ok(_) => (
                                w.entered(n, dir, name, m, kind.spec_code() as u8),
                                w.entered_inode(n, dir, name.len() as int),
                                Ok((m, first)),
                            ),
                        }
                    },
                }
            },
        }
    }

    /// The volume after the record of the new inode `n` was written; for a
    /// new directory, after its first block, the record of its parent `dir`
    /// with one more link, and its own record were written.
    pub open spec fn furnished(
        self,
        dir: u32,
        parent: Inode,
        n: u32,
        first: u32,
        kind: FileType,
    ) -> Volume {
        let ino = made_inode(kind, self.bs(), first);
        if kind == FileType::Dir {
            (Volume {
                image: splice(self.image, first * self.bs(), first_block(self.bs(), n, dir)),
                ..self
            }).with_record(
                dir as int,
                Inode { links_count: bump16(parent.links_count), ..parent },
            ).with_record(n as int, ino)
        } else {
            self.with_record(n as int, ino)
        }
    }

    /// Whether inode `n` is in use with the record `ino`, the directory with
    /// inode `dir` has the record `parent`, `name` stands for `n` in it, and,
    /// where `ino` is a directory, `.` and `..` stand in it for itself and
    /// for `dir`.
    pub open spec fn creation_holds(
        self,
        dir: u32,
        name: Seq<u8>,
        n: u32,
        ino: Inode,
        parent: Inode,
    ) -> bool {
        &&& self.read_inode_result(n as int) == Ok::<Inode, Ext2Error>(ino)
        &&& self.dir_inode(dir as int) == Ok::<Inode, Ext2Error>(parent)
        &&& self.lookup_spec(parent, name) == Ok::<u32, Ext2Error>(n)
        &&& ino.spec_is_dir() ==> {
            &&& self.lookup_spec(ino, seq![46u8]) == Ok::<u32, Ext2Error>(n)
            &&& self.lookup_spec(ino, seq![46u8, 46u8]) == Ok::<u32, Ext2Error>(dir)
        }
    }

    /// What making something of the given kind under `name` in the directory
    /// with inode `dir`, whose record is `d` and which has no such name,
    /// comes to: the volume after it and the new inode. Where the inode, the
    /// block or the room for the record cannot be had, that error and the
    /// volume as it was. Else the records and blocks are written, and the
    /// new inode is given where the volume then holds what was made;
    /// `CorruptLayout` where it does not.
    pub open spec fn creation(self, dir: u32, d: Inode, name: Seq<u8>, kind: FileType) -> (
        Volume,
        Result<u32, Ext2Error>,
    ) {
        match self.reservation(dir as int, d, name, kind) {
            (_, _, Err(e)) => (self, Err(e)),
            (v, parent, Ok((n, first))) => {
                let after = v.furnished(dir, parent, n, first, kind);
                let now = if kind == FileType::Dir {
                    Inode { links_count: bump16(parent.links_count), ..parent }
                } else {
                    parent
                };
                (
                    after,
                    if after.creation_holds(
                        dir,
                        name,
                        n,
                        made_inode(kind, self.bs(), first),
                        now,
                    ) {
                        Ok(n)
                    } else {
                        Err(Ext2Error::CorruptLayout)
                    },
                )
            },
        }
    }

    /// The volume after the name was taken out of block `b` of a directory
    /// and one link from the inode `m` that it stood for, `target` being that
    /// inode's record. The first record with the name is removed from the
    /// block. With more links than one, the record has one link less. With
    /// the last link gone, the inode is released, its record is zeroed, and
    /// its blocks are released, unless it is a symbolic link that keeps its
    /// target in the record.
    pub open spec fn unlinked(self, b: int, name: Seq<u8>, m: int, target: Inode) -> Volume {
        let block = self.block(b);
        let cut = match find_from(block, 0, None, name) {
            Some((prev, at)) => removed(block, prev, at),
            None => block,
        };
        let v = Volume { image: splice(self.image, b * self.bs(), cut), ..self };
        if target.links_count <= 1 {
            let w = (if v.inode_used(m) {
                v.with_inode(m, false, false)
            } else {
                v
            }).with_record(m, Inode { links_count: 0, ..Inode::spec_fresh(0) });
            if target.spec_is_symlink() && target.blocks == 0 {
                w
            } else {
                w.without_pointers(target, 0)
            }
        } else {
            v.with_record(m, Inode { links_count: (target.links_count - 1) as u16, ..target })
        }
    }

    /// Whether the name is gone from the directory with inode `dir`, and the
    /// inode `m` that it stood for, `target` being its record before, is
    /// released with a record of zeros, or has one link less.
    pub open spec fn removal_holds(self, dir: int, name: Seq<u8>, m: int, target: Inode) -> bool {
        &&& match self.dir_inode(dir) {
            Ok(d) => self.lookup_spec(d, name) == Err::<u32, Ext2Error>(Ext2Error::NotFound),
            Err(_) => false,
        }
        &&& self.inode_valid(m)
        &&& if target.links_count <= 1 {
            !self.inode_used(m) && self.inode_at(m) == (Inode {
                links_count: 0,
                ..Inode::spec_fresh(0)
            })
        } else {
            self.inode_at(m) == (Inode {
                links_count: (target.links_count - 1) as u16,
                ..target
            })
        }
    }

    /// The volume with block `b` released, where it was a data block in use.
    pub open spec fn without_block(self, b: int) -> Volume {
        if self.is_data_block(b) && self.block_used(b) {
            self.with_block(b, false)
        } else {
            self
        }
    }

    /// The volume with block `blk` released and, for a pointer block of the
    /// given level, with every block released that it leads to: slot by slot
    /// what lies below, then the block itself. A pointer that is zero or no
    /// data block is passed over.
    pub open spec fn without_tree(self, blk: int, level: int) -> Volume
        decreases level, self.ptrs() + 1,
    {
        if blk == 0 || !self.is_data_block(blk) || self.ptrs() < 0 {
            self
        } else if level <= 0 {
            self.without_block(blk)
        } else {
            self.without_slots(blk, level, 0, self.ptrs()).without_block(blk)
        }
    }

    /// The volume with the blocks released that the slots from `slot` up to
    /// `p` of the pointer block `blk` lead to.
    pub open spec fn without_slots(self, blk: int, level: int, slot: int, p: int) -> Volume
        decreases level, p - slot,
    {
        if slot >= p || level <= 0 {
            self
        } else {
            self.without_tree(self.word(blk, slot), level - 1).without_slots(
                blk,
                level,
                slot + 1,
                p,
            )
        }
    }

    /// The volume with the blocks released that the pointers from the `i`-th
    /// on of an inode lead to: the first twelve to data blocks, the last
    /// three to trees of one, two and three levels.
    pub open spec fn without_pointers(self, ino: Inode, i: int) -> Volume
        decreases 15 - i,
    {
        if i < 0 || i >= 15 {
            self
        } else {
            self.without_tree(
                ino.block[i] as int,
                if i < 12 {
                    0
                } else {
                    i - 11
                },
            ).without_pointers(ino, i + 1)
        }
    }

    /// What asking inode `n` for a directory gives: the inode, `NotFound`
    /// where `n` is no inode in use, `NotADirectory` where it is no directory.
    pub open spec fn dir_inode(self, n: int) -> Result<Inode, Ext2Error> {
        match self.read_inode_result(n) {
            Err(e) => Err(e),
            Ok(ino) => if ino.spec_is_dir() {
                Ok(ino)
            } else {
                Err(Ext2Error::NotADirectory)
            },
        }
    }
}

/// The record of an inode that has just been made: one link and no data for
/// a file, mode 0644; for a directory two links, one block of data and mode
/// 0755. The pointers are left open.
pub open spec fn new_inode(kind: FileType, bs: int) -> Inode {
    if kind == FileType::Dir {
        Inode {
            links_count: 2,
            size: bs as u32,
            blocks: (bs / 512) as u32,
            ..Inode::spec_fresh((kind.spec_mode_bits() + 0o755) as u16)
        }
    } else {
        Inode::spec_fresh((kind.spec_mode_bits() + 0o644) as u16)
    }
}

/// The record of an inode that has just been made, with `first` as its first
/// pointer and the others zero.
pub open spec fn made_inode(kind: FileType, bs: int, first: u32) -> Inode {
    Inode { block: with_pointer(new_inode(kind, bs).block, 0, first), ..new_inode(kind, bs) }
}

/// The first block of a new directory with inode `n` in the directory with
/// inode `dir`: the record `.` for itself, then the record `..` for `dir`.
pub open spec fn first_block(bs: int, n: u32, dir: u32) -> Seq<u8> {
    let one = inserted(vacant_block(bs), 0, n, 2u8, seq![46u8]);
    match first_fit(one, 0, align4(10)) {
        Some(at) => inserted(one, at, dir, 2u8, seq![46u8, 46u8]),
        None => one,
    }
}

/// Putting entries in front of a list that already has entries in front.
pub proof fn lemma_prepend_twice(
    a: Seq<EntryView>,
    b: Seq<EntryView>,
    rest: Result<Seq<EntryView>, Ext2Error>,
)
    ensures
        prepend(a, prepend(b, rest)) == prepend(a + b, rest),
        prepend(Seq::empty(), rest) == rest,
{
    match rest {
        Ok(list) => {
            assert(a + (b + list) =~= (a + b) + list);
            assert(Seq::<EntryView>::empty() + list =~= list);
        },
        Err(_) => {},
    }
}

impl Ext2FileSystem {
    /// The number of blocks that a file of `size` bytes spans.
    pub fn blocks_of(&self, size: u32) -> (n: u32)
        requires
            self.wf(),
        ensures
            n == self@.blocks_of(size as int),
    {
        let bs = self.block_size() as u64;
        assert((size + bs - 1) / (bs as int) <= size) by (nonlinear_arith)
            requires
                bs >= 1,
                size >= 0,
        ;
        ((size as u64 + bs - 1) / bs) as u32
    }

    /// Reads inode `n` and makes sure that it is a directory.
    pub fn read_dir_inode(&self, n: u32) -> (r: Result<Inode, Ext2Error>)
        requires
            self.wf(),
        ensures
            r == self@.dir_inode(n as int),
    {
        match self.read_inode(n) {
            Err(e) => Err(e),
            Ok(ino) => if ino.is_dir() {
                Ok(ino)
            } else {
                Err(Ext2Error::NotADirectory)
            },
        }
    }

    /// The inode that `name` stands for in the directory with inode `dir`,
    /// whose record the caller has read, and the block that holds the record
    /// with the name.
    pub fn locate_in(&self, dir: &Inode, name: &[u8]) -> (r: Result<(u32, u32), Ext2Error>)
        requires
            self.wf(),
        ensures
            match r {
                Ok((inode, b)) => {
                    &&& self@.lookup_spec(*dir, name@) == Ok::<u32, Ext2Error>(inode)
                    &&& self@.holder_spec(*dir, name@) == Some(b)
                    &&& self@.is_data_block(b as int)
                    &&& chain_ok(self@.block(b as int), 0)
                    &&& find_from(self@.block(b as int), 0, None, name@) is Some
                },
                Err(e) => self@.lookup_spec(*dir, name@) == Err::<u32, Ext2Error>(e),
            },
    {
        let n = self.blocks_of(dir.size);
        let mut idx: u32 = 0;
        while idx < n
            invariant
                self.wf(),
                idx <= n,
                n == self@.blocks_of(dir.size as int),
                self@.lookup_spec(*dir, name@) == self@.lookup_from(
                    *dir,
                    name@,
                    idx as int,
                    n as int,
                ),
                self@.holder_spec(*dir, name@) == self@.holder_from(
                    *dir,
                    name@,
                    idx as int,
                    n as int,
                ),
            decreases n - idx,
        {
            match self.resolve(dir, idx) {
                Err(e) => {
                    return Err(e);
                },
                Ok(None) => {},
                Ok(Some(b)) => {
                    let block = self.read_block(b);
                    match find(block.as_slice(), name) {
                        Err(e) => {
                            return Err(e);
                        },
                        Ok(Some((inode, _, _))) => {
                            return Ok((inode, b));
                        },
                        Ok(None) => {},
                    }
                },
            }
            idx = idx + 1;
        }
        Err(Ext2Error::NotFound)
    }

    /// The inode that `name` stands for in the directory with inode `dir`,
    /// whose record the caller has read.
    pub fn lookup_in(&self, dir: &Inode, name: &[u8]) -> (r: Result<u32, Ext2Error>)
        requires
            self.wf(),
        ensures
            r == self@.lookup_spec(*dir, name@),
    {
        match self.locate_in(dir, name) {
            Ok((inode, _)) => Ok(inode),
            Err(e) => Err(e),
        }
    }

    /// The inode that `name` stands for in the directory with inode `dir`.
    ///
    /// The name is compared byte for byte with the names of the live records,
    /// blocks taken in their order; the first match counts. `NotFound` where
    /// `dir` is no inode in use or no record has the name, `NotADirectory`
    /// where `dir` is no directory, `CorruptLayout` where the directory's
    /// blocks cannot be read as records.
    pub fn lookup(&self, dir: u32, name: &[u8]) -> (r: Result<u32, Ext2Error>)
        requires
            self.wf(),
        ensures
            r == (match self@.dir_inode(dir as int) {
                Err(e) => Err(e),
                Ok(ino) => self@.lookup_spec(ino, name@),
            }),
    {
        match self.read_dir_inode(dir) {
            Err(e) => Err(e),
            Ok(ino) => self.lookup_in(&ino, name),
        }
    }

    /// The live records of the directory with inode `dir`, in the order in
    /// which they lie in its blocks.
    ///
    /// `NotFound` where `dir` is no inode in use, `NotADirectory` where it is
    /// no directory, `CorruptLayout` where the directory's blocks cannot be
    /// read as records.
    pub fn readdir(&self, dir: u32) -> (r: Result<Vec<DirectoryEntry>, Ext2Error>)
        requires
            self.wf(),
        ensures
            match self@.dir_inode(dir as int) {
                Err(e) => r matches Err(x) && x == e,
                Ok(ino) => match r {
                    Ok(list) => self@.list_spec(ino) == Ok::<Seq<EntryView>, Ext2Error>(
                        views(list@),
                    ),
                    Err(e) => self@.list_spec(ino) == Err::<Seq<EntryView>, Ext2Error>(e),
                },
            },
    {
        let ino = match self.read_dir_inode(dir) {
            Err(e) => {
                return Err(e);
            },
            Ok(ino) => ino,
        };
        let n = self.blocks_of(ino.size);
        let mut list: Vec<DirectoryEntry> = Vec::new();
        let mut idx: u32 = 0;
        assert(views(list@) =~= Seq::<EntryView>::empty());
        proof {
            lemma_prepend_twice(Seq::empty(), Seq::empty(), self@.list_spec(ino));
        }
        while idx < n
            invariant
                self.wf(),
                idx <= n,
                n == self@.blocks_of(ino.size as int),
                self@.dir_inode(dir as int) == Ok::<Inode, Ext2Error>(ino),
                self@.list_spec(ino) == prepend(
                    views(list@),
                    self@.list_from(ino, idx as int, n as int),
                ),
            decreases n - idx,
        {
            match self.resolve(&ino, idx) {
                Err(e) => {
                    return Err(e);
                },
                Ok(None) => {},
                Ok(Some(b)) => {
                    let block = self.read_block(b);
                    match entries(block.as_slice()) {
                        Err(e) => {
                            return Err(e);
                        },
                        Ok(mut more) => {
                            let ghost front = views(list@);
                            let ghost added = views(more@);
                            list.append(&mut more);
                            proof {
                                assert(views(list@) =~= front + added);
                                lemma_prepend_twice(
                                    front,
                                    added,
                                    self@.list_from(ino, idx + 1, n as int),
                                );
                            }
                        },
                    }
                },
            }
            idx = idx + 1;
        }
        proof {
            assert(views(list@) + Seq::<EntryView>::empty() =~= views(list@));
        }
        Ok(list)
    }

    /// Puts a record for `name` and `child` into the directory with inode
    /// `dir`, whose record the caller has read, and gives the block that the
    /// record went into: the first block of the directory that has room, or,
    /// where none has, a block that the directory grows by, which then holds
    /// the new record and nothing else. A failure changes nothing.
    ///
    /// `CorruptLayout` where the directory cannot be read as records; where
    /// no block has room, the error that making the directory one block
    /// longer comes to. The result, the volume and the directory's record
    /// afterwards are those of `entry_value`, `entered` and `entered_inode`.
    pub fn add_entry(
        &mut self,
        dir: u32,
        dino: &mut Inode,
        name: &[u8],
        child: u32,
        code: u8,
    ) -> (r: Result<u32, Ext2Error>)
        requires
            old(self).wf(),
            old(self)@.inode_valid(dir as int),
            name@.len() <= 255,
            child != 0,
        ensures
            final(self).wf(),
            final(self).root == old(self).root,
            final(self)@.same_geometry(old(self)@),
            r == old(self)@.entry_value(dir as int, *old(dino), name@.len() as int),
            final(self)@ == old(self)@.entered(dir as int, *old(dino), name@, child, code),
            *final(dino) == old(self)@.entered_inode(dir as int, *old(dino), name@.len() as int),
            r is Err ==> final(self)@ == old(self)@ && *final(dino) == *old(dino),
            r matches Err(e) ==> e == Ext2Error::OutOfSpace || e == Ext2Error::CorruptLayout,
            match old(self)@.room_spec(*old(dino), name@.len() as int) {
                Err(e) => r == Err::<u32, Ext2Error>(e),
                Ok(Some((idx, b))) => {
                    let before = old(self)@.block(b as int);
                    &&& r == Ok::<u32, Ext2Error>(b)
                    &&& *final(dino) == *old(dino)
                    &&& final(self).superblock == old(self).superblock
                    &&& final(self).groups@ == old(self).groups@
                    &&& same_outside(
                        final(self)@.image,
                        old(self)@.image,
                        b * old(self)@.bs(),
                        b * old(self)@.bs() + old(self)@.bs(),
                    )
                    &&& first_fit(before, 0, align4(8 + name@.len() as int)) matches Some(at)
                    &&& final(self)@.block(b as int) == inserted(before, at, child, code, name@)
                    &&& chain_ok(final(self)@.block(b as int), 0)
                },
                Ok(None) => match r {
                    Ok(b) => {
                        &&& final(self)@.is_data_block(b as int)
                        &&& final(dino).size == (old(self)@.blocks_of(old(dino).size as int) + 1)
                            * old(self)@.bs()
                        &&& *final(dino) == (Inode {
                            size: final(dino).size,
                            block: final(dino).block,
                            blocks: final(dino).blocks,
                            ..*old(dino)
                        })
                        &&& final(self)@.inode_at(dir as int) == *final(dino)
                        &&& final(self)@.block(b as int) == inserted(
                            vacant_block(old(self)@.bs()),
                            0,
                            child,
                            code,
                            name@,
                        )
                        &&& chain_ok(final(self)@.block(b as int), 0)
                    },
                    Err(e) => e == Ext2Error::OutOfSpace || e == Ext2Error::CorruptLayout,
                },
            },
    {
        let ghost v0 = self@;
        let ghost needed = align4(8 + name@.len() as int);
        let n = self.blocks_of(dino.size);
        let mut idx: u32 = 0;
        while idx < n
            invariant
                self.wf(),
                self@ == v0,
                v0 == old(self)@,
                self.root == old(self).root,
                *dino == *old(dino),
                name@.len() <= 255,
                needed == align4(8 + name@.len() as int),
                child != 0,
                idx <= n,
                n == v0.blocks_of(dino.size as int),
                v0.room_spec(*dino, name@.len() as int) == v0.room_from(
                    *dino,
                    needed,
                    idx as int,
                    n as int,
                ),
            decreases n - idx,
        {
            match self.resolve(dino, idx) {
                Err(e) => {
                    return Err(e);
                },
                Ok(None) => {},
                Ok(Some(b)) => {
                    let mut block = self.read_block(b);
                    match insert(&mut block, name, child, code) {
                        Ok(_) => {
                            self.write_block(b, block.as_slice());
                            proof {
                                crate::volume::lemma_block_fits(v0, b as int);
                                lemma_geometry_carries(v0, v0, self@);
                                assert(self@.block(b as int) =~= block@);
                            }
                            return Ok(b);
                        },
                        Err(Ext2Error::NoSpace) => {},
                        Err(_) => {
                            return Err(Ext2Error::CorruptLayout);
                        },
                    }
                },
            }
            idx = idx + 1;
        }
        let bs = self.block_size();
        assert((n + 1) * bs <= 0x1_0000_0000 * 32768) by (nonlinear_arith)
            requires
                n <= 0xffff_ffff,
                bs <= 32768,
        ;
        if (n as u64 + 1) * (bs as u64) > 0xffff_ffff {
            return Err(Ext2Error::OutOfSpace);
        }
        let b = match self.grow(dir, dino, n) {
            Ok(b) => b,
            Err(e) => {
                return Err(e);
            },
        };
        let ghost v1 = self@;
        proof {
            self@.lemma_resolved_is_data_block(*dino, n as int);
            crate::volume::lemma_block_fits(v1, b as int);
            crate::volume::lemma_inode_fits(v1, dir as int);
        }
        let rec = self.inode_offset(dir) as u64;
        let start = self.block_offset(b) as u64;
        if !(rec + 128 <= start || start + bs as u64 <= rec) {
            return Err(Ext2Error::CorruptLayout);
        }
        let mut block = empty_block(bs as usize);
        proof {
            crate::dir::lemma_vacant_has_room(bs as int, name@.len() as int);
        }
        sure(insert(&mut block, name, child, code));
        self.write_block(b, block.as_slice());
        dino.size = ((n as u64 + 1) * (bs as u64)) as u32;
        let ghost v2 = self@;
        sure(self.write_inode(dir, dino));
        proof {
            lemma_geometry_carries(v0, v1, v2);
            lemma_geometry_carries(v0, v2, self@);
            assert(v2.block(b as int) =~= block@);
            assert(self@.block(b as int) =~= v2.block(b as int));
        }
        Ok(b)
    }

    /// Makes an inode of the given kind and a record for it under `name` in
    /// the directory with inode `dir`, and gives the inode's number: the
    /// lowest free one of the group closest to the directory's. Where the
    /// name is there already, its inode is given and nothing changes. A new
    /// directory gets a block with the records `.` and `..`, and its parent
    /// one more link. What was made is looked up again before the call
    /// returns.
    ///
    /// `NotFound` where `dir` is no inode in use, `NotADirectory` where it is
    /// no directory, `CorruptLayout` where the directory cannot be read as
    /// records. Where the inode, for a directory its block, or room for the
    /// record cannot be had, the error that asking for it gave, `OutOfSpace`
    /// where nothing is free, and nothing has changed. The one other failure
    /// is `CorruptLayout`, where what is looked up again is not what was
    /// made. For a name that is not there yet, the result and the volume
    /// afterwards are those of `creation`.
    pub fn create(&mut self, dir: u32, name: &[u8], kind: FileType) -> (r: Result<u32, Ext2Error>)
        requires
            old(self).wf(),
            1 <= name@.len() <= 255,
        ensures
            final(self).wf(),
            final(self).root == old(self).root,
            final(self)@.same_geometry(old(self)@),
            match old(self)@.dir_inode(dir as int) {
                Err(e) => r == Err::<u32, Ext2Error>(e) && final(self)@ == old(self)@,
                Ok(d) => match old(self)@.lookup_spec(d, name@) {
                    Ok(m) => r == Ok::<u32, Ext2Error>(m) && final(self)@ == old(self)@,
                    Err(Ext2Error::NotFound) => (final(self)@, r) == old(self)@.creation(
                        dir,
                        d,
                        name@,
                        kind,
                    ) && match r {
                        Ok(n) => {
                            let made = new_inode(kind, old(self)@.bs());
                            &&& old(self)@.inode_alloc_outcome(
                                old(self)@.inode_group(dir as int),
                                kind == FileType::Dir,
                                Ok(n),
                            )
                            &&& !old(self)@.inode_used(n as int)
                            &&& final(self)@.read_inode_result(n as int) matches Ok(ino)
                            &&& ino == (Inode { block: ino.block, ..made })
                            &&& forall|i: int| 1 <= i < 15 ==> ino.block@[i] == 0
                            &&& if kind == FileType::Dir {
                                old(self)@.is_data_block(ino.block@[0] as int)
                                    && !old(self)@.block_used(ino.block@[0] as int)
                            } else {
                                ino.block@[0] == 0
                            }
                            &&& final(self)@.dir_inode(dir as int) matches Ok(d2)
                            &&& final(self)@.lookup_spec(d2, name@) == Ok::<u32, Ext2Error>(n)
                            &&& d2 == (Inode {
                                links_count: if kind == FileType::Dir {
                                    bump16(d.links_count)
                                } else {
                                    d.links_count
                                },
                                size: d2.size,
                                block: d2.block,
                                blocks: d2.blocks,
                                ..d
                            })
                            &&& kind == FileType::Dir ==> {
                                &&& final(self)@.lookup_spec(ino, seq![46u8]) == Ok::<
                                    u32,
                                    Ext2Error,
                                >(n)
                                &&& final(self)@.lookup_spec(ino, seq![46u8, 46u8]) == Ok::<
                                    u32,
                                    Ext2Error,
                                >(dir)
                            }
                        },
                        Err(e) => {
                            &&& e == Ext2Error::OutOfSpace || e == Ext2Error::CorruptLayout
                            &&& e == Ext2Error::OutOfSpace ==> final(self)@ == old(self)@
                        },
                    },
                    Err(e) => r == Err::<u32, Ext2Error>(e) && final(self)@ == old(self)@,
                },
            },
    {
        let d = match self.read_dir_inode(dir) {
            Ok(d) => d,
            Err(e) => {
                return Err(e);
            },
        };
        match self.lookup_in(&d, name) {
            Ok(m) => {
                return Ok(m);
            },
            Err(Ext2Error::NotFound) => {},
            Err(e) => {
                return Err(e);
            },
        }
        let ghost v0 = self@;
        let mut dino = d;
        let (n, first) = match self.reserve(dir, &mut dino, name, kind) {
            Ok(got) => got,
            Err(e) => {
                return Err(e);
            },
        };
        let ghost v1 = self@;
        let (ino, parent) = self.furnish(dir, &dino, n, first, kind);
        proof {
            lemma_same_geometry_trans(v0, v1, self@);
        }
        if !self.confirm_created(dir, name, n, &ino, &parent) {
            return Err(Ext2Error::CorruptLayout);
        }
        Ok(n)
    }

    /// Takes an inode, for a directory a block as well, and puts the record
    /// for the name into the directory. Gives the inode and the block. A
    /// failure changes nothing.
    fn reserve(&mut self, dir: u32, dino: &mut Inode, name: &[u8], kind: FileType) -> (r: Result<
        (u32, u32),
        Ext2Error,
    >)
        requires
            old(self).wf(),
            old(self)@.inode_valid(dir as int),
            name@.len() <= 255,
        ensures
            final(self).wf(),
            final(self).root == old(self).root,
            final(self)@.same_geometry(old(self)@),
            match r {
                Ok((n, first)) => {
                    &&& *final(dino) == (Inode {
                        size: final(dino).size,
                        block: final(dino).block,
                        blocks: final(dino).blocks,
                        ..*old(dino)
                    })
                    &&& old(self)@.inode_alloc_outcome(
                        old(self)@.inode_group(dir as int),
                        kind == FileType::Dir,
                        Ok(n),
                    )
                    &&& !old(self)@.inode_used(n as int)
                    &&& old(self)@.inode_valid(n as int)
                    &&& (kind == FileType::Dir ==> old(self)@.is_data_block(first as int)
                        && !old(self)@.block_used(first as int))
                },
                Err(e) => {
                    &&& final(self)@ == old(self)@
                    &&& *final(dino) == *old(dino)
                    &&& (e == Ext2Error::OutOfSpace || e == Ext2Error::CorruptLayout)
                },
            },
            (final(self)@, *final(dino), r) == old(self)@.reservation(
                dir as int,
                *old(dino),
                name@,
                kind,
            ),
    {
        let ghost v0 = self@;
        proof {
            lemma_inode_fits(v0, dir as int);
        }
        let group = (dir - 1) / self.superblock.inodes_per_group;
        let is_dir = kind == FileType::Dir;
        let taken = self.allocate_inode(group, is_dir);
        proof {
            lemma_inode_pick(v0, group as int, is_dir, taken);
        }
        let n = match taken {
            Ok(n) => n,
            Err(e) => {
                return Err(e);
            },
        };
        let ghost v1 = self@;
        proof {
            assert(v0.groups_with_inodes()[v0.inode_group(n as int)]);
            lemma_inode_undo(v0, n as int, is_dir);
            lemma_with_inode(v0, n as int, true, is_dir);
        }
        let mut first: u32 = 0;
        if is_dir {
            let got = self.allocate_block(group);
            proof {
                lemma_block_pick(v1, group as int, got);
            }
            match got {
                Ok(b) => {
                    first = b;
                },
                Err(e) => {
                    sure(self.release_inode(n, is_dir));
                    return Err(e);
                },
            }
        }
        let ghost v2 = self@;
        proof {
            lemma_same_geometry_trans(v0, v1, v2);
            if is_dir {
                assert(v1.groups_with_blocks()[v1.block_group(first as int)]);
                lemma_block_undo(v1, first as int);
                lemma_with_block(v1, first as int, true);
                lemma_taking_inode_keeps_free_blocks(v0, n as int, is_dir, first as int);
            }
        }
        match self.add_entry(dir, dino, name, n, kind.code()) {
            Ok(_) => {},
            Err(e) => {
                if is_dir {
                    sure(self.free_block(first));
                }
                sure(self.release_inode(n, is_dir));
                return Err(e);
            },
        }
        proof {
            lemma_same_geometry_trans(v0, v2, self@);
        }
        Ok((n, first))
    }

    /// Writes the record of a new inode and gives it; for a directory also
    /// its first block, with the records `.` and `..`, and the parent's
    /// record with one more link.
    fn furnish(&mut self, dir: u32, dino: &Inode, n: u32, first: u32, kind: FileType) -> (r: (
        Inode,
        Inode,
    ))
        requires
            old(self).wf(),
            old(self)@.inode_valid(dir as int),
            old(self)@.inode_valid(n as int),
            kind == FileType::Dir ==> old(self)@.is_data_block(first as int),
            kind != FileType::Dir ==> first == 0,
        ensures
            final(self).wf(),
            final(self).root == old(self).root,
            final(self)@.same_geometry(old(self)@),
            final(self)@ == old(self)@.furnished(dir, *dino, n, first, kind),
            r.0 == made_inode(kind, old(self)@.bs(), first),
            r.0 == (Inode { block: r.0.block, ..new_inode(kind, old(self)@.bs()) }),
            forall|i: int| 1 <= i < 15 ==> r.0.block@[i] == 0,
            r.0.block@[0] == (if kind == FileType::Dir {
                first
            } else {
                0
            }),
            r.1 == (Inode {
                links_count: if kind == FileType::Dir {
                    bump16(dino.links_count)
                } else {
                    dino.links_count
                },
                ..*dino
            }),
    {
        let ghost v0 = self@;
        let is_dir = kind == FileType::Dir;
        let bs = self.block_size();
        let perms: u16 = if is_dir {
            0o755
        } else {
            0o644
        };
        let mut ino = Inode::fresh(kind.mode_bits() + perms);
        if is_dir {
            ino.links_count = 2;
            ino.block[0] = first;
            ino.size = bs;
            ino.blocks = bs / 512;
            let mut block = empty_block(bs as usize);
            let dot: [u8; 1] = [46u8];
            let dotdot: [u8; 2] = [46u8, 46u8];
            proof {
                crate::dir::lemma_vacant_has_room(bs as int, 1);
                crate::dir::lemma_insert_unused(
                    vacant_block(bs as int),
                    0,
                    n,
                    FileType::Dir.spec_code() as u8,
                    dot@,
                );
            }
            sure(insert(&mut block, dot.as_slice(), n, FileType::Dir.code()));
            sure(insert(&mut block, dotdot.as_slice(), dir, FileType::Dir.code()));
            proof {
                assert(dot@ =~= seq![46u8]);
                assert(dotdot@ =~= seq![46u8, 46u8]);
                assert(block@ == first_block(bs as int, n, dir));
            }
            self.write_block(first, block.as_slice());
        }
        assert(ino.block =~= with_pointer(new_inode(kind, bs as int).block, 0, first));
        let mut parent = *dino;
        if is_dir {
            if parent.links_count < 0xffff {
                parent.links_count = parent.links_count + 1;
            }
            sure(self.write_inode(dir, &parent));
        }
        let ghost v1 = self@;
        sure(self.write_inode(n, &ino));
        proof {
            lemma_geometry_carries(v0, v0, v1);
            lemma_geometry_carries(v0, v1, self@);
        }
        (ino, parent)
    }

    /// Whether inode `n` is in use with the record `ino`, the directory with
    /// inode `dir` has the record `parent`, `name` stands for `n` in it, and,
    /// where `ino` is a directory, `.` and `..` stand in it for itself and
    /// for `dir`.
    fn confirm_created(&self, dir: u32, name: &[u8], n: u32, ino: &Inode, parent: &Inode) -> (ok:
        bool)
        requires
            self.wf(),
        ensures
            ok == self@.creation_holds(dir, name@, n, *ino, *parent),
    {
        match self.read_inode(n) {
            Ok(made) => {
                if !made.same_as(ino) {
                    return false;
                }
            },
            Err(_) => {
                return false;
            },
        }
        match self.read_dir_inode(dir) {
            Ok(d2) => {
                if !d2.same_as(parent) {
                    return false;
                }
            },
            Err(_) => {
                return false;
            },
        }
        match self.lookup_in(parent, name) {
            Ok(m) => {
                if m != n {
                    return false;
                }
            },
            Err(_) => {
                return false;
            },
        }
        if ino.is_dir() {
            let dot: [u8; 1] = [46u8];
            let dotdot: [u8; 2] = [46u8, 46u8];
            assert(dot@ =~= seq![46u8]);
            assert(dotdot@ =~= seq![46u8, 46u8]);
            match self.lookup_in(ino, dot.as_slice()) {
                Ok(m) => {
                    if m != n {
                        return false;
                    }
                },
                Err(_) => {
                    return false;
                },
            }
            match self.lookup_in(ino, dotdot.as_slice()) {
                Ok(m) => {
                    if m != dir {
                        return false;
                    }
                },
                Err(_) => {
                    return false;
                },
            }
        }
        true
    }

    /// Releases the block `blk` and, for a pointer block of the given level,
    /// every block that it leads to, the blocks below before the block
    /// above. A pointer that is zero or no data block is passed over. No
    /// block is taken: what was free stays free.
    pub fn release_tree(&mut self, blk: u32, level: u8)
        requires
            old(self).wf(),
            level <= 3,
        ensures
            final(self).wf(),
            final(self).root == old(self).root,
            final(self)@ == old(self)@.without_tree(blk as int, level as int),
            final(self)@.same_geometry(old(self)@),
            final(self)@.frees_only(old(self)@),
            old(self)@.is_data_block(blk as int) ==> !final(self)@.block_used(blk as int),
        decreases level,
    {
        if blk == 0 || !self.is_data_block(blk) {
            return ;
        }
        let ghost v0 = self@;
        if level > 0 {
            let p = self.ptrs_per_block() as u32;
            let mut slot: u32 = 0;
            while slot < p
                invariant
                    self.wf(),
                    self.root == old(self).root,
                    self@.same_geometry(v0),
                    self@.frees_only(v0),
                    v0.wf(),
                    v0.is_data_block(blk as int),
                    p == v0.ptrs(),
                    slot <= p,
                    0 < level <= 3,
                    v0.without_slots(blk as int, level as int, 0, p as int)
                        == self@.without_slots(blk as int, level as int, slot as int, p as int),
                decreases p - slot,
            {
                let ghost v1 = self@;
                let child = self.block_word(blk, slot);
                self.release_tree(child, level - 1);
                proof {
                    lemma_same_geometry_trans(v0, v1, self@);
                    lemma_frees_only_trans(v0, v1, self@);
                }
                slot = slot + 1;
            }
        }
        let ghost v2 = self@;
        sure(self.free_block(blk));
        proof {
            lemma_same_geometry_trans(v0, v2, self@);
            lemma_frees_only_trans(v0, v2, self@);
        }
    }

    /// Releases the blocks that the pointers of an inode lead to, each pointer
    /// by `release_tree`: twelve data blocks, then the trees below the three
    /// pointer blocks. A symbolic link that keeps its target in the inode has
    /// none. No block is taken: what was free stays free.
    pub fn release_blocks(&mut self, ino: &Inode)
        requires
            old(self).wf(),
        ensures
            final(self).wf(),
            final(self).root == old(self).root,
            final(self)@.same_geometry(old(self)@),
            final(self)@.frees_only(old(self)@),
            if ino.spec_is_symlink() && ino.blocks == 0 {
                final(self)@ == old(self)@
            } else {
                &&& final(self)@ == old(self)@.without_pointers(*ino, 0)
                &&& forall|i: int|
                    0 <= i < 15 && old(self)@.is_data_block(#[trigger] ino.block@[i] as int)
                        ==> !final(self)@.block_used(ino.block@[i] as int)
            },
    {
        let ghost v0 = self@;
        assert(v0.frees_only(v0));
        if ino.is_symlink() && ino.blocks == 0 {
            return ;
        }
        let mut i: usize = 0;
        while i < 15
            invariant
                self.wf(),
                v0.wf(),
                self.root == old(self).root,
                self@.same_geometry(v0),
                self@.frees_only(v0),
                i <= 15,
                v0.without_pointers(*ino, 0) == self@.without_pointers(*ino, i as int),
                forall|j: int|
                    0 <= j < i && v0.is_data_block(#[trigger] ino.block@[j] as int)
                        ==> !self@.block_used(ino.block@[j] as int),
            decreases 15 - i,
        {
            let ghost v1 = self@;
            let level: u8 = if i < 12 {
                0
            } else {
                (i - 11) as u8
            };
            self.release_tree(ino.block[i], level);
            proof {
                lemma_same_geometry_trans(v0, v1, self@);
                lemma_frees_only_trans(v0, v1, self@);
                let v2 = self@;
                assert forall|j: int|
                    0 <= j < i + 1 && v0.is_data_block(
                        #[trigger] ino.block@[j] as int,
                    ) implies !v2.block_used(ino.block@[j] as int) by {
                    if j < i {
                        assert(v1.is_data_block(ino.block@[j] as int));
                        assert(!v1.block_used(ino.block@[j] as int));
                    }
                }
            }
            i = i + 1;
        }
    }

    /// Removes the record for `name` from the directory with inode `dir` and
    /// takes one link from the inode that it names. With its last link gone
    /// the inode is released, its record is zeroed and its blocks are
    /// released as `release_blocks` releases them. The name and the inode
    /// are looked at again before the call returns.
    ///
    /// `NotFound` where `dir` is no inode in use or has no record with the
    /// name, `NotADirectory` where `dir` is no directory, `IsADirectory`
    /// where the name stands for a directory, `CorruptLayout` where the
    /// directory cannot be read as records, the name stands for an inode that
    /// is not in use, or what is looked at again is not what the removal was
    /// to leave. Where the removal is made, the volume afterwards is that of
    /// `unlinked`, whatever is found then.
    pub fn unlink(&mut self, dir: u32, name: &[u8]) -> (r: Result<(), Ext2Error>)
        requires
            old(self).wf(),
        ensures
            final(self).wf(),
            final(self).root == old(self).root,
            final(self)@.same_geometry(old(self)@),
            match old(self)@.dir_inode(dir as int) {
                Err(e) => r == Err::<(), Ext2Error>(e) && final(self)@ == old(self)@,
                Ok(d) => match old(self)@.lookup_spec(d, name@) {
                    Err(e) => r == Err::<(), Ext2Error>(e) && final(self)@ == old(self)@,
                    Ok(m) => match old(self)@.read_inode_result(m as int) {
                        Err(_) => r == Err::<(), Ext2Error>(Ext2Error::CorruptLayout)
                            && final(self)@ == old(self)@,
                        Ok(target) => if target.spec_is_dir() {
                            r == Err::<(), Ext2Error>(Ext2Error::IsADirectory) && final(self)@
                                == old(self)@
                        } else {
                            &&& old(self)@.holder_spec(d, name@) matches Some(b)
                            &&& final(self)@ == old(self)@.unlinked(
                                b as int,
                                name@,
                                m as int,
                                target,
                            )
                            &&& r == (if final(self)@.removal_holds(
                                dir as int,
                                name@,
                                m as int,
                                target,
                            ) {
                                Ok::<(), Ext2Error>(())
                            } else {
                                Err::<(), Ext2Error>(Ext2Error::CorruptLayout)
                            })
                            &&& match r {
                                Ok(_) => {
                                    &&& final(self)@.dir_inode(dir as int) matches Ok(d2)
                                    &&& final(self)@.lookup_spec(d2, name@) == Err::<
                                        u32,
                                        Ext2Error,
                                    >(Ext2Error::NotFound)
                                    &&& (target.links_count <= 1 ==> !final(self)@.inode_used(
                                        m as int,
                                    ) && final(self)@.inode_at(m as int) == (Inode {
                                        links_count: 0,
                                        ..Inode::spec_fresh(0)
                                    }))
                                    &&& (target.links_count > 1 ==> final(self)@.inode_at(m as int)
                                        == (Inode {
                                        links_count: (target.links_count - 1) as u16,
                                        ..target
                                    }))
                                    &&& (target.links_count <= 1 && !(target.spec_is_symlink()
                                        && target.blocks == 0) ==> forall|i: int|
                                        0 <= i < 15 && old(self)@.is_data_block(
                                            #[trigger] target.block@[i] as int,
                                        ) ==> !final(self)@.block_used(target.block@[i] as int))
                                },
                                Err(e) => e == Ext2Error::CorruptLayout,
                            }
                        },
                    },
                },
            },
    {
        let d = match self.read_dir_inode(dir) {
            Ok(d) => d,
            Err(e) => {
                return Err(e);
            },
        };
        let (m, b) = match self.locate_in(&d, name) {
            Ok(found) => found,
            Err(e) => {
                return Err(e);
            },
        };
        let mut target = match self.read_inode(m) {
            Ok(target) => target,
            Err(_) => {
                return Err(Ext2Error::CorruptLayout);
            },
        };
        if target.is_dir() {
            return Err(Ext2Error::IsADirectory);
        }
        let ghost v0 = self@;
        self.detach(m, b, name, &target);
        if !self.confirm_removed(dir, name, m, &target) {
            return Err(Ext2Error::CorruptLayout);
        }
        Ok(())
    }

    /// Takes the record for `name` out of block `b` and one link from inode
    /// `m`; with the last link gone, releases the inode, zeroes its record and
    /// releases its blocks.
    fn detach(&mut self, m: u32, b: u32, name: &[u8], target: &Inode)
        requires
            old(self).wf(),
            old(self)@.inode_valid(m as int),
            old(self)@.is_data_block(b as int),
            chain_ok(old(self)@.block(b as int), 0),
            find_from(old(self)@.block(b as int), 0, None, name@) is Some,
        ensures
            final(self).wf(),
            final(self).root == old(self).root,
            final(self)@.same_geometry(old(self)@),
            final(self)@ == old(self)@.unlinked(b as int, name@, m as int, *target),
            target.links_count <= 1 && !(target.spec_is_symlink() && target.blocks == 0)
                ==> forall|i: int|
                0 <= i < 15 && old(self)@.is_data_block(#[trigger] target.block@[i] as int)
                    ==> !final(self)@.block_used(target.block@[i] as int),
    {
        let ghost v0 = self@;
        let mut block = self.read_block(b);
        sure(remove(&mut block, name));
        self.write_block(b, block.as_slice());
        let ghost v1 = self@;
        proof {
            lemma_geometry_carries(v0, v0, v1);
        }
        if target.links_count <= 1 {
            sure(self.release_inode(m, false));
            let ghost v2 = self@;
            let vacant = Inode::vacant();
            sure(self.write_inode(m, &vacant));
            let ghost v3 = self@;
            self.release_blocks(target);
            proof {
                lemma_same_geometry_trans(v0, v1, v2);
                lemma_geometry_carries(v0, v2, v3);
                lemma_same_geometry_trans(v0, v3, self@);
                assert forall|i: int|
                    0 <= i < 15 && v0.is_data_block(
                        #[trigger] target.block@[i] as int,
                    ) implies v3.is_data_block(target.block@[i] as int) by {}
            }
        } else {
            let mut less = *target;
            less.links_count = target.links_count - 1;
            sure(self.write_inode(m, &less));
            proof {
                lemma_geometry_carries(v0, v1, self@);
            }
        }
    }

    /// Whether `name` is gone from the directory with inode `dir` and inode
    /// `m` is released or has one link less than `target`.
    fn confirm_removed(&self, dir: u32, name: &[u8], m: u32, target: &Inode) -> (ok: bool)
        requires
            self.wf(),
        ensures
            ok == self@.removal_holds(dir as int, name@, m as int, *target),
    {
        match self.lookup(dir, name) {
            Err(Ext2Error::NotFound) => {},
            _ => {
                return false;
            },
        }
        match self.read_dir_inode(dir) {
            Ok(_) => {},
            Err(_) => {
                return false;
            },
        }
        if m == 0 || m > self.superblock.inodes_count {
            return false;
        }
        let now = self.inode_offset(m);
        let rec = self.dev.load(now, 128);
        let kept = Inode::decode(rec.as_slice(), 0);
        assert(rec@.subrange(0, 128) =~= rec@);
        if target.links_count <= 1 {
            !self.inode_in_use(m) && kept.same_as(&Inode::vacant())
        } else {
            let mut less = *target;
            less.links_count = target.links_count - 1;
            kept.same_as(&less)
        }
    }
}

} // verus!
