//! The bytes of a file: reading them, and writing them with the blocks that
//! the writing takes.

use crate::bytes::{copy_into, splice, zeroed};
use crate::dir::same_bytes;
use crate::error::{sure, Ext2Error};
use crate::fs::Ext2FileSystem;
use crate::inode::{type_bits, Inode};
use crate::volume::{
    lemma_geometry_carries, lemma_group_index, lemma_same_geometry_trans, Volume,
};
use vstd::prelude::*;
use vstd::slice::slice_subrange;

verus! {

impl Volume {
    /// The byte at place `pos` of the file with inode `ino`: a byte of the
    /// block that holds the place, or zero in a hole. The length of the file
    /// plays no part.
    pub open spec fn file_byte(self, ino: Inode, pos: int) -> Result<u8, Ext2Error> {
        match self.resolve_spec(ino, pos / self.bs()) {
            Ok(Some(b)) => Ok(self.image[b * self.bs() + pos % self.bs()]),
            Ok(None) => Ok(0u8),
            Err(e) => Err(e),
        }
    }
}

impl Volume {
    /// What a read of the file with inode `n` at `offset` comes to, into a
    /// buffer that held `before` and holds `after`.
    ///
    /// `NotFound` where `n` is no inode in use and `IsADirectory` for a
    /// directory, the buffer as it was. Else as many bytes are read as the
    /// buffer holds, or as the file has from `offset` on if that is fewer:
    /// they stand at the front of the buffer and the rest of it is as it was.
    /// `CorruptLayout`, the buffer as it was, where one of those bytes cannot
    /// be read.
    pub open spec fn read_outcome(
        self,
        n: int,
        offset: int,
        before: Seq<u8>,
        after: Seq<u8>,
        r: Result<usize, Ext2Error>,
    ) -> bool {
        &&& after.len() == before.len()
        &&& match self.read_inode_result(n) {
            Err(c) => r == Err::<usize, Ext2Error>(c) && after == before,
            Ok(ino) => if ino.spec_is_dir() {
                r == Err::<usize, Ext2Error>(Ext2Error::IsADirectory) && after == before
            } else {
                let count = readable(ino.size as int, offset, before.len() as int);
                match r {
                    Ok(got) => {
                        &&& got == count
                        &&& forall|i: int|
                            0 <= i < count ==> self.file_byte(ino, offset + i) == Ok::<
                                u8,
                                Ext2Error,
                            >(#[trigger] after[i])
                        &&& forall|i: int| count <= i < before.len() ==> after[i] == before[i]
                    },
                    Err(e) => {
                        &&& e == Ext2Error::CorruptLayout
                        &&& after == before
                        &&& exists|i: int|
                            0 <= i < count && (#[trigger] self.file_byte(ino, offset + i)) is Err
                    },
                }
            },
        }
    }

    /// The volume, the inode's record and the number of bytes written after
    /// `data` was written to the file with inode `n` from place `pos` on,
    /// block after block: each block is given a block on the device, as
    /// `grow` gives one, and takes its part of the bytes. The writing ends
    /// with the bytes, or before a block that cannot be had.
    pub open spec fn poured(self, n: int, ino: Inode, pos: int, data: Seq<u8>) -> (
        Volume,
        Inode,
        int,
    )
        decreases data.len(),
    {
        let bs = self.bs();
        let within = pos % bs;
        let room = bs - within;
        let chunk = if data.len() < room {
            data.len() as int
        } else {
            room
        };
        if data.len() == 0 || chunk <= 0 {
            (self, ino, 0)
        } else {
            match self.grow_value(n, ino, pos / bs) {
                Err(_) => (self, ino, 0),
                Ok(b) => {
                    let grown = self.grow_volume(n, ino, pos / bs);
                    let next = Volume {
                        image: splice(grown.image, b * bs + within, data.take(chunk)),
                        ..grown
                    };
                    let rest = next.poured(
                        n,
                        self.grow_inode(n, ino, pos / bs),
                        pos + chunk,
                        data.skip(chunk),
                    );
                    (rest.0, rest.1, chunk + rest.2)
                },
            }
        }
    }

    /// Whether the file with inode `n` holds the bytes `data` from place
    /// `offset` on and the inode is in use with the record `ino`.
    pub open spec fn holds_written(self, n: int, ino: Inode, offset: int, data: Seq<u8>) -> bool {
        &&& self.read_inode_result(n) == Ok::<Inode, Ext2Error>(ino)
        &&& forall|i: int|
            0 <= i < data.len() ==> self.file_byte(ino, offset + i) == Ok::<u8, Ext2Error>(
                #[trigger] data[i],
            )
    }

    /// What a write of `data` to the file with inode `n` at `offset` comes
    /// to: the volume after it and the number of bytes written.
    ///
    /// `NotFound` where `n` is no inode in use and `IsADirectory` for a
    /// directory; nothing where there is nothing to write; `OutOfSpace`
    /// where `offset` is the largest length. Else the bytes are written
    /// block after block, up to the largest length. Where not even the block
    /// of the first byte can be had, the error is the one that giving the
    /// file that block comes to. In all these cases the volume is as it was.
    /// Else the inode's record is written, with a length that reaches the
    /// end of what was written, and the count is given where the volume
    /// then holds the bytes and the record; `CorruptLayout` where it does
    /// not.
    pub open spec fn written(self, n: int, offset: int, data: Seq<u8>) -> (
        Volume,
        Result<usize, Ext2Error>,
    ) {
        match self.read_inode_result(n) {
            Err(c) => (self, Err(c)),
            Ok(before) => if before.spec_is_dir() {
                (self, Err(Ext2Error::IsADirectory))
            } else if data.len() == 0 {
                (self, Ok(0usize))
            } else if offset >= 0xffff_ffff {
                (self, Err(Ext2Error::OutOfSpace))
            } else {
                let total = if data.len() <= 0xffff_ffff - offset {
                    data.len() as int
                } else {
                    0xffff_ffff - offset
                };
                let run = self.poured(n, before, offset, data.take(total));
                if run.2 <= 0 {
                    (
                        self,
                        Err(
                            match self.grow_value(n, before, offset / self.bs()) {
                                Err(e) => e,
                                Ok(_) => Ext2Error::CorruptLayout,
                            },
                        ),
                    )
                } else {
                    let now = Inode {
                        size: larger(before.size as int, offset + run.2) as u32,
                        ..run.1
                    };
                    let after = run.0.with_record(n, now);
                    (
                        after,
                        if after.holds_written(n, now, offset, data.take(run.2)) {
                            Ok(run.2 as usize)
                        } else {
                            Err(Ext2Error::CorruptLayout)
                        },
                    )
                }
            },
        }
    }

    /// What holds of a write of `data` to the file with inode `n` at
    /// `offset`, the volume being `after` afterwards.
    ///
    /// `NotFound` where `n` is no inode in use and `IsADirectory` for a
    /// directory, the volume as it was. Else the first `count` bytes of
    /// `data` are written, at least one where there is one: the inode is in
    /// use as before, with a length that reaches the end of what was
    /// written, and the file holds those bytes from `offset` on.
    /// `OutOfSpace` or `CorruptLayout` where nothing is written though there
    /// was something to write; `OutOfSpace` leaves the volume as it was.
    pub open spec fn write_outcome(
        self,
        after: Volume,
        n: int,
        offset: int,
        data: Seq<u8>,
        r: Result<usize, Ext2Error>,
    ) -> bool {
        match self.read_inode_result(n) {
            Err(c) => r == Err::<usize, Ext2Error>(c) && after == self,
            Ok(before) => if before.spec_is_dir() {
                r == Err::<usize, Ext2Error>(Ext2Error::IsADirectory) && after == self
            } else {
                match r {
                    Ok(count) => {
                        let now = after.inode_at(n);
                        &&& count <= data.len()
                        &&& (data.len() == 0 ==> after == self)
                        &&& (data.len() > 0 ==> count > 0)
                        &&& (count > 0 ==> {
                            &&& after.read_inode_result(n) == Ok::<Inode, Ext2Error>(now)
                            &&& now == (Inode {
                                size: larger(before.size as int, offset + count) as u32,
                                block: now.block,
                                blocks: now.blocks,
                                ..before
                            })
                            &&& offset + count <= 0xffff_ffff
                            &&& forall|i: int|
                                0 <= i < count ==> after.file_byte(now, offset + i) == Ok::<
                                    u8,
                                    Ext2Error,
                                >(#[trigger] data[i])
                        })
                    },
                    Err(e) => {
                        &&& e == Ext2Error::OutOfSpace || e == Ext2Error::CorruptLayout
                        &&& data.len() > 0
                        &&& e == Ext2Error::OutOfSpace ==> after == self
                    },
                }
            },
        }
    }
}

/// What was written is what is read: after a write of `count` bytes at
/// `offset`, a read at `offset` into a buffer of `count` bytes gets those
/// bytes.
pub proof fn lemma_written_is_read(
    old: Volume,
    v: Volume,
    n: int,
    offset: int,
    data: Seq<u8>,
    count: usize,
    before: Seq<u8>,
    after: Seq<u8>,
    r: Result<usize, Ext2Error>,
)
    requires
        0 <= offset,
        count > 0,
        old.write_outcome(v, n, offset, data, Ok(count)),
        before.len() == count,
        v.read_outcome(n, offset, before, after, r),
    ensures
        r == Ok::<usize, Ext2Error>(count),
        after == data.take(count as int),
{
    let now = v.inode_at(n);
    assert(type_bits(now.mode as int) == type_bits(old.inode_at(n).mode as int));
    match r {
        Ok(got) => {
            assert forall|i: int| 0 <= i < count implies after[i] == data.take(count as int)[i] by {
                assert(v.file_byte(now, offset + i) == Ok::<u8, Ext2Error>(after[i]));
                assert(v.file_byte(now, offset + i) == Ok::<u8, Ext2Error>(data[i]));
            }
            assert(after =~= data.take(count as int));
        },
        Err(_) => {
            let i = choose|i: int|
                0 <= i < count && (#[trigger] v.file_byte(now, offset + i)) is Err;
            assert(v.file_byte(now, offset + i) == Ok::<u8, Ext2Error>(data[i]));
        },
    }
}

/// How many bytes a read of `want` bytes at `offset` gets from a file of
/// `size` bytes.
pub open spec fn readable(size: int, offset: int, want: int) -> int {
    if offset >= size {
        0
    } else if want <= size - offset {
        want
    } else {
        size - offset
    }
}

/// The larger of two numbers.
pub open spec fn larger(a: int, b: int) -> int {
    if a >= b {
        a
    } else {
        b
    }
}

/// A place in a block, counted from the start of the device's blocks, has
/// that block as its quotient and that place as its remainder.
pub proof fn lemma_pos_in_block(bs: int, idx: int, r: int)
    requires
        0 < bs,
        0 <= idx,
        0 <= r < bs,
    ensures
        (idx * bs + r) / bs == idx,
        (idx * bs + r) % bs == r,
{
    assert((idx * bs + r) / bs == idx && (idx * bs + r) % bs == r) by (nonlinear_arith)
        requires
            0 < bs,
            0 <= idx,
            0 <= r < bs,
    ;
}

impl Ext2FileSystem {
    /// The `count` bytes of the file with inode `ino` from place `offset`
    /// on, holes read as zeros. The length of the file plays no part.
    /// `CorruptLayout` where a pointer on the way to one of the bytes is no
    /// data block.
    pub fn read_range(&self, ino: &Inode, offset: u64, count: usize) -> (r: Result<
        Vec<u8>,
        Ext2Error,
    >)
        requires
            self.wf(),
            offset + count <= 0x1_0000_0000,
        ensures
            match r {
                Ok(v) => v@.len() == count && forall|i: int|
                    0 <= i < count ==> self@.file_byte(*ino, offset + i) == Ok::<u8, Ext2Error>(
                        #[trigger] v@[i],
                    ),
                Err(e) => e == Ext2Error::CorruptLayout && exists|i: int|
                    0 <= i < count && (#[trigger] self@.file_byte(*ino, offset + i)) is Err,
            },
    {
        let bs = self.block_size() as u64;
        let mut out = zeroed(count);
        let mut done: usize = 0;
        while done < count
            invariant
                self.wf(),
                bs == self@.bs(),
                done <= count,
                offset + count <= 0x1_0000_0000,
                out@.len() == count,
                forall|i: int| done <= i < count ==> out@[i] == 0,
                forall|i: int|
                    0 <= i < done ==> self@.file_byte(*ino, offset + i) == Ok::<u8, Ext2Error>(
                        #[trigger] out@[i],
                    ),
            decreases count - done,
        {
            let pos = offset + done as u64;
            let idx = (pos / bs) as u32;
            let within = (pos % bs) as usize;
            let room = bs as usize - within;
            let chunk = if count - done < room {
                count - done
            } else {
                room
            };
            let ghost before = out@;
            proof {
                lemma_group_index(pos as int, bs as int, pos + 1);
            }
            match self.resolve(ino, idx) {
                Err(_) => {
                    assert(self@.file_byte(*ino, offset + done) is Err);
                    return Err(Ext2Error::CorruptLayout);
                },
                Ok(None) => {},
                Ok(Some(b)) => {
                    let base = self.block_offset(b) + within;
                    let data = self.dev.load(base, chunk);
                    copy_into(&mut out, done, data.as_slice());
                },
            }
            proof {
                assert forall|i: int| 0 <= i < done + chunk implies self@.file_byte(
                    *ino,
                    offset + i,
                ) == Ok::<u8, Ext2Error>(#[trigger] out@[i]) by {
                    if i >= done {
                        lemma_pos_in_block(bs as int, idx as int, within + (i - done));
                        assert(offset + i == idx * bs + (within + (i - done)));
                    } else {
                        assert(out@[i] == before[i]);
                    }
                }
            }
            done = done + chunk;
        }
        Ok(out)
    }

    /// Reads from the file with inode `n` into the front of `buf`, starting
    /// at place `offset` of the file, and says how many bytes were read: as
    /// many as `buf` holds, or as the file has from `offset` on if that is
    /// fewer. Holes read as zeros; the rest of `buf` stays.
    ///
    /// `NotFound` where `n` is no inode in use, `IsADirectory` for a
    /// directory, `CorruptLayout` where a pointer on the way to one of the
    /// bytes is no data block.
    pub fn read_at(&self, n: u32, offset: u64, buf: &mut Vec<u8>) -> (r: Result<usize, Ext2Error>)
        requires
            self.wf(),
        ensures
            self@.read_outcome(n as int, offset as int, old(buf)@, final(buf)@, r),
    {
        let ino = match self.read_inode(n) {
            Ok(ino) => ino,
            Err(e) => {
                return Err(e);
            },
        };
        if ino.is_dir() {
            return Err(Ext2Error::IsADirectory);
        }
        let size = ino.size as u64;
        let want = buf.len();
        let count: usize = if offset >= size {
            0
        } else if want as u64 <= size - offset {
            want
        } else {
            (size - offset) as usize
        };
        if count == 0 {
            return Ok(0);
        }
        let data = match self.read_range(&ino, offset, count) {
            Ok(data) => data,
            Err(e) => {
                return Err(e);
            },
        };
        copy_into(buf, 0, data.as_slice());
        Ok(count)
    }

    /// Writes `data` into the file with inode `n` from place `offset` on,
    /// and says how many bytes were written. Blocks that the places need are
    /// taken as `grow` takes them. The file's length becomes the end of what
    /// was written where that lies beyond it. What was written, and the
    /// inode, are read back before the call returns, so that on `Ok` the file
    /// holds it.
    ///
    /// Fewer bytes than `data` holds are written where a block cannot be had
    /// or the file would pass the largest length. `NotFound` where `n` is no
    /// inode in use, `IsADirectory` for a directory; `OutOfSpace` or
    /// `CorruptLayout` where not even the first byte can be written, and
    /// `CorruptLayout` where what is read back is not what was written.
    /// `OutOfSpace` leaves the volume as it was. The result and the volume
    /// afterwards are those of `written`.
    pub fn write_at(&mut self, n: u32, offset: u64, data: &[u8]) -> (r: Result<usize, Ext2Error>)
        requires
            old(self).wf(),
        ensures
            final(self).wf(),
            final(self).root == old(self).root,
            final(self)@.same_geometry(old(self)@),
            (final(self)@, r) == old(self)@.written(n as int, offset as int, data@),
            old(self)@.write_outcome(final(self)@, n as int, offset as int, data@, r),
    {
        let mut ino = match self.read_inode(n) {
            Ok(ino) => ino,
            Err(e) => {
                return Err(e);
            },
        };
        if ino.is_dir() {
            return Err(Ext2Error::IsADirectory);
        }
        if data.len() == 0 {
            return Ok(0);
        }
        if offset >= 0xffff_ffff {
            return Err(Ext2Error::OutOfSpace);
        }
        let ghost v0 = self@;
        let ghost before = ino;
        let bs = self.block_size() as u64;
        let limit = 0xffff_ffff - offset;
        let total: usize = if data.len() as u64 <= limit {
            data.len()
        } else {
            limit as usize
        };
        let ghost plan = v0.poured(n as int, before, offset as int, data@.take(total as int));
        let mut done: usize = 0;
        let mut failure: Option<Ext2Error> = None;
        assert(data@.subrange(0, total as int) =~= data@.take(total as int));
        while done < total && failure.is_none()
            invariant
                self.wf(),
                self.root == old(self).root,
                self@.same_geometry(v0),
                v0.wf(),
                v0.inode_valid(n as int),
                bs == self@.bs(),
                done <= total <= data@.len(),
                offset + total <= 0xffff_ffff,
                ino == (Inode { block: ino.block, blocks: ino.blocks, ..before }),
                done == 0 ==> self@ == v0 && ino == before,
                done == 0 ==> (failure matches Some(e) ==> v0.grow_value(
                    n as int,
                    before,
                    offset as int / v0.bs(),
                ) == Err::<u32, Ext2Error>(e)),
                done > 0 ==> v0.grow_value(n as int, before, offset as int / v0.bs()) is Ok,
                failure is Some ==> plan == (self@, ino, done as int),
                failure is None ==> ({
                    let rest = self@.poured(
                        n as int,
                        ino,
                        offset + done,
                        data@.subrange(done as int, total as int),
                    );
                    plan == (rest.0, rest.1, done + rest.2)
                }),
                failure matches Some(e) ==> e == Ext2Error::OutOfSpace || e
                    == Ext2Error::CorruptLayout,
            decreases total - done, if failure is None { 1int } else { 0int },
        {
            let pos = offset + done as u64;
            let room = (bs - pos % bs) as usize;
            let chunk = if total - done < room {
                total - done
            } else {
                room
            };
            let ghost v1 = self@;
            let ghost left = data@.subrange(done as int, total as int);
            let part = slice_subrange(data, done, done + chunk);
            proof {
                assert(left.take(chunk as int) =~= part@);
                assert(left.skip(chunk as int) =~= data@.subrange(done + chunk, total as int));
            }
            match self.pour(n, &mut ino, pos, part) {
                Err(e) => {
                    failure = Some(e);
                },
                Ok(_) => {
                    proof {
                        lemma_same_geometry_trans(v0, v1, self@);
                    }
                    done = done + chunk;
                },
            }
        }
        if done == 0 {
            return match failure {
                Some(e) => Err(e),
                None => Err(Ext2Error::CorruptLayout),
            };
        }
        proof {
            assert(data@.subrange(total as int, total as int) =~= Seq::<u8>::empty());
        }
        let end = (offset + done as u64) as u32;
        if end > ino.size {
            ino.size = end;
        }
        let ghost v3 = self@;
        sure(self.write_inode(n, &ino));
        proof {
            lemma_geometry_carries(v0, v3, self@);
        }
        if !self.confirm_written(n, &ino, offset, data, done) {
            return Err(Ext2Error::CorruptLayout);
        }
        assert forall|i: int| 0 <= i < done implies self@.file_byte(ino, offset + i) == Ok::<
            u8,
            Ext2Error,
        >(#[trigger] data@[i]) by {
            assert(data@.take(done as int)[i] == data@[i]);
        }
        Ok(done)
    }

    /// Gives the block of place `pos` of the file with inode `n` a block on
    /// the device, as `grow` gives one, and writes `part` into it from the
    /// place on. A failure changes nothing.
    fn pour(&mut self, n: u32, ino: &mut Inode, pos: u64, part: &[u8]) -> (r: Result<
        (),
        Ext2Error,
    >)
        requires
            old(self).wf(),
            pos <= 0xffff_ffff,
            pos % (old(self)@.bs() as u64) + part@.len() <= old(self)@.bs(),
        ensures
            final(self).wf(),
            final(self).root == old(self).root,
            final(self)@.same_geometry(old(self)@),
            *final(ino) == (Inode {
                block: final(ino).block,
                blocks: final(ino).blocks,
                ..*old(ino)
            }),
            match old(self)@.grow_value(n as int, *old(ino), pos as int / old(self)@.bs()) {
                Err(e) => {
                    &&& r == Err::<(), Ext2Error>(e)
                    &&& final(self)@ == old(self)@
                    &&& *final(ino) == *old(ino)
                    &&& (e == Ext2Error::OutOfSpace || e == Ext2Error::CorruptLayout || e
                        == Ext2Error::NotFound)
                    &&& (e == Ext2Error::NotFound <==> !old(self)@.inode_valid(n as int))
                },
                Ok(b) => {
                    let v = old(self)@;
                    let idx = pos as int / v.bs();
                    let grown = v.grow_volume(n as int, *old(ino), idx);
                    &&& r == Ok::<(), Ext2Error>(())
                    &&& *final(ino) == v.grow_inode(n as int, *old(ino), idx)
                    &&& final(self)@ == (Volume {
                        image: splice(grown.image, b * v.bs() + pos as int % v.bs(), part@),
                        ..grown
                    })
                },
            },
    {
        let bs = self.block_size() as u64;
        let idx = (pos / bs) as u32;
        let within = (pos % bs) as usize;
        let ghost v0 = self@;
        let b = match self.grow(n, ino, idx) {
            Ok(b) => b,
            Err(e) => {
                return Err(e);
            },
        };
        let ghost v1 = self@;
        proof {
            self@.lemma_resolved_is_data_block(*ino, idx as int);
        }
        self.write_bytes(b, within, part);
        proof {
            lemma_geometry_carries(v0, v1, self@);
        }
        Ok(())
    }

    /// Whether the file with inode `n` holds the first `count` bytes of
    /// `data` from place `offset` on and the inode is in use with the record
    /// `ino`.
    fn confirm_written(&self, n: u32, ino: &Inode, offset: u64, data: &[u8], count: usize) -> (ok:
        bool)
        requires
            self.wf(),
            count <= data@.len(),
            offset + count <= 0xffff_ffff,
        ensures
            ok == self@.holds_written(n as int, *ino, offset as int, data@.take(count as int)),
    {
        let ghost want = data@.take(count as int);
        let back = match self.read_range(ino, offset, count) {
            Ok(back) => back,
            Err(_) => {
                proof {
                    let i = choose|i: int|
                        0 <= i < count && (#[trigger] self@.file_byte(*ino, offset + i)) is Err;
                    assert(self@.file_byte(*ino, offset + i) != Ok::<u8, Ext2Error>(want[i]));
                }
                return false;
            },
        };
        assert(data@.subrange(0, count as int) =~= want);
        if !same_bytes(data, 0, count, back.as_slice()) {
            proof {
                if forall|i: int| 0 <= i < count ==> back@[i] == #[trigger] want[i] {
                    assert(back@ =~= want);
                }
                let i = choose|i: int| 0 <= i < count && back@[i] != #[trigger] want[i];
                assert(self@.file_byte(*ino, offset + i) == Ok::<u8, Ext2Error>(back@[i]));
            }
            return false;
        }
        match self.read_inode(n) {
            Ok(kept) => kept.same_as(ino),
            Err(_) => false,
        }
    }
}

} // verus!
