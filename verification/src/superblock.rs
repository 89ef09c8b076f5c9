//! The superblock: the 1024-byte record that describes a volume's geometry.

use crate::bytes::{
    copy_into, copy_range, le16, le32, lemma_le16_unique, lemma_le32_unique, read_i16, read_i32,
    read_u16, read_u32, signed16, signed32, write_i16, write_i32, write_u16, write_u32, zeroed,
};
use crate::error::Ext2Error;
use vstd::prelude::*;

verus! {

/// The superblock of an ext2 volume. It lies 1024 bytes into the volume and is
/// 1024 bytes long; every byte of the record is held in one of the fields.
#[derive(Clone, Copy, Debug)]
pub struct Superblock {
    /// Total number of inodes.
    pub inodes_count: u32,
    /// Total number of blocks.
    pub blocks_count: u32,
    /// Number of blocks reserved for the superuser.
    pub r_blocks_count: u32,
    /// Number of unallocated blocks.
    pub free_blocks_count: u32,
    /// Number of unallocated inodes.
    pub free_inodes_count: u32,
    /// Number of the block that holds the superblock.
    pub first_data_block: u32,
    /// The block size is 1024 shifted left by this.
    pub log_block_size: u32,
    /// The fragment size is 1024 shifted by this.
    pub log_frag_size: i32,
    /// Number of blocks in each block group.
    pub blocks_per_group: u32,
    /// Number of fragments in each block group.
    pub frags_per_group: u32,
    /// Number of inodes in each block group.
    pub inodes_per_group: u32,
    /// Time of the last mount.
    pub mtime: u32,
    /// Time of the last write.
    pub wtime: u32,
    /// Mounts since the last consistency check.
    pub mnt_count: u16,
    /// Mounts allowed before a consistency check is due.
    pub max_mnt_count: i16,
    /// The signature, `MAGIC` on an ext2 volume.
    pub magic: u16,
    /// State of the file system.
    pub state: u16,
    /// What to do when an error is detected.
    pub errors: u16,
    /// Minor part of the revision.
    pub rev_minor: u16,
    /// Time of the last consistency check.
    pub lastcheck: u32,
    /// Longest time between consistency checks.
    pub checkinterval: u32,
    /// The operating system that made the volume.
    pub creator_os: u32,
    /// Major part of the revision.
    pub rev_major: u32,
    /// User that may use the reserved blocks.
    pub block_uid: u16,
    /// Group that may use the reserved blocks.
    pub block_gid: u16,
    /// First inode that is not reserved.
    pub first_inode: u32,
    /// Size of an inode record in bytes.
    pub inode_size: u16,
    /// Block group of this copy of the superblock.
    pub block_group: u16,
    /// Features that may be ignored.
    pub features_opt: u32,
    /// Features that must be understood.
    pub features_req: u32,
    /// Features that must be understood to write.
    pub features_ronly: u32,
    /// Identifier of the volume.
    pub fs_id: [u8; 16],
    /// Name of the volume.
    pub volume_name: [u8; 16],
    /// Path the volume was last mounted on.
    pub last_mnt_path: [u8; 64],
    /// Compression algorithms in use.
    pub compression: u32,
    /// Blocks to preallocate for a file.
    pub prealloc_blocks_files: u8,
    /// Blocks to preallocate for a directory.
    pub prealloc_blocks_dirs: u8,
    /// Two bytes of padding.
    pub unused: [u8; 2],
    /// Identifier of the journal.
    pub journal_id: [u8; 16],
    /// Inode of the journal.
    pub journal_inode: u32,
    /// Device of the journal.
    pub journal_dev: u32,
    /// Head of the list of orphan inodes.
    pub journal_orphan_head: u32,
    /// The rest of the record.
    pub reserved: [u8; 788],
}

/// The block size that belongs to a shift count: 1024 shifted left by it.
pub open spec fn block_size_of(log: int) -> int {
    if log <= 0 {
        1024
    } else if log == 1 {
        2048
    } else if log == 2 {
        4096
    } else if log == 3 {
        8192
    } else if log == 4 {
        16384
    } else if log == 5 {
        32768
    } else {
        65536
    }
}

/// How many groups of `per` it takes to hold `total`.
pub open spec fn groups_for(total: int, per: int) -> int {
    (total + per - 1) / per
}

fn read_array<const N: usize>(buf: &[u8], off: usize) -> (r: [u8; N])
    requires
        off + N <= buf@.len(),
    ensures
        r@ == buf@.subrange(off as int, off + N),
{
    let total = buf.len();
    let mut r: [u8; N] = vstd::array::array_fill_for_copy_types::<u8, N>(0u8);
    let mut i: usize = 0;
    while i < N
        invariant
            i <= N,
            off + N <= total,
            total == buf@.len(),
            r@.len() == N,
            forall|j: int| 0 <= j < i ==> r@[j] == buf@[off + j],
        decreases N - i,
    {
        r[i] = buf[off + i];
        i = i + 1;
    }
    assert(r@ =~= buf@.subrange(off as int, off + N));
    r
}

impl Superblock {
    /// The signature of an ext2 volume.
    pub const MAGIC: u16 = 0xef53;

    /// The counters and times at the head of the record, bytes 0x00 to 0x34.
    pub open spec fn enc_head(self, s: Seq<u8>) -> bool {
        &&& self.inodes_count == le32(s, 0x00)
        &&& self.blocks_count == le32(s, 0x04)
        &&& self.r_blocks_count == le32(s, 0x08)
        &&& self.free_blocks_count == le32(s, 0x0c)
        &&& self.free_inodes_count == le32(s, 0x10)
        &&& self.first_data_block == le32(s, 0x14)
        &&& self.log_block_size == le32(s, 0x18)
        &&& self.log_frag_size == signed32(le32(s, 0x1c))
        &&& self.blocks_per_group == le32(s, 0x20)
        &&& self.frags_per_group == le32(s, 0x24)
        &&& self.inodes_per_group == le32(s, 0x28)
        &&& self.mtime == le32(s, 0x2c)
        &&& self.wtime == le32(s, 0x30)
    }

    /// State, revision and features, bytes 0x34 to 0x68.
    pub open spec fn enc_state(self, s: Seq<u8>) -> bool {
        &&& self.mnt_count == le16(s, 0x34)
        &&& self.max_mnt_count == signed16(le16(s, 0x36))
        &&& self.magic == le16(s, 0x38)
        &&& self.state == le16(s, 0x3a)
        &&& self.errors == le16(s, 0x3c)
        &&& self.rev_minor == le16(s, 0x3e)
        &&& self.lastcheck == le32(s, 0x40)
        &&& self.checkinterval == le32(s, 0x44)
        &&& self.creator_os == le32(s, 0x48)
        &&& self.rev_major == le32(s, 0x4c)
        &&& self.block_uid == le16(s, 0x50)
        &&& self.block_gid == le16(s, 0x52)
        &&& self.first_inode == le32(s, 0x54)
        &&& self.inode_size == le16(s, 0x58)
        &&& self.block_group == le16(s, 0x5a)
        &&& self.features_opt == le32(s, 0x5c)
        &&& self.features_req == le32(s, 0x60)
        &&& self.features_ronly == le32(s, 0x64)
    }

    /// Identifier, names and preallocation, bytes 0x68 to 0xd0.
    pub open spec fn enc_names(self, s: Seq<u8>) -> bool {
        &&& self.fs_id@ == s.subrange(0x68, 0x78)
        &&& self.volume_name@ == s.subrange(0x78, 0x88)
        &&& self.last_mnt_path@ == s.subrange(0x88, 0xc8)
        &&& self.compression == le32(s, 0xc8)
        &&& self.prealloc_blocks_files == s[0xcc]
        &&& self.prealloc_blocks_dirs == s[0xcd]
        &&& self.unused@ == s.subrange(0xce, 0xd0)
    }

    /// The journal fields and the rest, bytes 0xd0 to 0x400.
    pub open spec fn enc_tail(self, s: Seq<u8>) -> bool {
        &&& self.journal_id@ == s.subrange(0xd0, 0xe0)
        &&& self.journal_inode == le32(s, 0xe0)
        &&& self.journal_dev == le32(s, 0xe4)
        &&& self.journal_orphan_head == le32(s, 0xe8)
        &&& self.reserved@ == s.subrange(0xec, 0x400)
    }

    /// `s` is the on-disk form of this superblock: 1024 bytes, each field at
    /// its fixed offset, integers low byte first.
    pub open spec fn is_encoding(self, s: Seq<u8>) -> bool {
        &&& s.len() == 1024
        &&& self.enc_head(s)
        &&& self.enc_state(s)
        &&& self.enc_names(s)
        &&& self.enc_tail(s)
    }

    fn from_record(buf: &[u8]) -> (sb: Self)
        requires
            buf@.len() == 1024,
        ensures
            sb.is_encoding(buf@),
    {
        Superblock {
            inodes_count: read_u32(buf, 0x00),
            blocks_count: read_u32(buf, 0x04),
            r_blocks_count: read_u32(buf, 0x08),
            free_blocks_count: read_u32(buf, 0x0c),
            free_inodes_count: read_u32(buf, 0x10),
            first_data_block: read_u32(buf, 0x14),
            log_block_size: read_u32(buf, 0x18),
            log_frag_size: read_i32(buf, 0x1c),
            blocks_per_group: read_u32(buf, 0x20),
            frags_per_group: read_u32(buf, 0x24),
            inodes_per_group: read_u32(buf, 0x28),
            mtime: read_u32(buf, 0x2c),
            wtime: read_u32(buf, 0x30),
            mnt_count: read_u16(buf, 0x34),
            max_mnt_count: read_i16(buf, 0x36),
            magic: read_u16(buf, 0x38),
            state: read_u16(buf, 0x3a),
            errors: read_u16(buf, 0x3c),
            rev_minor: read_u16(buf, 0x3e),
            lastcheck: read_u32(buf, 0x40),
            checkinterval: read_u32(buf, 0x44),
            creator_os: read_u32(buf, 0x48),
            rev_major: read_u32(buf, 0x4c),
            block_uid: read_u16(buf, 0x50),
            block_gid: read_u16(buf, 0x52),
            first_inode: read_u32(buf, 0x54),
            inode_size: read_u16(buf, 0x58),
            block_group: read_u16(buf, 0x5a),
            features_opt: read_u32(buf, 0x5c),
            features_req: read_u32(buf, 0x60),
            features_ronly: read_u32(buf, 0x64),
            fs_id: read_array::<16>(buf, 0x68),
            volume_name: read_array::<16>(buf, 0x78),
            last_mnt_path: read_array::<64>(buf, 0x88),
            compression: read_u32(buf, 0xc8),
            prealloc_blocks_files: buf[0xcc],
            prealloc_blocks_dirs: buf[0xcd],
            unused: read_array::<2>(buf, 0xce),
            journal_id: read_array::<16>(buf, 0xd0),
            journal_inode: read_u32(buf, 0xe0),
            journal_dev: read_u32(buf, 0xe4),
            journal_orphan_head: read_u32(buf, 0xe8),
            reserved: read_array::<788>(buf, 0xec),
        }
    }

    /// Reads every field from the first 1024 bytes of `buf`. Nothing is
    /// checked: the magic of the result may be anything.
    pub fn new_from_buf(buf: &mut [u8]) -> (sb: Self)
        requires
            old(buf)@.len() >= 1024,
        ensures
            final(buf)@ == old(buf)@,
            sb.is_encoding(old(buf)@.subrange(0, 1024)),
    {
        let head = copy_range(buf, 0, 1024);
        Self::from_record(head.as_slice())
    }

    /// Decodes a superblock. It is refused when the buffer is not 1024 bytes
    /// long or the two bytes at 0x38 are not the magic.
    pub fn decode(buf: &[u8]) -> (r: Result<Superblock, Ext2Error>)
        ensures
            match r {
                Ok(sb) => buf@.len() == 1024 && le16(buf@, 0x38) == Self::MAGIC
                    && sb.is_encoding(buf@),
                Err(e) => e == Ext2Error::InvalidSuperblock && (buf@.len() != 1024 || le16(
                    buf@,
                    0x38,
                ) != Self::MAGIC),
            },
    {
        if buf.len() != 1024 {
            return Err(Ext2Error::InvalidSuperblock);
        }
        if read_u16(buf, 0x38) != Self::MAGIC {
            return Err(Ext2Error::InvalidSuperblock);
        }
        Ok(Self::from_record(buf))
    }

    fn put_head(&self, out: &mut Vec<u8>)
        requires
            old(out)@.len() == 1024,
        ensures
            final(out)@.len() == 1024,
            self.enc_head(final(out)@),
            forall|i: int| 0x34 <= i < 1024 ==> final(out)@[i] == old(out)@[i],
    {
        write_u32(out, 0x00, self.inodes_count);
        write_u32(out, 0x04, self.blocks_count);
        write_u32(out, 0x08, self.r_blocks_count);
        write_u32(out, 0x0c, self.free_blocks_count);
        write_u32(out, 0x10, self.free_inodes_count);
        write_u32(out, 0x14, self.first_data_block);
        write_u32(out, 0x18, self.log_block_size);
        write_i32(out, 0x1c, self.log_frag_size);
        write_u32(out, 0x20, self.blocks_per_group);
        write_u32(out, 0x24, self.frags_per_group);
        write_u32(out, 0x28, self.inodes_per_group);
        write_u32(out, 0x2c, self.mtime);
        write_u32(out, 0x30, self.wtime);
    }

    fn put_state(&self, out: &mut Vec<u8>)
        requires
            old(out)@.len() == 1024,
        ensures
            final(out)@.len() == 1024,
            self.enc_state(final(out)@),
            forall|i: int|
                0 <= i < 1024 && !(0x34 <= i < 0x68) ==> final(out)@[i] == old(out)@[i],
    {
        write_u16(out, 0x34, self.mnt_count);
        write_i16(out, 0x36, self.max_mnt_count);
        write_u16(out, 0x38, self.magic);
        write_u16(out, 0x3a, self.state);
        write_u16(out, 0x3c, self.errors);
        write_u16(out, 0x3e, self.rev_minor);
        write_u32(out, 0x40, self.lastcheck);
        write_u32(out, 0x44, self.checkinterval);
        write_u32(out, 0x48, self.creator_os);
        write_u32(out, 0x4c, self.rev_major);
        write_u16(out, 0x50, self.block_uid);
        write_u16(out, 0x52, self.block_gid);
        write_u32(out, 0x54, self.first_inode);
        write_u16(out, 0x58, self.inode_size);
        write_u16(out, 0x5a, self.block_group);
        write_u32(out, 0x5c, self.features_opt);
        write_u32(out, 0x60, self.features_req);
        write_u32(out, 0x64, self.features_ronly);
    }

    fn put_names(&self, out: &mut Vec<u8>)
        requires
            old(out)@.len() == 1024,
        ensures
            final(out)@.len() == 1024,
            self.enc_names(final(out)@),
            forall|i: int|
                0 <= i < 1024 && !(0x68 <= i < 0xd0) ==> final(out)@[i] == old(out)@[i],
    {
        copy_into(out, 0x68, self.fs_id.as_slice());
        copy_into(out, 0x78, self.volume_name.as_slice());
        copy_into(out, 0x88, self.last_mnt_path.as_slice());
        write_u32(out, 0xc8, self.compression);
        out[0xcc] = self.prealloc_blocks_files;
        out[0xcd] = self.prealloc_blocks_dirs;
        copy_into(out, 0xce, self.unused.as_slice());
        assert(self.fs_id@ =~= out@.subrange(0x68, 0x78));
        assert(self.volume_name@ =~= out@.subrange(0x78, 0x88));
        assert(self.last_mnt_path@ =~= out@.subrange(0x88, 0xc8));
        assert(self.unused@ =~= out@.subrange(0xce, 0xd0));
    }

    fn put_tail(&self, out: &mut Vec<u8>)
        requires
            old(out)@.len() == 1024,
        ensures
            final(out)@.len() == 1024,
            self.enc_tail(final(out)@),
            forall|i: int| 0 <= i < 0xd0 ==> final(out)@[i] == old(out)@[i],
    {
        copy_into(out, 0xd0, self.journal_id.as_slice());
        write_u32(out, 0xe0, self.journal_inode);
        write_u32(out, 0xe4, self.journal_dev);
        write_u32(out, 0xe8, self.journal_orphan_head);
        copy_into(out, 0xec, self.reserved.as_slice());
        assert(self.journal_id@ =~= out@.subrange(0xd0, 0xe0));
        assert(self.reserved@ =~= out@.subrange(0xec, 0x400));
    }

    /// The on-disk form of this superblock.
    pub fn encode(&self) -> (out: Vec<u8>)
        ensures
            self.is_encoding(out@),
    {
        let mut out = zeroed(1024);
        self.put_head(&mut out);
        let ghost s1 = out@;
        self.put_state(&mut out);
        let ghost s2 = out@;
        self.put_names(&mut out);
        let ghost s3 = out@;
        self.put_tail(&mut out);
        proof {
            let s = out@;
            assert(self.enc_head(s));
            assert(self.enc_state(s));
            assert(s.subrange(0x68, 0x78) =~= s3.subrange(0x68, 0x78));
            assert(s.subrange(0x78, 0x88) =~= s3.subrange(0x78, 0x88));
            assert(s.subrange(0x88, 0xc8) =~= s3.subrange(0x88, 0xc8));
            assert(s.subrange(0xce, 0xd0) =~= s3.subrange(0xce, 0xd0));
            assert(self.enc_names(s));
        }
        out
    }

    /// The size of a block in bytes.
    pub open spec fn spec_block_size(self) -> int {
        block_size_of(self.log_block_size as int)
    }

    /// The size of an inode record in bytes: 128 in revision 0, else the field.
    pub open spec fn spec_inode_record_size(self) -> int {
        if self.rev_major == 0 {
            128
        } else {
            self.inode_size as int
        }
    }

    /// The number of block groups.
    pub open spec fn spec_group_count(self) -> int {
        groups_for(self.blocks_count as int, self.blocks_per_group as int)
    }

    /// The block that holds the superblock, which lies 1024 bytes into the
    /// volume: block 1 where blocks are 1024 bytes long, else block 0.
    pub open spec fn spec_superblock_block(self) -> int {
        if self.spec_block_size() <= 1024 {
            1
        } else {
            0
        }
    }

    /// The geometry is one this library works with: the magic is right, the
    /// block size is at most 32768 (so that the length of a directory record
    /// fits its 16-bit field), a group's bitmaps fit one block each, inode
    /// records divide a block, and the counts of blocks and of inodes give the
    /// same number of groups.
    pub open spec fn geometry_ok(self) -> bool {
        &&& self.magic == Self::MAGIC
        &&& self.log_block_size <= 5
        &&& 0 < self.blocks_per_group <= 8 * self.spec_block_size()
        &&& 0 < self.inodes_per_group <= 8 * self.spec_block_size()
        &&& 128 <= self.spec_inode_record_size() <= self.spec_block_size()
        &&& self.spec_block_size() % self.spec_inode_record_size() == 0
        &&& self.first_data_block == self.spec_superblock_block()
        &&& self.first_data_block < self.blocks_count
        &&& groups_for(self.inodes_count as int, self.inodes_per_group as int)
            == self.spec_group_count()
    }

    /// The size of a block in bytes.
    pub fn block_size(&self) -> (bs: u32)
        requires
            self.log_block_size <= 6,
        ensures
            bs == self.spec_block_size(),
            1024 <= bs <= 65536,
            bs % 1024 == 0,
    {
        let log = self.log_block_size;
        assert(log <= 6 ==> (log == 0 ==> 1024u32 << log == 1024u32) && (log == 1 ==> 1024u32 << log
            == 2048u32) && (log == 2 ==> 1024u32 << log == 4096u32) && (log == 3 ==> 1024u32 << log
            == 8192u32) && (log == 4 ==> 1024u32 << log == 16384u32) && (log == 5 ==> 1024u32
            << log == 32768u32) && (log == 6 ==> 1024u32 << log == 65536u32)) by (bit_vector);
        1024u32 << log
    }

    /// The size of an inode record in bytes.
    pub fn inode_record_size(&self) -> (n: u16)
        ensures
            n == self.spec_inode_record_size(),
    {
        if self.rev_major == 0 {
            128
        } else {
            self.inode_size
        }
    }

    /// The number of block groups.
    pub fn group_count(&self) -> (n: u32)
        requires
            self.blocks_per_group > 0,
        ensures
            n == self.spec_group_count(),
    {
        let total = self.blocks_count as u64;
        let per = self.blocks_per_group as u64;
        assert((total + per - 1) / (per as int) <= total) by (nonlinear_arith)
            requires
                per >= 1,
        ;
        ((total + per - 1) / per) as u32
    }

    /// Whether the geometry is one this library works with.
    pub fn check_geometry(&self) -> (ok: bool)
        ensures
            ok == self.geometry_ok(),
    {
        if self.magic != Self::MAGIC || self.log_block_size > 5 {
            return false;
        }
        let bs = self.block_size();
        let isz = self.inode_record_size() as u32;
        if self.blocks_per_group == 0 || self.blocks_per_group > 8 * bs {
            return false;
        }
        if self.inodes_per_group == 0 || self.inodes_per_group > 8 * bs {
            return false;
        }
        if isz < 128 || isz > bs || bs % isz != 0 {
            return false;
        }
        let own: u32 = if bs <= 1024 {
            1
        } else {
            0
        };
        if self.first_data_block != own || self.first_data_block >= self.blocks_count {
            return false;
        }
        let by_inodes = (self.inodes_count as u64 + self.inodes_per_group as u64 - 1) / (
        self.inodes_per_group as u64);
        by_inodes == self.group_count() as u64
    }
}

/// A superblock has one on-disk form: two byte sequences that both encode it
/// are the same sequence. So decoding a record and encoding the result gives
/// the record back, byte for byte.
pub proof fn lemma_encoding_fixes_bytes(sb: Superblock, s1: Seq<u8>, s2: Seq<u8>)
    requires
        sb.is_encoding(s1),
        sb.is_encoding(s2),
    ensures
        s1 == s2,
{
    lemma_le32_unique(s1, 0x00, s2, 0x00);
    lemma_le32_unique(s1, 0x04, s2, 0x04);
    lemma_le32_unique(s1, 0x08, s2, 0x08);
    lemma_le32_unique(s1, 0x0c, s2, 0x0c);
    lemma_le32_unique(s1, 0x10, s2, 0x10);
    lemma_le32_unique(s1, 0x14, s2, 0x14);
    lemma_le32_unique(s1, 0x18, s2, 0x18);
    lemma_le32_unique(s1, 0x1c, s2, 0x1c);
    lemma_le32_unique(s1, 0x20, s2, 0x20);
    lemma_le32_unique(s1, 0x24, s2, 0x24);
    lemma_le32_unique(s1, 0x28, s2, 0x28);
    lemma_le32_unique(s1, 0x2c, s2, 0x2c);
    lemma_le32_unique(s1, 0x30, s2, 0x30);
    lemma_le16_unique(s1, 0x34, s2, 0x34);
    lemma_le16_unique(s1, 0x36, s2, 0x36);
    lemma_le16_unique(s1, 0x38, s2, 0x38);
    lemma_le16_unique(s1, 0x3a, s2, 0x3a);
    lemma_le16_unique(s1, 0x3c, s2, 0x3c);
    lemma_le16_unique(s1, 0x3e, s2, 0x3e);
    lemma_le32_unique(s1, 0x40, s2, 0x40);
    lemma_le32_unique(s1, 0x44, s2, 0x44);
    lemma_le32_unique(s1, 0x48, s2, 0x48);
    lemma_le32_unique(s1, 0x4c, s2, 0x4c);
    lemma_le16_unique(s1, 0x50, s2, 0x50);
    lemma_le16_unique(s1, 0x52, s2, 0x52);
    lemma_le32_unique(s1, 0x54, s2, 0x54);
    lemma_le16_unique(s1, 0x58, s2, 0x58);
    lemma_le16_unique(s1, 0x5a, s2, 0x5a);
    lemma_le32_unique(s1, 0x5c, s2, 0x5c);
    lemma_le32_unique(s1, 0x60, s2, 0x60);
    lemma_le32_unique(s1, 0x64, s2, 0x64);
    lemma_le32_unique(s1, 0xc8, s2, 0xc8);
    lemma_le32_unique(s1, 0xe0, s2, 0xe0);
    lemma_le32_unique(s1, 0xe4, s2, 0xe4);
    lemma_le32_unique(s1, 0xe8, s2, 0xe8);
    assert forall|i: int| 0 <= i < 1024 implies s1[i] == s2[i] by {
        if 0x68 <= i < 0x78 {
            assert(s1.subrange(0x68, 0x78)[i - 0x68] == s2.subrange(0x68, 0x78)[i - 0x68]);
        } else if 0x78 <= i < 0x88 {
            assert(s1.subrange(0x78, 0x88)[i - 0x78] == s2.subrange(0x78, 0x88)[i - 0x78]);
        } else if 0x88 <= i < 0xc8 {
            assert(s1.subrange(0x88, 0xc8)[i - 0x88] == s2.subrange(0x88, 0xc8)[i - 0x88]);
        } else if 0xce <= i < 0xd0 {
            assert(s1.subrange(0xce, 0xd0)[i - 0xce] == s2.subrange(0xce, 0xd0)[i - 0xce]);
        } else if 0xd0 <= i < 0xe0 {
            assert(s1.subrange(0xd0, 0xe0)[i - 0xd0] == s2.subrange(0xd0, 0xe0)[i - 0xd0]);
        } else if 0xec <= i {
            assert(s1.subrange(0xec, 0x400)[i - 0xec] == s2.subrange(0xec, 0x400)[i - 0xec]);
        }
    }
    assert(s1 =~= s2);
}

/// A record is the on-disk form of one superblock only. So encoding a
/// superblock and decoding the result gives the superblock back.
pub proof fn lemma_encoding_fixes_value(a: Superblock, b: Superblock, s: Seq<u8>)
    requires
        a.is_encoding(s),
        b.is_encoding(s),
    ensures
        a == b,
{
    assert(a.fs_id =~= b.fs_id);
    assert(a.volume_name =~= b.volume_name);
    assert(a.last_mnt_path =~= b.last_mnt_path);
    assert(a.unused =~= b.unused);
    assert(a.journal_id =~= b.journal_id);
    assert(a.reserved =~= b.reserved);
}

} // verus!
