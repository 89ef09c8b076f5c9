//! Inode records: one 128-byte record for each file, directory or link.

use crate::bytes::{
    copy_range, le16, le32, lemma_le16_unique, lemma_le32_unique, read_u16, read_u32, write_u16,
    write_u32, zeroed,
};
use vstd::prelude::*;

verus! {

/// The type bits of a regular file.
pub const MODE_FILE: u16 = 0x8000;

/// The type bits of a directory.
pub const MODE_DIR: u16 = 0x4000;

/// The type bits of a symbolic link.
pub const MODE_SYMLINK: u16 = 0xa000;

/// What an inode is.
#[derive(Clone, Copy, Debug, PartialEq, Eq, Structural)]
pub enum FileType {
    /// Not one of the types below.
    Unknown,
    /// A regular file.
    File,
    /// A directory.
    Dir,
    /// A character device.
    CharDevice,
    /// A block device.
    BlockDevice,
    /// A named pipe.
    Fifo,
    /// A socket.
    Socket,
    /// A symbolic link.
    SymLink,
}

/// The metadata and block pointers of one file, directory or link.
#[derive(Clone, Copy, Debug)]
pub struct Inode {
    /// Type and permission bits.
    pub mode: u16,
    /// Owner.
    pub uid: u16,
    /// Length in bytes.
    pub size: u32,
    /// Time of the last access.
    pub atime: u32,
    /// Time of creation.
    pub ctime: u32,
    /// Time of the last change.
    pub mtime: u32,
    /// Time of deletion.
    pub dtime: u32,
    /// Group.
    pub gid: u16,
    /// Number of directory entries that name this inode.
    pub links_count: u16,
    /// Number of 512-byte sectors allocated.
    pub blocks: u32,
    /// Flags.
    pub flags: u32,
    /// A word that depends on the operating system.
    pub osd1: u32,
    /// Twelve direct pointers, then the singly, doubly and triply indirect one.
    pub block: [u32; 15],
    /// Version, for network file systems.
    pub generation: u32,
    /// Block of extended attributes.
    pub file_acl: u32,
    /// Access control of a directory.
    pub dir_acl: u32,
    /// Address of the fragment.
    pub faddr: u32,
    /// Three words that depend on the operating system.
    pub osd2: [u32; 3],
}

impl FileType {
    /// The code of this type in a directory entry.
    pub open spec fn spec_code(self) -> int {
        match self {
            FileType::Unknown => 0,
            FileType::File => 1,
            FileType::Dir => 2,
            FileType::CharDevice => 3,
            FileType::BlockDevice => 4,
            FileType::Fifo => 5,
            FileType::Socket => 6,
            FileType::SymLink => 7,
        }
    }

    /// The type that a code in a directory entry stands for.
    pub open spec fn spec_from_code(c: int) -> FileType {
        if c == 1 {
            FileType::File
        } else if c == 2 {
            FileType::Dir
        } else if c == 3 {
            FileType::CharDevice
        } else if c == 4 {
            FileType::BlockDevice
        } else if c == 5 {
            FileType::Fifo
        } else if c == 6 {
            FileType::Socket
        } else if c == 7 {
            FileType::SymLink
        } else {
            FileType::Unknown
        }
    }

    /// The type bits of `mode` that belong to this type; 0 for `Unknown`.
    pub open spec fn spec_mode_bits(self) -> int {
        match self {
            FileType::Unknown => 0,
            FileType::File => 0x8000,
            FileType::Dir => 0x4000,
            FileType::CharDevice => 0x2000,
            FileType::BlockDevice => 0x6000,
            FileType::Fifo => 0x1000,
            FileType::Socket => 0xc000,
            FileType::SymLink => 0xa000,
        }
    }

    /// The code of this type in a directory entry.
    pub fn code(self) -> (c: u8)
        ensures
            c == self.spec_code(),
    {
        match self {
            FileType::Unknown => 0,
            FileType::File => 1,
            FileType::Dir => 2,
            FileType::CharDevice => 3,
            FileType::BlockDevice => 4,
            FileType::Fifo => 5,
            FileType::Socket => 6,
            FileType::SymLink => 7,
        }
    }

    /// The type that a code in a directory entry stands for.
    pub fn from_code(c: u8) -> (t: FileType)
        ensures
            t == Self::spec_from_code(c as int),
    {
        if c == 1 {
            FileType::File
        } else if c == 2 {
            FileType::Dir
        } else if c == 3 {
            FileType::CharDevice
        } else if c == 4 {
            FileType::BlockDevice
        } else if c == 5 {
            FileType::Fifo
        } else if c == 6 {
            FileType::Socket
        } else if c == 7 {
            FileType::SymLink
        } else {
            FileType::Unknown
        }
    }

    /// The type bits of `mode` that belong to this type.
    pub fn mode_bits(self) -> (m: u16)
        ensures
            m == self.spec_mode_bits(),
    {
        match self {
            FileType::Unknown => 0,
            FileType::File => 0x8000,
            FileType::Dir => 0x4000,
            FileType::CharDevice => 0x2000,
            FileType::BlockDevice => 0x6000,
            FileType::Fifo => 0x1000,
            FileType::Socket => 0xc000,
            FileType::SymLink => 0xa000,
        }
    }
}

/// The 16-bit field at `off` of a record.
#[verifier::opaque]
pub open spec fn half_at(rec: Seq<u8>, off: int) -> u16 {
    le16(rec, off) as u16
}

/// The 32-bit field at `off` of a record.
#[verifier::opaque]
pub open spec fn word_at(rec: Seq<u8>, off: int) -> u32 {
    le32(rec, off) as u32
}

/// The type bits of a mode: the mode without its low twelve bits.
pub open spec fn type_bits(mode: int) -> int {
    mode / 4096 * 4096
}

/// The pointers `block` with pointer `slot` replaced by `x`.
pub open spec fn with_pointer(block: [u32; 15], slot: int, x: u32) -> [u32; 15] {
    [
        if slot == 0 {
            x
        } else {
            block[0]
        },
        if slot == 1 {
            x
        } else {
            block[1]
        },
        if slot == 2 {
            x
        } else {
            block[2]
        },
        if slot == 3 {
            x
        } else {
            block[3]
        },
        if slot == 4 {
            x
        } else {
            block[4]
        },
        if slot == 5 {
            x
        } else {
            block[5]
        },
        if slot == 6 {
            x
        } else {
            block[6]
        },
        if slot == 7 {
            x
        } else {
            block[7]
        },
        if slot == 8 {
            x
        } else {
            block[8]
        },
        if slot == 9 {
            x
        } else {
            block[9]
        },
        if slot == 10 {
            x
        } else {
            block[10]
        },
        if slot == 11 {
            x
        } else {
            block[11]
        },
        if slot == 12 {
            x
        } else {
            block[12]
        },
        if slot == 13 {
            x
        } else {
            block[13]
        },
        if slot == 14 {
            x
        } else {
            block[14]
        },
    ]
}

impl Inode {
    /// The 128 bytes that hold this inode on disk: the record that decodes to
    /// it.
    pub open spec fn spec_encode(self) -> Seq<u8> {
        choose|rec: Seq<u8>| rec.len() == 128 && Inode::spec_decode(rec) == self
    }

    /// The inode that the 128-byte record `rec` holds.
    pub open spec fn spec_decode(rec: Seq<u8>) -> Inode {
        Inode {
            mode: half_at(rec, 0),
            uid: half_at(rec, 2),
            size: word_at(rec, 4),
            atime: word_at(rec, 8),
            ctime: word_at(rec, 12),
            mtime: word_at(rec, 16),
            dtime: word_at(rec, 20),
            gid: half_at(rec, 24),
            links_count: half_at(rec, 26),
            blocks: word_at(rec, 28),
            flags: word_at(rec, 32),
            osd1: word_at(rec, 36),
            block: [
                word_at(rec, 40),
                word_at(rec, 44),
                word_at(rec, 48),
                word_at(rec, 52),
                word_at(rec, 56),
                word_at(rec, 60),
                word_at(rec, 64),
                word_at(rec, 68),
                word_at(rec, 72),
                word_at(rec, 76),
                word_at(rec, 80),
                word_at(rec, 84),
                word_at(rec, 88),
                word_at(rec, 92),
                word_at(rec, 96),
            ],
            generation: word_at(rec, 100),
            file_acl: word_at(rec, 104),
            dir_acl: word_at(rec, 108),
            faddr: word_at(rec, 112),
            osd2: [
                word_at(rec, 116),
                word_at(rec, 120),
                word_at(rec, 124),
            ],
        }
    }

    /// The type bits of the mode.
    pub open spec fn spec_type_bits(self) -> int {
        type_bits(self.mode as int)
    }

    /// Whether the mode says directory.
    pub open spec fn spec_is_dir(self) -> bool {
        self.spec_type_bits() == 0x4000
    }

    /// Whether the mode says regular file.
    pub open spec fn spec_is_file(self) -> bool {
        self.spec_type_bits() == 0x8000
    }

    /// Whether the mode says symbolic link.
    pub open spec fn spec_is_symlink(self) -> bool {
        self.spec_type_bits() == 0xa000
    }

    /// The type that the mode says.
    pub open spec fn spec_file_type(self) -> FileType {
        let t = self.spec_type_bits();
        if t == 0x8000 {
            FileType::File
        } else if t == 0x4000 {
            FileType::Dir
        } else if t == 0x2000 {
            FileType::CharDevice
        } else if t == 0x6000 {
            FileType::BlockDevice
        } else if t == 0x1000 {
            FileType::Fifo
        } else if t == 0xc000 {
            FileType::Socket
        } else if t == 0xa000 {
            FileType::SymLink
        } else {
            FileType::Unknown
        }
    }

    /// An inode of the given mode with one link, no data and all times zero.
    pub open spec fn spec_fresh(mode: u16) -> Inode {
        Inode {
            mode,
            uid: 0,
            size: 0,
            atime: 0,
            ctime: 0,
            mtime: 0,
            dtime: 0,
            gid: 0,
            links_count: 1,
            blocks: 0,
            flags: 0,
            osd1: 0,
            block: [
                0u32,
                0u32,
                0u32,
                0u32,
                0u32,
                0u32,
                0u32,
                0u32,
                0u32,
                0u32,
                0u32,
                0u32,
                0u32,
                0u32,
                0u32,
            ],
            generation: 0,
            file_acl: 0,
            dir_acl: 0,
            faddr: 0,
            osd2: [0u32, 0u32, 0u32],
        }
    }

    /// An inode of the given mode with one link, no data and all times zero.
    pub fn fresh(mode: u16) -> (ino: Inode)
        ensures
            ino == Self::spec_fresh(mode),
    {
        let ino = Inode {
            mode,
            uid: 0,
            size: 0,
            atime: 0,
            ctime: 0,
            mtime: 0,
            dtime: 0,
            gid: 0,
            links_count: 1,
            blocks: 0,
            flags: 0,
            osd1: 0,
            block: [
                0u32,
                0u32,
                0u32,
                0u32,
                0u32,
                0u32,
                0u32,
                0u32,
                0u32,
                0u32,
                0u32,
                0u32,
                0u32,
                0u32,
                0u32,
            ],
            generation: 0,
            file_acl: 0,
            dir_acl: 0,
            faddr: 0,
            osd2: [0u32, 0u32, 0u32],
        };
        assert(ino.block =~= Self::spec_fresh(mode).block);
        assert(ino.osd2 =~= Self::spec_fresh(mode).osd2);
        ino
    }

    /// Whether two inodes are the same in every field.
    pub fn same_as(&self, other: &Inode) -> (same: bool)
        ensures
            same == (*self == *other),
    {
        let mut i: usize = 0;
        while i < 15
            invariant
                i <= 15,
                forall|j: int| 0 <= j < i ==> self.block@[j] == other.block@[j],
            decreases 15 - i,
        {
            if self.block[i] != other.block[i] {
                return false;
            }
            i = i + 1;
        }
        assert(self.block =~= other.block);
        if self.osd2[0] != other.osd2[0] || self.osd2[1] != other.osd2[1] || self.osd2[2]
            != other.osd2[2] {
            return false;
        }
        assert(self.osd2 =~= other.osd2);
        self.mode == other.mode && self.uid == other.uid && self.size == other.size && self.atime
            == other.atime && self.ctime == other.ctime && self.mtime == other.mtime && self.dtime
            == other.dtime && self.gid == other.gid && self.links_count == other.links_count
            && self.blocks == other.blocks && self.flags == other.flags && self.osd1 == other.osd1
            && self.generation == other.generation && self.file_acl == other.file_acl
            && self.dir_acl == other.dir_acl && self.faddr == other.faddr
    }

    /// A record of zeros: the record of an inode that has been deleted.
    pub fn vacant() -> (ino: Inode)
        ensures
            ino == (Inode { links_count: 0, ..Self::spec_fresh(0) }),
    {
        let mut ino = Self::fresh(0);
        ino.links_count = 0;
        ino
    }

    /// The type bits of the mode.
    pub fn type_bits(&self) -> (t: u16)
        ensures
            t == self.spec_type_bits(),
    {
        self.mode / 4096 * 4096
    }

    /// Whether the mode says directory.
    pub fn is_dir(&self) -> (b: bool)
        ensures
            b == self.spec_is_dir(),
    {
        self.type_bits() == MODE_DIR
    }

    /// Whether the mode says regular file.
    pub fn is_file(&self) -> (b: bool)
        ensures
            b == self.spec_is_file(),
    {
        self.type_bits() == MODE_FILE
    }

    /// Whether the mode says symbolic link.
    pub fn is_symlink(&self) -> (b: bool)
        ensures
            b == self.spec_is_symlink(),
    {
        self.type_bits() == MODE_SYMLINK
    }

    /// The type that the mode says.
    pub fn file_type(&self) -> (t: FileType)
        ensures
            t == self.spec_file_type(),
    {
        let t = self.type_bits();
        if t == 0x8000 {
            FileType::File
        } else if t == 0x4000 {
            FileType::Dir
        } else if t == 0x2000 {
            FileType::CharDevice
        } else if t == 0x6000 {
            FileType::BlockDevice
        } else if t == 0x1000 {
            FileType::Fifo
        } else if t == 0xc000 {
            FileType::Socket
        } else if t == 0xa000 {
            FileType::SymLink
        } else {
            FileType::Unknown
        }
    }

    /// Reads the inode whose record starts at `off`.
    pub fn decode(buf: &[u8], off: usize) -> (ino: Inode)
        requires
            off + 128 <= buf@.len(),
        ensures
            ino == Self::spec_decode(buf@.subrange(off as int, off + 128)),
    {
        let rec = copy_range(buf, off, 128);
        Self::from_record(rec.as_slice())
    }

    fn from_record(rec: &[u8]) -> (ino: Inode)
        requires
            rec@.len() == 128,
        ensures
            ino == Self::spec_decode(rec@),
    {
        let mut block: [u32; 15] = [0u32; 15];
        let mut i: usize = 0;
        while i < 15
            invariant
                i <= 15,
                rec@.len() == 128,
                forall|j: int| 0 <= j < i ==> block@[j] == le32(rec@, 40 + 4 * j),
            decreases 15 - i,
        {
            block[i] = read_u32(rec, 40 + 4 * i);
            i = i + 1;
        }
        let ino = Inode {
            mode: read_u16(rec, 0),
            uid: read_u16(rec, 2),
            size: read_u32(rec, 4),
            atime: read_u32(rec, 8),
            ctime: read_u32(rec, 12),
            mtime: read_u32(rec, 16),
            dtime: read_u32(rec, 20),
            gid: read_u16(rec, 24),
            links_count: read_u16(rec, 26),
            blocks: read_u32(rec, 28),
            flags: read_u32(rec, 32),
            osd1: read_u32(rec, 36),
            block,
            generation: read_u32(rec, 100),
            file_acl: read_u32(rec, 104),
            dir_acl: read_u32(rec, 108),
            faddr: read_u32(rec, 112),
            osd2: [read_u32(rec, 116), read_u32(rec, 120), read_u32(rec, 124)],
        };
        proof {
            reveal(half_at);
            reveal(word_at);
            let want = Self::spec_decode(rec@);
            assert(ino.block =~= want.block);
            assert(ino.osd2 =~= want.osd2);
        }
        ino
    }

    /// The 128 bytes of this inode on disk.
    pub fn encode(&self) -> (out: Vec<u8>)
        ensures
            out@.len() == 128,
            Self::spec_decode(out@) == *self,
            out@ == self.spec_encode(),
    {
        let mut out = zeroed(128);
        write_u16(&mut out, 0, self.mode);
        write_u16(&mut out, 2, self.uid);
        write_u32(&mut out, 4, self.size);
        write_u32(&mut out, 8, self.atime);
        write_u32(&mut out, 12, self.ctime);
        write_u32(&mut out, 16, self.mtime);
        write_u32(&mut out, 20, self.dtime);
        write_u16(&mut out, 24, self.gid);
        write_u16(&mut out, 26, self.links_count);
        write_u32(&mut out, 28, self.blocks);
        write_u32(&mut out, 32, self.flags);
        write_u32(&mut out, 36, self.osd1);
        let ghost head = out@;
        let mut i: usize = 0;
        while i < 15
            invariant
                i <= 15,
                out@.len() == 128,
                forall|j: int| 0 <= j < 40 ==> out@[j] == head[j],
                forall|j: int| 0 <= j < i ==> le32(out@, 40 + 4 * j) == self.block@[j],
            decreases 15 - i,
        {
            write_u32(&mut out, 40 + 4 * i, self.block[i]);
            i = i + 1;
        }
        let ghost mid = out@;
        write_u32(&mut out, 100, self.generation);
        write_u32(&mut out, 104, self.file_acl);
        write_u32(&mut out, 108, self.dir_acl);
        write_u32(&mut out, 112, self.faddr);
        write_u32(&mut out, 116, self.osd2[0]);
        write_u32(&mut out, 120, self.osd2[1]);
        write_u32(&mut out, 124, self.osd2[2]);
        proof {
            reveal(half_at);
            reveal(word_at);
            let got = Self::spec_decode(out@);
            assert forall|j: int| 0 <= j < 15 implies got.block@[j] == self.block@[j] by {
                assert(le32(out@, 40 + 4 * j) == le32(mid, 40 + 4 * j));
            }
            assert(got.block =~= self.block);
            assert(got.osd2 =~= self.osd2);
        }
        proof {
            lemma_inode_fixes_bytes(out@, self.spec_encode());
        }
        out
    }
}

/// Two 16-bit fields that are equal are the same two bytes.
proof fn lemma_half_fixes_bytes(r1: Seq<u8>, r2: Seq<u8>, off: int)
    requires
        half_at(r1, off) == half_at(r2, off),
    ensures
        r1[off] == r2[off],
        r1[off + 1] == r2[off + 1],
{
    reveal(half_at);
    lemma_le16_unique(r1, off, r2, off);
}

/// Two 32-bit fields that are equal are the same four bytes.
proof fn lemma_word_fixes_bytes(r1: Seq<u8>, r2: Seq<u8>, off: int)
    requires
        word_at(r1, off) == word_at(r2, off),
    ensures
        r1[off] == r2[off],
        r1[off + 1] == r2[off + 1],
        r1[off + 2] == r2[off + 2],
        r1[off + 3] == r2[off + 3],
{
    reveal(word_at);
    lemma_le32_unique(r1, off, r2, off);
}

/// Two records that hold the same inode are the same 128 bytes.
pub proof fn lemma_inode_fixes_bytes(r1: Seq<u8>, r2: Seq<u8>)
    requires
        r1.len() == 128,
        r2.len() == 128,
        Inode::spec_decode(r1) == Inode::spec_decode(r2),
    ensures
        r1 == r2,
{
    let a = Inode::spec_decode(r1);
    let b = Inode::spec_decode(r2);
    assert(a.mode == b.mode && a.uid == b.uid && a.gid == b.gid && a.links_count == b.links_count);
    lemma_half_fixes_bytes(r1, r2, 0);
    lemma_half_fixes_bytes(r1, r2, 2);
    lemma_word_fixes_bytes(r1, r2, 4);
    lemma_word_fixes_bytes(r1, r2, 8);
    lemma_word_fixes_bytes(r1, r2, 12);
    lemma_word_fixes_bytes(r1, r2, 16);
    lemma_word_fixes_bytes(r1, r2, 20);
    lemma_half_fixes_bytes(r1, r2, 24);
    lemma_half_fixes_bytes(r1, r2, 26);
    lemma_word_fixes_bytes(r1, r2, 28);
    lemma_word_fixes_bytes(r1, r2, 32);
    lemma_word_fixes_bytes(r1, r2, 36);
    assert(a.block@[0] == b.block@[0]);
    lemma_word_fixes_bytes(r1, r2, 40);
    assert(a.block@[1] == b.block@[1]);
    lemma_word_fixes_bytes(r1, r2, 44);
    assert(a.block@[2] == b.block@[2]);
    lemma_word_fixes_bytes(r1, r2, 48);
    assert(a.block@[3] == b.block@[3]);
    lemma_word_fixes_bytes(r1, r2, 52);
    assert(a.block@[4] == b.block@[4]);
    lemma_word_fixes_bytes(r1, r2, 56);
    assert(a.block@[5] == b.block@[5]);
    lemma_word_fixes_bytes(r1, r2, 60);
    assert(a.block@[6] == b.block@[6]);
    lemma_word_fixes_bytes(r1, r2, 64);
    assert(a.block@[7] == b.block@[7]);
    lemma_word_fixes_bytes(r1, r2, 68);
    assert(a.block@[8] == b.block@[8]);
    lemma_word_fixes_bytes(r1, r2, 72);
    assert(a.block@[9] == b.block@[9]);
    lemma_word_fixes_bytes(r1, r2, 76);
    assert(a.block@[10] == b.block@[10]);
    lemma_word_fixes_bytes(r1, r2, 80);
    assert(a.block@[11] == b.block@[11]);
    lemma_word_fixes_bytes(r1, r2, 84);
    assert(a.block@[12] == b.block@[12]);
    lemma_word_fixes_bytes(r1, r2, 88);
    assert(a.block@[13] == b.block@[13]);
    lemma_word_fixes_bytes(r1, r2, 92);
    assert(a.block@[14] == b.block@[14]);
    lemma_word_fixes_bytes(r1, r2, 96);
    lemma_word_fixes_bytes(r1, r2, 100);
    lemma_word_fixes_bytes(r1, r2, 104);
    lemma_word_fixes_bytes(r1, r2, 108);
    lemma_word_fixes_bytes(r1, r2, 112);
    assert(a.osd2@[0] == b.osd2@[0]);
    lemma_word_fixes_bytes(r1, r2, 116);
    assert(a.osd2@[1] == b.osd2@[1]);
    lemma_word_fixes_bytes(r1, r2, 120);
    assert(a.osd2@[2] == b.osd2@[2]);
    lemma_word_fixes_bytes(r1, r2, 124);
    assert(r1 =~= r2);
}

} // verus!
