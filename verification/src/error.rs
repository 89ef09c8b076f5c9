//! The ways an operation on a volume can fail.

use vstd::prelude::*;

verus! {

/// Why an operation did not complete.
#[derive(Clone, Copy, Debug, PartialEq, Eq, Structural)]
pub enum Ext2Error {
    /// The superblock's magic is wrong, or its geometry contradicts itself.
    InvalidSuperblock,
    /// A table, a bitmap or a pointer does not fit the superblock's geometry.
    CorruptLayout,
    /// No such inode, or no entry of that name.
    NotFound,
    /// A path went through something that is not a directory.
    NotADirectory,
    /// A file operation was asked of a directory.
    IsADirectory,
    /// No free block or inode is left.
    OutOfSpace,
    /// A directory block has no room for one more entry.
    NoSpace,
    /// A chain of symbolic links went deeper than the limit.
    TooManySymlinks,
    /// The device refused a read or a write.
    IoError,
}

/// Takes the result of a step that cannot fail.
pub(crate) fn sure<T>(r: Result<T, Ext2Error>)
    requires
        r is Ok,
{
}

} // verus!
