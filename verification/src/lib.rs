//! An ext2 volume held in memory, with every operation verified against a
//! mathematical model of the volume.
//!
//! The layout is decoded and encoded by [`superblock`], [`block_group`],
//! [`inode`] and [`dir`], over the byte helpers of [`bytes`] and [`bitmap`].
//! A mounted volume is an [`fs::Ext2FileSystem`] on a [`disk::Disk`]; what
//! its contracts speak of is the [`volume::Volume`]. On it work the inode
//! table ([`inode_table`]), the allocator ([`allocator`]), the block address
//! resolver ([`resolver`]), file contents ([`file`]), directories ([`namei`])
//! and paths ([`path`]).

pub mod allocator;
pub mod bitmap;
pub mod block_group;
pub mod bytes;
pub mod dir;
pub mod disk;
pub mod error;
pub mod file;
pub mod fs;
pub mod inode;
pub mod inode_table;
pub mod namei;
pub mod path;
pub mod resolver;
pub mod superblock;
pub mod volume;
