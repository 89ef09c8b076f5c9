[package]
name = "axfs_ext2"
version = "0.1.0"
edition = "2021"
publish = false

[dependencies]
axfs_vfs = "*"
axfs_devfs = "*"
axfs_ramfs = "*"
cfg-if = "1.0"
