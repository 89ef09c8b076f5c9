use axfs_ext2::block_group::BlockGroupDescriptor;
use axfs_ext2::dir::{empty_block, insert};
use axfs_ext2::disk::Disk;
use axfs_ext2::error::Ext2Error;
use axfs_ext2::fs::{Ext2FileSystem, ROOT_INODE};
use axfs_ext2::inode::{FileType, Inode};
use axfs_ext2::superblock::Superblock;

const BS: usize = 1024;
const BLOCKS_PER_GROUP: u32 = 256;
const INODES_PER_GROUP: u32 = 32;

/// A volume of 1024-byte blocks with `groups` groups of 256 blocks and 32
/// inodes each, holding a root directory and nothing else.
///
/// Block 1 is the superblock, block 2 the table of descriptors. Group `g`
/// begins at block `1 + 256 * g`; group 0 keeps its bitmaps in blocks 3 and 4
/// and its inode table in blocks 5 to 8, the later groups keep them in their
/// first six blocks. Block 9 is the root directory.
fn image(groups: u32) -> Vec<u8> {
    let blocks = BLOCKS_PER_GROUP * groups;
    let mut img = vec![0u8; blocks as usize * BS];

    let mut free_blocks = 0u32;
    let mut free_inodes = 0u32;
    for g in 0..groups {
        let first = 1 + BLOCKS_PER_GROUP * g;
        let (bitmap, used) = if g == 0 { (3, 9) } else { (first, 6) };
        let real = (blocks - first).min(BLOCKS_PER_GROUP);
        let d = BlockGroupDescriptor {
            block_bitmap: bitmap,
            inode_bitmap: bitmap + 1,
            inode_table: bitmap + 2,
            free_blocks_count: (real - used) as u16,
            free_inodes_count: if g == 0 { 22 } else { 32 },
            used_dirs_count: if g == 0 { 1 } else { 0 },
            pad: 0,
            reserved: [0; 3],
        };
        free_blocks += real - used;
        free_inodes += d.free_inodes_count as u32;
        let at = 2 * BS + 32 * g as usize;
        img[at..at + 32].copy_from_slice(&d.encode());
        for k in 0..used as usize {
            img[bitmap as usize * BS + k / 8] |= 1 << (k % 8);
        }
        if g == 0 {
            for k in 0..10usize {
                img[(bitmap as usize + 1) * BS + k / 8] |= 1 << (k % 8);
            }
        }
    }

    let mut zero = vec![0u8; 1024];
    let mut sb = Superblock::new_from_buf(&mut zero);
    sb.magic = Superblock::MAGIC;
    sb.inodes_count = INODES_PER_GROUP * groups;
    sb.blocks_count = blocks;
    sb.free_blocks_count = free_blocks;
    sb.free_inodes_count = free_inodes;
    sb.first_data_block = 1;
    sb.log_block_size = 0;
    sb.blocks_per_group = BLOCKS_PER_GROUP;
    sb.frags_per_group = BLOCKS_PER_GROUP;
    sb.inodes_per_group = INODES_PER_GROUP;
    sb.first_inode = 11;
    sb.inode_size = 128;
    img[1024..2048].copy_from_slice(&sb.encode());

    let mut root = Inode::fresh(0x41ed);
    root.links_count = 2;
    root.size = BS as u32;
    root.blocks = 2;
    root.block[0] = 9;
    img[5 * BS + 128..5 * BS + 256].copy_from_slice(&root.encode());

    let mut dir = empty_block(BS);
    insert(&mut dir, b".", 2, 2).unwrap();
    insert(&mut dir, b"..", 2, 2).unwrap();
    img[9 * BS..10 * BS].copy_from_slice(&dir);
    img
}

fn mounted(groups: u32) -> Ext2FileSystem {
    Ext2FileSystem::mount(Disk::new(image(groups))).unwrap()
}

fn names(fs: &Ext2FileSystem, dir: u32) -> Vec<String> {
    fs.readdir(dir)
        .unwrap()
        .into_iter()
        .map(|e| String::from_utf8(e.name).unwrap())
        .collect()
}

fn failure<T>(r: Result<T, Ext2Error>) -> Ext2Error {
    match r {
        Ok(_) => panic!("no failure"),
        Err(e) => e,
    }
}

#[test]
fn a_sound_volume_mounts() {
    let fs = mounted(2);
    assert_eq!(fs.superblock.magic, 0xef53);
    assert_eq!(fs.superblock.blocks_count, 512);
    assert_eq!(fs.groups.len(), 2);
    assert_eq!(fs.groups[0].inode_table, 5);
    assert_eq!(fs.groups[1].block_bitmap, 257);
    assert_eq!(fs.block_size(), 1024);
    assert!(Ext2FileSystem::new(Disk::new(image(1))).is_some());
}

#[test]
fn mounting_writes_nothing() {
    let img = image(2);
    let fs = Ext2FileSystem::mount(Disk::new(img.clone())).unwrap();
    assert_eq!(fs.into_disk().into_bytes(), img);
}

#[test]
fn a_wrong_magic_is_an_invalid_superblock() {
    let mut img = image(1);
    img[1024 + 0x38] = 0;
    let mounted = Ext2FileSystem::mount(Disk::new(img.clone()));
    assert_eq!(failure(mounted), Ext2Error::InvalidSuperblock);
    assert!(Ext2FileSystem::new(Disk::new(img.clone())).is_none());
    let mut disk = Disk::new(img.clone());
    assert_eq!(failure(Ext2FileSystem::read_superblock(&mut disk)), Ext2Error::InvalidSuperblock);
    assert_eq!(disk.into_bytes(), img);
}

#[test]
fn a_record_of_zeros_is_an_invalid_superblock() {
    let disk = Disk::new(vec![0u8; 2048]);
    assert_eq!(failure(Ext2FileSystem::mount(disk)), Ext2Error::InvalidSuperblock);
}

#[test]
fn a_short_device_is_a_device_error() {
    assert_eq!(failure(Ext2FileSystem::mount(Disk::new(vec![0u8; 2047]))), Ext2Error::IoError);
    assert_eq!(failure(Ext2FileSystem::mount(Disk::new(Vec::new()))), Ext2Error::IoError);
    let mut disk = Disk::new(vec![0u8; 1024]);
    assert_eq!(failure(Ext2FileSystem::read_superblock(&mut disk)), Ext2Error::IoError);
}

#[test]
fn the_superblock_is_read_without_touching_the_device() {
    let img = image(1);
    let mut disk = Disk::new(img.clone());
    let sb = Ext2FileSystem::read_superblock(&mut disk).unwrap();
    assert_eq!(sb.blocks_count, 256);
    assert_eq!(sb.encode(), &img[1024..2048]);
    assert_eq!(disk.into_bytes(), img);
}

#[test]
fn a_contradicting_geometry_is_an_invalid_superblock() {
    let mut img = image(2);
    // 65 inodes would take three groups of 32.
    img[1024] = 65;
    assert_eq!(failure(Ext2FileSystem::mount(Disk::new(img))), Ext2Error::InvalidSuperblock);
}

#[test]
fn tables_outside_the_volume_are_a_corrupt_layout() {
    let mut img = image(2);
    // The inode table of group 1 would end past the last block.
    img[2 * BS + 32 + 8..2 * BS + 32 + 12].copy_from_slice(&510u32.to_le_bytes());
    assert_eq!(failure(Ext2FileSystem::mount(Disk::new(img))), Ext2Error::CorruptLayout);

    let mut img = image(1);
    img[2 * BS..2 * BS + 4].copy_from_slice(&256u32.to_le_bytes());
    assert_eq!(failure(Ext2FileSystem::mount(Disk::new(img))), Ext2Error::CorruptLayout);
}

#[test]
fn a_device_shorter_than_the_volume_is_a_corrupt_layout() {
    let mut img = image(1);
    img.truncate(255 * BS);
    assert_eq!(failure(Ext2FileSystem::mount(Disk::new(img))), Ext2Error::CorruptLayout);
}

#[test]
fn a_volume_without_root_is_a_corrupt_layout() {
    let mut img = image(1);
    // Inode 2 is a regular file.
    img[5 * BS + 128 + 1] = 0x81;
    assert_eq!(failure(Ext2FileSystem::mount(Disk::new(img))), Ext2Error::CorruptLayout);
    let mut img = image(1);
    // Inode 2 is not in use.
    img[4 * BS] &= !2;
    assert_eq!(failure(Ext2FileSystem::mount(Disk::new(img))), Ext2Error::CorruptLayout);
}

#[test]
fn inodes_are_located_by_group_and_offset() {
    let fs = mounted(2);
    assert_eq!(fs.locate(1).unwrap(), (0, 0));
    assert_eq!(fs.locate(2).unwrap(), (0, 128));
    assert_eq!(fs.locate(32).unwrap(), (0, 31 * 128));
    assert_eq!(fs.locate(33).unwrap(), (1, 0));
    assert_eq!(fs.locate(64).unwrap(), (1, 31 * 128));
    assert_eq!(failure(fs.locate(0)), Ext2Error::NotFound);
    assert_eq!(failure(fs.locate(65)), Ext2Error::NotFound);
    assert_eq!(fs.inode_offset(2), 5 * BS + 128);
    assert_eq!(fs.inode_offset(33), 259 * BS);
}

#[test]
fn inodes_are_read_where_in_use() {
    let fs = mounted(2);
    let root = fs.read_inode(2).unwrap();
    assert!(root.is_dir());
    assert_eq!(root.size, 1024);
    assert_eq!(root.block[0], 9);
    assert_eq!(failure(fs.read_inode(0)), Ext2Error::NotFound);
    assert_eq!(failure(fs.read_inode(65)), Ext2Error::NotFound);
    assert_eq!(failure(fs.read_inode(11)), Ext2Error::NotFound);
    assert!(fs.inode_in_use(10));
    assert!(!fs.inode_in_use(11));
}

#[test]
fn a_written_inode_is_read_back() {
    let mut fs = mounted(1);
    let mut ino = fs.read_inode(5).unwrap();
    ino.mode = 0x81a4;
    ino.size = 77;
    let before = fs.read_inode(6).unwrap();
    fs.write_inode(5, &ino).unwrap();
    assert!(fs.read_inode(5).unwrap().same_as(&ino));
    assert!(fs.read_inode(6).unwrap().same_as(&before));
    assert_eq!(failure(fs.write_inode(0, &ino)), Ext2Error::NotFound);
    assert_eq!(failure(fs.write_inode(33, &ino)), Ext2Error::NotFound);
}

#[test]
fn the_root_is_inode_2() {
    let mut fs = mounted(1);
    assert_eq!(fs.root, None);
    assert_eq!(fs.root_dir().unwrap(), 2);
    assert_eq!(fs.root, Some(ROOT_INODE));
    assert_eq!(fs.root_dir().unwrap(), 2);
    fs.init();
    assert_eq!(fs.root, Some(2));
    assert_eq!(fs.resolve_path(b"/").unwrap(), 2);
    assert_eq!(fs.resolve_path(b"").unwrap(), 2);
    assert_eq!(fs.resolve_path(b"//").unwrap(), 2);
    assert_eq!(fs.resolve_path(b"/.").unwrap(), 2);
    assert_eq!(fs.resolve_path(b"/..").unwrap(), 2);
    assert_eq!(fs.resolve_components(Vec::new()).unwrap(), 2);
}

#[test]
fn a_missing_component_is_not_found() {
    let mut fs = mounted(1);
    assert_eq!(failure(fs.resolve_path(b"/nothing")), Ext2Error::NotFound);
    assert_eq!(failure(fs.resolve_path(b"/nothing/here")), Ext2Error::NotFound);
    let dir = fs.create(2, b"etc", FileType::Dir).unwrap();
    assert_eq!(fs.resolve_path(b"/etc").unwrap(), dir);
    assert_eq!(failure(fs.resolve_path(b"/etc/passwd")), Ext2Error::NotFound);
    assert_eq!(failure(fs.resolve_path(b"/Etc")), Ext2Error::NotFound);
}

#[test]
fn blocks_are_taken_lowest_first() {
    let mut fs = mounted(2);
    let free = fs.superblock.free_blocks_count;
    let a = fs.allocate_block(0).unwrap();
    assert_eq!(a, 10);
    assert_eq!(fs.superblock.free_blocks_count, free - 1);
    assert_eq!(fs.groups[0].free_blocks_count, 246);
    assert_eq!(fs.dev.byte(3 * BS + 1) & 0b10, 0b10);
    let b = fs.allocate_block(0).unwrap();
    assert_eq!(b, 11);
    let c = fs.allocate_block(1).unwrap();
    assert_eq!(c, 263);
    assert_eq!(fs.groups[1].free_blocks_count, 248);
    // A preferred group past the last one is closest to the last one.
    assert_eq!(fs.allocate_block(7).unwrap(), 264);
}

#[test]
fn a_taken_block_was_free_and_is_in_use() {
    let mut fs = mounted(1);
    for _ in 0..20 {
        let before = fs.read_block(3);
        let b = fs.allocate_block(0).unwrap();
        let k = (b - 1) as usize;
        assert_eq!(before[k / 8] >> (k % 8) & 1, 0);
        let after = fs.read_block(3);
        assert_eq!(after[k / 8] >> (k % 8) & 1, 1);
    }
}

#[test]
fn a_released_block_is_taken_again() {
    let mut fs = mounted(1);
    let a = fs.allocate_block(0).unwrap();
    let b = fs.allocate_block(0).unwrap();
    let free = fs.superblock.free_blocks_count;
    fs.free_block(a).unwrap();
    assert_eq!(fs.superblock.free_blocks_count, free + 1);
    // Releasing it once more changes nothing.
    fs.free_block(a).unwrap();
    assert_eq!(fs.superblock.free_blocks_count, free + 1);
    assert_eq!(fs.allocate_block(0).unwrap(), a);
    assert_eq!(fs.allocate_block(0).unwrap(), b + 1);
    assert_eq!(failure(fs.free_block(0)), Ext2Error::CorruptLayout);
    assert_eq!(failure(fs.free_block(1)), Ext2Error::CorruptLayout);
    assert_eq!(failure(fs.free_block(256)), Ext2Error::CorruptLayout);
}

#[test]
fn the_closest_group_with_room_is_chosen() {
    let mut fs = mounted(2);
    assert_eq!(fs.closest_group(0, false), Some(0));
    assert_eq!(fs.closest_group(1, false), Some(1));
    assert_eq!(fs.closest_group(1, true), Some(1));
    fs.groups[1].free_blocks_count = 0;
    assert_eq!(fs.closest_group(1, false), Some(0));
    fs.groups[0].free_blocks_count = 0;
    assert_eq!(fs.closest_group(1, false), None);
    assert_eq!(failure(fs.allocate_block(1)), Ext2Error::OutOfSpace);
}

#[test]
fn counts_that_contradict_the_bitmap_are_a_corrupt_layout() {
    let mut fs = mounted(1);
    for i in 0..32 {
        fs.dev.set_byte(3 * BS + i, 0xff);
    }
    let before = fs.superblock;
    assert_eq!(failure(fs.allocate_block(0)), Ext2Error::CorruptLayout);
    assert_eq!(fs.superblock.free_blocks_count, before.free_blocks_count);
    let mut fs = mounted(1);
    fs.superblock.free_inodes_count = 0;
    assert_eq!(failure(fs.allocate_inode(0, false)), Ext2Error::CorruptLayout);
}

#[test]
fn inodes_are_taken_lowest_first() {
    let mut fs = mounted(2);
    assert_eq!(fs.allocate_inode(0, false).unwrap(), 11);
    assert_eq!(fs.allocate_inode(0, true).unwrap(), 12);
    assert_eq!(fs.groups[0].used_dirs_count, 2);
    assert_eq!(fs.groups[0].free_inodes_count, 20);
    assert_eq!(fs.superblock.free_inodes_count, 52);
    assert_eq!(fs.allocate_inode(1, false).unwrap(), 33);
    assert!(fs.inode_in_use(11));
    assert!(fs.inode_in_use(33));
}

#[test]
fn a_released_inode_is_taken_again() {
    let mut fs = mounted(1);
    let a = fs.allocate_inode(0, false).unwrap();
    let b = fs.allocate_inode(0, false).unwrap();
    let c = fs.allocate_inode(0, false).unwrap();
    assert_eq!((a, b, c), (11, 12, 13));
    fs.free_inode(b).unwrap();
    assert!(!fs.inode_in_use(b));
    assert_eq!(fs.allocate_inode(0, false).unwrap(), b);
    fs.free_inode(a).unwrap();
    fs.free_inode(c).unwrap();
    fs.free_inode(c).unwrap();
    assert_eq!(fs.superblock.free_inodes_count, 21);
    assert_eq!(fs.allocate_inode(0, false).unwrap(), a);
    assert_eq!(fs.allocate_inode(0, false).unwrap(), c);
    assert_eq!(failure(fs.free_inode(0)), Ext2Error::NotFound);
    assert_eq!(failure(fs.free_inode(33)), Ext2Error::NotFound);
}

#[test]
fn inodes_run_out() {
    let mut fs = mounted(1);
    for n in 11..=32 {
        assert_eq!(fs.allocate_inode(0, false).unwrap(), n);
    }
    assert_eq!(failure(fs.allocate_inode(0, false)), Ext2Error::OutOfSpace);
    assert_eq!(failure(fs.create(2, b"late", FileType::File)), Ext2Error::OutOfSpace);
}

#[test]
fn several_blocks_are_taken_or_none() {
    let mut fs = mounted(1);
    let got = fs.allocate_many(0, 3).unwrap();
    assert_eq!(got, vec![10, 11, 12]);
    let free = fs.superblock.free_blocks_count;
    assert_eq!(free, 243);
    let img = fs.dev.load(0, 256 * BS);
    assert_eq!(failure(fs.allocate_many(0, 244)), Ext2Error::OutOfSpace);
    assert_eq!(fs.superblock.free_blocks_count, free);
    assert_eq!(fs.groups[0].free_blocks_count, 243);
    assert_eq!(fs.dev.load(0, 256 * BS), img);
    assert_eq!(fs.allocate_many(0, 243).unwrap().len(), 243);
    assert_eq!(fs.superblock.free_blocks_count, 0);
    assert_eq!(fs.allocate_many(0, 0).unwrap(), Vec::<u32>::new());
}

#[test]
fn written_bytes_are_read_back() {
    let mut fs = mounted(1);
    let n = fs.create(2, b"a.txt", FileType::File).unwrap();
    let data = vec![0x41u8; 5000];
    assert_eq!(fs.write_at(n, 0, &data).unwrap(), 5000);
    let mut buf = vec![0u8; 5000];
    assert_eq!(fs.read_at(n, 0, &mut buf).unwrap(), 5000);
    assert_eq!(buf, data);
    let ino = fs.read_inode(n).unwrap();
    assert_eq!(ino.size, 5000);
    assert_eq!(ino.blocks, 10);
    assert!(ino.is_file());
    for i in 0..5 {
        assert_ne!(ino.block[i], 0);
    }
    assert_eq!(ino.block[5], 0);
}

#[test]
fn a_file_reaches_through_the_pointer_blocks() {
    let mut fs = mounted(2);
    let n = fs.create(2, b"big", FileType::File).unwrap();
    let data: Vec<u8> = (0..20_000u32).map(|i| (i % 253) as u8).collect();
    assert_eq!(fs.write_at(n, 0, &data).unwrap(), 20_000);
    let mut buf = vec![0u8; 20_000];
    assert_eq!(fs.read_at(n, 0, &mut buf).unwrap(), 20_000);
    assert_eq!(buf, data);
    let ino = fs.read_inode(n).unwrap();
    assert_ne!(ino.block[12], 0);
    assert_eq!(ino.block[13], 0);
    // Twenty data blocks and one pointer block, two sectors each.
    assert_eq!(ino.blocks, 42);
    assert_eq!(fs.resolve(&ino, 12).unwrap(), Some(fs.block_word(ino.block[12], 0)));
    assert_eq!(fs.resolve(&ino, 19).unwrap(), Some(fs.block_word(ino.block[12], 7)));
    assert_eq!(fs.resolve(&ino, 20).unwrap(), None);

    // One block far out: through two and through three levels.
    let far = (12 + 256 + 3 * 256 + 5) as u64 * 1024;
    assert_eq!(fs.write_at(n, far + 10, b"far").unwrap(), 3);
    let further = (12 + 256 + 256 * 256 + 2 * 256 * 256 + 7 * 256 + 9) as u64 * 1024;
    assert_eq!(fs.write_at(n, further, b"further").unwrap(), 7);
    let ino = fs.read_inode(n).unwrap();
    assert_ne!(ino.block[13], 0);
    assert_ne!(ino.block[14], 0);
    assert_eq!(ino.size as u64, further + 7);
    let mut buf = vec![1u8; 16];
    assert_eq!(fs.read_at(n, far, &mut buf).unwrap(), 16);
    assert_eq!(&buf, b"\0\0\0\0\0\0\0\0\0\0far\0\0\0");
    let mut buf = vec![1u8; 16];
    assert_eq!(fs.read_at(n, further, &mut buf).unwrap(), 7);
    assert_eq!(&buf[..7], b"further");
    assert_eq!(&buf[7..], &[1u8; 9]);
    // A hole reads as zeros.
    let mut buf = vec![1u8; 100];
    assert_eq!(fs.read_at(n, 30_000, &mut buf).unwrap(), 100);
    assert_eq!(buf, vec![0u8; 100]);
    assert_eq!(fs.resolve(&ino, 29).unwrap(), None);
    // The first part is still there.
    let mut buf = vec![0u8; 20_000];
    assert_eq!(fs.read_at(n, 0, &mut buf).unwrap(), 20_000);
    assert_eq!(buf, data);
}

#[test]
fn the_tiers_of_a_file() {
    let fs = mounted(1);
    let t = fs.tier(0).unwrap();
    assert_eq!((t.level, t.slot, t.rel), (0, 0, 0));
    let t = fs.tier(11).unwrap();
    assert_eq!((t.level, t.slot, t.rel), (0, 11, 0));
    let t = fs.tier(12).unwrap();
    assert_eq!((t.level, t.slot, t.rel), (1, 12, 0));
    let t = fs.tier(267).unwrap();
    assert_eq!((t.level, t.slot, t.rel), (1, 12, 255));
    let t = fs.tier(268).unwrap();
    assert_eq!((t.level, t.slot, t.rel), (2, 13, 0));
    let t = fs.tier(12 + 256 + 65536 - 1).unwrap();
    assert_eq!((t.level, t.slot, t.rel), (2, 13, 65535));
    let t = fs.tier(12 + 256 + 65536).unwrap();
    assert_eq!((t.level, t.slot, t.rel), (3, 14, 0));
    let t = fs.tier(12 + 256 + 65536 + 16_777_216 - 1).unwrap();
    assert_eq!((t.level, t.slot, t.rel), (3, 14, 16_777_215));
    assert!(fs.tier(12 + 256 + 65536 + 16_777_216).is_none());
    assert_eq!(fs.span_of(0), 1);
    assert_eq!(fs.span_of(1), 256);
    assert_eq!(fs.span_of(2), 65536);
    assert_eq!(fs.span_of(3), 16_777_216);
    assert_eq!(fs.ptrs_per_block(), 256);
}

#[test]
fn reading_stops_at_the_end_of_the_file() {
    let mut fs = mounted(1);
    let n = fs.create(2, b"f", FileType::File).unwrap();
    fs.write_at(n, 0, b"0123456789").unwrap();
    let mut buf = vec![b'-'; 8];
    assert_eq!(fs.read_at(n, 6, &mut buf).unwrap(), 4);
    assert_eq!(&buf, b"6789----");
    assert_eq!(fs.read_at(n, 10, &mut buf).unwrap(), 0);
    assert_eq!(fs.read_at(n, 11, &mut buf).unwrap(), 0);
    assert_eq!(&buf, b"6789----");
    let mut none = Vec::new();
    assert_eq!(fs.read_at(n, 0, &mut none).unwrap(), 0);
    assert_eq!(fs.write_at(n, 3, b"").unwrap(), 0);
    assert_eq!(fs.write_at(n, 3, b"abc").unwrap(), 3);
    let mut buf = vec![0u8; 10];
    assert_eq!(fs.read_at(n, 0, &mut buf).unwrap(), 10);
    assert_eq!(&buf, b"012abc6789");
    assert_eq!(fs.read_inode(n).unwrap().size, 10);
}

#[test]
fn files_and_directories_are_told_apart() {
    let mut fs = mounted(1);
    let n = fs.create(2, b"f", FileType::File).unwrap();
    let mut buf = vec![0u8; 4];
    assert_eq!(failure(fs.read_at(2, 0, &mut buf)), Ext2Error::IsADirectory);
    assert_eq!(failure(fs.write_at(2, 0, b"x")), Ext2Error::IsADirectory);
    assert_eq!(failure(fs.read_at(20, 0, &mut buf)), Ext2Error::NotFound);
    assert_eq!(failure(fs.write_at(20, 0, b"x")), Ext2Error::NotFound);
    assert_eq!(failure(fs.lookup(n, b"x")), Ext2Error::NotADirectory);
    assert_eq!(failure(fs.readdir(n)), Ext2Error::NotADirectory);
    assert_eq!(failure(fs.create(n, b"x", FileType::File)), Ext2Error::NotADirectory);
    assert_eq!(failure(fs.unlink(n, b"x")), Ext2Error::NotADirectory);
    assert_eq!(failure(fs.resolve_path(b"/f/x")), Ext2Error::NotADirectory);
    assert_eq!(failure(fs.lookup(20, b"x")), Ext2Error::NotFound);
    assert_eq!(failure(fs.readdir(0)), Ext2Error::NotFound);
    assert_eq!(fs.resolve_path(b"/f").unwrap(), n);
    assert_eq!(fs.resolve_path(b"/f/").unwrap(), n);
}

#[test]
fn created_names_are_found_and_listed() {
    let mut fs = mounted(1);
    assert_eq!(names(&fs, 2), vec![".", ".."]);
    let a = fs.create(2, b"alpha", FileType::File).unwrap();
    let b = fs.create(2, b"beta", FileType::File).unwrap();
    assert_eq!((a, b), (11, 12));
    assert_eq!(fs.lookup(2, b"alpha").unwrap(), a);
    assert_eq!(fs.lookup(2, b"beta").unwrap(), b);
    assert_eq!(fs.lookup(2, b".").unwrap(), 2);
    assert_eq!(failure(fs.lookup(2, b"alph")), Ext2Error::NotFound);
    assert_eq!(failure(fs.lookup(2, b"alphaa")), Ext2Error::NotFound);
    assert_eq!(failure(fs.lookup(2, b"ALPHA")), Ext2Error::NotFound);
    assert_eq!(names(&fs, 2), vec![".", "..", "alpha", "beta"]);
    let list = fs.readdir(2).unwrap();
    assert_eq!(list[2].inode, a);
    assert_eq!(list[2].file_type, 1);
    assert_eq!(list.iter().map(|e| e.rec_len as usize).sum::<usize>(), 1024);
    // A name that is there already gives its inode and changes nothing.
    let free = fs.superblock.free_inodes_count;
    assert_eq!(fs.create(2, b"alpha", FileType::Dir).unwrap(), a);
    assert_eq!(fs.superblock.free_inodes_count, free);
    assert!(fs.read_inode(a).unwrap().is_file());
    assert_eq!(fs.read_inode(a).unwrap().mode, 0x81a4);
    assert_eq!(fs.read_inode(a).unwrap().links_count, 1);
}

#[test]
fn a_new_directory_has_dot_and_dotdot() {
    let mut fs = mounted(2);
    let d = fs.create(2, b"usr", FileType::Dir).unwrap();
    let ino = fs.read_inode(d).unwrap();
    assert!(ino.is_dir());
    assert_eq!(ino.mode, 0x41ed);
    assert_eq!(ino.links_count, 2);
    assert_eq!(ino.size, 1024);
    assert_eq!(ino.blocks, 2);
    assert_eq!(names(&fs, d), vec![".", ".."]);
    assert_eq!(fs.lookup(d, b".").unwrap(), d);
    assert_eq!(fs.lookup(d, b"..").unwrap(), 2);
    assert_eq!(fs.read_inode(2).unwrap().links_count, 3);
    assert_eq!(fs.groups[0].used_dirs_count, 2);
    let e = fs.create(d, b"local", FileType::Dir).unwrap();
    let f = fs.create(e, b"notes", FileType::File).unwrap();
    assert_eq!(fs.resolve_path(b"/usr/local/notes").unwrap(), f);
    assert_eq!(fs.resolve_path(b"usr//local/").unwrap(), e);
    assert_eq!(fs.resolve_path(b"/usr/local/../local/./notes").unwrap(), f);
    assert_eq!(fs.resolve_path(b"/usr/..").unwrap(), 2);
    assert_eq!(
        fs.resolve_components(vec![b"usr".to_vec(), b"local".to_vec()]).unwrap(),
        e
    );
}

#[test]
fn a_directory_grows_by_a_block() {
    let mut fs = mounted(2);
    let mut made = Vec::new();
    for i in 0..40 {
        let name = format!("a-rather-long-name-for-a-file-{:04}", i);
        made.push((name.clone(), fs.create(2, name.as_bytes(), FileType::File).unwrap()));
    }
    let root = fs.read_inode(2).unwrap();
    assert_eq!(root.size, 2048);
    assert_eq!(root.blocks, 4);
    assert_ne!(root.block[1], 0);
    for (name, n) in &made {
        assert_eq!(fs.lookup(2, name.as_bytes()).unwrap(), *n);
    }
    assert_eq!(fs.readdir(2).unwrap().len(), 42);
    assert_eq!(
        fs.readdir(2).unwrap().iter().map(|e| e.rec_len as usize).sum::<usize>(),
        2048
    );
}

#[test]
fn an_unlinked_name_is_gone() {
    let mut fs = mounted(1);
    let a = fs.create(2, b"alpha", FileType::File).unwrap();
    let b = fs.create(2, b"beta", FileType::File).unwrap();
    fs.write_at(a, 0, &vec![7u8; 20_000]).unwrap();
    let free_blocks = fs.superblock.free_blocks_count;
    let free_inodes = fs.superblock.free_inodes_count;
    fs.unlink(2, b"alpha").unwrap();
    assert_eq!(failure(fs.lookup(2, b"alpha")), Ext2Error::NotFound);
    assert_eq!(fs.lookup(2, b"beta").unwrap(), b);
    assert_eq!(names(&fs, 2), vec![".", "..", "beta"]);
    assert!(!fs.inode_in_use(a));
    assert_eq!(failure(fs.read_inode(a)), Ext2Error::NotFound);
    assert_eq!(fs.superblock.free_inodes_count, free_inodes + 1);
    // Twenty data blocks and one pointer block come back.
    assert_eq!(fs.superblock.free_blocks_count, free_blocks + 21);
    assert_eq!(fs.dev.load(fs.inode_offset(a), 128), vec![0u8; 128]);
    assert_eq!(failure(fs.unlink(2, b"alpha")), Ext2Error::NotFound);
    // The inode is the lowest free one again.
    assert_eq!(fs.create(2, b"gamma", FileType::File).unwrap(), a);
    assert_eq!(fs.readdir(2).unwrap().iter().map(|e| e.rec_len as usize).sum::<usize>(), 1024);
}

#[test]
fn a_directory_is_not_unlinked() {
    let mut fs = mounted(1);
    let d = fs.create(2, b"dir", FileType::Dir).unwrap();
    assert_eq!(failure(fs.unlink(2, b"dir")), Ext2Error::IsADirectory);
    assert_eq!(fs.lookup(2, b"dir").unwrap(), d);
}

#[test]
fn a_link_count_above_one_keeps_the_inode() {
    let mut fs = mounted(1);
    let a = fs.create(2, b"one", FileType::File).unwrap();
    let mut root = fs.read_inode(2).unwrap();
    fs.add_entry(2, &mut root, b"two", a, 1).unwrap();
    let mut ino = fs.read_inode(a).unwrap();
    ino.links_count = 2;
    fs.write_inode(a, &ino).unwrap();
    fs.unlink(2, b"one").unwrap();
    assert!(fs.inode_in_use(a));
    assert_eq!(fs.read_inode(a).unwrap().links_count, 1);
    assert_eq!(fs.lookup(2, b"two").unwrap(), a);
    fs.unlink(2, b"two").unwrap();
    assert!(!fs.inode_in_use(a));
}

#[test]
fn symbolic_links_are_followed() {
    let mut fs = mounted(2);
    let d = fs.create(2, b"data", FileType::Dir).unwrap();
    let f = fs.create(d, b"file", FileType::File).unwrap();
    let abs = fs.create(2, b"abs", FileType::SymLink).unwrap();
    fs.write_at(abs, 0, b"/data/file").unwrap();
    let rel = fs.create(d, b"rel", FileType::SymLink).unwrap();
    fs.write_at(rel, 0, b"file").unwrap();
    let up = fs.create(d, b"up", FileType::SymLink).unwrap();
    fs.write_at(up, 0, b"../data").unwrap();
    assert!(fs.read_inode(abs).unwrap().is_symlink());
    assert_eq!(fs.read_link(&fs.read_inode(abs).unwrap()).unwrap(), b"/data/file".to_vec());
    assert_eq!(fs.resolve_path(b"/abs").unwrap(), f);
    assert_eq!(fs.resolve_path(b"/data/rel").unwrap(), f);
    assert_eq!(fs.resolve_path(b"/data/up").unwrap(), d);
    assert_eq!(fs.resolve_path(b"/data/up/up/rel").unwrap(), f);
    assert_eq!(failure(fs.resolve_path(b"/abs/x")), Ext2Error::NotADirectory);
}

#[test]
fn a_link_kept_in_the_inode_is_followed() {
    let mut fs = mounted(1);
    let f = fs.create(2, b"target", FileType::File).unwrap();
    let l = fs.create(2, b"link", FileType::SymLink).unwrap();
    let mut ino = fs.read_inode(l).unwrap();
    ino.size = 7;
    ino.block[0] = u32::from_le_bytes(*b"/tar");
    ino.block[1] = u32::from_le_bytes(*b"get\0");
    fs.write_inode(l, &ino).unwrap();
    assert_eq!(fs.read_link(&ino).unwrap(), b"/target".to_vec());
    assert_eq!(fs.resolve_path(b"/link").unwrap(), f);
    // Its pointer fields are text: unlinking it releases no block.
    let free = fs.superblock.free_blocks_count;
    fs.unlink(2, b"link").unwrap();
    assert_eq!(fs.superblock.free_blocks_count, free);
}

#[test]
fn too_many_links_are_refused() {
    let mut fs = mounted(1);
    let l = fs.create(2, b"loop", FileType::SymLink).unwrap();
    fs.write_at(l, 0, b"/loop").unwrap();
    assert_eq!(failure(fs.resolve_path(b"/loop")), Ext2Error::TooManySymlinks);

    // A chain of sixteen links is walked, one of seventeen is not.
    let mut fs = mounted(2);
    let f = fs.create(2, b"l00", FileType::File).unwrap();
    for i in 1..=17 {
        let l = fs.create(2, format!("l{:02}", i).as_bytes(), FileType::SymLink).unwrap();
        fs.write_at(l, 0, format!("l{:02}", i - 1).as_bytes()).unwrap();
    }
    assert_eq!(fs.resolve_path(b"/l16").unwrap(), f);
    assert_eq!(failure(fs.resolve_path(b"/l17")), Ext2Error::TooManySymlinks);
}

#[test]
fn a_full_volume_is_out_of_space() {
    let mut fs = mounted(1);
    let n = fs.create(2, b"fill", FileType::File).unwrap();
    let free = fs.superblock.free_blocks_count as usize;
    let data = vec![0x5au8; 400 * BS];
    let wrote = fs.write_at(n, 0, &data).unwrap();
    assert!(wrote < data.len());
    assert_eq!(wrote % BS, 0);
    // One block went to the pointers.
    assert_eq!(wrote / BS, free - 1);
    let left = fs.superblock.free_blocks_count;
    let img = fs.dev.load(0, 256 * BS);
    assert_eq!(failure(fs.write_at(n, wrote as u64, b"more")), Ext2Error::OutOfSpace);
    assert_eq!(fs.superblock.free_blocks_count, left);
    assert_eq!(fs.dev.load(0, 256 * BS), img);
    assert_eq!(failure(fs.create(2, b"dir", FileType::Dir)), Ext2Error::OutOfSpace);
    assert_eq!(fs.dev.load(0, 256 * BS), img);
    let mut buf = vec![0u8; wrote];
    assert_eq!(fs.read_at(n, 0, &mut buf).unwrap(), wrote);
    assert_eq!(buf, data[..wrote]);
}

#[test]
fn growing_fails_without_a_trace() {
    let mut fs = mounted(1);
    let n = fs.create(2, b"f", FileType::File).unwrap();
    let mut ino = fs.read_inode(n).unwrap();
    // Room for one block only, where a block far out needs three.
    let free = fs.superblock.free_blocks_count;
    for _ in 0..free - 1 {
        fs.allocate_block(0).unwrap();
    }
    let img = fs.dev.load(0, 256 * BS);
    let before = ino;
    assert_eq!(failure(fs.grow(n, &mut ino, 300)), Ext2Error::OutOfSpace);
    assert!(ino.same_as(&before));
    assert_eq!(fs.superblock.free_blocks_count, 1);
    assert_eq!(fs.groups[0].free_blocks_count, 1);
    assert_eq!(fs.dev.load(0, 256 * BS), img);
    let b = fs.grow(n, &mut ino, 0).unwrap();
    assert_eq!(ino.block[0], b);
    assert_eq!(fs.grow(n, &mut ino, 0).unwrap(), b);
    assert_eq!(fs.resolve(&ino, 0).unwrap(), Some(b));
    assert_eq!(failure(fs.grow(0, &mut ino, 1)), Ext2Error::NotFound);
    assert_eq!(failure(fs.grow(n, &mut ino, u32::MAX)), Ext2Error::OutOfSpace);
}

#[test]
fn a_pointer_outside_the_volume_is_a_corrupt_layout() {
    let mut fs = mounted(1);
    let n = fs.create(2, b"f", FileType::File).unwrap();
    let mut ino = fs.read_inode(n).unwrap();
    ino.size = 4096;
    ino.block[0] = 256;
    ino.block[1] = 1;
    fs.write_inode(n, &ino).unwrap();
    assert_eq!(failure(fs.resolve(&ino, 0)), Ext2Error::CorruptLayout);
    assert_eq!(failure(fs.resolve(&ino, 1)), Ext2Error::CorruptLayout);
    assert_eq!(fs.resolve(&ino, 2).unwrap(), None);
    let mut buf = vec![0u8; 10];
    assert_eq!(failure(fs.read_at(n, 0, &mut buf)), Ext2Error::CorruptLayout);
    assert_eq!(fs.read_at(n, 2048, &mut buf).unwrap(), 10);
    assert_eq!(failure(fs.write_at(n, 0, b"x")), Ext2Error::CorruptLayout);
}

#[test]
fn a_directory_of_garbage_is_a_corrupt_layout() {
    let mut fs = mounted(1);
    fs.write_block(9, &[0xffu8; 16]);
    assert_eq!(failure(fs.lookup(2, b"x")), Ext2Error::CorruptLayout);
    assert_eq!(failure(fs.readdir(2)), Ext2Error::CorruptLayout);
    assert_eq!(failure(fs.create(2, b"x", FileType::File)), Ext2Error::CorruptLayout);
    assert_eq!(failure(fs.unlink(2, b"x")), Ext2Error::CorruptLayout);
    assert_eq!(failure(fs.resolve_path(b"/x")), Ext2Error::CorruptLayout);
}

#[test]
fn flushed_counts_survive_a_remount() {
    let mut fs = mounted(2);
    let n = fs.create(2, b"kept", FileType::File).unwrap();
    fs.write_at(n, 0, b"still here").unwrap();
    fs.allocate_block(1).unwrap();
    let sb = fs.superblock;
    let g0 = fs.groups[0];
    let g1 = fs.groups[1];
    fs.flush_superblock();
    fs.flush_group(0).unwrap();
    fs.flush_group(1).unwrap();
    assert_eq!(failure(fs.flush_group(2)), Ext2Error::CorruptLayout);
    let again = Ext2FileSystem::mount(fs.into_disk()).unwrap();
    assert_eq!(again.superblock.free_blocks_count, sb.free_blocks_count);
    assert_eq!(again.superblock.free_inodes_count, sb.free_inodes_count);
    assert_eq!(again.groups[0].free_blocks_count, g0.free_blocks_count);
    assert_eq!(again.groups[0].free_inodes_count, g0.free_inodes_count);
    assert_eq!(again.groups[1].free_blocks_count, g1.free_blocks_count);
    assert_eq!(again.lookup(2, b"kept").unwrap(), n);
    let mut buf = vec![0u8; 10];
    assert_eq!(again.read_at(n, 0, &mut buf).unwrap(), 10);
    assert_eq!(&buf, b"still here");
}

#[test]
fn sync_writes_every_table() {
    let mut fs = mounted(2);
    fs.allocate_block(0).unwrap();
    fs.allocate_inode(1, false).unwrap();
    fs.sync();
    let img = fs.dev.load(0, 512 * BS);
    assert_eq!(&img[1024..2048], &fs.superblock.encode()[..]);
    assert_eq!(&img[2048..2080], &fs.groups[0].encode()[..]);
    assert_eq!(&img[2080..2112], &fs.groups[1].encode()[..]);
}

#[test]
fn blocks_are_read_and_written_whole() {
    let mut fs = mounted(1);
    assert_eq!(fs.block_offset(9), 9 * BS);
    fs.write_block(100, &[1, 2, 3]);
    let block = fs.read_block(100);
    assert_eq!(block.len(), BS);
    assert_eq!(&block[..4], &[1, 2, 3, 0]);
    fs.write_bytes(100, 2, &[9, 9]);
    assert_eq!(&fs.read_block(100)[..5], &[1, 2, 9, 9, 0]);
    fs.set_block_word(100, 3, 0xaabb_ccdd);
    assert_eq!(fs.block_word(100, 3), 0xaabb_ccdd);
    assert_eq!(&fs.read_block(100)[12..16], &[0xdd, 0xcc, 0xbb, 0xaa]);
    fs.zero_block(100);
    assert_eq!(fs.read_block(100), vec![0u8; BS]);
    assert!(fs.is_data_block(2));
    assert!(!fs.is_data_block(1));
    assert!(!fs.is_data_block(0));
    assert!(fs.is_data_block(255));
    assert!(!fs.is_data_block(256));
    assert_eq!(fs.blocks_of(0), 0);
    assert_eq!(fs.blocks_of(1), 1);
    assert_eq!(fs.blocks_of(1024), 1);
    assert_eq!(fs.blocks_of(1025), 2);
}

#[test]
fn larger_blocks_work_the_same() {
    // One group of 4096-byte blocks: block 0 holds the superblock, block 1
    // the table, blocks 2 and 3 the bitmaps, block 4 the inode table, block 5
    // the root directory.
    let bs = 4096usize;
    let mut img = vec![0u8; 64 * bs];
    let d = BlockGroupDescriptor {
        block_bitmap: 2,
        inode_bitmap: 3,
        inode_table: 4,
        free_blocks_count: 58,
        free_inodes_count: 22,
        used_dirs_count: 1,
        pad: 0,
        reserved: [0; 3],
    };
    img[bs..bs + 32].copy_from_slice(&d.encode());
    img[2 * bs] = 0b0011_1111;
    img[3 * bs] = 0xff;
    img[3 * bs + 1] = 0b11;
    let mut zero = vec![0u8; 1024];
    let mut sb = Superblock::new_from_buf(&mut zero);
    sb.magic = Superblock::MAGIC;
    sb.inodes_count = 32;
    sb.blocks_count = 64;
    sb.free_blocks_count = 58;
    sb.free_inodes_count = 22;
    sb.first_data_block = 0;
    sb.log_block_size = 2;
    sb.blocks_per_group = 64;
    sb.inodes_per_group = 32;
    sb.first_inode = 11;
    img[1024..2048].copy_from_slice(&sb.encode());
    let mut root = Inode::fresh(0x41ed);
    root.links_count = 2;
    root.size = bs as u32;
    root.blocks = 8;
    root.block[0] = 5;
    img[4 * bs + 128..4 * bs + 256].copy_from_slice(&root.encode());
    let mut dir = empty_block(bs);
    insert(&mut dir, b".", 2, 2).unwrap();
    insert(&mut dir, b"..", 2, 2).unwrap();
    img[5 * bs..6 * bs].copy_from_slice(&dir);

    let mut fs = Ext2FileSystem::mount(Disk::new(img)).unwrap();
    assert_eq!(fs.block_size(), 4096);
    assert_eq!(fs.ptrs_per_block(), 1024);
    let n = fs.create(2, b"f", FileType::File).unwrap();
    let data: Vec<u8> = (0..60_000u32).map(|i| (i % 241) as u8).collect();
    assert_eq!(fs.write_at(n, 0, &data).unwrap(), 60_000);
    let mut buf = vec![0u8; 60_000];
    assert_eq!(fs.read_at(n, 0, &mut buf).unwrap(), 60_000);
    assert_eq!(buf, data);
    let ino = fs.read_inode(n).unwrap();
    assert_ne!(ino.block[12], 0);
    // Fifteen data blocks and one pointer block, eight sectors each.
    assert_eq!(ino.blocks, 128);
    assert_eq!(fs.allocate_block(0).unwrap(), 6 + 16);
}

#[test]
fn a_walk_may_begin_anywhere() {
    let mut fs = mounted(2);
    let a = fs.create(2, b"a", FileType::Dir).unwrap();
    let b = fs.create(a, b"b", FileType::Dir).unwrap();
    let f = fs.create(b, b"f", FileType::File).unwrap();
    assert_eq!(fs.walk(a, vec![b"b".to_vec(), b"f".to_vec()]).unwrap(), f);
    assert_eq!(fs.walk(b, vec![b"..".to_vec(), b"..".to_vec()]).unwrap(), 2);
    assert_eq!(fs.walk(f, Vec::new()).unwrap(), f);
    assert_eq!(failure(fs.walk(f, vec![b"x".to_vec()])), Ext2Error::NotADirectory);
    assert_eq!(failure(fs.walk(a, vec![b"f".to_vec()])), Ext2Error::NotFound);
    // A link with a target that begins with a separator leads back to the root.
    let l = fs.create(b, b"home", FileType::SymLink).unwrap();
    fs.write_at(l, 0, b"/a").unwrap();
    assert_eq!(fs.walk(b, vec![b"home".to_vec(), b"b".to_vec()]).unwrap(), b);
}

#[test]
fn a_name_is_located_with_its_block() {
    let mut fs = mounted(1);
    let n = fs.create(2, b"here", FileType::File).unwrap();
    let root = fs.read_dir_inode(2).unwrap();
    assert_eq!(fs.locate_in(&root, b"here").unwrap(), (n, 9));
    assert_eq!(fs.lookup_in(&root, b"here").unwrap(), n);
    assert_eq!(failure(fs.locate_in(&root, b"there")), Ext2Error::NotFound);
    assert_eq!(failure(fs.read_dir_inode(n)), Ext2Error::NotADirectory);
    assert_eq!(failure(fs.read_dir_inode(31)), Ext2Error::NotFound);
}

#[test]
fn a_range_is_read_whatever_the_length_of_the_file() {
    let mut fs = mounted(1);
    let n = fs.create(2, b"f", FileType::File).unwrap();
    fs.write_at(n, 1000, b"abcdefgh").unwrap();
    let ino = fs.read_inode(n).unwrap();
    assert_eq!(ino.size, 1008);
    assert_eq!(fs.read_range(&ino, 998, 12).unwrap(), b"\0\0abcdefgh\0\0".to_vec());
    assert_eq!(fs.read_range(&ino, 5000, 3).unwrap(), vec![0, 0, 0]);
    assert_eq!(fs.read_range(&ino, 0, 0).unwrap(), Vec::<u8>::new());
}

#[test]
fn an_entry_goes_into_the_first_block_with_room() {
    let mut fs = mounted(1);
    let mut root = fs.read_inode(2).unwrap();
    assert_eq!(fs.add_entry(2, &mut root, b"one", 5, 1).unwrap(), 9);
    assert_eq!(root.size, 1024);
    let long = vec![b'n'; 255];
    for i in 0..3u8 {
        let mut name = long.clone();
        name[0] = b'0' + i;
        assert_eq!(fs.add_entry(2, &mut root, &name, 6, 1).unwrap(), 9);
    }
    // The fourth long name has no room in block 9: the directory grows.
    let b = fs.add_entry(2, &mut root, &long, 7, 1).unwrap();
    assert_eq!(b, 10);
    assert_eq!(root.size, 2048);
    assert_eq!(root.block[1], 10);
    assert!(fs.read_inode(2).unwrap().same_as(&root));
    // A short name still fits the first block.
    assert_eq!(fs.add_entry(2, &mut root, b"two", 8, 1).unwrap(), 9);
    assert_eq!(fs.lookup(2, &long).unwrap(), 7);
    assert_eq!(fs.lookup(2, b"two").unwrap(), 8);
}

#[test]
fn releasing_a_tree_releases_what_it_leads_to() {
    let mut fs = mounted(1);
    let n = fs.create(2, b"f", FileType::File).unwrap();
    let free = fs.superblock.free_blocks_count;
    fs.write_at(n, 0, &vec![1u8; 14 * BS]).unwrap();
    assert_eq!(fs.superblock.free_blocks_count, free - 15);
    let ino = fs.read_inode(n).unwrap();
    let pointers = ino.block[12];
    let leaf = fs.block_word(pointers, 1);
    fs.release_tree(pointers, 1);
    assert_eq!(fs.superblock.free_blocks_count, free - 12);
    assert_eq!(fs.read_block(3)[(pointers as usize - 1) / 8] >> ((pointers - 1) % 8) & 1, 0);
    assert_eq!(fs.read_block(3)[(leaf as usize - 1) / 8] >> ((leaf - 1) % 8) & 1, 0);
    fs.release_tree(0, 3);
    fs.release_tree(1, 0);
    fs.release_tree(9999, 2);
    assert_eq!(fs.superblock.free_blocks_count, free - 12);
    let mut direct = ino;
    direct.block[12] = 0;
    fs.release_blocks(&direct);
    assert_eq!(fs.superblock.free_blocks_count, free);
}

#[test]
fn one_step_of_a_walk() {
    let mut fs = mounted(1);
    let d = fs.create(2, b"d", FileType::Dir).unwrap();
    let l = fs.create(2, b"l", FileType::SymLink).unwrap();
    fs.write_at(l, 0, b"d/x//y").unwrap();
    match fs.step(2, b"d", 0).unwrap() {
        axfs_ext2::path::Step::Enter(m) => assert_eq!(m, d),
        axfs_ext2::path::Step::Follow(..) => panic!("a directory is entered"),
    }
    match fs.step(2, b"l", 15).unwrap() {
        axfs_ext2::path::Step::Follow(from, parts) => {
            assert_eq!(from, 2);
            assert_eq!(parts, vec![b"d".to_vec(), b"x".to_vec(), b"y".to_vec()]);
        },
        axfs_ext2::path::Step::Enter(_) => panic!("a link is followed"),
    }
    assert_eq!(failure(fs.step(2, b"l", 16)), Ext2Error::TooManySymlinks);
    assert_eq!(failure(fs.step(2, b"none", 0)), Ext2Error::NotFound);
    assert_eq!(failure(fs.step(l, b"d", 0)), Ext2Error::NotADirectory);
}

#[test]
fn the_table_is_loaded_from_the_block_after_the_superblock() {
    let img = image(2);
    let disk = Disk::new(img.clone());
    let mut probe = Disk::new(img);
    let sb = Ext2FileSystem::read_superblock(&mut probe).unwrap();
    let table = Ext2FileSystem::load_table(&disk, &sb).unwrap();
    assert_eq!(table.len(), 2);
    assert_eq!(table[0].block_bitmap, 3);
    assert_eq!(table[1].inode_table, 259);
    assert_eq!(table[1].free_blocks_count, 249);
    let mut short = sb;
    short.blocks_count = 2;
    short.inodes_count = 1;
    assert!(short.check_geometry());
    assert_eq!(failure(Ext2FileSystem::load_table(&disk, &short)), Ext2Error::CorruptLayout);
}

#[test]
fn a_new_block_holds_zeros() {
    // What lay in the free block before does not show in the file.
    let mut img = image(1);
    for j in 10 * BS..11 * BS {
        img[j] = 0xff;
    }
    let mut fs = Ext2FileSystem::mount(Disk::new(img)).unwrap();
    let n = fs.create(2, b"sparse", FileType::File).unwrap();
    assert_eq!(fs.write_at(n, 5, b"x").unwrap(), 1);
    let ino = fs.read_inode(n).unwrap();
    assert_eq!(ino.block[0], 10);
    assert_eq!(ino.size, 6);
    let block = fs.read_range(&ino, 0, BS).unwrap();
    for (j, b) in block.iter().enumerate() {
        assert_eq!(*b, if j == 5 { b'x' } else { 0 });
    }
}

#[test]
fn a_block_under_the_inode_is_not_linked() {
    // The bitmap gives away the block that holds the file's own record.
    let mut fs = mounted(1);
    let n = fs.create(2, b"f", FileType::File).unwrap();
    let mut ino = fs.read_inode(n).unwrap();
    let under = fs.groups[0].inode_table + (n - 1) * 128 / BS as u32;
    fs.free_block(under).unwrap();
    let img = fs.dev.load(0, 256 * BS);
    let free = fs.superblock.free_blocks_count;
    let before = ino;
    assert_eq!(failure(fs.grow(n, &mut ino, 0)), Ext2Error::CorruptLayout);
    assert!(ino.same_as(&before));
    assert_eq!(fs.superblock.free_blocks_count, free);
    assert_eq!(fs.dev.load(0, 256 * BS), img);
    assert_eq!(failure(fs.write_at(n, 0, b"x")), Ext2Error::CorruptLayout);
    assert_eq!(fs.dev.load(0, 256 * BS), img);
}
