use axfs_ext2::bitmap::{find_first_clear, flip_byte, mask, test_bit, test_byte};
use axfs_ext2::block_group::BlockGroupDescriptor;
use axfs_ext2::bytes::{
    copy_into, copy_range, read_i16, read_i32, read_u16, read_u32, write_i16, write_i32,
    write_u16, write_u32, zeroed,
};
use axfs_ext2::dir::{check_chain, empty_block, entries, find, insert, remove, round4};
use axfs_ext2::disk::Disk;
use axfs_ext2::error::Ext2Error;
use axfs_ext2::inode::{FileType, Inode};

#[test]
fn integers_are_little_endian() {
    let buf = [0x01u8, 0x02, 0x03, 0x04, 0xff, 0xff];
    assert_eq!(read_u16(&buf, 0), 0x0201);
    assert_eq!(read_u16(&buf, 1), 0x0302);
    assert_eq!(read_u32(&buf, 0), 0x0403_0201);
    assert_eq!(read_i16(&buf, 4), -1);
    assert_eq!(read_i32(&[0xfe, 0xff, 0xff, 0xff], 0), -2);
    assert_eq!(read_i32(&[0x00, 0x00, 0x00, 0x80], 0), i32::MIN);
    assert_eq!(read_i16(&[0xff, 0x7f], 0), i16::MAX);
}

#[test]
fn written_integers_are_read_back() {
    let mut buf = vec![0xaau8; 12];
    write_u32(&mut buf, 2, 0xdead_beef);
    assert_eq!(buf, vec![0xaa, 0xaa, 0xef, 0xbe, 0xad, 0xde, 0xaa, 0xaa, 0xaa, 0xaa, 0xaa, 0xaa]);
    write_u16(&mut buf, 7, 0x1234);
    assert_eq!(&buf[7..9], &[0x34, 0x12]);
    write_i16(&mut buf, 9, -2);
    assert_eq!(read_i16(&buf, 9), -2);
    write_i32(&mut buf, 0, i32::MIN);
    assert_eq!(read_i32(&buf, 0), i32::MIN);
    assert_eq!(read_u32(&buf, 0), 0x8000_0000);
}

#[test]
fn ranges_are_copied() {
    let src = [1u8, 2, 3, 4, 5];
    assert_eq!(copy_range(&src, 1, 3), vec![2, 3, 4]);
    assert_eq!(copy_range(&src, 5, 0), Vec::<u8>::new());
    let mut dst = zeroed(6);
    copy_into(&mut dst, 2, &src[..3]);
    assert_eq!(dst, vec![0, 0, 1, 2, 3, 0]);
}

#[test]
fn disk_transfers_move_the_cursor() {
    let mut disk = Disk::new((0u8..100).collect());
    assert_eq!(disk.size(), 100);
    assert_eq!(disk.position(), 0);
    disk.set_position(10);
    let mut buf = vec![0u8; 4];
    assert!(disk.read_exact(&mut buf).is_ok());
    assert_eq!(buf, vec![10, 11, 12, 13]);
    assert_eq!(disk.position(), 14);
    assert!(disk.write_exact(&[7, 7]).is_ok());
    assert_eq!(disk.position(), 16);
    assert_eq!(disk.byte(14), 7);
    assert_eq!(disk.byte(15), 7);
    assert_eq!(disk.byte(16), 16);
}

#[test]
fn disk_refuses_a_transfer_past_its_end() {
    let mut disk = Disk::new(vec![1u8; 8]);
    disk.set_position(6);
    let mut buf = vec![0u8; 3];
    assert!(matches!(disk.read_exact(&mut buf), Err(Ext2Error::IoError)));
    assert_eq!(buf, vec![0, 0, 0]);
    assert_eq!(disk.position(), 6);
    assert!(matches!(disk.write_exact(&[9, 9, 9]), Err(Ext2Error::IoError)));
    assert_eq!(disk.into_bytes(), vec![1u8; 8]);

    let mut disk = Disk::new(vec![1u8; 8]);
    disk.set_position(9);
    let mut none = Vec::new();
    assert!(matches!(disk.read_exact(&mut none), Err(Ext2Error::IoError)));
    disk.set_position(8);
    assert!(disk.read_exact(&mut none).is_ok());
}

#[test]
fn disk_words_are_little_endian() {
    let mut disk = Disk::new(vec![0u8; 16]);
    disk.set_word(4, 0x0102_0304);
    assert_eq!(disk.load(4, 4), vec![4, 3, 2, 1]);
    assert_eq!(disk.word(4), 0x0102_0304);
    disk.store(0, &[0xff, 0xff]);
    disk.set_byte(2, 0x7f);
    assert_eq!(disk.word(0), 0x007f_ffff);
}

#[test]
fn descriptor_round_trip() {
    let d = BlockGroupDescriptor {
        block_bitmap: 3,
        inode_bitmap: 4,
        inode_table: 5,
        free_blocks_count: 247,
        free_inodes_count: 22,
        used_dirs_count: 1,
        pad: 0xabcd,
        reserved: [1, 2, 0xffff_ffff],
    };
    let rec = d.encode();
    assert_eq!(rec.len(), 32);
    assert_eq!(&rec[..4], &[3, 0, 0, 0]);
    assert_eq!(&rec[12..14], &[247, 0]);
    assert_eq!(&rec[18..20], &[0xcd, 0xab]);
    let mut table = vec![0u8; 100];
    table[40..72].copy_from_slice(&rec);
    let back = BlockGroupDescriptor::decode(&table, 40);
    assert_eq!(back.block_bitmap, 3);
    assert_eq!(back.inode_bitmap, 4);
    assert_eq!(back.inode_table, 5);
    assert_eq!(back.free_blocks_count, 247);
    assert_eq!(back.free_inodes_count, 22);
    assert_eq!(back.used_dirs_count, 1);
    assert_eq!(back.pad, 0xabcd);
    assert_eq!(back.reserved, [1, 2, 0xffff_ffff]);
    assert_eq!(back.encode(), rec);
}

#[test]
fn inode_round_trip() {
    let mut ino = Inode::fresh(0x81a4);
    ino.size = 5000;
    ino.uid = 1000;
    ino.gid = 100;
    ino.blocks = 10;
    for i in 0..15 {
        ino.block[i] = 100 + i as u32;
    }
    ino.osd2 = [7, 8, 9];
    let rec = ino.encode();
    assert_eq!(rec.len(), 128);
    assert_eq!(&rec[0..2], &[0xa4, 0x81]);
    assert_eq!(&rec[4..8], &[0x88, 0x13, 0, 0]);
    assert_eq!(&rec[40..44], &[100, 0, 0, 0]);
    assert_eq!(&rec[96..100], &[114, 0, 0, 0]);
    let back = Inode::decode(&rec, 0);
    assert!(back.same_as(&ino));
    assert_eq!(back.encode(), rec);
    let mut other = ino;
    other.block[14] = 0;
    assert!(!other.same_as(&ino));
}

#[test]
fn inode_types_follow_the_mode() {
    assert!(Inode::fresh(0x41ed).is_dir());
    assert!(!Inode::fresh(0x41ed).is_file());
    assert!(Inode::fresh(0x81a4).is_file());
    assert!(Inode::fresh(0xa1ff).is_symlink());
    assert_eq!(Inode::fresh(0x81a4).type_bits(), 0x8000);
    assert_eq!(Inode::fresh(0x41ed).file_type(), FileType::Dir);
    assert_eq!(Inode::fresh(0x21a4).file_type(), FileType::CharDevice);
    assert_eq!(Inode::fresh(0x61a4).file_type(), FileType::BlockDevice);
    assert_eq!(Inode::fresh(0x11a4).file_type(), FileType::Fifo);
    assert_eq!(Inode::fresh(0xc1a4).file_type(), FileType::Socket);
    assert_eq!(Inode::fresh(0x01a4).file_type(), FileType::Unknown);
    assert_eq!(Inode::fresh(0).links_count, 1);
    assert_eq!(Inode::vacant().links_count, 0);
    assert_eq!(Inode::vacant().encode(), vec![0u8; 128]);
}

#[test]
fn file_type_codes() {
    let all = [
        (FileType::Unknown, 0u8, 0u16),
        (FileType::File, 1, 0x8000),
        (FileType::Dir, 2, 0x4000),
        (FileType::CharDevice, 3, 0x2000),
        (FileType::BlockDevice, 4, 0x6000),
        (FileType::Fifo, 5, 0x1000),
        (FileType::Socket, 6, 0xc000),
        (FileType::SymLink, 7, 0xa000),
    ];
    for (t, code, bits) in all {
        assert_eq!(t.code(), code);
        assert_eq!(FileType::from_code(code), t);
        assert_eq!(t.mode_bits(), bits);
    }
    assert_eq!(FileType::from_code(8), FileType::Unknown);
    assert_eq!(FileType::from_code(255), FileType::Unknown);
}

#[test]
fn bits_of_a_byte() {
    assert_eq!(mask(0), 1);
    assert_eq!(mask(7), 128);
    assert!(test_byte(0b0000_0100, 2));
    assert!(!test_byte(0b0000_0100, 3));
    assert_eq!(flip_byte(0, 3, true), 8);
    assert_eq!(flip_byte(8, 3, true), 8);
    assert_eq!(flip_byte(0xff, 7, false), 0x7f);
    assert_eq!(flip_byte(0x7f, 7, false), 0x7f);
    for b in 0..=255u8 {
        for k in 0..8u8 {
            let on = flip_byte(b, k, true);
            assert!(test_byte(on, k));
            assert_eq!(flip_byte(on, k, test_byte(b, k)), b);
        }
    }
}

#[test]
fn lowest_clear_bit_is_found() {
    assert_eq!(find_first_clear(&[0xff, 0x07], 16), Some(11));
    assert_eq!(find_first_clear(&[0xff, 0x07], 11), None);
    assert_eq!(find_first_clear(&[0xff, 0xff], 16), None);
    assert_eq!(find_first_clear(&[0xfe], 8), Some(0));
    assert_eq!(find_first_clear(&[0x00], 0), None);
    assert!(test_bit(&[0x00, 0x01], 8));
    assert!(!test_bit(&[0x00, 0x01], 9));
}

fn lengths(block: &[u8]) -> usize {
    let mut off = 0;
    let mut sum = 0;
    while off < block.len() {
        let len = read_u16(block, off + 4) as usize;
        sum += len;
        off += len;
    }
    sum
}

#[test]
fn an_empty_block_is_one_unused_slot() {
    let block = empty_block(1024);
    assert_eq!(block.len(), 1024);
    assert!(check_chain(&block));
    assert_eq!(read_u32(&block, 0), 0);
    assert_eq!(read_u16(&block, 4), 1024);
    assert!(entries(&block).unwrap().is_empty());
    assert_eq!(lengths(&block), 1024);
}

#[test]
fn rounding_to_four() {
    assert_eq!(round4(0), 0);
    assert_eq!(round4(1), 4);
    assert_eq!(round4(8), 8);
    assert_eq!(round4(9), 12);
    assert_eq!(round4(263), 264);
}

#[test]
fn inserted_entries_split_the_room() {
    let mut block = empty_block(1024);
    assert!(insert(&mut block, b".", 2, 2).is_ok());
    assert!(insert(&mut block, b"..", 2, 2).is_ok());
    assert!(insert(&mut block, b"hello.txt", 12, 1).is_ok());
    let list = entries(&block).unwrap();
    assert_eq!(list.len(), 3);
    assert_eq!(list[0].name, b".".to_vec());
    assert_eq!(list[0].inode, 2);
    assert_eq!(list[0].rec_len, 12);
    assert_eq!(list[0].name_len, 1);
    assert_eq!(list[0].file_type, 2);
    assert_eq!(list[1].name, b"..".to_vec());
    assert_eq!(list[1].rec_len, 12);
    assert_eq!(list[2].name, b"hello.txt".to_vec());
    assert_eq!(list[2].inode, 12);
    assert_eq!(list[2].file_type, 1);
    assert_eq!(list[2].rec_len, 1000);
    let total: usize = list.iter().map(|e| e.rec_len as usize).sum();
    assert_eq!(total, 1024);
    assert_eq!(lengths(&block), 1024);
    assert!(check_chain(&block));
    assert_eq!(&block[0..8], &[2, 0, 0, 0, 12, 0, 1, 2]);
    assert_eq!(block[8], b'.');
    assert_eq!(&block[24..32], &[12, 0, 0, 0, 0xe8, 0x03, 9, 1]);
    assert_eq!(&block[32..41], b"hello.txt");
}

#[test]
fn the_first_match_is_found() {
    let mut block = empty_block(64);
    insert(&mut block, b"a", 5, 1).unwrap();
    insert(&mut block, b"bb", 6, 2).unwrap();
    assert_eq!(find(&block, b"a").unwrap(), Some((5, 1, 0)));
    assert_eq!(find(&block, b"bb").unwrap(), Some((6, 2, 12)));
    assert_eq!(find(&block, b"b").unwrap(), None);
    assert_eq!(find(&block, b"A").unwrap(), None);
    assert_eq!(find(&block, b"").unwrap(), None);
}

#[test]
fn a_full_block_has_no_space() {
    let mut block = empty_block(24);
    insert(&mut block, b"a", 5, 1).unwrap();
    insert(&mut block, b"b", 6, 1).unwrap();
    let before = block.clone();
    assert!(matches!(insert(&mut block, b"c", 7, 1), Err(Ext2Error::NoSpace)));
    assert_eq!(block, before);
    assert_eq!(lengths(&block), 24);
    let mut small = empty_block(8);
    assert!(matches!(insert(&mut small, b"x", 7, 1), Err(Ext2Error::NoSpace)));
    assert!(insert(&mut small, b"", 7, 1).is_ok());
}

#[test]
fn inode_zero_is_not_inserted() {
    let mut block = empty_block(64);
    let before = block.clone();
    assert!(matches!(insert(&mut block, b"a", 0, 1), Err(Ext2Error::NotFound)));
    assert_eq!(block, before);
}

#[test]
fn a_broken_chain_is_refused() {
    let mut block = empty_block(64);
    insert(&mut block, b"a", 5, 1).unwrap();
    write_u16(&mut block, 4, 10);
    let before = block.clone();
    assert!(!check_chain(&block));
    assert!(matches!(entries(&block), Err(Ext2Error::CorruptLayout)));
    assert!(matches!(insert(&mut block, b"b", 6, 1), Err(Ext2Error::CorruptLayout)));
    assert!(matches!(remove(&mut block, b"a"), Err(Ext2Error::CorruptLayout)));
    assert!(matches!(find(&block, b"a"), Err(Ext2Error::CorruptLayout)));
    assert_eq!(block, before);

    let mut short = empty_block(64);
    write_u16(&mut short, 4, 60);
    assert!(!check_chain(&short));
    let mut long = empty_block(64);
    write_u16(&mut long, 4, 68);
    assert!(!check_chain(&long));
    let mut tiny = empty_block(64);
    write_u16(&mut tiny, 4, 4);
    assert!(!check_chain(&tiny));
    let mut name = empty_block(64);
    insert(&mut name, b"a", 5, 1).unwrap();
    name[6] = 56;
    assert!(check_chain(&name));
    name[6] = 57;
    assert!(!check_chain(&name));
}

#[test]
fn removing_merges_into_the_record_before() {
    let mut block = empty_block(64);
    insert(&mut block, b"a", 5, 1).unwrap();
    insert(&mut block, b"b", 6, 1).unwrap();
    insert(&mut block, b"c", 7, 1).unwrap();
    assert!(remove(&mut block, b"b").is_ok());
    let list = entries(&block).unwrap();
    assert_eq!(list.len(), 2);
    assert_eq!(list[0].name, b"a".to_vec());
    assert_eq!(list[0].rec_len, 24);
    assert_eq!(list[1].name, b"c".to_vec());
    assert_eq!(list[1].rec_len, 40);
    assert_eq!(read_u32(&block, 12), 0);
    assert_eq!(lengths(&block), 64);
    assert!(matches!(remove(&mut block, b"b"), Err(Ext2Error::NotFound)));
}

#[test]
fn removing_the_first_record_leaves_an_unused_slot() {
    let mut block = empty_block(64);
    insert(&mut block, b"a", 5, 1).unwrap();
    insert(&mut block, b"b", 6, 1).unwrap();
    assert!(remove(&mut block, b"a").is_ok());
    assert!(check_chain(&block));
    assert_eq!(read_u32(&block, 0), 0);
    assert_eq!(read_u16(&block, 4), 12);
    let list = entries(&block).unwrap();
    assert_eq!(list.len(), 1);
    assert_eq!(list[0].name, b"b".to_vec());
    assert_eq!(lengths(&block), 64);
    // The unused slot is taken whole by the next entry that fits.
    insert(&mut block, b"zz", 9, 1).unwrap();
    let list = entries(&block).unwrap();
    assert_eq!(list.len(), 2);
    assert_eq!(list[0].name, b"zz".to_vec());
    assert_eq!(list[0].rec_len, 12);
    assert_eq!(lengths(&block), 64);
}

#[test]
fn lengths_add_up_to_the_block() {
    let mut block = empty_block(4096);
    let mut n = 0u32;
    loop {
        let name = format!("file-{}", n);
        match insert(&mut block, name.as_bytes(), 11 + n, 1) {
            Ok(()) => n += 1,
            Err(Ext2Error::NoSpace) => break,
            Err(e) => panic!("{:?}", e),
        }
        assert_eq!(lengths(&block), 4096);
    }
    assert!(n > 100);
    let list = entries(&block).unwrap();
    assert_eq!(list.len() as u32, n);
    let total: usize = list.iter().map(|e| e.rec_len as usize).sum();
    assert_eq!(total, 4096);
    for e in &list {
        assert_eq!(e.rec_len % 4, 0);
        assert!(e.rec_len as usize >= 8 + e.name.len());
    }
}
