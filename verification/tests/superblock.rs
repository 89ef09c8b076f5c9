use axfs_ext2::error::Ext2Error;
use axfs_ext2::superblock::Superblock;

fn record() -> Vec<u8> {
    let mut buf = vec![0u8; 1024];
    for i in 0..1024 {
        buf[i] = ((i * 7 + 3) % 251) as u8;
    }
    buf[0x38] = 0x53;
    buf[0x39] = 0xef;
    buf
}

#[test]
fn magic_is_read_from_offset_0x38() {
    let mut buf = vec![0u8; 1024];
    buf[0x38] = 0x53;
    buf[0x39] = 0xef;
    let sb = Superblock::new_from_buf(&mut buf);
    assert_eq!(sb.magic, Superblock::MAGIC);
    assert_eq!(sb.magic, 0xef53);
}

#[test]
fn fields_are_read_low_byte_first() {
    let mut buf = vec![0u8; 1024];
    buf[0] = 0x78;
    buf[1] = 0x56;
    buf[2] = 0x34;
    buf[3] = 0x12;
    buf[4] = 0x00;
    buf[5] = 0x20;
    buf[0x18] = 2;
    buf[0x58] = 0x00;
    buf[0x59] = 0x01;
    let sb = Superblock::new_from_buf(&mut buf);
    assert_eq!(sb.inodes_count, 0x1234_5678);
    assert_eq!(sb.blocks_count, 0x2000);
    assert_eq!(sb.log_block_size, 2);
    assert_eq!(sb.inode_size, 256);
}

#[test]
fn signed_fields_are_twos_complement() {
    let mut buf = vec![0u8; 1024];
    for i in 0x1c..0x20 {
        buf[i] = 0xff;
    }
    buf[0x36] = 0xfe;
    buf[0x37] = 0xff;
    let sb = Superblock::new_from_buf(&mut buf);
    assert_eq!(sb.log_frag_size, -1);
    assert_eq!(sb.max_mnt_count, -2);
    let out = sb.encode();
    assert_eq!(&out[0x1c..0x20], &[0xff, 0xff, 0xff, 0xff]);
    assert_eq!(&out[0x36..0x38], &[0xfe, 0xff]);
}

#[test]
fn byte_arrays_are_taken_whole() {
    let mut buf = record();
    let sb = Superblock::new_from_buf(&mut buf);
    assert_eq!(&sb.fs_id[..], &buf[0x68..0x78]);
    assert_eq!(&sb.volume_name[..], &buf[0x78..0x88]);
    assert_eq!(&sb.last_mnt_path[..], &buf[0x88..0xc8]);
    assert_eq!(sb.prealloc_blocks_files, buf[0xcc]);
    assert_eq!(sb.prealloc_blocks_dirs, buf[0xcd]);
    assert_eq!(&sb.journal_id[..], &buf[0xd0..0xe0]);
    assert_eq!(&sb.reserved[..], &buf[0xec..0x400]);
}

#[test]
fn decode_then_encode_gives_the_bytes_back() {
    let buf = record();
    let sb = Superblock::decode(&buf).unwrap();
    assert_eq!(sb.encode(), buf);
}

#[test]
fn encode_then_decode_gives_the_fields_back() {
    let mut buf = record();
    let mut sb = Superblock::new_from_buf(&mut buf);
    sb.free_blocks_count = 4711;
    sb.free_inodes_count = 42;
    sb.mtime = 1_700_000_000;
    sb.wtime = 1_700_000_001;
    let again = Superblock::decode(&sb.encode()).unwrap();
    assert_eq!(again.free_blocks_count, 4711);
    assert_eq!(again.free_inodes_count, 42);
    assert_eq!(again.mtime, 1_700_000_000);
    assert_eq!(again.wtime, 1_700_000_001);
    assert_eq!(again.encode(), sb.encode());
}

#[test]
fn decode_refuses_a_wrong_magic() {
    let mut buf = record();
    buf[0x38] = 0x54;
    assert!(matches!(Superblock::decode(&buf), Err(Ext2Error::InvalidSuperblock)));
    buf[0x38] = 0x53;
    buf[0x39] = 0xee;
    assert!(matches!(Superblock::decode(&buf), Err(Ext2Error::InvalidSuperblock)));
}

#[test]
fn decode_refuses_a_wrong_length() {
    let buf = record();
    assert!(matches!(Superblock::decode(&buf[..1023]), Err(Ext2Error::InvalidSuperblock)));
    let mut long = buf.clone();
    long.push(0);
    assert!(matches!(Superblock::decode(&long), Err(Ext2Error::InvalidSuperblock)));
}

#[test]
fn new_from_buf_reads_the_first_1024_bytes_of_a_longer_buffer() {
    let mut buf = record();
    buf.extend_from_slice(&[9u8; 100]);
    let sb = Superblock::new_from_buf(&mut buf);
    assert_eq!(sb.encode(), &buf[..1024]);
}

fn geometry() -> Superblock {
    let mut buf = vec![0u8; 1024];
    let mut sb = Superblock::new_from_buf(&mut buf);
    sb.magic = Superblock::MAGIC;
    sb.inodes_count = 64;
    sb.blocks_count = 512;
    sb.first_data_block = 1;
    sb.log_block_size = 0;
    sb.blocks_per_group = 256;
    sb.inodes_per_group = 32;
    sb
}

#[test]
fn block_size_is_1024_shifted() {
    let mut sb = geometry();
    assert_eq!(sb.block_size(), 1024);
    sb.log_block_size = 1;
    assert_eq!(sb.block_size(), 2048);
    sb.log_block_size = 2;
    assert_eq!(sb.block_size(), 4096);
    sb.log_block_size = 5;
    assert_eq!(sb.block_size(), 32768);
}

#[test]
fn group_count_rounds_up() {
    let mut sb = geometry();
    assert_eq!(sb.group_count(), 2);
    sb.blocks_count = 513;
    assert_eq!(sb.group_count(), 3);
    sb.blocks_count = 256;
    assert_eq!(sb.group_count(), 1);
    sb.blocks_count = 1;
    assert_eq!(sb.group_count(), 1);
}

#[test]
fn inode_record_size_is_128_in_revision_0() {
    let mut sb = geometry();
    sb.inode_size = 256;
    assert_eq!(sb.inode_record_size(), 128);
    sb.rev_major = 1;
    assert_eq!(sb.inode_record_size(), 256);
}

#[test]
fn geometry_is_accepted_or_refused() {
    let sb = geometry();
    assert!(sb.check_geometry());

    let mut bad = sb;
    bad.magic = 0;
    assert!(!bad.check_geometry());

    let mut bad = sb;
    bad.inodes_count = 65;
    assert!(!bad.check_geometry());

    let mut bad = sb;
    bad.blocks_per_group = 0;
    assert!(!bad.check_geometry());

    let mut bad = sb;
    bad.blocks_per_group = 8 * 1024 + 1;
    assert!(!bad.check_geometry());

    let mut bad = sb;
    bad.first_data_block = 0;
    assert!(!bad.check_geometry());

    let mut bad = sb;
    bad.log_block_size = 6;
    assert!(!bad.check_geometry());

    let mut bad = sb;
    bad.rev_major = 1;
    bad.inode_size = 100;
    assert!(!bad.check_geometry());

    let mut big = sb;
    big.log_block_size = 2;
    big.first_data_block = 0;
    assert!(big.check_geometry());
}

#[test]
fn a_superblock_prints_its_fields() {
    let sb = geometry();
    let text = format!("{:?}", sb);
    assert!(text.starts_with("Superblock"));
    assert!(text.contains("inodes_count: 64"));
    assert!(text.contains("blocks_count: 512"));
    assert!(text.contains("magic: 61267"));
    let copy = sb;
    assert_eq!(copy.encode(), sb.encode());
}
