use cfs::inode::{Inode, INODE_FLAG_EXTENTS, INODE_FLAG_INLINE_DATA};
use cfs::{INODE_FILE, INODE_SYMLINK};

#[test]
fn test_inode_serialize_roundtrip() {
    let mut inode = Inode::new_file();
    inode.size = 12345;
    inode.block_count = 3;
    inode.direct_blocks[0] = 100;
    inode.direct_blocks[1] = 200;
    inode.direct_blocks[2] = 300;
    inode.indirect_block = 999;
    inode.double_indirect = 1234;

    let buf = inode.serialize();
    let inode2 = Inode::deserialize(&buf);
    assert_eq!(inode, inode2);
}

#[test]
fn test_inode_v3_symlink_inline() {
    let inode = Inode::new_symlink("hello");
    assert_eq!(inode.mode, INODE_SYMLINK);
    assert_eq!(inode.size, 5);
    assert!(inode.flags & INODE_FLAG_INLINE_DATA != 0);
    assert_eq!(&inode.inline_area[..5], b"hello");
    assert_eq!(inode.permissions, 0o777);
}

#[test]
fn test_inode_v3_symlink_long() {
    let long_target = "a".repeat(80);
    let inode = Inode::new_symlink(&long_target);
    assert_eq!(inode.mode, INODE_SYMLINK);
    assert_eq!(inode.size, 80);
    // Too long for inline — should use extents
    assert!(inode.flags & INODE_FLAG_INLINE_DATA == 0);
    assert!(inode.flags & INODE_FLAG_EXTENTS != 0);
    // Verify extent header was properly initialized (magic=0xF30A)
    let expected_db0 = u64::from_le_bytes([0x0A, 0xF3, 0x00, 0x00, 0x07, 0x00, 0x00, 0x00]);
    assert_eq!(inode.direct_blocks[0], expected_db0);
}

#[test]
fn test_inode_v3_checksum_valid() {
    let mut inode = Inode::new_file_v3(0o600);
    inode.size = 1024;
    inode.block_count = 1;
    inode.checksum = inode.compute_checksum();
    assert!(inode.verify_checksum().is_ok());
}

#[test]
fn test_inode_v3_block_count_u64() {
    let mut inode = Inode::new_file_v3(0o644);
    inode.block_count = 0xFFFF_FFFF;
    inode.block_count_hi = 1;
    assert_eq!(inode.block_count_u64(), 0x1_FFFF_FFFF);

    inode.set_block_count_u64(0x2_0000_0001);
    assert_eq!(inode.block_count, 1);
    assert_eq!(inode.block_count_hi, 2);
    assert_eq!(inode.block_count_u64(), 0x2_0000_0001);
}

#[test]
fn test_inode_v3_extents_flag() {
    let inode = Inode::new_file_v3(0o644);
    assert!(inode.flags & INODE_FLAG_EXTENTS != 0);

    // v2 files should NOT have extents flag
    let inode_v2 = Inode::new_file();
    assert_eq!(inode_v2.flags & INODE_FLAG_EXTENTS, 0);
}

#[test]
fn test_inode_v2_compat() {
    // Serialize as v2, deserialize — v3 fields should get defaults
    let mut inode = Inode::new_file();
    inode.size = 42;
    inode.block_count = 1;
    inode.direct_blocks[0] = 100;

    let buf = inode.serialize();
    let inode2 = Inode::deserialize(&buf);

    assert_eq!(inode2.mode, INODE_FILE);
    assert_eq!(inode2.size, 42);
    assert_eq!(inode2.permissions, 0o644); // default for files
    assert_eq!(inode2.flags, 0);           // no extents in v2
    assert_eq!(inode2.block_count_hi, 0);
    assert_eq!(inode2.owner_id, 0);
}

#[test]
fn test_inode_v2_no_extents() {
    // v2 deserialized inode should have flags=0
    let inode = Inode::new_dir();
    let buf = inode.serialize();
    let inode2 = Inode::deserialize(&buf);
    assert_eq!(inode2.flags, 0);
}

#[test]
fn test_inode_serialize_for_size_128() {
    let inode = Inode::new_file();
    let buf = inode.serialize_for_size(128);
    assert_eq!(buf.len(), 128);
}

#[test]
fn test_inode_serialize_for_size_256() {
    let mut inode = Inode::new_file_v3(0o644);
    inode.checksum = inode.compute_checksum();
    let buf = inode.serialize_for_size(256);
    assert_eq!(buf.len(), 256);
}

#[test]
fn test_inode_deserialize_for_size_dispatch() {
    // v2 (128)
    let inode_v2 = Inode::new_file();
    let buf128 = inode_v2.serialize_for_size(128);
    let r = Inode::deserialize_for_size(&buf128, 128).unwrap();
    assert_eq!(r.mode, INODE_FILE);

    // v3 (256)
    let mut inode_v3 = Inode::new_file_v3(0o600);
    inode_v3.checksum = inode_v3.compute_checksum();
    let buf256 = inode_v3.serialize_for_size(256);
    let r = Inode::deserialize_for_size(&buf256, 256).unwrap();
    assert_eq!(r.mode, INODE_FILE);
    assert_eq!(r.permissions, 0o600);
}

#[test]
fn test_inode_init_extent_root() {
    let mut inode = Inode::new_file();
    assert_eq!(inode.flags & INODE_FLAG_EXTENTS, 0);
    inode.init_extent_root();
    assert!(inode.flags & INODE_FLAG_EXTENTS != 0);

    // direct_blocks[0] holds the first 8 bytes of the extent header:
    // magic=0xF30A, entries=0, max=7, depth=0
    let expected_db0 = u64::from_le_bytes([0x0A, 0xF3, 0x00, 0x00, 0x07, 0x00, 0x00, 0x00]);
    assert_eq!(inode.direct_blocks[0], expected_db0);
    // direct_blocks[1] holds generation=0 (low 4 bytes)
    assert_eq!(inode.direct_blocks[1], 0);
    // Remaining direct_blocks are zero
    for &db in &inode.direct_blocks[2..] {
        assert_eq!(db, 0);
    }
    assert_eq!(inode.indirect_block, 0);
    assert_eq!(inode.double_indirect, 0);
}
