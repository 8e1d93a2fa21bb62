use cfs::device::{CFSBlockDevice, MemBlockDevice};
use cfs::inode::{Inode, InodeTable};
use cfs::{INODE_DIR, INODE_FILE};

fn make_dev() -> MemBlockDevice {
    MemBlockDevice::new(1_048_576)
}

#[test]
fn test_inode_table_read_write() {
    let mut dev = make_dev();
    let table = InodeTable::new(1, 64, 4096);
    let zero_block = [0u8; 4096];
    dev.write(4096, &zero_block).unwrap();
    dev.write(8192, &zero_block).unwrap();
    let mut inode0 = Inode::new_dir();
    inode0.size = 111;
    table.write_inode(&mut dev, 0, &inode0).unwrap();
    let mut inode5 = Inode::new_file();
    inode5.size = 555;
    table.write_inode(&mut dev, 5, &inode5).unwrap();
    let mut inode31 = Inode::new_file();
    inode31.size = 3131;
    table.write_inode(&mut dev, 31, &inode31).unwrap();
    let r0 = table.read_inode(&mut dev, 0).unwrap();
    assert_eq!(r0.mode, INODE_DIR);
    assert_eq!(r0.size, 111);
    let r5 = table.read_inode(&mut dev, 5).unwrap();
    assert_eq!(r5.mode, INODE_FILE);
    assert_eq!(r5.size, 555);
    let r31 = table.read_inode(&mut dev, 31).unwrap();
    assert_eq!(r31.size, 3131);
}

#[test]
fn test_inode_table_out_of_range() {
    let mut dev = make_dev();
    let table = InodeTable::new(1, 64, 4096);
    assert!(table.read_inode(&mut dev, 64).is_err());
    assert!(table.read_inode(&mut dev, 100).is_err());
}

#[test]
fn test_multiple_inodes_same_block() {
    let mut dev = make_dev();
    let table = InodeTable::new(1, 64, 4096);
    let zero_block = [0u8; 4096];
    dev.write(4096, &zero_block).unwrap();
    let mut i0 = Inode::new_dir();
    i0.size = 1000;
    table.write_inode(&mut dev, 0, &i0).unwrap();
    let mut i1 = Inode::new_file();
    i1.size = 2000;
    table.write_inode(&mut dev, 1, &i1).unwrap();
    let r0 = table.read_inode(&mut dev, 0).unwrap();
    assert_eq!(r0.mode, INODE_DIR);
    assert_eq!(r0.size, 1000);
    let r1 = table.read_inode(&mut dev, 1).unwrap();
    assert_eq!(r1.mode, INODE_FILE);
    assert_eq!(r1.size, 2000);
}

#[test]
fn test_inode_v3_serialize_roundtrip() {
    let mut inode = Inode::new_file_v3(0o644);
    inode.size = 99999;
    inode.block_count = 42;
    inode.direct_blocks[0] = 500;
    inode.direct_blocks[5] = 600;
    inode.indirect_block = 777;
    inode.double_indirect = 888;
    inode.owner_id = 1000;
    inode.group_id = 1001;
    inode.xattr_block = 12345;
    inode.xattr_inline_size = 16;
    inode.block_count_hi = 7;
    inode.inline_area[0] = 0xAA;
    inode.inline_area[75] = 0xBB;
    inode.checksum = inode.compute_checksum();
    let buf = inode.serialize_v3();
    assert_eq!(buf.len(), 256);
    let inode2 = Inode::deserialize_v3(&buf).unwrap();
    assert_eq!(inode, inode2);
}

#[test]
fn test_inode_v3_dir_roundtrip() {
    let mut inode = Inode::new_dir_v3(0o755);
    inode.size = 4096;
    inode.block_count = 1;
    inode.direct_blocks[0] = 42;
    inode.checksum = inode.compute_checksum();
    let buf = inode.serialize_v3();
    let inode2 = Inode::deserialize_v3(&buf).unwrap();
    assert_eq!(inode.mode, inode2.mode);
    assert_eq!(inode.nlinks, inode2.nlinks);
    assert_eq!(inode.permissions, inode2.permissions);
    assert_eq!(inode.flags, inode2.flags);
}

#[test]
fn test_inode_v3_checksum_corrupt() {
    let mut inode = Inode::new_file_v3(0o600);
    inode.size = 1024;
    inode.checksum = inode.compute_checksum();
    let mut buf = inode.serialize_v3();
    buf[10] ^= 0xFF;
    let result = Inode::deserialize_v3(&buf);
    assert!(result.is_err());
}

#[test]
fn test_inode_table_v3_read_write() {
    let mut dev = make_dev();
    let table = InodeTable::new_with_inode_size(1, 32, 4096, 256);
    assert_eq!(table.inodes_per_block(), 16);
    let zero_block = [0u8; 4096];
    dev.write(4096, &zero_block).unwrap();
    dev.write(8192, &zero_block).unwrap();
    let mut inode = Inode::new_file_v3(0o644);
    inode.size = 12345;
    inode.block_count = 3;
    inode.owner_id = 1000;
    inode.checksum = inode.compute_checksum();
    table.write_inode(&mut dev, 0, &inode).unwrap();
    let r = table.read_inode(&mut dev, 0).unwrap();
    assert_eq!(r.size, 12345);
    assert_eq!(r.block_count, 3);
    assert_eq!(r.owner_id, 1000);
    assert_eq!(r.permissions, 0o644);
}

#[test]
fn test_inode_table_v3_16_per_block() {
    let mut dev = make_dev();
    let table = InodeTable::new_with_inode_size(1, 32, 4096, 256);
    let zero_block = [0u8; 4096];
    dev.write(4096, &zero_block).unwrap();
    dev.write(8192, &zero_block).unwrap();
    let mut i0 = Inode::new_dir_v3(0o755);
    i0.size = 111;
    i0.checksum = i0.compute_checksum();
    table.write_inode(&mut dev, 0, &i0).unwrap();
    let mut i15 = Inode::new_file_v3(0o600);
    i15.size = 1515;
    i15.checksum = i15.compute_checksum();
    table.write_inode(&mut dev, 15, &i15).unwrap();
    let r0 = table.read_inode(&mut dev, 0).unwrap();
    assert_eq!(r0.mode, INODE_DIR);
    assert_eq!(r0.size, 111);
    let r15 = table.read_inode(&mut dev, 15).unwrap();
    assert_eq!(r15.mode, INODE_FILE);
    assert_eq!(r15.size, 1515);
}

#[test]
fn test_inode_table_v2_compat() {
    let mut dev = make_dev();
    let table = InodeTable::new(1, 64, 4096);
    assert_eq!(table.inode_size, 128);
    assert_eq!(table.inodes_per_block(), 32);
    let zero_block = [0u8; 4096];
    dev.write(4096, &zero_block).unwrap();
    let mut inode = Inode::new_file();
    inode.size = 42;
    table.write_inode(&mut dev, 0, &inode).unwrap();
    let r = table.read_inode(&mut dev, 0).unwrap();
    assert_eq!(r.mode, INODE_FILE);
    assert_eq!(r.size, 42);
}

#[test]
fn test_inode_table_cross_block() {
    let mut dev = make_dev();
    let table = InodeTable::new_with_inode_size(1, 32, 4096, 256);
    let zero_block = [0u8; 4096];
    dev.write(4096, &zero_block).unwrap();
    dev.write(8192, &zero_block).unwrap();
    let mut inode = Inode::new_file_v3(0o755);
    inode.size = 9876;
    inode.checksum = inode.compute_checksum();
    table.write_inode(&mut dev, 16, &inode).unwrap();
    let r = table.read_inode(&mut dev, 16).unwrap();
    assert_eq!(r.size, 9876);
    assert_eq!(r.permissions, 0o755);
}
