use cfs::dir::{
    block_has_checksum, entries_per_block_v2, entries_per_block_v3, stamp_checksum, verify_dir_block_checksum, DirEntry,
    DIR_CHECKSUM_MAGIC, MAX_NAME_LEN,
};
use cfs::error::VolumeError;
use cfs::INODE_FILE;

#[test]
fn test_dir_entry_serialize_roundtrip() {
    let entry = DirEntry::new(5, INODE_FILE as u8, "hello.txt").unwrap();
    let buf = entry.serialize();
    let entry2 = DirEntry::deserialize(&buf);
    assert_eq!(entry2.inode_index, 5);
    assert_eq!(entry2.file_type, INODE_FILE as u8);
    assert_eq!(entry2.name_str(), "hello.txt");
    assert_eq!(entry2.name_len, 9);
}

#[test]
fn test_dir_entry_max_name() {
    let long_name = "a".repeat(MAX_NAME_LEN);
    let entry = DirEntry::new(1, INODE_FILE as u8, &long_name).unwrap();
    let buf = entry.serialize();
    let entry2 = DirEntry::deserialize(&buf);
    assert_eq!(entry2.name_str(), long_name);
    assert_eq!(entry2.name_len as usize, MAX_NAME_LEN);
}

#[test]
fn test_dir_entry_name_too_long() {
    let too_long = "a".repeat(MAX_NAME_LEN + 1);
    assert!(DirEntry::new(1, INODE_FILE as u8, &too_long).is_err());
}

#[test]
fn test_dir_entry_unused() {
    let entry = DirEntry { inode_index: 0, file_type: 0, name_len: 0, name: [0u8; MAX_NAME_LEN] };
    assert!(entry.is_unused());

    // The root's "." has inode 0 but a name: not unused.
    let dot = DirEntry::new(0, 2, ".").unwrap();
    assert!(!dot.is_unused());

    let real = DirEntry::new(3, INODE_FILE as u8, "test").unwrap();
    assert!(!real.is_unused());
}

#[test]
fn test_dir_entry_name_validation() {
    assert!(DirEntry::new(1, INODE_FILE as u8, "bad\0name").is_err());
    assert!(DirEntry::new(1, INODE_FILE as u8, "bad/name").is_err());
    assert!(DirEntry::new(1, INODE_FILE as u8, "bad\\name").is_err());
    assert!(DirEntry::new(1, INODE_FILE as u8, "").is_err());
    assert!(DirEntry::new(1, INODE_FILE as u8, "bad:name").is_err());
    assert!(DirEntry::new(1, INODE_FILE as u8, "bad|name").is_err());
    assert!(DirEntry::new(1, INODE_FILE as u8, "bad?name").is_err());
    assert!(DirEntry::new(1, INODE_FILE as u8, "bad*name").is_err());
    assert!(DirEntry::new(1, INODE_FILE as u8, "bad<name").is_err());
    assert!(DirEntry::new(1, INODE_FILE as u8, "bad>name").is_err());
    assert!(DirEntry::new(1, INODE_FILE as u8, "bad\"name").is_err());
    assert!(DirEntry::new(1, INODE_FILE as u8, "bad\x01name").is_err());
    assert!(DirEntry::new(1, INODE_FILE as u8, "trailing ").is_err());
    assert!(DirEntry::new(1, INODE_FILE as u8, "trailing.").is_err());
    assert!(DirEntry::new(1, INODE_FILE as u8, "CON").is_err());
    assert!(DirEntry::new(1, INODE_FILE as u8, "NUL").is_err());
    assert!(DirEntry::new(1, INODE_FILE as u8, "COM1").is_err());
    assert!(DirEntry::new(1, INODE_FILE as u8, "LPT9").is_err());
    assert!(DirEntry::new(1, INODE_FILE as u8, "nul.txt").is_err());
    assert!(DirEntry::new(1, INODE_FILE as u8, "valid.txt").is_ok());
    assert!(DirEntry::new(1, INODE_FILE as u8, "CONSOLE.txt").is_ok());
    assert!(DirEntry::new(0, 2, ".").is_ok());
    assert!(DirEntry::new(0, 2, "..").is_ok());
}

#[test]
fn test_dir_entry_invalid_name_error_kind() {
    assert_eq!(DirEntry::new(1, 1, "a/b").unwrap_err(), VolumeError::Invalid);
    assert_eq!(DirEntry::new(1, 1, "com7.log").unwrap_err(), VolumeError::Invalid);
    assert!(DirEntry::new(1, 1, "com10.log").is_ok());
}

#[test]
fn test_dir_entry_name_padded_with_zeros() {
    let e = DirEntry::new(9, 1, "ab").unwrap();
    assert_eq!(&e.name[..2], b"ab");
    assert!(e.name[2..].iter().all(|&b| b == 0));
    let bytes = e.serialize();
    assert_eq!(bytes.len(), 128);
    assert_eq!(&bytes[0..4], &9u32.to_le_bytes());
}

#[test]
fn test_entries_per_block() {
    assert_eq!(entries_per_block_v2(4096), 32);
    assert_eq!(entries_per_block_v3(4096), 31);
    assert_eq!(entries_per_block_v3(1024), 7);
}

#[test]
fn test_dir_block_checksum_stamp_and_verify() {
    let mut block = vec![0u8; 4096];
    let e = DirEntry::new(4, 1, "x.txt").unwrap().serialize();
    block[..128].copy_from_slice(&e);
    assert!(!block_has_checksum(&block, 4096));
    stamp_checksum(&mut block, 4096);
    assert!(block_has_checksum(&block, 4096));
    assert_eq!(u32::from_le_bytes([block[3968], block[3969], block[3970], block[3971]]), DIR_CHECKSUM_MAGIC);
    assert_eq!(verify_dir_block_checksum(&block, 4096), Ok(()));
    // The stored CRC must be the CRC-32 of the entry area, not a copy of it.
    let stored = u32::from_le_bytes([block[3972], block[3973], block[3974], block[3975]]);
    assert_eq!(stored, crc32fast::hash(&block[..3968]));
    block[5] ^= 0xFF;
    assert_eq!(verify_dir_block_checksum(&block, 4096), Err(VolumeError::ChecksumMismatch));
    assert_eq!(verify_dir_block_checksum(&block[..100], 4096), Err(VolumeError::TooShort));
}
