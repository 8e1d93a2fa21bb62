use cfs::dir::DirEntry;
use cfs::htree::{
    binary_search_entries, dir_hash, fold_dir_hash, leaf_capacity, parse_leaf_entries, remove_entry_from_block,
    should_convert_to_htree, try_add_entry_to_block, write_entries_to_block, DxEntry, DxNode, DxRootInfo,
    HASH_VERSION_SIPHASH24,
};
use cfs::inode::{Inode, INODE_FLAG_HTREE};
use cfs::superblock::{Superblock, FEATURE_HTREE};
use std::hash::Hasher;

fn test_superblock() -> Superblock {
    let mut sb = Superblock::default();
    sb.block_size = 4096;
    sb.features_flags = FEATURE_HTREE;
    sb.hash_seed = [1, 2, 3, 4, 5, 6, 7, 8];
    sb
}

#[test]
fn test_dir_hash_deterministic() {
    let seed = [1, 2, 3, 4, 5, 6, 7, 8];
    let h1 = dir_hash(b"hello.txt", &seed);
    let h2 = dir_hash(b"hello.txt", &seed);
    assert_eq!(h1, h2);
}

#[test]
fn test_dir_hash_different_names() {
    let seed = [1, 2, 3, 4, 5, 6, 7, 8];
    let h1 = dir_hash(b"file_a.txt", &seed);
    let h2 = dir_hash(b"file_b.txt", &seed);
    assert_ne!(h1, h2);
}

#[test]
fn test_dir_hash_different_seeds() {
    let s1 = [1, 2, 3, 4, 5, 6, 7, 8];
    let s2 = [8, 7, 6, 5, 4, 3, 2, 1];
    let h1 = dir_hash(b"test", &s1);
    let h2 = dir_hash(b"test", &s2);
    assert_ne!(h1, h2);
}

#[test]
fn test_dir_hash_never_zero() {
    let seed = [0, 0, 0, 0, 0, 0, 0, 0];
    for i in 0..1000 {
        let name = format!("file_{}", i);
        assert_ne!(dir_hash(name.as_bytes(), &seed), 0);
    }
}

#[test]
fn test_dir_hash_empty_name() {
    let seed = [1, 2, 3, 4, 5, 6, 7, 8];
    let h = dir_hash(b"", &seed);
    assert_ne!(h, 0);
}

#[test]
fn test_dir_hash_long_name() {
    let seed = [1, 2, 3, 4, 5, 6, 7, 8];
    let long_name = "a".repeat(122);
    let h = dir_hash(long_name.as_bytes(), &seed);
    assert_ne!(h, 0);
}

#[test]
fn test_dir_hash_distribution() {
    let seed = [42, 43, 44, 45, 46, 47, 48, 49];
    let mut buckets = vec![0u32; 256];
    let n = 10_000;
    for i in 0..n {
        let name = format!("test_file_{:06}", i);
        let h = dir_hash(name.as_bytes(), &seed);
        buckets[(h & 0xFF) as usize] += 1;
    }
    let expected = n as f64 / 256.0;
    let chi2: f64 = buckets
        .iter()
        .map(|&b| {
            let diff = b as f64 - expected;
            diff * diff / expected
        })
        .sum();
    assert!(chi2 < 400.0, "poor hash distribution: chi2={:.1}", chi2);
}

#[test]
fn test_dir_hash_matches_siphash_of_seed_keys() {
    let seed = [1, 2, 3, 4, 5, 6, 7, 8];
    let k0 = u64::from_le_bytes(seed);
    let mut h = siphasher::sip::SipHasher::new_with_keys(k0, k0 ^ 0x5A5A_5A5A_5A5A_5A5A);
    h.write(b"hello.txt");
    let low = (h.finish() & 0xFFFF_FFFF) as u32;
    let expected = if low == 0 { 1 } else { low };
    assert_eq!(dir_hash(b"hello.txt", &seed), expected);
}

#[test]
fn test_fold_dir_hash() {
    assert_eq!(fold_dir_hash(0), 1);
    assert_eq!(fold_dir_hash(0xFFFF_FFFF_0000_0000), 1);
    assert_eq!(fold_dir_hash(0x1234_5678_9ABC_DEF0), 0x9ABC_DEF0);
}

#[test]
fn test_dx_entry_roundtrip() {
    let e = DxEntry::new(0xDEAD_BEEF, 42);
    let buf = e.serialize();
    let e2 = DxEntry::deserialize(&buf);
    assert_eq!(e, e2);
}

#[test]
fn test_dx_entry_byte_layout() {
    let buf = DxEntry::new(0x0403_0201, 0x0807_0605).serialize();
    assert_eq!(buf, [1, 2, 3, 4, 5, 6, 7, 8]);
}

#[test]
fn test_dx_root_info_roundtrip() {
    let seed = [10, 20, 30, 40, 50, 60, 70, 80];
    let info = DxRootInfo::new(&seed, 4096);
    let mut buf = [0u8; 24];
    info.serialize(&mut buf);
    let info2 = DxRootInfo::deserialize(&buf).unwrap();
    assert_eq!(info2.hash_version, HASH_VERSION_SIPHASH24);
    assert_eq!(info2.depth, 0);
    assert_eq!(info2.count, 1);
    assert_eq!(info2.hash_seed_copy, seed);
}

#[test]
fn test_dx_root_info_too_short() {
    assert_eq!(DxRootInfo::deserialize(&[0u8; 23]).unwrap_err(), cfs::error::VolumeError::TooShort);
}

#[test]
fn test_dx_root_info_compute_limit_4k() {
    let limit = DxRootInfo::compute_limit(4096);
    assert_eq!(limit, 492);
}

#[test]
fn test_dx_root_info_compute_limit_8k() {
    let limit = DxRootInfo::compute_limit(8192);
    assert_eq!(limit, 1004);
}

#[test]
fn test_dx_node_roundtrip() {
    let mut node = DxNode::new(4096);
    node.entries.push(DxEntry::new(0, 5));
    node.entries.push(DxEntry::new(100, 8));
    node.count = 2;

    let buf = node.serialize(4096);
    let node2 = DxNode::deserialize(&buf).unwrap();
    assert_eq!(node2.count, 2);
    assert_eq!(node2.entries.len(), 2);
    assert_eq!(node2.entries[0], DxEntry::new(0, 5));
    assert_eq!(node2.entries[1], DxEntry::new(100, 8));
}

#[test]
fn test_dx_node_block_is_checksummed() {
    let node = DxNode::new(4096);
    let buf = node.serialize(4096);
    assert_eq!(buf.len(), 4096);
    assert_eq!(cfs::dir::verify_dir_block_checksum(&buf, 4096), Ok(()));
    assert_eq!(DxNode::deserialize(&buf[..31]).unwrap_err(), cfs::error::VolumeError::TooShort);
}

#[test]
fn test_dx_node_compute_limit_4k() {
    let limit = DxNode::compute_limit(4096);
    assert_eq!(limit, 492);
}

#[test]
fn test_binary_search_single_entry() {
    let entries = vec![DxEntry::new(0, 5)];
    assert_eq!(binary_search_entries(&entries, 0), 5);
    assert_eq!(binary_search_entries(&entries, 999), 5);
}

#[test]
fn test_binary_search_multiple() {
    let entries = vec![DxEntry::new(0, 10), DxEntry::new(100, 20), DxEntry::new(200, 30)];
    assert_eq!(binary_search_entries(&entries, 50), 10);
    assert_eq!(binary_search_entries(&entries, 100), 20);
    assert_eq!(binary_search_entries(&entries, 150), 20);
    assert_eq!(binary_search_entries(&entries, 200), 30);
    assert_eq!(binary_search_entries(&entries, 999), 30);
}

#[test]
fn test_binary_search_exact_boundaries() {
    let entries = vec![DxEntry::new(0, 1), DxEntry::new(50, 2)];
    assert_eq!(binary_search_entries(&entries, 0), 1);
    assert_eq!(binary_search_entries(&entries, 49), 1);
    assert_eq!(binary_search_entries(&entries, 50), 2);
    assert_eq!(binary_search_entries(&entries, 51), 2);
}

#[test]
fn test_binary_search_empty_and_below_first() {
    assert_eq!(binary_search_entries(&[], 7), 0);
    let entries = vec![DxEntry::new(10, 3), DxEntry::new(20, 4)];
    assert_eq!(binary_search_entries(&entries, 5), 3);
}

#[test]
fn test_leaf_capacity_4k() {
    assert_eq!(leaf_capacity(4096), 31);
}

#[test]
fn test_write_parse_roundtrip() {
    let entries = vec![DirEntry::new(1, 1, "foo.txt").unwrap(), DirEntry::new(2, 2, "bar").unwrap()];
    let mut buf = vec![0u8; 4096];
    write_entries_to_block(&mut buf, &entries, 4096);
    let parsed = parse_leaf_entries(&buf, 4096);
    assert_eq!(parsed.len(), 2);
    assert_eq!(parsed[0].name_str(), "foo.txt");
    assert_eq!(parsed[1].name_str(), "bar");
}

#[test]
fn test_write_entries_clears_and_caps() {
    let mut buf = vec![0xAAu8; 1024];
    let entries: Vec<DirEntry> = (0..10).map(|i| DirEntry::new(i + 1, 1, &format!("f{}", i)).unwrap()).collect();
    write_entries_to_block(&mut buf, &entries, 1024);
    // 1024-byte blocks hold 7 entries; the rest of the block is zeroed.
    let parsed = parse_leaf_entries(&buf, 1024);
    assert_eq!(parsed.len(), 7);
    assert_eq!(parsed[6].inode_index, 7);
    assert!(buf[7 * 128..].iter().all(|&b| b == 0));
}

#[test]
fn test_try_add_and_remove() {
    let mut buf = vec![0u8; 4096];
    let e1 = DirEntry::new(1, 1, "hello.txt").unwrap();
    assert!(try_add_entry_to_block(&mut buf, &e1, 4096));

    let e2 = DirEntry::new(2, 2, "world").unwrap();
    assert!(try_add_entry_to_block(&mut buf, &e2, 4096));

    let entries = parse_leaf_entries(&buf, 4096);
    assert_eq!(entries.len(), 2);

    assert!(remove_entry_from_block(&mut buf, "hello.txt", 4096));
    let entries2 = parse_leaf_entries(&buf, 4096);
    assert_eq!(entries2.len(), 1);
    assert_eq!(entries2[0].name_str(), "world");
}

#[test]
fn test_try_add_full_block_and_remove_missing() {
    let mut buf = vec![0u8; 256];
    let e = DirEntry::new(1, 1, "a").unwrap();
    assert!(try_add_entry_to_block(&mut buf, &e, 256));
    let before = buf.clone();
    // A 256-byte block has one entry slot.
    assert!(!try_add_entry_to_block(&mut buf, &e, 256));
    assert_eq!(buf, before);
    assert!(!remove_entry_from_block(&mut buf, "b", 256));
    assert_eq!(buf, before);
}

#[test]
fn test_should_convert_not_dir() {
    let mut inode = Inode::new_file();
    inode.block_count = 1;
    inode.size = 4096;
    let sb = test_superblock();
    assert!(!should_convert_to_htree(&inode, &sb));
}

#[test]
fn test_should_convert_already_htree() {
    let mut inode = Inode::new_dir();
    inode.flags |= INODE_FLAG_HTREE;
    inode.block_count = 1;
    inode.size = 4096;
    let sb = test_superblock();
    assert!(!should_convert_to_htree(&inode, &sb));
}

#[test]
fn test_should_convert_feature_disabled() {
    let mut inode = Inode::new_dir();
    inode.block_count = 1;
    inode.size = 4096;
    let mut sb = test_superblock();
    sb.features_flags &= !FEATURE_HTREE;
    assert!(!should_convert_to_htree(&inode, &sb));
}

#[test]
fn test_should_convert_small_dir() {
    let inode = Inode::new_dir();
    let sb = test_superblock();
    assert!(!should_convert_to_htree(&inode, &sb));
}

#[test]
fn test_should_convert_trigger() {
    let mut inode = Inode::new_dir();
    inode.block_count = 2;
    inode.size = 8192;
    let sb = test_superblock();
    assert!(should_convert_to_htree(&inode, &sb));
}
