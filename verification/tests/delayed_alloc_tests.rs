use std::collections::BTreeMap;
use cfs::delayed_alloc::{group_contiguous_ranges, DelayedAllocManager};

#[test]
fn test_reserve_basic() {
    let mut da = DelayedAllocManager::new(4096);
    let data = vec![0xABu8; 4096];
    da.reserve(100, 1, 0, data).unwrap();
    assert_eq!(da.total_reserved(), 1);
    assert!(da.has_pending(1));
}

#[test]
fn test_reserve_overwrite() {
    let mut da = DelayedAllocManager::new(4096);
    da.reserve(100, 1, 0, vec![0u8; 4096]).unwrap();
    da.reserve(100, 1, 0, vec![1u8; 4096]).unwrap();
    assert_eq!(da.total_reserved(), 1); // no double-count
}

#[test]
fn test_reserve_enospc() {
    let mut da = DelayedAllocManager::new(4096);
    let result = da.reserve(0, 1, 0, vec![0u8; 4096]);
    assert!(result.is_err());
    assert!(result.unwrap_err().to_string().contains("ENOSPC"));
}

#[test]
fn test_reserve_near_full() {
    let mut da = DelayedAllocManager::new(4096);
    // Reserve until 1 block left
    da.reserve(2, 1, 0, vec![0u8; 4096]).unwrap();
    da.reserve(2, 1, 1, vec![0u8; 4096]).unwrap(); // last block
    let result = da.reserve(2, 1, 2, vec![0u8; 4096]);
    assert!(result.is_err()); // ENOSPC
}

#[test]
fn test_read_pending() {
    let mut da = DelayedAllocManager::new(4096);
    let data = vec![0x42u8; 4096];
    da.reserve(100, 1, 5, data.clone()).unwrap();
    let read = da.read_pending(1, 5).unwrap();
    assert_eq!(read, &data[..]);
    assert!(da.read_pending(1, 6).is_none());
}

#[test]
fn test_discard_inode() {
    let mut da = DelayedAllocManager::new(4096);
    for i in 0..5 {
        da.reserve(100, 1, i, vec![0u8; 4096]).unwrap();
    }
    assert_eq!(da.total_reserved(), 5);
    da.discard_inode(1);
    assert_eq!(da.total_reserved(), 0);
    assert!(!da.has_pending(1));
}

#[test]
fn test_group_contiguous_ranges() {
    let mut map = BTreeMap::new();
    map.insert(5, vec![5u8; 4096]);
    map.insert(6, vec![6u8; 4096]);
    map.insert(7, vec![7u8; 4096]);
    map.insert(20, vec![20u8; 4096]);
    map.insert(21, vec![21u8; 4096]);

    let ranges = group_contiguous_ranges(map);
    assert_eq!(ranges.len(), 2);
    assert_eq!(ranges[0].start_logical, 5);
    assert_eq!(ranges[0].blocks.len(), 3);
    assert_eq!(ranges[1].start_logical, 20);
    assert_eq!(ranges[1].blocks.len(), 2);
}
