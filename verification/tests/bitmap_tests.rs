use cfs::error::VolumeError;
use cfs::device::{CFSBlockDevice, MemBlockDevice};
use cfs::bitmap::Bitmap;

#[test]
fn test_alloc_sequential() {
    let mut bm = Bitmap::new_empty(100, 0, 1, 4096);
    let mut indices = Vec::new();
    for _ in 0..20 {
        let idx = bm.alloc_one().expect("alloc should succeed");
        assert!(idx < 100);
        assert!(!indices.contains(&idx));
        indices.push(idx);
    }
    assert_eq!(indices.len(), 20);
    // Should be sequential 0..20
    for (i, &idx) in indices.iter().enumerate() {
        assert_eq!(idx, i as u64);
    }
}

#[test]
fn test_free_and_realloc() {
    let mut bm = Bitmap::new_empty(100, 0, 1, 4096);
    // Alloc 10
    for _ in 0..10 {
        bm.alloc_one().unwrap();
    }
    // Free indices 3 and 7
    bm.free(3).unwrap();
    bm.free(7).unwrap();
    // Next two allocs should return 3, then 7 (first-fit)
    assert_eq!(bm.alloc_one(), Some(3));
    assert_eq!(bm.alloc_one(), Some(7));
}

#[test]
fn test_exhaustion() {
    let mut bm = Bitmap::new_empty(8, 0, 1, 4096);
    for i in 0..8 {
        assert_eq!(bm.alloc_one(), Some(i));
    }
    assert_eq!(bm.alloc_one(), None);
}

#[test]
fn test_double_free() {
    let mut bm = Bitmap::new_empty(16, 0, 1, 4096);
    let idx = bm.alloc_one().unwrap();
    bm.free(idx).unwrap();
    assert!(bm.free(idx).is_err());
}

#[test]
fn test_free_count() {
    let mut bm = Bitmap::new_empty(32, 0, 1, 4096);
    assert_eq!(bm.free_count(), 32);
    bm.alloc_one().unwrap();
    bm.alloc_one().unwrap();
    assert_eq!(bm.free_count(), 30);
    bm.free(0).unwrap();
    assert_eq!(bm.free_count(), 31);
}

#[test]
fn test_contiguous_bitmap_find_run() {
    let mut bm = Bitmap::new_all_free(100);
    // All free — should find run of 10 at bit 0
    assert_eq!(bm.find_contiguous_run(10, 0), Some(0));

    // Allocate bits 0-4
    for _ in 0..5 {
        bm.alloc_one();
    }

    // Now first free run of 10 should start at bit 5
    assert_eq!(bm.find_contiguous_run(10, 0), Some(5));

    // Fragment: allocate bit 10
    bm.set_allocated(10);
    // Run of 5 starting at 5 exists, but 10 blocks requires searching further
    assert_eq!(bm.find_contiguous_run(5, 0), Some(5));
    // Run of 6 starting at 5 is broken by bit 10 → search finds later run
    assert!(bm.find_contiguous_run(6, 0).is_some());
}

#[test]
fn test_contiguous_bitmap_too_large() {
    let bm = Bitmap::new_all_free(100);
    // Can't find 200 contiguous in a 100-bit bitmap
    assert_eq!(bm.find_contiguous_run(200, 0), None);
}

#[test]
fn test_save_load_roundtrip() {
    let mut dev = MemBlockDevice::new(1_048_576);
    let mut bm = Bitmap::new_empty(100, 3, 1, 4096);
    for _ in 0..15 {
        bm.alloc_one().unwrap();
    }
    bm.free(5).unwrap();
    bm.save(&mut dev).unwrap();
    dev.flush().unwrap();
    let mut bm2 = Bitmap::new_empty(100, 3, 1, 4096);
    bm2.load(&mut dev).unwrap();
    assert_eq!(bm2.free_count(), bm.free_count());
    assert!(bm2.is_free(5));
    assert!(!bm2.is_free(0));
    assert!(!bm2.is_free(14));
}

#[test]
fn checksummed_save_then_load_roundtrip() {
    let mut dev = MemBlockDevice::new(512 * 8);
    let mut bm = Bitmap::new_empty(1000, 2, 2, 512);
    for _ in 0..37 {
        bm.alloc_one().unwrap();
    }
    bm.save_with_checksums(&mut dev).unwrap();
    // the checksum of block 0 sits in the last four bytes of disk block 2
    let block = dev.read(2 * 512, 512).unwrap();
    assert_eq!(&block[508..512], &crc32fast::hash(&block[..508]).to_le_bytes());
    let mut loaded = Bitmap::new_empty(1000, 2, 2, 512);
    loaded.load_with_checksums(&mut dev).unwrap();
    assert_eq!(loaded.free_count(), 1000 - 37);
    for i in 0..37u64 {
        assert!(!loaded.is_free(i));
    }
    assert!(loaded.is_free(37));
}

#[test]
fn checksummed_load_detects_corruption() {
    let mut dev = MemBlockDevice::new(512 * 8);
    let mut bm = Bitmap::new_empty(1000, 2, 2, 512);
    bm.alloc_one().unwrap();
    bm.save_with_checksums(&mut dev).unwrap();
    dev.write(3 * 512 + 10, &[0xFF]).unwrap();
    let mut loaded = Bitmap::new_empty(1000, 2, 2, 512);
    assert_eq!(loaded.load_with_checksums(&mut dev), Err(VolumeError::ChecksumMismatch));
}

#[test]
fn contiguous_run_wraps_to_start() {
    let bm = Bitmap::new_all_free(16);
    assert_eq!(bm.find_contiguous_run(10, 8), Some(0));
    assert_eq!(bm.find_contiguous_run(10, 0), Some(0));
    assert_eq!(bm.find_contiguous_run(17, 0), None);
}
