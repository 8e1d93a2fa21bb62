use cfs::bitmap::Bitmap;
use cfs::block_alloc::{alloc_blocks, free_blocks};
use cfs::superblock::Superblock;
use cfs::block_alloc::BlockAlloc;
use cfs::device::MemBlockDevice;
use cfs::group::GroupDescriptor;
use cfs::group_alloc::GroupBitmapManager;

fn make_test_state(data_blocks: u64) -> (Bitmap, Superblock) {
    let bm = Bitmap::new_empty(data_blocks, 3, 1, 4096);
    let sb = Superblock {
        magic: *b"CFS1",
        version: 2,
        block_size: 4096,
        features_flags: 0,
        total_blocks: data_blocks + 4,
        inode_count: 4,
        root_inode: 0,
        inode_table_start: 1,
        bitmap_start: 3,
        data_start: 4,
        free_blocks: data_blocks,
        inode_bitmap_start: 0,
        free_inodes: 3,
        uuid: [0u8; 16],
        volume_label: [0u8; 32],
        mount_count: 0,
        last_mount_time: 0,
        backup_sb_block: 0,
        checksum: 0,
        // v3 defaults
        inode_size: 128,
        journal_start: 0,
        journal_blocks: 0,
        first_orphan_inode: 0,
        error_behavior: 0,
        default_permissions: 0o755,
        inode_ratio: 16384,
        journal_sequence: 0,
        metadata_hmac: [0u8; 8],
        dir_entry_size: 128,
        blocks_per_group: 0,
        inodes_per_group: 0,
        group_count: 0,
        gdt_start: 0,
        gdt_blocks: 0,
        desc_size: 0,
        reserved_gdt_blocks: 0,
        log_groups_per_flex: 0,
        first_group_block: 0,
        hash_seed: [0u8; 8],
    };
    (bm, sb)
}

#[test]
fn test_alloc_decrements_free_blocks() {
    let (mut bm, mut sb) = make_test_state(100);
    let blocks = alloc_blocks(&mut bm, &mut sb, 10).unwrap();
    assert_eq!(blocks.len(), 10);
    assert_eq!(sb.free_blocks, 90);
}

#[test]
fn test_free_increments_free_blocks() {
    let (mut bm, mut sb) = make_test_state(100);
    let blocks = alloc_blocks(&mut bm, &mut sb, 10).unwrap();
    free_blocks(&mut bm, &mut sb, &blocks[..5]).unwrap();
    assert_eq!(sb.free_blocks, 95);
}

#[test]
fn test_alloc_fails_when_full() {
    let (mut bm, mut sb) = make_test_state(8);
    let _all = alloc_blocks(&mut bm, &mut sb, 8).unwrap();
    assert_eq!(sb.free_blocks, 0);
    assert!(alloc_blocks(&mut bm, &mut sb, 1).is_err());
}

#[test]
fn test_alloc_free_stress() {
    let (mut bm, mut sb) = make_test_state(100);
    let blocks = alloc_blocks(&mut bm, &mut sb, 50).unwrap();
    assert_eq!(sb.free_blocks, 50);

    // Free even indices
    let even: Vec<u64> = blocks.iter().copied().filter(|i| i % 2 == 0).collect();
    let freed_count = even.len() as u64;
    free_blocks(&mut bm, &mut sb, &even).unwrap();
    assert_eq!(sb.free_blocks, 50 + freed_count);

    // Alloc 25 more
    let more = alloc_blocks(&mut bm, &mut sb, 25).unwrap();
    assert_eq!(more.len(), 25);
    assert_eq!(sb.free_blocks, 50 + freed_count - 25);
}

#[test]
fn alloc_contiguous_flat_takes_one_run() {
    let (bm, mut sb) = make_test_state(64);
    let mut dev = MemBlockDevice::new(4096 * 80);
    let mut ba = BlockAlloc::Legacy { bitmap: bm, data_start: 4 };
    let runs = ba.alloc_contiguous(&mut dev, &mut sb, 5, 0).unwrap();
    assert_eq!(runs.len(), 1);
    assert_eq!(runs[0].start, 4);
    assert_eq!(runs[0].count, 5);
    assert_eq!(sb.free_blocks, 59);
    assert!(ba.alloc_contiguous(&mut dev, &mut sb, 0, 0).unwrap().is_empty());
    assert_eq!(ba.alloc_contiguous(&mut dev, &mut sb, 100, 0), Err(cfs::error::VolumeError::NoSpace));
}

#[test]
fn alloc_contiguous_groups_prefers_hint_then_splits() {
    let mut dev = MemBlockDevice::new(4096 * 420);
    let gdt: Vec<GroupDescriptor> = (0..4u64)
        .map(|g| {
            let start = 10 + g * 100;
            GroupDescriptor::new(start, start + 1, start + 2, 100, 64, 90, true)
        })
        .collect();
    let gbm = GroupBitmapManager::new(4096, 100, 4, 10, 10);
    let mut sb = make_test_state(360).1;
    sb.free_blocks = 360;
    let mut ba = BlockAlloc::Group { gbm, gdt };
    let runs = ba.alloc_contiguous(&mut dev, &mut sb, 20, 2).unwrap();
    assert_eq!(runs.len(), 1);
    assert_eq!(runs[0].start, 10 + 2 * 100 + 10);
    assert_eq!(runs[0].count, 20);
    assert_eq!(sb.free_blocks, 340);
    // 150 blocks fit in no single group: runs from several groups.
    let runs = ba.alloc_contiguous(&mut dev, &mut sb, 150, 0).unwrap();
    let total: u64 = runs.iter().map(|r| r.count).sum();
    assert_eq!(total, 150);
    assert!(runs.len() >= 2);
    assert_eq!(sb.free_blocks, 190);
}
