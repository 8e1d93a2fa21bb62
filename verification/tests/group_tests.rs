use cfs::group::{compute_group_layout, orlov_select_group, GroupDescriptor, BG_BLOCK_UNINIT, BG_INODE_UNINIT, BG_INODE_ZEROED};
use cfs::group_alloc::{GroupBitmapManager, GroupInodeTable};

#[test]
fn test_group_desc_serialize_roundtrip() {
    let desc = GroupDescriptor::new(100, 101, 102, 32768, 8112, 32259, false);
    let buf = desc.serialize();
    let desc2 = GroupDescriptor::deserialize(&buf).unwrap();
    assert_eq!(desc2.bg_block_bitmap, 100);
    assert_eq!(desc2.bg_inode_bitmap, 101);
    assert_eq!(desc2.bg_inode_table, 102);
    assert_eq!(desc2.bg_free_blocks, 32259);
    assert_eq!(desc2.bg_free_inodes, 8112);
    assert_eq!(desc2.bg_used_dirs, 0);
    assert_eq!(desc2.bg_blocks_count, 32768);
    assert_eq!(desc2.bg_flags, BG_INODE_ZEROED);
}

#[test]
fn test_group_desc_checksum_valid() {
    let desc = GroupDescriptor::new(10, 11, 12, 1000, 256, 900, true);
    let buf = desc.serialize();
    // Deserialize should succeed (checksum valid)
    GroupDescriptor::deserialize(&buf).unwrap();
}

#[test]
fn test_group_desc_checksum_corrupt() {
    let desc = GroupDescriptor::new(10, 11, 12, 1000, 256, 900, true);
    let mut buf = desc.serialize();
    // Flip a byte in the checksummed region
    buf[30] ^= 0xFF;
    let result = GroupDescriptor::deserialize(&buf);
    assert!(result.is_err());
    assert!(result.unwrap_err().to_string().contains("checksum mismatch"));
}

#[test]
fn test_group_desc_last_group_smaller() {
    let desc = GroupDescriptor::new(50, 51, 52, 100, 256, 90, false);
    let buf = desc.serialize();
    let desc2 = GroupDescriptor::deserialize(&buf).unwrap();
    assert_eq!(desc2.bg_blocks_count, 100);
}

#[test]
fn test_group_desc_lazy_flags() {
    let desc = GroupDescriptor::new(10, 11, 12, 32768, 8112, 32259, true);
    assert_eq!(desc.bg_flags, BG_INODE_UNINIT | BG_BLOCK_UNINIT);
}

#[test]
fn test_group_desc_no_lazy_flags() {
    let desc = GroupDescriptor::new(10, 11, 12, 32768, 8112, 32259, false);
    assert_eq!(desc.bg_flags, BG_INODE_ZEROED);
}

#[test]
fn test_group_desc_zero_dirs() {
    let desc = GroupDescriptor::new(10, 11, 12, 32768, 8112, 32259, true);
    assert_eq!(desc.bg_used_dirs, 0);
}

#[test]
fn test_layout_4gb_default() {
    let total_blocks = 4 * 1024 * 1024 * 1024u64 / 4096; // 1_048_576
    let layout = compute_group_layout(total_blocks, 4096, 256, 16384, 32768, 10486).unwrap();
    assert!(layout.group_count > 0);
    assert_eq!(layout.blocks_per_group, 32768);
    assert!(layout.inodes_per_group > 0);
    assert!(layout.data_blocks_per_group > 0);
    assert!(layout.first_group_block > 0);
}

#[test]
fn test_layout_1tb_large_files() {
    let total_blocks = 1024u64 * 1024 * 1024 * 1024 / 16384; // 67_108_864
    let layout =
        compute_group_layout(total_blocks, 16384, 256, 65536, 131072, 335544).unwrap();
    assert!(layout.group_count > 0);
    assert_eq!(layout.blocks_per_group, 131072);
    assert!(layout.gdt_blocks >= 1);
}

#[test]
fn test_layout_too_small() {
    // 3 blocks total — not enough for superblock + GDT + reserved + backup + any group
    let result = compute_group_layout(3, 4096, 256, 16384, 32768, 0);
    assert!(result.is_err());
}

#[test]
fn test_layout_100mb_default() {
    let total_blocks = 100 * 1024 * 1024u64 / 4096; // 25600
    let layout = compute_group_layout(total_blocks, 4096, 256, 16384, 32768, 0).unwrap();
    assert!(layout.group_count >= 1);
}

#[test]
fn test_layout_last_group_smaller() {
    // Pick a total that doesn't divide evenly by blocks_per_group
    let total_blocks = 50000u64;
    let layout = compute_group_layout(total_blocks, 4096, 256, 16384, 32768, 0).unwrap();
    if layout.group_count > 1 {
        assert!(layout.last_group_blocks <= layout.blocks_per_group);
    }
}

#[test]
fn test_layout_last_group_exact() {
    // Force exact multiple: overhead + N * bpg
    let bpg = 32768u64;
    let layout_probe = compute_group_layout(bpg * 4, 4096, 256, 16384, 32768, 0).unwrap();
    // If the total happens to divide exactly, last_group_blocks == blocks_per_group
    if layout_probe.last_group_blocks == layout_probe.blocks_per_group {
        assert_eq!(layout_probe.last_group_blocks, layout_probe.blocks_per_group);
    }
}

#[test]
fn test_layout_group_start_block() {
    let total_blocks = 1_048_576u64;
    let layout = compute_group_layout(total_blocks, 4096, 256, 16384, 32768, 0).unwrap();
    assert_eq!(layout.group_start_block(0), layout.first_group_block);
    assert_eq!(
        layout.group_start_block(1),
        layout.first_group_block + layout.blocks_per_group as u64
    );
}

#[test]
fn test_layout_deterministic() {
    let a = compute_group_layout(1_048_576, 4096, 256, 16384, 32768, 10486).unwrap();
    let b = compute_group_layout(1_048_576, 4096, 256, 16384, 32768, 10486).unwrap();
    assert_eq!(a.group_count, b.group_count);
    assert_eq!(a.inodes_per_group, b.inodes_per_group);
    assert_eq!(a.data_blocks_per_group, b.data_blocks_per_group);
    assert_eq!(a.global_overhead, b.global_overhead);
}

#[test]
fn test_gbm_global_to_local() {
    let gbm = GroupBitmapManager::new(4096, 1000, 4, 100, 10);
    // Block 100 = group 0, block 0 in group = overhead → None
    assert_eq!(gbm.global_to_local(100), None);
    // Block 110 = group 0, block 10 in group = first data block → (0, 0)
    assert_eq!(gbm.global_to_local(110), Some((0, 0)));
    // Block 1109 = group 0's last data block (block 999 in group, data idx 989)
    assert_eq!(gbm.global_to_local(1099), Some((0, 989)));
    // Block 1100 = group 1, block 0 in group = overhead → None
    assert_eq!(gbm.global_to_local(1100), None);
    // Block 1110 = group 1, first data block
    assert_eq!(gbm.global_to_local(1110), Some((1, 0)));
    // Block in global overhead
    assert_eq!(gbm.global_to_local(50), None);
}

#[test]
fn test_gbm_local_to_global() {
    let gbm = GroupBitmapManager::new(4096, 1000, 4, 100, 10);
    assert_eq!(gbm.local_to_global(0, 0), 110);
    assert_eq!(gbm.local_to_global(1, 0), 1110);
    assert_eq!(gbm.local_to_global(0, 5), 115);
}

#[test]
fn test_gbm_global_local_roundtrip() {
    let gbm = GroupBitmapManager::new(4096, 32768, 8, 100, 509);
    // Pick some global data blocks
    for g in 0..8u32 {
        for local in [0, 1, 100, 1000] {
            let global = gbm.local_to_global(g, local);
            let (g2, l2) = gbm.global_to_local(global).unwrap();
            assert_eq!(g2, g);
            assert_eq!(l2, local);
        }
    }
}

#[test]
fn test_inode_to_group_mapping() {
    let git = GroupInodeTable::new(256, 256, 4096, 8);
    assert_eq!(git.inode_to_group(0), (0, 0));
    assert_eq!(git.inode_to_group(255), (0, 255));
    assert_eq!(git.inode_to_group(256), (1, 0));
    assert_eq!(git.inode_to_group(511), (1, 255));
}

#[test]
fn test_orlov_top_level_spread() {
    // 10 groups, all with free inodes, no dirs yet → should pick group 0 (lowest score)
    let descriptors: Vec<_> = (0..10)
        .map(|_| GroupDescriptor::new(0, 0, 0, 32768, 8112, 32259, true))
        .collect();
    let g = orlov_select_group(&descriptors, 0, true, 10);
    // With all equal, first group wins
    assert!(g < 10);

    // Now make group 0 have many dirs — should spread to another
    let mut descriptors2 = descriptors;
    descriptors2[0].bg_used_dirs = 100;
    let g2 = orlov_select_group(&descriptors2, 0, true, 10);
    assert_ne!(g2, 0); // Should pick a group with fewer dirs
}

#[test]
fn test_orlov_subdirs_near_parent() {
    let descriptors: Vec<_> = (0..10)
        .map(|_| GroupDescriptor::new(0, 0, 0, 32768, 8112, 32259, true))
        .collect();
    let g = orlov_select_group(&descriptors, 5, false, 10);
    assert_eq!(g, 5); // Subdirs stay near parent
}

#[test]
fn orlov_subdirectory_goes_to_nearest_group_with_free_inodes() {
    let mut descriptors: Vec<_> = (0..8).map(|_| GroupDescriptor::new(0, 0, 0, 32768, 8112, 32259, true)).collect();
    for d in descriptors.iter_mut() {
        d.bg_free_inodes = 0;
    }
    // parent 4 is full; groups 2 and 7 have room: 2 is nearer (distance 2 below vs 3 above)
    descriptors[2].bg_free_inodes = 5;
    descriptors[7].bg_free_inodes = 5;
    assert_eq!(orlov_select_group(&descriptors, 4, false, 8), 2);
    // at equal distance the group above wins
    descriptors[6].bg_free_inodes = 1;
    assert_eq!(orlov_select_group(&descriptors, 4, false, 8), 6);
    // none has room: the parent's own group
    for d in descriptors.iter_mut() {
        d.bg_free_inodes = 0;
    }
    assert_eq!(orlov_select_group(&descriptors, 4, false, 8), 4);
}
