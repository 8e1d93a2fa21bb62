use cfs::device::{CFSBlockDevice, MemBlockDevice};
use cfs::group::{read_gdt, write_gdt, GroupDescriptor, BG_BLOCK_UNINIT};
use cfs::group_alloc::{
    alloc_blocks_near, alloc_inode_for_dir, alloc_inode_for_file, free_blocks_group, free_inode_group,
    GroupBitmapManager, GroupInodeBitmapManager, GroupInodeTable,
};
use cfs::inode::Inode;
use cfs::superblock::Superblock;

fn make_test_device(blocks: u64, block_size: u32) -> MemBlockDevice {
    MemBlockDevice::new((blocks * block_size as u64) as usize)
}

#[test]
fn test_gdt_write_read_32_groups() {
    let mut dev = make_test_device(2048, 4096);
    let gdt_start = 1u64;
    let mut descriptors = Vec::new();
    for i in 0..32u32 {
        descriptors.push(GroupDescriptor::new(
            100 + i as u64 * 3,
            101 + i as u64 * 3,
            102 + i as u64 * 3,
            32768,
            8112,
            32259,
            i != 0,
        ));
    }
    write_gdt(&mut dev, gdt_start, &descriptors, 4096).unwrap();
    let read_back = read_gdt(&mut dev, gdt_start, 32, 4096).unwrap();
    assert_eq!(read_back.len(), 32);
    for (i, desc) in read_back.iter().enumerate() {
        assert_eq!(desc.bg_block_bitmap, 100 + i as u64 * 3);
        assert_eq!(desc.bg_inode_bitmap, 101 + i as u64 * 3);
    }
}

#[test]
fn test_gdt_write_read_partial_block() {
    let mut dev = make_test_device(256, 4096);
    let gdt_start = 1u64;
    let mut descriptors = Vec::new();
    for i in 0..13u32 {
        descriptors.push(GroupDescriptor::new(
            i as u64 * 10,
            i as u64 * 10 + 1,
            i as u64 * 10 + 2,
            1000 + i as u64,
            128,
            900,
            true,
        ));
    }
    write_gdt(&mut dev, gdt_start, &descriptors, 4096).unwrap();
    let read_back = read_gdt(&mut dev, gdt_start, 13, 4096).unwrap();
    assert_eq!(read_back.len(), 13);
    for (i, desc) in read_back.iter().enumerate() {
        assert_eq!(desc.bg_blocks_count, 1000 + i as u64);
    }
}

#[test]
fn test_gdt_corrupt_one_descriptor() {
    let mut dev = make_test_device(256, 4096);
    let gdt_start = 1u64;
    let descriptors: Vec<_> = (0..4)
        .map(|i| GroupDescriptor::new(i as u64 * 10, i as u64 * 10 + 1, i as u64 * 10 + 2, 32768, 8112, 32259, true))
        .collect();
    write_gdt(&mut dev, gdt_start, &descriptors, 4096).unwrap();
    let mut buf = dev.read(gdt_start * 4096, 4096).unwrap();
    buf[2 * 64 + 30] ^= 0xFF;
    dev.write(gdt_start * 4096, &buf).unwrap();
    let result = read_gdt(&mut dev, gdt_start, 4, 4096);
    assert!(result.is_err());
}

#[test]
fn test_gdt_exact_block_boundary() {
    let mut dev = make_test_device(256, 4096);
    let gdt_start = 1u64;
    let descriptors: Vec<_> = (0..64)
        .map(|i| GroupDescriptor::new(i as u64, i as u64 + 1000, i as u64 + 2000, 32768, 8112, 32259, i != 0))
        .collect();
    write_gdt(&mut dev, gdt_start, &descriptors, 4096).unwrap();
    let read_back = read_gdt(&mut dev, gdt_start, 64, 4096).unwrap();
    assert_eq!(read_back.len(), 64);
    for (i, desc) in read_back.iter().enumerate() {
        assert_eq!(desc.bg_block_bitmap, i as u64);
    }
}

fn make_gbm_test(
    group_count: u32,
    blocks_per_group: u32,
    overhead: u32,
    first_group_block: u64,
) -> (GroupBitmapManager, Vec<GroupDescriptor>, MemBlockDevice) {
    let total_blocks = first_group_block + group_count as u64 * blocks_per_group as u64;
    let dev = make_test_device(total_blocks, 4096);
    let data_per_group = blocks_per_group - overhead;
    let mut descriptors = Vec::new();
    for g in 0..group_count {
        let start = first_group_block + g as u64 * blocks_per_group as u64;
        descriptors.push(GroupDescriptor::new(
            start,
            start + 1,
            start + 2,
            blocks_per_group as u64,
            256,
            data_per_group,
            g != 0,
        ));
    }
    let gbm = GroupBitmapManager::new(4096, blocks_per_group, group_count, first_group_block, overhead);
    (gbm, descriptors, dev)
}

#[test]
fn test_gbm_alloc_in_group() {
    let (mut gbm, mut descriptors, mut dev) = make_gbm_test(4, 100, 10, 10);
    let block = gbm.alloc_in_group(&mut dev, 0, &mut descriptors).unwrap();
    assert!(block.is_some());
    let global = block.unwrap();
    let (g, _) = gbm.global_to_local(global).unwrap();
    assert_eq!(g, 0);
}

#[test]
fn test_gbm_alloc_until_full() {
    let data_blocks = 5u32;
    let (mut gbm, mut descriptors, mut dev) = make_gbm_test(2, 100, 95, 10);
    for _ in 0..data_blocks {
        let b = gbm.alloc_in_group(&mut dev, 0, &mut descriptors).unwrap();
        assert!(b.is_some());
    }
    let b = gbm.alloc_in_group(&mut dev, 0, &mut descriptors).unwrap();
    assert!(b.is_none());
}

#[test]
fn test_gbm_free_block() {
    let (mut gbm, mut descriptors, mut dev) = make_gbm_test(2, 100, 10, 10);
    let block = gbm.alloc_in_group(&mut dev, 0, &mut descriptors).unwrap().unwrap();
    gbm.free_block(&mut dev, block, &mut descriptors).unwrap();
    let block2 = gbm.alloc_in_group(&mut dev, 0, &mut descriptors).unwrap().unwrap();
    assert_eq!(block, block2);
}

#[test]
fn test_gbm_free_wrong_block() {
    let (mut gbm, mut descriptors, mut dev) = make_gbm_test(2, 100, 10, 10);
    let result = gbm.free_block(&mut dev, 5, &mut descriptors);
    assert!(result.is_err());
}

#[test]
fn test_gbm_lazy_load() {
    let (gbm, _descriptors, _dev) = make_gbm_test(4, 100, 10, 10);
    assert!(!gbm.is_loaded(0));
    assert!(!gbm.is_loaded(1));
}

#[test]
fn test_gbm_dirty_tracking() {
    let (mut gbm, mut descriptors, mut dev) = make_gbm_test(2, 100, 10, 10);
    assert!(!gbm.has_dirty());
    gbm.alloc_in_group(&mut dev, 0, &mut descriptors).unwrap();
    assert!(gbm.has_dirty());
    gbm.save_all(&mut dev, &descriptors).unwrap();
    assert!(!gbm.has_dirty());
}

#[test]
fn test_gbm_save_all_roundtrip() {
    let (mut gbm, mut descriptors, mut dev) = make_gbm_test(3, 100, 10, 10);
    let b0 = gbm.alloc_in_group(&mut dev, 0, &mut descriptors).unwrap().unwrap();
    let b1 = gbm.alloc_in_group(&mut dev, 1, &mut descriptors).unwrap().unwrap();
    let b2 = gbm.alloc_in_group(&mut dev, 2, &mut descriptors).unwrap().unwrap();
    gbm.save_all(&mut dev, &descriptors).unwrap();
    let mut gbm2 = GroupBitmapManager::new(4096, 100, 3, 10, 10);
    for desc in descriptors.iter_mut() {
        desc.bg_flags &= !BG_BLOCK_UNINIT;
    }
    let b0_2 = gbm2.alloc_in_group(&mut dev, 0, &mut descriptors).unwrap().unwrap();
    let b1_2 = gbm2.alloc_in_group(&mut dev, 1, &mut descriptors).unwrap().unwrap();
    let b2_2 = gbm2.alloc_in_group(&mut dev, 2, &mut descriptors).unwrap().unwrap();
    assert_ne!(b0, b0_2);
    assert_ne!(b1, b1_2);
    assert_ne!(b2, b2_2);
}

#[test]
fn test_gbm_lazy_init_uninit() {
    let (mut gbm, mut descriptors, mut dev) = make_gbm_test(2, 100, 10, 10);
    assert!(descriptors[1].bg_flags & BG_BLOCK_UNINIT != 0);
    let block = gbm.alloc_in_group(&mut dev, 1, &mut descriptors).unwrap();
    assert!(block.is_some());
}

#[test]
fn test_group_inode_read_write() {
    let inodes_per_group = 16u32;
    let inode_size = 256u32;
    let block_size = 4096u32;
    let group_count = 4u32;
    let blocks_per_group = 100u32;
    let first_group_block = 10u64;
    let total_blocks = first_group_block + group_count as u64 * blocks_per_group as u64;
    let mut dev = make_test_device(total_blocks, block_size);
    let mut descriptors = Vec::new();
    for g in 0..group_count {
        let start = first_group_block + g as u64 * blocks_per_group as u64;
        descriptors.push(GroupDescriptor::new(
            start,
            start + 1,
            start + 2,
            blocks_per_group as u64,
            inodes_per_group,
            blocks_per_group - 4,
            false,
        ));
    }
    let git = GroupInodeTable::new(inodes_per_group, inode_size, block_size, group_count);
    let inode = Inode::new_file();
    let inode_idx = 2 * inodes_per_group + 3;
    git.write_inode(&mut dev, inode_idx, &inode, &descriptors).unwrap();
    let read_back = git.read_inode(&mut dev, inode_idx, &descriptors).unwrap();
    assert_eq!(read_back.mode, inode.mode);
    assert_eq!(read_back.size, inode.size);
}

fn inode_descriptors(group_count: u32, inodes_per_group: u32) -> Vec<GroupDescriptor> {
    (0..group_count)
        .map(|g| {
            let start = 10 + g as u64 * 100;
            GroupDescriptor::new(start, start + 1, start + 2, 100, inodes_per_group, 90, true)
        })
        .collect()
}

#[test]
fn test_group_inode_bitmap_alloc() {
    let inodes_per_group = 64u32;
    let group_count = 4u32;
    let mut gibm = GroupInodeBitmapManager::new(4096, inodes_per_group, group_count);
    let total_blocks = 10 + group_count as u64 * 100;
    let mut dev = make_test_device(total_blocks, 4096);
    let mut descriptors = inode_descriptors(group_count, inodes_per_group);
    let inode = gibm.alloc_in_group(&mut dev, 0, &mut descriptors).unwrap();
    assert!(inode.is_some());
    let idx = inode.unwrap();
    assert!(idx < inodes_per_group);
    let inode2 = gibm.alloc_in_group(&mut dev, 2, &mut descriptors).unwrap();
    assert!(inode2.is_some());
    let idx2 = inode2.unwrap();
    assert!(idx2 >= 2 * inodes_per_group && idx2 < 3 * inodes_per_group);
}

#[test]
fn test_group_inode_bitmap_free() {
    let inodes_per_group = 64u32;
    let mut gibm = GroupInodeBitmapManager::new(4096, inodes_per_group, 2);
    let mut dev = make_test_device(210, 4096);
    let mut descriptors = inode_descriptors(2, inodes_per_group);
    let idx = gibm.alloc_in_group(&mut dev, 0, &mut descriptors).unwrap().unwrap();
    gibm.free_inode(&mut dev, idx, &mut descriptors).unwrap();
    let idx2 = gibm.alloc_in_group(&mut dev, 0, &mut descriptors).unwrap().unwrap();
    assert_eq!(idx, idx2);
}

#[test]
fn test_alloc_near_same_group() {
    let (mut gbm, mut descriptors, mut dev) = make_gbm_test(4, 100, 10, 10);
    let mut sb = Superblock::default();
    sb.free_blocks = 360;
    let hint = gbm.local_to_global(2, 0);
    let blocks = alloc_blocks_near(&mut gbm, &mut dev, hint, 10, &mut descriptors, &mut sb).unwrap();
    assert_eq!(blocks.len(), 10);
    for &b in &blocks {
        let (g, _) = gbm.global_to_local(b).unwrap();
        assert_eq!(g, 2);
    }
}

#[test]
fn test_alloc_near_fallback() {
    let (mut gbm, mut descriptors, mut dev) = make_gbm_test(4, 100, 95, 10);
    let mut sb = Superblock::default();
    sb.free_blocks = 20;
    let hint = gbm.local_to_global(2, 0);
    let blocks = alloc_blocks_near(&mut gbm, &mut dev, hint, 10, &mut descriptors, &mut sb).unwrap();
    assert_eq!(blocks.len(), 10);
}

#[test]
fn test_alloc_near_rollback() {
    let (mut gbm, mut descriptors, mut dev) = make_gbm_test(2, 100, 95, 10);
    let mut sb = Superblock::default();
    sb.free_blocks = 10;
    let hint = gbm.local_to_global(0, 0);
    let result = alloc_blocks_near(&mut gbm, &mut dev, hint, 20, &mut descriptors, &mut sb);
    assert!(result.is_err());
    assert_eq!(sb.free_blocks, 10);
}

#[test]
fn test_free_blocks_updates_group() {
    let (mut gbm, mut descriptors, mut dev) = make_gbm_test(2, 100, 10, 10);
    let mut sb = Superblock::default();
    sb.free_blocks = 180;
    let hint = gbm.local_to_global(0, 0);
    let blocks = alloc_blocks_near(&mut gbm, &mut dev, hint, 5, &mut descriptors, &mut sb).unwrap();
    assert_eq!(sb.free_blocks, 175);
    free_blocks_group(&mut gbm, &mut dev, &blocks, &mut descriptors, &mut sb).unwrap();
    assert_eq!(sb.free_blocks, 180);
}

#[test]
fn test_alloc_inode_file_near_parent() {
    let inodes_per_group = 64u32;
    let group_count = 4u32;
    let mut gibm = GroupInodeBitmapManager::new(4096, inodes_per_group, group_count);
    let mut dev = make_test_device(410, 4096);
    let mut descriptors = inode_descriptors(group_count, inodes_per_group);
    let mut sb = Superblock::default();
    sb.free_inodes = 256;
    let parent_inode = 2 * inodes_per_group;
    let idx =
        alloc_inode_for_file(&mut gibm, &mut dev, parent_inode, inodes_per_group, &mut descriptors, &mut sb).unwrap();
    let group = idx / inodes_per_group;
    assert_eq!(group, 2);
}

#[test]
fn test_alloc_inode_file_fallback() {
    let inodes_per_group = 4u32;
    let group_count = 3u32;
    let mut gibm = GroupInodeBitmapManager::new(4096, inodes_per_group, group_count);
    let mut dev = make_test_device(310, 4096);
    let mut descriptors = inode_descriptors(group_count, inodes_per_group);
    let mut sb = Superblock::default();
    sb.free_inodes = 12;
    let parent = 1 * inodes_per_group;
    for _ in 0..inodes_per_group {
        alloc_inode_for_file(&mut gibm, &mut dev, parent, inodes_per_group, &mut descriptors, &mut sb).unwrap();
    }
    let idx = alloc_inode_for_file(&mut gibm, &mut dev, parent, inodes_per_group, &mut descriptors, &mut sb).unwrap();
    let group = idx / inodes_per_group;
    assert_ne!(group, 1);
}

#[test]
fn test_free_inode_updates_group() {
    let inodes_per_group = 64u32;
    let group_count = 2u32;
    let mut gibm = GroupInodeBitmapManager::new(4096, inodes_per_group, group_count);
    let mut dev = make_test_device(210, 4096);
    let mut descriptors = inode_descriptors(group_count, inodes_per_group);
    let mut sb = Superblock::default();
    sb.free_inodes = 128;
    let idx =
        alloc_inode_for_dir(&mut gibm, &mut dev, 0, inodes_per_group, &mut descriptors, &mut sb, true).unwrap();
    let group = idx / inodes_per_group;
    assert_eq!(descriptors[group as usize].bg_used_dirs, 1);
    free_inode_group(&mut gibm, &mut dev, idx, true, inodes_per_group, &mut descriptors, &mut sb).unwrap();
    assert_eq!(descriptors[group as usize].bg_used_dirs, 0);
}

#[test]
fn test_alloc_inode_all_full() {
    let inodes_per_group = 2u32;
    let group_count = 2u32;
    let mut gibm = GroupInodeBitmapManager::new(4096, inodes_per_group, group_count);
    let mut dev = make_test_device(210, 4096);
    let mut descriptors = inode_descriptors(group_count, inodes_per_group);
    let mut sb = Superblock::default();
    sb.free_inodes = 4;
    for _ in 0..4 {
        alloc_inode_for_file(&mut gibm, &mut dev, 0, inodes_per_group, &mut descriptors, &mut sb).unwrap();
    }
    let result = alloc_inode_for_file(&mut gibm, &mut dev, 0, inodes_per_group, &mut descriptors, &mut sb);
    assert!(result.is_err());
}

#[test]
fn mem_device_rejects_out_of_range() {
    let mut dev = cfs::device::MemBlockDevice::new(16);
    assert_eq!(cfs::device::CFSBlockDevice::read(&mut dev, 10, 8), Err(cfs::device::DeviceError::OutOfRange));
    assert_eq!(cfs::device::CFSBlockDevice::write(&mut dev, 12, &[1, 2, 3, 4, 5]), Err(cfs::device::DeviceError::OutOfRange));
    assert!(cfs::device::CFSBlockDevice::write(&mut dev, 12, &[1, 2, 3, 4]).is_ok());
}

#[test]
fn error_texts() {
    assert_eq!(cfs::error::VolumeError::NoSpace.to_string(), "No space left on device (ENOSPC)");
    assert_eq!(cfs::error::VolumeError::DoubleFree.to_string(), "double-free: already free");
}

#[test]
fn alloc_near_with_undercounting_superblock_leaves_none_free() {
    let (mut gbm, mut descriptors, mut dev) = make_gbm_test(2, 100, 10, 10);
    let mut sb = Superblock::default();
    sb.free_blocks = 3;
    let hint = gbm.local_to_global(0, 0);
    let blocks = alloc_blocks_near(&mut gbm, &mut dev, hint, 5, &mut descriptors, &mut sb).unwrap();
    assert_eq!(blocks.len(), 5);
    assert_eq!(sb.free_blocks, 0);
}

#[test]
fn bitmap_changed_in_place_steers_allocation() {
    let (mut gbm, mut descriptors, mut dev) = make_gbm_test(4, 100, 10, 10);
    assert!(gbm.get_bitmap_mut(0).is_none());
    let first = gbm.alloc_in_group(&mut dev, 0, &mut descriptors).unwrap().unwrap();
    assert_eq!(gbm.global_to_local(first), Some((0, 0)));
    {
        let bm = gbm.get_bitmap_mut(0).unwrap();
        assert!(!bm.is_free(0));
        bm.set_allocated(1);
    }
    let second = gbm.alloc_in_group(&mut dev, 0, &mut descriptors).unwrap().unwrap();
    assert_eq!(gbm.global_to_local(second), Some((0, 2)));
}

#[test]
fn failed_alloc_near_gives_every_block_back() {
    let (mut gbm, mut descriptors, mut dev) = make_gbm_test(2, 100, 95, 10);
    let mut sb = Superblock::default();
    sb.free_blocks = 10;
    let hint = gbm.local_to_global(0, 0);
    assert!(alloc_blocks_near(&mut gbm, &mut dev, hint, 20, &mut descriptors, &mut sb).is_err());
    let blocks = alloc_blocks_near(&mut gbm, &mut dev, hint, 10, &mut descriptors, &mut sb).unwrap();
    assert_eq!(blocks.len(), 10);
    assert_eq!(blocks[0], hint);
    assert_eq!(sb.free_blocks, 0);
}
