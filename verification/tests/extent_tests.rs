use cfs::extent::{
    bsearch_index, bsearch_leaf, inode_extent_raw_bytes, read_inode_extent_root, write_inode_extent_root,
    write_raw_bytes_to_inode, ExtentEntries, ExtentHeader, ExtentIndex, ExtentLeaf,
};
use cfs::inode::Inode;

#[test]
fn test_extent_header_serialize_roundtrip() {
    let hdr = ExtentHeader::new_root();
    let bytes = hdr.serialize();
    let hdr2 = ExtentHeader::deserialize(&bytes).unwrap();
    assert_eq!(hdr, hdr2);
}

#[test]
fn test_extent_header_bad_magic() {
    let mut bytes = ExtentHeader::new_root().serialize();
    bytes[0] = 0x00;
    bytes[1] = 0x00;
    assert!(ExtentHeader::deserialize(&bytes).is_err());
}

#[test]
fn test_extent_header_leaf_block() {
    let hdr = ExtentHeader::new_leaf(4096);
    assert_eq!(hdr.max, 340);
    assert_eq!(hdr.depth, 0);
}

#[test]
fn test_extent_header_index_block() {
    let hdr = ExtentHeader::new_index(4096, 2);
    assert_eq!(hdr.max, 340);
    assert_eq!(hdr.depth, 2);
}

#[test]
fn test_extent_leaf_serialize_roundtrip() {
    let leaf = ExtentLeaf::new(0, 12345, 100);
    let bytes = leaf.serialize();
    let leaf2 = ExtentLeaf::deserialize(&bytes);
    assert_eq!(leaf, leaf2);
}

#[test]
fn test_extent_leaf_physical_block_48bit() {
    let leaf = ExtentLeaf {
        ee_block: 0,
        ee_len: 1,
        ee_start_hi: 1,
        ee_start_lo: 0x12345678,
    };
    assert_eq!(leaf.physical_block(), 0x1_12345678);
}

#[test]
fn test_extent_leaf_uninit_flag() {
    let leaf = ExtentLeaf::new_uninit(10, 100, 50);
    assert!(leaf.is_uninitialized());
    assert_eq!(leaf.block_count(), 50);
}

#[test]
fn test_extent_leaf_contains() {
    let leaf = ExtentLeaf::new(10, 100, 10); // covers [10..20)
    assert!(leaf.contains(10));
    assert!(leaf.contains(15));
    assert!(leaf.contains(19));
    assert!(!leaf.contains(9));
    assert!(!leaf.contains(20));
}

#[test]
fn test_extent_leaf_map() {
    let leaf = ExtentLeaf::new(10, 100, 10); // [10..20) @ phys 100
    assert_eq!(leaf.map(15), Some(105));
    assert_eq!(leaf.map(10), Some(100));
    assert_eq!(leaf.map(19), Some(109));
    assert_eq!(leaf.map(20), None);
}

#[test]
fn test_extent_leaf_can_merge_right() {
    let a = ExtentLeaf::new(0, 100, 10); // [0..10) @ 100
    let b = ExtentLeaf::new(10, 110, 5); // [10..15) @ 110
    assert!(a.can_merge_right(&b));
}

#[test]
fn test_extent_leaf_cannot_merge_gap() {
    let a = ExtentLeaf::new(0, 100, 10); // [0..10) @ 100
    let b = ExtentLeaf::new(10, 200, 5); // [10..15) @ 200 (physical gap)
    assert!(!a.can_merge_right(&b));
}

#[test]
fn test_extent_leaf_cannot_merge_init_mismatch() {
    let a = ExtentLeaf::new(0, 100, 10);
    let b = ExtentLeaf::new_uninit(10, 110, 5);
    assert!(!a.can_merge_right(&b));
}

#[test]
fn test_extent_leaf_merge_length_limit() {
    let a = ExtentLeaf::new(0, 100, 32000);
    let b = ExtentLeaf::new(32000, 32100, 1000);
    // Combined = 33000 > 32767
    assert!(!a.can_merge_right(&b));
}

#[test]
fn test_extent_index_serialize_roundtrip() {
    let idx = ExtentIndex::new(100, 0x1_00000500);
    let bytes = idx.serialize();
    let idx2 = ExtentIndex::deserialize(&bytes);
    assert_eq!(idx, idx2);
}

#[test]
fn test_extent_index_child_block_48bit() {
    let idx = ExtentIndex {
        ei_block: 0,
        ei_leaf_lo: 0x300,
        ei_leaf_hi: 2,
        ei_unused: 0,
    };
    assert_eq!(idx.child_block(), 0x2_00000300);
}

#[test]
fn test_inode_extent_root_roundtrip() {
    let mut inode = Inode::new_file();
    inode.init_extent_root();

    // Write some leaves to the root
    let leaves = vec![
        ExtentLeaf::new(0, 100, 10),
        ExtentLeaf::new(50, 200, 20),
    ];
    let mut hdr = ExtentHeader::new_root();
    hdr.entries = 2;
    write_inode_extent_root(&mut inode, &hdr, &ExtentEntries::Leaves(leaves.clone()));

    let (hdr2, entries2) = read_inode_extent_root(&inode).unwrap();
    assert_eq!(hdr, hdr2);
    match entries2 {
        ExtentEntries::Leaves(l) => assert_eq!(l, leaves),
        _ => panic!("expected leaves"),
    }
}

#[test]
fn test_inode_raw_bytes_roundtrip() {
    let mut inode = Inode::new_file();
    inode.direct_blocks[0] = 0x1234;
    inode.direct_blocks[9] = 0x9876;
    inode.indirect_block = 0xABCD;
    inode.double_indirect = 0xEF01;

    let raw = inode_extent_raw_bytes(&inode);
    let mut inode2 = Inode::new_file();
    write_raw_bytes_to_inode(&mut inode2, &raw);

    assert_eq!(inode.direct_blocks, inode2.direct_blocks);
    assert_eq!(inode.indirect_block, inode2.indirect_block);
    assert_eq!(inode.double_indirect, inode2.double_indirect);
}

#[test]
fn test_bsearch_leaf_empty() {
    let (found, idx) = bsearch_leaf(&[], 5);
    assert!(!found);
    assert_eq!(idx, 0);
}

#[test]
fn test_bsearch_leaf_single_hit() {
    let leaves = vec![ExtentLeaf::new(0, 100, 10)]; // [0..10)
    let (found, idx) = bsearch_leaf(&leaves, 5);
    assert!(found);
    assert_eq!(idx, 0);
}

#[test]
fn test_bsearch_leaf_single_miss() {
    let leaves = vec![ExtentLeaf::new(0, 100, 10)]; // [0..10)
    let (found, idx) = bsearch_leaf(&leaves, 15);
    assert!(!found);
    assert_eq!(idx, 1);
}

#[test]
fn test_bsearch_index_single() {
    let indices = vec![ExtentIndex::new(0, 20)];
    assert_eq!(bsearch_index(&indices, 100), 0);
}

#[test]
fn test_bsearch_index_multiple() {
    let indices = vec![
        ExtentIndex::new(0, 20),
        ExtentIndex::new(100, 21),
        ExtentIndex::new(200, 22),
    ];
    assert_eq!(bsearch_index(&indices, 150), 1);
    assert_eq!(bsearch_index(&indices, 200), 2);
    assert_eq!(bsearch_index(&indices, 50), 0);
}

use cfs::bitmap::Bitmap;
use cfs::block_alloc::{alloc_blocks, BlockAlloc};
use cfs::device::MemBlockDevice;
use cfs::extent::{extent_find, get_block_ptr_extent, init_inode_extent_root, read_extent_block, write_extent_block, EXTENT_MAX_DEPTH};
use cfs::extent_tree::{extent_insert, extent_remove, free_all_extents, grow_indepth};
use cfs::superblock::Superblock;

const VOL_DATA_START: u64 = 8;

fn make_test_dev(size: u64) -> MemBlockDevice {
    MemBlockDevice::new(size as usize)
}

/// A 4 MiB device whose blocks from `VOL_DATA_START` on are free data blocks.
fn make_vol_for_extents() -> (MemBlockDevice, Bitmap, Superblock) {
    let total: u64 = 4 * 1024 * 1024 / 4096;
    let data_blocks = total - VOL_DATA_START;
    let dev = MemBlockDevice::new((total * 4096) as usize);
    let bm = Bitmap::new_empty(data_blocks, 2, 1, 4096);
    let sb = Superblock {
        version: 2,
        block_size: 4096,
        total_blocks: total,
        data_start: VOL_DATA_START,
        free_blocks: data_blocks,
        ..Default::default()
    };
    (dev, bm, sb)
}

fn vol_alloc(bm: Bitmap) -> BlockAlloc {
    BlockAlloc::Legacy { bitmap: bm, data_start: VOL_DATA_START }
}

#[test]
fn test_read_write_extent_block_leaf() {
    let mut dev = make_test_dev(64 * 4096);
    let block_size = 4096;
    let block_addr = 10;
    let leaves = vec![ExtentLeaf::new(0, 100, 10), ExtentLeaf::new(100, 200, 50)];
    let mut hdr = ExtentHeader::new_leaf(block_size);
    hdr.entries = leaves.len() as u16;
    write_extent_block(&mut dev, block_addr, &hdr, &ExtentEntries::Leaves(leaves.clone()), block_size).unwrap();
    let (hdr2, entries2) = read_extent_block(&mut dev, block_addr, block_size).unwrap();
    assert_eq!(hdr, hdr2);
    match entries2 {
        ExtentEntries::Leaves(l) => assert_eq!(l, leaves),
        _ => panic!("expected leaves"),
    }
}

#[test]
fn test_read_write_extent_block_index() {
    let mut dev = make_test_dev(64 * 4096);
    let block_size = 4096;
    let block_addr = 10;
    let indices = vec![ExtentIndex::new(0, 20), ExtentIndex::new(1000, 21)];
    let mut hdr = ExtentHeader::new_index(block_size, 1);
    hdr.entries = indices.len() as u16;
    write_extent_block(&mut dev, block_addr, &hdr, &ExtentEntries::Indices(indices.clone()), block_size).unwrap();
    let (hdr2, entries2) = read_extent_block(&mut dev, block_addr, block_size).unwrap();
    assert_eq!(hdr, hdr2);
    match entries2 {
        ExtentEntries::Indices(idx) => assert_eq!(idx, indices),
        _ => panic!("expected indices"),
    }
}

#[test]
fn test_lookup_empty_tree() {
    let mut dev = make_test_dev(64 * 4096);
    let mut inode = Inode::new_file();
    init_inode_extent_root(&mut inode);
    let result = extent_find(&mut dev, &inode, 0, 4096).unwrap();
    assert!(result.is_none());
}

#[test]
fn test_lookup_single_extent() {
    let mut inode = Inode::new_file();
    init_inode_extent_root(&mut inode);
    let leaves = vec![ExtentLeaf::new(0, 100, 50)];
    let mut hdr = ExtentHeader::new_root();
    hdr.entries = 1;
    write_inode_extent_root(&mut inode, &hdr, &ExtentEntries::Leaves(leaves));
    let mut dev = make_test_dev(64 * 4096);
    let result = extent_find(&mut dev, &inode, 25, 4096).unwrap();
    assert!(result.is_some());
    let leaf = result.unwrap();
    assert_eq!(leaf.map(25), Some(125));
}

#[test]
fn test_lookup_hole() {
    let mut inode = Inode::new_file();
    init_inode_extent_root(&mut inode);
    let leaves = vec![ExtentLeaf::new(100, 200, 50)];
    let mut hdr = ExtentHeader::new_root();
    hdr.entries = 1;
    write_inode_extent_root(&mut inode, &hdr, &ExtentEntries::Leaves(leaves));
    let mut dev = make_test_dev(64 * 4096);
    let result = extent_find(&mut dev, &inode, 50, 4096).unwrap();
    assert!(result.is_none());
}

#[test]
fn test_get_block_ptr_extent_uninit() {
    let mut inode = Inode::new_file();
    init_inode_extent_root(&mut inode);
    let leaves = vec![ExtentLeaf::new_uninit(0, 100, 10)];
    let mut hdr = ExtentHeader::new_root();
    hdr.entries = 1;
    write_inode_extent_root(&mut inode, &hdr, &ExtentEntries::Leaves(leaves));
    let mut dev = make_test_dev(64 * 4096);
    let phys = get_block_ptr_extent(&mut dev, &inode, 5, 4096).unwrap();
    assert_eq!(phys, 0);
}

#[test]
fn test_insert_into_empty_tree() {
    let (mut dev, bm, mut sb) = make_vol_for_extents();
    let mut inode = Inode::new_file();
    init_inode_extent_root(&mut inode);
    let mut ba = vol_alloc(bm);
    extent_insert(&mut dev, &mut inode, &mut ba, &mut sb, 0, 100, 1, 4096).unwrap();
    let (hdr, entries) = read_inode_extent_root(&inode).unwrap();
    assert_eq!(hdr.entries, 1);
    match entries {
        ExtentEntries::Leaves(l) => {
            assert_eq!(l[0].ee_block, 0);
            assert_eq!(l[0].physical_block(), 100);
            assert_eq!(l[0].block_count(), 1);
        },
        _ => panic!("expected leaves"),
    }
}

#[test]
fn test_insert_7_extents_fills_root() {
    let (mut dev, bm, mut sb) = make_vol_for_extents();
    let mut inode = Inode::new_file();
    init_inode_extent_root(&mut inode);
    let mut ba = vol_alloc(bm);
    for i in 0..7u32 {
        extent_insert(&mut dev, &mut inode, &mut ba, &mut sb, i * 100, (i as u64 + 1) * 1000, 10, 4096).unwrap();
    }
    let (hdr, _) = read_inode_extent_root(&inode).unwrap();
    assert_eq!(hdr.entries, 7);
    assert_eq!(hdr.depth, 0);
}

#[test]
fn test_insert_8th_triggers_depth_grow() {
    let (mut dev, bm, mut sb) = make_vol_for_extents();
    let mut inode = Inode::new_file();
    init_inode_extent_root(&mut inode);
    let mut ba = vol_alloc(bm);
    for i in 0..8u32 {
        extent_insert(&mut dev, &mut inode, &mut ba, &mut sb, i * 100, (i as u64 + 1) * 1000, 10, 4096).unwrap();
    }
    let (hdr, _) = read_inode_extent_root(&inode).unwrap();
    assert!(hdr.depth >= 1, "depth should be >= 1 after 8th insert");
    for i in 0..8u32 {
        let result = extent_find(&mut dev, &inode, i * 100, 4096).unwrap();
        assert!(result.is_some(), "extent at logical {} not found", i * 100);
    }
}

#[test]
fn test_insert_merge_left() {
    let (mut dev, bm, mut sb) = make_vol_for_extents();
    let mut inode = Inode::new_file();
    init_inode_extent_root(&mut inode);
    let mut ba = vol_alloc(bm);
    extent_insert(&mut dev, &mut inode, &mut ba, &mut sb, 0, 100, 10, 4096).unwrap();
    extent_insert(&mut dev, &mut inode, &mut ba, &mut sb, 10, 110, 10, 4096).unwrap();
    let (hdr, entries) = read_inode_extent_root(&inode).unwrap();
    assert_eq!(hdr.entries, 1, "should be merged into 1 extent");
    match entries {
        ExtentEntries::Leaves(l) => {
            assert_eq!(l[0].ee_block, 0);
            assert_eq!(l[0].block_count(), 20);
            assert_eq!(l[0].physical_block(), 100);
        },
        _ => panic!("expected leaves"),
    }
}

#[test]
fn test_insert_no_merge_physical_gap() {
    let (mut dev, bm, mut sb) = make_vol_for_extents();
    let mut inode = Inode::new_file();
    init_inode_extent_root(&mut inode);
    let mut ba = vol_alloc(bm);
    extent_insert(&mut dev, &mut inode, &mut ba, &mut sb, 0, 100, 10, 4096).unwrap();
    extent_insert(&mut dev, &mut inode, &mut ba, &mut sb, 10, 200, 10, 4096).unwrap();
    let (hdr, _) = read_inode_extent_root(&inode).unwrap();
    assert_eq!(hdr.entries, 2, "should NOT merge — physical gap");
}

#[test]
fn test_insert_large_file_many_extents() {
    let (mut dev, bm, mut sb) = make_vol_for_extents();
    let mut inode = Inode::new_file();
    init_inode_extent_root(&mut inode);
    let mut ba = vol_alloc(bm);
    for i in 0..50u32 {
        extent_insert(&mut dev, &mut inode, &mut ba, &mut sb, i * 100, (i as u64 + 1) * 500, 5, 4096).unwrap();
    }
    for i in 0..50u32 {
        let result = extent_find(&mut dev, &inode, i * 100 + 2, 4096).unwrap();
        assert!(result.is_some(), "extent at logical {} not found", i * 100 + 2);
        let leaf = result.unwrap();
        assert_eq!(leaf.physical_block(), (i as u64 + 1) * 500);
    }
}

#[test]
fn test_grow_indepth_max_depth() {
    let (mut dev, bm, mut sb) = make_vol_for_extents();
    let mut inode = Inode::new_file();
    init_inode_extent_root(&mut inode);
    let mut ba = vol_alloc(bm);
    let mut hdr = ExtentHeader::new_root();
    hdr.depth = EXTENT_MAX_DEPTH;
    hdr.entries = 1;
    let entries = ExtentEntries::Indices(vec![ExtentIndex::new(0, 50)]);
    write_inode_extent_root(&mut inode, &hdr, &entries);
    let result = grow_indepth(&mut dev, &mut inode, &mut ba, &mut sb, 4096);
    assert!(result.is_err());
}

#[test]
fn test_remove_entire_extent() {
    let (mut dev, bm, mut sb) = make_vol_for_extents();
    let mut inode = Inode::new_file();
    init_inode_extent_root(&mut inode);
    let mut ba = vol_alloc(bm);
    extent_insert(&mut dev, &mut inode, &mut ba, &mut sb, 0, 100, 10, 4096).unwrap();
    let freed = extent_remove(&mut dev, &mut inode, 0, 10, 4096).unwrap();
    assert_eq!(freed.len(), 10);
    for i in 0..10u64 {
        assert!(freed.contains(&(100 + i)));
    }
    let (hdr, _) = read_inode_extent_root(&inode).unwrap();
    assert_eq!(hdr.entries, 0);
}

fn root_with_one_leaf() -> Inode {
    let mut inode = Inode::new_file();
    init_inode_extent_root(&mut inode);
    let leaves = vec![ExtentLeaf::new(0, 100, 10)];
    let mut hdr = ExtentHeader::new_root();
    hdr.entries = 1;
    write_inode_extent_root(&mut inode, &hdr, &ExtentEntries::Leaves(leaves));
    inode
}

#[test]
fn test_remove_front() {
    let mut inode = root_with_one_leaf();
    let mut dev = make_test_dev(64 * 4096);
    let freed = extent_remove(&mut dev, &mut inode, 0, 5, 4096).unwrap();
    assert_eq!(freed.len(), 5);
    assert_eq!(freed, vec![100, 101, 102, 103, 104]);
    let (_, entries) = read_inode_extent_root(&inode).unwrap();
    match entries {
        ExtentEntries::Leaves(l) => {
            assert_eq!(l.len(), 1);
            assert_eq!(l[0].ee_block, 5);
            assert_eq!(l[0].physical_block(), 105);
            assert_eq!(l[0].block_count(), 5);
        },
        _ => panic!("expected leaves"),
    }
}

#[test]
fn test_remove_tail() {
    let mut inode = root_with_one_leaf();
    let mut dev = make_test_dev(64 * 4096);
    let freed = extent_remove(&mut dev, &mut inode, 5, 5, 4096).unwrap();
    assert_eq!(freed.len(), 5);
    assert_eq!(freed, vec![105, 106, 107, 108, 109]);
    let (_, entries) = read_inode_extent_root(&inode).unwrap();
    match entries {
        ExtentEntries::Leaves(l) => {
            assert_eq!(l.len(), 1);
            assert_eq!(l[0].ee_block, 0);
            assert_eq!(l[0].block_count(), 5);
        },
        _ => panic!("expected leaves"),
    }
}

#[test]
fn test_remove_middle_split() {
    let mut inode = root_with_one_leaf();
    let mut dev = make_test_dev(64 * 4096);
    let freed = extent_remove(&mut dev, &mut inode, 3, 4, 4096).unwrap();
    assert_eq!(freed.len(), 4);
    assert_eq!(freed, vec![103, 104, 105, 106]);
    let (hdr, entries) = read_inode_extent_root(&inode).unwrap();
    assert_eq!(hdr.entries, 2);
    match entries {
        ExtentEntries::Leaves(l) => {
            assert_eq!(l[0].ee_block, 0);
            assert_eq!(l[0].block_count(), 3);
            assert_eq!(l[0].physical_block(), 100);
            assert_eq!(l[1].ee_block, 7);
            assert_eq!(l[1].block_count(), 3);
            assert_eq!(l[1].physical_block(), 107);
        },
        _ => panic!("expected leaves"),
    }
}

#[test]
fn test_free_all_extents() {
    let (mut dev, mut bm, mut sb) = make_vol_for_extents();
    let mut inode = Inode::new_file();
    init_inode_extent_root(&mut inode);
    let ds = VOL_DATA_START;
    let blocks1 = alloc_blocks(&mut bm, &mut sb, 10).unwrap();
    let blocks2 = alloc_blocks(&mut bm, &mut sb, 5).unwrap();
    let blocks3 = alloc_blocks(&mut bm, &mut sb, 3).unwrap();
    let phys1 = ds + blocks1[0];
    let phys2 = ds + blocks2[0];
    let phys3 = ds + blocks3[0];
    let mut ba = vol_alloc(bm);
    extent_insert(&mut dev, &mut inode, &mut ba, &mut sb, 0, phys1, 10, 4096).unwrap();
    extent_insert(&mut dev, &mut inode, &mut ba, &mut sb, 100, phys2, 5, 4096).unwrap();
    extent_insert(&mut dev, &mut inode, &mut ba, &mut sb, 500, phys3, 3, 4096).unwrap();
    let free_before = sb.free_blocks;
    free_all_extents(&mut dev, &mut inode, &mut ba, &mut sb, 4096).unwrap();
    assert_eq!(inode.size, 0);
    assert_eq!(inode.block_count, 0);
    assert_eq!(sb.free_blocks, free_before + 18);
    let (hdr, _) = read_inode_extent_root(&inode).unwrap();
    assert_eq!(hdr.entries, 0);
    assert_eq!(hdr.depth, 0);
}

#[test]
fn test_insert_lookup_remove_roundtrip() {
    let (mut dev, bm, mut sb) = make_vol_for_extents();
    let mut inode = Inode::new_file();
    init_inode_extent_root(&mut inode);
    let mut ba = vol_alloc(bm);
    extent_insert(&mut dev, &mut inode, &mut ba, &mut sb, 0, 100, 10, 4096).unwrap();
    extent_insert(&mut dev, &mut inode, &mut ba, &mut sb, 20, 200, 5, 4096).unwrap();
    extent_insert(&mut dev, &mut inode, &mut ba, &mut sb, 40, 300, 8, 4096).unwrap();
    assert_eq!(get_block_ptr_extent(&mut dev, &inode, 5, 4096).unwrap(), 105);
    assert_eq!(get_block_ptr_extent(&mut dev, &inode, 22, 4096).unwrap(), 202);
    assert_eq!(get_block_ptr_extent(&mut dev, &inode, 45, 4096).unwrap(), 305);
    assert_eq!(get_block_ptr_extent(&mut dev, &inode, 15, 4096).unwrap(), 0);
    let freed = extent_remove(&mut dev, &mut inode, 20, 5, 4096).unwrap();
    assert_eq!(freed.len(), 5);
    assert_eq!(get_block_ptr_extent(&mut dev, &inode, 22, 4096).unwrap(), 0);
    assert_eq!(get_block_ptr_extent(&mut dev, &inode, 5, 4096).unwrap(), 105);
    assert_eq!(get_block_ptr_extent(&mut dev, &inode, 45, 4096).unwrap(), 305);
}

#[test]
fn remove_keeps_mapping_outside_range() {
    let mut inode = root_with_one_leaf();
    let mut dev = make_test_dev(64 * 4096);
    extent_remove(&mut dev, &mut inode, 3, 4, 4096).unwrap();
    assert_eq!(get_block_ptr_extent(&mut dev, &inode, 2, 4096).unwrap(), 102);
    assert_eq!(get_block_ptr_extent(&mut dev, &inode, 3, 4096).unwrap(), 0);
    assert_eq!(get_block_ptr_extent(&mut dev, &inode, 6, 4096).unwrap(), 0);
    assert_eq!(get_block_ptr_extent(&mut dev, &inode, 7, 4096).unwrap(), 107);
    assert_eq!(extent_find(&mut dev, &inode, 4, 4096).unwrap(), None);
}

#[test]
fn insert_adjacent_merges_and_maps_union() {
    let (mut dev, bm, mut sb) = make_vol_for_extents();
    let mut alloc = BlockAlloc::Legacy { bitmap: bm, data_start: VOL_DATA_START };
    let mut inode = root_with_one_leaf();
    // continues [0, 10) -> 100.. both logically and physically: merged into one leaf
    extent_insert(&mut dev, &mut inode, &mut alloc, &mut sb, 10, 110, 5, 4096).unwrap();
    let (hdr, _) = read_inode_extent_root(&inode).unwrap();
    assert_eq!(hdr.entries, 1);
    // a separate run
    extent_insert(&mut dev, &mut inode, &mut alloc, &mut sb, 40, 500, 2, 4096).unwrap();
    let (hdr, _) = read_inode_extent_root(&inode).unwrap();
    assert_eq!(hdr.entries, 2);
    assert_eq!(get_block_ptr_extent(&mut dev, &inode, 9, 4096).unwrap(), 109);
    assert_eq!(get_block_ptr_extent(&mut dev, &inode, 14, 4096).unwrap(), 114);
    assert_eq!(get_block_ptr_extent(&mut dev, &inode, 15, 4096).unwrap(), 0);
    assert_eq!(get_block_ptr_extent(&mut dev, &inode, 41, 4096).unwrap(), 501);
}

fn root_with_leaves(leaves: Vec<ExtentLeaf>) -> Inode {
    let mut inode = Inode::new_file();
    init_inode_extent_root(&mut inode);
    let mut hdr = ExtentHeader::new_root();
    hdr.entries = leaves.len() as u16;
    write_inode_extent_root(&mut inode, &hdr, &ExtentEntries::Leaves(leaves));
    inode
}

#[test]
fn remove_splitting_three_leaves_succeeds() {
    // each removal range cuts a leaf in two; three leaves never overflow the root
    let mut inode = root_with_leaves(vec![
        ExtentLeaf::new(0, 100, 10),
        ExtentLeaf::new(20, 200, 10),
        ExtentLeaf::new(40, 300, 10),
    ]);
    let mut dev = make_test_dev(64 * 4096);
    let freed = extent_remove(&mut dev, &mut inode, 3, 2, 4096).unwrap();
    assert_eq!(freed, vec![103, 104]);
    let (hdr, _) = read_inode_extent_root(&inode).unwrap();
    assert_eq!(hdr.entries, 4);
    assert_eq!(get_block_ptr_extent(&mut dev, &inode, 2, 4096).unwrap(), 102);
    assert_eq!(get_block_ptr_extent(&mut dev, &inode, 4, 4096).unwrap(), 0);
    assert_eq!(get_block_ptr_extent(&mut dev, &inode, 5, 4096).unwrap(), 105);
}

#[test]
fn mark_initialized_without_extent_is_not_found() {
    let (mut dev, bm, mut sb) = make_vol_for_extents();
    let mut alloc = vol_alloc(bm);
    let mut inode = root_with_one_leaf();
    let before = inode.clone();
    let r = cfs::extent_tree::extent_mark_initialized(&mut dev, &mut inode, &mut alloc, &mut sb, 50, 2, 4096);
    assert_eq!(r, Err(cfs::error::VolumeError::NotFound));
    assert_eq!(inode.direct_blocks, before.direct_blocks);
}

#[test]
fn mark_initialized_on_initialized_extent_changes_nothing() {
    let (mut dev, bm, mut sb) = make_vol_for_extents();
    let mut alloc = vol_alloc(bm);
    let mut inode = root_with_one_leaf();
    let before = inode.clone();
    let free_before = sb.free_blocks;
    cfs::extent_tree::extent_mark_initialized(&mut dev, &mut inode, &mut alloc, &mut sb, 2, 3, 4096).unwrap();
    assert_eq!(inode.direct_blocks, before.direct_blocks);
    assert_eq!(sb.free_blocks, free_before);
}

#[test]
fn mark_initialized_splits_preallocated_extent() {
    let (mut dev, bm, mut sb) = make_vol_for_extents();
    let mut alloc = vol_alloc(bm);
    let mut inode = Inode::new_file();
    init_inode_extent_root(&mut inode);
    cfs::extent_tree::extent_insert_uninit(&mut dev, &mut inode, &mut alloc, &mut sb, 0, 100, 10, 4096).unwrap();
    assert_eq!(get_block_ptr_extent(&mut dev, &inode, 4, 4096).unwrap(), 0);
    cfs::extent_tree::extent_mark_initialized(&mut dev, &mut inode, &mut alloc, &mut sb, 4, 2, 4096).unwrap();
    assert_eq!(get_block_ptr_extent(&mut dev, &inode, 3, 4096).unwrap(), 0);
    assert_eq!(get_block_ptr_extent(&mut dev, &inode, 4, 4096).unwrap(), 104);
    assert_eq!(get_block_ptr_extent(&mut dev, &inode, 5, 4096).unwrap(), 105);
    assert_eq!(get_block_ptr_extent(&mut dev, &inode, 6, 4096).unwrap(), 0);
}

#[test]
fn read_data_follows_flat_extent_root() {
    let mut dev = make_test_dev(256 * 4096);
    let mut inode = root_with_one_leaf();
    inode.size = 3 * 4096;
    let mut block = vec![0u8; 4096];
    block[0] = 0xAB;
    block[4095] = 0xCD;
    cfs::device::CFSBlockDevice::write(&mut dev, 101 * 4096, &block).unwrap();
    let v = cfs::file_io::read_data(&mut dev, &inode, 4096, 4095, 3).unwrap();
    assert_eq!(v, vec![0u8, 0xAB, 0]);
    let v = cfs::file_io::read_data(&mut dev, &inode, 4096, 2 * 4096 - 1, 10).unwrap();
    assert_eq!(v[0], 0xCD);
    assert_eq!(v.len(), 10);
}
