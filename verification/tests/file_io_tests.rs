use cfs::bitmap::Bitmap;
use cfs::block_alloc::{alloc_blocks, BlockAlloc};
use cfs::device::{CFSBlockDevice, MemBlockDevice};
use cfs::file_io::{
    block_offset, free_all_blocks, get_block_ptr, read_data, set_block_ptr, truncate, write_data, DIRECT_BLOCKS,
};
use cfs::inode::{Inode, INODE_FLAG_INLINE_DATA};
use cfs::superblock::Superblock;
use cfs::error::VolumeError;

const BS: u32 = 4096;
const DATA_START: u64 = 8;

/// A 2 MiB device whose blocks from `DATA_START` on are free data blocks.
fn make_vol() -> (MemBlockDevice, Bitmap, Superblock) {
    let total: u64 = 2 * 1024 * 1024 / BS as u64;
    let data_blocks = total - DATA_START;
    let dev = MemBlockDevice::new((total * BS as u64) as usize);
    let bm = Bitmap::new_empty(data_blocks, 2, 1, BS);
    let sb = Superblock {
        version: 2,
        block_size: BS,
        total_blocks: total,
        data_start: DATA_START,
        free_blocks: data_blocks,
        ..Default::default()
    };
    (dev, bm, sb)
}

fn legacy(bm: Bitmap) -> BlockAlloc {
    BlockAlloc::Legacy { bitmap: bm, data_start: DATA_START }
}

#[test]
fn test_direct_block_set_get() {
    let (mut dev, mut bm, mut sb) = make_vol();
    let mut inode = Inode::new_file();
    let blocks = alloc_blocks(&mut bm, &mut sb, 2).unwrap();
    let phys0 = DATA_START + blocks[0];
    let phys9 = DATA_START + blocks[1];
    let mut ba = legacy(bm);
    set_block_ptr(&mut dev, &mut inode, 0, phys0, BS, &mut ba, &mut sb).unwrap();
    set_block_ptr(&mut dev, &mut inode, 9, phys9, BS, &mut ba, &mut sb).unwrap();
    assert_eq!(get_block_ptr(&mut dev, &inode, 0, BS).unwrap(), phys0);
    assert_eq!(get_block_ptr(&mut dev, &inode, 9, BS).unwrap(), phys9);
}

#[test]
fn test_indirect_block_auto_alloc() {
    let (mut dev, mut bm, mut sb) = make_vol();
    let mut inode = Inode::new_file();
    let blocks = alloc_blocks(&mut bm, &mut sb, 1).unwrap();
    let phys = DATA_START + blocks[0];
    assert_eq!(inode.indirect_block, 0);
    let mut ba = legacy(bm);
    set_block_ptr(&mut dev, &mut inode, 10, phys, BS, &mut ba, &mut sb).unwrap();
    assert_ne!(inode.indirect_block, 0);
    assert_eq!(get_block_ptr(&mut dev, &inode, 10, BS).unwrap(), phys);
}

#[test]
fn test_double_indirect_set_get() {
    let (mut dev, mut bm, mut sb) = make_vol();
    let mut inode = Inode::new_file();
    let ptrs_per_block = BS as u64 / 8;
    let first_double = DIRECT_BLOCKS + ptrs_per_block;
    let blocks = alloc_blocks(&mut bm, &mut sb, 1).unwrap();
    let phys = DATA_START + blocks[0];
    assert_eq!(inode.double_indirect, 0);
    let mut ba = legacy(bm);
    set_block_ptr(&mut dev, &mut inode, first_double, phys, BS, &mut ba, &mut sb).unwrap();
    assert_ne!(inode.double_indirect, 0);
    assert_eq!(get_block_ptr(&mut dev, &inode, first_double, BS).unwrap(), phys);
}

#[test]
fn test_get_unallocated_returns_zero() {
    let (mut dev, _bm, _sb) = make_vol();
    let inode = Inode::new_file();
    assert_eq!(get_block_ptr(&mut dev, &inode, 0, BS).unwrap(), 0);
    assert_eq!(get_block_ptr(&mut dev, &inode, 5, BS).unwrap(), 0);
    assert_eq!(get_block_ptr(&mut dev, &inode, 10, BS).unwrap(), 0);
}

#[test]
fn test_write_read_small() {
    let (mut dev, bm, mut sb) = make_vol();
    let mut inode = Inode::new_file();
    let data = b"Hello, CFS filesystem!";
    let mut ba = legacy(bm);
    write_data(&mut dev, &mut ba, &mut sb, &mut inode, BS, 0, data).unwrap();
    assert_eq!(inode.size, data.len() as u64);
    let read_back = read_data(&mut dev, &inode, BS, 0, data.len() as u64).unwrap();
    assert_eq!(&read_back, data);
}

#[test]
fn test_write_read_multi_block() {
    let (mut dev, bm, mut sb) = make_vol();
    let mut inode = Inode::new_file();
    let data: Vec<u8> = (0..10240).map(|i| (i % 251) as u8).collect();
    let mut ba = legacy(bm);
    write_data(&mut dev, &mut ba, &mut sb, &mut inode, BS, 0, &data).unwrap();
    assert_eq!(inode.size, 10240);
    assert_eq!(inode.block_count, 3);
    let read_back = read_data(&mut dev, &inode, BS, 0, 10240).unwrap();
    assert_eq!(read_back, data);
}

#[test]
fn test_write_at_offset() {
    let (mut dev, bm, mut sb) = make_vol();
    let mut inode = Inode::new_file();
    let data = b"world";
    let mut ba = legacy(bm);
    write_data(&mut dev, &mut ba, &mut sb, &mut inode, BS, 2048, data).unwrap();
    assert_eq!(inode.size, 2048 + 5);
    let read_back = read_data(&mut dev, &inode, BS, 0, inode.size).unwrap();
    assert!(read_back[..2048].iter().all(|&b| b == 0));
    assert_eq!(&read_back[2048..2053], b"world");
}

#[test]
fn test_write_extends_size() {
    let (mut dev, bm, mut sb) = make_vol();
    let mut inode = Inode::new_file();
    let mut ba = legacy(bm);
    write_data(&mut dev, &mut ba, &mut sb, &mut inode, BS, 0, &[1u8; 100]).unwrap();
    assert_eq!(inode.size, 100);
    write_data(&mut dev, &mut ba, &mut sb, &mut inode, BS, 300, &[2u8; 200]).unwrap();
    assert_eq!(inode.size, 500);
}

#[test]
fn test_free_all_blocks() {
    let (mut dev, bm, mut sb) = make_vol();
    let mut inode = Inode::new_file();
    let initial_free = sb.free_blocks;
    let data = vec![0xABu8; 10240];
    let mut ba = legacy(bm);
    write_data(&mut dev, &mut ba, &mut sb, &mut inode, BS, 0, &data).unwrap();
    assert_eq!(inode.block_count, 3);
    assert_eq!(sb.free_blocks, initial_free - 3);
    free_all_blocks(&mut dev, &mut ba, &mut sb, &mut inode, BS, false).unwrap();
    assert_eq!(inode.size, 0);
    assert_eq!(inode.block_count, 0);
    assert_eq!(sb.free_blocks, initial_free);
}

#[test]
fn test_truncate_shrinks() {
    let (mut dev, bm, mut sb) = make_vol();
    let mut inode = Inode::new_file();
    let data: Vec<u8> = (0..10240).map(|i| (i % 251) as u8).collect();
    let mut ba = legacy(bm);
    write_data(&mut dev, &mut ba, &mut sb, &mut inode, BS, 0, &data).unwrap();
    assert_eq!(inode.block_count, 3);
    truncate(&mut dev, &mut ba, &mut sb, &mut inode, BS, 2048, false).unwrap();
    assert_eq!(inode.size, 2048);
    assert_eq!(inode.block_count, 1);
    let read_back = read_data(&mut dev, &inode, BS, 0, 2048).unwrap();
    assert_eq!(&read_back, &data[..2048]);
}

#[test]
fn test_truncate_to_zero() {
    let (mut dev, bm, mut sb) = make_vol();
    let mut inode = Inode::new_file();
    let initial_free = sb.free_blocks;
    let mut ba = legacy(bm);
    write_data(&mut dev, &mut ba, &mut sb, &mut inode, BS, 0, &[1u8; 5000]).unwrap();
    truncate(&mut dev, &mut ba, &mut sb, &mut inode, BS, 0, false).unwrap();
    assert_eq!(inode.size, 0);
    assert_eq!(inode.block_count, 0);
    assert_eq!(sb.free_blocks, initial_free);
}

#[test]
fn block_offset_checks_overflow() {
    assert_eq!(block_offset(3, 4096), Ok(3 * 4096));
    assert_eq!(block_offset(u64::MAX / 4096, 4096), Err(VolumeError::OutOfRange));
}

#[test]
fn secure_free_zeroes_blocks() {
    let (mut dev, bm, mut sb) = make_vol();
    let mut inode = Inode::new_file();
    let mut ba = legacy(bm);
    write_data(&mut dev, &mut ba, &mut sb, &mut inode, BS, 0, &[0x5Au8; 4096]).unwrap();
    let phys = get_block_ptr(&mut dev, &inode, 0, BS).unwrap();
    assert_ne!(phys, 0);
    free_all_blocks(&mut dev, &mut ba, &mut sb, &mut inode, BS, true).unwrap();
    let block = dev.read(phys * BS as u64, BS as usize).unwrap();
    assert!(block.iter().all(|&b| b == 0));
    assert_eq!(inode.direct_blocks, [0u64; 10]);
}

#[test]
fn free_all_blocks_through_indirect_tables() {
    let (mut dev, bm, mut sb) = make_vol();
    let mut inode = Inode::new_file();
    let initial_free = sb.free_blocks;
    let mut ba = legacy(bm);
    // 12 blocks: 10 direct, 2 through the indirect table (plus the table).
    let data = vec![7u8; 12 * 4096];
    write_data(&mut dev, &mut ba, &mut sb, &mut inode, BS, 0, &data).unwrap();
    assert_ne!(inode.indirect_block, 0);
    assert_eq!(sb.free_blocks, initial_free - 13);
    free_all_blocks(&mut dev, &mut ba, &mut sb, &mut inode, BS, false).unwrap();
    assert_eq!(inode.indirect_block, 0);
    assert_eq!(sb.free_blocks, initial_free);
}

#[test]
fn truncate_grows_sparsely_and_zeroes_tail() {
    let (mut dev, bm, mut sb) = make_vol();
    let mut inode = Inode::new_file();
    let mut ba = legacy(bm);
    write_data(&mut dev, &mut ba, &mut sb, &mut inode, BS, 0, &[9u8; 3000]).unwrap();
    let free_before = sb.free_blocks;
    truncate(&mut dev, &mut ba, &mut sb, &mut inode, BS, 100_000, false).unwrap();
    assert_eq!(inode.size, 100_000);
    assert_eq!(sb.free_blocks, free_before);
    truncate(&mut dev, &mut ba, &mut sb, &mut inode, BS, 1000, false).unwrap();
    truncate(&mut dev, &mut ba, &mut sb, &mut inode, BS, 3000, false).unwrap();
    let back = read_data(&mut dev, &inode, BS, 0, 3000).unwrap();
    assert!(back[..1000].iter().all(|&b| b == 9));
    assert!(back[1000..].iter().all(|&b| b == 0));
}

#[test]
fn inline_file_write_truncate_and_free() {
    let (mut dev, bm, mut sb) = make_vol();
    let mut inode = Inode::new_file_v3(0o644);
    let mut ba = legacy(bm);
    let free_before = sb.free_blocks;
    write_data(&mut dev, &mut ba, &mut sb, &mut inode, BS, 0, b"inline bytes").unwrap();
    assert!(inode.flags & INODE_FLAG_INLINE_DATA != 0);
    assert_eq!(sb.free_blocks, free_before);
    truncate(&mut dev, &mut ba, &mut sb, &mut inode, BS, 6, false).unwrap();
    assert_eq!(inode.size, 6);
    assert_eq!(&inode.inline_area[..6], b"inline");
    assert!(inode.inline_area[6..12].iter().all(|&b| b == 0));
    free_all_blocks(&mut dev, &mut ba, &mut sb, &mut inode, BS, false).unwrap();
    assert_eq!(inode.size, 0);
    assert!(inode.flags & INODE_FLAG_INLINE_DATA == 0);
}

#[test]
fn small_write_into_sized_extent_file_keeps_size() {
    let (mut dev, bm, mut sb) = make_vol();
    let mut alloc = legacy(bm);
    let mut inode = Inode::new_file_v3(0o644);
    inode.size = 1000;
    write_data(&mut dev, &mut alloc, &mut sb, &mut inode, BS, 0, b"abc").unwrap();
    assert_eq!(inode.size, 1000);
    assert_eq!(inode.flags & INODE_FLAG_INLINE_DATA, 0);
    let back = read_data(&mut dev, &inode, BS, 0, 1000).unwrap();
    assert_eq!(&back[..3], b"abc");
    assert!(back[3..].iter().all(|&b| b == 0));
}

#[test]
fn overwrite_of_mapped_extent_blocks_reads_back() {
    let (mut dev, bm, mut sb) = make_vol();
    let mut alloc = legacy(bm);
    let mut inode = Inode::new_file_v3(0o644);
    cfs::extent::init_inode_extent_root(&mut inode);
    cfs::extent_tree::extent_insert(&mut dev, &mut inode, &mut alloc, &mut sb, 0, 100, 4, BS).unwrap();
    inode.size = 4 * BS as u64;
    let before = read_data(&mut dev, &inode, BS, 0, 4 * BS as u64).unwrap();
    let data: Vec<u8> = (0..6000u32).map(|i| (i % 251) as u8 + 1).collect();
    write_data(&mut dev, &mut alloc, &mut sb, &mut inode, BS, 3000, &data).unwrap();
    assert_eq!(inode.size, 4 * BS as u64);
    let after = read_data(&mut dev, &inode, BS, 0, 4 * BS as u64).unwrap();
    assert_eq!(&after[3000..9000], &data[..]);
    assert_eq!(&after[..3000], &before[..3000]);
    assert_eq!(&after[9000..], &before[9000..]);
}

#[test]
fn truncate_extent_file_unmaps_and_frees_cut_blocks() {
    let (mut dev, bm, mut sb) = make_vol();
    let mut alloc = legacy(bm);
    let mut inode = Inode::new_file_v3(0o644);
    let data: Vec<u8> = (0..4 * BS as usize).map(|i| (i % 200) as u8 + 1).collect();
    write_data(&mut dev, &mut alloc, &mut sb, &mut inode, BS, 0, &data).unwrap();
    let free_before = sb.free_blocks;
    let new_size = BS as u64 + 10;
    truncate(&mut dev, &mut alloc, &mut sb, &mut inode, BS, new_size, false).unwrap();
    assert_eq!(inode.size, new_size);
    assert_eq!(sb.free_blocks, free_before + 2);
    assert!(get_block_ptr(&mut dev, &inode, 1, BS).unwrap() != 0);
    assert_eq!(get_block_ptr(&mut dev, &inode, 2, BS).unwrap(), 0);
    assert_eq!(get_block_ptr(&mut dev, &inode, 3, BS).unwrap(), 0);
    let back = read_data(&mut dev, &inode, BS, 0, new_size).unwrap();
    assert_eq!(&back[..], &data[..new_size as usize]);
}
