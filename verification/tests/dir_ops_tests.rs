use cfs::bitmap::Bitmap;
use cfs::block_alloc::BlockAlloc;
use cfs::device::MemBlockDevice;
use cfs::dir::{
    add_dir_entry, add_dir_entry_dispatch, init_dir_block, lookup, lookup_dispatch, read_dir_entries,
    read_dir_entries_dispatch, remove_dir_entry, remove_dir_entry_dispatch, DirEntry, DIR_ENTRY_SIZE,
};
use cfs::error::VolumeError;
use cfs::inode::{Inode, InodeTable, INODE_FLAG_HTREE};
use cfs::superblock::{Superblock, FEATURE_HTREE};
use cfs::{INODE_DIR, INODE_FILE, ROOT_INODE};

const BS: u32 = 4096;
const DATA_START: u64 = 8;

/// A 1 MiB volume with a root directory holding "." and "..".
struct Vol {
    dev: MemBlockDevice,
    alloc: BlockAlloc,
    sb: Superblock,
    table: InodeTable,
}

fn make_vol_with(version: u32, features: u32) -> Vol {
    let total: u64 = 1_048_576 / BS as u64;
    let data_blocks = total - DATA_START;
    let mut dev = MemBlockDevice::new((total * BS as u64) as usize);
    let bitmap = Bitmap::new_empty(data_blocks, 2, 1, BS);
    let mut sb = Superblock {
        version,
        block_size: BS,
        features_flags: features,
        total_blocks: total,
        data_start: DATA_START,
        free_blocks: data_blocks,
        hash_seed: [1, 2, 3, 4, 5, 6, 7, 8],
        ..Default::default()
    };
    let mut alloc = BlockAlloc::Legacy { bitmap, data_start: DATA_START };
    let table = InodeTable::new(3, 32, BS);
    let mut root = Inode::new_dir();
    init_dir_block(&mut dev, &mut root, &mut alloc, &mut sb, ROOT_INODE, ROOT_INODE).unwrap();
    table.write_inode(&mut dev, ROOT_INODE, &root).unwrap();
    Vol { dev, alloc, sb, table }
}

fn make_vol() -> Vol {
    make_vol_with(2, 0)
}

fn add(vol: &mut Vol, idx: u32, name: &str) {
    let entry = DirEntry::new(idx, INODE_FILE as u8, name).unwrap();
    let mut root = vol.table.read_inode(&mut vol.dev, ROOT_INODE).unwrap();
    add_dir_entry(&mut vol.dev, &mut root, &mut vol.alloc, &mut vol.sb, &entry).unwrap();
    vol.table.write_inode(&mut vol.dev, ROOT_INODE, &root).unwrap();
}

fn root(vol: &mut Vol) -> Inode {
    vol.table.read_inode(&mut vol.dev, ROOT_INODE).unwrap()
}

#[test]
fn test_add_and_read_entries() {
    let mut vol = make_vol();
    for name in ["foo.txt", "bar.rs", "baz.md"] {
        add(&mut vol, 1, name);
    }
    let r = root(&mut vol);
    let entries = read_dir_entries(&mut vol.dev, &r, BS).unwrap();
    assert_eq!(entries.len(), 5);
}

#[test]
fn test_lookup_found() {
    let mut vol = make_vol();
    add(&mut vol, 42, "foo.txt");
    let r = root(&mut vol);
    let found = lookup(&mut vol.dev, &r, BS, "foo.txt").unwrap();
    assert!(found.is_some());
    assert_eq!(found.unwrap().inode_index, 42);
}

#[test]
fn test_lookup_not_found() {
    let mut vol = make_vol();
    let r = root(&mut vol);
    let found = lookup(&mut vol.dev, &r, BS, "nonexistent").unwrap();
    assert!(found.is_none());
}

#[test]
fn test_remove_entry() {
    let mut vol = make_vol();
    for (idx, name) in [(1, "a.txt"), (2, "b.txt"), (3, "c.txt")] {
        add(&mut vol, idx, name);
    }
    let r = root(&mut vol);
    remove_dir_entry(&mut vol.dev, &r, BS, "b.txt").unwrap();
    let entries = read_dir_entries(&mut vol.dev, &r, BS).unwrap();
    assert_eq!(entries.len(), 4);
    assert!(entries.iter().all(|e| e.name_str() != "b.txt"));
}

#[test]
fn test_dir_entry_slot_reuse() {
    let mut vol = make_vol();
    add(&mut vol, 1, "temp.txt");
    let dir_before = root(&mut vol);
    let blocks_before = dir_before.block_count;
    remove_dir_entry(&mut vol.dev, &dir_before, BS, "temp.txt").unwrap();
    add(&mut vol, 2, "reused.txt");
    let dir_after = root(&mut vol);
    assert_eq!(dir_after.block_count, blocks_before);
}

#[test]
fn test_dir_grows_past_one_block() {
    let mut vol = make_vol();
    let entries_per_block = BS as usize / DIR_ENTRY_SIZE;
    for i in 0..(entries_per_block - 2) {
        let name = format!("file{:04}", i);
        add(&mut vol, (i + 1) as u32, &name);
    }
    assert_eq!(root(&mut vol).block_count, 1);
    add(&mut vol, 99, "overflow.txt");
    assert_eq!(root(&mut vol).block_count, 2);
}

#[test]
fn test_dot_dotdot_created() {
    let mut vol = make_vol();
    let r = root(&mut vol);
    let entries = read_dir_entries(&mut vol.dev, &r, BS).unwrap();
    let dot = entries.iter().find(|e| e.name_str() == ".").unwrap();
    assert_eq!(dot.inode_index, ROOT_INODE);
    assert_eq!(dot.file_type, INODE_DIR as u8);
    let dotdot = entries.iter().find(|e| e.name_str() == "..").unwrap();
    assert_eq!(dotdot.inode_index, ROOT_INODE);
    assert_eq!(dotdot.file_type, INODE_DIR as u8);
}

#[test]
fn dir_ops_refuse_non_directories() {
    let mut vol = make_vol();
    let file = Inode::new_file();
    assert_eq!(read_dir_entries(&mut vol.dev, &file, BS).unwrap_err(), VolumeError::Invalid);
    assert_eq!(lookup(&mut vol.dev, &file, BS, "x").unwrap_err(), VolumeError::Invalid);
    assert_eq!(remove_dir_entry(&mut vol.dev, &file, BS, "x").unwrap_err(), VolumeError::Invalid);
}

#[test]
fn remove_missing_entry_is_not_found() {
    let mut vol = make_vol();
    let r = root(&mut vol);
    assert_eq!(remove_dir_entry(&mut vol.dev, &r, BS, "ghost").unwrap_err(), VolumeError::NotFound);
}

#[test]
fn v3_directory_blocks_carry_checksums() {
    let mut vol = make_vol_with(3, 0);
    add(&mut vol, 7, "seven.txt");
    let r = root(&mut vol);
    let entries = read_dir_entries(&mut vol.dev, &r, BS).unwrap();
    assert_eq!(entries.len(), 3);
    let found = lookup(&mut vol.dev, &r, BS, "seven.txt").unwrap().unwrap();
    assert_eq!(found.inode_index, 7);
}

#[test]
fn dispatch_converts_to_index_and_keeps_entries() {
    let mut vol = make_vol_with(3, FEATURE_HTREE);
    let mut r = root(&mut vol);
    let per_block = BS as usize / DIR_ENTRY_SIZE - 1;
    let total = per_block + 5;
    for i in 0..total {
        let name = format!("entry{:03}", i);
        let entry = DirEntry::new((i + 1) as u32, INODE_FILE as u8, &name).unwrap();
        add_dir_entry_dispatch(&mut vol.dev, &mut r, ROOT_INODE, &mut vol.alloc, &mut vol.sb, &entry).unwrap();
    }
    assert!(r.flags & INODE_FLAG_HTREE != 0);
    for i in 0..total {
        let name = format!("entry{:03}", i);
        let e = lookup_dispatch(&mut vol.dev, &r, ROOT_INODE, &vol.sb, &name).unwrap().unwrap();
        assert_eq!(e.inode_index, (i + 1) as u32);
    }
    let all = read_dir_entries_dispatch(&mut vol.dev, &r, ROOT_INODE, &vol.sb).unwrap();
    assert_eq!(all.len(), total + 2);
    assert_eq!(all[0].name_str(), ".");
    assert_eq!(all[1].name_str(), "..");
    remove_dir_entry_dispatch(&mut vol.dev, &r, ROOT_INODE, &vol.sb, "entry004").unwrap();
    assert!(lookup_dispatch(&mut vol.dev, &r, ROOT_INODE, &vol.sb, "entry004").unwrap().is_none());
    let all = read_dir_entries_dispatch(&mut vol.dev, &r, ROOT_INODE, &vol.sb).unwrap();
    assert_eq!(all.len(), total + 1);
}

#[test]
fn grown_directory_block_holds_only_the_new_entry() {
    let mut vol = make_vol();
    let entries_per_block = BS as usize / DIR_ENTRY_SIZE;
    for i in 0..(entries_per_block - 2) {
        let name = format!("f{:04}", i);
        add(&mut vol, (i + 1) as u32, &name);
    }
    add(&mut vol, 77, "spill.txt");
    let r = root(&mut vol);
    assert_eq!(r.size, 2 * BS as u64);
    let p = cfs::file_io::get_block_ptr(&mut vol.dev, &r, 1, BS).unwrap();
    assert!(p != 0);
    let block = cfs::device::CFSBlockDevice::read(&mut vol.dev, p * BS as u64, BS as usize).unwrap();
    let entry = DirEntry::new(77, INODE_FILE as u8, "spill.txt").unwrap();
    let rec = entry.serialize();
    assert_eq!(&block[0..DIR_ENTRY_SIZE], &rec[..]);
    assert!(block[DIR_ENTRY_SIZE..].iter().all(|b| *b == 0));
}
