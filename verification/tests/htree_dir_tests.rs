use cfs::bitmap::Bitmap;
use cfs::block_alloc::BlockAlloc;
use cfs::device::MemBlockDevice;
use cfs::dir::{
    add_dir_entry_dispatch, init_dir_block, lookup_dispatch, read_dir_entries_dispatch, remove_dir_entry_dispatch,
    DirEntry,
};
use cfs::htree::{leaf_capacity, HTree};
use cfs::inode::{Inode, INODE_FLAG_HTREE};
use cfs::superblock::{Superblock, FEATURE_HTREE};
use cfs::{INODE_FILE, ROOT_INODE};

const BS: u32 = 4096;
const DATA_START: u64 = 16;

/// A v3 volume with the index feature, and a directory (an extent-mapped
/// inode holding "." and "..") made in it.
struct Vol {
    dev: MemBlockDevice,
    alloc: BlockAlloc,
    sb: Superblock,
}

const DIR_INODE: u32 = 5;

fn create_test_volume() -> Vol {
    let total: u64 = 8 * 1024 * 1024 / BS as u64;
    let data_blocks = total - DATA_START;
    let dev = MemBlockDevice::new((total * BS as u64) as usize);
    let bitmap = Bitmap::new_empty(data_blocks, 2, 1, BS);
    let sb = Superblock {
        version: 3,
        block_size: BS,
        features_flags: FEATURE_HTREE,
        total_blocks: total,
        data_start: DATA_START,
        free_blocks: data_blocks,
        hash_seed: [1, 2, 3, 4, 5, 6, 7, 8],
        ..Default::default()
    };
    Vol { dev, alloc: BlockAlloc::Legacy { bitmap, data_start: DATA_START }, sb }
}

fn mkdir(vol: &mut Vol) -> Inode {
    let mut dir = Inode::new_dir_v3(0o755);
    init_dir_block(&mut vol.dev, &mut dir, &mut vol.alloc, &mut vol.sb, DIR_INODE, ROOT_INODE).unwrap();
    dir
}

fn create_file(vol: &mut Vol, dir: &mut Inode, idx: u32, name: &str) {
    let entry = DirEntry::new(idx, INODE_FILE as u8, name).unwrap();
    add_dir_entry_dispatch(&mut vol.dev, dir, DIR_INODE, &mut vol.alloc, &mut vol.sb, &entry).unwrap();
}

fn has_name(vol: &mut Vol, dir: &Inode, name: &str) -> bool {
    lookup_dispatch(&mut vol.dev, dir, DIR_INODE, &vol.sb, name).unwrap().is_some()
}

fn real_names(vol: &mut Vol, dir: &Inode) -> Vec<String> {
    let entries = read_dir_entries_dispatch(&mut vol.dev, dir, DIR_INODE, &vol.sb).unwrap();
    entries
        .iter()
        .map(|e| e.name_str().to_string())
        .filter(|n| n != "." && n != "..")
        .collect()
}

#[test]
fn test_htree_convert_and_lookup() {
    let mut vol = create_test_volume();
    let mut dir = mkdir(&mut vol);
    let file_count = leaf_capacity(4096) + 5;
    for i in 0..file_count {
        create_file(&mut vol, &mut dir, i as u32 + 10, &format!("file_{:04}", i));
    }
    assert!(dir.flags & INODE_FLAG_HTREE != 0);
    assert_eq!(real_names(&mut vol, &dir).len(), file_count);
    for i in 0..file_count {
        let name = format!("file_{:04}", i);
        assert!(has_name(&mut vol, &dir, &name), "missing: {}", name);
    }
}

#[test]
fn test_htree_convert_preserves_dot_entries() {
    let mut vol = create_test_volume();
    let mut dir = mkdir(&mut vol);
    let cap = leaf_capacity(4096);
    for i in 0..cap + 2 {
        create_file(&mut vol, &mut dir, i as u32 + 10, &format!("f_{:04}", i));
    }
    let entries = read_dir_entries_dispatch(&mut vol.dev, &dir, DIR_INODE, &vol.sb).unwrap();
    let has_dot = entries.iter().any(|e| e.name_str() == ".");
    let has_dotdot = entries.iter().any(|e| e.name_str() == "..");
    assert!(has_dot, ". missing after HTree conversion");
    assert!(has_dotdot, ".. missing after HTree conversion");
}

#[test]
fn test_htree_remove_entry() {
    let mut vol = create_test_volume();
    let mut dir = mkdir(&mut vol);
    let cap = leaf_capacity(4096);
    for i in 0..cap + 2 {
        create_file(&mut vol, &mut dir, i as u32 + 10, &format!("f_{:04}", i));
    }
    remove_dir_entry_dispatch(&mut vol.dev, &dir, DIR_INODE, &vol.sb, "f_0005").unwrap();
    assert!(!has_name(&mut vol, &dir, "f_0005"));
    assert!(has_name(&mut vol, &dir, "f_0000"));
    assert!(has_name(&mut vol, &dir, &format!("f_{:04}", cap + 1)));
}

#[test]
fn test_htree_many_inserts() {
    let mut vol = create_test_volume();
    let mut dir = mkdir(&mut vol);
    let count = 200;
    for i in 0..count {
        create_file(&mut vol, &mut dir, i as u32 + 10, &format!("item_{:05}", i));
    }
    assert_eq!(real_names(&mut vol, &dir).len(), count);
    for i in 0..count {
        assert!(has_name(&mut vol, &dir, &format!("item_{:05}", i)));
    }
}

#[test]
fn test_htree_mixed_linear_and_htree() {
    let mut vol = create_test_volume();
    let mut small = mkdir(&mut vol);
    create_file(&mut vol, &mut small, 10, "a.txt");
    create_file(&mut vol, &mut small, 11, "b.txt");
    let mut large = mkdir(&mut vol);
    let cap = leaf_capacity(4096);
    for i in 0..cap + 5 {
        create_file(&mut vol, &mut large, i as u32 + 20, &format!("f_{:04}", i));
    }
    assert!(small.flags & INODE_FLAG_HTREE == 0);
    assert_eq!(real_names(&mut vol, &small).len(), 2);
    assert_eq!(real_names(&mut vol, &large).len(), cap + 5);
}

#[test]
fn test_htree_readdir_no_duplicates() {
    let mut vol = create_test_volume();
    let mut dir = mkdir(&mut vol);
    let count = 100;
    for i in 0..count {
        create_file(&mut vol, &mut dir, i as u32 + 10, &format!("x_{:04}", i));
    }
    let entries = read_dir_entries_dispatch(&mut vol.dev, &dir, DIR_INODE, &vol.sb).unwrap();
    let names: Vec<&str> = entries.iter().map(|e| e.name_str()).collect();
    let mut unique = names.clone();
    unique.sort();
    unique.dedup();
    assert_eq!(names.len(), unique.len(), "duplicate entries in readdir");
}

#[test]
fn htree_load_reads_back_saved_root() {
    let mut vol = create_test_volume();
    let mut dir = mkdir(&mut vol);
    for i in 0..leaf_capacity(4096) + 1 {
        create_file(&mut vol, &mut dir, i as u32 + 10, &format!("n_{:04}", i));
    }
    let h = HTree::load(&mut vol.dev, &dir, DIR_INODE, &vol.sb).unwrap();
    assert_eq!(h.dot_inode, DIR_INODE);
    assert_eq!(h.dotdot_inode, ROOT_INODE);
    assert_eq!(h.root_info.depth, 0);
    assert_eq!(h.root_entries[0].hash, 0);
    assert_eq!(h.root_info.count as usize, h.root_entries.len());
    assert!(h.root_entries.windows(2).all(|w| w[0].hash <= w[1].hash));
    h.save_root(&mut vol.dev, &dir).unwrap();
    let g = HTree::load(&mut vol.dev, &dir, DIR_INODE, &vol.sb).unwrap();
    assert_eq!(g.root_entries, h.root_entries);
}

#[test]
fn htree_insert_duplicate_is_refused() {
    let mut vol = create_test_volume();
    let mut dir = mkdir(&mut vol);
    for i in 0..leaf_capacity(4096) + 1 {
        create_file(&mut vol, &mut dir, i as u32 + 10, &format!("d_{:04}", i));
    }
    let mut h = HTree::load(&mut vol.dev, &dir, DIR_INODE, &vol.sb).unwrap();
    let r = h.insert(&mut vol.dev, &mut dir, &mut vol.alloc, &mut vol.sb, "d_0003", 99, INODE_FILE as u8);
    assert_eq!(r, Err(cfs::error::VolumeError::AlreadyExists));
}
