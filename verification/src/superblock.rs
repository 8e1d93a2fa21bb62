//! The in-memory volume superblock: the counters and layout fields that the
//! allocators and directory code read and update.

use vstd::prelude::*;

verus! {

/// Feature flag: directories may be converted to hash-indexed (HTree) form.
pub const FEATURE_HTREE: u32 = 1 << 3;

/// Volume superblock fields.
#[derive(Debug, Clone, Default)]
pub struct Superblock {
    pub magic: [u8; 4],
    pub version: u32,
    pub block_size: u32,
    pub features_flags: u32,
    pub total_blocks: u64,
    pub inode_count: u32,
    pub root_inode: u32,
    pub inode_table_start: u64,
    pub bitmap_start: u64,
    pub data_start: u64,
    pub free_blocks: u64,
    pub inode_bitmap_start: u64,
    pub free_inodes: u32,
    pub uuid: [u8; 16],
    pub volume_label: [u8; 32],
    pub mount_count: u32,
    pub last_mount_time: u64,
    pub backup_sb_block: u64,
    pub checksum: u32,
    pub inode_size: u32,
    pub journal_start: u64,
    pub journal_blocks: u64,
    pub first_orphan_inode: u32,
    pub error_behavior: u8,
    pub default_permissions: u32,
    pub inode_ratio: u32,
    pub journal_sequence: u64,
    pub metadata_hmac: [u8; 8],
    pub dir_entry_size: u32,
    pub blocks_per_group: u32,
    pub inodes_per_group: u32,
    pub group_count: u32,
    pub gdt_start: u64,
    pub gdt_blocks: u32,
    pub desc_size: u32,
    pub reserved_gdt_blocks: u32,
    pub log_groups_per_flex: u32,
    pub first_group_block: u64,
    pub hash_seed: [u8; 8],
}

} // verus!
