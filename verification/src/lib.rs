//! Verified core of the CFS volume layer: allocation bitmaps, block groups,
//! inodes, extents, directory entries, the undo journal and friends.

pub mod codec;
pub mod device;
pub mod error;
pub mod bitmap;
pub mod superblock;
pub mod block_alloc;
pub mod lock;
pub mod delayed_alloc;
pub mod group;
pub mod cache;
pub mod options;
pub mod inode;
pub mod extent;
pub mod group_alloc;
pub mod journal;
pub mod dir;
pub mod htree;
pub mod file_io;
pub mod extent_tree;

use vstd::prelude::*;

verus! {

/// File-type constants stored in `Inode.mode`.
pub const INODE_UNUSED: u16 = 0;
pub const INODE_FILE: u16 = 1;
pub const INODE_DIR: u16 = 2;
pub const INODE_SYMLINK: u16 = 3;

pub const ROOT_INODE: u32 = 0;
pub const DEFAULT_BLOCK_SIZE: u32 = 4096;
pub const INODE_SIZE: u32 = 128;

pub open spec fn spec_ceil_div(a: int, b: int) -> int {
    (a + (b - 1)) / b
}

/// Ceiling division.
pub fn ceil_div(a: u64, b: u64) -> (r: u64)
    requires
        b > 0,
        a + b - 1 <= u64::MAX,
    ensures
        r == spec_ceil_div(a as int, b as int),
{
    (a + (b - 1)) / b
}

} // verus!
