//! Mount-time options of a volume.

use vstd::prelude::*;
use crate::error::VolumeError;

verus! {

/// How access time (atime) is updated on reads.
#[derive(Debug, Clone, Copy, PartialEq, Eq, Structural)]
pub enum AtimeMode {
    /// Update atime on every read.
    Always,
    /// Update atime only if atime <= mtime or atime is more than a day old.
    Relatime,
    /// Never update atime.
    Never,
}

/// What to do when a checksum or I/O error is detected.
#[derive(Debug, Clone, Copy, PartialEq, Eq, Structural)]
pub enum ErrorBehavior {
    /// Report the error and continue operating.
    Continue,
    /// Switch the volume to read-only mode.
    ReadOnly,
}

/// Parameters chosen per mount.
#[derive(Debug, Clone, Copy)]
pub struct MountOptions {
    /// Inode cache capacity; 0 disables caching.
    pub cache_inodes: u32,
    /// Block cache capacity; 0 disables caching.
    pub cache_blocks: u32,
    /// Zero freed data blocks during this session.
    pub secure_delete: bool,
    pub atime_mode: AtimeMode,
    pub read_only: bool,
}

impl Default for MountOptions {
    /// 256 cached inodes, 512 cached blocks, secure delete, relatime, read-write.
    fn default() -> (r: Self)
        ensures
            r.cache_inodes == 256,
            r.cache_blocks == 512,
            r.secure_delete,
            r.atime_mode == AtimeMode::Relatime,
            !r.read_only,
    {
        MountOptions {
            cache_inodes: 256,
            cache_blocks: 512,
            secure_delete: true,
            atime_mode: AtimeMode::Relatime,
            read_only: false,
        }
    }
}

/// Results of a defragmentation pass.
#[derive(Debug, Clone, Copy)]
pub struct DefragStats {
    pub files_checked: u32,
    pub files_defragmented: u32,
    pub extents_before: u32,
    pub extents_after: u32,
    pub blocks_moved: u64,
    pub already_contiguous: u32,
    pub skipped_errors: u32,
}

/// The block sizes a volume can be formatted with: the powers of two from
/// 512 to 65536.
pub open spec fn valid_block_size(bs: u32) -> bool {
    bs == 512 || bs == 1024 || bs == 2048 || bs == 4096 || bs == 8192 || bs == 16384 || bs == 32768
        || bs == 65536
}

/// The integer format parameters are acceptable: block size a power of two
/// in 512..=65536, inode size 128 or 256 and at most the block size, inode
/// ratio in 1024..=65536, label at most 31 bytes, blocks per group in
/// 1..=8 * block size, permissions at most 0o7777.
pub open spec fn format_fields_ok(
    block_size: u32,
    inode_size: u32,
    inode_ratio: u32,
    label_len: usize,
    blocks_per_group: u32,
    default_permissions: u32,
) -> bool {
    &&& valid_block_size(block_size)
    &&& (inode_size == 128 || inode_size == 256)
    &&& inode_size <= block_size
    &&& 1024 <= inode_ratio <= 65536
    &&& label_len <= 31
    &&& 1 <= blocks_per_group <= block_size * 8
    &&& default_permissions <= 0o7777
}

/// Check the integer fields of a set of format options (the journal share,
/// a fraction, is checked by the caller). Fails with `Invalid` exactly when
/// `format_fields_ok` does not hold.
pub fn validate_format_fields(
    block_size: u32,
    inode_size: u32,
    inode_ratio: u32,
    label_len: usize,
    blocks_per_group: u32,
    default_permissions: u32,
) -> (r: Result<(), VolumeError>)
    ensures
        r is Ok <==> format_fields_ok(block_size, inode_size, inode_ratio, label_len, blocks_per_group, default_permissions),
        r is Err ==> r == Err::<(), VolumeError>(VolumeError::Invalid),
{
    let mut p: u32 = 512;
    let mut pow_ok = false;
    while p <= 65536
        invariant
            512 <= p <= 131072,
            p == 512 || p == 1024 || p == 2048 || p == 4096 || p == 8192 || p == 16384 || p == 32768 || p == 65536
                || p == 131072,
            pow_ok <==> (valid_block_size(block_size) && block_size < p),
        decreases 131072 - p,
    {
        if block_size == p {
            pow_ok = true;
        }
        p = p * 2;
    }
    if !pow_ok {
        return Err(VolumeError::Invalid);
    }
    if inode_size != 128 && inode_size != 256 {
        return Err(VolumeError::Invalid);
    }
    if inode_size > block_size {
        return Err(VolumeError::Invalid);
    }
    if inode_ratio < 1024 || inode_ratio > 65536 {
        return Err(VolumeError::Invalid);
    }
    if label_len > 31 {
        return Err(VolumeError::Invalid);
    }
    if blocks_per_group == 0 || blocks_per_group > block_size * 8 {
        return Err(VolumeError::Invalid);
    }
    if default_permissions > 0o7777 {
        return Err(VolumeError::Invalid);
    }
    Ok(())
}

} // verus!
