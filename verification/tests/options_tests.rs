use cfs::error::VolumeError;
use cfs::journal::clamp_journal_blocks;
use cfs::options::{validate_format_fields, AtimeMode, MountOptions};

#[test]
fn test_mount_options_default() {
    let m = MountOptions::default();
    assert_eq!(m.cache_inodes, 256);
    assert_eq!(m.cache_blocks, 512);
    assert!(m.secure_delete);
    assert_eq!(m.atime_mode, AtimeMode::Relatime);
    assert!(!m.read_only);
}

// block size, inode size, inode ratio, label length, blocks per group, permissions
fn check(bs: u32, isz: u32, ratio: u32, label: usize, bpg: u32, perm: u32) -> Result<(), VolumeError> {
    validate_format_fields(bs, isz, ratio, label, bpg, perm)
}

#[test]
fn test_format_options_default_validates() {
    assert!(check(4096, 256, 16384, 0, 4096 * 8, 0o755).is_ok());
}

#[test]
fn test_format_options_all_presets_validate() {
    assert!(check(4096, 256, 16384, 0, 4096 * 8, 0o755).is_ok());
    assert!(check(16384, 256, 65536, 0, 16384 * 8, 0o755).is_ok());
    assert!(check(4096, 256, 4096, 0, 4096 * 8, 0o755).is_ok());
    assert!(check(4096, 128, 16384, 0, 4096 * 8, 0o755).is_ok());
}

#[test]
fn test_format_options_bad_block_size() {
    assert!(check(100, 256, 16384, 0, 4096 * 8, 0o755).is_err());
    assert!(check(0, 256, 16384, 0, 4096 * 8, 0o755).is_err());
    assert!(check(131072, 256, 16384, 0, 4096 * 8, 0o755).is_err());
}

#[test]
fn test_format_options_bad_inode_size() {
    assert!(check(4096, 64, 16384, 0, 4096 * 8, 0o755).is_err());
    assert!(check(4096, 512, 16384, 0, 4096 * 8, 0o755).is_err());
}

#[test]
fn test_format_options_inode_gt_block() {
    assert!(check(128, 256, 16384, 0, 128 * 8, 0o755).is_err());
}

#[test]
fn test_format_options_bad_inode_ratio() {
    assert!(check(4096, 256, 512, 0, 4096 * 8, 0o755).is_err());
    assert!(check(4096, 256, 100_000, 0, 4096 * 8, 0o755).is_err());
}

#[test]
fn test_format_options_bad_label() {
    assert!(check(4096, 256, 16384, "x".repeat(32).len(), 4096 * 8, 0o755).is_err());
    assert!(check(4096, 256, 16384, 31, 4096 * 8, 0o755).is_ok());
}

#[test]
fn test_format_options_bad_blocks_per_group() {
    assert!(check(4096, 256, 16384, 0, 4096 * 8 + 1, 0o755).is_err());
    assert!(check(4096, 256, 16384, 0, 0, 0o755).is_err());
}

#[test]
fn format_fields_reject_wide_permissions() {
    assert_eq!(check(4096, 256, 16384, 0, 4096 * 8, 0o10000), Err(VolumeError::Invalid));
    assert!(check(4096, 256, 16384, 0, 4096 * 8, 0o7777).is_ok());
}

#[test]
fn format_fields_accept_every_power_of_two_block_size() {
    for bs in [512u32, 1024, 2048, 4096, 8192, 16384, 32768, 65536] {
        assert!(check(bs, 128, 16384, 0, bs * 8, 0o644).is_ok());
    }
    assert!(check(3072, 128, 16384, 0, 3072 * 8, 0o644).is_err());
}

#[test]
fn journal_blocks_clamped_to_bounds() {
    assert_eq!(clamp_journal_blocks(1, 0), 64);
    assert_eq!(clamp_journal_blocks(10485, 10485), 10485);
    assert_eq!(clamp_journal_blocks(500_000, 20_000), 131072);
    assert_eq!(clamp_journal_blocks(500_000, 200_000), 200_000);
}
