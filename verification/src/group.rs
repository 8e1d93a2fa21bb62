//! Block groups: the 64-byte group descriptor, the volume's group layout,
//! conversions between global and per-group block numbers, and the Orlov
//! choice of a group for a new directory.

use vstd::prelude::*;
use vstd::slice::slice_subrange;
use crate::codec::{le32, le64, enc32, enc64, crc32, crc32_hash, lemma_codec_roundtrip, get_u32, get_u64, push_u32, push_u64, push_bytes};
use crate::error::VolumeError;
use crate::spec_ceil_div;
use crate::codec::{zeros, push_zeros};
use crate::device::{CFSBlockDevice, written, lemma_written_concat};

verus! {

/// On-disk size of one group descriptor.
pub const GROUP_DESC_SIZE: u32 = 64;

/// Group flag: inode table not yet zeroed (lazy init).
pub const BG_INODE_UNINIT: u32 = 1;

/// Group flag: block bitmap not yet initialized (lazy init).
pub const BG_BLOCK_UNINIT: u32 = 2;

/// Group flag: inode table has been zeroed.
pub const BG_INODE_ZEROED: u32 = 4;

/// On-disk group descriptor (64 bytes).
#[derive(Debug, Clone, Copy)]
pub struct GroupDescriptor {
    pub bg_block_bitmap: u64,
    pub bg_inode_bitmap: u64,
    pub bg_inode_table: u64,
    pub bg_free_blocks: u32,
    pub bg_free_inodes: u32,
    pub bg_used_dirs: u32,
    pub bg_flags: u32,
    pub bg_itable_unused: u32,
    /// CRC-32 of the encoded bytes `[0..44)`.
    pub bg_checksum: u32,
    pub bg_blocks_count: u64,
    pub bg_reserved: [u8; 8],
}

/// The checksummed part of the encoding: bytes `[0..44)`.
pub open spec fn gd_prefix(d: GroupDescriptor) -> Seq<u8> {
    enc64(d.bg_block_bitmap) + enc64(d.bg_inode_bitmap) + enc64(d.bg_inode_table) + enc32(
        d.bg_free_blocks,
    ) + enc32(d.bg_free_inodes) + enc32(d.bg_used_dirs) + enc32(d.bg_flags) + enc32(
        d.bg_itable_unused,
    )
}

/// The 64-byte encoding; bytes `[44..48)` hold the CRC-32 of the prefix
/// (the stored `bg_checksum` field is not written).
pub open spec fn gd_bytes(d: GroupDescriptor) -> Seq<u8> {
    gd_prefix(d) + enc32(crc32(gd_prefix(d))) + enc64(d.bg_blocks_count) + d.bg_reserved@
}

/// The stored checksum of a 64-byte buffer matches its prefix.
pub open spec fn gd_checksum_ok(buf: Seq<u8>) -> bool {
    le32(buf, 44) == crc32(buf.subrange(0, 44))
}

/// `d` holds the fields decoded from `buf`.
pub open spec fn gd_matches(d: GroupDescriptor, buf: Seq<u8>) -> bool {
    &&& d.bg_block_bitmap == le64(buf, 0)
    &&& d.bg_inode_bitmap == le64(buf, 8)
    &&& d.bg_inode_table == le64(buf, 16)
    &&& d.bg_free_blocks == le32(buf, 24)
    &&& d.bg_free_inodes == le32(buf, 28)
    &&& d.bg_used_dirs == le32(buf, 32)
    &&& d.bg_flags == le32(buf, 36)
    &&& d.bg_itable_unused == le32(buf, 40)
    &&& d.bg_checksum == le32(buf, 44)
    &&& d.bg_blocks_count == le64(buf, 48)
    &&& d.bg_reserved@ == buf.subrange(56, 64)
}

/// Decoding an encoded descriptor passes the checksum test and gives back
/// every field, with the checksum field set to the CRC of the prefix.
pub proof fn lemma_gd_roundtrip(d: GroupDescriptor)
    ensures
        gd_bytes(d).len() == 64,
        gd_checksum_ok(gd_bytes(d)),
        gd_matches(GroupDescriptor { bg_checksum: crc32(gd_prefix(d)), ..d }, gd_bytes(d)),
{
    lemma_codec_roundtrip();
    let b = gd_bytes(d);
    let p = gd_prefix(d);
    assert(p.len() == 44);
    assert(b.subrange(0, 44) =~= p);
    assert(b.subrange(0, 8) =~= enc64(d.bg_block_bitmap));
    assert(b.subrange(8, 16) =~= enc64(d.bg_inode_bitmap));
    assert(b.subrange(16, 24) =~= enc64(d.bg_inode_table));
    assert(b.subrange(24, 28) =~= enc32(d.bg_free_blocks));
    assert(b.subrange(28, 32) =~= enc32(d.bg_free_inodes));
    assert(b.subrange(32, 36) =~= enc32(d.bg_used_dirs));
    assert(b.subrange(36, 40) =~= enc32(d.bg_flags));
    assert(b.subrange(40, 44) =~= enc32(d.bg_itable_unused));
    assert(b.subrange(44, 48) =~= enc32(crc32(p)));
    assert(b.subrange(48, 56) =~= enc64(d.bg_blocks_count));
    assert(b.subrange(56, 64) =~= d.bg_reserved@);
}

impl GroupDescriptor {
    /// A descriptor for a freshly formatted group.
    pub fn new(
        block_bitmap: u64,
        inode_bitmap: u64,
        inode_table: u64,
        total_blocks: u64,
        inodes_per_group: u32,
        data_blocks: u32,
        lazy_init: bool,
    ) -> (r: Self)
        ensures
            r.bg_block_bitmap == block_bitmap,
            r.bg_inode_bitmap == inode_bitmap,
            r.bg_inode_table == inode_table,
            r.bg_free_blocks == data_blocks,
            r.bg_free_inodes == inodes_per_group,
            r.bg_used_dirs == 0,
            r.bg_flags == if lazy_init { BG_INODE_UNINIT | BG_BLOCK_UNINIT } else { BG_INODE_ZEROED },
            r.bg_itable_unused == inodes_per_group,
            r.bg_checksum == 0,
            r.bg_blocks_count == total_blocks,
            r.bg_reserved@ == seq![0u8, 0u8, 0u8, 0u8, 0u8, 0u8, 0u8, 0u8],
    {
        let flags = if lazy_init {
            BG_INODE_UNINIT | BG_BLOCK_UNINIT
        } else {
            BG_INODE_ZEROED
        };
        let r = GroupDescriptor {
            bg_block_bitmap: block_bitmap,
            bg_inode_bitmap: inode_bitmap,
            bg_inode_table: inode_table,
            bg_free_blocks: data_blocks,
            bg_free_inodes: inodes_per_group,
            bg_used_dirs: 0,
            bg_flags: flags,
            bg_itable_unused: inodes_per_group,
            bg_checksum: 0,
            bg_blocks_count: total_blocks,
            bg_reserved: [0u8, 0u8, 0u8, 0u8, 0u8, 0u8, 0u8, 0u8],
        };
        assert(r.bg_reserved@ =~= seq![0u8, 0u8, 0u8, 0u8, 0u8, 0u8, 0u8, 0u8]);
        r
    }

    /// The 64-byte on-disk encoding, with a freshly computed checksum.
    pub fn serialize(&self) -> (r: Vec<u8>)
        ensures
            r@ == gd_bytes(*self),
    {
        let mut buf: Vec<u8> = Vec::new();
        push_u64(&mut buf, self.bg_block_bitmap);
        push_u64(&mut buf, self.bg_inode_bitmap);
        push_u64(&mut buf, self.bg_inode_table);
        push_u32(&mut buf, self.bg_free_blocks);
        push_u32(&mut buf, self.bg_free_inodes);
        push_u32(&mut buf, self.bg_used_dirs);
        push_u32(&mut buf, self.bg_flags);
        push_u32(&mut buf, self.bg_itable_unused);
        proof {
            assert(buf@ =~= gd_prefix(*self));
        }
        let crc = crc32_hash(buf.as_slice());
        push_u32(&mut buf, crc);
        push_u64(&mut buf, self.bg_blocks_count);
        push_bytes(&mut buf, self.bg_reserved.as_slice());
        buf
    }

    /// Decode a 64-byte descriptor; fails when the stored checksum does not
    /// match the CRC of bytes `[0..44)`.
    pub fn deserialize(buf: &[u8]) -> (r: Result<Self, VolumeError>)
        requires
            buf@.len() == 64,
        ensures
            gd_checksum_ok(buf@) <==> r is Ok,
            r matches Ok(d) ==> gd_matches(d, buf@),
            r is Err ==> r == Err::<Self, VolumeError>(VolumeError::ChecksumMismatch),
    {
        let stored = get_u32(buf, 44);
        let computed = crc32_hash(slice_subrange(buf, 0, 44));
        if stored != computed {
            return Err(VolumeError::ChecksumMismatch);
        }
        let d = GroupDescriptor {
            bg_block_bitmap: get_u64(buf, 0),
            bg_inode_bitmap: get_u64(buf, 8),
            bg_inode_table: get_u64(buf, 16),
            bg_free_blocks: get_u32(buf, 24),
            bg_free_inodes: get_u32(buf, 28),
            bg_used_dirs: get_u32(buf, 32),
            bg_flags: get_u32(buf, 36),
            bg_itable_unused: get_u32(buf, 40),
            bg_checksum: stored,
            bg_blocks_count: get_u64(buf, 48),
            bg_reserved: [buf[56], buf[57], buf[58], buf[59], buf[60], buf[61], buf[62], buf[63]],
        };
        assert(d.bg_reserved@ =~= buf@.subrange(56, 64));
        Ok(d)
    }

    /// CRC-32 of the encoded bytes `[0..44)`.
    pub fn compute_checksum(&self) -> (r: u32)
        ensures
            r == crc32(gd_prefix(*self)),
    {
        let buf = self.serialize();
        proof {
            lemma_gd_roundtrip(*self);
        }
        get_u32(buf.as_slice(), 44)
    }

    /// Succeeds when the stored checksum is unset (zero) or equals the CRC of
    /// the current fields.
    pub fn verify_checksum(&self) -> (r: Result<(), VolumeError>)
        ensures
            r is Ok <==> (self.bg_checksum == 0 || self.bg_checksum == crc32(gd_prefix(*self))),
            r is Err ==> r == Err::<(), VolumeError>(VolumeError::ChecksumMismatch),
    {
        let stored = self.compute_checksum();
        if self.bg_checksum != 0 && self.bg_checksum != stored {
            return Err(VolumeError::ChecksumMismatch);
        }
        Ok(())
    }
}

/// Result of laying out a volume in block groups.
#[derive(Debug, Clone, Copy)]
pub struct GroupLayout {
    pub group_count: u32,
    pub blocks_per_group: u32,
    pub inodes_per_group: u32,
    pub inode_table_blocks: u32,
    /// Data blocks in a full group (`blocks_per_group - overhead_per_group`).
    pub data_blocks_per_group: u32,
    /// Block bitmap, inode bitmap and inode table of each group.
    pub overhead_per_group: u32,
    pub gdt_blocks: u32,
    /// Superblock, GDT, reserved GDT, journal and backup superblock.
    pub global_overhead: u64,
    /// First block of group 0 (equal to `global_overhead`).
    pub first_group_block: u64,
    pub last_group_blocks: u32,
    pub last_group_data_blocks: u32,
    pub reserved_gdt_blocks: u32,
}

impl GroupLayout {
    pub open spec fn spec_group_start(&self, group_idx: u32) -> int {
        self.first_group_block + group_idx * self.blocks_per_group
    }

    /// First block of a group.
    pub fn group_start_block(&self, group_idx: u32) -> (r: u64)
        requires
            self.spec_group_start(group_idx) <= u64::MAX,
        ensures
            r == self.spec_group_start(group_idx),
    {
        proof {
            lemma_u32_product(group_idx, self.blocks_per_group);
        }
        self.first_group_block + group_idx as u64 * self.blocks_per_group as u64
    }

    /// Block bitmap of a group (its first block).
    pub fn group_block_bitmap(&self, group_idx: u32) -> (r: u64)
        requires
            self.spec_group_start(group_idx) <= u64::MAX,
        ensures
            r == self.spec_group_start(group_idx),
    {
        self.group_start_block(group_idx)
    }

    /// Inode bitmap of a group (its second block).
    pub fn group_inode_bitmap(&self, group_idx: u32) -> (r: u64)
        requires
            self.spec_group_start(group_idx) + 1 <= u64::MAX,
        ensures
            r == self.spec_group_start(group_idx) + 1,
    {
        self.group_start_block(group_idx) + 1
    }

    /// First inode-table block of a group (its third block).
    pub fn group_inode_table(&self, group_idx: u32) -> (r: u64)
        requires
            self.spec_group_start(group_idx) + 2 <= u64::MAX,
        ensures
            r == self.spec_group_start(group_idx) + 2,
    {
        self.group_start_block(group_idx) + 2
    }

    /// First data block of a group, after its metadata.
    pub fn group_data_start(&self, group_idx: u32) -> (r: u64)
        requires
            self.spec_group_start(group_idx) + self.overhead_per_group <= u64::MAX,
        ensures
            r == self.spec_group_start(group_idx) + self.overhead_per_group,
    {
        self.group_start_block(group_idx) + self.overhead_per_group as u64
    }

    /// Blocks in a group; the last group may be shorter.
    pub fn group_block_count(&self, group_idx: u32) -> (r: u32)
        requires
            self.group_count > 0,
        ensures
            r == if group_idx == self.group_count - 1 {
                self.last_group_blocks
            } else {
                self.blocks_per_group
            },
    {
        if group_idx == self.group_count - 1 {
            self.last_group_blocks
        } else {
            self.blocks_per_group
        }
    }

    /// Data blocks in a group; the last group may have fewer.
    pub fn group_data_block_count(&self, group_idx: u32) -> (r: u32)
        requires
            self.group_count > 0,
        ensures
            r == if group_idx == self.group_count - 1 {
                self.last_group_data_blocks
            } else {
                self.data_blocks_per_group
            },
    {
        if group_idx == self.group_count - 1 {
            self.last_group_data_blocks
        } else {
            self.data_blocks_per_group
        }
    }
}

pub proof fn lemma_u32_product(a: u32, b: u32)
    ensures
        0 <= a * b <= 0xffff_fffe_0000_0001,
{
    assert(0 <= a * b <= 0xffff_ffffu64 * 0xffff_ffffu64) by (nonlinear_arith)
        requires
            a <= 0xffff_ffff,
            b <= 0xffff_ffff,
    ;
}

/// Bounds of ceiling division and of rounding up to a multiple.
proof fn lemma_ceil_bounds(a: int, b: int)
    requires
        a >= 0,
        b >= 1,
    ensures
        0 <= spec_ceil_div(a, b) <= a,
        a <= spec_ceil_div(a, b) * b <= a + b - 1,
{
    let x = a + (b - 1);
    let q = x / b;
    let r = x % b;
    vstd::arithmetic::div_mod::lemma_fundamental_div_mod(x, b);
    vstd::arithmetic::div_mod::lemma_mod_bound(x, b);
    assert(x == b * q + r);
    assert(q * b == b * q) by (nonlinear_arith);
    assert(0 <= q) by (nonlinear_arith)
        requires
            x == b * q + r,
            0 <= r < b,
            x >= 0,
            b >= 1,
    ;
    assert(q <= a) by (nonlinear_arith)
        requires
            x == b * q + r,
            0 <= r < b,
            x == a + b - 1,
            a >= 0,
            b >= 1,
    ;
}

pub open spec fn min_int(a: int, b: int) -> int {
    if a <= b {
        a
    } else {
        b
    }
}

pub open spec fn max_int(a: int, b: int) -> int {
    if a >= b {
        a
    } else {
        b
    }
}

/// Global overhead for `gc` groups: superblock, GDT (`ceil(gc / dpb)` blocks),
/// reserved GDT (at most 128), journal and backup superblock.
pub open spec fn layout_overhead(gc: int, dpb: int, journal: int) -> int {
    let g = spec_ceil_div(gc, dpb);
    1 + g + min_int(g, 128) + journal + 1
}

/// The group count reached by re-estimating at most `fuel` times, each time
/// from the blocks left after the overhead of the previous estimate; `None`
/// when the overhead alone fills the volume.
pub open spec fn layout_converge(total: int, bpg: int, dpb: int, journal: int, gc: int, fuel: nat) -> Option<int>
    decreases fuel,
{
    if fuel == 0 {
        Some(gc)
    } else {
        let oh = layout_overhead(gc, dpb, journal);
        if total <= oh {
            None
        } else {
            let nc = spec_ceil_div(total - oh, bpg);
            if nc == gc {
                Some(gc)
            } else {
                layout_converge(total, bpg, dpb, journal, nc, (fuel - 1) as nat)
            }
        }
    }
}

/// `v` rounded up to a multiple of `m` (unchanged when `m` is zero).
pub open spec fn spec_round_up(v: int, m: int) -> int {
    if m == 0 {
        v
    } else {
        spec_ceil_div(v, m) * m
    }
}

/// The layout that `compute_group_layout` gives for its arguments.
pub open spec fn spec_group_layout(
    total_blocks: u64,
    block_size: u32,
    inode_size: u32,
    inode_ratio: u32,
    blocks_per_group: u32,
    journal_blocks: u64,
) -> Result<GroupLayout, VolumeError> {
    let bs = block_size as int;
    let bpg = blocks_per_group as int;
    let dpb = bs / 64;
    if dpb == 0 {
        Err(VolumeError::Invalid)
    } else {
        match layout_converge(total_blocks as int, bpg, dpb, journal_blocks as int, spec_ceil_div(total_blocks as int, bpg), 10) {
            None => Err(VolumeError::TooSmall),
            Some(gc) => {
                let g = spec_ceil_div(gc, dpb);
                let rg = min_int(g, 128);
                let oh = layout_overhead(gc, dpb, journal_blocks as int);
                if total_blocks <= oh {
                    Err(VolumeError::TooSmall)
                } else {
                    let bfg = total_blocks - oh;
                    let ipb = bs / (inode_size as int);
                    if ipb == 0 {
                        Err(VolumeError::Invalid)
                    } else {
                        let groups = spec_ceil_div(bfg, bpg);
                        let desired = (bfg * bs) / (inode_ratio as int);
                        let ipg_raw = spec_ceil_div(max_int(desired, 1), groups);
                        let ipg = (max_int(spec_round_up(ipg_raw, ipb), ipb)) as u32;
                        let itb = spec_ceil_div(ipg * inode_size, bs) as u32;
                        let pgo = 2 + itb;
                        if pgo >= bpg {
                            Err(VolumeError::Invalid)
                        } else {
                            let rem = bfg % bpg;
                            let count = if rem > 0 { bfg / bpg + 1 } else { bfg / bpg };
                            let lgb = if rem > 0 { rem } else { bpg };
                            Ok(GroupLayout {
                                group_count: count as u32,
                                blocks_per_group,
                                inodes_per_group: ipg,
                                inode_table_blocks: itb,
                                data_blocks_per_group: (bpg - pgo) as u32,
                                overhead_per_group: pgo as u32,
                                gdt_blocks: g as u32,
                                global_overhead: oh as u64,
                                first_group_block: oh as u64,
                                last_group_blocks: lgb as u32,
                                last_group_data_blocks: if lgb > pgo { (lgb - pgo) as u32 } else { 0 },
                                reserved_gdt_blocks: rg as u32,
                            })
                        }
                    }
                }
            },
        }
    }
}

fn ceil_wide(a: u128, b: u128) -> (r: u128)
    requires
        b >= 1,
        a <= 0x1_0000_0000_0000_0000_0000_0000_0000,
        b <= 0x1_0000_0000_0000_0000,
    ensures
        r == spec_ceil_div(a as int, b as int),
        r <= a,
{
    proof {
        lemma_ceil_bounds(a as int, b as int);
    }
    (a + (b - 1)) / b
}

fn overhead_wide(gc: u128, dpb: u128, journal: u64) -> (r: u128)
    requires
        1 <= dpb <= 0x1_0000_0000,
        gc <= 0xffff_ffff_ffff_ffff,
    ensures
        r == layout_overhead(gc as int, dpb as int, journal as int),
        r <= 0x4_0000_0000_0000_0000,
{
    let g = ceil_wide(gc, dpb);
    let rg = if g <= 128 { g } else { 128 };
    1 + g + rg + journal as u128 + 1
}

/// Lay out a volume of `total_blocks` blocks in groups of `blocks_per_group`.
///
/// The group count and the global overhead depend on each other; the count
/// is re-estimated up to ten times until it is stable. Fails with `Invalid`
/// when a block cannot hold a descriptor or an inode, or when a group's own
/// metadata would fill it, and with `TooSmall` when the global overhead
/// leaves no block for the groups.
pub fn compute_group_layout(
    total_blocks: u64,
    block_size: u32,
    inode_size: u32,
    inode_ratio: u32,
    blocks_per_group: u32,
    journal_blocks: u64,
) -> (r: Result<GroupLayout, VolumeError>)
    requires
        blocks_per_group > 0,
        inode_size > 0,
        inode_ratio > 0,
    ensures
        r == spec_group_layout(total_blocks, block_size, inode_size, inode_ratio, blocks_per_group, journal_blocks),
{
    let bs = block_size as u128;
    let bpg = blocks_per_group as u128;
    let total = total_blocks as u128;
    let dpb = bs / 64;
    if dpb == 0 {
        return Err(VolumeError::Invalid);
    }
    let ghost spec_dpb = (block_size as int) / 64;
    let gc0 = ceil_wide(total, bpg);
    let mut gc: u128 = gc0;
    let mut i: u32 = 0;
    while i < 10
        invariant
            i <= 10,
            dpb == spec_dpb,
            1 <= dpb <= 0x1_0000_0000,
            1 <= bpg <= 0xffff_ffff,
            total == total_blocks,
            bpg == blocks_per_group,
            dpb == (block_size as int) / 64,
            gc0 == spec_ceil_div(total_blocks as int, blocks_per_group as int),
            gc <= total,
            layout_converge(total as int, bpg as int, dpb as int, journal_blocks as int, gc0 as int, 10)
                == layout_converge(total as int, bpg as int, dpb as int, journal_blocks as int, gc as int, (10 - i) as nat),
        ensures
            gc <= total,
            layout_converge(total as int, bpg as int, dpb as int, journal_blocks as int, gc0 as int, 10)
                == Some(gc as int),
        decreases 10 - i,
    {
        let oh = overhead_wide(gc, dpb, journal_blocks);
        if total <= oh {
            proof {
                assert(layout_converge(total as int, bpg as int, dpb as int, journal_blocks as int, gc as int, (10 - i) as nat)
                    == None::<int>);
            }
            return Err(VolumeError::TooSmall);
        }
        let new_count = ceil_wide(total - oh, bpg);
        if new_count == gc {
            break;
        }
        gc = new_count;
        i = i + 1;
    }
    let g = ceil_wide(gc, dpb);
    let rg = if g <= 128 { g } else { 128 };
    let oh = overhead_wide(gc, dpb, journal_blocks);
    if total <= oh {
        return Err(VolumeError::TooSmall);
    }
    let bfg = total - oh;
    let ipb = bs / inode_size as u128;
    if ipb == 0 {
        return Err(VolumeError::Invalid);
    }
    let groups = ceil_wide(bfg, bpg);
    proof {
        lemma_ceil_bounds(bfg as int, bpg as int);
        assert(groups >= 1) by (nonlinear_arith)
            requires
                groups * bpg >= bfg,
                bfg >= 1,
        ;
        assert(bfg * bs <= 0xffff_ffff_ffff_ffffu128 * 0xffff_ffffu128) by (nonlinear_arith)
            requires
                bfg <= 0xffff_ffff_ffff_ffff,
                bs <= 0xffff_ffff,
        ;
    }
    let desired = (bfg * bs) / inode_ratio as u128;
    let base = if desired >= 1 { desired } else { 1 };
    let ipg_raw = ceil_wide(base, groups);
    proof {
        lemma_ceil_bounds(ipg_raw as int, ipb as int);
    }
    let rounded = ceil_wide(ipg_raw, ipb) * ipb;
    let ipg_wide = if rounded >= ipb { rounded } else { ipb };
    let ipg = ipg_wide as u32;
    proof {
        lemma_u32_product(ipg, inode_size);
    }
    let itb = ceil_wide(ipg as u128 * inode_size as u128, bs) as u32;
    let pgo = 2 + itb as u128;
    if pgo >= bpg {
        return Err(VolumeError::Invalid);
    }
    let rem = bfg % bpg;
    let full = bfg / bpg;
    let count = if rem > 0 { full + 1 } else { full };
    let lgb = if rem > 0 { rem } else { bpg };
    let lgd: u32 = if lgb > pgo { (lgb - pgo) as u32 } else { 0 };
    Ok(GroupLayout {
        group_count: count as u32,
        blocks_per_group,
        inodes_per_group: ipg,
        inode_table_blocks: itb,
        data_blocks_per_group: (bpg - pgo) as u32,
        overhead_per_group: pgo as u32,
        gdt_blocks: g as u32,
        global_overhead: oh as u64,
        first_group_block: oh as u64,
        last_group_blocks: lgb as u32,
        last_group_data_blocks: lgd,
        reserved_gdt_blocks: rg as u32,
    })
}

/// Group and local data-block index of a global block, if it is a data
/// block of some group.
pub open spec fn spec_global_to_local(fgb: u64, bpg: u32, gc: u32, ovh: u32, global: u64) -> Option<(u32, u32)> {
    if global < fgb {
        None
    } else {
        let rel = global - fgb;
        let g = (rel / (bpg as int)) as u32;
        let w = rel % (bpg as int);
        if g >= gc {
            None
        } else if w < ovh {
            None
        } else {
            Some((g, (w - ovh) as u32))
        }
    }
}

/// Global block of the `local`-th data block of group `g`.
pub open spec fn spec_local_to_global(fgb: u64, bpg: u32, ovh: u32, g: u32, local: u32) -> int {
    fgb + g * bpg + ovh + local
}

/// Converting a group's data block to a global block and back gives the
/// same group and index.
pub proof fn lemma_local_global_roundtrip(fgb: u64, bpg: u32, gc: u32, ovh: u32, g: u32, local: u32)
    requires
        g < gc,
        ovh + local < bpg,
        spec_local_to_global(fgb, bpg, ovh, g, local) <= u64::MAX,
    ensures
        spec_global_to_local(fgb, bpg, gc, ovh, spec_local_to_global(fgb, bpg, ovh, g, local) as u64)
            == Some((g, local)),
{
    let rel: int = g * bpg + ovh + local;
    assert(rel == bpg * g + (ovh + local)) by (nonlinear_arith)
        requires
            rel == g * bpg + ovh + local,
    ;
    vstd::arithmetic::div_mod::lemma_fundamental_div_mod_converse_div(rel, bpg as int, g as int, ovh + local);
    vstd::arithmetic::div_mod::lemma_fundamental_div_mod_converse_mod(rel, bpg as int, g as int, ovh + local);
    assert(g * bpg >= 0) by (nonlinear_arith);
}

/// A global block that is some group's data block is the global block of
/// that group's data block.
pub proof fn lemma_global_local_inverse(fgb: u64, bpg: u32, gc: u32, ovh: u32, global: u64)
    requires
        bpg > 0,
        global >= fgb ==> (global - fgb) / (bpg as int) <= u32::MAX,
        spec_global_to_local(fgb, bpg, gc, ovh, global) is Some,
    ensures
        ({
            let (g, l) = spec_global_to_local(fgb, bpg, gc, ovh, global)->0;
            spec_local_to_global(fgb, bpg, ovh, g, l) == global
        }),
{
    let rel: int = global - fgb;
    vstd::arithmetic::div_mod::lemma_fundamental_div_mod(rel, bpg as int);
    vstd::arithmetic::div_mod::lemma_mod_bound(rel, bpg as int);
    let q = rel / (bpg as int);
    assert(0 <= q <= rel) by (nonlinear_arith)
        requires
            rel == bpg * q + rel % (bpg as int),
            0 <= rel % (bpg as int) < bpg,
            bpg >= 1,
            rel >= 0,
    ;
    assert(q < gc);
    assert(q * bpg == bpg * q) by (nonlinear_arith);
}

/// Group of a directory's parent, or the nearest group to it with a free
/// inode, searching at distances 1, 2, ... first above, then below.
/// `k` enumerates the candidates: distance `k / 2 + 1`, above when `k` is even.
pub open spec fn orlov_candidate(parent: u32, k: int) -> u32 {
    let radius = k / 2 + 1;
    if k % 2 == 0 {
        ((parent + radius) % 0x1_0000_0000) as u32
    } else {
        ((parent - radius + 0x1_0000_0000) % 0x1_0000_0000) as u32
    }
}

/// Candidate `k` is one of the first `gc` groups and has a free inode.
pub open spec fn orlov_hit(descs: Seq<GroupDescriptor>, parent: u32, gc: u32, k: int) -> bool {
    &&& 0 <= k < 2 * (gc - 1)
    &&& orlov_candidate(parent, k) < gc
    &&& descs[orlov_candidate(parent, k) as int].bg_free_inodes > 0
}

/// The nearest group to `parent` with a free inode (the one above first at
/// equal distance); `parent` itself when no other group has one.
pub open spec fn nearest_free_group(descs: Seq<GroupDescriptor>, parent: u32, gc: u32) -> u32 {
    if exists|k: int| #[trigger] orlov_hit(descs, parent, gc, k) {
        orlov_candidate(parent, choose|k: int| #[trigger] orlov_hit(descs, parent, gc, k) && forall|j: int| 0 <= j < k ==> !#[trigger] orlov_hit(descs, parent, gc, j))
    } else {
        parent
    }
}

spec fn orlov_search(descs: Seq<GroupDescriptor>, parent: u32, gc: u32, k: int) -> u32
    decreases 2 * gc - k,
{
    if k < 0 || k >= 2 * (gc - 1) {
        parent
    } else if orlov_candidate(parent, k) < gc && descs[orlov_candidate(parent, k) as int].bg_free_inodes > 0 {
        orlov_candidate(parent, k)
    } else {
        orlov_search(descs, parent, gc, k + 1)
    }
}

proof fn lemma_search_first_hit(descs: Seq<GroupDescriptor>, parent: u32, gc: u32, k0: int)
    requires
        0 <= k0,
    ensures
        (exists|k: int| k >= k0 && #[trigger] orlov_hit(descs, parent, gc, k)) ==> exists|k: int| {
            &&& k >= k0
            &&& #[trigger] orlov_hit(descs, parent, gc, k)
            &&& forall|j: int| k0 <= j < k ==> !#[trigger] orlov_hit(descs, parent, gc, j)
            &&& orlov_search(descs, parent, gc, k0) == orlov_candidate(parent, k)
        },
        !(exists|k: int| k >= k0 && #[trigger] orlov_hit(descs, parent, gc, k)) ==> orlov_search(descs, parent, gc, k0) == parent,
    decreases 2 * gc - k0,
{
    if k0 >= 2 * (gc - 1) {
        assert(!(exists|k: int| k >= k0 && #[trigger] orlov_hit(descs, parent, gc, k)));
    } else if orlov_hit(descs, parent, gc, k0) {
        assert(orlov_search(descs, parent, gc, k0) == orlov_candidate(parent, k0));
    } else {
        lemma_search_first_hit(descs, parent, gc, k0 + 1);
        assert(orlov_search(descs, parent, gc, k0) == orlov_search(descs, parent, gc, k0 + 1));
        if exists|k: int| k >= k0 && #[trigger] orlov_hit(descs, parent, gc, k) {
            let k1 = choose|k: int| k >= k0 && #[trigger] orlov_hit(descs, parent, gc, k);
            assert(k1 >= k0 + 1);
            let k2 = choose|k: int| {
                &&& k >= k0 + 1
                &&& #[trigger] orlov_hit(descs, parent, gc, k)
                &&& forall|j: int| k0 + 1 <= j < k ==> !#[trigger] orlov_hit(descs, parent, gc, j)
                &&& orlov_search(descs, parent, gc, k0 + 1) == orlov_candidate(parent, k)
            };
            assert forall|j: int| k0 <= j < k2 implies !#[trigger] orlov_hit(descs, parent, gc, j) by {
                if j > k0 {
                    assert(k0 + 1 <= j < k2);
                }
            }
        }
    }
}

proof fn lemma_orlov_search_bound(descs: Seq<GroupDescriptor>, parent: u32, gc: u32, k: int)
    ensures
        orlov_search(descs, parent, gc, k) == parent || orlov_search(descs, parent, gc, k) < gc,
    decreases 2 * gc - k,
{
    if k < 0 || k >= 2 * (gc - 1) {
    } else if orlov_candidate(parent, k) < gc && descs[orlov_candidate(parent, k) as int].bg_free_inodes > 0 {
    } else {
        lemma_orlov_search_bound(descs, parent, gc, k + 1);
    }
}

/// The nearest group with a free inode is the parent's own or one of the
/// first `gc` groups.
pub proof fn lemma_nearest_bound(descs: Seq<GroupDescriptor>, parent: u32, gc: u32)
    ensures
        nearest_free_group(descs, parent, gc) == parent || nearest_free_group(descs, parent, gc) < gc,
{
    lemma_search_nearest(descs, parent, gc);
    lemma_orlov_search_bound(descs, parent, gc, 0);
}

/// `orlov_search` from candidate 0 finds the nearest group with a free inode.
proof fn lemma_search_nearest(descs: Seq<GroupDescriptor>, parent: u32, gc: u32)
    ensures
        orlov_search(descs, parent, gc, 0) == nearest_free_group(descs, parent, gc),
{
    lemma_search_first_hit(descs, parent, gc, 0);
    if exists|k: int| #[trigger] orlov_hit(descs, parent, gc, k) {
        let k0 = choose|k: int| #[trigger] orlov_hit(descs, parent, gc, k);
        assert(k0 >= 0);
        let ks = choose|k: int| {
            &&& k >= 0
            &&& #[trigger] orlov_hit(descs, parent, gc, k)
            &&& forall|j: int| 0 <= j < k ==> !#[trigger] orlov_hit(descs, parent, gc, j)
            &&& orlov_search(descs, parent, gc, 0) == orlov_candidate(parent, k)
        };
        assert(orlov_hit(descs, parent, gc, ks) && forall|j: int| 0 <= j < ks ==> !#[trigger] orlov_hit(descs, parent, gc, j));
        let kc = choose|k: int| #[trigger] orlov_hit(descs, parent, gc, k) && forall|j: int| 0 <= j < k ==> !#[trigger] orlov_hit(descs, parent, gc, j);
        if kc < ks {
            assert(!orlov_hit(descs, parent, gc, kc));
        } else if ks < kc {
            assert(!orlov_hit(descs, parent, gc, ks));
        }
        assert(kc == ks);
    } else {
        assert(!(exists|k: int| k >= 0 && #[trigger] orlov_hit(descs, parent, gc, k)));
    }
}

/// Sum of the free-inode counts of the first `n` descriptors.
pub open spec fn sum_free_inodes(descs: Seq<GroupDescriptor>, n: int) -> int
    decreases n,
{
    if n <= 0 {
        0
    } else {
        sum_free_inodes(descs, n - 1) + descs[n - 1].bg_free_inodes
    }
}

/// Sum of the free-block counts of the first `n` descriptors.
pub open spec fn sum_free_blocks(descs: Seq<GroupDescriptor>, n: int) -> int
    decreases n,
{
    if n <= 0 {
        0
    } else {
        sum_free_blocks(descs, n - 1) + descs[n - 1].bg_free_blocks
    }
}

/// Orlov score of a group for a new top-level directory (lower is better):
/// 256 per directory already there, 128 when its free inodes are below the
/// average, 64 when its free blocks are below the average.
pub open spec fn orlov_score(d: GroupDescriptor, avg_inodes: int, avg_blocks: int) -> int {
    d.bg_used_dirs * 256 + (if d.bg_free_inodes >= avg_inodes { 0int } else { 128int }) + (if d.bg_free_blocks
        >= avg_blocks { 0int } else { 64int })
}

proof fn lemma_sum_bounds(descs: Seq<GroupDescriptor>, n: int)
    requires
        0 <= n <= descs.len(),
    ensures
        0 <= sum_free_inodes(descs, n) <= n * 0xffff_ffff,
        0 <= sum_free_blocks(descs, n) <= n * 0xffff_ffff,
    decreases n,
{
    if n > 0 {
        lemma_sum_bounds(descs, n - 1);
    }
}

/// Pick a group for a new directory inode.
///
/// A subdirectory goes to its parent's group while that group has a free
/// inode, else to the nearest group that has one (the parent's group when
/// none has). A top-level directory goes to the first group with a free
/// inode whose Orlov score is lowest, spreading directories over the volume;
/// 0 when no group has a free inode.
pub fn orlov_select_group(descriptors: &[GroupDescriptor], parent_group: u32, is_top_level: bool, group_count: u32) -> (r: u32)
    requires
        !is_top_level ==> parent_group < descriptors@.len() && group_count <= descriptors@.len(),
        descriptors@.len() <= u32::MAX,
    ensures
        !is_top_level ==> r == if descriptors@[parent_group as int].bg_free_inodes > 0 {
            parent_group
        } else {
            nearest_free_group(descriptors@, parent_group, group_count)
        },
        is_top_level && group_count == 0 ==> r == 0,
        is_top_level && group_count > 0 ==> {
            let n = descriptors@.len() as int;
            let ai = sum_free_inodes(descriptors@, n) / (group_count as int);
            let ab = sum_free_blocks(descriptors@, n) / (group_count as int);
            &&& (forall|i: int| 0 <= i < n ==> (#[trigger] descriptors@[i]).bg_free_inodes == 0) ==> r == 0
            &&& (exists|i: int| 0 <= i < n && (#[trigger] descriptors@[i]).bg_free_inodes > 0) ==> {
                &&& r < n
                &&& descriptors@[r as int].bg_free_inodes > 0
                &&& forall|i: int|
                    0 <= i < n && (#[trigger] descriptors@[i]).bg_free_inodes > 0 ==> orlov_score(
                        descriptors@[r as int],
                        ai,
                        ab,
                    ) <= orlov_score(descriptors@[i], ai, ab)
                &&& forall|i: int|
                    0 <= i < r && (#[trigger] descriptors@[i]).bg_free_inodes > 0 ==> orlov_score(
                        descriptors@[r as int],
                        ai,
                        ab,
                    ) < orlov_score(descriptors@[i], ai, ab)
            }
        },
{
    if !is_top_level {
        if descriptors[parent_group as usize].bg_free_inodes > 0 {
            return parent_group;
        }
        proof {
            lemma_search_nearest(descriptors@, parent_group, group_count);
        }
        if group_count == 0 {
            return parent_group;
        }
        let mut radius: u32 = 1;
        while radius < group_count
            invariant
                1 <= radius <= group_count,
                group_count <= descriptors@.len(),
                !is_top_level,
                parent_group < descriptors@.len(),
                descriptors@[parent_group as int].bg_free_inodes == 0,
                orlov_search(descriptors@, parent_group, group_count, 0) == nearest_free_group(descriptors@, parent_group, group_count),
                orlov_search(descriptors@, parent_group, group_count, 0) == orlov_search(
                    descriptors@,
                    parent_group,
                    group_count,
                    2 * (radius - 1),
                ),
            decreases group_count - radius,
        {
            let up = parent_group.wrapping_add(radius);
            let down = parent_group.wrapping_sub(radius);
            let k: Ghost<int> = Ghost(2 * (radius - 1));
            proof {
                assert(k@ / 2 + 1 == radius);
                assert((k@ + 1) / 2 + 1 == radius);
                assert(orlov_candidate(parent_group, k@) == up);
                assert(orlov_candidate(parent_group, k@ + 1) == down);
            }
            if up < group_count && descriptors[up as usize].bg_free_inodes > 0 {
                proof {
                    assert(orlov_search(descriptors@, parent_group, group_count, k@) == up);
                }
                return up;
            }
            proof {
                assert(orlov_search(descriptors@, parent_group, group_count, k@) == orlov_search(
                    descriptors@,
                    parent_group,
                    group_count,
                    k@ + 1,
                ));
            }
            if down < group_count && descriptors[down as usize].bg_free_inodes > 0 {
                proof {
                    assert(orlov_search(descriptors@, parent_group, group_count, k@ + 1) == down);
                }
                return down;
            }
            proof {
                assert(orlov_search(descriptors@, parent_group, group_count, k@ + 1) == orlov_search(
                    descriptors@,
                    parent_group,
                    group_count,
                    k@ + 2,
                ));
            }
            radius = radius + 1;
        }
        return parent_group;
    }
    if group_count == 0 {
        return 0;
    }
    let n = descriptors.len();
    let mut si: u64 = 0;
    let mut sb: u64 = 0;
    let mut j: usize = 0;
    while j < n
        invariant
            n == descriptors@.len(),
            n <= u32::MAX,
            j <= n,
            si == sum_free_inodes(descriptors@, j as int),
            sb == sum_free_blocks(descriptors@, j as int),
        decreases n - j,
    {
        proof {
            lemma_sum_bounds(descriptors@, j as int);
            assert(j * 0xffff_ffff <= 0xffff_ffffu64 * 0xffff_ffffu64) by (nonlinear_arith)
                requires
                    j <= 0xffff_ffff,
            ;
        }
        si = si + descriptors[j].bg_free_inodes as u64;
        sb = sb + descriptors[j].bg_free_blocks as u64;
        j = j + 1;
    }
    let avg_free_inodes = si / group_count as u64;
    let avg_free_blocks = sb / group_count as u64;
    let ghost ai = sum_free_inodes(descriptors@, n as int) / (group_count as int);
    let ghost ab = sum_free_blocks(descriptors@, n as int) / (group_count as int);
    let mut best_group: u32 = 0;
    let mut best_score: u64 = u64::MAX;
    let mut idx: usize = 0;
    while idx < n
        invariant
            n == descriptors@.len(),
            n <= u32::MAX,
            idx <= n,
            avg_free_inodes == ai,
            avg_free_blocks == ab,
            best_score == u64::MAX <==> (forall|i: int| 0 <= i < idx ==> (#[trigger] descriptors@[i]).bg_free_inodes == 0),
            best_score == u64::MAX ==> best_group == 0,
            best_score < u64::MAX ==> {
                &&& best_group < idx
                &&& descriptors@[best_group as int].bg_free_inodes > 0
                &&& best_score == orlov_score(descriptors@[best_group as int], ai, ab)
                &&& forall|i: int|
                    0 <= i < idx && (#[trigger] descriptors@[i]).bg_free_inodes > 0 ==> best_score <= orlov_score(descriptors@[i], ai, ab)
                &&& forall|i: int|
                    0 <= i < best_group && (#[trigger] descriptors@[i]).bg_free_inodes > 0 ==> best_score < orlov_score(descriptors@[i], ai, ab)
            },
        decreases n - idx,
    {
        let d = &descriptors[idx];
        if d.bg_free_inodes != 0 {
            let dir_penalty = d.bg_used_dirs as u64 * 256;
            let inode_bonus: u64 = if d.bg_free_inodes as u64 >= avg_free_inodes { 0 } else { 128 };
            let block_bonus: u64 = if d.bg_free_blocks as u64 >= avg_free_blocks { 0 } else { 64 };
            let score = dir_penalty + inode_bonus + block_bonus;
            if score < best_score {
                best_score = score;
                best_group = idx as u32;
            }
        }
        idx = idx + 1;
    }
    best_group
}


// ---------------------------------------------------------------------------
// Descriptor table on disk
// ---------------------------------------------------------------------------

/// Descriptors per table block.
pub open spec fn descs_per_block(bs: u32) -> int {
    (bs / 64) as int
}

/// The encodings of a run of descriptors, back to back.
pub open spec fn gd_seq_bytes(s: Seq<GroupDescriptor>) -> Seq<u8>
    decreases s.len(),
{
    if s.len() == 0 {
        Seq::empty()
    } else {
        gd_seq_bytes(s.drop_last()) + gd_bytes(s.last())
    }
}

/// Table block `b`: the encodings of its descriptors, zero-padded to a block.
pub open spec fn gdt_block(d: Seq<GroupDescriptor>, b: int, bs: u32) -> Seq<u8> {
    let dpb = descs_per_block(bs);
    let lo = b * dpb;
    let hi = if lo + dpb <= d.len() { lo + dpb } else { d.len() as int };
    gd_seq_bytes(d.subrange(lo, hi)) + zeros((bs - 64 * (hi - lo)) as nat)
}

/// The first `n` table blocks, back to back.
pub open spec fn gdt_image(d: Seq<GroupDescriptor>, n: int, bs: u32) -> Seq<u8>
    decreases n,
{
    if n <= 0 {
        Seq::empty()
    } else {
        gdt_image(d, n - 1, bs) + gdt_block(d, n - 1, bs)
    }
}

/// Descriptor `i` of the table passes its checksum and `d` holds its fields.
pub open spec fn desc_read(d: GroupDescriptor, c: Seq<u8>, gdt_start: u64, bs: u32, i: int) -> bool {
    gd_checksum_ok(desc_slot(c, gdt_start, bs, i)) && gd_matches(d, desc_slot(c, gdt_start, bs, i))
}

/// The 64 bytes of descriptor `i` in a table starting at block `gdt_start`.
pub open spec fn desc_slot(c: Seq<u8>, gdt_start: u64, bs: u32, i: int) -> Seq<u8> {
    let dpb = descs_per_block(bs);
    let off = (gdt_start + i / dpb) * bs + 64 * (i % dpb);
    c.subrange(off, off + 64)
}

proof fn lemma_gd_seq_bytes_len(s: Seq<GroupDescriptor>)
    ensures
        gd_seq_bytes(s).len() == 64 * s.len(),
    decreases s.len(),
{
    lemma_codec_roundtrip();
    if s.len() > 0 {
        lemma_gd_seq_bytes_len(s.drop_last());
    }
}

/// `b` blocks of `dpb` descriptors cover `len` exactly when `b` is the
/// rounded-up quotient.
proof fn lemma_blocks_cover(len: int, dpb: int, b: int)
    requires
        dpb >= 1,
        len >= 0,
        b >= 0,
        b * dpb >= len,
        b == 0 || (b - 1) * dpb < len,
    ensures
        b == spec_ceil_div(len, dpb),
{
    if b == 0 {
        assert(len == 0) by (nonlinear_arith)
            requires
                b == 0,
                b * dpb >= len,
                len >= 0,
        ;
        vstd::arithmetic::div_mod::lemma_fundamental_div_mod_converse_div(dpb - 1, dpb, 0, dpb - 1);
    } else {
        let r = len + dpb - 1 - b * dpb;
        assert(0 <= r < dpb) by (nonlinear_arith)
            requires
                r == len + dpb - 1 - b * dpb,
                b * dpb >= len,
                (b - 1) * dpb < len,
        ;
        vstd::arithmetic::div_mod::lemma_fundamental_div_mod_converse_div(len + dpb - 1, dpb, b, r);
    }
}

/// Write the descriptor table from block `gdt_start`: each block holds the
/// encodings of its share of the descriptors, zero-padded.
pub fn write_gdt<D: CFSBlockDevice>(dev: &mut D, gdt_start: u64, descriptors: &[GroupDescriptor], block_size: u32) -> (r: Result<(), VolumeError>)
    requires
        block_size >= 64,
        (gdt_start + spec_ceil_div(descriptors@.len() as int, descs_per_block(block_size))) * block_size <= u64::MAX,
    ensures
        descriptors@.len() == 0 ==> r is Ok && final(dev).contents() == old(dev).contents(),
        r is Ok && descriptors@.len() > 0 ==> final(dev).contents() == written(
            old(dev).contents(),
            gdt_start * block_size,
            gdt_image(descriptors@, spec_ceil_div(descriptors@.len() as int, descs_per_block(block_size)), block_size),
        ),
{
    let ghost c0 = dev.contents();
    let ghost d = descriptors@;
    let ghost nb = spec_ceil_div(d.len() as int, descs_per_block(block_size));
    let bs = block_size as u64;
    let dpb = block_size as usize / 64;
    let n = descriptors.len();
    let mut block_idx: u64 = 0;
    let mut start: usize = 0;
    proof {
        lemma_codec_roundtrip();
        lemma_ceil_bounds(d.len() as int, dpb as int);
    }
    while start < n
        invariant
            dpb == descs_per_block(block_size),
            dpb >= 1,
            bs == block_size,
            n == d.len(),
            d == descriptors@,
            nb == spec_ceil_div(d.len() as int, dpb as int),
            nb * dpb >= n,
            (gdt_start + nb) * bs <= u64::MAX,
            start <= n,
            start < n ==> start == block_idx * dpb,
            start == n ==> block_idx * dpb >= n,
            block_idx == 0 || (block_idx - 1) * dpb < n,
            start < n ==> block_idx < nb,
            block_idx <= nb,
            block_idx == 0 ==> dev.contents() == c0,
            block_idx > 0 ==> {
                &&& gdt_start * bs + block_idx * bs <= c0.len()
                &&& gdt_image(d, block_idx as int, block_size).len() == block_idx * bs
                &&& dev.contents() == written(c0, gdt_start * bs, gdt_image(d, block_idx as int, block_size))
            },
        decreases n - start,
    {
        let end = if n - start >= dpb {
            start + dpb
        } else {
            n
        };
        let mut buf: Vec<u8> = Vec::new();
        let mut k = start;
        while k < end
            invariant
                start <= k <= end,
                end <= n,
                n == d.len(),
                d == descriptors@,
                buf@ == gd_seq_bytes(d.subrange(start as int, k as int)),
            decreases end - k,
        {
            let rec = descriptors[k].serialize();
            push_bytes(&mut buf, rec.as_slice());
            proof {
                let t = d.subrange(start as int, k + 1);
                assert(t.drop_last() =~= d.subrange(start as int, k as int));
                assert(t.last() == d[k as int]);
            }
            k = k + 1;
        }
        proof {
            lemma_gd_seq_bytes_len(d.subrange(start as int, end as int));
            assert(64 * (end - start) <= bs) by (nonlinear_arith)
                requires
                    end - start <= dpb,
                    dpb == bs / 64,
            ;
        }
        push_zeros(&mut buf, block_size as usize - 64 * (end - start));
        assert(buf@ =~= gdt_block(d, block_idx as int, block_size));
        proof {
            assert((gdt_start + block_idx) * bs == gdt_start * bs + block_idx * bs) by (nonlinear_arith);
            assert(gdt_start * bs + block_idx * bs + bs <= (gdt_start + nb) * bs) by (nonlinear_arith)
                requires
                    block_idx < nb,
            ;
            assert(gdt_start + block_idx < (gdt_start + nb) * bs) by (nonlinear_arith)
                requires
                    block_idx < nb,
                    bs >= 64,
            ;
        }
        let ghost before = dev.contents();
        match dev.write((gdt_start + block_idx) * bs, buf.as_slice()) {
            Ok(()) => {},
            Err(e) => return Err(VolumeError::Device(e)),
        }
        proof {
            let img = gdt_image(d, block_idx as int, block_size);
            if block_idx == 0 {
                assert(gdt_image(d, 1, block_size) =~= buf@);
                assert(gdt_start * bs + 0 * bs == gdt_start * bs);
            } else {
                lemma_written_concat(c0, gdt_start * bs, img, buf@);
                assert(gdt_image(d, block_idx + 1, block_size) == img + buf@);
            }
            assert((block_idx + 1) * bs == block_idx * bs + bs) by (nonlinear_arith);
            assert((block_idx + 1) * dpb == block_idx * dpb + dpb) by (nonlinear_arith);
            if end < n {
                assert(block_idx + 1 < nb) by (nonlinear_arith)
                    requires
                        (block_idx + 1) * dpb < n,
                        nb * dpb >= n,
                        dpb >= 1,
                ;
            }
        }
        block_idx = block_idx + 1;
        start = end;
    }
    proof {
        lemma_blocks_cover(n as int, dpb as int, block_idx as int);
    }
    Ok(())
}

/// Read `group_count` descriptors from the table starting at block
/// `gdt_start`; `ChecksumMismatch` for a descriptor whose checksum fails.
pub fn read_gdt<D: CFSBlockDevice>(dev: &mut D, gdt_start: u64, group_count: u32, block_size: u32) -> (r: Result<Vec<GroupDescriptor>, VolumeError>)
    requires
        block_size >= 64,
        (gdt_start + spec_ceil_div(group_count as int, descs_per_block(block_size))) * block_size <= u64::MAX,
    ensures
        final(dev).contents() == old(dev).contents(),
        r matches Ok(v) ==> {
            &&& v@.len() == group_count
            &&& forall|i: int| 0 <= i < group_count ==> desc_read(#[trigger] v@[i], old(dev).contents(), gdt_start, block_size, i)
        },
{
    let ghost c0 = dev.contents();
    let ghost nb = spec_ceil_div(group_count as int, descs_per_block(block_size));
    let bs = block_size as u64;
    let dpb = block_size as usize / 64;
    let gc = group_count as usize;
    let mut descriptors: Vec<GroupDescriptor> = Vec::new();
    let mut block_idx: u64 = 0;
    let mut start: usize = 0;
    proof {
        lemma_ceil_bounds(group_count as int, dpb as int);
    }
    while start < gc
        invariant
            dpb == descs_per_block(block_size),
            dpb >= 1,
            bs == block_size,
            gc == group_count,
            nb == spec_ceil_div(group_count as int, dpb as int),
            nb * dpb >= gc,
            (gdt_start + nb) * bs <= u64::MAX,
            start <= gc,
            start < gc ==> start == block_idx * dpb,
            start < gc ==> block_idx < nb,
            dev.contents() == c0,
            c0 == old(dev).contents(),
            descriptors@.len() == start,
            forall|i: int| 0 <= i < start ==> desc_read(#[trigger] descriptors@[i], c0, gdt_start, block_size, i),
        decreases gc - start,
    {
        proof {
            assert((gdt_start + block_idx) * bs + bs <= (gdt_start + nb) * bs) by (nonlinear_arith)
                requires
                    block_idx < nb,
            ;
            assert(gdt_start + block_idx <= (gdt_start + nb) * bs) by (nonlinear_arith)
                requires
                    block_idx < nb,
                    bs >= 64,
            ;
        }
        let off = (gdt_start + block_idx) * bs;
        let buf = match dev.read(off, block_size as usize) {
            Ok(v) => v,
            Err(e) => return Err(VolumeError::Device(e)),
        };
        let count = if gc - start < dpb {
            gc - start
        } else {
            dpb
        };
        let mut j: usize = 0;
        while j < count
            invariant
                j <= count,
                count <= dpb,
                dpb == descs_per_block(block_size),
                dpb >= 1,
                bs == block_size,
                start + count <= gc,
                gc == group_count,
                start == block_idx * dpb,
                off == (gdt_start + block_idx) * bs,
                buf@.len() == bs,
                off + bs <= c0.len(),
                buf@ == c0.subrange(off as int, off + bs),
                dev.contents() == c0,
                c0 == old(dev).contents(),
                descriptors@.len() == start + j,
                forall|i: int| 0 <= i < start + j ==> desc_read(#[trigger] descriptors@[i], c0, gdt_start, block_size, i),
            decreases count - j,
        {
            proof {
                assert(64 * j + 64 <= bs) by (nonlinear_arith)
                    requires
                        j < count,
                        count <= dpb,
                        dpb == bs / 64,
                ;
            }
            let piece = slice_subrange(buf.as_slice(), 64 * j, 64 * j + 64);
            let d = match GroupDescriptor::deserialize(piece) {
                Ok(d) => d,
                Err(e) => return Err(e),
            };
            proof {
                let i = start + j;
                vstd::arithmetic::div_mod::lemma_fundamental_div_mod_converse_div(i as int, dpb as int, block_idx as int, j as int);
                vstd::arithmetic::div_mod::lemma_fundamental_div_mod_converse_mod(i as int, dpb as int, block_idx as int, j as int);
                assert(block_idx * dpb == dpb * block_idx) by (nonlinear_arith);
                assert(piece@ =~= desc_slot(c0, gdt_start, block_size, i as int));
            }
            descriptors.push(d);
            j = j + 1;
        }
        proof {
            assert((block_idx + 1) * dpb == block_idx * dpb + dpb) by (nonlinear_arith);
            if start + count < gc {
                assert(block_idx + 1 < nb) by (nonlinear_arith)
                    requires
                        (block_idx + 1) * dpb < gc,
                        nb * dpb >= gc,
                        dpb >= 1,
                ;
            }
        }
        block_idx = block_idx + 1;
        start = start + count;
    }
    Ok(descriptors)
}

} // verus!
