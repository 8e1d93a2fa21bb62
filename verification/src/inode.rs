//! Inodes: the in-memory record, its 128-byte (v2) and 256-byte (v3, with a
//! CRC-32) on-disk encodings, orphan-list and timestamp helpers, and the
//! flat inode table of legacy volumes.

use vstd::prelude::*;
use vstd::slice::slice_subrange;
use crate::codec::{
    le16, le32, le64, enc16, enc32, enc64, enc64_seq, crc32, crc32_hash, lemma_codec_roundtrip,
    lemma_enc64_seq_len, lemma_le64_of_seq, get_u16, get_u32, get_u64, push_u16, push_u32, push_u64,
    push_u64_seq, push_bytes, put_bytes,
};
use crate::error::VolumeError;
use crate::device::{CFSBlockDevice, written};
use vstd::string::StringSliceAdditionalSpecFns;
use crate::options::AtimeMode;
use crate::{INODE_DIR, INODE_FILE, INODE_SYMLINK, INODE_SIZE};

verus! {

pub const INODE_SIZE_V2: u32 = 128;
pub const INODE_SIZE_V3: u32 = 256;

/// Inode flags (bit field stored in `flags`).
pub const INODE_FLAG_INLINE_DATA: u32 = 1;
pub const INODE_FLAG_HAS_XATTR: u32 = 2;
pub const INODE_FLAG_IMMUTABLE: u32 = 4;
pub const INODE_FLAG_APPEND_ONLY: u32 = 8;
pub const INODE_FLAG_SECURE_DELETE: u32 = 16;
pub const INODE_FLAG_PER_FILE_KEY: u32 = 32;
pub const INODE_FLAG_EXTENTS: u32 = 64;
pub const INODE_FLAG_HTREE: u32 = 128;
pub const INODE_FLAG_ORPHAN: u32 = 256;

/// One day in nanoseconds: the relatime threshold.
pub const RELATIME_THRESHOLD_NS: u64 = 86_400_000_000_000;

/// First word of the block-pointer area once it holds an empty extent root:
/// magic 0xF30A, no entries, room for 7, depth 0.
pub const EXTENT_ROOT_WORD0: u64 = 0x0000_0007_0000_F30A;

/// An inode. v2 volumes store 128 bytes of it, v3 volumes 256.
#[derive(Debug, Clone, Copy, PartialEq, Eq)]
pub struct Inode {
    pub mode: u16,
    pub nlinks: u16,
    /// Lower 32 bits of the allocated block count.
    pub block_count: u32,
    pub size: u64,
    /// v2: seconds; v3: nanoseconds since the epoch.
    pub created: u64,
    pub modified: u64,
    pub direct_blocks: [u64; 10],
    pub indirect_block: u64,
    pub double_indirect: u64,
    pub accessed_ns: u64,
    pub changed_ns: u64,
    pub owner_id: u32,
    pub group_id: u32,
    pub permissions: u32,
    pub flags: u32,
    pub xattr_block: u64,
    pub xattr_inline_size: u32,
    /// CRC-32 of the v3 encoding's bytes `[0..172)`.
    pub checksum: u32,
    /// Upper 32 bits of the allocated block count.
    pub block_count_hi: u32,
    pub inline_area: [u8; 76],
}

/// The 128-byte v2 encoding.
pub open spec fn v2_bytes(i: Inode) -> Seq<u8> {
    enc16(i.mode) + enc16(i.nlinks) + enc32(i.block_count) + enc64(i.size) + enc64(i.created) + enc64(
        i.modified,
    ) + enc64_seq(i.direct_blocks@) + enc64(i.indirect_block) + enc64(i.double_indirect)
}

/// The checksummed part of the v3 encoding: bytes `[0..172)`.
pub open spec fn v3_head(i: Inode) -> Seq<u8> {
    enc16(i.mode) + enc16(i.nlinks) + enc32(i.block_count) + enc64(i.size) + enc64(i.created) + enc64(
        i.modified,
    ) + enc64(i.accessed_ns) + enc64(i.changed_ns) + enc32(i.owner_id) + enc32(i.group_id) + enc32(
        i.permissions,
    ) + enc32(i.flags) + enc64_seq(i.direct_blocks@) + enc64(i.indirect_block) + enc64(i.double_indirect)
        + enc64(i.xattr_block) + enc32(i.xattr_inline_size)
}

/// The 256-byte v3 encoding; bytes `[172..176)` hold the CRC-32 of the
/// head (the stored `checksum` field is not written).
pub open spec fn v3_bytes(i: Inode) -> Seq<u8> {
    v3_head(i) + enc32(crc32(v3_head(i))) + enc32(i.block_count_hi) + i.inline_area@
}

/// The ten block pointers stored at byte `off`, eight bytes each.
pub open spec fn le64_words(buf: Seq<u8>, off: int) -> Seq<u64> {
    Seq::new(10, |k: int| le64(buf, off + 8 * k))
}

/// `i` holds the v2 fields of `buf`, with the v3 fields defaulted.
pub open spec fn v2_matches(i: Inode, buf: Seq<u8>) -> bool {
    &&& i.mode == le16(buf, 0)
    &&& i.nlinks == le16(buf, 2)
    &&& i.block_count == le32(buf, 4)
    &&& i.size == le64(buf, 8)
    &&& i.created == le64(buf, 16)
    &&& i.modified == le64(buf, 24)
    &&& i.direct_blocks@ == le64_words(buf, 32)
    &&& i.indirect_block == le64(buf, 112)
    &&& i.double_indirect == le64(buf, 120)
    &&& i.accessed_ns == i.created
    &&& i.changed_ns == i.modified
    &&& i.owner_id == 0
    &&& i.group_id == 0
    &&& i.permissions == (if i.mode == INODE_DIR { 0o755u32 } else { 0o644u32 })
    &&& i.flags == 0
    &&& i.xattr_block == 0
    &&& i.xattr_inline_size == 0
    &&& i.checksum == 0
    &&& i.block_count_hi == 0
    &&& i.inline_area@ == Seq::new(76, |k: int| 0u8)
}

/// The v3 checksum stored in `buf` matches its head.
pub open spec fn v3_checksum_ok(buf: Seq<u8>) -> bool {
    le32(buf, 172) == crc32(buf.subrange(0, 172))
}

/// `i` holds the fields of the v3 encoding `buf`.
pub open spec fn v3_matches(i: Inode, buf: Seq<u8>) -> bool {
    &&& i.mode == le16(buf, 0)
    &&& i.nlinks == le16(buf, 2)
    &&& i.block_count == le32(buf, 4)
    &&& i.size == le64(buf, 8)
    &&& i.created == le64(buf, 16)
    &&& i.modified == le64(buf, 24)
    &&& i.accessed_ns == le64(buf, 32)
    &&& i.changed_ns == le64(buf, 40)
    &&& i.owner_id == le32(buf, 48)
    &&& i.group_id == le32(buf, 52)
    &&& i.permissions == le32(buf, 56)
    &&& i.flags == le32(buf, 60)
    &&& i.direct_blocks@ == le64_words(buf, 64)
    &&& i.indirect_block == le64(buf, 144)
    &&& i.double_indirect == le64(buf, 152)
    &&& i.xattr_block == le64(buf, 160)
    &&& i.xattr_inline_size == le32(buf, 168)
    &&& i.checksum == le32(buf, 172)
    &&& i.block_count_hi == le32(buf, 176)
    &&& i.inline_area@ == buf.subrange(180, 256)
}

/// Decoding a v2 encoding gives back every v2 field.
pub proof fn lemma_v2_roundtrip(i: Inode)
    ensures
        v2_bytes(i).len() == 128,
        ({
            let b = v2_bytes(i);
            &&& le16(b, 0) == i.mode
            &&& le16(b, 2) == i.nlinks
            &&& le32(b, 4) == i.block_count
            &&& le64(b, 8) == i.size
            &&& le64(b, 16) == i.created
            &&& le64(b, 24) == i.modified
            &&& le64_words(b, 32) == i.direct_blocks@
            &&& le64(b, 112) == i.indirect_block
            &&& le64(b, 120) == i.double_indirect
        }),
{
    lemma_codec_roundtrip();
    lemma_enc64_seq_len(i.direct_blocks@);
    let b = v2_bytes(i);
    assert(b.subrange(0, 2) =~= enc16(i.mode));
    assert(b.subrange(2, 4) =~= enc16(i.nlinks));
    assert(b.subrange(4, 8) =~= enc32(i.block_count));
    assert(b.subrange(8, 16) =~= enc64(i.size));
    assert(b.subrange(16, 24) =~= enc64(i.created));
    assert(b.subrange(24, 32) =~= enc64(i.modified));
    assert(b.subrange(32, 112) =~= enc64_seq(i.direct_blocks@));
    lemma_le64_of_seq(b, 32, i.direct_blocks@);
    assert(le64_words(b, 32) =~= i.direct_blocks@);
    assert(b.subrange(112, 120) =~= enc64(i.indirect_block));
    assert(b.subrange(120, 128) =~= enc64(i.double_indirect));
}

/// Decoding a v3 encoding passes the checksum test and gives back every
/// field, with the checksum field set to the CRC of the head.
pub proof fn lemma_v3_roundtrip(i: Inode)
    ensures
        v3_head(i).len() == 172,
        v3_bytes(i).len() == 256,
        v3_checksum_ok(v3_bytes(i)),
        v3_matches(Inode { checksum: crc32(v3_head(i)), ..i }, v3_bytes(i)),
{
    lemma_codec_roundtrip();
    lemma_enc64_seq_len(i.direct_blocks@);
    let b = v3_bytes(i);
    let h = v3_head(i);
    assert(h.len() == 172);
    assert(b.subrange(0, 172) =~= h);
    assert(b.subrange(0, 2) =~= enc16(i.mode));
    assert(b.subrange(2, 4) =~= enc16(i.nlinks));
    assert(b.subrange(4, 8) =~= enc32(i.block_count));
    assert(b.subrange(8, 16) =~= enc64(i.size));
    assert(b.subrange(16, 24) =~= enc64(i.created));
    assert(b.subrange(24, 32) =~= enc64(i.modified));
    assert(b.subrange(32, 40) =~= enc64(i.accessed_ns));
    assert(b.subrange(40, 48) =~= enc64(i.changed_ns));
    assert(b.subrange(48, 52) =~= enc32(i.owner_id));
    assert(b.subrange(52, 56) =~= enc32(i.group_id));
    assert(b.subrange(56, 60) =~= enc32(i.permissions));
    assert(b.subrange(60, 64) =~= enc32(i.flags));
    assert(b.subrange(64, 144) =~= enc64_seq(i.direct_blocks@));
    lemma_le64_of_seq(b, 64, i.direct_blocks@);
    assert(le64_words(b, 64) =~= i.direct_blocks@);
    assert(b.subrange(144, 152) =~= enc64(i.indirect_block));
    assert(b.subrange(152, 160) =~= enc64(i.double_indirect));
    assert(b.subrange(160, 168) =~= enc64(i.xattr_block));
    assert(b.subrange(168, 172) =~= enc32(i.xattr_inline_size));
    assert(b.subrange(172, 176) =~= enc32(crc32(h)));
    assert(b.subrange(176, 180) =~= enc32(i.block_count_hi));
    assert(b.subrange(180, 256) =~= i.inline_area@);
}

/// Ten words read from `buf` at byte `off`.
fn read_words(buf: &[u8], off: usize) -> (r: [u64; 10])
    requires
        off + 80 <= buf@.len(),
    ensures
        r@ == le64_words(buf@, off as int),
{
    let n = buf.len();
    let mut w = [0u64; 10];
    let mut k: usize = 0;
    while k < 10
        invariant
            n == buf@.len(),
            off + 80 <= buf@.len(),
            k <= 10,
            forall|j: int| 0 <= j < k ==> w@[j] == le64(buf@, off + 8 * j),
        decreases 10 - k,
    {
        w[k] = get_u64(buf, off + 8 * k);
        k = k + 1;
    }
    assert(w@ =~= le64_words(buf@, off as int));
    w
}

impl Inode {
    /// The 128-byte v2 encoding.
    pub fn serialize(&self) -> (r: Vec<u8>)
        ensures
            r@ == v2_bytes(*self),
    {
        let mut buf: Vec<u8> = Vec::new();
        push_u16(&mut buf, self.mode);
        push_u16(&mut buf, self.nlinks);
        push_u32(&mut buf, self.block_count);
        push_u64(&mut buf, self.size);
        push_u64(&mut buf, self.created);
        push_u64(&mut buf, self.modified);
        push_u64_seq(&mut buf, self.direct_blocks.as_slice());
        push_u64(&mut buf, self.indirect_block);
        push_u64(&mut buf, self.double_indirect);
        buf
    }

    /// Decode a 128-byte v2 encoding; the v3-only fields get defaults.
    pub fn deserialize(buf: &[u8]) -> (r: Self)
        requires
            buf@.len() >= 128,
        ensures
            v2_matches(r, buf@),
    {
        let mode = get_u16(buf, 0);
        let created = get_u64(buf, 16);
        let modified = get_u64(buf, 24);
        let r = Inode {
            mode,
            nlinks: get_u16(buf, 2),
            block_count: get_u32(buf, 4),
            size: get_u64(buf, 8),
            created,
            modified,
            direct_blocks: read_words(buf, 32),
            indirect_block: get_u64(buf, 112),
            double_indirect: get_u64(buf, 120),
            accessed_ns: created,
            changed_ns: modified,
            owner_id: 0,
            group_id: 0,
            permissions: if mode == INODE_DIR { 0o755 } else { 0o644 },
            flags: 0,
            xattr_block: 0,
            xattr_inline_size: 0,
            checksum: 0,
            block_count_hi: 0,
            inline_area: [0u8; 76],
        };
        assert(r.inline_area@ =~= Seq::new(76, |k: int| 0u8));
        r
    }

    /// The 256-byte v3 encoding, with a freshly computed checksum.
    pub fn serialize_v3(&self) -> (r: Vec<u8>)
        ensures
            r@ == v3_bytes(*self),
    {
        let mut buf: Vec<u8> = Vec::new();
        push_u16(&mut buf, self.mode);
        push_u16(&mut buf, self.nlinks);
        push_u32(&mut buf, self.block_count);
        push_u64(&mut buf, self.size);
        push_u64(&mut buf, self.created);
        push_u64(&mut buf, self.modified);
        push_u64(&mut buf, self.accessed_ns);
        push_u64(&mut buf, self.changed_ns);
        push_u32(&mut buf, self.owner_id);
        push_u32(&mut buf, self.group_id);
        push_u32(&mut buf, self.permissions);
        push_u32(&mut buf, self.flags);
        push_u64_seq(&mut buf, self.direct_blocks.as_slice());
        push_u64(&mut buf, self.indirect_block);
        push_u64(&mut buf, self.double_indirect);
        push_u64(&mut buf, self.xattr_block);
        push_u32(&mut buf, self.xattr_inline_size);
        proof {
            assert(buf@ =~= v3_head(*self));
        }
        let crc = crc32_hash(buf.as_slice());
        push_u32(&mut buf, crc);
        push_u32(&mut buf, self.block_count_hi);
        push_bytes(&mut buf, self.inline_area.as_slice());
        buf
    }

    /// Decode a 256-byte v3 encoding; fails when the stored checksum does not
    /// match the CRC of bytes `[0..172)`.
    pub fn deserialize_v3(buf: &[u8]) -> (r: Result<Self, VolumeError>)
        requires
            buf@.len() >= 256,
        ensures
            r is Ok <==> v3_checksum_ok(buf@),
            r matches Ok(i) ==> v3_matches(i, buf@),
            r is Err ==> r == Err::<Self, VolumeError>(VolumeError::ChecksumMismatch),
    {
        let stored = get_u32(buf, 172);
        let computed = crc32_hash(slice_subrange(buf, 0, 172));
        if stored != computed {
            return Err(VolumeError::ChecksumMismatch);
        }
        let mut inline_area = [0u8; 76];
        let mut k: usize = 0;
        while k < 76
            invariant
                buf@.len() >= 256,
                k <= 76,
                forall|j: int| 0 <= j < k ==> inline_area@[j] == buf@[180 + j],
            decreases 76 - k,
        {
            inline_area[k] = buf[180 + k];
            k = k + 1;
        }
        assert(inline_area@ =~= buf@.subrange(180, 256));
        Ok(Inode {
            mode: get_u16(buf, 0),
            nlinks: get_u16(buf, 2),
            block_count: get_u32(buf, 4),
            size: get_u64(buf, 8),
            created: get_u64(buf, 16),
            modified: get_u64(buf, 24),
            accessed_ns: get_u64(buf, 32),
            changed_ns: get_u64(buf, 40),
            owner_id: get_u32(buf, 48),
            group_id: get_u32(buf, 52),
            permissions: get_u32(buf, 56),
            flags: get_u32(buf, 60),
            direct_blocks: read_words(buf, 64),
            indirect_block: get_u64(buf, 144),
            double_indirect: get_u64(buf, 152),
            xattr_block: get_u64(buf, 160),
            xattr_inline_size: get_u32(buf, 168),
            checksum: stored,
            block_count_hi: get_u32(buf, 176),
            inline_area,
        })
    }

    /// The encoding for an inode size of 128 (v2) or 256 (v3) bytes.
    pub fn serialize_for_size(&self, inode_size: u32) -> (r: Vec<u8>)
        requires
            inode_size == 128 || inode_size == 256,
        ensures
            r@ == if inode_size == 128 { v2_bytes(*self) } else { v3_bytes(*self) },
    {
        if inode_size == 128 {
            self.serialize()
        } else {
            self.serialize_v3()
        }
    }

    /// Decode the leading 128 (v2) or 256 (v3) bytes of `buf`.
    pub fn deserialize_for_size(buf: &[u8], inode_size: u32) -> (r: Result<Self, VolumeError>)
        ensures
            inode_size != 128 && inode_size != 256 ==> r == Err::<Self, VolumeError>(VolumeError::Unsupported),
            inode_size == 128 && buf@.len() < 128 ==> r == Err::<Self, VolumeError>(VolumeError::TooShort),
            inode_size == 128 && buf@.len() >= 128 ==> (r matches Ok(i) && v2_matches(i, buf@)),
            inode_size == 256 && buf@.len() < 256 ==> r == Err::<Self, VolumeError>(VolumeError::TooShort),
            inode_size == 256 && buf@.len() >= 256 ==> {
                &&& r is Ok <==> v3_checksum_ok(buf@)
                &&& r matches Ok(i) ==> v3_matches(i, buf@)
                &&& r is Err ==> r == Err::<Self, VolumeError>(VolumeError::ChecksumMismatch)
            },
    {
        if inode_size == 128 {
            if buf.len() < 128 {
                return Err(VolumeError::TooShort);
            }
            Ok(Self::deserialize(buf))
        } else if inode_size == 256 {
            if buf.len() < 256 {
                return Err(VolumeError::TooShort);
            }
            Self::deserialize_v3(buf)
        } else {
            Err(VolumeError::Unsupported)
        }
    }

    /// CRC-32 of the v3 encoding's bytes `[0..172)`.
    pub fn compute_checksum(&self) -> (r: u32)
        ensures
            r == crc32(v3_head(*self)),
    {
        let buf = self.serialize_v3();
        proof {
            lemma_v3_roundtrip(*self);
            assert(buf@.subrange(0, 172) =~= v3_head(*self));
        }
        crc32_hash(slice_subrange(buf.as_slice(), 0, 172))
    }

    /// Succeeds when the stored checksum equals the CRC of the current fields.
    pub fn verify_checksum(&self) -> (r: Result<(), VolumeError>)
        ensures
            r is Ok <==> self.checksum == crc32(v3_head(*self)),
            r is Err ==> r == Err::<(), VolumeError>(VolumeError::ChecksumMismatch),
    {
        let expected = self.compute_checksum();
        if self.checksum != expected {
            return Err(VolumeError::ChecksumMismatch);
        }
        Ok(())
    }

    /// The 64-bit block count, from its two halves.
    pub fn block_count_u64(&self) -> (r: u64)
        ensures
            r == self.block_count_hi * 0x1_0000_0000 + self.block_count,
    {
        let hi = self.block_count_hi as u64;
        let lo = self.block_count as u64;
        assert((hi << 32) | lo == hi * 0x1_0000_0000 + lo) by (bit_vector)
            requires
                hi < 0x1_0000_0000,
                lo < 0x1_0000_0000,
        ;
        (hi << 32) | lo
    }

    /// Split a 64-bit block count into its two halves.
    pub fn set_block_count_u64(&mut self, count: u64)
        ensures
            final(self).block_count_hi * 0x1_0000_0000 + final(self).block_count == count,
            *final(self) == (Inode { block_count: final(self).block_count, block_count_hi: final(self).block_count_hi, ..*old(self) }),
    {
        let lo = count as u32;
        let hi = (count >> 32) as u32;
        assert(hi * 0x1_0000_0000 + lo == count) by (bit_vector)
            requires
                lo == count as u32,
                hi == (count >> 32) as u32,
        ;
        self.block_count = lo;
        self.block_count_hi = hi;
    }

    /// Whether the inode is on the orphan list.
    pub fn is_orphan(&self) -> (r: bool)
        ensures
            r == (self.flags & INODE_FLAG_ORPHAN != 0),
    {
        self.flags & INODE_FLAG_ORPHAN != 0
    }

    /// Put the inode on the orphan list, linking it to `next_idx` (0 ends the chain).
    pub fn set_next_orphan(&mut self, next_idx: u32)
        ensures
            *final(self) == (Inode { flags: old(self).flags | INODE_FLAG_ORPHAN, double_indirect: next_idx as u64, ..*old(self) }),
    {
        self.flags = self.flags | INODE_FLAG_ORPHAN;
        self.double_indirect = next_idx as u64;
    }

    /// The next inode on the orphan list (0 ends the chain).
    pub fn get_next_orphan(&self) -> (r: u32)
        ensures
            r == self.double_indirect as u32,
    {
        self.double_indirect as u32
    }

    /// Take the inode off the orphan list.
    pub fn clear_orphan(&mut self)
        ensures
            *final(self) == (Inode { flags: old(self).flags & !INODE_FLAG_ORPHAN, double_indirect: 0, ..*old(self) }),
    {
        self.flags = self.flags & !INODE_FLAG_ORPHAN;
        self.double_indirect = 0;
    }

    /// Mark the inode as extent-mapped and put an empty extent root in its
    /// block-pointer area.
    pub fn init_extent_root(&mut self)
        ensures
            final(self).flags == old(self).flags | INODE_FLAG_EXTENTS,
            final(self).direct_blocks@ == seq![EXTENT_ROOT_WORD0, 0u64, 0u64, 0u64, 0u64, 0u64, 0u64, 0u64, 0u64, 0u64],
            final(self).indirect_block == 0,
            final(self).double_indirect == 0,
            *final(self) == (Inode {
                flags: final(self).flags,
                direct_blocks: final(self).direct_blocks,
                indirect_block: 0,
                double_indirect: 0,
                ..*old(self)
            }),
    {
        self.flags = self.flags | INODE_FLAG_EXTENTS;
        self.direct_blocks = [EXTENT_ROOT_WORD0, 0, 0, 0, 0, 0, 0, 0, 0, 0];
        self.indirect_block = 0;
        self.double_indirect = 0;
        assert(self.direct_blocks@ =~= seq![EXTENT_ROOT_WORD0, 0u64, 0u64, 0u64, 0u64, 0u64, 0u64, 0u64, 0u64, 0u64]);
    }
}

/// Nanoseconds since the Unix epoch, from the system clock (0 for a clock
/// set before the epoch).
///
/// Calls `std::time::SystemTime::now` and converts its distance from
/// `UNIX_EPOCH`; nothing is stated of the result, which depends on the time.
#[verifier::external_body]
pub fn unix_now_ns() -> u64 {
    std::time::SystemTime::now().duration_since(std::time::UNIX_EPOCH).unwrap_or_default().as_nanos() as u64
}

/// Whole seconds in `ns` nanoseconds.
pub fn ns_to_seconds(ns: u64) -> (r: u64)
    ensures
        r == ns / 1_000_000_000,
{
    ns / 1_000_000_000
}

/// `secs` seconds in nanoseconds, saturating at `u64::MAX`.
pub fn seconds_to_ns(secs: u64) -> (r: u64)
    ensures
        r == if secs * 1_000_000_000 <= u64::MAX { secs * 1_000_000_000 } else { u64::MAX as int },
{
    if secs > u64::MAX / 1_000_000_000 {
        u64::MAX
    } else {
        secs * 1_000_000_000
    }
}

/// `i` is a fresh inode of the given kind created at time `t`, with no
/// blocks, no size, owner and group 0, and no extended attributes.
pub open spec fn fresh_inode(i: Inode, mode: u16, nlinks: u16, permissions: u32, t: u64) -> bool {
    &&& i.mode == mode
    &&& i.nlinks == nlinks
    &&& i.block_count == 0
    &&& i.block_count_hi == 0
    &&& i.created == t
    &&& i.modified == t
    &&& i.accessed_ns == t
    &&& i.changed_ns == t
    &&& i.owner_id == 0
    &&& i.group_id == 0
    &&& i.permissions == permissions
    &&& i.xattr_block == 0
    &&& i.xattr_inline_size == 0
    &&& i.checksum == 0
}

/// No block pointers and no inline data.
pub open spec fn empty_pointers(i: Inode) -> bool {
    &&& i.direct_blocks@ == Seq::new(10, |k: int| 0u64)
    &&& i.indirect_block == 0
    &&& i.double_indirect == 0
    &&& i.inline_area@ == Seq::new(76, |k: int| 0u8)
}

/// An empty extent root in the block-pointer area, and the extents flag.
pub open spec fn empty_extent_root(i: Inode) -> bool {
    &&& i.direct_blocks@ == seq![EXTENT_ROOT_WORD0, 0u64, 0u64, 0u64, 0u64, 0u64, 0u64, 0u64, 0u64, 0u64]
    &&& i.indirect_block == 0
    &&& i.double_indirect == 0
    &&& i.flags == INODE_FLAG_EXTENTS
}

/// A blank inode of the given kind created at `t`.
fn blank(mode: u16, nlinks: u16, permissions: u32, t: u64, size: u64) -> (r: Inode)
    ensures
        fresh_inode(r, mode, nlinks, permissions, t),
        empty_pointers(r),
        r.size == size,
        r.flags == 0,
{
    let r = Inode {
        mode,
        nlinks,
        block_count: 0,
        size,
        created: t,
        modified: t,
        direct_blocks: [0u64; 10],
        indirect_block: 0,
        double_indirect: 0,
        accessed_ns: t,
        changed_ns: t,
        owner_id: 0,
        group_id: 0,
        permissions,
        flags: 0,
        xattr_block: 0,
        xattr_inline_size: 0,
        checksum: 0,
        block_count_hi: 0,
        inline_area: [0u8; 76],
    };
    assert(r.direct_blocks@ =~= Seq::new(10, |k: int| 0u64));
    assert(r.inline_area@ =~= Seq::new(76, |k: int| 0u8));
    r
}

impl Inode {
    /// A new directory inode (v2 layout; timestamps in seconds).
    pub fn new_dir() -> (r: Self)
        ensures
            fresh_inode(r, INODE_DIR, 2, 0o755, r.created),
            empty_pointers(r),
            r.size == 0,
            r.flags == 0,
    {
        let now = ns_to_seconds(unix_now_ns());
        blank(INODE_DIR, 2, 0o755, now, 0)
    }

    /// A new regular-file inode (v2 layout; timestamps in seconds).
    pub fn new_file() -> (r: Self)
        ensures
            fresh_inode(r, INODE_FILE, 1, 0o644, r.created),
            empty_pointers(r),
            r.size == 0,
            r.flags == 0,
    {
        let now = ns_to_seconds(unix_now_ns());
        blank(INODE_FILE, 1, 0o644, now, 0)
    }

    /// A new v3 regular-file inode with an empty extent tree.
    pub fn new_file_v3(permissions: u32) -> (r: Self)
        ensures
            fresh_inode(r, INODE_FILE, 1, permissions, r.created),
            empty_extent_root(r),
            r.size == 0,
            r.inline_area@ == Seq::new(76, |k: int| 0u8),
    {
        let now = unix_now_ns();
        let mut r = blank(INODE_FILE, 1, permissions, now, 0);
        r.init_extent_root();
        assert(0u32 | 64u32 == 64u32) by (bit_vector);
        r
    }

    /// A new v3 directory inode with an empty extent tree.
    pub fn new_dir_v3(permissions: u32) -> (r: Self)
        ensures
            fresh_inode(r, INODE_DIR, 2, permissions, r.created),
            empty_extent_root(r),
            r.size == 0,
            r.inline_area@ == Seq::new(76, |k: int| 0u8),
    {
        let now = unix_now_ns();
        let mut r = blank(INODE_DIR, 2, permissions, now, 0);
        r.init_extent_root();
        assert(0u32 | 64u32 == 64u32) by (bit_vector);
        r
    }

    /// A new v3 symlink inode. A target of at most 76 bytes is stored inline
    /// (with the inline-data flag); a longer one gets an empty extent tree.
    pub fn new_symlink(target: &str) -> (r: Self)
        ensures
            fresh_inode(r, INODE_SYMLINK, 1, 0o777, r.created),
            r.size == target.spec_bytes().len(),
            target.spec_bytes().len() <= 76 ==> {
                &&& r.flags == INODE_FLAG_INLINE_DATA
                &&& r.inline_area@ == target.spec_bytes() + Seq::new((76 - target.spec_bytes().len()) as nat, |k: int| 0u8)
                &&& r.direct_blocks@ == Seq::new(10, |k: int| 0u64)
                &&& r.indirect_block == 0
                &&& r.double_indirect == 0
            },
            target.spec_bytes().len() > 76 ==> {
                &&& empty_extent_root(r)
                &&& r.inline_area@ == Seq::new(76, |k: int| 0u8)
            },
    {
        let now = unix_now_ns();
        let bytes = target.as_bytes();
        let n = bytes.len();
        let mut r = blank(INODE_SYMLINK, 1, 0o777, now, n as u64);
        if n <= 76 {
            let mut k: usize = 0;
            while k < n
                invariant
                    n == bytes@.len(),
                    n <= 76,
                    k <= n,
                    fresh_inode(r, INODE_SYMLINK, 1, 0o777, now),
                    r.size == n,
                    r.flags == 0,
                    r.direct_blocks@ == Seq::new(10, |k: int| 0u64),
                    r.indirect_block == 0,
                    r.double_indirect == 0,
                    forall|j: int| 0 <= j < k ==> r.inline_area@[j] == bytes@[j],
                    forall|j: int| k <= j < 76 ==> r.inline_area@[j] == 0u8,
                decreases n - k,
            {
                r.inline_area[k] = bytes[k];
                k = k + 1;
            }
            r.flags = INODE_FLAG_INLINE_DATA;
            assert(r.inline_area@ =~= bytes@ + Seq::new((76 - n) as nat, |k: int| 0u8));
        } else {
            r.init_extent_root();
            assert(0u32 | 64u32 == 64u32) by (bit_vector);
        }
        r
    }

    /// Whether reading at time `now_ns` should update the access time:
    /// always, never, or (relatime) when the access time is not after the
    /// modification time or is more than a day older than `now_ns`.
    pub fn should_update_atime_at(&self, mode: AtimeMode, now_ns: u64) -> (r: bool)
        ensures
            r == match mode {
                AtimeMode::Always => true,
                AtimeMode::Never => false,
                AtimeMode::Relatime => self.accessed_ns <= self.modified || (now_ns > self.accessed_ns
                    && now_ns - self.accessed_ns > RELATIME_THRESHOLD_NS),
            },
    {
        match mode {
            AtimeMode::Always => true,
            AtimeMode::Never => false,
            AtimeMode::Relatime => {
                if self.accessed_ns <= self.modified {
                    return true;
                }
                now_ns.saturating_sub(self.accessed_ns) > RELATIME_THRESHOLD_NS
            },
        }
    }

    /// Whether a read now should update the access time (see
    /// `should_update_atime_at`, applied to the current clock).
    pub fn should_update_atime(&self, mode: AtimeMode) -> (r: bool)
        ensures
            mode == AtimeMode::Always ==> r,
            mode == AtimeMode::Never ==> !r,
            mode == AtimeMode::Relatime && self.accessed_ns <= self.modified ==> r,
    {
        let now = unix_now_ns();
        self.should_update_atime_at(mode, now)
    }

    /// Set the access time to the current clock.
    pub fn touch_atime(&mut self)
        ensures
            *final(self) == (Inode { accessed_ns: final(self).accessed_ns, ..*old(self) }),
    {
        self.accessed_ns = unix_now_ns();
    }

    /// Set the change time to the current clock.
    pub fn touch_ctime(&mut self)
        ensures
            *final(self) == (Inode { changed_ns: final(self).changed_ns, ..*old(self) }),
    {
        self.changed_ns = unix_now_ns();
    }

    /// Set the modification time, and with it the change time, to the current clock.
    pub fn touch_mtime(&mut self)
        ensures
            final(self).changed_ns == final(self).modified,
            *final(self) == (Inode { modified: final(self).modified, changed_ns: final(self).modified, ..*old(self) }),
    {
        let now = unix_now_ns();
        self.modified = now;
        self.changed_ns = now;
    }
}

/// The encoding of `i` for an inode size of 128 or 256 bytes.
pub open spec fn inode_bytes(i: Inode, inode_size: u32) -> Seq<u8> {
    if inode_size == 128 {
        v2_bytes(i)
    } else {
        v3_bytes(i)
    }
}

/// `i` is what decoding `bytes` as an inode of `inode_size` bytes gives.
pub open spec fn inode_decodes(i: Inode, bytes: Seq<u8>, inode_size: u32) -> bool {
    &&& (inode_size == 128 || inode_size == 256)
    &&& inode_size == 128 ==> v2_matches(i, bytes)
    &&& inode_size == 256 ==> v3_matches(i, bytes) && v3_checksum_ok(bytes)
}

/// Read and decode the inode stored at byte `off` of the device; the inode
/// lies within one block, which is read whole.
pub(crate) fn read_inode_at<D: CFSBlockDevice>(dev: &mut D, off: u64, block_size: u32, inode_size: u32) -> (r: Result<Inode, VolumeError>)
    requires
        block_size > 0,
        (off as int) % (block_size as int) + inode_size <= block_size,
        off + block_size <= u64::MAX,
    ensures
        final(dev).contents() == old(dev).contents(),
        r matches Ok(i) ==> off + inode_size <= old(dev).contents().len() && inode_decodes(
            i,
            old(dev).contents().subrange(off as int, off + inode_size),
            inode_size,
        ),
        inode_size != 128 && inode_size != 256 ==> r is Err,
{
    let bs = block_size as u64;
    proof {
        vstd::arithmetic::div_mod::lemma_fundamental_div_mod(off as int, bs as int);
        vstd::arithmetic::div_mod::lemma_mod_bound(off as int, bs as int);
        assert((off / bs) * bs == bs * (off / bs)) by (nonlinear_arith);
    }
    let block_off = (off / bs) * bs;
    let within = (off % bs) as usize;
    proof {
    }
    let buf = match dev.read(block_off, block_size as usize) {
        Ok(b) => b,
        Err(e) => return Err(VolumeError::Device(e)),
    };
    let piece = slice_subrange(buf.as_slice(), within, within + inode_size as usize);
    proof {
        assert(piece@ =~= old(dev).contents().subrange(off as int, off + inode_size));
    }
    let r = Inode::deserialize_for_size(piece, inode_size);
    proof {
        if inode_size == 128 || inode_size == 256 {
            assert(piece@.len() == inode_size);
        }
    }
    r
}

/// Replace the inode stored at byte `off` by the encoding of `inode`,
/// rewriting the block that holds it.
pub(crate) fn write_inode_at<D: CFSBlockDevice>(dev: &mut D, off: u64, block_size: u32, inode_size: u32, inode: &Inode) -> (r: Result<(), VolumeError>)
    requires
        block_size > 0,
        inode_size == 128 || inode_size == 256,
        (off as int) % (block_size as int) + inode_size <= block_size,
        off + block_size <= u64::MAX,
    ensures
        r matches Err(e) ==> e is Device,
        r is Ok ==> off + inode_size <= old(dev).contents().len() && final(dev).contents() == written(
            old(dev).contents(),
            off as int,
            inode_bytes(*inode, inode_size),
        ),
        r is Err ==> final(dev).contents() == old(dev).contents(),
{
    let bs = block_size as u64;
    proof {
        vstd::arithmetic::div_mod::lemma_fundamental_div_mod(off as int, bs as int);
        vstd::arithmetic::div_mod::lemma_mod_bound(off as int, bs as int);
        assert((off / bs) * bs == bs * (off / bs)) by (nonlinear_arith);
    }
    let block_off = (off / bs) * bs;
    let within = (off % bs) as usize;
    proof {
        lemma_v2_roundtrip(*inode);
        lemma_v3_roundtrip(*inode);
    }
    let mut buf = match dev.read(block_off, block_size as usize) {
        Ok(b) => b,
        Err(e) => return Err(VolumeError::Device(e)),
    };
    let ghost c = dev.contents();
    let serialized = inode.serialize_for_size(inode_size);
    put_bytes(&mut buf, within, serialized.as_slice());
    proof {
        assert(written(c, block_off as int, buf@) =~= written(c, off as int, inode_bytes(*inode, inode_size)));
    }
    match dev.write(block_off, buf.as_slice()) {
        Ok(()) => Ok(()),
        Err(e) => Err(VolumeError::Device(e)),
    }
}

/// The flat inode table of a legacy volume.
#[derive(Debug, Clone, Copy)]
pub struct InodeTable {
    /// First block of the table.
    pub inode_table_start: u64,
    pub inode_count: u32,
    pub block_size: u32,
    /// 128 or 256.
    pub inode_size: u32,
}

impl InodeTable {
    /// Byte offset of inode `index`.
    pub open spec fn spec_offset(&self, index: u32) -> int {
        self.inode_table_start * self.block_size + index * self.inode_size
    }

    /// Inodes never straddle blocks and every offset in the table (plus a
    /// block) is addressable.
    pub open spec fn well_laid_out(&self) -> bool {
        &&& self.block_size > 0
        &&& self.inode_size > 0
        &&& self.block_size % self.inode_size == 0
        &&& self.inode_table_start * self.block_size + self.inode_count * self.inode_size + self.block_size <= u64::MAX
    }

    /// A table of 128-byte inodes.
    pub fn new(inode_table_start: u64, inode_count: u32, block_size: u32) -> (r: Self)
        ensures
            r == (InodeTable { inode_table_start, inode_count, block_size, inode_size: INODE_SIZE }),
    {
        InodeTable { inode_table_start, inode_count, block_size, inode_size: INODE_SIZE }
    }

    /// A table of inodes of `inode_size` bytes.
    pub fn new_with_inode_size(inode_table_start: u64, inode_count: u32, block_size: u32, inode_size: u32) -> (r: Self)
        ensures
            r == (InodeTable { inode_table_start, inode_count, block_size, inode_size }),
    {
        InodeTable { inode_table_start, inode_count, block_size, inode_size }
    }

    /// Inodes per block.
    pub fn inodes_per_block(&self) -> (r: u32)
        requires
            self.inode_size > 0,
        ensures
            r == self.block_size / self.inode_size,
    {
        self.block_size / self.inode_size
    }

    /// Read inode `index`; `OutOfRange` past the last inode.
    pub fn read_inode<D: CFSBlockDevice>(&self, dev: &mut D, index: u32) -> (r: Result<Inode, VolumeError>)
        requires
            self.well_laid_out(),
        ensures
            final(dev).contents() == old(dev).contents(),
            index >= self.inode_count ==> r == Err::<Inode, VolumeError>(VolumeError::OutOfRange),
            r matches Ok(i) ==> index < self.inode_count && self.spec_offset(index) + self.inode_size
                <= old(dev).contents().len() && inode_decodes(
                i,
                old(dev).contents().subrange(self.spec_offset(index), self.spec_offset(index) + self.inode_size),
                self.inode_size,
            ),
    {
        if index >= self.inode_count {
            return Err(VolumeError::OutOfRange);
        }
        let off = self.byte_offset(index);
        read_inode_at(dev, off, self.block_size, self.inode_size)
    }

    /// Write `inode` as inode `index`; `OutOfRange` past the last inode.
    pub fn write_inode<D: CFSBlockDevice>(&self, dev: &mut D, index: u32, inode: &Inode) -> (r: Result<(), VolumeError>)
        requires
            self.well_laid_out(),
            self.inode_size == 128 || self.inode_size == 256,
        ensures
            index >= self.inode_count ==> r == Err::<(), VolumeError>(VolumeError::OutOfRange),
            r is Ok ==> index < self.inode_count && self.spec_offset(index) + self.inode_size <= old(dev).contents().len()
                && final(dev).contents() == written(old(dev).contents(), self.spec_offset(index), inode_bytes(*inode, self.inode_size)),
            r is Err ==> final(dev).contents() == old(dev).contents(),
    {
        if index >= self.inode_count {
            return Err(VolumeError::OutOfRange);
        }
        let off = self.byte_offset(index);
        write_inode_at(dev, off, self.block_size, self.inode_size, inode)
    }

    fn byte_offset(&self, index: u32) -> (r: u64)
        requires
            self.well_laid_out(),
            index < self.inode_count,
        ensures
            r == self.spec_offset(index),
            (r as int) % (self.block_size as int) + self.inode_size <= self.block_size,
            r + self.block_size <= u64::MAX,
    {
        let bs = self.block_size as u64;
        let isz = self.inode_size as u64;
        proof {
            crate::group::lemma_u32_product(index, self.inode_size);
            assert(index * self.inode_size <= self.inode_count * self.inode_size) by (nonlinear_arith)
                requires
                    index < self.inode_count,
            ;
            assert(self.inode_table_start * self.block_size >= 0) by (nonlinear_arith);
            lemma_inode_within_block(self.inode_table_start as int, self.block_size as int, self.inode_size as int, index as int);
        }
        self.inode_table_start * bs + index as u64 * isz
    }
}

/// An inode at index `k` of a table that starts on a block boundary does not
/// cross a block boundary when the block size is a multiple of the inode size.
pub proof fn lemma_inode_within_block(start: int, bs: int, isz: int, k: int)
    requires
        start >= 0,
        k >= 0,
        bs > 0,
        isz > 0,
        bs % isz == 0,
    ensures
        (start * bs + k * isz) % bs + isz <= bs,
{
    let m = bs / isz;
    vstd::arithmetic::div_mod::lemma_fundamental_div_mod(bs, isz);
    assert(bs == isz * m);
    let q = k / m;
    let rr = k % m;
    assert(m > 0) by (nonlinear_arith)
        requires
            bs == isz * m,
            bs > 0,
            isz > 0,
    ;
    vstd::arithmetic::div_mod::lemma_fundamental_div_mod(k, m);
    vstd::arithmetic::div_mod::lemma_mod_bound(k, m);
    assert(start * bs + k * isz == (start + q) * bs + rr * isz) by (nonlinear_arith)
        requires
            bs == isz * m,
            k == m * q + rr,
    ;
    assert(0 <= rr * isz && rr * isz + isz <= bs) by (nonlinear_arith)
        requires
            bs == isz * m,
            0 <= rr < m,
            isz > 0,
    ;
    vstd::arithmetic::div_mod::lemma_fundamental_div_mod_converse_mod(start * bs + k * isz, bs, start + q, rr * isz);
}

} // verus!
