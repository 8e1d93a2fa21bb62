//! Hash-indexed (HTree) directories: the SipHash-2-4 name hash, the 8-byte
//! index entries, the headers of root and internal index blocks, the search
//! of an index level, and the helpers that read and edit leaf blocks.

use vstd::prelude::*;
use std::hash::Hasher;
use siphasher::sip::SipHasher;
use vstd::bytes::u32_to_le_bytes;
use vstd::string::StringSliceAdditionalSpecFns;
use crate::codec::{
    le32, le64, enc32, zeros, lemma_codec_roundtrip, get_u32, get_u64, push_u32, push_bytes, push_zeros, put_slice,
    bytes_eq,
};
use crate::dir::{
    DirEntry, DIR_ENTRY_SIZE, entry_bytes, entry_at, stamped, stamp_checksum, last_slot, read_entry_at, shown_name,
    entries_image, lemma_entries_image, lemma_entry_bytes_len, slot_live, live_slots,
};
use crate::error::VolumeError;
use crate::inode::{Inode, INODE_FLAG_HTREE};
use crate::superblock::{Superblock, FEATURE_HTREE};
use crate::INODE_DIR;
use crate::device::{CFSBlockDevice, written};
use crate::dir::{read_block, write_block, find_named_slot, valid_name};
use crate::extent_tree::sb_spent;
use crate::file_io::{get_block_ptr, set_block_ptr, file_block_ptr};
use crate::dir::{dir_modelled, pos_named, slot_named, entries_at_positions};
use crate::block_alloc::BlockAlloc;
use vstd::slice::slice_subrange;

verus! {

/// Size of an index entry on disk (hash, block).
pub const DX_ENTRY_SIZE: usize = 8;

/// Header of the root block: "." inode, ".." inode, 24 bytes of root info.
pub const DX_ROOT_HEADER_SIZE: usize = 32;

/// Header of an internal index block.
pub const DX_NODE_HEADER_SIZE: usize = 32;

/// Hash algorithm identifier for SipHash-2-4.
pub const HASH_VERSION_SIPHASH24: u8 = 0;

/// Maximum depth: root, one internal level, leaves.
pub const MAX_HTREE_DEPTH: u8 = 2;

/// XOR-ed into the seed to form the second SipHash key.
pub const SEED_KEY_MASK: u64 = 0x5A5A_5A5A_5A5A_5A5A;

// ---------------------------------------------------------------------------
// Name hash
// ---------------------------------------------------------------------------

/// SipHash-2-4 of `data` under the keys `k0`, `k1`.
pub uninterp spec fn siphash24(k0: u64, k1: u64, data: Seq<u8>) -> u64;

/// Calls `siphasher::sip::SipHasher::new_with_keys` and then `write` and
/// `finish` of its `std::hash::Hasher` impl, once each: the SipHash-2-4 of the
/// bytes, a function of the two keys and the bytes alone.
#[verifier::external_body]
fn sip24(k0: u64, k1: u64, data: &[u8]) -> (r: u64)
    ensures
        r == siphash24(k0, k1, data@),
{
    let mut hasher = SipHasher::new_with_keys(k0, k1);
    hasher.write(data);
    hasher.finish()
}

/// The index hash of a 64-bit SipHash: its low 32 bits, with 0 (the marker
/// of an unused entry) mapped to 1.
pub open spec fn fold_hash(h: u64) -> u32 {
    let low = (h & 0xFFFF_FFFFu64) as u32;
    if low == 0 {
        1
    } else {
        low
    }
}

/// The hash of a name under a volume's 8-byte seed: SipHash-2-4 keyed by the
/// seed read as a little-endian word and by that word XOR `SEED_KEY_MASK`.
pub open spec fn spec_dir_hash(name: Seq<u8>, seed: Seq<u8>) -> u32 {
    let k0 = le64(seed, 0);
    fold_hash(siphash24(k0, k0 ^ SEED_KEY_MASK, name))
}

/// Fold a 64-bit SipHash into the 32-bit index hash.
pub fn fold_dir_hash(hash64: u64) -> (r: u32)
    ensures
        r == fold_hash(hash64),
        r != 0,
{
    let low = (hash64 & 0xFFFF_FFFF) as u32;
    if low == 0 {
        1
    } else {
        low
    }
}

/// The directory hash of `name` under `hash_seed`; never 0.
pub fn dir_hash(name: &[u8], hash_seed: &[u8; 8]) -> (r: u32)
    ensures
        r == spec_dir_hash(name@, hash_seed@),
        r != 0,
{
    let k0 = get_u64(hash_seed.as_slice(), 0);
    let k1 = k0 ^ SEED_KEY_MASK;
    let h = sip24(k0, k1, name);
    fold_dir_hash(h)
}

// ---------------------------------------------------------------------------
// Index entries
// ---------------------------------------------------------------------------

/// One hash -> block mapping. Entries of a level are sorted by hash; each
/// covers the hashes from its own up to the next entry's.
#[derive(Debug, Clone, Copy, PartialEq, Eq, Structural)]
pub struct DxEntry {
    pub hash: u32,
    pub block: u32,
}

/// The 8-byte record: hash, block, little-endian.
pub open spec fn dx_bytes(e: DxEntry) -> Seq<u8> {
    enc32(e.hash) + enc32(e.block)
}

/// The entry whose record starts at byte `off`.
pub open spec fn dx_at(b: Seq<u8>, off: int) -> DxEntry {
    DxEntry { hash: le32(b, off), block: le32(b, off + 4) }
}

impl DxEntry {
    pub fn new(hash: u32, block: u32) -> (r: Self)
        ensures
            r == (DxEntry { hash, block }),
    {
        DxEntry { hash, block }
    }

    pub fn serialize(&self) -> (r: [u8; 8])
        ensures
            r@ == dx_bytes(*self),
    {
        let h = u32_to_le_bytes(self.hash);
        let b = u32_to_le_bytes(self.block);
        let r = [h[0], h[1], h[2], h[3], b[0], b[1], b[2], b[3]];
        assert(r@ =~= dx_bytes(*self));
        r
    }

    /// Decode the first 8 bytes.
    pub fn deserialize(buf: &[u8]) -> (r: Self)
        requires
            buf@.len() >= 8,
        ensures
            r == dx_at(buf@, 0),
    {
        DxEntry { hash: get_u32(buf, 0), block: get_u32(buf, 4) }
    }
}

/// An entry decodes back from its record.
pub proof fn lemma_dx_entry_roundtrip(e: DxEntry)
    ensures
        dx_at(dx_bytes(e), 0) == e,
{
    lemma_codec_roundtrip();
    assert(dx_bytes(e).subrange(0, 4) =~= enc32(e.hash));
    assert(dx_bytes(e).subrange(4, 8) =~= enc32(e.block));
}

/// The records of a run of entries, back to back.
pub open spec fn dx_seq_bytes(s: Seq<DxEntry>) -> Seq<u8>
    decreases s.len(),
{
    if s.len() == 0 {
        Seq::empty()
    } else {
        dx_seq_bytes(s.drop_last()) + dx_bytes(s.last())
    }
}

/// `n` entries decoded from consecutive records starting at `off`.
pub open spec fn dx_entries_at(b: Seq<u8>, off: int, n: nat) -> Seq<DxEntry> {
    Seq::new(n, |i: int| dx_at(b, off + 8 * i))
}

proof fn lemma_dx_seq_bytes(s: Seq<DxEntry>)
    ensures
        dx_seq_bytes(s).len() == 8 * s.len(),
        forall|k: int| 0 <= k < s.len() ==> #[trigger] dx_at(dx_seq_bytes(s), 8 * k) == s[k],
    decreases s.len(),
{
    lemma_codec_roundtrip();
    if s.len() > 0 {
        let t = s.drop_last();
        lemma_dx_seq_bytes(t);
        let img = dx_seq_bytes(s);
        assert forall|k: int| 0 <= k < s.len() implies #[trigger] dx_at(img, 8 * k) == s[k] by {
            if k < s.len() - 1 {
                assert(s[k] == t[k]);
                assert(img.subrange(8 * k, 8 * k + 4) =~= dx_seq_bytes(t).subrange(8 * k, 8 * k + 4));
                assert(img.subrange(8 * k + 4, 8 * k + 8) =~= dx_seq_bytes(t).subrange(8 * k + 4, 8 * k + 8));
                assert(dx_at(dx_seq_bytes(t), 8 * k) == t[k]);
            } else {
                let e = s.last();
                assert(img.subrange(8 * k, 8 * k + 4) =~= enc32(e.hash));
                assert(img.subrange(8 * k + 4, 8 * k + 8) =~= enc32(e.block));
            }
        }
    }
}

/// Append the records of `entries`.
fn push_dx_entries(buf: &mut Vec<u8>, entries: &[DxEntry])
    ensures
        final(buf)@ == old(buf)@ + dx_seq_bytes(entries@),
{
    let ghost start = buf@;
    let mut i: usize = 0;
    while i < entries.len()
        invariant
            i <= entries@.len(),
            buf@ == start + dx_seq_bytes(entries@.take(i as int)),
        decreases entries@.len() - i,
    {
        let e = entries[i];
        push_u32(buf, e.hash);
        push_u32(buf, e.block);
        proof {
            let t = entries@.take(i + 1);
            assert(t.drop_last() =~= entries@.take(i as int));
            assert(t.last() == e);
        }
        i = i + 1;
        assert(buf@ =~= start + dx_seq_bytes(entries@.take(i as int)));
    }
    assert(entries@.take(entries@.len() as int) =~= entries@);
}

// ---------------------------------------------------------------------------
// Root info
// ---------------------------------------------------------------------------

/// Index metadata in the root block (24 bytes at offset 8).
#[derive(Debug, Clone, Copy)]
pub struct DxRootInfo {
    pub hash_version: u8,
    pub depth: u8,
    pub indirect_levels: u8,
    pub count: u32,
    pub limit: u32,
    pub hash_seed_copy: [u8; 8],
}

/// The 24-byte record: version, depth, indirect levels, a reserved byte,
/// count, limit, four reserved bytes, the seed.
pub open spec fn root_info_bytes(i: DxRootInfo) -> Seq<u8> {
    seq![i.hash_version, i.depth, i.indirect_levels, 0u8] + enc32(i.count) + enc32(i.limit) + zeros(4)
        + i.hash_seed_copy@
}

/// Index entries that fit in a root or internal block: the block less the
/// 32-byte header and the checksum slot, in 8-byte records.
pub open spec fn dx_limit(block_size: u32) -> u32 {
    ((block_size - 160) / 8) as u32
}

impl DxRootInfo {
    /// A fresh root: SipHash-2-4, depth 0, one entry.
    pub fn new(hash_seed: &[u8; 8], block_size: u32) -> (r: Self)
        requires
            block_size >= 160,
        ensures
            r.hash_version == HASH_VERSION_SIPHASH24,
            r.depth == 0,
            r.indirect_levels == 0,
            r.count == 1,
            r.limit == dx_limit(block_size),
            r.hash_seed_copy@ == hash_seed@,
    {
        DxRootInfo {
            hash_version: HASH_VERSION_SIPHASH24,
            depth: 0,
            indirect_levels: 0,
            count: 1,
            limit: Self::compute_limit(block_size),
            hash_seed_copy: *hash_seed,
        }
    }

    /// Index entries that fit in the root block.
    pub fn compute_limit(block_size: u32) -> (r: u32)
        requires
            block_size >= 160,
        ensures
            r == dx_limit(block_size),
    {
        let available = block_size as usize - DX_ROOT_HEADER_SIZE - DIR_ENTRY_SIZE;
        (available / DX_ENTRY_SIZE) as u32
    }

    /// Write the 24-byte record over the start of `buf`.
    pub fn serialize(&self, buf: &mut [u8])
        requires
            old(buf)@.len() >= 24,
        ensures
            final(buf)@ == root_info_bytes(*self) + old(buf)@.subrange(24, old(buf)@.len() as int),
    {
        let mut rec: Vec<u8> = Vec::new();
        rec.push(self.hash_version);
        rec.push(self.depth);
        rec.push(self.indirect_levels);
        rec.push(0u8);
        push_u32(&mut rec, self.count);
        push_u32(&mut rec, self.limit);
        push_zeros(&mut rec, 4);
        push_bytes(&mut rec, self.hash_seed_copy.as_slice());
        proof {
            lemma_codec_roundtrip();
            assert(rec@ =~= root_info_bytes(*self));
        }
        let ghost b0 = buf@;
        put_slice(buf, 0, rec.as_slice());
        assert(buf@ =~= root_info_bytes(*self) + b0.subrange(24, b0.len() as int));
    }

    /// Decode the record; `TooShort` under 24 bytes.
    pub fn deserialize(buf: &[u8]) -> (r: Result<Self, VolumeError>)
        ensures
            buf@.len() < 24 <==> r is Err,
            r is Err ==> r == Err::<Self, VolumeError>(VolumeError::TooShort),
            r matches Ok(i) ==> {
                &&& i.hash_version == buf@[0]
                &&& i.depth == buf@[1]
                &&& i.indirect_levels == buf@[2]
                &&& i.count == le32(buf@, 4)
                &&& i.limit == le32(buf@, 8)
                &&& i.hash_seed_copy@ == buf@.subrange(16, 24)
            },
    {
        if buf.len() < 24 {
            return Err(VolumeError::TooShort);
        }
        let mut seed = [0u8; 8];
        let mut k: usize = 0;
        while k < 8
            invariant
                buf@.len() >= 24,
                k <= 8,
                forall|j: int| 0 <= j < k ==> seed@[j] == buf@[16 + j],
            decreases 8 - k,
        {
            seed[k] = buf[16 + k];
            k = k + 1;
        }
        assert(seed@ =~= buf@.subrange(16, 24));
        Ok(DxRootInfo {
            hash_version: buf[0],
            depth: buf[1],
            indirect_levels: buf[2],
            count: get_u32(buf, 4),
            limit: get_u32(buf, 8),
            hash_seed_copy: seed,
        })
    }
}

/// Root info decodes back from its record.
pub proof fn lemma_dx_root_info_roundtrip(i: DxRootInfo)
    ensures
        root_info_bytes(i).len() == 24,
        root_info_bytes(i)[0] == i.hash_version,
        root_info_bytes(i)[1] == i.depth,
        root_info_bytes(i)[2] == i.indirect_levels,
        le32(root_info_bytes(i), 4) == i.count,
        le32(root_info_bytes(i), 8) == i.limit,
        root_info_bytes(i).subrange(16, 24) == i.hash_seed_copy@,
{
    lemma_codec_roundtrip();
    let b = root_info_bytes(i);
    assert(b.subrange(4, 8) =~= enc32(i.count));
    assert(b.subrange(8, 12) =~= enc32(i.limit));
    assert(b.subrange(16, 24) =~= i.hash_seed_copy@);
}

// ---------------------------------------------------------------------------
// Internal index nodes
// ---------------------------------------------------------------------------

/// An internal index block, used when the depth is above 0.
#[derive(Debug, Clone)]
pub struct DxNode {
    pub count: u32,
    pub limit: u32,
    pub entries: Vec<DxEntry>,
}

/// The node block before its checksum record: the block size at byte 4, the
/// count at 12, the limit at 16, the entries from 32, zeros elsewhere.
pub open spec fn node_image(count: u32, limit: u32, entries: Seq<DxEntry>, block_size: u32) -> Seq<u8> {
    zeros(4) + enc32(block_size) + zeros(4) + enc32(count) + enc32(limit) + zeros(12) + dx_seq_bytes(entries) + zeros(
        (block_size - 32 - 8 * entries.len()) as nat,
    )
}

impl DxNode {
    /// Index entries that fit in an internal block.
    pub fn compute_limit(block_size: u32) -> (r: u32)
        requires
            block_size >= 160,
        ensures
            r == dx_limit(block_size),
    {
        let available = block_size as usize - DX_NODE_HEADER_SIZE - DIR_ENTRY_SIZE;
        (available / DX_ENTRY_SIZE) as u32
    }

    /// An empty node.
    pub fn new(block_size: u32) -> (r: Self)
        requires
            block_size >= 160,
        ensures
            r.count == 0,
            r.limit == dx_limit(block_size),
            r.entries@.len() == 0,
    {
        DxNode { count: 0, limit: Self::compute_limit(block_size), entries: Vec::new() }
    }

    /// The node block, with its checksum record stamped.
    pub fn serialize(&self, block_size: u32) -> (r: Vec<u8>)
        requires
            block_size >= 128,
            32 + 8 * self.entries@.len() <= block_size,
        ensures
            r@ == stamped(node_image(self.count, self.limit, self.entries@, block_size), block_size),
    {
        proof {
            lemma_codec_roundtrip();
            lemma_dx_seq_bytes(self.entries@);
        }
        let n = self.entries.len();
        let mut buf: Vec<u8> = Vec::new();
        push_zeros(&mut buf, 4);
        push_u32(&mut buf, block_size);
        push_zeros(&mut buf, 4);
        push_u32(&mut buf, self.count);
        push_u32(&mut buf, self.limit);
        push_zeros(&mut buf, 12);
        push_dx_entries(&mut buf, self.entries.as_slice());
        push_zeros(&mut buf, block_size as usize - DX_NODE_HEADER_SIZE - DX_ENTRY_SIZE * n);
        assert(buf@ =~= node_image(self.count, self.limit, self.entries@, block_size));
        stamp_checksum(&mut buf, block_size);
        buf
    }

    /// Decode a node block; `TooShort` under 32 bytes. Of the `count`
    /// entries, those whose records lie inside the buffer are read.
    pub fn deserialize(buf: &[u8]) -> (r: Result<Self, VolumeError>)
        ensures
            buf@.len() < 32 <==> r is Err,
            r is Err ==> r == Err::<Self, VolumeError>(VolumeError::TooShort),
            r matches Ok(n) ==> {
                &&& n.count == le32(buf@, 12)
                &&& n.limit == le32(buf@, 16)
                &&& n.entries@ == dx_entries_at(buf@, 32, entries_in_buffer(le32(buf@, 12), buf@.len()))
            },
    {
        if buf.len() < DX_NODE_HEADER_SIZE {
            return Err(VolumeError::TooShort);
        }
        let count = get_u32(buf, 12);
        let limit = get_u32(buf, 16);
        let ghost want = entries_in_buffer(count, buf@.len());
        let _n = buf.len();
        let mut entries: Vec<DxEntry> = Vec::new();
        let mut i: u32 = 0;
        let mut off: usize = DX_NODE_HEADER_SIZE;
        while i < count
            invariant_except_break
                i <= count,
                off == 32 + 8 * i,
                off <= buf@.len(),
                buf@.len() <= usize::MAX,
                want == entries_in_buffer(count, buf@.len()),
                i <= want,
                entries@ == dx_entries_at(buf@, 32, i as nat),
            ensures
                entries@ == dx_entries_at(buf@, 32, want),
            decreases count - i,
        {
            if off > buf.len() - DX_ENTRY_SIZE {
                assert(want == i);
                break;
            }
            let piece = vstd::slice::slice_subrange(buf, off, off + DX_ENTRY_SIZE);
            let e = DxEntry::deserialize(piece);
            proof {
                assert(piece@.subrange(0, 4) =~= buf@.subrange(off as int, off + 4));
                assert(piece@.subrange(4, 8) =~= buf@.subrange(off + 4, off + 8));
            }
            entries.push(e);
            i = i + 1;
            off = off + DX_ENTRY_SIZE;
            assert(entries@ =~= dx_entries_at(buf@, 32, i as nat));
        }
        Ok(DxNode { count, limit, entries })
    }
}

/// How many of `count` entry records fit after the header of a buffer of
/// `len` bytes.
pub open spec fn entries_in_buffer(count: u32, len: nat) -> nat {
    let room = (len - 32) / 8;
    if count <= room {
        count as nat
    } else {
        room as nat
    }
}

/// A node block decodes back to the node it was made from, when the entries
/// stop short of the checksum slot and `count` is their number.
pub proof fn lemma_dx_node_roundtrip(count: u32, limit: u32, entries: Seq<DxEntry>, block_size: u32)
    requires
        block_size >= 128,
        count == entries.len(),
        32 + 8 * entries.len() <= last_slot(block_size),
    ensures
        ({
            let b = stamped(node_image(count, limit, entries, block_size), block_size);
            &&& b.len() == block_size
            &&& le32(b, 12) == count
            &&& le32(b, 16) == limit
            &&& dx_entries_at(b, 32, entries_in_buffer(le32(b, 12), b.len())) == entries
        }),
{
    lemma_codec_roundtrip();
    lemma_dx_seq_bytes(entries);
    let img = node_image(count, limit, entries, block_size);
    let ls = last_slot(block_size);
    let b = stamped(img, block_size);
    assert(img.len() == block_size);
    assert(b.subrange(0, ls) =~= img.subrange(0, ls));
    assert(img.subrange(12, 16) =~= enc32(count));
    assert(img.subrange(16, 20) =~= enc32(limit));
    assert(b.subrange(12, 16) =~= img.subrange(12, 16));
    assert(b.subrange(16, 20) =~= img.subrange(16, 20));
    let d = dx_seq_bytes(entries);
    assert forall|k: int| 0 <= k < entries.len() implies #[trigger] dx_at(b, 32 + 8 * k) == entries[k] by {
        assert(dx_at(d, 8 * k) == entries[k]);
        assert(b.subrange(32 + 8 * k, 32 + 8 * k + 4) =~= d.subrange(8 * k, 8 * k + 4));
        assert(b.subrange(32 + 8 * k + 4, 32 + 8 * k + 8) =~= d.subrange(8 * k + 4, 8 * k + 8));
    }
    assert(dx_entries_at(b, 32, count as nat) =~= entries);
}

// ---------------------------------------------------------------------------
// Searching an index level
// ---------------------------------------------------------------------------

/// Hashes never decrease along the level.
pub open spec fn dx_sorted(s: Seq<DxEntry>) -> bool {
    forall|i: int, j: int| 0 <= i <= j < s.len() ==> s[i].hash <= s[j].hash
}

/// The entry whose range holds `h`: the last one whose hash is at most `h`,
/// or the first when there is none.
pub open spec fn covering_index(s: Seq<DxEntry>, h: u32) -> int
    decreases s.len(),
{
    if s.len() <= 1 {
        0
    } else if s.last().hash <= h {
        s.len() - 1
    } else {
        covering_index(s.drop_last(), h)
    }
}

proof fn lemma_covering_index(s: Seq<DxEntry>, h: u32, lo: int)
    requires
        0 <= lo <= s.len(),
        forall|j: int| 0 <= j < lo ==> #[trigger] s[j].hash <= h,
        forall|j: int| lo <= j < s.len() ==> #[trigger] s[j].hash > h,
    ensures
        covering_index(s, h) == (if lo == 0 { 0 } else { lo - 1 }),
    decreases s.len(),
{
    if s.len() > 1 {
        if lo == s.len() {
            assert(s[s.len() - 1].hash <= h);
        } else {
            assert(s[s.len() - 1].hash > h);
            let t = s.drop_last();
            assert forall|j: int| 0 <= j < lo implies #[trigger] t[j].hash <= h by {
                assert(t[j] == s[j]);
            }
            assert forall|j: int| lo <= j < t.len() implies #[trigger] t[j].hash > h by {
                assert(t[j] == s[j]);
            }
            lemma_covering_index(t, h, lo);
        }
    }
}

/// The block of the entry whose hash range holds `hash`: in a sorted level,
/// the last entry whose hash is at most `hash`, or the first when there is
/// none; always the block of some entry; 0 for an empty level.
pub fn binary_search_entries(entries: &[DxEntry], hash: u32) -> (r: u32)
    ensures
        entries@.len() == 0 ==> r == 0,
        entries@.len() > 0 ==> exists|j: int| 0 <= j < entries@.len() && r == #[trigger] entries@[j].block,
        entries@.len() > 0 && dx_sorted(entries@) ==> r == entries@[covering_index(entries@, hash)].block,
{
    if entries.len() == 0 {
        return 0;
    }
    let mut lo: usize = 0;
    let mut hi: usize = entries.len();
    while lo < hi
        invariant
            0 <= lo <= hi <= entries@.len(),
            dx_sorted(entries@) ==> forall|j: int| 0 <= j < lo ==> #[trigger] entries@[j].hash <= hash,
            dx_sorted(entries@) ==> forall|j: int| hi <= j < entries@.len() ==> #[trigger] entries@[j].hash > hash,
        decreases hi - lo,
    {
        let mid = lo + (hi - lo) / 2;
        if entries[mid].hash <= hash {
            proof {
                if dx_sorted(entries@) {
                    assert forall|j: int| 0 <= j < mid + 1 implies #[trigger] entries@[j].hash <= hash by {
                        assert(entries@[j].hash <= entries@[mid as int].hash);
                    }
                }
            }
            lo = mid + 1;
        } else {
            proof {
                if dx_sorted(entries@) {
                    assert forall|j: int| mid <= j < entries@.len() implies #[trigger] entries@[j].hash > hash by {
                        assert(entries@[mid as int].hash <= entries@[j].hash);
                    }
                }
            }
            hi = mid;
        }
    }
    proof {
        if dx_sorted(entries@) {
            lemma_covering_index(entries@, hash, lo as int);
        }
    }
    if lo == 0 {
        entries[0].block
    } else {
        entries[lo - 1].block
    }
}

// ---------------------------------------------------------------------------
// The index of a directory
// ---------------------------------------------------------------------------

/// The index of a hash-indexed directory, as held in its root block (logical
/// block 0): the inode numbers of "." and "..", the root info and the
/// root-level entries.
#[derive(Debug, Clone)]
pub struct HTree {
    pub dir_inode_idx: u32,
    pub root_info: DxRootInfo,
    pub root_entries: Vec<DxEntry>,
    pub block_size: u32,
    pub hash_seed: [u8; 8],
    /// Inode of "." (the directory itself).
    pub dot_inode: u32,
    /// Inode of ".." (the parent).
    pub dotdot_inode: u32,
}

/// The root block before its checksum record: the inode numbers of "." and
/// "..", the root info with its count set to the number of entries, the
/// entries, zeros.
pub open spec fn root_image(dot: u32, dotdot: u32, info: DxRootInfo, entries: Seq<DxEntry>, bs: u32) -> Seq<u8> {
    enc32(dot) + enc32(dotdot) + root_info_bytes(DxRootInfo { count: entries.len() as u32, ..info }) + dx_seq_bytes(
        entries,
    ) + zeros((bs - 32 - 8 * entries.len()) as nat)
}

/// Root entries read from a root block with `count` recorded: those that
/// end before the checksum slot.
pub open spec fn root_entries_read(count: u32, bs: u32) -> nat {
    if count <= dx_limit(bs) {
        count as nat
    } else {
        dx_limit(bs) as nat
    }
}

/// `h` is the index read from root block `b`.
pub open spec fn parsed_root(b: Seq<u8>, h: HTree) -> bool {
    &&& h.dot_inode == le32(b, 0)
    &&& h.dotdot_inode == le32(b, 4)
    &&& h.root_info.hash_version == b[8]
    &&& h.root_info.depth == b[9]
    &&& h.root_info.indirect_levels == b[10]
    &&& h.root_info.count == le32(b, 12)
    &&& h.root_info.limit == le32(b, 16)
    &&& h.root_info.hash_seed_copy@ == b.subrange(24, 32)
    &&& h.root_entries@ == dx_entries_at(b, 32, root_entries_read(le32(b, 12), h.block_size))
}

/// Device contents `c1` are `c0` with `img` written over block `p`.
pub open spec fn block_replaced(c0: Seq<u8>, c1: Seq<u8>, p: u64, img: Seq<u8>, bs: u32) -> bool {
    &&& p * bs + bs <= c0.len()
    &&& c1 == written(c0, p * bs, img)
}

/// What `save_root` writes back, `load` reads: the root block image of an
/// index parses back to its inode numbers, root info (with the count of its
/// entries) and entries, for a block size that is a multiple of the slot
/// size (else the checksum slot overlaps the last root entries).
pub proof fn lemma_root_roundtrip(h: HTree, g: HTree)
    requires
        h.wf(),
        h.block_size % 128 == 0,
        g.block_size == h.block_size,
        parsed_root(
            stamped(root_image(h.dot_inode, h.dotdot_inode, h.root_info, h.root_entries@, h.block_size), h.block_size),
            g,
        ),
    ensures
        g.dot_inode == h.dot_inode,
        g.dotdot_inode == h.dotdot_inode,
        g.root_info == (DxRootInfo { count: h.root_entries@.len() as u32, ..h.root_info }),
        g.root_entries@ == h.root_entries@,
{
    lemma_codec_roundtrip();
    let bs = h.block_size;
    let n = h.root_entries@.len();
    let info = DxRootInfo { count: n as u32, ..h.root_info };
    let img = root_image(h.dot_inode, h.dotdot_inode, h.root_info, h.root_entries@, bs);
    lemma_dx_seq_bytes(h.root_entries@);
    lemma_dx_root_info_roundtrip(info);
    assert(last_slot(bs) + 128 <= bs && 32 + 8 * n <= last_slot(bs)) by (nonlinear_arith)
        requires
            bs >= 256,
            bs % 128 == 0,
            n <= (bs - 160) / 8,
            last_slot(bs) == (bs / 128 - 1) * 128,
    ;
    assert(img.len() == bs);
    let b = stamped(img, bs);
    assert(b.subrange(0, last_slot(bs)) =~= img.subrange(0, last_slot(bs)));
    assert(b.subrange(0, 4) =~= enc32(h.dot_inode));
    assert(b.subrange(4, 8) =~= enc32(h.dotdot_inode));
    assert(b.subrange(8, 32) =~= root_info_bytes(info));
    assert(b.subrange(12, 16) =~= root_info_bytes(info).subrange(4, 8));
    assert(b.subrange(16, 20) =~= root_info_bytes(info).subrange(8, 12));
    assert(b.subrange(24, 32) =~= root_info_bytes(info).subrange(16, 24));
    assert(g.root_info.hash_seed_copy@ =~= h.root_info.hash_seed_copy@);
    assert forall|i: int| 0 <= i < n implies #[trigger] dx_at(b, 32 + 8 * i) == h.root_entries@[i] by {
        assert(b.subrange(32 + 8 * i, 32 + 8 * i + 4) =~= dx_seq_bytes(h.root_entries@).subrange(8 * i, 8 * i + 4));
        assert(b.subrange(32 + 8 * i + 4, 32 + 8 * i + 8) =~= dx_seq_bytes(h.root_entries@).subrange(8 * i + 4, 8 * i + 8));
        assert(dx_at(dx_seq_bytes(h.root_entries@), 8 * i) == h.root_entries@[i]);
    }
    assert(g.root_entries@ =~= h.root_entries@);
    assert(g.root_info.hash_seed_copy == h.root_info.hash_seed_copy);
}

impl HTree {
    /// The root fits its block: at least two slots per block, and the
    /// root entries end before the checksum slot.
    /// Logical block of the leaf a root of depth 0 sends `name` to.
    pub open spec fn leaf_of(&self, name: Seq<u8>) -> u64 {
        self.root_entries@[covering_index(self.root_entries@, spec_dir_hash(name, self.hash_seed@))].block as u64
    }

    pub open spec fn wf(&self) -> bool {
        &&& self.block_size >= 256
        &&& self.root_entries@.len() <= dx_limit(self.block_size)
    }

    /// Read the index from the directory's root block. `Invalid` when the
    /// root block is unmapped or its seed is not the volume's.
    pub fn load<D: CFSBlockDevice>(dev: &mut D, dir_inode: &Inode, dir_inode_idx: u32, sb: &Superblock) -> (r: Result<
        Self,
        VolumeError,
    >)
        requires
            sb.block_size >= 256,
        ensures
            final(dev).contents() == old(dev).contents(),
            r matches Ok(h) ==> {
                &&& h.wf()
                &&& h.dir_inode_idx == dir_inode_idx
                &&& h.block_size == sb.block_size
                &&& h.hash_seed == sb.hash_seed
                &&& h.root_info.hash_seed_copy == sb.hash_seed
                &&& exists|p: u64| #[trigger] root_block_at(old(dev).contents(), p, h)
            },
    {
        let bs = sb.block_size;
        let root_phys = get_block_ptr(dev, dir_inode, 0, bs)?;
        if root_phys == 0 {
            return Err(VolumeError::Invalid);
        }
        let buf = read_block(dev, root_phys, bs)?;
        let dot_inode = get_u32(buf.as_slice(), 0);
        let dotdot_inode = get_u32(buf.as_slice(), 4);
        let root_info = DxRootInfo::deserialize(slice_subrange(buf.as_slice(), 8, 32))?;
        proof {
            assert(buf@.subrange(8, 32).subrange(4, 8) =~= buf@.subrange(12, 16));
            assert(buf@.subrange(8, 32).subrange(8, 12) =~= buf@.subrange(16, 20));
            assert(buf@.subrange(8, 32).subrange(16, 24) =~= buf@.subrange(24, 32));
        }
        if !bytes_eq(root_info.hash_seed_copy.as_slice(), sb.hash_seed.as_slice()) {
            return Err(VolumeError::Invalid);
        }
        proof {
            assert(root_info.hash_seed_copy@ =~= sb.hash_seed@);
            assert(root_info.hash_seed_copy == sb.hash_seed);
        }
        let max_offset = bs as usize - DIR_ENTRY_SIZE;
        let mut entries: Vec<DxEntry> = Vec::new();
        let mut i: u32 = 0;
        let ghost want = root_entries_read(root_info.count, bs);
        while i < root_info.count
            invariant_except_break
                i <= root_info.count,
                i <= dx_limit(bs),
                buf@.len() == bs,
                bs >= 256,
                max_offset == bs - 128,
                entries@ == dx_entries_at(buf@, 32, i as nat),
            ensures
                entries@ == dx_entries_at(buf@, 32, root_entries_read(root_info.count, bs)),
            decreases root_info.count - i,
        {
            let offset = DX_ROOT_HEADER_SIZE + i as usize * DX_ENTRY_SIZE;
            if offset + DX_ENTRY_SIZE > max_offset {
                proof {
                    assert(i == dx_limit(bs)) by (nonlinear_arith)
                        requires
                            32 + 8 * i + 8 > bs - 128,
                            i <= (bs - 160) / 8,
                            bs >= 256,
                    ;
                }
                break;
            }
            proof {
                assert(i + 1 <= (bs - 160) / 8) by (nonlinear_arith)
                    requires
                        32 + 8 * i + 8 <= bs - 128,
                        bs >= 256,
                ;
            }
            let e = DxEntry::deserialize(slice_subrange(buf.as_slice(), offset, offset + DX_ENTRY_SIZE));
            proof {
                let piece = buf@.subrange(offset as int, offset + 8);
                assert(piece.subrange(0, 4) =~= buf@.subrange(offset as int, offset + 4));
                assert(piece.subrange(4, 8) =~= buf@.subrange(offset + 4, offset + 8));
            }
            entries.push(e);
            i = i + 1;
            assert(entries@ =~= dx_entries_at(buf@, 32, i as nat));
        }
        let h = HTree {
            dir_inode_idx,
            root_info,
            root_entries: entries,
            block_size: bs,
            hash_seed: sb.hash_seed,
            dot_inode,
            dotdot_inode,
        };
        assert(root_block_at(dev.contents(), root_phys, h));
        Ok(h)
    }

    /// Write the root block back: the image of `root_image` with the
    /// checksum record stamped, over the block mapped at logical block 0.
    /// `Invalid` when that block is unmapped.
    pub fn save_root<D: CFSBlockDevice>(&self, dev: &mut D, dir_inode: &Inode) -> (r: Result<(), VolumeError>)
        requires
            self.wf(),
        ensures
            r is Err ==> final(dev).contents() == old(dev).contents(),
            r is Ok ==> exists|p: u64| #[trigger] block_replaced(
                old(dev).contents(),
                final(dev).contents(),
                p,
                stamped(
                    root_image(self.dot_inode, self.dotdot_inode, self.root_info, self.root_entries@, self.block_size),
                    self.block_size,
                ),
                self.block_size,
            ),
    {
        let bs = self.block_size;
        let ghost c = dev.contents();
        let root_phys = get_block_ptr(dev, dir_inode, 0, bs)?;
        if root_phys == 0 {
            return Err(VolumeError::Invalid);
        }
        let n = self.root_entries.len();
        proof {
            lemma_codec_roundtrip();
            lemma_dx_seq_bytes(self.root_entries@);
            assert(32 + 8 * n <= bs - 128) by (nonlinear_arith)
                requires
                    bs >= 256,
                    n <= (bs - 160) / 8,
            ;
        }
        let mut info = self.root_info;
        info.count = n as u32;
        let mut rec: Vec<u8> = Vec::new();
        push_u32(&mut rec, info.count);
        let mut head: [u8; 24] = [0u8; 24];
        info.serialize(&mut head);
        let mut buf: Vec<u8> = Vec::new();
        push_u32(&mut buf, self.dot_inode);
        push_u32(&mut buf, self.dotdot_inode);
        push_bytes(&mut buf, head.as_slice());
        push_dx_entries(&mut buf, self.root_entries.as_slice());
        push_zeros(&mut buf, bs as usize - DX_ROOT_HEADER_SIZE - DX_ENTRY_SIZE * n);
        proof {
            assert(head@ =~= root_info_bytes(info));
            assert(info == (DxRootInfo { count: self.root_entries@.len() as u32, ..self.root_info }));
            assert(buf@ =~= root_image(self.dot_inode, self.dotdot_inode, self.root_info, self.root_entries@, bs));
            assert(last_slot(bs) + 128 <= bs) by (nonlinear_arith)
                requires
                    bs >= 256,
                    last_slot(bs) == (bs / 128 - 1) * 128,
            ;
            crate::dir::lemma_stamped_verifies(buf@, bs);
        }
        stamp_checksum(&mut buf, bs);
        write_block(dev, root_phys, bs, &buf)?;
        assert(block_replaced(c, dev.contents(), root_phys, buf@, bs));
        Ok(())
    }

    /// Logical block of the leaf whose hash range holds `hash`: the root
    /// entry's block at depth 0, else the entry's block in the internal
    /// node the root entry names. `Invalid` when that node is unmapped.
    fn find_leaf_block<D: CFSBlockDevice>(&self, dev: &mut D, dir_inode: &Inode, hash: u32) -> (r: Result<u64, VolumeError>)
        requires
            self.wf(),
        ensures
            final(dev).contents() == old(dev).contents(),
            self.root_info.depth == 0 && self.root_entries@.len() > 0 && dx_sorted(self.root_entries@) ==> r == Ok::<
                u64,
                VolumeError,
            >(self.root_entries@[covering_index(self.root_entries@, hash)].block as u64),
            self.root_info.depth == 0 && self.root_entries@.len() == 0 ==> r == Ok::<u64, VolumeError>(0),
            r matches Ok(b) ==> b <= u32::MAX,
    {
        let root_block_logical = binary_search_entries(self.root_entries.as_slice(), hash);
        if self.root_info.depth == 0 {
            return Ok(root_block_logical as u64);
        }
        let node_phys = get_block_ptr(dev, dir_inode, root_block_logical as u64, self.block_size)?;
        if node_phys == 0 {
            return Err(VolumeError::Invalid);
        }
        let buf = read_block(dev, node_phys, self.block_size)?;
        let node = DxNode::deserialize(buf.as_slice())?;
        let leaf_logical = binary_search_entries(node.entries.as_slice(), hash);
        Ok(leaf_logical as u64)
    }

    /// The live entry named `name` in the leaf its hash selects: the first
    /// such slot, or `None` (also when the leaf is unmapped).
    pub fn lookup<D: CFSBlockDevice>(&self, dev: &mut D, dir_inode: &Inode, name: &str) -> (r: Result<Option<DirEntry>, VolumeError>)
        requires
            self.wf(),
        ensures
            final(dev).contents() == old(dev).contents(),
            r matches Ok(Some(e)) ==> {
                &&& !(e.inode_index == 0 && e.name_len == 0)
                &&& e.name_len <= 122
                &&& shown_name(e.name@.subrange(0, e.name_len as int)) == name.spec_bytes()
            },
            self.root_info.depth == 0 && self.root_entries@.len() > 0 && dx_sorted(self.root_entries@) && dir_modelled(*dir_inode)
                ==> match file_block_ptr(old(dev).contents(), *dir_inode, self.leaf_of(name.spec_bytes()), self.block_size) {
                Some(p) => {
                    let c = old(dev).contents();
                    let bs = self.block_size;
                    &&& p == 0 && r is Ok ==> r == Ok::<Option<DirEntry>, VolumeError>(None)
                    &&& p != 0 && r == Ok::<Option<DirEntry>, VolumeError>(None) ==> forall|j: int| 0 <= j < slot_capacity(bs) ==> !#[trigger] pos_named(c, bs, (p, j), name.spec_bytes())
                    &&& r matches Ok(Some(e)) ==> exists|k: int| {
                        &&& 0 <= k < slot_capacity(bs)
                        &&& #[trigger] pos_named(c, bs, (p, k), name.spec_bytes())
                        &&& (forall|j: int| 0 <= j < k ==> !#[trigger] pos_named(c, bs, (p, j), name.spec_bytes()))
                        &&& entry_at(e, c.subrange(p * bs, p * bs + bs), 128 * k)
                    }
                },
                None => true,
            },
    {
        let hash = dir_hash(name.as_bytes(), &self.hash_seed);
        let ghost c = dev.contents();
        let leaf_logical = self.find_leaf_block(dev, dir_inode, hash)?;
        let leaf_phys = get_block_ptr(dev, dir_inode, leaf_logical, self.block_size)?;
        if leaf_phys == 0 {
            return Ok(None);
        }
        let buf = read_block(dev, leaf_phys, self.block_size)?;
        let cap = leaf_capacity(self.block_size);
        proof {
            assert(128 * cap <= self.block_size) by (nonlinear_arith)
                requires
                    cap == self.block_size / 128 - 1,
                    self.block_size >= 256,
            ;
        }
        proof {
            assert(buf@ == c.subrange(leaf_phys * self.block_size, leaf_phys * self.block_size + self.block_size));
        }
        match find_named_slot(buf.as_slice(), cap, name) {
            Some(k) => {
                let e = read_entry_at(buf.as_slice(), k * DIR_ENTRY_SIZE);
                proof {
                    let o = 128 * k as int;
                    assert(e.name@.subrange(0, e.name_len as int) =~= buf@.subrange(o + 6, o + 6 + e.name_len));
                    assert(pos_named(c, self.block_size, (leaf_phys, k as int), name.spec_bytes()));
                    assert forall|j: int| 0 <= j < k implies !#[trigger] pos_named(c, self.block_size, (leaf_phys, j), name.spec_bytes()) by {
                        assert(!slot_named(buf@, j, name.spec_bytes()));
                    }
                }
                Ok(Some(e))
            },
            None => {
                proof {
                    assert forall|j: int| 0 <= j < slot_capacity(self.block_size) implies !#[trigger] pos_named(c, self.block_size, (leaf_phys, j), name.spec_bytes()) by {
                        assert(!slot_named(buf@, j, name.spec_bytes()));
                    }
                }
                Ok(None)
            },
        }
    }
}

/// The live entries of an indexed directory's leaves, as (physical block,
/// slot) pairs: leaf by leaf in the order of `lbs` (logical blocks), the
/// first `slot_capacity` slots of each mapped leaf in slot order.
pub open spec fn leaf_positions(c: Seq<u8>, inode: Inode, bs: u32, lbs: Seq<u32>) -> Seq<(u64, int)>
    decreases lbs.len(),
{
    if lbs.len() == 0 {
        Seq::empty()
    } else {
        let rest = leaf_positions(c, inode, bs, lbs.drop_last());
        match file_block_ptr(c, inode, lbs.last() as u64, bs) {
            Some(p) => if p == 0 {
                rest
            } else {
                rest + live_slots(c.subrange(p * bs, p * bs + bs), slot_capacity(bs)).map_values(|k: int| (p, k))
            },
            None => rest,
        }
    }
}

/// Hashes never decrease along the pairs.
pub open spec fn hash_sorted(s: Seq<(u32, DirEntry)>) -> bool {
    forall|i: int, j: int| 0 <= i <= j < s.len() ==> s[i].0 <= s[j].0
}

/// Sort (hash, entry) pairs by hash, keeping the order of equal hashes.
pub fn sort_by_hash(v: Vec<(u32, DirEntry)>) -> (r: Vec<(u32, DirEntry)>)
    ensures
        hash_sorted(r@),
        r@.to_multiset() == v@.to_multiset(),
        r@.len() == v@.len(),
{
    let mut out: Vec<(u32, DirEntry)> = Vec::new();
    let mut i: usize = 0;
    assert(out@ =~= v@.take(0));
    while i < v.len()
        invariant
            i <= v@.len(),
            hash_sorted(out@),
            out@.to_multiset() == v@.take(i as int).to_multiset(),
            out@.len() == i,
        decreases v@.len() - i,
    {
        let x = v[i];
        let mut pos: usize = 0;
        while pos < out.len() && out[pos].0 <= x.0
            invariant
                pos <= out@.len(),
                forall|j: int| 0 <= j < pos ==> out@[j].0 <= x.0,
            decreases out@.len() - pos,
        {
            pos = pos + 1;
        }
        let ghost o0 = out@;
        out.insert(pos, x);
        proof {
            assert forall|a: int, b: int| 0 <= a <= b < out@.len() implies out@[a].0 <= out@[b].0 by {
                if pos < o0.len() {
                    assert(o0[pos as int].0 > x.0);
                }
                if a < pos && b > pos {
                    assert(o0[a].0 <= x.0);
                    assert(o0[pos as int].0 <= o0[b - 1].0);
                }
            }
            assert(v@.take(i + 1) =~= v@.take(i as int).push(x));
            vstd::seq_lib::to_multiset_insert(o0, pos as int, x);
            vstd::seq_lib::to_multiset_build(v@.take(i as int), x);
        }
        i = i + 1;
    }
    assert(v@.take(v@.len() as int) =~= v@);
    out
}

/// First position whose hash is at least `h` (the length when none is).
fn lower_bound(entries: &Vec<DxEntry>, h: u32) -> (r: usize)
    ensures
        r <= entries@.len(),
        forall|j: int| 0 <= j < r ==> #[trigger] entries@[j].hash < h,
        r < entries@.len() ==> entries@[r as int].hash >= h,
{
    let mut pos: usize = 0;
    while pos < entries.len() && entries[pos].hash < h
        invariant
            pos <= entries@.len(),
            forall|j: int| 0 <= j < pos ==> #[trigger] entries@[j].hash < h,
        decreases entries@.len() - pos,
    {
        pos = pos + 1;
    }
    pos
}

/// Inserting at the lower bound keeps a level sorted.
proof fn lemma_insert_sorted(s: Seq<DxEntry>, pos: int, e: DxEntry)
    requires
        dx_sorted(s),
        0 <= pos <= s.len(),
        forall|j: int| 0 <= j < pos ==> #[trigger] s[j].hash < e.hash,
        pos < s.len() ==> s[pos].hash >= e.hash,
    ensures
        dx_sorted(s.insert(pos, e)),
{
    let t = s.insert(pos, e);
    assert forall|a: int, b: int| 0 <= a <= b < t.len() implies t[a].hash <= t[b].hash by {
        if a < pos && b > pos {
            assert(s[a].hash < e.hash);
            assert(s[pos].hash <= s[b - 1].hash);
        }
        if a == pos && b > pos {
            assert(s[pos].hash <= s[b - 1].hash);
        }
        if a < pos && b == pos {
            assert(s[a].hash < e.hash);
        }
    }
}

/// The hash of an entry's name as text.
fn entry_hash(e: &DirEntry, seed: &[u8; 8]) -> (r: u32)
    requires
        e.name_len <= 122,
    ensures
        r == spec_dir_hash(shown_name(e.name@.subrange(0, e.name_len as int)), seed@),
{
    dir_hash(e.name_str().as_bytes(), seed)
}

/// A zeroed block holding `entries` from slot 0, checksum record stamped.
fn leaf_block(entries: &Vec<DirEntry>, block_size: u32) -> (r: Vec<u8>)
    requires
        block_size >= 256,
    ensures
        r@.len() == block_size,
{
    let mut buf = vec![0u8; block_size as usize];
    proof {
        assert(128 * slot_capacity(block_size) <= block_size && last_slot(block_size) + 128 <= block_size) by (nonlinear_arith)
            requires
                block_size >= 256,
                last_slot(block_size) == (block_size / 128 - 1) * 128,
                slot_capacity(block_size) == block_size / 128 - 1,
        ;
        lemma_entries_image(entries@.take(vstd::math::min(entries@.len() as int, slot_capacity(block_size))));
    }
    write_entries_to_block(buf.as_mut_slice(), entries.as_slice(), block_size);
    proof {
        crate::dir::lemma_stamped_verifies(buf@, block_size);
    }
    stamp_checksum(&mut buf, block_size);
    buf
}

impl HTree {
    /// The next logical block of the directory: its size in blocks.
    fn next_logical_block(&self, dir_inode: &Inode) -> (r: u64)
        requires
            self.block_size > 0,
        ensures
            r == dir_inode.size as int / self.block_size as int,
    {
        dir_inode.size / self.block_size as u64
    }

    /// Add an index entry: into the root level at its hash position while
    /// the root has room, else (at depth 0) by moving the root level into a
    /// new internal node; `Invalid` when the root of a deeper index is full.
    fn insert_dx_entry<D: CFSBlockDevice>(
        &mut self,
        dev: &mut D,
        dir_inode: &mut Inode,
        alloc: &mut BlockAlloc,
        sb: &mut Superblock,
        new_entry: DxEntry,
    ) -> (r: Result<(), VolumeError>)
        requires
            old(self).wf(),
            old(alloc).wf(),
        ensures
            final(self).wf(),
            final(self).block_size == old(self).block_size,
            final(self).hash_seed == old(self).hash_seed,
            final(alloc).wf(),
            final(alloc).same_kind(old(alloc)),
            sb_spent(*final(sb), *old(sb)),
            final(dir_inode).mode == old(dir_inode).mode,
            old(self).root_entries@.len() < old(self).root_info.limit && old(self).root_entries@.len() < dx_limit(
                old(self).block_size,
            ) ==> {
                &&& final(self).root_entries@.len() == old(self).root_entries@.len() + 1
                &&& final(self).root_info.depth == old(self).root_info.depth
                &&& dx_sorted(old(self).root_entries@) ==> dx_sorted(final(self).root_entries@)
            },
    {
        let n = self.root_entries.len();
        let room = DxRootInfo::compute_limit(self.block_size);
        if (n as u64) < self.root_info.limit as u64 && (n as u64) < room as u64 {
            let pos = lower_bound(&self.root_entries, new_entry.hash);
            let ghost s0 = self.root_entries@;
            self.root_entries.insert(pos, new_entry);
            proof {
                if dx_sorted(s0) {
                    lemma_insert_sorted(s0, pos as int, new_entry);
                }
            }
            self.root_info.count = self.root_entries.len() as u32;
            self.save_root(dev, dir_inode)?;
            Ok(())
        } else if self.root_info.depth == 0 {
            self.increase_depth(dev, dir_inode, alloc, sb, new_entry)
        } else {
            Err(VolumeError::Invalid)
        }
    }

    /// Move the root level, with `new_entry` inserted at its hash position,
    /// into a new internal node block appended to the directory; the root
    /// then holds one entry (hash 0) naming that node, at depth 1.
    /// `OutOfRange` when the directory's block count or size could not grow.
    fn increase_depth<D: CFSBlockDevice>(
        &mut self,
        dev: &mut D,
        dir_inode: &mut Inode,
        alloc: &mut BlockAlloc,
        sb: &mut Superblock,
        new_entry: DxEntry,
    ) -> (r: Result<(), VolumeError>)
        requires
            old(self).wf(),
            old(alloc).wf(),
        ensures
            final(self).wf(),
            final(self).block_size == old(self).block_size,
            final(self).hash_seed == old(self).hash_seed,
            final(alloc).wf(),
            final(alloc).same_kind(old(alloc)),
            sb_spent(*final(sb), *old(sb)),
            final(dir_inode).mode == old(dir_inode).mode,
            r is Ok ==> final(self).root_info.depth == 1 && final(self).root_entries@.len() == 1
                && final(self).root_entries@[0].hash == 0,
    {
        let bs = self.block_size;
        if dir_inode.block_count == u32::MAX || dir_inode.size > u64::MAX - bs as u64 {
            return Err(VolumeError::OutOfRange);
        }
        let node_blocks = alloc.allocate(dev, sb, 1)?;
        let node_phys = node_blocks[0];
        let node_logical = self.next_logical_block(dir_inode);
        set_block_ptr(dev, dir_inode, node_logical, node_phys, bs, alloc, sb)?;
        dir_inode.block_count = dir_inode.block_count + 1;
        dir_inode.size = dir_inode.size + bs as u64;
        let mut node = DxNode::new(bs);
        node.entries = self.root_entries.clone();
        assert(node.entries@ == self.root_entries@);
        let pos = lower_bound(&node.entries, new_entry.hash);
        node.entries.insert(pos, new_entry);
        node.count = node.entries.len() as u32;
        proof {
            assert(32 + 8 * node.entries@.len() <= bs) by (nonlinear_arith)
                requires
                    node.entries@.len() <= (bs - 160) / 8 + 1,
                    bs >= 256,
            ;
        }
        let buf = node.serialize(bs);
        proof {
            lemma_codec_roundtrip();
            lemma_dx_seq_bytes(node.entries@);
            assert(last_slot(bs) + 128 <= bs) by (nonlinear_arith)
                requires
                    bs >= 256,
                    last_slot(bs) == (bs / 128 - 1) * 128,
            ;
            crate::dir::lemma_stamped_verifies(node_image(node.count, node.limit, node.entries@, bs), bs);
        }
        write_block(dev, node_phys, bs, &buf)?;
        self.root_entries = vec![DxEntry::new(0, node_logical as u32)];
        self.root_info.count = 1;
        self.root_info.depth = 1;
        self.root_info.indirect_levels = 1;
        self.save_root(dev, dir_inode)?;
        Ok(())
    }

    /// Split a full leaf: its entries and `new_entry`, sorted by hash
    /// (stable), go half to the old leaf and half to a new leaf appended to
    /// the directory, whose index entry carries the first hash of the upper
    /// half. `Invalid` for a stored name length past the name field;
    /// `OutOfRange` when the directory could not grow.
    fn split_leaf<D: CFSBlockDevice>(
        &mut self,
        dev: &mut D,
        dir_inode: &mut Inode,
        alloc: &mut BlockAlloc,
        sb: &mut Superblock,
        old_leaf_phys: u64,
        old_buf: &Vec<u8>,
        new_entry: DirEntry,
    ) -> (r: Result<(), VolumeError>)
        requires
            old(self).wf(),
            old(alloc).wf(),
            old_buf@.len() == old(self).block_size,
        ensures
            final(self).wf(),
            final(self).block_size == old(self).block_size,
            final(self).hash_seed == old(self).hash_seed,
            final(alloc).wf(),
            final(alloc).same_kind(old(alloc)),
            sb_spent(*final(sb), *old(sb)),
            final(dir_inode).mode == old(dir_inode).mode,
    {
        let bs = self.block_size;
        proof {
            assert(128 * slot_capacity(bs) <= bs) by (nonlinear_arith)
                requires
                    bs >= 256,
                    slot_capacity(bs) == bs / 128 - 1,
            ;
        }
        let mut entries = parse_leaf_entries(old_buf.as_slice(), bs);
        entries.push(new_entry);
        let mut hashed: Vec<(u32, DirEntry)> = Vec::new();
        let mut i: usize = 0;
        while i < entries.len()
            invariant
                i <= entries@.len(),
                hashed@.len() == i,
                *self == *old(self),
                *alloc == *old(alloc),
                alloc.wf(),
                self.wf(),
                *sb == *old(sb),
                *dir_inode == *old(dir_inode),
            decreases entries@.len() - i,
        {
            let e = entries[i];
            if e.name_len > 122 {
                return Err(VolumeError::Invalid);
            }
            let h = entry_hash(&e, &self.hash_seed);
            hashed.push((h, e));
            i = i + 1;
        }
        let hashed = sort_by_hash(hashed);
        let mid = hashed.len() / 2;
        let mut left: Vec<DirEntry> = Vec::new();
        let mut right: Vec<DirEntry> = Vec::new();
        let mut k: usize = 0;
        while k < hashed.len()
            invariant
                k <= hashed@.len(),
            decreases hashed@.len() - k,
        {
            if k < mid {
                left.push(hashed[k].1);
            } else {
                right.push(hashed[k].1);
            }
            k = k + 1;
        }
        let split_hash = hashed[mid].0;
        let left_buf = leaf_block(&left, bs);
        write_block(dev, old_leaf_phys, bs, &left_buf)?;
        if dir_inode.block_count == u32::MAX || dir_inode.size > u64::MAX - bs as u64 {
            return Err(VolumeError::OutOfRange);
        }
        let new_blocks = alloc.allocate(dev, sb, 1)?;
        let new_leaf_phys = new_blocks[0];
        let new_leaf_logical = self.next_logical_block(dir_inode);
        set_block_ptr(dev, dir_inode, new_leaf_logical, new_leaf_phys, bs, alloc, sb)?;
        dir_inode.block_count = dir_inode.block_count + 1;
        dir_inode.size = dir_inode.size + bs as u64;
        let right_buf = leaf_block(&right, bs);
        write_block(dev, new_leaf_phys, bs, &right_buf)?;
        let new_dx = DxEntry::new(split_hash, new_leaf_logical as u32);
        self.insert_dx_entry(dev, dir_inode, alloc, sb, new_dx)
    }

    /// Add an entry for `name`: `AlreadyExists` when the name is found; else
    /// into the first free slot of the leaf its hash selects (checksum
    /// restamped), or by splitting that leaf when it is full. `Invalid` when
    /// the leaf is unmapped or the name is not valid.
    pub fn insert<D: CFSBlockDevice>(
        &mut self,
        dev: &mut D,
        dir_inode: &mut Inode,
        alloc: &mut BlockAlloc,
        sb: &mut Superblock,
        name: &str,
        inode_index: u32,
        file_type: u8,
    ) -> (r: Result<(), VolumeError>)
        requires
            old(self).wf(),
            old(alloc).wf(),
        ensures
            final(self).wf(),
            final(self).block_size == old(self).block_size,
            final(self).hash_seed == old(self).hash_seed,
            final(alloc).wf(),
            final(alloc).same_kind(old(alloc)),
            sb_spent(*final(sb), *old(sb)),
            final(dir_inode).mode == old(dir_inode).mode,
            !valid_name(name.spec_bytes()) ==> r is Err,
            old(self).root_info.depth == 0 && old(self).root_entries@.len() > 0 && dx_sorted(old(self).root_entries@)
                && dir_modelled(*old(dir_inode)) ==> match file_block_ptr(old(dev).contents(), *old(dir_inode), old(self).leaf_of(name.spec_bytes()), old(self).block_size) {
                Some(p) => {
                    let c = old(dev).contents();
                    let bs = old(self).block_size;
                    let b = c.subrange(p * bs, p * bs + bs);
                    &&& p != 0 && (exists|j: int| 0 <= j < slot_capacity(bs) && #[trigger] pos_named(c, bs, (p, j), name.spec_bytes())) ==> r is Err
                    &&& p != 0 && r is Ok && (exists|i: int| 0 <= i < slot_capacity(bs) && !#[trigger] slot_live(b, i)) ==> {
                        &&& *final(self) == *old(self)
                        &&& exists|i: int, e: DirEntry| #![trigger slot_live(b, i), entry_bytes(e)] {
                            &&& 0 <= i < slot_capacity(bs)
                            &&& !slot_live(b, i)
                            &&& (forall|j: int| 0 <= j < i ==> #[trigger] slot_live(b, j))
                            &&& e.inode_index == inode_index && e.file_type == file_type
                            &&& e.name_len == name.spec_bytes().len()
                            &&& e.name@ == name.spec_bytes() + zeros((122 - name.spec_bytes().len()) as nat)
                            &&& final(dev).contents() == written(c, p * bs, stamped(b.subrange(0, 128 * i) + entry_bytes(e) + b.subrange(128 * i + 128, bs as int), bs))
                            &&& vstd::utf8::valid_utf8(name.spec_bytes()) ==> pos_named(final(dev).contents(), bs, (p, i), name.spec_bytes())
                        }
                    }
                },
                None => true,
            },
    {
        let ghost c = dev.contents();
        match self.lookup(dev, dir_inode, name)? {
            Some(_) => return Err(VolumeError::AlreadyExists),
            None => {},
        }
        let bs = self.block_size;
        let hash = dir_hash(name.as_bytes(), &self.hash_seed);
        let leaf_logical = self.find_leaf_block(dev, dir_inode, hash)?;
        let leaf_phys = get_block_ptr(dev, dir_inode, leaf_logical, bs)?;
        if leaf_phys == 0 {
            return Err(VolumeError::Invalid);
        }
        let mut buf = read_block(dev, leaf_phys, bs)?;
        let new_entry = DirEntry::new(inode_index, file_type, name)?;
        proof {
            lemma_entry_bytes_len(new_entry);
            assert(128 * slot_capacity(bs) <= bs && last_slot(bs) + 128 <= bs) by (nonlinear_arith)
                requires
                    bs >= 256,
                    slot_capacity(bs) == bs / 128 - 1,
                    last_slot(bs) == (bs / 128 - 1) * 128,
            ;
        }
        let ghost b0 = buf@;
        if try_add_entry_to_block(buf.as_mut_slice(), &new_entry, bs) {
            let ghost b1 = buf@;
            proof {
                crate::dir::lemma_stamped_verifies(buf@, bs);
            }
            stamp_checksum(&mut buf, bs);
            write_block(dev, leaf_phys, bs, &buf)?;
            proof {
                let i = choose|i: int|
                    0 <= i < slot_capacity(bs) && !slot_live(b0, i) && (forall|j: int|
                        0 <= j < i ==> slot_live(b0, j)) && b1 == b0.subrange(0, 128 * i) + entry_bytes(new_entry)
                        + b0.subrange(128 * i + 128, b0.len() as int);
                assert(dev.contents().subrange(leaf_phys * bs, leaf_phys * bs + bs) =~= buf@);
                if vstd::utf8::valid_utf8(name.spec_bytes()) {
                    lemma_placed_entry_named(b0, i, new_entry, name.spec_bytes(), bs);
                }
            }
            return Ok(());
        }
        proof {
            assert(forall|i: int| 0 <= i < slot_capacity(bs) ==> #[trigger] slot_live(b0, i));
        }
        self.split_leaf(dev, dir_inode, alloc, sb, leaf_phys, &buf, new_entry)
    }
}

/// An entry named `name` placed in leaf slot `i` (before the checksum
/// record is stamped) is found there by name.
pub proof fn lemma_placed_entry_named(b: Seq<u8>, i: int, e: DirEntry, name: Seq<u8>, bs: u32)
    requires
        bs >= 256,
        b.len() == bs,
        0 <= i < slot_capacity(bs),
        valid_name(name),
        vstd::utf8::valid_utf8(name),
        e.name_len == name.len(),
        e.name@ == name + zeros((122 - name.len()) as nat),
    ensures
        crate::dir::slot_named(stamped(b.subrange(0, 128 * i) + entry_bytes(e) + b.subrange(128 * i + 128, bs as int), bs), i, name),
{
    lemma_entry_bytes_len(e);
    let f = b.subrange(0, 128 * i) + entry_bytes(e) + b.subrange(128 * i + 128, bs as int);
    let s = stamped(f, bs);
    assert(128 * slot_capacity(bs) <= last_slot(bs) && last_slot(bs) + 128 <= bs) by (nonlinear_arith)
        requires
            bs >= 256,
            slot_capacity(bs) == bs / 128 - 1,
            last_slot(bs) == (bs / 128 - 1) * 128,
    ;
    crate::dir::lemma_stamped_verifies(f, bs);
    assert(s.subrange(0, last_slot(bs)) =~= f.subrange(0, last_slot(bs)));
    assert(128 * i + 128 <= last_slot(bs));
    assert forall|k: int| 0 <= k < 128 implies s[128 * i + k] == entry_bytes(e)[k] by {
        assert(s[128 * i + k] == s.subrange(0, last_slot(bs))[128 * i + k]);
        assert(f[128 * i + k] == entry_bytes(e)[k]);
    }
    assert(s[128 * i + 5] == e.name_len);
    assert(s.subrange(128 * i + 6, 128 * i + 6 + e.name_len) =~= name) by {
        assert forall|k: int| 0 <= k < name.len() implies s.subrange(128 * i + 6, 128 * i + 6 + e.name_len)[k] == name[k] by {
            assert(s[128 * i + 6 + k] == entry_bytes(e)[6 + k]);
            assert(entry_bytes(e)[6 + k] == e.name@[k]);
        }
    }
}

/// Placing an entry in leaf slot `i` and stamping the block leaves what
/// every other slot below the checksum record holds, names included.
pub proof fn lemma_placed_entry_keeps_others(b: Seq<u8>, i: int, e: DirEntry, bs: u32, j: int, name: Seq<u8>)
    requires
        bs >= 256,
        b.len() == bs,
        0 <= i < slot_capacity(bs),
        0 <= j < slot_capacity(bs),
        j != i,
    ensures
        crate::dir::slot_named(stamped(b.subrange(0, 128 * i) + entry_bytes(e) + b.subrange(128 * i + 128, bs as int), bs), j, name)
            == crate::dir::slot_named(b, j, name),
{
    lemma_entry_bytes_len(e);
    let f = b.subrange(0, 128 * i) + entry_bytes(e) + b.subrange(128 * i + 128, bs as int);
    let s = stamped(f, bs);
    assert(128 * slot_capacity(bs) <= last_slot(bs) && last_slot(bs) + 128 <= bs) by (nonlinear_arith)
        requires
            bs >= 256,
            slot_capacity(bs) == bs / 128 - 1,
            last_slot(bs) == (bs / 128 - 1) * 128,
    ;
    crate::dir::lemma_stamped_verifies(f, bs);
    assert(s.subrange(0, last_slot(bs)) =~= f.subrange(0, last_slot(bs)));
    let sj = s.subrange(128 * j, 128 * j + 128);
    let bj = b.subrange(128 * j, 128 * j + 128);
    assert forall|k: int| 0 <= k < 128 implies #[trigger] sj[k] == bj[k] by {
        assert(sj[k] == s.subrange(0, last_slot(bs))[128 * j + k]);
        if j < i {
            assert(f[128 * j + k] == b.subrange(0, 128 * i)[128 * j + k]);
        } else {
            assert(f[128 * j + k] == b.subrange(128 * i + 128, bs as int)[128 * j + k - 128 * i - 128]);
        }
    }
    assert(sj =~= bj);
    assert(s[128 * j + 5] == sj[5]);
    assert(b[128 * j + 5] == bj[5]);
    assert(s.subrange(128 * j, 128 * j + 4) =~= sj.subrange(0, 4));
    assert(b.subrange(128 * j, 128 * j + 4) =~= bj.subrange(0, 4));
    assert(s[128 * j + 5] == b[128 * j + 5]);
    if b[128 * j + 5] <= 122 {
        assert(s.subrange(128 * j + 6, 128 * j + 6 + b[128 * j + 5]) =~= sj.subrange(6, 6 + b[128 * j + 5]));
        assert(b.subrange(128 * j + 6, 128 * j + 6 + b[128 * j + 5]) =~= bj.subrange(6, 6 + b[128 * j + 5]));
    }
}

/// Device contents `c1` are `c0` with the entry named `name` in slot `k`
/// of leaf block `p` removed: the slot zeroed and the checksum record
/// stamped.
pub open spec fn leaf_removed_at(c0: Seq<u8>, c1: Seq<u8>, p: u64, k: int, name: Seq<u8>, bs: u32) -> bool {
    let b = c0.subrange(p * bs, p * bs + bs);
    &&& p * bs + bs <= c0.len()
    &&& crate::dir::slot_named(b, k, name)
    &&& 0 <= k < slot_capacity(bs)
    &&& c1 == written(c0, p * bs, stamped(crate::dir::slot_cleared(b, k), bs))
}

impl HTree {
    /// Mark the live entry named `name` unused in the leaf its hash selects
    /// (its slot zeroed, checksum record restamped); empty leaves stay.
    /// `NotFound` when the leaf is unmapped or holds no such entry. The
    /// device is untouched on every error.
    #[verifier::spinoff_prover]
    pub fn remove<D: CFSBlockDevice>(&mut self, dev: &mut D, dir_inode: &Inode, name: &str) -> (r: Result<(), VolumeError>)
        requires
            old(self).wf(),
        ensures
            *final(self) == *old(self),
            r is Err ==> final(dev).contents() == old(dev).contents(),
            r is Ok ==> exists|p: u64, k: int| #[trigger] leaf_removed_at(
                old(dev).contents(),
                final(dev).contents(),
                p,
                k,
                name.spec_bytes(),
                old(self).block_size,
            ),
            old(self).root_info.depth == 0 && old(self).root_entries@.len() > 0 && dx_sorted(old(self).root_entries@)
                && dir_modelled(*dir_inode) ==> match file_block_ptr(old(dev).contents(), *dir_inode, old(self).leaf_of(name.spec_bytes()), old(self).block_size) {
                Some(p) => {
                    let c = old(dev).contents();
                    let bs = old(self).block_size;
                    &&& p == 0 ==> r is Err
                    &&& r == Err::<(), VolumeError>(VolumeError::NotFound) ==> p == 0 || forall|j: int|
                        0 <= j < slot_capacity(bs) ==> !#[trigger] pos_named(c, bs, (p, j), name.spec_bytes())
                    &&& r is Ok ==> exists|k: int| {
                        &&& #[trigger] leaf_removed_at(c, final(dev).contents(), p, k, name.spec_bytes(), bs)
                        &&& forall|j: int| 0 <= j < k ==> !#[trigger] pos_named(c, bs, (p, j), name.spec_bytes())
                    }
                    &&& p != 0 && (exists|j: int| 0 <= j < slot_capacity(bs) && #[trigger] pos_named(c, bs, (p, j), name.spec_bytes())) ==> r != Err::<(), VolumeError>(VolumeError::NotFound)
                },
                None => true,
            },
    {
        let bs = self.block_size;
        let ghost c = dev.contents();
        let hash = dir_hash(name.as_bytes(), &self.hash_seed);
        let leaf_logical = self.find_leaf_block(dev, dir_inode, hash)?;
        let leaf_phys = get_block_ptr(dev, dir_inode, leaf_logical, bs)?;
        proof {
            if self.root_info.depth == 0 && self.root_entries@.len() > 0 && dx_sorted(self.root_entries@) && dir_modelled(*dir_inode) {
                assert(leaf_logical == self.leaf_of(name.spec_bytes()));
                assert(file_block_ptr(c, *dir_inode, leaf_logical, bs) == Some(leaf_phys));
            }
        }
        if leaf_phys == 0 {
            return Err(VolumeError::NotFound);
        }
        let mut buf = read_block(dev, leaf_phys, bs)?;
        let cap = leaf_capacity(bs);
        proof {
            assert(128 * cap <= bs && last_slot(bs) + 128 <= bs) by (nonlinear_arith)
                requires
                    cap == bs / 128 - 1,
                    bs >= 256,
                    last_slot(bs) == (bs / 128 - 1) * 128,
            ;
        }
        match find_named_slot(buf.as_slice(), cap, name) {
            Some(k) => {
                let ghost b = buf@;
                let mut zero: Vec<u8> = Vec::new();
                push_zeros(&mut zero, DIR_ENTRY_SIZE);
                crate::codec::put_bytes(&mut buf, k * DIR_ENTRY_SIZE, zero.as_slice());
                assert(buf@ =~= crate::dir::slot_cleared(b, k as int));
                proof {
                    crate::dir::lemma_stamped_verifies(buf@, bs);
                }
                stamp_checksum(&mut buf, bs);
                write_block(dev, leaf_phys, bs, &buf)?;
                assert(leaf_removed_at(c, dev.contents(), leaf_phys, k as int, name.spec_bytes(), bs));
                proof {
                    assert(buf@.len() == bs);
                    assert forall|j: int| 0 <= j < k implies !#[trigger] pos_named(c, bs, (leaf_phys, j), name.spec_bytes()) by {
                        assert(!slot_named(b, j, name.spec_bytes()));
                    }
                }
                Ok(())
            },
            None => {
                proof {
                    assert(buf@ == c.subrange(leaf_phys * bs, leaf_phys * bs + bs));
                    assert forall|j: int| 0 <= j < slot_capacity(bs) implies !#[trigger] pos_named(c, bs, (leaf_phys, j), name.spec_bytes()) by {
                        assert(!slot_named(buf@, j, name.spec_bytes()));
                    }
                    assert(!(exists|j: int| 0 <= j < slot_capacity(bs) && #[trigger] pos_named(c, bs, (leaf_phys, j), name.spec_bytes())));
                }
                Err(VolumeError::NotFound)
            },
        }
    }
}

impl HTree {
    /// Logical blocks of every leaf, in index order: the root entries'
    /// blocks at depth 0, else the entries of each mapped internal node the
    /// root names.
    fn collect_all_leaf_blocks<D: CFSBlockDevice>(&self, dev: &mut D, dir_inode: &Inode) -> (r: Result<Vec<u32>, VolumeError>)
        requires
            self.wf(),
        ensures
            final(dev).contents() == old(dev).contents(),
            self.root_info.depth == 0 ==> (r matches Ok(v) && v@ == self.root_entries@.map_values(|e: DxEntry| e.block)),
    {
        let mut leaves: Vec<u32> = Vec::new();
        if self.root_info.depth == 0 {
            let mut i: usize = 0;
            while i < self.root_entries.len()
                invariant
                    i <= self.root_entries@.len(),
                    leaves@ == self.root_entries@.take(i as int).map_values(|e: DxEntry| e.block),
                decreases self.root_entries@.len() - i,
            {
                leaves.push(self.root_entries[i].block);
                i = i + 1;
                assert(leaves@ =~= self.root_entries@.take(i as int).map_values(|e: DxEntry| e.block));
            }
            assert(self.root_entries@.take(self.root_entries@.len() as int) =~= self.root_entries@);
            return Ok(leaves);
        }
        let ghost c = dev.contents();
        let mut i: usize = 0;
        while i < self.root_entries.len()
            invariant
                i <= self.root_entries@.len(),
                dev.contents() == c,
                c == old(dev).contents(),
                self.wf(),
                self.root_info.depth != 0,
            decreases self.root_entries@.len() - i,
        {
            let node_phys = get_block_ptr(dev, dir_inode, self.root_entries[i].block as u64, self.block_size)?;
            if node_phys != 0 {
                let buf = read_block(dev, node_phys, self.block_size)?;
                let node = DxNode::deserialize(buf.as_slice())?;
                let mut j: usize = 0;
                while j < node.entries.len()
                    invariant
                        j <= node.entries@.len(),
                    decreases node.entries@.len() - j,
                {
                    leaves.push(node.entries[j].block);
                    j = j + 1;
                }
            }
            i = i + 1;
        }
        Ok(leaves)
    }

    /// Every entry of the directory: "." and ".." (from the root block's
    /// header) first, then the live entries of each mapped leaf in index
    /// order.
    pub fn readdir<D: CFSBlockDevice>(&self, dev: &mut D, dir_inode: &Inode) -> (r: Result<Vec<DirEntry>, VolumeError>)
        requires
            self.wf(),
        ensures
            final(dev).contents() == old(dev).contents(),
            r matches Ok(v) ==> {
                &&& v@.len() >= 2
                &&& v@[0].inode_index == self.dot_inode && v@[0].name_len == 1 && v@[0].name@[0] == 0x2Eu8
                &&& v@[1].inode_index == self.dotdot_inode && v@[1].name_len == 2 && v@[1].name@[0] == 0x2Eu8
                    && v@[1].name@[1] == 0x2Eu8
                &&& forall|i: int| 2 <= i < v@.len() ==> !(#[trigger] v@[i].inode_index == 0 && v@[i].name_len == 0)
            },
            self.root_info.depth == 0 && dir_modelled(*dir_inode) ==> (r matches Ok(v) ==> entries_at_positions(
                v@.subrange(2, v@.len() as int),
                old(dev).contents(),
                self.block_size,
                leaf_positions(old(dev).contents(), *dir_inode, self.block_size, self.root_entries@.map_values(|e: DxEntry| e.block)),
            )),
    {
        let bs = self.block_size;
        let ghost c = dev.contents();
        proof {
            reveal_strlit(".");
            reveal_strlit("..");
            assert(vstd::string::is_ascii("."));
            assert(vstd::string::is_ascii(".."));
            vstd::string::is_ascii_spec_bytes(".");
            vstd::string::is_ascii_spec_bytes("..");
            assert(".".spec_bytes() =~= seq![0x2Eu8]);
            assert("..".spec_bytes() =~= seq![0x2Eu8, 0x2Eu8]);
        }
        let dot = DirEntry::new(self.dot_inode, INODE_DIR as u8, ".")?;
        let dotdot = DirEntry::new(self.dotdot_inode, INODE_DIR as u8, "..")?;
        let mut all: Vec<DirEntry> = Vec::new();
        all.push(dot);
        all.push(dotdot);
        let leaf_logicals = self.collect_all_leaf_blocks(dev, dir_inode)?;
        proof {
            assert(128 * slot_capacity(bs) <= bs) by (nonlinear_arith)
                requires
                    bs >= 256,
                    slot_capacity(bs) == bs / 128 - 1,
            ;
        }
        let ghost modelled = self.root_info.depth == 0 && dir_modelled(*dir_inode);
        proof {
            assert(all@.subrange(2, 2) =~= Seq::<DirEntry>::empty());
            assert(leaf_logicals@.take(0) =~= Seq::<u32>::empty());
        }
        let mut i: usize = 0;
        while i < leaf_logicals.len()
            invariant
                i <= leaf_logicals@.len(),
                modelled == (self.root_info.depth == 0 && dir_modelled(*dir_inode)),
                modelled ==> entries_at_positions(all@.subrange(2, all@.len() as int), c, bs,
                    leaf_positions(c, *dir_inode, bs, leaf_logicals@.take(i as int))),
                dev.contents() == c,
                c == old(dev).contents(),
                self.wf(),
                bs == self.block_size,
                128 * slot_capacity(bs) <= bs,
                all@.len() >= 2,
                all@[0] == dot,
                all@[1] == dotdot,
                forall|q: int| 2 <= q < all@.len() ==> !(#[trigger] all@[q].inode_index == 0 && all@[q].name_len == 0),
            decreases leaf_logicals@.len() - i,
        {
            let leaf_phys = get_block_ptr(dev, dir_inode, leaf_logicals[i] as u64, bs)?;
            let ghost lbs1 = leaf_logicals@.take(i + 1);
            let ghost prev = all@.subrange(2, all@.len() as int);
            proof {
                assert(lbs1.drop_last() =~= leaf_logicals@.take(i as int));
                assert(lbs1.last() == leaf_logicals@[i as int]);
                if modelled {
                    assert(file_block_ptr(c, *dir_inode, leaf_logicals@[i as int] as u64, bs) == Some(leaf_phys));
                }
            }
            if leaf_phys != 0 {
                let buf = read_block(dev, leaf_phys, bs)?;
                let entries = parse_leaf_entries(buf.as_slice(), bs);
                proof {
                    crate::dir::lemma_live_slots(buf@, slot_capacity(bs));
                }
                let ghost base = all@.len();
                let ghost all0 = all@;
                let mut j: usize = 0;
                while j < entries.len()
                    invariant
                        j <= entries@.len(),
                        all@.len() == base + j,
                        base >= 2,
                        all@.subrange(0, base as int) == all0,
                        forall|k: int| 0 <= k < j ==> all@[base + k] == entries@[k],
                        all@.len() >= 2,
                        all@[0] == dot,
                        all@[1] == dotdot,
                        entries@.len() == live_slots(buf@, slot_capacity(bs)).len(),
                        forall|k: int| 0 <= k < entries@.len() ==> entry_at(#[trigger] entries@[k], buf@, 128 * live_slots(buf@, slot_capacity(bs))[k]),
                        forall|k: int| 0 <= k < live_slots(buf@, slot_capacity(bs)).len() ==> slot_live(buf@, #[trigger] live_slots(buf@, slot_capacity(bs))[k]),
                        forall|q: int| 2 <= q < all@.len() ==> !(#[trigger] all@[q].inode_index == 0 && all@[q].name_len == 0),
                    decreases entries@.len() - j,
                {
                    proof {
                        let k = live_slots(buf@, slot_capacity(bs))[j as int];
                        assert(slot_live(buf@, k));
                        assert(entry_at(entries@[j as int], buf@, 128 * k));
                    }
                    all.push(entries[j]);
                    j = j + 1;
                    proof {
                        assert(all@.subrange(0, base as int) =~= all0);
                    }
                }
                proof {
                    if modelled {
                        let ls = live_slots(buf@, slot_capacity(bs));
                        let here = ls.map_values(|k: int| (leaf_phys, k));
                        assert(buf@ == c.subrange(leaf_phys * bs, leaf_phys * bs + bs));
                        assert(leaf_positions(c, *dir_inode, bs, lbs1) == leaf_positions(c, *dir_inode, bs, leaf_logicals@.take(i as int)) + here);
                        let ps = leaf_positions(c, *dir_inode, bs, lbs1);
                        let v = all@.subrange(2, all@.len() as int);
                        assert(v.len() == ps.len());
                        assert forall|q: int| 0 <= q < v.len() implies entry_at(#[trigger] v[q], c.subrange(ps[q].0 * bs, ps[q].0 * bs + bs), 128 * ps[q].1) by {
                            if q < prev.len() {
                                assert(v[q] == prev[q]);
                                assert(all0[q + 2] == all@[q + 2]);
                            } else {
                                let k = q - prev.len();
                                assert(v[q] == entries@[k]);
                                assert(ps[q] == here[k]);
                            }
                        }
                    }
                }
            } else {
                proof {
                    if modelled {
                        assert(leaf_positions(c, *dir_inode, bs, lbs1) == leaf_positions(c, *dir_inode, bs, leaf_logicals@.take(i as int)));
                    }
                }
            }
            i = i + 1;
        }
        proof {
            assert(leaf_logicals@.take(leaf_logicals@.len() as int) =~= leaf_logicals@);
        }
        Ok(all)
    }

    /// Turn a linear directory into an indexed one. Its live entries other
    /// than "." and ".." are sorted by name hash (stable) and laid into
    /// leaves of `leaf_capacity` entries at logical blocks 1, 2, ... (the
    /// directory's existing blocks past the first, then new ones); the root
    /// (block 0) gets one index entry per leaf (hash 0 for the first, else
    /// the leaf's first hash), the inode numbers of "." (this directory) and
    /// ".." (from the old ".." entry, else 0), and the volume's seed. The
    /// inode gets the index flag and spans its blocks. `Invalid` for a
    /// stored name length past the name field or an unmapped leaf block;
    /// `NoSpace` when the leaves need more root entries than fit;
    /// `OutOfRange` when the block count could not grow.
    pub fn convert_from_linear<D: CFSBlockDevice>(
        dev: &mut D,
        dir_inode: &mut Inode,
        dir_inode_idx: u32,
        alloc: &mut BlockAlloc,
        sb: &mut Superblock,
    ) -> (r: Result<Self, VolumeError>)
        requires
            old(alloc).wf(),
            old(sb).block_size >= 256,
        ensures
            final(alloc).wf(),
            final(alloc).same_kind(old(alloc)),
            sb_spent(*final(sb), *old(sb)),
            final(dir_inode).mode == old(dir_inode).mode,
            r matches Ok(h) ==> {
                &&& h.wf()
                &&& h.dir_inode_idx == dir_inode_idx
                &&& h.dot_inode == dir_inode_idx
                &&& h.block_size == old(sb).block_size
                &&& h.hash_seed == old(sb).hash_seed
                &&& h.root_info.hash_seed_copy == old(sb).hash_seed
                &&& h.root_info.depth == 0
                &&& h.root_info.count == h.root_entries@.len()
                &&& h.root_entries@.len() >= 1
                &&& h.root_entries@[0].hash == 0
                &&& dx_sorted(h.root_entries@)
                &&& final(dir_inode).flags == old(dir_inode).flags | INODE_FLAG_HTREE
                &&& final(dir_inode).size == final(dir_inode).block_count * old(sb).block_size
            },
    {
        let bs = sb.block_size;
        let seed = sb.hash_seed;
        let all_entries = crate::dir::read_dir_entries(dev, dir_inode, bs)?;
        let mut dotdot_inode: u32 = 0;
        let mut i: usize = 0;
        while i < all_entries.len()
            invariant
                i <= all_entries@.len(),
            decreases all_entries@.len() - i,
        {
            if crate::dir::entry_named(&all_entries[i], "..") {
                dotdot_inode = all_entries[i].inode_index;
                break;
            }
            i = i + 1;
        }
        let mut hashed: Vec<(u32, DirEntry)> = Vec::new();
        let mut i: usize = 0;
        while i < all_entries.len()
            invariant
                i <= all_entries@.len(),
                *alloc == *old(alloc),
                alloc.wf(),
                *sb == *old(sb),
                *dir_inode == *old(dir_inode),
                seed == sb.hash_seed,
            decreases all_entries@.len() - i,
        {
            let e = all_entries[i];
            if !crate::dir::entry_named(&e, ".") && !crate::dir::entry_named(&e, "..") {
                if e.name_len > 122 {
                    return Err(VolumeError::Invalid);
                }
                let h = entry_hash(&e, &seed);
                hashed.push((h, e));
            }
            i = i + 1;
        }
        let hashed = sort_by_hash(hashed);
        let epl = leaf_capacity(bs);
        let n = hashed.len();
        if n > usize::MAX - epl {
            return Err(VolumeError::NoSpace);
        }
        let leaf_count: usize = if n == 0 {
            1
        } else {
            (n + (epl - 1)) / epl
        };
        let existing_extra: usize = if dir_inode.block_count > 1 {
            (dir_inode.block_count - 1) as usize
        } else {
            0
        };
        let mut leaf_logicals: Vec<u64> = Vec::new();
        let mut k: usize = 0;
        while k < existing_extra
            invariant
                k <= existing_extra,
                leaf_logicals@.len() == k,
                existing_extra <= u32::MAX,
            decreases existing_extra - k,
        {
            leaf_logicals.push(k as u64 + 1);
            k = k + 1;
        }
        let additional: usize = if leaf_count > existing_extra {
            leaf_count - existing_extra
        } else {
            0
        };
        let mut a: usize = 0;
        while a < additional
            invariant
                a <= additional,
                leaf_logicals@.len() == existing_extra + a,
                additional == (if leaf_count > existing_extra { leaf_count - existing_extra } else { 0 }),
                alloc.wf(),
                alloc.same_kind(old(alloc)),
                sb_spent(*sb, *old(sb)),
                sb.block_size == bs,
                sb.hash_seed == seed,
                bs >= 256,
                dir_inode.mode == old(dir_inode).mode,
                dir_inode.flags == old(dir_inode).flags,
                existing_extra <= u32::MAX,
                leaf_count <= usize::MAX,
            decreases additional - a,
        {
            if dir_inode.block_count == u32::MAX || leaf_logicals.len() as u64 >= u64::MAX - 1 {
                return Err(VolumeError::OutOfRange);
            }
            let new_blocks = alloc.allocate(dev, sb, 1)?;
            let new_phys = new_blocks[0];
            let logical = leaf_logicals.len() as u64 + 1;
            set_block_ptr(dev, dir_inode, logical, new_phys, bs, alloc, sb)?;
            leaf_logicals.push(logical);
            dir_inode.block_count = dir_inode.block_count + 1;
            a = a + 1;
        }
        let mut dx_entries: Vec<DxEntry> = Vec::new();
        let mut start: usize = 0;
        let mut leaf_idx: usize = 0;
        while start < n
            invariant
                n == hashed@.len(),
                hash_sorted(hashed@),
                epl == slot_capacity(bs),
                epl >= 1,
                bs >= 256,
                start <= n,
                start < n ==> start == leaf_idx * epl,
                leaf_idx == dx_entries@.len(),
                start > 0 ==> leaf_idx > 0,
                n > 0 ==> leaf_count == (n + (epl - 1)) / epl as int,
                n == 0 ==> leaf_count == 1,
                leaf_logicals@.len() >= leaf_count,
                dx_sorted(dx_entries@),
                dx_entries@.len() > 0 ==> dx_entries@[0].hash == 0,
                forall|j: int, q: int| 0 <= j < dx_entries@.len() && start <= q < n ==> #[trigger] dx_entries@[j].hash <= #[trigger] hashed@[q].0,
                alloc.wf(),
                alloc.same_kind(old(alloc)),
                sb_spent(*sb, *old(sb)),
                dir_inode.mode == old(dir_inode).mode,
                dir_inode.flags == old(dir_inode).flags,
            decreases n - start,
        {
            proof {
                assert(leaf_idx < (n + (epl - 1)) / epl as int && leaf_idx < n) by (nonlinear_arith)
                    requires
                        leaf_idx * epl < n,
                        epl >= 1,
                ;
            }
            let end: usize = if n - start > epl {
                start + epl
            } else {
                n
            };
            let leaf_logical = leaf_logicals[leaf_idx];
            let leaf_phys = get_block_ptr(dev, dir_inode, leaf_logical, bs)?;
            if leaf_phys == 0 {
                return Err(VolumeError::Invalid);
            }
            let mut chunk: Vec<DirEntry> = Vec::new();
            let mut q: usize = start;
            while q < end
                invariant
                    start <= q <= end,
                    end <= n,
                    n == hashed@.len(),
                decreases end - q,
            {
                chunk.push(hashed[q].1);
                q = q + 1;
            }
            let buf = leaf_block(&chunk, bs);
            write_block(dev, leaf_phys, bs, &buf)?;
            let hash_val = if leaf_idx == 0 {
                0
            } else {
                hashed[start].0
            };
            let ghost d0 = dx_entries@;
            dx_entries.push(DxEntry::new(hash_val, leaf_logical as u32));
            proof {
                assert forall|j: int, q2: int| 0 <= j < dx_entries@.len() && end <= q2 < n implies #[trigger] dx_entries@[j].hash
                    <= #[trigger] hashed@[q2].0 by {
                    if j < d0.len() {
                        assert(d0[j].hash <= hashed@[start as int].0);
                    }
                    assert(hashed@[start as int].0 <= hashed@[q2].0);
                }
                assert forall|x: int, y: int| 0 <= x <= y < dx_entries@.len() implies dx_entries@[x].hash <= dx_entries@[y].hash by {
                    if y == d0.len() && x < y {
                        assert(d0[x].hash <= hashed@[start as int].0);
                    }
                }
                if end < n {
                    assert(end == start + epl);
                    assert(end == (leaf_idx + 1) * epl) by (nonlinear_arith)
                        requires
                            start == leaf_idx * epl,
                            end == start + epl,
                    ;
                }
            }
            leaf_idx = leaf_idx + 1;
            start = end;
        }
        if dx_entries.len() == 0 {
            let leaf_logical = leaf_logicals[0];
            let leaf_phys = get_block_ptr(dev, dir_inode, leaf_logical, bs)?;
            if leaf_phys == 0 {
                return Err(VolumeError::Invalid);
            }
            let empty: Vec<DirEntry> = Vec::new();
            let buf = leaf_block(&empty, bs);
            write_block(dev, leaf_phys, bs, &buf)?;
            dx_entries.push(DxEntry::new(0, leaf_logical as u32));
        }
        let limit = DxRootInfo::compute_limit(bs);
        if dx_entries.len() as u64 > limit as u64 {
            return Err(VolumeError::NoSpace);
        }
        let root_info = DxRootInfo {
            hash_version: HASH_VERSION_SIPHASH24,
            depth: 0,
            indirect_levels: 0,
            count: dx_entries.len() as u32,
            limit,
            hash_seed_copy: seed,
        };
        let htree = HTree {
            dir_inode_idx,
            root_info,
            root_entries: dx_entries,
            block_size: bs,
            hash_seed: seed,
            dot_inode: dir_inode_idx,
            dotdot_inode,
        };
        htree.save_root(dev, dir_inode)?;
        dir_inode.flags = dir_inode.flags | INODE_FLAG_HTREE;
        proof {
            let bc = dir_inode.block_count;
            assert(bc * bs <= u64::MAX) by (nonlinear_arith)
                requires
                    bc <= u32::MAX,
                    bs <= u32::MAX,
            ;
        }
        dir_inode.size = dir_inode.block_count as u64 * bs as u64;
        Ok(htree)
    }
}

/// `h` was read from block `p` of contents `c`.
pub open spec fn root_block_at(c: Seq<u8>, p: u64, h: HTree) -> bool {
    &&& p * h.block_size + h.block_size <= c.len()
    &&& parsed_root(c.subrange(p * h.block_size, p * h.block_size + h.block_size), h)
}

// ---------------------------------------------------------------------------
// Leaf blocks
// ---------------------------------------------------------------------------

/// Entry slots of a leaf block: all but the last, which holds the checksum.
pub open spec fn slot_capacity(block_size: u32) -> int {
    block_size / 128 - 1
}

/// The text of the name stored in slot `i` (see `shown_name`).
pub open spec fn slot_name(b: Seq<u8>, i: int) -> Seq<u8> {
    shown_name(b.subrange(128 * i + 6, 128 * i + 6 + b[128 * i + 5]))
}

/// Entries per leaf block.
pub fn leaf_capacity(block_size: u32) -> (r: usize)
    requires
        block_size >= 128,
    ensures
        r == slot_capacity(block_size),
{
    (block_size as usize / DIR_ENTRY_SIZE) - 1
}

/// The entries in the used slots of a leaf block, in slot order.
pub fn parse_leaf_entries(buf: &[u8], block_size: u32) -> (r: Vec<DirEntry>)
    requires
        block_size >= 128,
        128 * slot_capacity(block_size) <= buf@.len(),
    ensures
        r@.len() == live_slots(buf@, slot_capacity(block_size)).len(),
        forall|k: int|
            0 <= k < r@.len() ==> entry_at(#[trigger] r@[k], buf@, 128 * live_slots(buf@, slot_capacity(block_size))[k]),
{
    let n = leaf_capacity(block_size);
    crate::dir::live_entries(buf, n)
}

/// Put `entry` into the first unused slot. Returns whether there was one;
/// the block is unchanged when there was not.
pub fn try_add_entry_to_block(buf: &mut [u8], entry: &DirEntry, block_size: u32) -> (r: bool)
    requires
        block_size >= 128,
        128 * slot_capacity(block_size) <= old(buf)@.len(),
    ensures
        r == exists|i: int| 0 <= i < slot_capacity(block_size) && !slot_live(old(buf)@, i),
        r ==> exists|i: int|
            0 <= i < slot_capacity(block_size) && !slot_live(old(buf)@, i) && (forall|j: int|
                0 <= j < i ==> slot_live(old(buf)@, j)) && final(buf)@ == old(buf)@.subrange(0, 128 * i) + entry_bytes(
                *entry,
            ) + old(buf)@.subrange(128 * i + 128, old(buf)@.len() as int),
        !r ==> final(buf)@ == old(buf)@,
{
    let n = leaf_capacity(block_size);
    let ghost b0 = buf@;
    let mut i: usize = 0;
    while i < n
        invariant
            n == slot_capacity(block_size),
            128 * n <= b0.len(),
            buf@ == b0,
            old(buf)@ == b0,
            i <= n,
            forall|j: int| 0 <= j < i ==> slot_live(b0, j),
        decreases n - i,
    {
        let e = read_entry_at(buf, i * DIR_ENTRY_SIZE);
        if e.is_unused() {
            let rec = entry.serialize();
            proof {
                lemma_entry_bytes_len(*entry);
                assert(!slot_live(b0, i as int));
            }
            put_slice(buf, i * DIR_ENTRY_SIZE, rec.as_slice());
            assert(buf@ == b0.subrange(0, 128 * i) + entry_bytes(*entry) + b0.subrange(128 * i + 128, b0.len() as int));
            assert(0 <= i < slot_capacity(block_size) && !slot_live(old(buf)@, i as int));
            return true;
        }
        i = i + 1;
    }
    false
}

/// Clear the block and write `entries` from slot 0, as many as the slots hold.
pub fn write_entries_to_block(buf: &mut [u8], entries: &[DirEntry], block_size: u32)
    requires
        block_size >= 128,
        128 * vstd::math::min(entries@.len() as int, slot_capacity(block_size)) <= old(buf)@.len(),
    ensures
        ({
            let m = vstd::math::min(entries@.len() as int, slot_capacity(block_size));
            final(buf)@ == entries_image(entries@.take(m)) + zeros((old(buf)@.len() - 128 * m) as nat)
        }),
{
    let len = buf.len();
    let mut z: usize = 0;
    while z < len
        invariant
            len == buf@.len(),
            z <= len,
            forall|k: int| 0 <= k < z ==> buf@[k] == 0u8,
        decreases len - z,
    {
        buf[z] = 0;
        z = z + 1;
    }
    let cap = leaf_capacity(block_size);
    let m = if entries.len() < cap {
        entries.len()
    } else {
        cap
    };
    assert(buf@ =~= entries_image(entries@.take(0)) + zeros(len as nat));
    let mut i: usize = 0;
    while i < m
        invariant
            len == buf@.len(),
            m == vstd::math::min(entries@.len() as int, slot_capacity(block_size)),
            128 * m <= len,
            i <= m,
            buf@ == entries_image(entries@.take(i as int)) + zeros((len - 128 * i) as nat),
        decreases m - i,
    {
        let rec = entries[i].serialize();
        proof {
            lemma_entry_bytes_len(entries@[i as int]);
            lemma_entries_image(entries@.take(i as int));
        }
        let ghost before = buf@;
        put_slice(buf, i * DIR_ENTRY_SIZE, rec.as_slice());
        proof {
            let t = entries@.take(i + 1);
            assert(t.drop_last() =~= entries@.take(i as int));
            assert(t.last() == entries@[i as int]);
            lemma_entries_image(t);
            assert(buf@ =~= entries_image(t) + zeros((len - 128 * (i + 1)) as nat));
        }
        i = i + 1;
    }
}

/// No used slot before `k` has `name`.
pub open spec fn no_match_before(b: Seq<u8>, name: Seq<u8>, k: int) -> bool {
    forall|j: int| 0 <= j < k && #[trigger] slot_live(b, j) ==> slot_name(b, j) != name
}

/// Every used slot reached before a match has a name length within 122
/// (reading a longer one would overrun the name field).
pub open spec fn names_readable(b: Seq<u8>, name: Seq<u8>, n: int) -> bool {
    forall|i: int| 0 <= i < n && #[trigger] slot_live(b, i) && no_match_before(b, name, i) ==> b[128 * i + 5] <= 122
}

/// Clear the first used slot whose name reads as `name`. Returns whether
/// there was one; the block is unchanged when there was not.
pub fn remove_entry_from_block(buf: &mut [u8], name: &str, block_size: u32) -> (r: bool)
    requires
        block_size >= 128,
        128 * slot_capacity(block_size) <= old(buf)@.len(),
        names_readable(old(buf)@, name.spec_bytes(), slot_capacity(block_size)),
    ensures
        r == exists|i: int|
            0 <= i < slot_capacity(block_size) && slot_live(old(buf)@, i) && slot_name(old(buf)@, i)
                == name.spec_bytes(),
        r ==> exists|i: int|
            0 <= i < slot_capacity(block_size) && slot_live(old(buf)@, i) && slot_name(old(buf)@, i)
                == name.spec_bytes() && no_match_before(old(buf)@, name.spec_bytes(), i) && final(buf)@
                == old(buf)@.subrange(0, 128 * i) + zeros(128) + old(buf)@.subrange(128 * i + 128, old(buf)@.len() as int),
        !r ==> final(buf)@ == old(buf)@,
{
    let n = leaf_capacity(block_size);
    let ghost b0 = buf@;
    let ghost nm = name.spec_bytes();
    let wanted = name.as_bytes();
    let mut i: usize = 0;
    while i < n
        invariant
            n == slot_capacity(block_size),
            128 * n <= b0.len(),
            buf@ == b0,
            old(buf)@ == b0,
            i <= n,
            wanted@ == nm,
            nm == name.spec_bytes(),
            names_readable(b0, nm, n as int),
            no_match_before(b0, nm, i as int),
        decreases n - i,
    {
        let e = read_entry_at(buf, i * DIR_ENTRY_SIZE);
        proof {
            lemma_codec_roundtrip();
        }
        if !e.is_unused() {
            proof {
                assert(slot_live(b0, i as int));
                assert(b0[128 * i + 5] <= 122);
            }
            let shown = e.name_str();
            proof {
                assert(e.name@.subrange(0, e.name_len as int) =~= b0.subrange(
                    128 * i + 6,
                    128 * i + 6 + b0[128 * i + 5],
                ));
                assert(shown.spec_bytes() == slot_name(b0, i as int));
            }
            if bytes_eq(shown.as_bytes(), wanted) {
                let zero: Vec<u8> = vec![0u8; 128];
                assert(zero@ =~= zeros(128));
                put_slice(buf, i * DIR_ENTRY_SIZE, zero.as_slice());
                assert(buf@ == b0.subrange(0, 128 * i) + zeros(128) + b0.subrange(128 * i + 128, b0.len() as int));
                assert(slot_live(old(buf)@, i as int) && slot_name(old(buf)@, i as int) == nm);
                return true;
            }
            assert(slot_name(b0, i as int) != nm);
        }
        assert(no_match_before(b0, nm, i + 1)) by {
            assert forall|j: int| 0 <= j < i + 1 && #[trigger] slot_live(b0, j) implies slot_name(b0, j) != nm by {
                if j < i {
                    assert(no_match_before(b0, nm, i as int));
                }
            }
        }
        i = i + 1;
    }
    false
}

/// A directory is converted to an index once it spans more than one block,
/// if the volume has the feature and it is not indexed yet.
pub fn should_convert_to_htree(dir_inode: &Inode, sb: &Superblock) -> (r: bool)
    ensures
        r == (dir_inode.flags & INODE_FLAG_HTREE == 0 && sb.features_flags & FEATURE_HTREE != 0 && dir_inode.mode
            == INODE_DIR && dir_inode.block_count > 1),
{
    if dir_inode.flags & INODE_FLAG_HTREE != 0 {
        return false;
    }
    if sb.features_flags & FEATURE_HTREE == 0 {
        return false;
    }
    if dir_inode.mode != INODE_DIR {
        return false;
    }
    dir_inode.block_count > 1
}

} // verus!
