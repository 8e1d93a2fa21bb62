//! Extent trees: the 12-byte header, leaf and index records, the extent root
//! kept in an inode's 96-byte block-pointer area, and the binary searches
//! over a node's entries.

use vstd::prelude::*;
use vstd::bytes::{spec_u64_from_le_bytes, spec_u64_to_le_bytes, lemma_auto_spec_u64_to_from_le_bytes};
use vstd::slice::slice_subrange;
use crate::codec::{
    le16, le32, le64, enc16, enc32, enc64, enc64_seq, zeros, lemma_codec_roundtrip, lemma_enc64_seq_len,
    lemma_le64_of_seq, get_u16, get_u32, get_u64, push_u16, push_u32, push_u64, push_u64_seq, push_bytes,
    push_zeros,
};
use crate::error::VolumeError;
use crate::inode::{Inode, INODE_FLAG_EXTENTS, EXTENT_ROOT_WORD0};
use crate::device::{CFSBlockDevice, written};

verus! {

/// Magic number of an extent tree node.
pub const EXTENT_MAGIC: u16 = 0xF30A;

/// Deepest extent tree allowed.
pub const EXTENT_MAX_DEPTH: u16 = 5;

/// Size of a header, leaf or index record.
pub const EXTENT_ENTRY_SIZE: usize = 12;

/// Size of the extent root area in an inode.
pub const EXTENT_ROOT_SIZE: usize = 96;

/// Entries in the in-inode root: (96 - 12) / 12.
pub const EXTENT_ROOT_MAX_ENTRIES: u16 = 7;

/// Longest initialized extent (15 bits).
pub const EXTENT_MAX_LEN_INIT: u16 = 32_767;

/// High bit of `ee_len`: the extent is preallocated but not initialized.
pub const EXTENT_UNINIT_FLAG: u16 = 0x8000;

/// Entries that fit in one block after the header.
pub fn extent_entries_per_block(block_size: u32) -> (r: u16)
    requires
        block_size >= 12,
    ensures
        r == ((block_size - 12) / 12) as u16,
{
    ((block_size as usize - EXTENT_ENTRY_SIZE) / EXTENT_ENTRY_SIZE) as u16
}

/// Header of every extent tree node.
#[derive(Debug, Clone, Copy, PartialEq, Eq, Structural)]
pub struct ExtentHeader {
    pub magic: u16,
    pub entries: u16,
    pub max: u16,
    pub depth: u16,
    pub generation: u32,
}

pub open spec fn header_bytes(h: ExtentHeader) -> Seq<u8> {
    enc16(h.magic) + enc16(h.entries) + enc16(h.max) + enc16(h.depth) + enc32(h.generation)
}

/// The header stored at byte `off`.
pub open spec fn header_at(b: Seq<u8>, off: int) -> ExtentHeader {
    ExtentHeader {
        magic: le16(b, off),
        entries: le16(b, off + 2),
        max: le16(b, off + 4),
        depth: le16(b, off + 6),
        generation: le32(b, off + 8),
    }
}

impl ExtentHeader {
    /// An empty in-inode root.
    pub fn new_root() -> (r: Self)
        ensures
            r == (ExtentHeader { magic: EXTENT_MAGIC, entries: 0, max: EXTENT_ROOT_MAX_ENTRIES, depth: 0, generation: 0 }),
    {
        ExtentHeader { magic: EXTENT_MAGIC, entries: 0, max: EXTENT_ROOT_MAX_ENTRIES, depth: 0, generation: 0 }
    }

    /// An empty leaf block.
    pub fn new_leaf(block_size: u32) -> (r: Self)
        requires
            block_size >= 12,
        ensures
            r == (ExtentHeader { magic: EXTENT_MAGIC, entries: 0, max: ((block_size - 12) / 12) as u16, depth: 0, generation: 0 }),
    {
        ExtentHeader { magic: EXTENT_MAGIC, entries: 0, max: extent_entries_per_block(block_size), depth: 0, generation: 0 }
    }

    /// An empty index block at `depth`.
    pub fn new_index(block_size: u32, depth: u16) -> (r: Self)
        requires
            block_size >= 12,
        ensures
            r == (ExtentHeader { magic: EXTENT_MAGIC, entries: 0, max: ((block_size - 12) / 12) as u16, depth, generation: 0 }),
    {
        ExtentHeader { magic: EXTENT_MAGIC, entries: 0, max: extent_entries_per_block(block_size), depth, generation: 0 }
    }

    pub fn is_leaf(&self) -> (r: bool)
        ensures
            r == (self.depth == 0),
    {
        self.depth == 0
    }

    pub fn is_full(&self) -> (r: bool)
        ensures
            r == (self.entries >= self.max),
    {
        self.entries >= self.max
    }

    /// The 12-byte encoding.
    pub fn serialize(&self) -> (r: Vec<u8>)
        ensures
            r@ == header_bytes(*self),
    {
        let mut buf: Vec<u8> = Vec::new();
        push_u16(&mut buf, self.magic);
        push_u16(&mut buf, self.entries);
        push_u16(&mut buf, self.max);
        push_u16(&mut buf, self.depth);
        push_u32(&mut buf, self.generation);
        buf
    }

    /// Decode the first 12 bytes; `BadMagic` unless they start with the magic.
    pub fn deserialize(buf: &[u8]) -> (r: Result<Self, VolumeError>)
        requires
            buf@.len() >= 12,
        ensures
            le16(buf@, 0) == EXTENT_MAGIC ==> r == Ok::<Self, VolumeError>(header_at(buf@, 0)),
            le16(buf@, 0) != EXTENT_MAGIC ==> r == Err::<Self, VolumeError>(VolumeError::BadMagic),
    {
        let magic = get_u16(buf, 0);
        if magic != EXTENT_MAGIC {
            return Err(VolumeError::BadMagic);
        }
        Ok(ExtentHeader {
            magic,
            entries: get_u16(buf, 2),
            max: get_u16(buf, 4),
            depth: get_u16(buf, 6),
            generation: get_u32(buf, 8),
        })
    }
}

/// A leaf entry: `block_count` logical blocks from `ee_block` mapped to as
/// many physical blocks from a 48-bit start. Bit 15 of `ee_len` marks a
/// preallocated, uninitialized extent.
#[derive(Debug, Clone, Copy, PartialEq, Eq, Structural)]
pub struct ExtentLeaf {
    pub ee_block: u32,
    pub ee_len: u16,
    pub ee_start_hi: u16,
    pub ee_start_lo: u32,
}

pub open spec fn leaf_physical(l: ExtentLeaf) -> int {
    l.ee_start_hi * 0x1_0000_0000 + l.ee_start_lo
}

pub open spec fn leaf_count(l: ExtentLeaf) -> int {
    (l.ee_len % 0x8000) as int
}

pub open spec fn leaf_uninit(l: ExtentLeaf) -> bool {
    l.ee_len >= 0x8000
}

pub open spec fn leaf_bytes(l: ExtentLeaf) -> Seq<u8> {
    enc32(l.ee_block) + enc16(l.ee_len) + enc16(l.ee_start_hi) + enc32(l.ee_start_lo)
}

pub open spec fn leaf_at(b: Seq<u8>, off: int) -> ExtentLeaf {
    ExtentLeaf { ee_block: le32(b, off), ee_len: le16(b, off + 4), ee_start_hi: le16(b, off + 6), ee_start_lo: le32(b, off + 8) }
}

proof fn lemma_split48(p: u64)
    ensures
        ((p >> 32) as u16) * 0x1_0000_0000 + (p as u32) == p % 0x1_0000_0000_0000,
{
    let hi = (p >> 32) as u16;
    let lo = p as u32;
    assert((hi as u64) * 0x1_0000_0000u64 + (lo as u64) == p % 0x1_0000_0000_0000) by (bit_vector)
        requires
            hi == (p >> 32) as u16,
            lo == p as u32,
    ;
}

proof fn lemma_join48(hi: u16, lo: u32)
    ensures
        ((hi as u64) << 32) | (lo as u64) == hi * 0x1_0000_0000 + lo,
{
    assert(((hi as u64) << 32) | (lo as u64) == (hi as u64) * 0x1_0000_0000u64 + (lo as u64)) by (bit_vector);
}

impl ExtentLeaf {
    /// An initialized extent of `length` (1..=32767) blocks.
    pub fn new(logical_block: u32, physical_block: u64, length: u16) -> (r: Self)
        requires
            0 < length <= EXTENT_MAX_LEN_INIT,
        ensures
            r.ee_block == logical_block,
            r.ee_len == length,
            leaf_count(r) == length,
            !leaf_uninit(r),
            leaf_physical(r) == physical_block % 0x1_0000_0000_0000,
    {
        proof {
            lemma_split48(physical_block);
        }
        ExtentLeaf {
            ee_block: logical_block,
            ee_len: length,
            ee_start_hi: (physical_block >> 32) as u16,
            ee_start_lo: physical_block as u32,
        }
    }

    /// A preallocated, uninitialized extent of `length` (1..=32767) blocks.
    pub fn new_uninit(logical_block: u32, physical_block: u64, length: u16) -> (r: Self)
        requires
            0 < length <= EXTENT_MAX_LEN_INIT,
        ensures
            r.ee_block == logical_block,
            r.ee_len == length + 0x8000,
            leaf_count(r) == length,
            leaf_uninit(r),
            leaf_physical(r) == physical_block % 0x1_0000_0000_0000,
    {
        proof {
            lemma_split48(physical_block);
        }
        assert(length | 0x8000u16 == length + 0x8000) by (bit_vector)
            requires
                length < 0x8000,
        ;
        ExtentLeaf {
            ee_block: logical_block,
            ee_len: length | EXTENT_UNINIT_FLAG,
            ee_start_hi: (physical_block >> 32) as u16,
            ee_start_lo: physical_block as u32,
        }
    }

    /// The 48-bit physical start block.
    pub fn physical_block(&self) -> (r: u64)
        ensures
            r == leaf_physical(*self),
    {
        proof {
            lemma_join48(self.ee_start_hi, self.ee_start_lo);
        }
        ((self.ee_start_hi as u64) << 32) | (self.ee_start_lo as u64)
    }

    /// Set the physical start block (its low 48 bits).
    pub fn set_physical_block(&mut self, phys: u64)
        ensures
            final(self).ee_block == old(self).ee_block,
            final(self).ee_len == old(self).ee_len,
            leaf_physical(*final(self)) == phys % 0x1_0000_0000_0000,
    {
        proof {
            lemma_split48(phys);
        }
        self.ee_start_hi = (phys >> 32) as u16;
        self.ee_start_lo = phys as u32;
    }

    pub fn is_uninitialized(&self) -> (r: bool)
        ensures
            r == leaf_uninit(*self),
    {
        let l = self.ee_len;
        assert((l & 0x8000u16 != 0) == (l >= 0x8000)) by (bit_vector);
        self.ee_len & EXTENT_UNINIT_FLAG != 0
    }

    /// Blocks in the extent (the flag bit masked off).
    pub fn block_count(&self) -> (r: u32)
        ensures
            r == leaf_count(*self),
    {
        let l = self.ee_len;
        assert(l & !0x8000u16 == l % 0x8000) by (bit_vector);
        (self.ee_len & !EXTENT_UNINIT_FLAG) as u32
    }

    /// First logical block after the extent.
    pub fn logical_end(&self) -> (r: u32)
        requires
            self.ee_block + leaf_count(*self) <= u32::MAX,
        ensures
            r == self.ee_block + leaf_count(*self),
    {
        self.ee_block + self.block_count()
    }

    /// Physical block after the extent's last block.
    pub fn physical_end(&self) -> (r: u64)
        ensures
            r == leaf_physical(*self) + leaf_count(*self),
    {
        self.physical_block() + self.block_count() as u64
    }

    /// Whether the extent covers `logical_block`.
    pub fn contains(&self, logical_block: u32) -> (r: bool)
        requires
            self.ee_block + leaf_count(*self) <= u32::MAX,
        ensures
            r == (self.ee_block <= logical_block < self.ee_block + leaf_count(*self)),
    {
        logical_block >= self.ee_block && logical_block < self.logical_end()
    }

    /// The physical block of `logical_block`, if the extent covers it.
    pub fn map(&self, logical_block: u32) -> (r: Option<u64>)
        requires
            self.ee_block + leaf_count(*self) <= u32::MAX,
        ensures
            r == if self.ee_block <= logical_block < self.ee_block + leaf_count(*self) {
                Some((leaf_physical(*self) + (logical_block - self.ee_block)) as u64)
            } else {
                None::<u64>
            },
    {
        if self.contains(logical_block) {
            let offset = (logical_block - self.ee_block) as u64;
            Some(self.physical_block() + offset)
        } else {
            None
        }
    }

    /// Whether `right` continues this extent logically and physically, with
    /// the same initialization state, and the union stays within 32767 blocks.
    pub fn can_merge_right(&self, right: &ExtentLeaf) -> (r: bool)
        requires
            self.ee_block + leaf_count(*self) <= u32::MAX,
        ensures
            r == (self.ee_block + leaf_count(*self) == right.ee_block && leaf_physical(*self) + leaf_count(*self)
                == leaf_physical(*right) && leaf_uninit(*self) == leaf_uninit(*right) && leaf_count(*self)
                + leaf_count(*right) <= EXTENT_MAX_LEN_INIT),
    {
        self.logical_end() == right.ee_block && self.physical_end() == right.physical_block()
            && self.is_uninitialized() == right.is_uninitialized() && (self.block_count() + right.block_count())
            <= EXTENT_MAX_LEN_INIT as u32
    }

    /// The 12-byte encoding.
    pub fn serialize(&self) -> (r: Vec<u8>)
        ensures
            r@ == leaf_bytes(*self),
    {
        let mut buf: Vec<u8> = Vec::new();
        push_u32(&mut buf, self.ee_block);
        push_u16(&mut buf, self.ee_len);
        push_u16(&mut buf, self.ee_start_hi);
        push_u32(&mut buf, self.ee_start_lo);
        buf
    }

    /// Decode the first 12 bytes.
    pub fn deserialize(buf: &[u8]) -> (r: Self)
        requires
            buf@.len() >= 12,
        ensures
            r == leaf_at(buf@, 0),
    {
        ExtentLeaf {
            ee_block: get_u32(buf, 0),
            ee_len: get_u16(buf, 4),
            ee_start_hi: get_u16(buf, 6),
            ee_start_lo: get_u32(buf, 8),
        }
    }
}

/// An index entry: the child node for logical blocks from `ei_block`.
#[derive(Debug, Clone, Copy, PartialEq, Eq, Structural)]
pub struct ExtentIndex {
    pub ei_block: u32,
    pub ei_leaf_lo: u32,
    pub ei_leaf_hi: u16,
    pub ei_unused: u16,
}

pub open spec fn index_child(x: ExtentIndex) -> int {
    x.ei_leaf_hi * 0x1_0000_0000 + x.ei_leaf_lo
}

pub open spec fn index_bytes(x: ExtentIndex) -> Seq<u8> {
    enc32(x.ei_block) + enc32(x.ei_leaf_lo) + enc16(x.ei_leaf_hi) + enc16(x.ei_unused)
}

pub open spec fn index_at(b: Seq<u8>, off: int) -> ExtentIndex {
    ExtentIndex { ei_block: le32(b, off), ei_leaf_lo: le32(b, off + 4), ei_leaf_hi: le16(b, off + 8), ei_unused: le16(b, off + 10) }
}

impl ExtentIndex {
    pub fn new(logical_block: u32, child_physical: u64) -> (r: Self)
        ensures
            r.ei_block == logical_block,
            r.ei_unused == 0,
            index_child(r) == child_physical % 0x1_0000_0000_0000,
    {
        proof {
            lemma_split48(child_physical);
        }
        ExtentIndex {
            ei_block: logical_block,
            ei_leaf_lo: child_physical as u32,
            ei_leaf_hi: (child_physical >> 32) as u16,
            ei_unused: 0,
        }
    }

    /// The 48-bit physical block of the child node.
    pub fn child_block(&self) -> (r: u64)
        ensures
            r == index_child(*self),
    {
        proof {
            lemma_join48(self.ei_leaf_hi, self.ei_leaf_lo);
        }
        ((self.ei_leaf_hi as u64) << 32) | (self.ei_leaf_lo as u64)
    }

    /// Set the child block (its low 48 bits).
    pub fn set_child_block(&mut self, phys: u64)
        ensures
            final(self).ei_block == old(self).ei_block,
            final(self).ei_unused == old(self).ei_unused,
            index_child(*final(self)) == phys % 0x1_0000_0000_0000,
    {
        proof {
            lemma_split48(phys);
        }
        self.ei_leaf_lo = phys as u32;
        self.ei_leaf_hi = (phys >> 32) as u16;
    }

    /// The 12-byte encoding.
    pub fn serialize(&self) -> (r: Vec<u8>)
        ensures
            r@ == index_bytes(*self),
    {
        let mut buf: Vec<u8> = Vec::new();
        push_u32(&mut buf, self.ei_block);
        push_u32(&mut buf, self.ei_leaf_lo);
        push_u16(&mut buf, self.ei_leaf_hi);
        push_u16(&mut buf, self.ei_unused);
        buf
    }

    /// Decode the first 12 bytes.
    pub fn deserialize(buf: &[u8]) -> (r: Self)
        requires
            buf@.len() >= 12,
        ensures
            r == index_at(buf@, 0),
    {
        ExtentIndex {
            ei_block: get_u32(buf, 0),
            ei_leaf_lo: get_u32(buf, 4),
            ei_leaf_hi: get_u16(buf, 8),
            ei_unused: get_u16(buf, 10),
        }
    }
}

/// The entries of an extent node: leaves at depth 0, index entries above.
#[derive(Debug, Clone)]
pub enum ExtentEntries {
    Leaves(Vec<ExtentLeaf>),
    Indices(Vec<ExtentIndex>),
}

/// Encodings of the leaves, one after another.
pub open spec fn leaves_bytes(ls: Seq<ExtentLeaf>) -> Seq<u8>
    decreases ls.len(),
{
    if ls.len() == 0 {
        Seq::empty()
    } else {
        leaves_bytes(ls.drop_last()) + leaf_bytes(ls.last())
    }
}

/// Encodings of the index entries, one after another.
pub open spec fn indices_bytes(xs: Seq<ExtentIndex>) -> Seq<u8>
    decreases xs.len(),
{
    if xs.len() == 0 {
        Seq::empty()
    } else {
        indices_bytes(xs.drop_last()) + index_bytes(xs.last())
    }
}

pub open spec fn entries_bytes(e: ExtentEntries) -> Seq<u8> {
    match e {
        ExtentEntries::Leaves(ls) => leaves_bytes(ls@),
        ExtentEntries::Indices(xs) => indices_bytes(xs@),
    }
}

pub open spec fn entries_len(e: ExtentEntries) -> int {
    match e {
        ExtentEntries::Leaves(ls) => ls@.len() as int,
        ExtentEntries::Indices(xs) => xs@.len() as int,
    }
}

/// `n` leaves stored from byte `off`, 12 bytes each.
pub open spec fn leaves_at(b: Seq<u8>, off: int, n: int) -> Seq<ExtentLeaf> {
    Seq::new(n as nat, |i: int| leaf_at(b, off + 12 * i))
}

/// `n` index entries stored from byte `off`, 12 bytes each.
pub open spec fn indices_at(b: Seq<u8>, off: int, n: int) -> Seq<ExtentIndex> {
    Seq::new(n as nat, |i: int| index_at(b, off + 12 * i))
}

/// The entries a node with header `h` holds, decoded from byte 12 of `b`.
pub open spec fn entries_match(e: ExtentEntries, h: ExtentHeader, b: Seq<u8>) -> bool {
    if h.depth == 0 {
        e matches ExtentEntries::Leaves(ls) && ls@ == leaves_at(b, 12, h.entries as int)
    } else {
        e matches ExtentEntries::Indices(xs) && xs@ == indices_at(b, 12, h.entries as int)
    }
}

proof fn lemma_leaf_roundtrip(l: ExtentLeaf)
    ensures
        leaf_bytes(l).len() == 12,
        forall|b: Seq<u8>, off: int|
            0 <= off && off + 12 <= b.len() && #[trigger] b.subrange(off, off + 12) == leaf_bytes(l) ==> #[trigger] leaf_at(b, off) == l,
{
    lemma_codec_roundtrip();
    assert forall|b: Seq<u8>, off: int|
        0 <= off && off + 12 <= b.len() && #[trigger] b.subrange(off, off + 12) == leaf_bytes(l) implies #[trigger] leaf_at(b, off) == l by {
        let e = leaf_bytes(l);
        assert(b.subrange(off, off + 4) =~= e.subrange(0, 4));
        assert(e.subrange(0, 4) =~= enc32(l.ee_block));
        assert(b.subrange(off + 4, off + 6) =~= e.subrange(4, 6));
        assert(e.subrange(4, 6) =~= enc16(l.ee_len));
        assert(b.subrange(off + 6, off + 8) =~= e.subrange(6, 8));
        assert(e.subrange(6, 8) =~= enc16(l.ee_start_hi));
        assert(b.subrange(off + 8, off + 12) =~= e.subrange(8, 12));
        assert(e.subrange(8, 12) =~= enc32(l.ee_start_lo));
    }
}

proof fn lemma_index_roundtrip(x: ExtentIndex)
    ensures
        index_bytes(x).len() == 12,
        forall|b: Seq<u8>, off: int|
            0 <= off && off + 12 <= b.len() && #[trigger] b.subrange(off, off + 12) == index_bytes(x) ==> #[trigger] index_at(b, off) == x,
{
    lemma_codec_roundtrip();
    assert forall|b: Seq<u8>, off: int|
        0 <= off && off + 12 <= b.len() && #[trigger] b.subrange(off, off + 12) == index_bytes(x) implies #[trigger] index_at(b, off) == x by {
        let e = index_bytes(x);
        assert(b.subrange(off, off + 4) =~= e.subrange(0, 4));
        assert(e.subrange(0, 4) =~= enc32(x.ei_block));
        assert(b.subrange(off + 4, off + 8) =~= e.subrange(4, 8));
        assert(e.subrange(4, 8) =~= enc32(x.ei_leaf_lo));
        assert(b.subrange(off + 8, off + 10) =~= e.subrange(8, 10));
        assert(e.subrange(8, 10) =~= enc16(x.ei_leaf_hi));
        assert(b.subrange(off + 10, off + 12) =~= e.subrange(10, 12));
        assert(e.subrange(10, 12) =~= enc16(x.ei_unused));
    }
}

proof fn lemma_header_roundtrip(h: ExtentHeader, b: Seq<u8>)
    requires
        12 <= b.len(),
        b.subrange(0, 12) == header_bytes(h),
    ensures
        header_at(b, 0) == h,
{
    lemma_codec_roundtrip();
    let e = header_bytes(h);
    assert(b.subrange(0, 2) =~= e.subrange(0, 2));
    assert(e.subrange(0, 2) =~= enc16(h.magic));
    assert(b.subrange(2, 4) =~= e.subrange(2, 4));
    assert(e.subrange(2, 4) =~= enc16(h.entries));
    assert(b.subrange(4, 6) =~= e.subrange(4, 6));
    assert(e.subrange(4, 6) =~= enc16(h.max));
    assert(b.subrange(6, 8) =~= e.subrange(6, 8));
    assert(e.subrange(6, 8) =~= enc16(h.depth));
    assert(b.subrange(8, 12) =~= e.subrange(8, 12));
    assert(e.subrange(8, 12) =~= enc32(h.generation));
}

proof fn lemma_leaves_bytes(ls: Seq<ExtentLeaf>)
    ensures
        leaves_bytes(ls).len() == 12 * ls.len(),
        forall|i: int| 0 <= i < ls.len() ==> #[trigger] leaves_bytes(ls).subrange(12 * i, 12 * i + 12) == leaf_bytes(ls[i]),
    decreases ls.len(),
{
    lemma_codec_roundtrip();
    if ls.len() > 0 {
        lemma_leaves_bytes(ls.drop_last());
        let p = leaves_bytes(ls.drop_last());
        let w = leaves_bytes(ls);
        assert forall|i: int| 0 <= i < ls.len() implies #[trigger] w.subrange(12 * i, 12 * i + 12) == leaf_bytes(ls[i]) by {
            if i < ls.len() - 1 {
                assert(w.subrange(12 * i, 12 * i + 12) =~= p.subrange(12 * i, 12 * i + 12));
            } else {
                assert(w.subrange(12 * i, 12 * i + 12) =~= leaf_bytes(ls.last()));
            }
        }
    }
}

proof fn lemma_indices_bytes(xs: Seq<ExtentIndex>)
    ensures
        indices_bytes(xs).len() == 12 * xs.len(),
        forall|i: int| 0 <= i < xs.len() ==> #[trigger] indices_bytes(xs).subrange(12 * i, 12 * i + 12) == index_bytes(xs[i]),
    decreases xs.len(),
{
    lemma_codec_roundtrip();
    if xs.len() > 0 {
        lemma_indices_bytes(xs.drop_last());
        let p = indices_bytes(xs.drop_last());
        let w = indices_bytes(xs);
        assert forall|i: int| 0 <= i < xs.len() implies #[trigger] w.subrange(12 * i, 12 * i + 12) == index_bytes(xs[i]) by {
            if i < xs.len() - 1 {
                assert(w.subrange(12 * i, 12 * i + 12) =~= p.subrange(12 * i, 12 * i + 12));
            } else {
                assert(w.subrange(12 * i, 12 * i + 12) =~= index_bytes(xs.last()));
            }
        }
    }
}

/// The 96-byte area holding the extent root: the block-pointer fields, in order.
pub open spec fn root_area(i: Inode) -> Seq<u8> {
    enc64_seq(i.direct_blocks@) + enc64(i.indirect_block) + enc64(i.double_indirect)
}

/// The root area after writing header `h` and `e`, zero-padded.
pub open spec fn root_image(h: ExtentHeader, e: ExtentEntries) -> Seq<u8> {
    header_bytes(h) + entries_bytes(e) + zeros((84 - 12 * entries_len(e)) as nat)
}

/// An extent root written with a header that counts its entries and whose
/// depth agrees with their kind reads back as the same header and entries.
pub proof fn lemma_root_roundtrip(h: ExtentHeader, e: ExtentEntries)
    requires
        h.entries == entries_len(e),
        entries_len(e) <= 7,
        (h.depth == 0) == (e is Leaves),
    ensures
        root_image(h, e).len() == 96,
        header_at(root_image(h, e), 0) == h,
        entries_match(e, h, root_image(h, e)),
{
    lemma_codec_roundtrip();
    let b = root_image(h, e);
    assert(header_bytes(h).len() == 12);
    match e {
        ExtentEntries::Leaves(ls) => {
            lemma_leaves_bytes(ls@);
            assert(b.subrange(0, 12) =~= header_bytes(h));
            lemma_header_roundtrip(h, b);
            assert forall|i: int| 0 <= i < ls@.len() implies leaf_at(b, 12 + 12 * i) == ls@[i] by {
                lemma_leaf_roundtrip(ls@[i]);
                assert(b.subrange(12 + 12 * i, 12 + 12 * i + 12) =~= leaves_bytes(ls@).subrange(12 * i, 12 * i + 12));
            }
            assert(ls@ =~= leaves_at(b, 12, h.entries as int));
        },
        ExtentEntries::Indices(xs) => {
            lemma_indices_bytes(xs@);
            assert(b.subrange(0, 12) =~= header_bytes(h));
            lemma_header_roundtrip(h, b);
            assert forall|i: int| 0 <= i < xs@.len() implies index_at(b, 12 + 12 * i) == xs@[i] by {
                lemma_index_roundtrip(xs@[i]);
                assert(b.subrange(12 + 12 * i, 12 + 12 * i + 12) =~= indices_bytes(xs@).subrange(12 * i, 12 * i + 12));
            }
            assert(xs@ =~= indices_at(b, 12, h.entries as int));
        },
    }
}

/// A node of `size` bytes: header, entries, then zeros.
pub open spec fn node_image(h: ExtentHeader, e: ExtentEntries, size: int) -> Seq<u8> {
    header_bytes(h) + entries_bytes(e) + zeros((size - 12 - 12 * entries_len(e)) as nat)
}

/// A node of `size` bytes written with a header that counts its entries and
/// whose depth agrees with their kind reads back as the same header and entries.
pub proof fn lemma_node_roundtrip(h: ExtentHeader, e: ExtentEntries, size: int)
    requires
        h.entries == entries_len(e),
        12 + 12 * entries_len(e) <= size,
        (h.depth == 0) == (e is Leaves),
    ensures
        node_image(h, e, size).len() == size,
        header_at(node_image(h, e, size), 0) == h,
        entries_match(e, h, node_image(h, e, size)),
{
    lemma_codec_roundtrip();
    let b = node_image(h, e, size);
    assert(header_bytes(h).len() == 12);
    match e {
        ExtentEntries::Leaves(ls) => {
            lemma_leaves_bytes(ls@);
            assert(b.subrange(0, 12) =~= header_bytes(h));
            lemma_header_roundtrip(h, b);
            assert forall|i: int| 0 <= i < ls@.len() implies leaf_at(b, 12 + 12 * i) == ls@[i] by {
                lemma_leaf_roundtrip(ls@[i]);
                assert(b.subrange(12 + 12 * i, 12 + 12 * i + 12) =~= leaves_bytes(ls@).subrange(12 * i, 12 * i + 12));
            }
            assert(ls@ =~= leaves_at(b, 12, h.entries as int));
        },
        ExtentEntries::Indices(xs) => {
            lemma_indices_bytes(xs@);
            assert(b.subrange(0, 12) =~= header_bytes(h));
            lemma_header_roundtrip(h, b);
            assert forall|i: int| 0 <= i < xs@.len() implies index_at(b, 12 + 12 * i) == xs@[i] by {
                lemma_index_roundtrip(xs@[i]);
                assert(b.subrange(12 + 12 * i, 12 + 12 * i + 12) =~= indices_bytes(xs@).subrange(12 * i, 12 * i + 12));
            }
            assert(xs@ =~= indices_at(b, 12, h.entries as int));
        },
    }
}

/// The 96 bytes of an inode's block-pointer area.
pub fn inode_extent_raw_bytes(inode: &Inode) -> (r: Vec<u8>)
    ensures
        r@ == root_area(*inode),
{
    let mut buf: Vec<u8> = Vec::new();
    push_u64_seq(&mut buf, inode.direct_blocks.as_slice());
    push_u64(&mut buf, inode.indirect_block);
    push_u64(&mut buf, inode.double_indirect);
    buf
}

/// Store 96 bytes into an inode's block-pointer fields.
pub fn write_raw_bytes_to_inode(inode: &mut Inode, buf: &[u8])
    requires
        buf@.len() >= 96,
    ensures
        root_area(*final(inode)) == buf@.subrange(0, 96),
        *final(inode) == (Inode {
            direct_blocks: final(inode).direct_blocks,
            indirect_block: final(inode).indirect_block,
            double_indirect: final(inode).double_indirect,
            ..*old(inode)
        }),
{
    let n = buf.len();
    let mut k: usize = 0;
    while k < 10
        invariant
            n == buf@.len(),
            n >= 96,
            k <= 10,
            forall|j: int| 0 <= j < k ==> inode.direct_blocks@[j] == le64(buf@, 8 * j),
            *inode == (Inode { direct_blocks: inode.direct_blocks, ..*old(inode) }),
        decreases 10 - k,
    {
        inode.direct_blocks[k] = get_u64(buf, 8 * k);
        k = k + 1;
    }
    inode.indirect_block = get_u64(buf, 80);
    inode.double_indirect = get_u64(buf, 88);
    proof {
        lemma_auto_spec_u64_to_from_le_bytes();
        lemma_enc64_seq_len(inode.direct_blocks@);
        let a = root_area(*inode);
        let s = buf@.subrange(0, 96);
        assert forall|q: int| 0 <= q < 96 implies a[q] == s[q] by {
            if q < 80 {
                let j = q / 8;
                crate::codec::lemma_enc64_seq_index(inode.direct_blocks@, j);
                assert(a.subrange(8 * j, 8 * j + 8) =~= enc64_seq(inode.direct_blocks@).subrange(8 * j, 8 * j + 8));
                assert(spec_u64_to_le_bytes(spec_u64_from_le_bytes(buf@.subrange(8 * j, 8 * j + 8))) == buf@.subrange(8 * j, 8 * j + 8));
                assert(a.subrange(8 * j, 8 * j + 8)[q - 8 * j] == a[q]);
            } else if q < 88 {
                assert(a.subrange(80, 88) =~= enc64(inode.indirect_block));
                assert(spec_u64_to_le_bytes(spec_u64_from_le_bytes(buf@.subrange(80, 88))) == buf@.subrange(80, 88));
                assert(a.subrange(80, 88)[q - 80] == a[q]);
            } else {
                assert(a.subrange(88, 96) =~= enc64(inode.double_indirect));
                assert(spec_u64_to_le_bytes(spec_u64_from_le_bytes(buf@.subrange(88, 96))) == buf@.subrange(88, 96));
                assert(a.subrange(88, 96)[q - 88] == a[q]);
            }
        }
        assert(a =~= s);
    }
}

proof fn lemma_leaf_at_sub(b: Seq<u8>, off: int)
    requires
        0 <= off,
        off + 12 <= b.len(),
    ensures
        leaf_at(b.subrange(off, off + 12), 0) == leaf_at(b, off),
        index_at(b.subrange(off, off + 12), 0) == index_at(b, off),
{
    let s = b.subrange(off, off + 12);
    assert(s.subrange(0, 4) =~= b.subrange(off, off + 4));
    assert(s.subrange(4, 6) =~= b.subrange(off + 4, off + 6));
    assert(s.subrange(6, 8) =~= b.subrange(off + 6, off + 8));
    assert(s.subrange(8, 12) =~= b.subrange(off + 8, off + 12));
    assert(s.subrange(4, 8) =~= b.subrange(off + 4, off + 8));
    assert(s.subrange(8, 10) =~= b.subrange(off + 8, off + 10));
    assert(s.subrange(10, 12) =~= b.subrange(off + 10, off + 12));
}

/// Decode a node's entries: `n` records from byte 12 of `buf`, leaves at
/// depth 0 and index entries above.
fn decode_entries(buf: &[u8], depth: u16, n: u16) -> (r: ExtentEntries)
    requires
        12 + 12 * n <= buf@.len(),
    ensures
        entries_match(r, ExtentHeader { magic: 0, entries: n, max: 0, depth, generation: 0 }, buf@),
{
    let len = buf.len();
    if depth == 0 {
        let mut leaves: Vec<ExtentLeaf> = Vec::new();
        let mut i: usize = 0;
        while i < n as usize
            invariant
                len == buf@.len(),
                12 + 12 * n <= len,
                i <= n,
                leaves@ == leaves_at(buf@, 12, i as int),
            decreases n - i,
        {
            let off = 12 + 12 * i;
            proof {
                lemma_leaf_at_sub(buf@, off as int);
            }
            leaves.push(ExtentLeaf::deserialize(slice_subrange(buf, off, off + 12)));
            i = i + 1;
            assert(leaves@ =~= leaves_at(buf@, 12, i as int));
        }
        ExtentEntries::Leaves(leaves)
    } else {
        let mut indices: Vec<ExtentIndex> = Vec::new();
        let mut i: usize = 0;
        while i < n as usize
            invariant
                len == buf@.len(),
                12 + 12 * n <= len,
                i <= n,
                indices@ == indices_at(buf@, 12, i as int),
            decreases n - i,
        {
            let off = 12 + 12 * i;
            proof {
                lemma_leaf_at_sub(buf@, off as int);
            }
            indices.push(ExtentIndex::deserialize(slice_subrange(buf, off, off + 12)));
            i = i + 1;
            assert(indices@ =~= indices_at(buf@, 12, i as int));
        }
        ExtentEntries::Indices(indices)
    }
}

/// Encode a header and entries into a buffer of `size` bytes, zero-padded.
fn encode_node(header: &ExtentHeader, entries: &ExtentEntries, size: usize) -> (r: Vec<u8>)
    requires
        12 + 12 * entries_len(*entries) <= size,
    ensures
        r@ == header_bytes(*header) + entries_bytes(*entries) + zeros((size - 12 - 12 * entries_len(*entries)) as nat),
{
    proof {
        lemma_codec_roundtrip();
    }
    let mut buf = header.serialize();
    match entries {
        ExtentEntries::Leaves(leaves) => {
            proof {
                lemma_leaves_bytes(leaves@);
            }
            let mut i: usize = 0;
            while i < leaves.len()
                invariant
                    i <= leaves@.len(),
                    buf@ == header_bytes(*header) + leaves_bytes(leaves@.subrange(0, i as int)),
                decreases leaves@.len() - i,
            {
                let b = leaves[i].serialize();
                push_bytes(&mut buf, b.as_slice());
                proof {
                    assert(leaves@.subrange(0, i + 1).drop_last() =~= leaves@.subrange(0, i as int));
                }
                i = i + 1;
            }
            assert(leaves@.subrange(0, leaves@.len() as int) =~= leaves@);
        },
        ExtentEntries::Indices(indices) => {
            proof {
                lemma_indices_bytes(indices@);
            }
            let mut i: usize = 0;
            while i < indices.len()
                invariant
                    i <= indices@.len(),
                    buf@ == header_bytes(*header) + indices_bytes(indices@.subrange(0, i as int)),
                decreases indices@.len() - i,
            {
                let b = indices[i].serialize();
                push_bytes(&mut buf, b.as_slice());
                proof {
                    assert(indices@.subrange(0, i + 1).drop_last() =~= indices@.subrange(0, i as int));
                }
                i = i + 1;
            }
            assert(indices@.subrange(0, indices@.len() as int) =~= indices@);
        },
    }
    let n = match entries {
        ExtentEntries::Leaves(leaves) => leaves.len(),
        ExtentEntries::Indices(indices) => indices.len(),
    };
    push_zeros(&mut buf, size - 12 - 12 * n);
    buf
}

/// Read the extent root from an inode's block-pointer area; `BadMagic` when
/// the area does not start with an extent header, `Invalid` when the header
/// counts more entries than the area holds.
pub fn read_inode_extent_root(inode: &Inode) -> (r: Result<(ExtentHeader, ExtentEntries), VolumeError>)
    ensures
        le16(root_area(*inode), 0) != EXTENT_MAGIC ==> r == Err::<(ExtentHeader, ExtentEntries), VolumeError>(VolumeError::BadMagic),
        le16(root_area(*inode), 0) == EXTENT_MAGIC && le16(root_area(*inode), 2) > EXTENT_ROOT_MAX_ENTRIES ==> r == Err::<
            (ExtentHeader, ExtentEntries),
            VolumeError,
        >(VolumeError::Invalid),
        le16(root_area(*inode), 0) == EXTENT_MAGIC && le16(root_area(*inode), 2) <= EXTENT_ROOT_MAX_ENTRIES ==> (r matches Ok((h, e))
            && h == header_at(root_area(*inode), 0) && entries_match(e, h, root_area(*inode))),
{
    let buf = inode_extent_raw_bytes(inode);
    proof {
        lemma_codec_roundtrip();
        lemma_enc64_seq_len(inode.direct_blocks@);
    }
    let header = ExtentHeader::deserialize(buf.as_slice())?;
    if header.entries > EXTENT_ROOT_MAX_ENTRIES {
        return Err(VolumeError::Invalid);
    }
    let entries = decode_entries(buf.as_slice(), header.depth, header.entries);
    Ok((header, entries))
}

/// Write an extent root (at most 7 entries) into an inode's block-pointer
/// area, zero-padding the rest; no other field changes.
pub fn write_inode_extent_root(inode: &mut Inode, header: &ExtentHeader, entries: &ExtentEntries)
    requires
        entries_len(*entries) <= EXTENT_ROOT_MAX_ENTRIES,
    ensures
        root_area(*final(inode)) == root_image(*header, *entries),
        *final(inode) == (Inode {
            direct_blocks: final(inode).direct_blocks,
            indirect_block: final(inode).indirect_block,
            double_indirect: final(inode).double_indirect,
            ..*old(inode)
        }),
{
    let buf = encode_node(header, entries, EXTENT_ROOT_SIZE);
    proof {
        lemma_codec_roundtrip();
        match entries {
            ExtentEntries::Leaves(ls) => lemma_leaves_bytes(ls@),
            ExtentEntries::Indices(xs) => lemma_indices_bytes(xs@),
        }
        assert(buf@.subrange(0, 96) =~= buf@);
    }
    write_raw_bytes_to_inode(inode, buf.as_slice());
}

/// Put an empty extent root in an inode and set its extents flag.
pub fn init_inode_extent_root(inode: &mut Inode)
    ensures
        root_area(*final(inode)) == header_bytes(
            ExtentHeader { magic: EXTENT_MAGIC, entries: 0, max: EXTENT_ROOT_MAX_ENTRIES, depth: 0, generation: 0 },
        ) + zeros(84),
        *final(inode) == (Inode {
            direct_blocks: final(inode).direct_blocks,
            indirect_block: final(inode).indirect_block,
            double_indirect: final(inode).double_indirect,
            flags: old(inode).flags | INODE_FLAG_EXTENTS,
            ..*old(inode)
        }),
{
    let header = ExtentHeader::new_root();
    let entries = ExtentEntries::Leaves(Vec::new());
    write_inode_extent_root(inode, &header, &entries);
    proof {
        if let ExtentEntries::Leaves(ls) = entries {
            assert(ls@.len() == 0);
            assert(leaves_bytes(ls@) =~= Seq::<u8>::empty());
        }
        assert(root_image(header, entries) =~= header_bytes(header) + zeros(84));
    }
    inode.flags = inode.flags | INODE_FLAG_EXTENTS;
}

/// Entries `[0, lo)` start at or before `logical`, entries from `lo` after it.
pub open spec fn splits_at(starts: Seq<u32>, logical: u32, lo: int) -> bool {
    &&& 0 <= lo <= starts.len()
    &&& forall|j: int| 0 <= j < lo ==> #[trigger] starts[j] <= logical
    &&& forall|j: int| lo <= j < starts.len() ==> #[trigger] starts[j] > logical
}

pub open spec fn leaf_starts(ls: Seq<ExtentLeaf>) -> Seq<u32> {
    ls.map_values(|l: ExtentLeaf| l.ee_block)
}

pub open spec fn index_starts(xs: Seq<ExtentIndex>) -> Seq<u32> {
    xs.map_values(|x: ExtentIndex| x.ei_block)
}

pub open spec fn sorted_starts(s: Seq<u32>) -> bool {
    forall|i: int, j: int| 0 <= i < j < s.len() ==> s[i] <= s[j]
}

pub open spec fn leaf_covers(l: ExtentLeaf, logical: u32) -> bool {
    l.ee_block <= logical < l.ee_block + leaf_count(l)
}

/// Binary search over start blocks: the number of entries that start at or
/// before `logical`.
fn upper_bound(starts: &Vec<u32>, logical: u32) -> (lo: usize)
    ensures
        lo <= starts@.len(),
        sorted_starts(starts@) ==> splits_at(starts@, logical, lo as int),
{
    let mut lo: usize = 0;
    let mut hi: usize = starts.len();
    while lo < hi
        invariant
            0 <= lo <= hi <= starts@.len(),
            sorted_starts(starts@) ==> forall|j: int| 0 <= j < lo ==> #[trigger] starts@[j] <= logical,
            sorted_starts(starts@) ==> forall|j: int| hi <= j < starts@.len() ==> #[trigger] starts@[j] > logical,
        decreases hi - lo,
    {
        let mid = lo + (hi - lo) / 2;
        if starts[mid] <= logical {
            lo = mid + 1;
        } else {
            hi = mid;
        }
    }
    lo
}

/// Find the leaf covering `logical_block` in leaves sorted by start block.
/// `(true, i)`: leaf `i` covers it. `(false, i)`: it lies in a hole and `i`
/// is where an extent for it would be inserted.
pub fn bsearch_leaf(leaves: &[ExtentLeaf], logical_block: u32) -> (r: (bool, usize))
    requires
        forall|i: int| 0 <= i < leaves@.len() ==> #[trigger] leaves@[i].ee_block + leaf_count(leaves@[i]) <= u32::MAX,
    ensures
        r.1 <= leaves@.len(),
        r.0 ==> r.1 < leaves@.len() && leaf_covers(leaves@[r.1 as int], logical_block),
        !r.0 ==> (r.1 == 0 || !leaf_covers(leaves@[r.1 - 1], logical_block)),
        sorted_starts(leaf_starts(leaves@)) ==> (r.0 ==> splits_at(leaf_starts(leaves@), logical_block, r.1 + 1)),
        sorted_starts(leaf_starts(leaves@)) ==> (!r.0 ==> splits_at(leaf_starts(leaves@), logical_block, r.1 as int)),
{
    if leaves.len() == 0 {
        return (false, 0);
    }
    let mut starts: Vec<u32> = Vec::new();
    let mut k: usize = 0;
    while k < leaves.len()
        invariant
            k <= leaves@.len(),
            starts@ == leaf_starts(leaves@).subrange(0, k as int),
        decreases leaves@.len() - k,
    {
        starts.push(leaves[k].ee_block);
        k = k + 1;
        assert(starts@ =~= leaf_starts(leaves@).subrange(0, k as int));
    }
    assert(starts@ =~= leaf_starts(leaves@));
    let lo = upper_bound(&starts, logical_block);
    if lo == 0 {
        return (false, 0);
    }
    let idx = lo - 1;
    if leaves[idx].contains(logical_block) {
        (true, idx)
    } else {
        (false, lo)
    }
}

/// The index entry to descend into for `logical_block`: the last entry that
/// starts at or before it (entry 0 when none does).
pub fn bsearch_index(indices: &[ExtentIndex], logical_block: u32) -> (r: usize)
    ensures
        indices@.len() > 0 ==> r < indices@.len(),
        sorted_starts(index_starts(indices@)) ==> exists|lo: int|
            splits_at(index_starts(indices@), logical_block, lo) && r == (if lo == 0 { 0 } else { lo - 1 }),
{
    let mut starts: Vec<u32> = Vec::new();
    let mut k: usize = 0;
    while k < indices.len()
        invariant
            k <= indices@.len(),
            starts@ == index_starts(indices@).subrange(0, k as int),
        decreases indices@.len() - k,
    {
        starts.push(indices[k].ei_block);
        k = k + 1;
        assert(starts@ =~= index_starts(indices@).subrange(0, k as int));
    }
    assert(starts@ =~= index_starts(indices@));
    let lo = upper_bound(&starts, logical_block);
    if lo == 0 {
        0
    } else {
        lo - 1
    }
}


// ---------------------------------------------------------------------------
// Tree nodes on disk
// ---------------------------------------------------------------------------

/// Block `b` of device contents `c`.
pub open spec fn block_bytes(c: Seq<u8>, b: u64, bs: u32) -> Seq<u8> {
    c.subrange(b * bs, b * bs + bs)
}

/// Byte offset of block `b`, checked: `OutOfRange` when the block's end does
/// not fit in 64 bits.
fn node_offset(b: u64, bs: u32) -> (r: Result<u64, VolumeError>)
    ensures
        match r {
            Ok(o) => o == b * bs && b * bs + bs <= u64::MAX,
            Err(e) => e == VolumeError::OutOfRange && b * bs + bs > u64::MAX,
        },
{
    match b.checked_mul(bs as u64) {
        Some(o) => match o.checked_add(bs as u64) {
            Some(_) => Ok(o),
            None => Err(VolumeError::OutOfRange),
        },
        None => Err(VolumeError::OutOfRange),
    }
}

/// Read the tree node in block `block_addr`: `BadMagic` without the header
/// magic, `Invalid` for a depth above `EXTENT_MAX_DEPTH` or more entries
/// than the block holds.
pub fn read_extent_block<D: CFSBlockDevice>(dev: &mut D, block_addr: u64, block_size: u32) -> (r: Result<(ExtentHeader, ExtentEntries), VolumeError>)
    requires
        block_size >= 12,
    ensures
        r matches Err(e) ==> e is Device || (e == VolumeError::OutOfRange && block_addr * block_size + block_size > u64::MAX) || (block_addr * block_size + block_size <= old(dev).contents().len() && {
            let blk = block_bytes(old(dev).contents(), block_addr, block_size);
            le16(blk, 0) != EXTENT_MAGIC || le16(blk, 6) > EXTENT_MAX_DEPTH || 12 + 12 * le16(blk, 2) > block_size
        }),
        final(dev).contents() == old(dev).contents(),
        block_addr * block_size + block_size <= old(dev).contents().len() && {
            let blk = block_bytes(old(dev).contents(), block_addr, block_size);
            le16(blk, 0) != EXTENT_MAGIC || le16(blk, 6) > EXTENT_MAX_DEPTH || 12 + 12 * le16(blk, 2) > block_size
        } ==> r is Err,
        r matches Ok((h, e)) ==> {
            let blk = block_bytes(old(dev).contents(), block_addr, block_size);
            &&& block_addr * block_size + block_size <= old(dev).contents().len()
            &&& h == header_at(blk, 0)
            &&& h.magic == EXTENT_MAGIC
            &&& h.depth <= EXTENT_MAX_DEPTH
            &&& 12 + 12 * h.entries <= block_size
            &&& entries_match(e, h, blk)
        },
{
    let off = node_offset(block_addr, block_size)?;
    let buf = match dev.read(off, block_size as usize) {
        Ok(v) => v,
        Err(e) => return Err(VolumeError::Device(e)),
    };
    let header = ExtentHeader::deserialize(buf.as_slice())?;
    if header.depth > EXTENT_MAX_DEPTH {
        return Err(VolumeError::Invalid);
    }
    if 12 + 12 * (header.entries as usize) > buf.len() {
        return Err(VolumeError::Invalid);
    }
    let entries = decode_entries(buf.as_slice(), header.depth, header.entries);
    Ok((header, entries))
}

/// Write a tree node into block `block_addr`, zero-padded to a block.
pub fn write_extent_block<D: CFSBlockDevice>(
    dev: &mut D,
    block_addr: u64,
    header: &ExtentHeader,
    entries: &ExtentEntries,
    block_size: u32,
) -> (r: Result<(), VolumeError>)
    requires
        12 + 12 * entries_len(*entries) <= block_size,
    ensures
        r matches Err(e) ==> e is Device || (e == VolumeError::OutOfRange && block_addr * block_size + block_size > u64::MAX),
        r is Ok ==> {
            &&& block_addr * block_size + block_size <= old(dev).contents().len()
            &&& final(dev).contents() == written(
                old(dev).contents(),
                block_addr * block_size,
                header_bytes(*header) + entries_bytes(*entries) + zeros((block_size - 12 - 12 * entries_len(*entries)) as nat),
            )
        },
        r is Err ==> final(dev).contents() == old(dev).contents(),
{
    let off = node_offset(block_addr, block_size)?;
    let buf = encode_node(header, entries, block_size as usize);
    proof {
        lemma_codec_roundtrip();
        match entries {
            ExtentEntries::Leaves(ls) => lemma_leaves_bytes(ls@),
            ExtentEntries::Indices(xs) => lemma_indices_bytes(xs@),
        }
        assert(buf@.len() == block_size);
    }
    match dev.write(off, buf.as_slice()) {
        Ok(()) => Ok(()),
        Err(e) => Err(VolumeError::Device(e)),
    }
}

/// The root of `inode` is a single leaf node held in the inode itself.
pub open spec fn flat_root(inode: Inode) -> bool {
    let ra = root_area(inode);
    &&& le16(ra, 0) == EXTENT_MAGIC
    &&& le16(ra, 2) <= EXTENT_ROOT_MAX_ENTRIES
    &&& le16(ra, 6) == 0
}

/// The leaves of a flat root.
pub open spec fn root_leaves(inode: Inode) -> Seq<ExtentLeaf> {
    leaves_at(root_area(inode), 12, le16(root_area(inode), 2) as int)
}

/// Leaves in order of start block, none overlapping the next, none running
/// past the last logical block.
pub open spec fn disjoint_sorted(ls: Seq<ExtentLeaf>) -> bool {
    &&& forall|i: int| 0 <= i < ls.len() ==> #[trigger] ls[i].ee_block + leaf_count(ls[i]) <= u32::MAX
    &&& forall|i: int, j: int| #![trigger ls[i], ls[j]] 0 <= i < j < ls.len() ==> ls[i].ee_block + leaf_count(ls[i]) <= ls[j].ee_block
}

/// Find the extent covering `logical_block`: from the root, descend through
/// the index entry whose range holds the block, to a leaf node, and take the
/// leaf that starts last at or before the block if it covers it. `Ok(None)`
/// for a hole; `Invalid` when a child's depth is not one below its parent's
/// or a candidate leaf's end overflows; errors of reading nodes pass on.
pub fn extent_find<D: CFSBlockDevice>(dev: &mut D, inode: &Inode, logical_block: u32, block_size: u32) -> (r: Result<Option<ExtentLeaf>, VolumeError>)
    requires
        block_size >= 12,
    ensures
        final(dev).contents() == old(dev).contents(),
        le16(root_area(*inode), 0) != EXTENT_MAGIC ==> r == Err::<Option<ExtentLeaf>, VolumeError>(VolumeError::BadMagic),
        r matches Ok(Some(l)) ==> leaf_covers(l, logical_block) && l.ee_block + leaf_count(l) <= u32::MAX,
        flat_root(*inode) && disjoint_sorted(root_leaves(*inode)) ==> match r {
            Ok(Some(l)) => exists|i: int| 0 <= i < root_leaves(*inode).len() && root_leaves(*inode)[i] == l,
            Ok(None) => forall|i: int|
                0 <= i < root_leaves(*inode).len() ==> !leaf_covers(#[trigger] root_leaves(*inode)[i], logical_block),
            Err(_) => false,
        },
{
    let ghost c = dev.contents();
    let (mut header, mut entries) = read_inode_extent_root(inode)?;
    let ghost mut at_root = true;
    loop
        invariant
            dev.contents() == c,
            c == old(dev).contents(),
            block_size >= 12,
            le16(root_area(*inode), 0) == EXTENT_MAGIC,
            (header.depth == 0) == (entries is Leaves),
            at_root ==> header == header_at(root_area(*inode), 0) && entries_match(entries, header, root_area(*inode)),
            !at_root ==> !(flat_root(*inode) && disjoint_sorted(root_leaves(*inode))),
        decreases header.depth,
    {
        match entries {
            ExtentEntries::Leaves(leaves) => {
                let mut starts: Vec<u32> = Vec::new();
                let mut k: usize = 0;
                while k < leaves.len()
                    invariant
                        k <= leaves@.len(),
                        starts@.len() == k,
                        forall|q: int| 0 <= q < k ==> #[trigger] starts@[q] == leaves@[q].ee_block,
                    decreases leaves@.len() - k,
                {
                    starts.push(leaves[k].ee_block);
                    k = k + 1;
                }
                proof {
                    if disjoint_sorted(leaves@) {
                        assert forall|i: int, j: int| 0 <= i < j < starts@.len() implies starts@[i] <= starts@[j] by {
                            assert(leaves@[i].ee_block + leaf_count(leaves@[i]) <= leaves@[j].ee_block);
                        }
                        assert(sorted_starts(starts@));
                    }
                }
                let lo = upper_bound(&starts, logical_block);
                if lo == 0 {
                    proof {
                        if disjoint_sorted(leaves@) {
                            assert forall|i: int| 0 <= i < leaves@.len() implies !leaf_covers(#[trigger] leaves@[i], logical_block) by {
                                assert(starts@[i] > logical_block);
                            }
                        }
                    }
                    return Ok(None);
                }
                let cand = leaves[lo - 1];
                if cand.ee_block as u64 + cand.block_count() as u64 > u32::MAX as u64 {
                    proof {
                        if disjoint_sorted(leaves@) {
                            assert(leaves@[lo - 1].ee_block + leaf_count(leaves@[lo - 1]) <= u32::MAX);
                        }
                    }
                    return Err(VolumeError::Invalid);
                }
                if cand.contains(logical_block) {
                    return Ok(Some(cand));
                }
                proof {
                    if disjoint_sorted(leaves@) {
                        assert forall|i: int| 0 <= i < leaves@.len() implies !leaf_covers(#[trigger] leaves@[i], logical_block) by {
                            if i < lo - 1 {
                                assert(leaves@[i].ee_block + leaf_count(leaves@[i]) <= leaves@[lo - 1].ee_block);
                                assert(starts@[lo - 1] <= logical_block);
                            } else if i >= lo {
                                assert(starts@[i] > logical_block);
                            }
                        }
                    }
                }
                return Ok(None);
            },
            ExtentEntries::Indices(indices) => {
                if indices.len() == 0 {
                    return Ok(None);
                }
                let idx = bsearch_index(indices.as_slice(), logical_block);
                let child = indices[idx].child_block();
                let (ch, ce) = read_extent_block(dev, child, block_size)?;
                if ch.depth + 1 != header.depth {
                    return Err(VolumeError::Invalid);
                }
                proof {
                    at_root = false;
                }
                header = ch;
                entries = ce;
            },
        }
    }
}

/// The physical block of `logical_block` in an extent-mapped file: 0 for a
/// hole or a preallocated (uninitialized) extent.
pub fn get_block_ptr_extent<D: CFSBlockDevice>(dev: &mut D, inode: &Inode, logical_block: u32, block_size: u32) -> (r: Result<u64, VolumeError>)
    requires
        block_size >= 12,
    ensures
        final(dev).contents() == old(dev).contents(),
        le16(root_area(*inode), 0) != EXTENT_MAGIC ==> r == Err::<u64, VolumeError>(VolumeError::BadMagic),
        r matches Ok(p) ==> p == 0 || exists|l: ExtentLeaf|
            leaf_covers(l, logical_block) && !leaf_uninit(l) && p == leaf_physical(l) + (logical_block - l.ee_block),
        flat_root(*inode) && disjoint_sorted(root_leaves(*inode)) ==> (r matches Ok(p) && {
            &&& forall|i: int| 0 <= i < root_leaves(*inode).len() && #[trigger] leaf_covers(root_leaves(*inode)[i], logical_block)
                ==> p == (if leaf_uninit(root_leaves(*inode)[i]) {
                    0
                } else {
                    (leaf_physical(root_leaves(*inode)[i]) + (logical_block - root_leaves(*inode)[i].ee_block)) as u64
                })
            &&& (forall|i: int| 0 <= i < root_leaves(*inode).len() ==> !#[trigger] leaf_covers(root_leaves(*inode)[i], logical_block))
                ==> p == 0
        }),
{
    let found = extent_find(dev, inode, logical_block, block_size);
    proof {
        if flat_root(*inode) && disjoint_sorted(root_leaves(*inode)) {
            let ls = root_leaves(*inode);
            if found is Ok && found->Ok_0 is Some {
                let l = found->Ok_0->Some_0;
                let i0 = choose|i: int| 0 <= i < ls.len() && ls[i] == l;
                assert forall|i: int| 0 <= i < ls.len() && #[trigger] leaf_covers(ls[i], logical_block) implies ls[i] == l by {
                    if i < i0 {
                        assert(ls[i].ee_block + leaf_count(ls[i]) <= ls[i0].ee_block);
                    } else if i > i0 {
                        assert(ls[i0].ee_block + leaf_count(ls[i0]) <= ls[i].ee_block);
                    }
                }
            }
        }
    }
    match found? {
        Some(leaf) => {
            if leaf.is_uninitialized() {
                Ok(0)
            } else {
                match leaf.map(logical_block) {
                    Some(p) => Ok(p),
                    None => Ok(0),
                }
            }
        },
        None => Ok(0),
    }
}

} // verus!
