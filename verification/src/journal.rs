//! The metadata journal: a circular undo log. Before a metadata block is
//! changed, its old contents are logged; an aborted or interrupted
//! transaction is rolled back by writing those contents back.

use vstd::prelude::*;
use vstd::slice::slice_subrange;
use crate::codec::{
    le32, le64, enc32, enc64, zeros, crc32, crc32_hash, lemma_codec_roundtrip, get_u32, get_u64, push_u32, push_u64,
    push_bytes, push_zeros,
};
use crate::device::{CFSBlockDevice, written};
use crate::error::VolumeError;

verus! {

/// "CJNL".
pub const JOURNAL_MAGIC: [u8; 4] = [0x43, 0x4A, 0x4E, 0x4C];

pub const JOURNAL_VERSION: u32 = 1;

/// The journal holds entries that may need to be undone.
pub const JFLAG_NEEDS_RECOVERY: u32 = 1;

/// The journal was closed cleanly.
pub const JFLAG_CLEAN: u32 = 2;

/// Bytes of an entry header before its unused remainder.
pub const ENTRY_HEADER_SIZE: usize = 32;

pub open spec fn journal_magic() -> Seq<u8> {
    seq![0x43u8, 0x4Au8, 0x4Eu8, 0x4Cu8]
}

/// The journal superblock (first block of the journal region).
#[derive(Debug, Clone, Copy)]
pub struct JournalSuperblock {
    pub magic: [u8; 4],
    pub version: u32,
    /// Next transaction id.
    pub sequence: u64,
    /// Next entry slot to write.
    pub head: u64,
    /// Oldest entry slot not yet reclaimed.
    pub tail: u64,
    /// Entry slots (journal blocks minus the superblock).
    pub capacity: u64,
    pub flags: u32,
    pub checksum: u32,
}

/// The checksummed part of the encoding: bytes `[0..44)`.
pub open spec fn jsb_prefix(j: JournalSuperblock) -> Seq<u8> {
    j.magic@ + enc32(j.version) + enc64(j.sequence) + enc64(j.head) + enc64(j.tail) + enc64(j.capacity) + enc32(j.flags)
}

/// The encoding in a block of `bs` bytes: prefix, its CRC-32, zeros.
pub open spec fn jsb_bytes(j: JournalSuperblock, bs: int) -> Seq<u8> {
    jsb_prefix(j) + enc32(crc32(jsb_prefix(j))) + zeros((bs - 48) as nat)
}

/// `j` holds the fields stored in `buf`.
pub open spec fn jsb_matches(j: JournalSuperblock, buf: Seq<u8>) -> bool {
    &&& j.magic@ == buf.subrange(0, 4)
    &&& j.version == le32(buf, 4)
    &&& j.sequence == le64(buf, 8)
    &&& j.head == le64(buf, 16)
    &&& j.tail == le64(buf, 24)
    &&& j.capacity == le64(buf, 32)
    &&& j.flags == le32(buf, 40)
    &&& j.checksum == le32(buf, 44)
}

/// Decoding an encoded journal superblock gives back its fields, with the
/// checksum of the prefix.
pub proof fn lemma_jsb_roundtrip(j: JournalSuperblock, bs: int)
    requires
        bs >= 48,
    ensures
        jsb_bytes(j, bs).len() == bs,
        jsb_bytes(j, bs).subrange(0, 4) == journal_magic() <==> j.magic@ == journal_magic(),
        le32(jsb_bytes(j, bs), 44) == crc32(jsb_bytes(j, bs).subrange(0, 44)),
        jsb_matches(JournalSuperblock { checksum: crc32(jsb_prefix(j)), ..j }, jsb_bytes(j, bs)),
{
    lemma_codec_roundtrip();
    let b = jsb_bytes(j, bs);
    let p = jsb_prefix(j);
    assert(p.len() == 44);
    assert(b.subrange(0, 44) =~= p);
    assert(b.subrange(0, 4) =~= j.magic@);
    assert(b.subrange(4, 8) =~= enc32(j.version));
    assert(b.subrange(8, 16) =~= enc64(j.sequence));
    assert(b.subrange(16, 24) =~= enc64(j.head));
    assert(b.subrange(24, 32) =~= enc64(j.tail));
    assert(b.subrange(32, 40) =~= enc64(j.capacity));
    assert(b.subrange(40, 44) =~= enc32(j.flags));
    assert(b.subrange(44, 48) =~= enc32(crc32(p)));
}

impl JournalSuperblock {
    /// A clean, empty journal of `capacity` entry slots.
    pub fn new(capacity: u64) -> (r: Self)
        ensures
            r.magic@ == journal_magic(),
            r.version == JOURNAL_VERSION,
            r.sequence == 1,
            r.head == 0,
            r.tail == 0,
            r.capacity == capacity,
            r.flags == JFLAG_CLEAN,
            r.checksum == 0,
    {
        let r = JournalSuperblock {
            magic: JOURNAL_MAGIC,
            version: JOURNAL_VERSION,
            sequence: 1,
            head: 0,
            tail: 0,
            capacity,
            flags: JFLAG_CLEAN,
            checksum: 0,
        };
        assert(r.magic@ =~= journal_magic());
        r
    }

    /// The encoding in a block of `block_size` bytes.
    pub fn serialize(&self, block_size: u32) -> (r: Vec<u8>)
        requires
            block_size >= 48,
        ensures
            r@ == jsb_bytes(*self, block_size as int),
    {
        let mut buf: Vec<u8> = Vec::new();
        push_bytes(&mut buf, self.magic.as_slice());
        push_u32(&mut buf, self.version);
        push_u64(&mut buf, self.sequence);
        push_u64(&mut buf, self.head);
        push_u64(&mut buf, self.tail);
        push_u64(&mut buf, self.capacity);
        push_u32(&mut buf, self.flags);
        proof {
            assert(buf@ =~= jsb_prefix(*self));
        }
        let crc = crc32_hash(buf.as_slice());
        push_u32(&mut buf, crc);
        push_zeros(&mut buf, block_size as usize - 48);
        buf
    }

    /// Decode a journal superblock: `TooShort` under 48 bytes, then
    /// `BadMagic`, `Unsupported` for another version, `ChecksumMismatch`.
    pub fn deserialize(buf: &[u8]) -> (r: Result<Self, VolumeError>)
        ensures
            buf@.len() < 48 ==> r == Err::<Self, VolumeError>(VolumeError::TooShort),
            buf@.len() >= 48 && buf@.subrange(0, 4) != journal_magic() ==> r == Err::<Self, VolumeError>(VolumeError::BadMagic),
            buf@.len() >= 48 && buf@.subrange(0, 4) == journal_magic() && le32(buf@, 4) != JOURNAL_VERSION ==> r
                == Err::<Self, VolumeError>(VolumeError::Unsupported),
            buf@.len() >= 48 && buf@.subrange(0, 4) == journal_magic() && le32(buf@, 4) == JOURNAL_VERSION ==> {
                &&& le32(buf@, 44) != crc32(buf@.subrange(0, 44)) ==> r == Err::<Self, VolumeError>(VolumeError::ChecksumMismatch)
                &&& le32(buf@, 44) == crc32(buf@.subrange(0, 44)) ==> (r matches Ok(j) && jsb_matches(j, buf@))
            },
    {
        if buf.len() < 48 {
            return Err(VolumeError::TooShort);
        }
        let magic = [buf[0], buf[1], buf[2], buf[3]];
        assert(magic@ =~= buf@.subrange(0, 4));
        if !(buf[0] == 0x43 && buf[1] == 0x4A && buf[2] == 0x4E && buf[3] == 0x4C) {
            proof {
                if buf@.subrange(0, 4) == journal_magic() {
                    assert(buf@.subrange(0, 4)[0] == buf@[0]);
                    assert(buf@.subrange(0, 4)[1] == buf@[1]);
                    assert(buf@.subrange(0, 4)[2] == buf@[2]);
                    assert(buf@.subrange(0, 4)[3] == buf@[3]);
                }
            }
            return Err(VolumeError::BadMagic);
        }
        assert(buf@.subrange(0, 4) =~= journal_magic());
        let version = get_u32(buf, 4);
        if version != JOURNAL_VERSION {
            return Err(VolumeError::Unsupported);
        }
        let stored = get_u32(buf, 44);
        let computed = crc32_hash(slice_subrange(buf, 0, 44));
        if stored != computed {
            return Err(VolumeError::ChecksumMismatch);
        }
        Ok(JournalSuperblock {
            magic,
            version,
            sequence: get_u64(buf, 8),
            head: get_u64(buf, 16),
            tail: get_u64(buf, 24),
            capacity: get_u64(buf, 32),
            flags: get_u32(buf, 40),
            checksum: stored,
        })
    }

    /// Whether no entry is waiting between tail and head.
    pub fn is_empty(&self) -> (r: bool)
        ensures
            r == (self.head == self.tail),
    {
        self.head == self.tail
    }

    /// Whether the needs-recovery flag is set.
    pub fn needs_recovery(&self) -> (r: bool)
        ensures
            r == (self.flags & JFLAG_NEEDS_RECOVERY != 0),
    {
        self.flags & JFLAG_NEEDS_RECOVERY != 0
    }
}

/// Kinds of journal entries.
#[derive(Debug, Clone, Copy, PartialEq, Eq, Structural)]
pub enum EntryType {
    TxnBegin,
    BlockData,
    TxnCommit,
    TxnAbort,
}

/// The on-disk code of an entry type.
pub open spec fn entry_code(t: EntryType) -> u8 {
    match t {
        EntryType::TxnBegin => 0,
        EntryType::BlockData => 1,
        EntryType::TxnCommit => 2,
        EntryType::TxnAbort => 3,
    }
}

impl EntryType {
    /// The entry type with code `v`; `Invalid` for codes above 3.
    pub fn from_u8(v: u8) -> (r: Result<Self, VolumeError>)
        ensures
            v <= 3 ==> (r matches Ok(t) && entry_code(t) == v),
            v > 3 ==> r == Err::<Self, VolumeError>(VolumeError::Invalid),
    {
        match v {
            0 => Ok(EntryType::TxnBegin),
            1 => Ok(EntryType::BlockData),
            2 => Ok(EntryType::TxnCommit),
            3 => Ok(EntryType::TxnAbort),
            _ => Err(VolumeError::Invalid),
        }
    }

    fn code(&self) -> (r: u8)
        ensures
            r == entry_code(*self),
    {
        match self {
            EntryType::TxnBegin => 0,
            EntryType::BlockData => 1,
            EntryType::TxnCommit => 2,
            EntryType::TxnAbort => 3,
        }
    }
}

/// One journal entry. A `BlockData` entry carries the old contents of
/// `target_block` and takes two slots (header, then data).
#[derive(Debug, Clone)]
pub struct JournalEntry {
    pub txn_id: u64,
    pub entry_type: EntryType,
    pub target_block: u64,
    pub data_len: u32,
    pub checksum: u32,
    pub data: Vec<u8>,
}

/// The first 24 header bytes: id, type code, padding, target, data length.
pub open spec fn head_bytes(txn: u64, code: u8, target: u64, len: u32) -> Seq<u8> {
    enc64(txn) + seq![code, 0u8, 0u8, 0u8] + enc64(target) + enc32(len)
}

/// A header block: the first 24 bytes, the CRC-32 of those bytes followed
/// by the data, and zeros up to `bs` bytes.
pub open spec fn header_block(txn: u64, code: u8, target: u64, len: u32, data: Seq<u8>, bs: int) -> Seq<u8> {
    head_bytes(txn, code, target, len) + enc32(crc32(head_bytes(txn, code, target, len) + data)) + zeros((bs - 28) as nat)
}

pub open spec fn entry_head(e: JournalEntry) -> Seq<u8> {
    head_bytes(e.txn_id, entry_code(e.entry_type), e.target_block, e.data_len)
}

/// The header block of an entry.
pub open spec fn entry_header_bytes(e: JournalEntry, bs: int) -> Seq<u8> {
    header_block(e.txn_id, entry_code(e.entry_type), e.target_block, e.data_len, e.data@, bs)
}

/// The data block: the data, cut or zero-padded to `bs` bytes.
pub open spec fn entry_data_bytes(data: Seq<u8>, bs: int) -> Seq<u8> {
    if data.len() >= bs {
        data.subrange(0, bs)
    } else {
        data + zeros((bs - data.len()) as nat)
    }
}

impl JournalEntry {
    pub fn new_begin(txn_id: u64) -> (r: Self)
        ensures
            r.txn_id == txn_id && r.entry_type == EntryType::TxnBegin && r.target_block == 0 && r.data_len == 0
                && r.checksum == 0 && r.data@.len() == 0,
    {
        JournalEntry { txn_id, entry_type: EntryType::TxnBegin, target_block: 0, data_len: 0, checksum: 0, data: Vec::new() }
    }

    /// An undo record holding the old contents of `target_block`.
    pub fn new_block_data(txn_id: u64, target_block: u64, old_data: Vec<u8>) -> (r: Self)
        ensures
            r.txn_id == txn_id && r.entry_type == EntryType::BlockData && r.target_block == target_block
                && r.data_len == old_data@.len() as u32 && r.checksum == 0 && r.data@ == old_data@,
    {
        let data_len = old_data.len() as u32;
        JournalEntry { txn_id, entry_type: EntryType::BlockData, target_block, data_len, checksum: 0, data: old_data }
    }

    pub fn new_commit(txn_id: u64) -> (r: Self)
        ensures
            r.txn_id == txn_id && r.entry_type == EntryType::TxnCommit && r.target_block == 0 && r.data_len == 0
                && r.checksum == 0 && r.data@.len() == 0,
    {
        JournalEntry { txn_id, entry_type: EntryType::TxnCommit, target_block: 0, data_len: 0, checksum: 0, data: Vec::new() }
    }

    pub fn new_abort(txn_id: u64) -> (r: Self)
        ensures
            r.txn_id == txn_id && r.entry_type == EntryType::TxnAbort && r.target_block == 0 && r.data_len == 0
                && r.checksum == 0 && r.data@.len() == 0,
    {
        JournalEntry { txn_id, entry_type: EntryType::TxnAbort, target_block: 0, data_len: 0, checksum: 0, data: Vec::new() }
    }

    /// Slots the entry takes: 2 for block data, else 1.
    pub fn slot_count(&self) -> (r: u64)
        ensures
            r == if self.entry_type == EntryType::BlockData { 2u64 } else { 1u64 },
    {
        match self.entry_type {
            EntryType::BlockData => 2,
            _ => 1,
        }
    }

    /// The header block of `block_size` bytes.
    pub fn serialize_header(&self, block_size: u32) -> (r: Vec<u8>)
        requires
            block_size >= 28,
        ensures
            r@ == entry_header_bytes(*self, block_size as int),
    {
        let mut buf: Vec<u8> = Vec::new();
        push_u64(&mut buf, self.txn_id);
        buf.push(self.entry_type.code());
        buf.push(0u8);
        buf.push(0u8);
        buf.push(0u8);
        push_u64(&mut buf, self.target_block);
        push_u32(&mut buf, self.data_len);
        proof {
            assert(buf@ =~= entry_head(*self));
        }
        let mut hashed: Vec<u8> = Vec::new();
        push_bytes(&mut hashed, buf.as_slice());
        push_bytes(&mut hashed, self.data.as_slice());
        let crc = crc32_hash(hashed.as_slice());
        push_u32(&mut buf, crc);
        push_zeros(&mut buf, block_size as usize - 28);
        buf
    }

    /// The data block of `block_size` bytes.
    pub fn serialize_data_block(&self, block_size: u32) -> (r: Vec<u8>)
        ensures
            r@ == entry_data_bytes(self.data@, block_size as int),
    {
        let n = block_size as usize;
        let mut buf: Vec<u8> = Vec::new();
        if self.data.len() >= n {
            push_bytes(&mut buf, slice_subrange(self.data.as_slice(), 0, n));
        } else {
            push_bytes(&mut buf, self.data.as_slice());
            push_zeros(&mut buf, n - self.data.len());
        }
        buf
    }

    /// Decode a header block: `TooShort` when it is shorter than a block or
    /// than a header, `Invalid` for an unknown type. The data stays empty.
    pub fn deserialize_header(buf: &[u8], block_size: u32) -> (r: Result<Self, VolumeError>)
        ensures
            buf@.len() < block_size || buf@.len() < 32 ==> r == Err::<Self, VolumeError>(VolumeError::TooShort),
            buf@.len() >= block_size && buf@.len() >= 32 && buf@[8] > 3 ==> r == Err::<Self, VolumeError>(VolumeError::Invalid),
            buf@.len() >= block_size && buf@.len() >= 32 && buf@[8] <= 3 ==> (r matches Ok(e) && {
                &&& e.txn_id == le64(buf@, 0)
                &&& entry_code(e.entry_type) == buf@[8]
                &&& e.target_block == le64(buf@, 12)
                &&& e.data_len == le32(buf@, 20)
                &&& e.checksum == le32(buf@, 24)
                &&& e.data@.len() == 0
            }),
    {
        if buf.len() < block_size as usize || buf.len() < ENTRY_HEADER_SIZE {
            return Err(VolumeError::TooShort);
        }
        let entry_type = EntryType::from_u8(buf[8])?;
        Ok(JournalEntry {
            txn_id: get_u64(buf, 0),
            entry_type,
            target_block: get_u64(buf, 12),
            data_len: get_u32(buf, 20),
            checksum: get_u32(buf, 24),
            data: Vec::new(),
        })
    }

    /// Take `data_len` bytes of `data_buf` as the entry's data, after
    /// checking them against the checksum of the header; `ChecksumMismatch`
    /// leaves the entry unchanged.
    pub fn read_data_block(&mut self, header_buf: &[u8], data_buf: &[u8]) -> (r: Result<(), VolumeError>)
        requires
            header_buf@.len() >= 24,
            old(self).data_len <= data_buf@.len(),
        ensures
            ({
                let d = data_buf@.subrange(0, old(self).data_len as int);
                &&& r is Ok <==> old(self).checksum == crc32(header_buf@.subrange(0, 24) + d)
                &&& r is Ok ==> *final(self) == (JournalEntry { data: final(self).data, ..*old(self) }) && final(self).data@ == d
                &&& r is Err ==> *final(self) == *old(self) && r == Err::<(), VolumeError>(VolumeError::ChecksumMismatch)
            }),
    {
        let n = self.data_len as usize;
        let mut data: Vec<u8> = Vec::new();
        push_bytes(&mut data, slice_subrange(data_buf, 0, n));
        let mut hashed: Vec<u8> = Vec::new();
        push_bytes(&mut hashed, slice_subrange(header_buf, 0, 24));
        push_bytes(&mut hashed, data.as_slice());
        let computed = crc32_hash(hashed.as_slice());
        if self.checksum != computed {
            return Err(VolumeError::ChecksumMismatch);
        }
        self.data = data;
        Ok(())
    }
}

/// Device contents after writing back undo records, last record first.
pub open spec fn restore_all(c: Seq<u8>, undo: Seq<(u64, Seq<u8>)>, bs: int) -> Seq<u8>
    decreases undo.len(),
{
    if undo.len() == 0 {
        c
    } else {
        restore_all(written(c, undo.last().0 * bs, undo.last().1), undo.drop_last(), bs)
    }
}

/// Undo records name distinct blocks, hold a block's worth of data each,
/// and lie within a device of `n` bytes.
pub open spec fn undo_ok(undo: Seq<(u64, Seq<u8>)>, bs: int, n: int) -> bool {
    &&& forall|i: int| 0 <= i < undo.len() ==> (#[trigger] undo[i]).1.len() == bs && undo[i].0 * bs + bs <= n
    &&& forall|i: int, j: int| 0 <= i < j < undo.len() ==> (#[trigger] undo[i]).0 != (#[trigger] undo[j]).0
}

proof fn lemma_written_len(c: Seq<u8>, off: int, d: Seq<u8>)
    requires
        0 <= off,
        off + d.len() <= c.len(),
    ensures
        written(c, off, d).len() == c.len(),
        written(c, off, d).subrange(off, off + d.len()) == d,
        forall|a: int, b: int| 0 <= a <= b <= c.len() && (b <= off || off + d.len() <= a) ==> #[trigger] written(c, off, d).subrange(a, b) == c.subrange(a, b),
{
    assert(written(c, off, d).subrange(off, off + d.len()) =~= d);
    assert forall|a: int, b: int| 0 <= a <= b <= c.len() && (b <= off || off + d.len() <= a) implies #[trigger] written(c, off, d).subrange(a, b) == c.subrange(a, b) by {
        assert(written(c, off, d).subrange(a, b) =~= c.subrange(a, b));
    }
}

/// Writing back the undo records of distinct blocks leaves each of those
/// blocks holding its record's data.
pub proof fn lemma_restore_all(c: Seq<u8>, undo: Seq<(u64, Seq<u8>)>, bs: int)
    requires
        bs > 0,
        undo_ok(undo, bs, c.len() as int),
    ensures
        restore_all(c, undo, bs).len() == c.len(),
        forall|i: int| 0 <= i < undo.len() ==> #[trigger] restore_all(c, undo, bs).subrange(undo[i].0 * bs, undo[i].0 * bs + bs) == undo[i].1,
    decreases undo.len(),
{
    if undo.len() > 0 {
        let last = undo.last();
        let c2 = written(c, last.0 * bs, last.1);
        assert(undo[undo.len() - 1] == last);
        lemma_written_len(c, last.0 * bs, last.1);
        let rest = undo.drop_last();
        assert(undo_ok(rest, bs, c2.len() as int)) by {
            assert forall|i: int| 0 <= i < rest.len() implies (#[trigger] rest[i]).1.len() == bs && rest[i].0 * bs + bs <= c2.len() by {
                assert(rest[i] == undo[i]);
            }
            assert forall|i: int, j: int| 0 <= i < j < rest.len() implies (#[trigger] rest[i]).0 != (#[trigger] rest[j]).0 by {
                assert(rest[i] == undo[i] && rest[j] == undo[j]);
            }
        }
        lemma_restore_all(c2, rest, bs);
        vstd::arithmetic::div_mod::lemma_mod_multiples_basic(last.0 as int, bs);
        assert(last.0 * bs == bs * last.0) by (nonlinear_arith);
        assert forall|i: int| 0 <= i < rest.len() implies (#[trigger] rest[i]).0 * bs != last.0 * bs by {
            assert(rest[i] == undo[i]);
            assert(undo[i].0 != undo[undo.len() - 1].0);
            if rest[i].0 * bs == last.0 * bs {
                assert(rest[i].0 == last.0) by (nonlinear_arith)
                    requires
                        rest[i].0 * bs == last.0 * bs,
                        bs > 0,
                ;
            }
        }
        lemma_restore_keeps(c2, rest, bs, last.0 * bs, last.0 * bs + bs);
        assert forall|i: int| 0 <= i < undo.len() implies #[trigger] restore_all(c, undo, bs).subrange(undo[i].0 * bs, undo[i].0 * bs + bs) == undo[i].1 by {
            if i < undo.len() - 1 {
                assert(rest[i] == undo[i]);
            }
        }
    }
}

/// Writing back records of other blocks leaves a block-aligned range that
/// none of them touches unchanged.
proof fn lemma_restore_keeps(c: Seq<u8>, undo: Seq<(u64, Seq<u8>)>, bs: int, a: int, b: int)
    requires
        bs > 0,
        undo_ok(undo, bs, c.len() as int),
        0 <= a <= b <= c.len(),
        a % bs == 0,
        b == a + bs,
        forall|i: int| 0 <= i < undo.len() ==> (#[trigger] undo[i]).0 * bs != a,
    ensures
        restore_all(c, undo, bs).subrange(a, b) == c.subrange(a, b),
    decreases undo.len(),
{
    if undo.len() > 0 {
        let last = undo.last();
        assert(undo[undo.len() - 1] == last);
        let off = last.0 * bs;
        assert(off % bs == 0) by {
            vstd::arithmetic::div_mod::lemma_mod_multiples_basic(last.0 as int, bs);
        }
        assert(b <= off || off + bs <= a) by {
            lemma_aligned_disjoint(a, off, bs);
        }
        lemma_written_len(c, off, last.1);
        let c2 = written(c, off, last.1);
        let rest = undo.drop_last();
        assert(undo_ok(rest, bs, c2.len() as int)) by {
            assert forall|i: int| 0 <= i < rest.len() implies (#[trigger] rest[i]).1.len() == bs && rest[i].0 * bs + bs <= c2.len() by {
                assert(rest[i] == undo[i]);
            }
            assert forall|i: int, j: int| 0 <= i < j < rest.len() implies (#[trigger] rest[i]).0 != (#[trigger] rest[j]).0 by {
                assert(rest[i] == undo[i] && rest[j] == undo[j]);
            }
        }
        assert forall|i: int| 0 <= i < rest.len() implies (#[trigger] rest[i]).0 * bs != a by {
            assert(rest[i] == undo[i]);
        }
        lemma_restore_keeps(c2, rest, bs, a, b);
    }
}

proof fn lemma_aligned_disjoint(a: int, off: int, bs: int)
    requires
        bs > 0,
        a % bs == 0,
        off % bs == 0,
        a != off,
        a >= 0,
        off >= 0,
    ensures
        a + bs <= off || off + bs <= a,
{
    vstd::arithmetic::div_mod::lemma_fundamental_div_mod(a, bs);
    vstd::arithmetic::div_mod::lemma_fundamental_div_mod(off, bs);
    let qa = a / bs;
    let qo = off / bs;
    assert(a == bs * qa && off == bs * qo);
    assert(qa != qo);
    if qa < qo {
        assert(bs * qa + bs <= bs * qo) by (nonlinear_arith)
            requires
                qa < qo,
                bs > 0,
        ;
    } else {
        assert(bs * qo + bs <= bs * qa) by (nonlinear_arith)
            requires
                qo < qa,
                bs > 0,
        ;
    }
}

/// Aborting a transaction leaves every block it recorded holding the
/// contents recorded for it: the undo records are written back, and the
/// abort record then goes to a log slot that is none of those blocks.
pub proof fn lemma_abort_restores(c: Seq<u8>, undo: Seq<(u64, Seq<u8>)>, bs: int, slot: int, record: Seq<u8>)
    requires
        bs > 0,
        undo_ok(undo, bs, c.len() as int),
        0 <= slot,
        slot % bs == 0,
        slot + bs <= c.len(),
        record.len() == bs,
        forall|i: int| 0 <= i < undo.len() ==> (#[trigger] undo[i]).0 * bs != slot,
    ensures
        forall|i: int|
            0 <= i < undo.len() ==> #[trigger] written(restore_all(c, undo, bs), slot, record).subrange(
                undo[i].0 * bs,
                undo[i].0 * bs + bs,
            ) == undo[i].1,
{
    lemma_restore_all(c, undo, bs);
    let r = restore_all(c, undo, bs);
    lemma_written_len(r, slot, record);
    assert forall|i: int| 0 <= i < undo.len() implies #[trigger] written(r, slot, record).subrange(undo[i].0 * bs, undo[i].0 * bs + bs) == undo[i].1 by {
        let a = undo[i].0 * bs;
        vstd::arithmetic::div_mod::lemma_mod_multiples_basic(undo[i].0 as int, bs);
        assert(a == bs * undo[i].0) by (nonlinear_arith)
            requires
                a == undo[i].0 * bs,
        ;
        assert(a >= 0) by (nonlinear_arith)
            requires
                a == bs * undo[i].0,
                bs > 0,
                undo[i].0 >= 0,
        ;
        lemma_aligned_disjoint(a, slot, bs);
    }
}

/// Summary of a journal's state.
#[derive(Debug, Clone, Copy)]
pub struct JournalStatus {
    pub journal_start: u64,
    pub capacity: u64,
    pub used: u64,
    pub sequence: u64,
    pub head: u64,
    pub tail: u64,
    pub needs_recovery: bool,
    pub clean: bool,
    pub block_size: u32,
}

/// The journal manager: the cached journal superblock and the open
/// transaction with its undo records.
#[derive(Debug)]
pub struct Journal {
    pub jsb: JournalSuperblock,
    /// First block of the journal region.
    pub journal_start: u64,
    pub block_size: u32,
    pub active_txn: Option<u64>,
    /// `(block, old contents)` for each block recorded in the open transaction.
    pub active_undo: Vec<(u64, Vec<u8>)>,
}

/// Used slots between tail and head of a circular log.
pub open spec fn spec_used(head: u64, tail: u64, capacity: u64) -> int {
    if head >= tail {
        head - tail
    } else {
        capacity - tail + head
    }
}

impl Journal {
    /// Positions lie in the log, the log's blocks have `u64` byte offsets,
    /// and a block holds the journal superblock.
    pub open spec fn wf(&self) -> bool {
        &&& self.jsb.capacity > 0
        &&& self.jsb.head < self.jsb.capacity
        &&& self.jsb.tail < self.jsb.capacity
        &&& self.block_size >= 48
        &&& (self.journal_start + 1 + self.jsb.capacity) * self.block_size <= u64::MAX
    }

    /// The undo records as plain values.
    pub open spec fn undo(&self) -> Seq<(u64, Seq<u8>)> {
        self.active_undo@.map_values(|p: (u64, Vec<u8>)| (p.0, p.1@))
    }

    pub open spec fn spec_advance(&self, pos: u64) -> u64 {
        ((pos + 1) % (self.jsb.capacity as int)) as u64
    }

    /// Byte offset of entry slot `pos`.
    pub open spec fn slot_offset(&self, pos: u64) -> int {
        (self.journal_start + 1 + pos) * self.block_size
    }

    pub open spec fn spec_free(&self) -> int {
        let c1 = if self.jsb.capacity >= 1 { self.jsb.capacity - 1 } else { 0 };
        let u = spec_used(self.jsb.head, self.jsb.tail, self.jsb.capacity);
        if c1 >= u { c1 - u } else { 0 }
    }

    /// The same journal with another superblock state.
    pub open spec fn with_jsb(&self, j: JournalSuperblock) -> Journal {
        Journal { jsb: j, ..*self }
    }

    /// Entries between tail and head.
    pub fn used_entries(&self) -> (r: u64)
        requires
            self.jsb.tail <= self.jsb.capacity,
            self.jsb.head <= self.jsb.capacity,
        ensures
            r == spec_used(self.jsb.head, self.jsb.tail, self.jsb.capacity),
    {
        if self.jsb.head >= self.jsb.tail {
            self.jsb.head - self.jsb.tail
        } else {
            self.jsb.capacity - self.jsb.tail + self.jsb.head
        }
    }

    /// Free slots, keeping one unused to tell a full log from an empty one.
    pub fn free_entries(&self) -> (r: u64)
        requires
            self.jsb.tail <= self.jsb.capacity,
            self.jsb.head <= self.jsb.capacity,
        ensures
            r == self.spec_free(),
    {
        self.jsb.capacity.saturating_sub(1).saturating_sub(self.used_entries())
    }

    fn has_space(&self, n: u64) -> (r: bool)
        requires
            self.wf(),
        ensures
            r == (self.spec_free() >= n),
    {
        self.free_entries() >= n
    }

    /// The slot after `pos` in the circular log.
    pub fn advance(&self, pos: u64) -> (r: u64)
        requires
            self.jsb.capacity > 0,
            pos < self.jsb.capacity,
        ensures
            r == self.spec_advance(pos),
            r < self.jsb.capacity,
    {
        (pos + 1) % self.jsb.capacity
    }

    fn slot_offset_of(&self, pos: u64) -> (r: u64)
        requires
            self.wf(),
            pos < self.jsb.capacity,
        ensures
            r == self.slot_offset(pos),
            r + self.block_size <= u64::MAX,
    {
        proof {
            assert((self.journal_start + 1 + pos) * self.block_size + self.block_size
                <= (self.journal_start + 1 + self.jsb.capacity) * self.block_size) by (nonlinear_arith)
                requires
                    pos < self.jsb.capacity,
            ;
            assert(self.journal_start + 1 + pos <= (self.journal_start + 1 + pos) * self.block_size) by (nonlinear_arith)
                requires
                    self.block_size >= 48,
            ;
        }
        (self.journal_start + 1 + pos) * self.block_size as u64
    }

    /// Write an entry at head (and its data block after it) and advance head.
    fn write_entry<D: CFSBlockDevice>(&mut self, dev: &mut D, entry: &JournalEntry) -> (r: Result<(), VolumeError>)
        requires
            old(self).wf(),
        ensures
            r matches Err(e) ==> e is Device,
            final(self).wf(),
            *final(self) == old(self).with_jsb(JournalSuperblock { head: final(self).jsb.head, ..old(self).jsb }),
            r is Ok ==> {
                let h0 = old(self).jsb.head;
                let c1 = written(old(dev).contents(), old(self).slot_offset(h0), entry_header_bytes(*entry, old(self).block_size as int));
                let h1 = old(self).spec_advance(h0);
                if entry.entry_type == EntryType::BlockData {
                    &&& final(self).jsb.head == old(self).spec_advance(h1)
                    &&& final(dev).contents() == written(c1, old(self).slot_offset(h1), entry_data_bytes(entry.data@, old(self).block_size as int))
                } else {
                    &&& final(self).jsb.head == h1
                    &&& final(dev).contents() == c1
                }
            },
    {
        let off = self.slot_offset_of(self.jsb.head);
        let header = entry.serialize_header(self.block_size);
        match dev.write(off, header.as_slice()) {
            Ok(()) => {},
            Err(e) => return Err(VolumeError::Device(e)),
        }
        self.jsb.head = self.advance(self.jsb.head);
        if entry.entry_type == EntryType::BlockData {
            let off2 = self.slot_offset_of(self.jsb.head);
            let data = entry.serialize_data_block(self.block_size);
            match dev.write(off2, data.as_slice()) {
                Ok(()) => {},
                Err(e) => return Err(VolumeError::Device(e)),
            }
            self.jsb.head = self.advance(self.jsb.head);
        }
        Ok(())
    }

    /// Write the journal superblock to the first block of the region and flush.
    pub fn save_jsb<D: CFSBlockDevice>(&self, dev: &mut D) -> (r: Result<(), VolumeError>)
        requires
            self.wf(),
        ensures
            r matches Err(e) ==> e is Device,
            r is Ok ==> final(dev).contents() == written(
                old(dev).contents(),
                self.journal_start * self.block_size,
                jsb_bytes(self.jsb, self.block_size as int),
            ),
    {
        proof {
            assert(self.journal_start * self.block_size <= (self.journal_start + 1 + self.jsb.capacity) * self.block_size) by (nonlinear_arith);
        }
        let off = self.journal_start * self.block_size as u64;
        let buf = self.jsb.serialize(self.block_size);
        match dev.write(off, buf.as_slice()) {
            Ok(()) => {},
            Err(e) => return Err(VolumeError::Device(e)),
        }
        match dev.flush() {
            Ok(()) => Ok(()),
            Err(e) => Err(VolumeError::Device(e)),
        }
    }

    /// Open a transaction and return its id. `BadState` while one is open,
    /// `NoSpace` when the log cannot take a begin record, one undo record
    /// and a commit record (4 slots).
    pub fn begin_txn<D: CFSBlockDevice>(&mut self, dev: &mut D) -> (r: Result<u64, VolumeError>)
        requires
            old(self).wf(),
            old(self).jsb.sequence < u64::MAX,
        ensures
            final(self).wf(),
            old(self).active_txn is Some ==> r == Err::<u64, VolumeError>(VolumeError::BadState) && *final(self) == *old(self)
                && final(dev).contents() == old(dev).contents(),
            old(self).active_txn is None && old(self).spec_free() < 4 ==> r == Err::<u64, VolumeError>(VolumeError::NoSpace)
                && *final(self) == *old(self) && final(dev).contents() == old(dev).contents(),
            r is Err ==> final(self).active_txn == old(self).active_txn,
            r matches Ok(id) ==> {
                let j1 = JournalSuperblock {
                    sequence: (old(self).jsb.sequence + 1) as u64,
                    flags: (old(self).jsb.flags | JFLAG_NEEDS_RECOVERY) & !JFLAG_CLEAN,
                    head: old(self).spec_advance(old(self).jsb.head),
                    ..old(self).jsb
                };
                &&& old(self).active_txn is None
                &&& old(self).spec_free() >= 4
                &&& id == old(self).jsb.sequence
                &&& final(self).jsb == j1
                &&& final(self).active_txn == Some(id)
                &&& final(self).undo().len() == 0
                &&& final(self).journal_start == old(self).journal_start
                &&& final(self).block_size == old(self).block_size
                &&& final(dev).contents() == written(
                    written(old(dev).contents(), old(self).slot_offset(old(self).jsb.head), header_block(id, 0, 0, 0, Seq::empty(), old(self).block_size as int)),
                    old(self).journal_start * old(self).block_size,
                    jsb_bytes(j1, old(self).block_size as int),
                )
            },
    {
        if self.active_txn.is_some() {
            return Err(VolumeError::BadState);
        }
        if !self.has_space(4) {
            return Err(VolumeError::NoSpace);
        }
        let txn_id = self.jsb.sequence;
        self.jsb.sequence = self.jsb.sequence + 1;
        self.jsb.flags = self.jsb.flags | JFLAG_NEEDS_RECOVERY;
        self.jsb.flags = self.jsb.flags & !JFLAG_CLEAN;
        let entry = JournalEntry::new_begin(txn_id);
        self.write_entry(dev, &entry)?;
        self.save_jsb(dev)?;
        self.active_txn = Some(txn_id);
        self.active_undo = Vec::new();
        assert(self.undo() =~= Seq::<(u64, Seq<u8>)>::empty());
        Ok(txn_id)
    }

    /// Record the current contents of `target_block` as an undo record of
    /// transaction `txn_id`, before the block is changed. `NotFound` unless
    /// `txn_id` is the open transaction; nothing happens for a block already
    /// recorded; `NoSpace` when the log cannot take the record and a commit
    /// record (3 slots).
    pub fn journal_block<D: CFSBlockDevice>(&mut self, dev: &mut D, txn_id: u64, target_block: u64) -> (r: Result<(), VolumeError>)
        requires
            old(self).wf(),
            target_block * old(self).block_size + old(self).block_size <= u64::MAX,
        ensures
            final(self).wf(),
            final(self).active_txn == old(self).active_txn,
            final(self).journal_start == old(self).journal_start,
            final(self).block_size == old(self).block_size,
            old(self).active_txn != Some(txn_id) ==> r == Err::<(), VolumeError>(VolumeError::NotFound) && *final(self) == *old(self)
                && final(dev).contents() == old(dev).contents(),
            old(self).active_txn == Some(txn_id) && (exists|i: int| 0 <= i < old(self).undo().len() && (#[trigger] old(self).undo()[i]).0 == target_block)
                ==> r is Ok && *final(self) == *old(self) && final(dev).contents() == old(dev).contents(),
            old(self).active_txn == Some(txn_id) && !(exists|i: int| 0 <= i < old(self).undo().len() && (#[trigger] old(self).undo()[i]).0 == target_block) ==> {
                let bs = old(self).block_size as int;
                let d = old(dev).contents().subrange(target_block * bs, target_block * bs + bs);
                let h0 = old(self).jsb.head;
                let h1 = old(self).spec_advance(h0);
                &&& old(self).spec_free() < 3 ==> r == Err::<(), VolumeError>(VolumeError::NoSpace) && *final(self) == *old(self)
                &&& r is Ok ==> {
                    &&& target_block * bs + bs <= old(dev).contents().len()
                    &&& final(self).undo() == old(self).undo().push((target_block, d))
                    &&& final(self).jsb == JournalSuperblock { head: old(self).spec_advance(h1), ..old(self).jsb }
                    &&& final(dev).contents() == written(
                        written(old(dev).contents(), old(self).slot_offset(h0), header_block(txn_id, 1, target_block, bs as u32, d, bs)),
                        old(self).slot_offset(h1),
                        d,
                    )
                }
            },
    {
        if self.active_txn != Some(txn_id) {
            return Err(VolumeError::NotFound);
        }
        let mut k: usize = 0;
        while k < self.active_undo.len()
            invariant
                k <= self.active_undo@.len(),
                *self == *old(self),
                old(self).wf(),
                self.active_txn == Some(txn_id),
                dev.contents() == old(dev).contents(),
                forall|i: int| 0 <= i < k ==> (#[trigger] self.undo()[i]).0 != target_block,
            decreases self.active_undo@.len() - k,
        {
            if self.active_undo[k].0 == target_block {
                assert(self.undo()[k as int].0 == target_block);
                return Ok(());
            }
            k = k + 1;
        }
        if !self.has_space(3) {
            return Err(VolumeError::NoSpace);
        }
        let off = target_block * self.block_size as u64;
        let old_data = match dev.read(off, self.block_size as usize) {
            Ok(v) => v,
            Err(e) => return Err(VolumeError::Device(e)),
        };
        let mut saved: Vec<u8> = Vec::new();
        push_bytes(&mut saved, old_data.as_slice());
        self.active_undo.push((target_block, saved));
        assert(self.undo() =~= old(self).undo().push((target_block, old_data@)));
        let entry = JournalEntry::new_block_data(txn_id, target_block, old_data);
        proof {
            assert(entry.data@.len() == self.block_size);
        }
        self.write_entry(dev, &entry)?;
        proof {
            assert(entry_data_bytes(entry.data@, self.block_size as int) =~= entry.data@);
        }
        Ok(())
    }

    /// Commit transaction `txn_id`: flush, log a commit record, flush, save
    /// the journal superblock; the undo records are dropped. `NotFound`
    /// unless `txn_id` is the open transaction.
    pub fn commit_txn<D: CFSBlockDevice>(&mut self, dev: &mut D, txn_id: u64) -> (r: Result<(), VolumeError>)
        requires
            old(self).wf(),
        ensures
            final(self).wf(),
            final(self).journal_start == old(self).journal_start,
            final(self).block_size == old(self).block_size,
            old(self).active_txn != Some(txn_id) ==> r == Err::<(), VolumeError>(VolumeError::NotFound) && *final(self) == *old(self)
                && final(dev).contents() == old(dev).contents(),
            r is Err ==> final(self).active_txn == old(self).active_txn,
            r is Ok ==> {
                let j1 = JournalSuperblock { head: old(self).spec_advance(old(self).jsb.head), ..old(self).jsb };
                &&& old(self).active_txn == Some(txn_id)
                &&& final(self).active_txn is None
                &&& final(self).undo().len() == 0
                &&& final(self).jsb == j1
                &&& final(dev).contents() == written(
                    written(old(dev).contents(), old(self).slot_offset(old(self).jsb.head), header_block(txn_id, 2, 0, 0, Seq::empty(), old(self).block_size as int)),
                    old(self).journal_start * old(self).block_size,
                    jsb_bytes(j1, old(self).block_size as int),
                )
            },
    {
        if self.active_txn != Some(txn_id) {
            return Err(VolumeError::NotFound);
        }
        match dev.flush() {
            Ok(()) => {},
            Err(e) => return Err(VolumeError::Device(e)),
        }
        let entry = JournalEntry::new_commit(txn_id);
        self.write_entry(dev, &entry)?;
        match dev.flush() {
            Ok(()) => {},
            Err(e) => return Err(VolumeError::Device(e)),
        }
        self.save_jsb(dev)?;
        self.active_txn = None;
        self.active_undo = Vec::new();
        assert(self.undo() =~= Seq::<(u64, Seq<u8>)>::empty());
        Ok(())
    }

    /// Abort transaction `txn_id`: write every undo record's data back over
    /// its block, last record first, flush, and log an abort record; the undo
    /// records are dropped. `NotFound` unless `txn_id` is the open
    /// transaction.
    pub fn abort_txn<D: CFSBlockDevice>(&mut self, dev: &mut D, txn_id: u64) -> (r: Result<(), VolumeError>)
        requires
            old(self).wf(),
            forall|i: int| 0 <= i < old(self).undo().len() ==> (#[trigger] old(self).undo()[i]).0 * old(self).block_size
                + old(self).undo()[i].1.len() <= u64::MAX,
        ensures
            final(self).wf(),
            final(self).journal_start == old(self).journal_start,
            final(self).block_size == old(self).block_size,
            old(self).active_txn != Some(txn_id) ==> r == Err::<(), VolumeError>(VolumeError::NotFound) && *final(self) == *old(self)
                && final(dev).contents() == old(dev).contents(),
            r is Err ==> final(self).active_txn == old(self).active_txn,
            r is Ok ==> {
                &&& old(self).active_txn == Some(txn_id)
                &&& final(self).active_txn is None
                &&& final(self).undo().len() == 0
                &&& final(self).jsb == JournalSuperblock { head: old(self).spec_advance(old(self).jsb.head), ..old(self).jsb }
                &&& final(dev).contents() == written(
                    restore_all(old(dev).contents(), old(self).undo(), old(self).block_size as int),
                    old(self).slot_offset(old(self).jsb.head),
                    header_block(txn_id, 3, 0, 0, Seq::empty(), old(self).block_size as int),
                )
            },
    {
        if self.active_txn != Some(txn_id) {
            return Err(VolumeError::NotFound);
        }
        let ghost c0 = dev.contents();
        let ghost u = self.undo();
        let mut i: usize = self.active_undo.len();
        assert(u.subrange(0, i as int) =~= u);
        while i > 0
            invariant
                i <= self.active_undo@.len(),
                *self == *old(self),
                old(self).wf(),
                self.active_txn == Some(txn_id),
                u == self.undo(),
                forall|k: int| 0 <= k < u.len() ==> (#[trigger] u[k]).0 * self.block_size + u[k].1.len() <= u64::MAX,
                restore_all(c0, u, self.block_size as int) == restore_all(dev.contents(), u.subrange(0, i as int), self.block_size as int),
            decreases i,
        {
            i = i - 1;
            let ghost before = dev.contents();
            let b = self.active_undo[i].0;
            assert(u[i as int].0 == b && u[i as int].1 == self.active_undo@[i as int].1@);
            let off = b * self.block_size as u64;
            match dev.write(off, self.active_undo[i].1.as_slice()) {
                Ok(()) => {},
                Err(e) => return Err(VolumeError::Device(e)),
            }
            proof {
                assert(u.subrange(0, i + 1).last() == u[i as int]);
                assert(u.subrange(0, i + 1).drop_last() =~= u.subrange(0, i as int));
            }
        }
        assert(u.subrange(0, 0) =~= Seq::<(u64, Seq<u8>)>::empty());
        match dev.flush() {
            Ok(()) => {},
            Err(e) => return Err(VolumeError::Device(e)),
        }
        let entry = JournalEntry::new_abort(txn_id);
        self.write_entry(dev, &entry)?;
        self.active_txn = None;
        self.active_undo = Vec::new();
        assert(self.undo() =~= Seq::<(u64, Seq<u8>)>::empty());
        Ok(())
    }

    /// Whether a transaction is open.
    pub fn has_active_txn(&self) -> (r: bool)
        ensures
            r == self.active_txn is Some,
    {
        self.active_txn.is_some()
    }

    /// The open transaction's id.
    pub fn active_txn_id(&self) -> (r: Option<u64>)
        ensures
            r == self.active_txn,
    {
        self.active_txn
    }

    /// Mark the journal clean and save its superblock.
    pub fn mark_clean<D: CFSBlockDevice>(&mut self, dev: &mut D) -> (r: Result<(), VolumeError>)
        requires
            old(self).wf(),
        ensures
            final(self).wf(),
            *final(self) == old(self).with_jsb(JournalSuperblock { flags: JFLAG_CLEAN, ..old(self).jsb }),
            r is Ok ==> final(dev).contents() == written(
                old(dev).contents(),
                old(self).journal_start * old(self).block_size,
                jsb_bytes(final(self).jsb, old(self).block_size as int),
            ),
    {
        self.jsb.flags = JFLAG_CLEAN;
        self.jsb.flags = self.jsb.flags & !JFLAG_NEEDS_RECOVERY;
        assert(2u32 & !1u32 == 2u32) by (bit_vector);
        self.save_jsb(dev)
    }

    /// A summary of the journal's state.
    pub fn status(&self) -> (r: JournalStatus)
        requires
            self.jsb.tail <= self.jsb.capacity,
            self.jsb.head <= self.jsb.capacity,
        ensures
            r == (JournalStatus {
                journal_start: self.journal_start,
                capacity: self.jsb.capacity,
                used: spec_used(self.jsb.head, self.jsb.tail, self.jsb.capacity) as u64,
                sequence: self.jsb.sequence,
                head: self.jsb.head,
                tail: self.jsb.tail,
                needs_recovery: self.jsb.flags & JFLAG_NEEDS_RECOVERY != 0,
                clean: self.jsb.flags & JFLAG_CLEAN != 0,
                block_size: self.block_size,
            }),
    {
        JournalStatus {
            journal_start: self.journal_start,
            capacity: self.jsb.capacity,
            used: self.used_entries(),
            sequence: self.jsb.sequence,
            head: self.jsb.head,
            tail: self.jsb.tail,
            needs_recovery: self.jsb.needs_recovery(),
            clean: self.jsb.flags & JFLAG_CLEAN != 0,
            block_size: self.block_size,
        }
    }

    /// Lay out an empty journal of `journal_blocks` blocks from block
    /// `journal_start`: its superblock, then zeroed entry blocks; then flush.
    /// `Invalid` under 2 blocks.
    pub fn init<D: CFSBlockDevice>(dev: &mut D, journal_start: u64, journal_blocks: u64, block_size: u32) -> (r: Result<(), VolumeError>)
        requires
            block_size >= 48,
            (journal_start + journal_blocks) * block_size <= u64::MAX,
        ensures
            journal_blocks < 2 ==> r == Err::<(), VolumeError>(VolumeError::Invalid) && final(dev).contents() == old(dev).contents(),
            r is Ok ==> {
                let j = JournalSuperblock {
                    magic: JOURNAL_MAGIC,
                    version: JOURNAL_VERSION,
                    sequence: 1,
                    head: 0,
                    tail: 0,
                    capacity: (journal_blocks - 1) as u64,
                    flags: JFLAG_CLEAN,
                    checksum: 0,
                };
                &&& journal_blocks >= 2
                &&& final(dev).contents() == written(
                    old(dev).contents(),
                    journal_start * block_size,
                    jsb_bytes(j, block_size as int) + zeros(((journal_blocks - 1) * block_size) as nat),
                )
            },
    {
        if journal_blocks < 2 {
            return Err(VolumeError::Invalid);
        }
        let capacity = journal_blocks - 1;
        let jsb = JournalSuperblock::new(capacity);
        let bs = block_size as u64;
        proof {
            assert(journal_start * bs <= (journal_start + journal_blocks) * bs) by (nonlinear_arith);
            assert(journal_start + journal_blocks <= (journal_start + journal_blocks) * bs) by (nonlinear_arith)
                requires
                    bs >= 48,
            ;
        }
        let buf = jsb.serialize(block_size);
        let ghost c0 = dev.contents();
        let ghost jb = jsb_bytes(jsb, block_size as int);
        proof {
            lemma_jsb_roundtrip(jsb, block_size as int);
        }
        match dev.write(journal_start * bs, buf.as_slice()) {
            Ok(()) => {},
            Err(e) => return Err(VolumeError::Device(e)),
        }
        proof {
            lemma_written_len(c0, journal_start * bs, jb);
            assert(jb + zeros(0) =~= jb);
            assert(journal_start * bs + 1 * bs == journal_start * bs + bs);
        }
        let zero_buf = vec![0u8; block_size as usize];
        let mut i: u64 = 1;
        while i < journal_blocks
            invariant
                1 <= i <= journal_blocks,
                bs == block_size,
                bs >= 48,
                (journal_start + journal_blocks) * bs <= u64::MAX,
                zero_buf@ == zeros(bs as nat),
                jb.len() == bs,
                dev.contents() == written(c0, journal_start * bs, jb + zeros(((i - 1) * bs) as nat)),
                journal_start * bs + i * bs <= dev.contents().len(),
                dev.contents().len() == c0.len(),
            decreases journal_blocks - i,
        {
            proof {
                assert((journal_start + i) * bs + bs <= (journal_start + journal_blocks) * bs) by (nonlinear_arith)
                    requires
                        i < journal_blocks,
                ;
                assert(journal_start + i <= (journal_start + i) * bs) by (nonlinear_arith)
                    requires
                        bs >= 48,
                ;
            }
            let ghost before = dev.contents();
            match dev.write((journal_start + i) * bs, zero_buf.as_slice()) {
                Ok(()) => {},
                Err(e) => return Err(VolumeError::Device(e)),
            }
            proof {
                assert((journal_start + i) * bs == journal_start * bs + i * bs) by (nonlinear_arith);
                assert(i * bs == (i - 1) * bs + bs) by (nonlinear_arith);
                lemma_written_len(before, (journal_start + i) * bs, zero_buf@);
                assert((i + 1) * bs == i * bs + bs) by (nonlinear_arith);
                let pre = jb + zeros(((i - 1) * bs) as nat);
                crate::device::lemma_written_concat(c0, journal_start * bs, pre, zeros(bs as nat));
                assert(pre + zeros(bs as nat) =~= jb + zeros((i * bs) as nat));
            }
            i = i + 1;
        }
        match dev.flush() {
            Ok(()) => {},
            Err(e) => return Err(VolumeError::Device(e)),
        }
        Ok(())
    }

    /// The scan `checkpoint` makes of the log in device contents `c`, from
    /// slot `pos` with tail `tail`, the start of the current transaction
    /// `start` and `freed` slots reclaimed so far: the final tail and count.
    /// It stops at head, at an entry of unknown type, or after `fuel` entries.
    pub open spec fn checkpoint_scan(&self, c: Seq<u8>, pos: u64, tail: u64, start: u64, freed: int, fuel: nat) -> (u64, int)
        decreases fuel,
    {
        if fuel == 0 || pos == self.jsb.head {
            (tail, freed)
        } else {
            let t = c[self.slot_offset(pos) + 8];
            let p1 = self.spec_advance(pos);
            if t > 3 {
                (tail, freed)
            } else if t == 0 {
                self.checkpoint_scan(c, p1, tail, tail, freed, (fuel - 1) as nat)
            } else if t == 1 {
                self.checkpoint_scan(c, self.spec_advance(p1), tail, start, freed, (fuel - 1) as nat)
            } else {
                let e = if p1 >= start { p1 - start } else { self.jsb.capacity - start + p1 };
                self.checkpoint_scan(c, p1, p1, start, freed + e, (fuel - 1) as nat)
            }
        }
    }

    /// Every transaction in the log from slot `pos` to the head is complete:
    /// a begin record opens one; data records (two slots, the second not
    /// the head) and the closing commit or abort record belong to an open
    /// one; none is open at the head, which is reached within `fuel` records.
    pub open spec fn closed_from(&self, c: Seq<u8>, pos: u64, open: bool, fuel: nat) -> bool
        decreases fuel,
    {
        if pos == self.jsb.head {
            !open
        } else if fuel == 0 {
            false
        } else {
            let t = c[self.slot_offset(pos) + 8];
            let p1 = self.spec_advance(pos);
            if t == 0 {
                self.closed_from(c, p1, true, (fuel - 1) as nat)
            } else if t == 1 {
                open && p1 != self.jsb.head && self.closed_from(c, self.spec_advance(p1), true, (fuel - 1) as nat)
            } else if t == 2 || t == 3 {
                open && self.closed_from(c, p1, false, (fuel - 1) as nat)
            } else {
                false
            }
        }
    }

    /// Reclaim the slots of completed (committed or aborted) transactions by
    /// moving the tail past them, scanning from the tail towards the head
    /// (at most one pass over the log); the superblock is saved when slots
    /// were reclaimed. Returns the number of slots reclaimed.
    pub fn checkpoint<D: CFSBlockDevice>(&mut self, dev: &mut D) -> (r: Result<u64, VolumeError>)
        requires
            old(self).wf(),
            old(self).jsb.capacity <= 0xffff_ffff,
        ensures
            final(self).wf(),
            r matches Ok(freed) ==> {
                let (t, f) = old(self).checkpoint_scan(old(dev).contents(), old(self).jsb.tail, old(self).jsb.tail, old(self).jsb.tail, 0, old(self).jsb.capacity as nat);
                &&& freed == f
                &&& *final(self) == old(self).with_jsb(JournalSuperblock { tail: t, ..old(self).jsb })
                &&& f == 0 ==> final(dev).contents() == old(dev).contents()
                &&& f > 0 ==> final(dev).contents() == written(
                    old(dev).contents(),
                    old(self).journal_start * old(self).block_size,
                    jsb_bytes(final(self).jsb, old(self).block_size as int),
                )
            },
    {
        let ghost c0 = dev.contents();
        let ghost j0 = *self;
        let cap = self.jsb.capacity;
        let mut pos = self.jsb.tail;
        let mut freed: u64 = 0;
        let mut txn_start = pos;
        let mut steps: u64 = 0;
        while steps < cap && pos != self.jsb.head
            invariant
                j0.wf(),
                cap == j0.jsb.capacity,
                cap <= 0xffff_ffff,
                *self == j0.with_jsb(JournalSuperblock { tail: self.jsb.tail, ..j0.jsb }),
                self.jsb.tail < cap,
                pos < cap,
                txn_start < cap,
                steps <= cap,
                freed <= steps * cap,
                dev.contents() == c0,
                j0.checkpoint_scan(c0, j0.jsb.tail, j0.jsb.tail, j0.jsb.tail, 0, cap as nat)
                    == j0.checkpoint_scan(c0, pos, self.jsb.tail, txn_start, freed as int, (cap - steps) as nat),
            ensures
                *self == j0.with_jsb(JournalSuperblock { tail: self.jsb.tail, ..j0.jsb }),
                self.jsb.tail < cap,
                dev.contents() == c0,
                j0.checkpoint_scan(c0, j0.jsb.tail, j0.jsb.tail, j0.jsb.tail, 0, cap as nat) == (self.jsb.tail, freed as int),
            decreases cap - steps,
        {
            let off = self.slot_offset_of(pos);
            let buf = match dev.read(off, self.block_size as usize) {
                Ok(v) => v,
                Err(e) => return Err(VolumeError::Device(e)),
            };
            let entry = match JournalEntry::deserialize_header(buf.as_slice(), self.block_size) {
                Ok(e) => e,
                Err(_) => {
                    proof {
                        assert(buf@[8] == c0[self.slot_offset(pos) + 8]);
                    }
                    break;
                },
            };
            assert(buf@[8] == c0[self.slot_offset(pos) + 8]);
            pos = self.advance(pos);
            match entry.entry_type {
                EntryType::TxnBegin => {
                    txn_start = self.jsb.tail;
                },
                EntryType::BlockData => {
                    pos = self.advance(pos);
                },
                EntryType::TxnCommit | EntryType::TxnAbort => {
                    let to_free = if pos >= txn_start {
                        pos - txn_start
                    } else {
                        self.jsb.capacity - txn_start + pos
                    };
                    self.jsb.tail = pos;
                    proof {
                        assert(freed + to_free <= (steps + 1) * cap) by (nonlinear_arith)
                            requires
                                freed <= steps * cap,
                                to_free <= cap,
                        ;
                        assert((steps + 1) * cap <= 0x1_0000_0000 * 0xffff_ffffu64) by (nonlinear_arith)
                            requires
                                steps < cap,
                                cap <= 0xffff_ffff,
                        ;
                    }
                    freed = freed + to_free;
                },
            }
            proof {
                assert(freed <= (steps + 1) * cap) by (nonlinear_arith)
                    requires
                        freed <= steps * cap || freed <= (steps + 1) * cap,
                        cap >= 0,
                ;
            }
            steps = steps + 1;
        }
        if freed > 0 {
            self.save_jsb(dev)?;
        }
        Ok(freed)
    }
}


/// Slot `b` lies `b - a` slots past slot `a` on the circular log, counted
/// from `t0`, when `b - a` is below the capacity.
proof fn lemma_arc(t0: int, a: int, b: int, cap: int)
    requires
        cap > 0,
        0 <= t0 < cap,
        0 <= a <= b,
        b - a < cap,
    ensures
        ({
            let x = (t0 + a) % cap;
            let y = (t0 + b) % cap;
            (if y >= x { y - x } else { cap - x + y }) == b - a
        }),
{
    let x = (t0 + a) % cap;
    let y = (t0 + b) % cap;
    let qa = (t0 + a) / cap;
    let qb = (t0 + b) / cap;
    vstd::arithmetic::div_mod::lemma_fundamental_div_mod(t0 + a, cap);
    vstd::arithmetic::div_mod::lemma_fundamental_div_mod(t0 + b, cap);
    assert(0 <= x < cap && 0 <= y < cap);
    assert((qb - qa) * cap == (b - a) - (y - x)) by (nonlinear_arith)
        requires
            t0 + a == cap * qa + x,
            t0 + b == cap * qb + y,
    ;
    assert(qb - qa == 0 || qb - qa == 1) by (nonlinear_arith)
        requires
            (qb - qa) * cap == (b - a) - (y - x),
            0 <= b - a < cap,
            0 <= x < cap,
            0 <= y < cap,
            cap > 0,
    ;
    if qb - qa == 1 {
        assert((qb - qa) * cap == cap);
    } else {
        assert((qb - qa) * cap == 0);
    }
}

/// One step along the log from slot `(t0 + w) % cap` lands on `(t0 + w + 1) % cap`.
proof fn lemma_step(t0: int, w: int, cap: int)
    requires
        cap > 0,
        0 <= t0 < cap,
        0 <= w,
    ensures
        (((t0 + w) % cap) + 1) % cap == (t0 + w + 1) % cap,
{
    vstd::arithmetic::div_mod::lemma_add_mod_noop(t0 + w, 1, cap);
    if cap > 1 {
        vstd::arithmetic::div_mod::lemma_small_mod(1nat, cap as nat);
    }
}

/// The checkpoint scan from slot `(tail + w) % cap`, with the transactions
/// before it complete up to `(tail + wt) % cap` and `wt` slots freed, ends
/// at the head having freed every used slot.
proof fn lemma_scan_closed(j: Journal, c: Seq<u8>, pos: u64, tail_t: u64, start: u64, freed: int, open: bool, fuel: nat, w: int, wt: int)
    requires
        j.wf(),
        0 <= wt <= w <= spec_used(j.jsb.head, j.jsb.tail, j.jsb.capacity),
        pos == (j.jsb.tail + w) % (j.jsb.capacity as int),
        tail_t == (j.jsb.tail + wt) % (j.jsb.capacity as int),
        freed == wt,
        open ==> start == tail_t,
        !open ==> wt == w,
        j.closed_from(c, pos, open, fuel),
    ensures
        j.checkpoint_scan(c, pos, tail_t, start, freed, fuel) == (j.jsb.head, spec_used(j.jsb.head, j.jsb.tail, j.jsb.capacity)),
    decreases fuel,
{
    let cap = j.jsb.capacity as int;
    let t0 = j.jsb.tail as int;
    let used = spec_used(j.jsb.head, j.jsb.tail, j.jsb.capacity);
    assert(used < cap);
    assert(j.jsb.head == (t0 + used) % cap) by {
        if j.jsb.head >= j.jsb.tail {
            vstd::arithmetic::div_mod::lemma_small_mod(j.jsb.head as nat, cap as nat);
        } else {
            vstd::arithmetic::div_mod::lemma_mod_add_multiples_vanish(j.jsb.head as int, cap);
            vstd::arithmetic::div_mod::lemma_small_mod(j.jsb.head as nat, cap as nat);
        }
    }
    lemma_arc(t0, w, used, cap);
    if pos == j.jsb.head {
        assert(w == used);
    } else {
        assert(w < used);
        let t = c[j.slot_offset(pos) + 8];
        let p1 = j.spec_advance(pos);
        lemma_step(t0, w, cap);
        assert(p1 == (t0 + w + 1) % cap);
        if t == 0 {
            lemma_scan_closed(j, c, p1, tail_t, tail_t, freed, true, (fuel - 1) as nat, w + 1, wt);
        } else if t == 1 {
            lemma_arc(t0, w + 1, used, cap);
            assert(w + 1 < used);
            lemma_step(t0, w + 1, cap);
            lemma_scan_closed(j, c, j.spec_advance(p1), tail_t, start, freed, true, (fuel - 1) as nat, w + 2, wt);
        } else {
            assert(t == 2 || t == 3);
            lemma_arc(t0, wt, w + 1, cap);
            let e = if p1 >= start { p1 - start } else { j.jsb.capacity - start + p1 };
            assert(e == w + 1 - wt);
            lemma_scan_closed(j, c, p1, p1, start, freed + e, false, (fuel - 1) as nat, w + 1, w + 1);
        }
    }
}

/// When every transaction in the log is complete, a checkpoint reclaims
/// every used slot: the tail moves to the head.
pub proof fn lemma_checkpoint_frees_all(j: Journal, c: Seq<u8>)
    requires
        j.wf(),
        j.closed_from(c, j.jsb.tail, false, j.jsb.capacity as nat),
    ensures
        j.checkpoint_scan(c, j.jsb.tail, j.jsb.tail, j.jsb.tail, 0, j.jsb.capacity as nat)
            == (j.jsb.head, spec_used(j.jsb.head, j.jsb.tail, j.jsb.capacity)),
{
    vstd::arithmetic::div_mod::lemma_small_mod(j.jsb.tail as nat, j.jsb.capacity as nat);
    lemma_scan_closed(j, c, j.jsb.tail, j.jsb.tail, j.jsb.tail, 0, false, j.jsb.capacity as nat, 0, 0);
}

// ---------------------------------------------------------------------------
// Recovery
// ---------------------------------------------------------------------------

/// What recovery learns of one transaction while scanning the log.
pub struct TxnView {
    pub id: u64,
    pub has_begin: bool,
    pub has_commit: bool,
    pub has_abort: bool,
    pub corrupt: bool,
    pub undo: Seq<(u64, Seq<u8>)>,
}

/// What one scanned entry says of its transaction.
pub enum ScanEvent {
    Begin,
    Commit,
    Abort,
    /// An undo record whose data failed its checksum.
    Corrupt,
    Undo(u64, Seq<u8>),
}

pub open spec fn fresh_txn(id: u64) -> TxnView {
    TxnView { id, has_begin: false, has_commit: false, has_abort: false, corrupt: false, undo: Seq::empty() }
}

pub open spec fn apply_event(t: TxnView, ev: ScanEvent) -> TxnView {
    match ev {
        ScanEvent::Begin => TxnView { has_begin: true, ..t },
        ScanEvent::Commit => TxnView { has_commit: true, ..t },
        ScanEvent::Abort => TxnView { has_abort: true, ..t },
        ScanEvent::Corrupt => TxnView { corrupt: true, ..t },
        ScanEvent::Undo(b, d) => TxnView { undo: t.undo.push((b, d)), ..t },
    }
}

pub open spec fn ids_distinct(txns: Seq<TxnView>) -> bool {
    forall|i: int, j: int| 0 <= i < j < txns.len() ==> (#[trigger] txns[i]).id != (#[trigger] txns[j]).id
}

pub open spec fn has_txn(txns: Seq<TxnView>, id: u64) -> bool {
    exists|i: int| 0 <= i < txns.len() && (#[trigger] txns[i]).id == id
}

/// The transactions after an event of transaction `id`: its record is
/// updated, or a new record is added after the others (first-seen order).
pub open spec fn record_event(txns: Seq<TxnView>, id: u64, ev: ScanEvent) -> Seq<TxnView> {
    if has_txn(txns, id) {
        let i = choose|i: int| 0 <= i < txns.len() && (#[trigger] txns[i]).id == id;
        txns.update(i, apply_event(txns[i], ev))
    } else {
        txns.push(apply_event(fresh_txn(id), ev))
    }
}

/// The event of an undo record with header `hdr` and data block `data`:
/// its data when the length fits the block and the checksum holds, else
/// corrupt.
pub open spec fn data_event(hdr: Seq<u8>, data: Seq<u8>) -> ScanEvent {
    let n = le32(hdr, 20) as int;
    if n <= data.len() && le32(hdr, 24) == crc32(hdr.subrange(0, 24) + data.subrange(0, n)) {
        ScanEvent::Undo(le64(hdr, 12), data.subrange(0, n))
    } else {
        ScanEvent::Corrupt
    }
}

/// Begun, and neither committed nor aborted; or with corrupt undo data.
pub open spec fn incomplete(t: TxnView) -> bool {
    (t.has_begin && !t.has_commit && !t.has_abort) || t.corrupt
}

/// Device contents after rolling back the incomplete transactions, in
/// first-seen order, each one's records last first.
pub open spec fn undo_incomplete(c: Seq<u8>, txns: Seq<TxnView>, bs: int) -> Seq<u8>
    decreases txns.len(),
{
    if txns.len() == 0 {
        c
    } else {
        let c1 = undo_incomplete(c, txns.drop_last(), bs);
        if incomplete(txns.last()) {
            restore_all(c1, txns.last().undo, bs)
        } else {
            c1
        }
    }
}

/// Recovery never rolls back a complete transaction: when every
/// transaction seen has a commit or an abort record and no corrupt undo
/// data, the device is left as it is.
pub proof fn lemma_complete_txns_kept(c: Seq<u8>, txns: Seq<TxnView>, bs: int)
    requires
        forall|i: int| 0 <= i < txns.len() ==> ((#[trigger] txns[i]).has_commit || txns[i].has_abort) && !txns[i].corrupt,
    ensures
        undo_incomplete(c, txns, bs) == c,
    decreases txns.len(),
{
    if txns.len() > 0 {
        assert(txns.last() == txns[txns.len() - 1]);
        lemma_complete_txns_kept(c, txns.drop_last(), bs);
    }
}

/// Rolling back touches only the transactions that began and have neither a
/// commit nor an abort record, or whose undo data is corrupt: appending a
/// complete transaction to those seen changes nothing.
pub proof fn lemma_complete_txn_not_undone(c: Seq<u8>, txns: Seq<TxnView>, t: TxnView, bs: int)
    requires
        t.has_commit || t.has_abort,
        !t.corrupt,
    ensures
        undo_incomplete(c, txns.push(t), bs) == undo_incomplete(c, txns, bs),
{
    assert(txns.push(t).drop_last() =~= txns);
}

/// An open transaction (begun, neither committed nor aborted) is rolled
/// back: its undo records are restored over what came before.
pub proof fn lemma_open_txn_undone(c: Seq<u8>, txns: Seq<TxnView>, t: TxnView, bs: int)
    requires
        t.has_begin,
        !t.has_commit,
        !t.has_abort,
    ensures
        undo_incomplete(c, txns.push(t), bs) == restore_all(undo_incomplete(c, txns, bs), t.undo, bs),
{
    assert(txns.push(t).drop_last() =~= txns);
}

/// A stored journal superblock that decodes: long enough, with the magic,
/// the version and a matching checksum.
pub open spec fn jsb_valid(buf: Seq<u8>) -> bool {
    &&& buf.len() >= 48
    &&& buf.subrange(0, 4) == journal_magic()
    &&& le32(buf, 4) == JOURNAL_VERSION
    &&& le32(buf, 44) == crc32(buf.subrange(0, 44))
}

/// Per-transaction state kept while scanning the log.
struct TxnRecord {
    txn_id: u64,
    has_begin: bool,
    has_commit: bool,
    has_abort: bool,
    has_corrupt_data: bool,
    undo_records: Vec<(u64, Vec<u8>)>,
}

impl TxnRecord {
    spec fn view(&self) -> TxnView {
        TxnView {
            id: self.txn_id,
            has_begin: self.has_begin,
            has_commit: self.has_commit,
            has_abort: self.has_abort,
            corrupt: self.has_corrupt_data,
            undo: self.undo_records@.map_values(|p: (u64, Vec<u8>)| (p.0, p.1@)),
        }
    }

    fn new(txn_id: u64) -> (r: Self)
        ensures
            r.view() == fresh_txn(txn_id),
    {
        let r = TxnRecord {
            txn_id,
            has_begin: false,
            has_commit: false,
            has_abort: false,
            has_corrupt_data: false,
            undo_records: Vec::new(),
        };
        assert(r.view().undo =~= Seq::<(u64, Seq<u8>)>::empty());
        r
    }
}

spec fn txn_views(v: Seq<TxnRecord>) -> Seq<TxnView> {
    v.map_values(|t: TxnRecord| t.view())
}

/// A scanned event, with the data of an undo record.
enum Note {
    Begin,
    Commit,
    Abort,
    Corrupt,
    Undo(u64, Vec<u8>),
}

impl Note {
    spec fn view(&self) -> ScanEvent {
        match self {
            Note::Begin => ScanEvent::Begin,
            Note::Commit => ScanEvent::Commit,
            Note::Abort => ScanEvent::Abort,
            Note::Corrupt => ScanEvent::Corrupt,
            Note::Undo(b, d) => ScanEvent::Undo(*b, d@),
        }
    }
}

fn apply_note(t: TxnRecord, note: Note) -> (r: TxnRecord)
    ensures
        r.view() == apply_event(t.view(), note.view()),
{
    match note {
        Note::Begin => TxnRecord { has_begin: true, ..t },
        Note::Commit => TxnRecord { has_commit: true, ..t },
        Note::Abort => TxnRecord { has_abort: true, ..t },
        Note::Corrupt => TxnRecord { has_corrupt_data: true, ..t },
        Note::Undo(b, d) => {
            let ghost dv = d@;
            let mut t = t;
            let ghost u0 = t.view().undo;
            t.undo_records.push((b, d));
            assert(t.view().undo =~= u0.push((b, dv)));
            t
        },
    }
}

/// Record an event of transaction `id` (see `record_event`).
fn record_note(txns: &mut Vec<TxnRecord>, id: u64, note: Note)
    requires
        ids_distinct(txn_views(old(txns)@)),
    ensures
        txn_views(final(txns)@) == record_event(txn_views(old(txns)@), id, note.view()),
        ids_distinct(txn_views(final(txns)@)),
{
    let ghost v0 = txn_views(txns@);
    let mut k: usize = 0;
    while k < txns.len()
        invariant
            k <= txns@.len(),
            txn_views(txns@) == v0,
            txns@ == old(txns)@,
            ids_distinct(v0),
            forall|j: int| 0 <= j < k ==> (#[trigger] txns@[j]).txn_id != id,
        decreases txns@.len() - k,
    {
        if txns[k].txn_id == id {
            let ghost ev = note.view();
            let t = txns.remove(k);
            let t2 = apply_note(t, note);
            txns.insert(k, t2);
            proof {
                assert(txns@ =~= old(txns)@.update(k as int, t2));
                assert(v0[k as int].id == id);
                assert(has_txn(v0, id));
                let i = choose|i: int| 0 <= i < v0.len() && (#[trigger] v0[i]).id == id;
                assert(i == k as int);
                assert(txn_views(txns@) =~= v0.update(k as int, apply_event(v0[k as int], ev)));
            }
            return;
        }
        k = k + 1;
    }
    proof {
        assert forall|i: int| 0 <= i < v0.len() implies (#[trigger] v0[i]).id != id by {
            assert(txns@[i].txn_id != id);
        }
    }
    let ghost ev = note.view();
    let t = apply_note(TxnRecord::new(id), note);
    txns.push(t);
    assert(txn_views(txns@) =~= v0.push(apply_event(fresh_txn(id), ev)));
}

impl Journal {
    /// The block of entry slot `pos` in device contents `c`.
    pub open spec fn entry_block(&self, c: Seq<u8>, pos: u64) -> Seq<u8> {
        c.subrange(self.slot_offset(pos), self.slot_offset(pos) + self.block_size)
    }

    /// The scan recovery makes of the log in device contents `c` from slot
    /// `pos`: the transactions seen so far, updated with each entry. It stops
    /// at head, at an entry of unknown type, or after `fuel` entries. An
    /// undo record's data block follows its header unless the header is the
    /// last entry before head.
    pub open spec fn replay_scan(&self, c: Seq<u8>, pos: u64, txns: Seq<TxnView>, fuel: nat) -> Seq<TxnView>
        decreases fuel,
    {
        if fuel == 0 || pos == self.jsb.head {
            txns
        } else {
            let hdr = self.entry_block(c, pos);
            let t = hdr[8];
            let id = le64(hdr, 0);
            let p1 = self.spec_advance(pos);
            if t > 3 {
                txns
            } else if t == 1 && p1 != self.jsb.head {
                self.replay_scan(
                    c,
                    self.spec_advance(p1),
                    record_event(txns, id, data_event(hdr, self.entry_block(c, p1))),
                    (fuel - 1) as nat,
                )
            } else {
                let ev = if t == 0 {
                    ScanEvent::Begin
                } else if t == 1 {
                    ScanEvent::Undo(le64(hdr, 12), Seq::empty())
                } else if t == 2 {
                    ScanEvent::Commit
                } else {
                    ScanEvent::Abort
                };
                self.replay_scan(c, p1, record_event(txns, id, ev), (fuel - 1) as nat)
            }
        }
    }

    /// Roll back what an interrupted session left: scan the log from tail to
    /// head (at most one pass), write back the undo records of every
    /// incomplete transaction, flush, and save an empty, clean journal
    /// superblock. `OutOfRange` for an undo record whose byte offset does not
    /// fit in 64 bits.
    fn replay<D: CFSBlockDevice>(&mut self, dev: &mut D) -> (r: Result<(), VolumeError>)
        requires
            old(self).wf(),
        ensures
            final(self).wf(),
            r is Ok ==> {
                let txns = old(self).replay_scan(old(dev).contents(), old(self).jsb.tail, Seq::empty(), old(self).jsb.capacity as nat);
                let j1 = JournalSuperblock { head: 0, tail: 0, flags: JFLAG_CLEAN, ..old(self).jsb };
                &&& *final(self) == old(self).with_jsb(j1)
                &&& final(dev).contents() == written(
                    undo_incomplete(old(dev).contents(), txns, old(self).block_size as int),
                    old(self).journal_start * old(self).block_size,
                    jsb_bytes(j1, old(self).block_size as int),
                )
            },
    {
        let ghost c0 = dev.contents();
        let ghost j0 = *self;
        let cap = self.jsb.capacity;
        let mut txns: Vec<TxnRecord> = Vec::new();
        let mut pos = self.jsb.tail;
        let mut steps: u64 = 0;
        assert(txn_views(txns@) =~= Seq::<TxnView>::empty());
        while steps < cap && pos != self.jsb.head
            invariant
                j0.wf(),
                *self == j0,
                cap == j0.jsb.capacity,
                pos < cap,
                steps <= cap,
                dev.contents() == c0,
                ids_distinct(txn_views(txns@)),
                j0.replay_scan(c0, j0.jsb.tail, Seq::empty(), cap as nat) == j0.replay_scan(
                    c0,
                    pos,
                    txn_views(txns@),
                    (cap - steps) as nat,
                ),
            ensures
                *self == j0,
                dev.contents() == c0,
                j0.replay_scan(c0, j0.jsb.tail, Seq::empty(), cap as nat) == txn_views(txns@),
            decreases cap - steps,
        {
            let off = self.slot_offset_of(pos);
            let hdr = match dev.read(off, self.block_size as usize) {
                Ok(v) => v,
                Err(e) => return Err(VolumeError::Device(e)),
            };
            assert(hdr@ == self.entry_block(c0, pos));
            let entry = match JournalEntry::deserialize_header(hdr.as_slice(), self.block_size) {
                Ok(e) => e,
                Err(_) => {
                    break;
                },
            };
            let p1 = self.advance(pos);
            let id = entry.txn_id;
            let note = if entry.entry_type == EntryType::BlockData && p1 != self.jsb.head {
                let off2 = self.slot_offset_of(p1);
                let data = match dev.read(off2, self.block_size as usize) {
                    Ok(v) => v,
                    Err(e) => return Err(VolumeError::Device(e)),
                };
                assert(data@ == self.entry_block(c0, p1));
                pos = self.advance(p1);
                let mut e = entry;
                if (e.data_len as usize) <= data.len() {
                    match e.read_data_block(hdr.as_slice(), data.as_slice()) {
                        Ok(()) => Note::Undo(e.target_block, e.data),
                        Err(_) => Note::Corrupt,
                    }
                } else {
                    Note::Corrupt
                }
            } else {
                pos = p1;
                match entry.entry_type {
                    EntryType::TxnBegin => Note::Begin,
                    EntryType::BlockData => {
                        let empty: Vec<u8> = Vec::new();
                        assert(empty@ =~= Seq::<u8>::empty());
                        Note::Undo(entry.target_block, empty)
                    },
                    EntryType::TxnCommit => Note::Commit,
                    EntryType::TxnAbort => Note::Abort,
                }
            };
            record_note(&mut txns, id, note);
            steps = steps + 1;
        }
        let ghost tv = txn_views(txns@);
        let bs64 = self.block_size as u64;
        let mut i: usize = 0;
        assert(tv.take(0) =~= Seq::<TxnView>::empty());
        while i < txns.len()
            invariant
                *self == j0,
                j0.wf(),
                bs64 == j0.block_size,
                i <= txns@.len(),
                tv == txn_views(txns@),
                dev.contents() == undo_incomplete(c0, tv.take(i as int), bs64 as int),
            decreases txns@.len() - i,
        {
            let ghost cur = dev.contents();
            let ghost t = tv[i as int];
            proof {
                assert(tv.take(i + 1).drop_last() =~= tv.take(i as int));
                assert(tv.take(i + 1).last() == t);
            }
            if (txns[i].has_begin && !txns[i].has_commit && !txns[i].has_abort) || txns[i].has_corrupt_data {
                let ghost u = t.undo;
                let mut k: usize = txns[i].undo_records.len();
                assert(u.subrange(0, k as int) =~= u);
                while k > 0
                    invariant
                        *self == j0,
                        j0.wf(),
                        bs64 == j0.block_size,
                        i < txns@.len(),
                        tv == txn_views(txns@),
                        t == tv[i as int],
                        u == t.undo,
                        k <= txns@[i as int].undo_records@.len(),
                        restore_all(cur, u, bs64 as int) == restore_all(dev.contents(), u.subrange(0, k as int), bs64 as int),
                    decreases k,
                {
                    k = k - 1;
                    let target = txns[i].undo_records[k].0;
                    assert(u[k as int].0 == target && u[k as int].1 == txns@[i as int].undo_records@[k as int].1@);
                    let off = match target.checked_mul(bs64) {
                        Some(o) => o,
                        None => return Err(VolumeError::OutOfRange),
                    };
                    match dev.write(off, txns[i].undo_records[k].1.as_slice()) {
                        Ok(()) => {},
                        Err(e) => return Err(VolumeError::Device(e)),
                    }
                    proof {
                        assert(u.subrange(0, k + 1).last() == u[k as int]);
                        assert(u.subrange(0, k + 1).drop_last() =~= u.subrange(0, k as int));
                    }
                }
                assert(u.subrange(0, 0) =~= Seq::<(u64, Seq<u8>)>::empty());
            }
            i = i + 1;
        }
        assert(tv.take(tv.len() as int) =~= tv);
        match dev.flush() {
            Ok(()) => {},
            Err(e) => return Err(VolumeError::Device(e)),
        }
        self.jsb.head = 0;
        self.jsb.tail = 0;
        self.jsb.flags = JFLAG_CLEAN;
        self.save_jsb(dev)
    }

    /// Read the journal superblock at block `journal_start` and, when it says
    /// the journal needs recovery, roll back the incomplete transactions (see
    /// `replay`). Errors of decoding the superblock are passed on; `Invalid`
    /// when recovery is needed but the stored positions do not fit the log
    /// (no slots, head or tail past the end, a block under 48 bytes, or a
    /// region whose offsets overflow).
    pub fn load<D: CFSBlockDevice>(dev: &mut D, journal_start: u64, journal_blocks: u64, block_size: u32) -> (r: Result<Journal, VolumeError>)
        requires
            (journal_start + 1) * block_size <= u64::MAX,
        ensures
            ({
                let bs = block_size as int;
                let off = journal_start * bs;
                let c0 = old(dev).contents();
                let buf = c0.subrange(off, off + bs);
                let cap = le64(buf, 32);
                let rec = le32(buf, 40) & JFLAG_NEEDS_RECOVERY != 0;
                let fits = cap > 0 && le64(buf, 16) < cap && le64(buf, 24) < cap && bs >= 48 && (journal_start + 1 + cap) * bs <= u64::MAX;
                &&& off + bs <= c0.len() && !jsb_valid(buf) ==> r is Err
                &&& off + bs <= c0.len() && jsb_valid(buf) && rec && !fits ==> r is Err
                &&& r matches Ok(j) ==> {
                    let j0 = Journal { jsb: JournalSuperblock { head: le64(buf, 16), tail: le64(buf, 24), flags: le32(buf, 40), ..j.jsb }, ..j };
                    &&& off + bs <= c0.len() && jsb_valid(buf)
                    &&& j.journal_start == journal_start
                    &&& j.block_size == block_size
                    &&& j.active_txn is None
                    &&& j.active_undo@.len() == 0
                    &&& jsb_matches(j0.jsb, buf)
                    &&& !rec ==> j == j0 && final(dev).contents() == c0
                    &&& rec ==> {
                        &&& j0.wf()
                        &&& j.jsb.head == 0 && j.jsb.tail == 0 && j.jsb.flags == JFLAG_CLEAN
                        &&& final(dev).contents() == written(
                            undo_incomplete(c0, j0.replay_scan(c0, j0.jsb.tail, Seq::empty(), j0.jsb.capacity as nat), bs),
                            off,
                            jsb_bytes(j.jsb, bs),
                        )
                    }
                }
            }),
    {
        let bs = block_size as u64;
        proof {
            assert(journal_start * bs <= (journal_start + 1) * bs) by (nonlinear_arith);
        }
        let off = journal_start * bs;
        let buf = match dev.read(off, block_size as usize) {
            Ok(v) => v,
            Err(e) => return Err(VolumeError::Device(e)),
        };
        let jsb = match JournalSuperblock::deserialize(buf.as_slice()) {
            Ok(j) => j,
            Err(e) => return Err(e),
        };
        let mut journal = Journal { jsb, journal_start, block_size, active_txn: None, active_undo: Vec::new() };
        if journal.jsb.needs_recovery() {
            let cap = journal.jsb.capacity;
            if cap == 0 || journal.jsb.head >= cap || journal.jsb.tail >= cap || block_size < 48 {
                return Err(VolumeError::Invalid);
            }
            let room = match journal_start.checked_add(1) {
                Some(n1) => match n1.checked_add(cap) {
                    Some(n) => n.checked_mul(bs),
                    None => None,
                },
                None => None,
            };
            if room.is_none() {
                return Err(VolumeError::Invalid);
            }
            journal.replay(dev)?;
        }
        Ok(journal)
    }
}

/// Journal size in blocks from the size that the volume's journal share
/// asks for (`raw_blocks`) and one percent of the volume
/// (`one_percent_blocks`): at least 64 blocks, and at most the larger of one
/// percent of the volume and 131072 blocks.
pub fn clamp_journal_blocks(raw_blocks: u64, one_percent_blocks: u64) -> (r: u64)
    ensures
        r == (if raw_blocks < 64 {
            64
        } else if raw_blocks > (if one_percent_blocks > 131072 { one_percent_blocks } else { 131072 }) {
            if one_percent_blocks > 131072 { one_percent_blocks } else { 131072 }
        } else {
            raw_blocks
        }),
{
    let max_blocks: u64 = if one_percent_blocks > 131072 { one_percent_blocks } else { 131072 };
    if raw_blocks < 64 {
        64
    } else if raw_blocks > max_blocks {
        max_blocks
    } else {
        raw_blocks
    }
}

} // verus!
