//! Directory entries: the 128-byte record, the rules for entry names, and
//! the checksum record kept in the last slot of a v3 directory block.

use vstd::prelude::*;
use vstd::slice::slice_subrange;
use crate::codec::{le32, enc32, zeros, crc32, crc32_hash, lemma_codec_roundtrip, get_u32, push_u32, push_bytes, put_bytes, push_zeros, bytes_eq};
use crate::device::{CFSBlockDevice, written};
use crate::inode::Inode;
use crate::file_io::{get_block_ptr, set_block_ptr, block_offset, now_timestamp, file_block_ptr, uses_extents};
use crate::extent::{flat_root, root_leaves, disjoint_sorted};
use crate::block_alloc::BlockAlloc;
use crate::superblock::Superblock;
use crate::extent_tree::sb_spent;
use crate::htree::{HTree, should_convert_to_htree};
use crate::inode::INODE_FLAG_HTREE;
use crate::INODE_DIR;
use crate::error::VolumeError;
use vstd::string::StringSliceAdditionalSpecFns;

verus! {

pub const DIR_ENTRY_SIZE: usize = 128;

pub const MAX_NAME_LEN: usize = 122;

/// File types stored in directory entries.
pub const DIR_ENTRY_FILE: u8 = 1;
pub const DIR_ENTRY_DIR: u8 = 2;
pub const DIR_ENTRY_SYMLINK: u8 = 3;

/// Marks the checksum record in the last slot of a v3 directory block.
pub const DIR_CHECKSUM_MAGIC: u32 = 0xDE01C5A0;

/// A directory entry: 4-byte inode number, file type, name length, and a
/// zero-padded name of up to 122 bytes.
#[derive(Debug, Clone, Copy)]
pub struct DirEntry {
    pub inode_index: u32,
    pub file_type: u8,
    pub name_len: u8,
    pub name: [u8; 122],
}

pub open spec fn entry_bytes(e: DirEntry) -> Seq<u8> {
    enc32(e.inode_index) + seq![e.file_type, e.name_len] + e.name@
}

/// `e` holds the fields of the 128-byte record at byte `off` of `b`.
pub open spec fn entry_at(e: DirEntry, b: Seq<u8>, off: int) -> bool {
    &&& e.inode_index == le32(b, off)
    &&& e.file_type == b[off + 4]
    &&& e.name_len == b[off + 5]
    &&& e.name@ == b.subrange(off + 6, off + 128)
}

/// A byte that may not appear in a name: control characters (including
/// NUL), path separators and `< > : " | ? *`.
pub open spec fn forbidden_byte(c: u8) -> bool {
    c < 0x20 || c == 0x2F || c == 0x5C || c == 0x3C || c == 0x3E || c == 0x3A || c == 0x22 || c == 0x7C || c == 0x3F || c == 0x2A
}

/// The part of a name before its first dot.
pub open spec fn stem(b: Seq<u8>) -> Seq<u8>
    decreases b.len(),
{
    if b.len() == 0 || b[0] == 0x2E {
        Seq::empty()
    } else {
        seq![b[0]] + stem(b.drop_first())
    }
}

pub open spec fn ascii_upper(c: u8) -> u8 {
    if 0x61 <= c <= 0x7A {
        (c - 32) as u8
    } else {
        c
    }
}

/// CON, PRN, AUX, NUL, COM0-COM9 or LPT0-LPT9 (upper case).
pub open spec fn reserved_device(s: Seq<u8>) -> bool {
    ||| s =~= seq![0x43u8, 0x4Fu8, 0x4Eu8]
    ||| s =~= seq![0x50u8, 0x52u8, 0x4Eu8]
    ||| s =~= seq![0x41u8, 0x55u8, 0x58u8]
    ||| s =~= seq![0x4Eu8, 0x55u8, 0x4Cu8]
    ||| (s.len() == 4 && s[0] == 0x43 && s[1] == 0x4F && s[2] == 0x4D && 0x30 <= s[3] <= 0x39)
    ||| (s.len() == 4 && s[0] == 0x4C && s[1] == 0x50 && s[2] == 0x54 && 0x30 <= s[3] <= 0x39)
}

/// An acceptable entry name (as UTF-8 bytes): 1 to 122 bytes; "." and ".."
/// are allowed; otherwise no forbidden byte, a stem that is no reserved
/// device name in any case, and no trailing space or dot.
pub open spec fn valid_name(b: Seq<u8>) -> bool {
    &&& 0 < b.len() <= 122
    &&& (b =~= seq![0x2Eu8] || b =~= seq![0x2Eu8, 0x2Eu8] || {
        &&& forall|i: int| 0 <= i < b.len() ==> !forbidden_byte(#[trigger] b[i])
        &&& !reserved_device(stem(b).map_values(|c: u8| ascii_upper(c)))
        &&& b.last() != 0x20 && b.last() != 0x2E
    })
}

/// The upper-cased stem of `b`, computed.
fn upper_stem(b: &[u8]) -> (r: Vec<u8>)
    ensures
        r@ == stem(b@).map_values(|c: u8| ascii_upper(c)),
{
    let mut out: Vec<u8> = Vec::new();
    let mut i: usize = 0;
    while i < b.len() && b[i] != 0x2E
        invariant
            i <= b@.len(),
            forall|j: int| 0 <= j < i ==> b@[j] != 0x2E,
            out@ == stem(b@).subrange(0, i as int).map_values(|c: u8| ascii_upper(c)),
            stem(b@).len() >= i,
            stem(b@).subrange(0, i as int) == b@.subrange(0, i as int),
        decreases b@.len() - i,
    {
        proof {
            lemma_stem_prefix(b@, i as int + 1);
        }
        let c = b[i];
        let u = if 0x61 <= c && c <= 0x7A { c - 32 } else { c };
        out.push(u);
        i = i + 1;
        proof {
            assert(stem(b@).subrange(0, i as int).map_values(|c: u8| ascii_upper(c)) =~= out@);
        }
    }
    proof {
        lemma_stem_end(b@, i as int);
        assert(stem(b@).subrange(0, i as int) =~= stem(b@));
    }
    out
}

/// The stem agrees with the name on a dot-free prefix.
proof fn lemma_stem_prefix(b: Seq<u8>, k: int)
    requires
        0 <= k <= b.len(),
        forall|j: int| 0 <= j < k ==> b[j] != 0x2E,
    ensures
        stem(b).len() >= k,
        stem(b).subrange(0, k) == b.subrange(0, k),
    decreases b.len(),
{
    if k > 0 {
        let t = b.drop_first();
        assert(b[0] != 0x2E);
        assert forall|j: int| 0 <= j < k - 1 implies t[j] != 0x2E by {
            assert(b[j + 1] != 0x2E);
        }
        lemma_stem_prefix(t, k - 1);
        assert(stem(b) == seq![b[0]] + stem(t));
        assert forall|j: int| 0 <= j < k implies stem(b).subrange(0, k)[j] == b.subrange(0, k)[j] by {
            if j > 0 {
                assert(stem(t).subrange(0, k - 1)[j - 1] == t.subrange(0, k - 1)[j - 1]);
            }
        }
        assert(stem(b).subrange(0, k) =~= b.subrange(0, k));
    }
}

/// The stem ends at the first dot or at the end.
proof fn lemma_stem_end(b: Seq<u8>, k: int)
    requires
        0 <= k <= b.len(),
        forall|j: int| 0 <= j < k ==> b[j] != 0x2E,
        k == b.len() || b[k] == 0x2E,
    ensures
        stem(b).len() == k,
    decreases b.len(),
{
    if k > 0 {
        lemma_stem_end(b.drop_first(), k - 1);
    }
}

/// Check a name against `valid_name`; `Invalid` when it fails.
fn validate_name(b: &[u8]) -> (r: Result<(), VolumeError>)
    ensures
        r is Ok <==> valid_name(b@),
        r is Err ==> r == Err::<(), VolumeError>(VolumeError::Invalid),
{
    let n = b.len();
    if n == 0 || n > MAX_NAME_LEN {
        return Err(VolumeError::Invalid);
    }
    if n == 1 && b[0] == 0x2E {
        assert(b@ =~= seq![0x2Eu8]);
        return Ok(());
    }
    if n == 2 && b[0] == 0x2E && b[1] == 0x2E {
        assert(b@ =~= seq![0x2Eu8, 0x2Eu8]);
        return Ok(());
    }
    proof {
        if b@ =~= seq![0x2Eu8] {
            assert(b@[0] == 0x2E);
        }
        if b@ =~= seq![0x2Eu8, 0x2Eu8] {
            assert(b@[0] == 0x2E && b@[1] == 0x2E);
        }
    }
    let mut i: usize = 0;
    while i < n
        invariant
            n == b@.len(),
            i <= n,
            forall|j: int| 0 <= j < i ==> !forbidden_byte(#[trigger] b@[j]),
        decreases n - i,
    {
        let c = b[i];
        if c < 0x20 || c == 0x2F || c == 0x5C || c == 0x3C || c == 0x3E || c == 0x3A || c == 0x22 || c == 0x7C || c == 0x3F
            || c == 0x2A {
            assert(forbidden_byte(b@[i as int]));
            return Err(VolumeError::Invalid);
        }
        i = i + 1;
    }
    let s = upper_stem(b);
    let sl = s.len();
    let reserved = (sl == 3 && ((s[0] == 0x43 && s[1] == 0x4F && s[2] == 0x4E) || (s[0] == 0x50 && s[1] == 0x52 && s[2] == 0x4E)
        || (s[0] == 0x41 && s[1] == 0x55 && s[2] == 0x58) || (s[0] == 0x4E && s[1] == 0x55 && s[2] == 0x4C))) || (sl == 4
        && ((s[0] == 0x43 && s[1] == 0x4F && s[2] == 0x4D) || (s[0] == 0x4C && s[1] == 0x50 && s[2] == 0x54)) && 0x30 <= s[3]
        && s[3] <= 0x39);
    proof {
        let v = s@;
        if sl == 3 {
            assert(v =~= seq![v[0], v[1], v[2]]);
        }
        if reserved_device(v) {
            if v =~= seq![0x43u8, 0x4Fu8, 0x4Eu8] {
                assert(v[0] == 0x43 && v[1] == 0x4F && v[2] == 0x4E);
            }
            if v =~= seq![0x50u8, 0x52u8, 0x4Eu8] {
                assert(v[0] == 0x50 && v[1] == 0x52 && v[2] == 0x4E);
            }
            if v =~= seq![0x41u8, 0x55u8, 0x58u8] {
                assert(v[0] == 0x41 && v[1] == 0x55 && v[2] == 0x58);
            }
            if v =~= seq![0x4Eu8, 0x55u8, 0x4Cu8] {
                assert(v[0] == 0x4E && v[1] == 0x55 && v[2] == 0x4C);
            }
        }
    }
    if reserved {
        return Err(VolumeError::Invalid);
    }
    let last = b[n - 1];
    if last == 0x20 || last == 0x2E {
        return Err(VolumeError::Invalid);
    }
    Ok(())
}

impl DirEntry {
    /// An entry for `name`; `Invalid` unless the name is valid.
    pub fn new(inode_index: u32, file_type: u8, name: &str) -> (r: Result<Self, VolumeError>)
        ensures
            r is Ok <==> valid_name(name.spec_bytes()),
            r is Err ==> r == Err::<Self, VolumeError>(VolumeError::Invalid),
            r matches Ok(e) ==> {
                &&& e.inode_index == inode_index
                &&& e.file_type == file_type
                &&& e.name_len == name.spec_bytes().len()
                &&& e.name@ == name.spec_bytes() + zeros((122 - name.spec_bytes().len()) as nat)
            },
    {
        let bytes = name.as_bytes();
        validate_name(bytes)?;
        let n = bytes.len();
        let mut name_buf = [0u8; 122];
        let mut k: usize = 0;
        while k < n
            invariant
                n == bytes@.len(),
                n <= 122,
                k <= n,
                forall|j: int| 0 <= j < k ==> name_buf@[j] == bytes@[j],
                forall|j: int| k <= j < 122 ==> name_buf@[j] == 0u8,
            decreases n - k,
        {
            name_buf[k] = bytes[k];
            k = k + 1;
        }
        assert(name_buf@ =~= bytes@ + zeros((122 - n) as nat));
        Ok(DirEntry { inode_index, file_type, name_len: n as u8, name: name_buf })
    }

    /// The 128-byte record.
    pub fn serialize(&self) -> (r: Vec<u8>)
        ensures
            r@ == entry_bytes(*self),
    {
        let mut buf: Vec<u8> = Vec::new();
        push_u32(&mut buf, self.inode_index);
        buf.push(self.file_type);
        buf.push(self.name_len);
        push_bytes(&mut buf, self.name.as_slice());
        assert(buf@ =~= entry_bytes(*self));
        buf
    }

    /// Decode the first 128 bytes.
    pub fn deserialize(buf: &[u8]) -> (r: Self)
        requires
            buf@.len() >= 128,
        ensures
            entry_at(r, buf@, 0),
    {
        let mut name = [0u8; 122];
        let mut k: usize = 0;
        while k < 122
            invariant
                buf@.len() >= 128,
                k <= 122,
                forall|j: int| 0 <= j < k ==> name@[j] == buf@[6 + j],
            decreases 122 - k,
        {
            name[k] = buf[6 + k];
            k = k + 1;
        }
        assert(name@ =~= buf@.subrange(6, 128));
        DirEntry { inode_index: get_u32(buf, 0), file_type: buf[4], name_len: buf[5], name }
    }

    /// The name as text, or "<invalid>" when it is not UTF-8.
    pub fn name_str(&self) -> (r: &str)
        requires
            self.name_len <= 122,
        ensures
            r.spec_bytes() == shown_name(self.name@.subrange(0, self.name_len as int)),
    {
        let piece = slice_subrange(self.name.as_slice(), 0, self.name_len as usize);
        match utf8_str(piece) {
            Some(s) => s,
            None => "<invalid>",
        }
    }

    /// Unused: no inode and no name (the root's "." has inode 0 but a name).
    pub fn is_unused(&self) -> (r: bool)
        ensures
            r == (self.inode_index == 0 && self.name_len == 0),
    {
        self.inode_index == 0 && self.name_len == 0
    }
}

/// How a stored name reads as text: itself when it is UTF-8, else "<invalid>".
pub open spec fn shown_name(raw: Seq<u8>) -> Seq<u8> {
    if vstd::utf8::valid_utf8(raw) {
        raw
    } else {
        "<invalid>".spec_bytes()
    }
}

/// The entry stored at byte `off`.
pub fn read_entry_at(buf: &[u8], off: usize) -> (r: DirEntry)
    requires
        off + 128 <= buf@.len(),
    ensures
        entry_at(r, buf@, off as int),
{
    let _n = buf.len();
    let piece = slice_subrange(buf, off, off + DIR_ENTRY_SIZE);
    let e = DirEntry::deserialize(piece);
    proof {
        let b = buf@;
        let o = off as int;
        assert(piece@.subrange(0, 4) =~= b.subrange(o, o + 4));
        assert(piece@.subrange(6, 128) =~= b.subrange(o + 6, o + 128));
    }
    e
}

/// The records of a run of entries, back to back.
pub open spec fn entries_image(s: Seq<DirEntry>) -> Seq<u8>
    decreases s.len(),
{
    if s.len() == 0 {
        Seq::empty()
    } else {
        entries_image(s.drop_last()) + entry_bytes(s.last())
    }
}

pub proof fn lemma_entry_bytes_len(e: DirEntry)
    ensures
        entry_bytes(e).len() == 128,
{
    lemma_codec_roundtrip();
}

pub proof fn lemma_entries_image(s: Seq<DirEntry>)
    ensures
        entries_image(s).len() == 128 * s.len(),
        forall|k: int| 0 <= k < s.len() ==> entry_at(#[trigger] s[k], entries_image(s), 128 * k),
    decreases s.len(),
{
    if s.len() > 0 {
        let t = s.drop_last();
        lemma_entries_image(t);
        lemma_entry_bytes_len(s.last());
        lemma_codec_roundtrip();
        let img = entries_image(s);
        assert forall|k: int| 0 <= k < s.len() implies entry_at(#[trigger] s[k], img, 128 * k) by {
            if k < s.len() - 1 {
                assert(s[k] == t[k]);
                assert(img.subrange(128 * k, 128 * k + 4) =~= entries_image(t).subrange(128 * k, 128 * k + 4));
                assert(img.subrange(128 * k + 6, 128 * k + 128) =~= entries_image(t).subrange(128 * k + 6, 128 * k + 128));
            } else {
                let e = s.last();
                let o = 128 * k;
                assert(img.subrange(o, o + 4) =~= enc32(e.inode_index));
                assert(img.subrange(o + 6, o + 128) =~= e.name@);
            }
        }
    }
}

/// Calls `std::str::from_utf8`: the bytes as text when they are valid UTF-8.
#[verifier::external_body]
fn utf8_str<'a>(bytes: &'a [u8]) -> (r: Option<&'a str>)
    ensures
        r is Some <==> vstd::utf8::valid_utf8(bytes@),
        r matches Some(s) ==> s.spec_bytes() == bytes@,
{
    std::str::from_utf8(bytes).ok()
}

/// Entries per block of a v2 directory (no checksum record).
pub fn entries_per_block_v2(block_size: u32) -> (r: u32)
    ensures
        r == block_size / 128,
{
    block_size / DIR_ENTRY_SIZE as u32
}

/// Entries per block of a v3 directory (last slot holds the checksum record).
pub fn entries_per_block_v3(block_size: u32) -> (r: u32)
    requires
        block_size >= 128,
    ensures
        r == block_size / 128 - 1,
{
    (block_size / DIR_ENTRY_SIZE as u32) - 1
}

/// Byte offset of the last slot of a block.
pub open spec fn last_slot(block_size: u32) -> int {
    (block_size / 128 - 1) * 128
}

/// Whether the block's last slot starts with the checksum-record magic.
pub fn block_has_checksum(buf: &[u8], block_size: u32) -> (r: bool)
    requires
        block_size >= 128,
    ensures
        r == (buf@.len() >= last_slot(block_size) + 8 && le32(buf@, last_slot(block_size)) == DIR_CHECKSUM_MAGIC),
{
    let last = (entries_per_block_v2(block_size) - 1) as usize * DIR_ENTRY_SIZE;
    if buf.len() < last + 8 {
        return false;
    }
    get_u32(buf, last) == DIR_CHECKSUM_MAGIC
}

/// CRC-32 of the entry area (all slots but the last).
fn compute_dir_block_checksum(buf: &[u8], block_size: u32) -> (r: u32)
    requires
        block_size >= 128,
        last_slot(block_size) <= buf@.len(),
    ensures
        r == crc32(buf@.subrange(0, last_slot(block_size))),
{
    let data_len = entries_per_block_v3(block_size) as usize * DIR_ENTRY_SIZE;
    crc32_hash(slice_subrange(buf, 0, data_len))
}

/// The block with its last slot replaced by a checksum record: magic, the
/// CRC-32 of the entry area, zeros.
pub open spec fn stamped(b: Seq<u8>, block_size: u32) -> Seq<u8> {
    let ls = last_slot(block_size);
    b.subrange(0, ls) + enc32(DIR_CHECKSUM_MAGIC) + enc32(crc32(b.subrange(0, ls))) + zeros(120) + b.subrange(ls + 128, b.len() as int)
}

/// Write the checksum record into the last slot of a block.
pub fn stamp_checksum(buf: &mut Vec<u8>, block_size: u32)
    requires
        block_size >= 128,
        last_slot(block_size) + 128 <= old(buf)@.len(),
    ensures
        final(buf)@ == stamped(old(buf)@, block_size),
{
    proof {
        lemma_codec_roundtrip();
    }
    let cksum = compute_dir_block_checksum(buf.as_slice(), block_size);
    let last = entries_per_block_v3(block_size) as usize * DIR_ENTRY_SIZE;
    let mut rec: Vec<u8> = Vec::new();
    push_u32(&mut rec, DIR_CHECKSUM_MAGIC);
    push_u32(&mut rec, cksum);
    crate::codec::push_zeros(&mut rec, 120);
    let ghost b0 = buf@;
    put_bytes(buf, last, rec.as_slice());
    assert(buf@ =~= stamped(b0, block_size));
}

/// Check a v3 block's checksum record: `TooShort` when the block does not
/// reach it, `ChecksumMismatch` when it disagrees with the entry area.
pub fn verify_dir_block_checksum(buf: &[u8], block_size: u32) -> (r: Result<(), VolumeError>)
    requires
        block_size >= 128,
    ensures
        buf@.len() < last_slot(block_size) + 8 ==> r == Err::<(), VolumeError>(VolumeError::TooShort),
        buf@.len() >= last_slot(block_size) + 8 ==> {
            &&& r is Ok <==> le32(buf@, last_slot(block_size) + 4) == crc32(buf@.subrange(0, last_slot(block_size)))
            &&& r is Err ==> r == Err::<(), VolumeError>(VolumeError::ChecksumMismatch)
        },
{
    let last = entries_per_block_v3(block_size) as usize * DIR_ENTRY_SIZE;
    if buf.len() < last + 8 {
        return Err(VolumeError::TooShort);
    }
    let stored = get_u32(buf, last + 4);
    let computed = compute_dir_block_checksum(buf, block_size);
    if stored != computed {
        return Err(VolumeError::ChecksumMismatch);
    }
    Ok(())
}

/// A stamped block passes the checksum check.
pub proof fn lemma_stamped_verifies(b: Seq<u8>, block_size: u32)
    requires
        block_size >= 128,
        last_slot(block_size) + 128 <= b.len(),
    ensures
        stamped(b, block_size).len() == b.len(),
        le32(stamped(b, block_size), last_slot(block_size)) == DIR_CHECKSUM_MAGIC,
        le32(stamped(b, block_size), last_slot(block_size) + 4) == crc32(stamped(b, block_size).subrange(0, last_slot(block_size))),
{
    lemma_codec_roundtrip();
    let ls = last_slot(block_size);
    let s = stamped(b, block_size);
    assert(s.subrange(0, ls) =~= b.subrange(0, ls));
    assert(s.subrange(ls, ls + 4) =~= enc32(DIR_CHECKSUM_MAGIC));
    assert(s.subrange(ls + 4, ls + 8) =~= enc32(crc32(b.subrange(0, ls))));
}


/// Slot `k` of a directory block holds an entry: its inode number or its
/// name length is nonzero.
pub open spec fn slot_live(b: Seq<u8>, k: int) -> bool {
    !(le32(b, 128 * k) == 0 && b[128 * k + 5] == 0)
}

/// The live slots among the first `n`, in order.
pub open spec fn live_slots(b: Seq<u8>, n: int) -> Seq<int>
    decreases n,
{
    if n <= 0 {
        Seq::empty()
    } else if slot_live(b, n - 1) {
        live_slots(b, n - 1).push(n - 1)
    } else {
        live_slots(b, n - 1)
    }
}

/// Slot `k` is live and its name reads as `name`.
pub open spec fn slot_named(b: Seq<u8>, k: int, name: Seq<u8>) -> bool {
    &&& slot_live(b, k)
    &&& b[128 * k + 5] <= 122
    &&& shown_name(b.subrange(128 * k + 6, 128 * k + 6 + b[128 * k + 5])) == name
}

/// `b` with slot `k` zeroed.
pub open spec fn slot_cleared(b: Seq<u8>, k: int) -> Seq<u8> {
    b.subrange(0, 128 * k) + zeros(128) + b.subrange(128 * k + 128, b.len() as int)
}

/// `b` with the record of `e` in slot `k`.
pub open spec fn slot_filled(b: Seq<u8>, k: int, e: DirEntry) -> Seq<u8> {
    b.subrange(0, 128 * k) + entry_bytes(e) + b.subrange(128 * k + 128, b.len() as int)
}

/// The block holds a checksum record in its last slot.
pub open spec fn has_checksum(b: Seq<u8>, bs: u32) -> bool {
    b.len() >= last_slot(bs) + 8 && le32(b, last_slot(bs)) == DIR_CHECKSUM_MAGIC
}

/// Entry slots of a block: all but the last when it holds a checksum record.
pub open spec fn entry_slots(b: Seq<u8>, bs: u32) -> int {
    if has_checksum(b, bs) {
        bs / 128 - 1
    } else {
        (bs / 128) as int
    }
}

/// The live slots are in range, live, and increasing.
pub proof fn lemma_live_slots(b: Seq<u8>, n: int)
    ensures
        live_slots(b, n).len() <= if n < 0 { 0 } else { n },
        forall|i: int| 0 <= i < live_slots(b, n).len() ==> 0 <= #[trigger] live_slots(b, n)[i] < n && slot_live(b, live_slots(b, n)[i]),
    decreases n,
{
    if n > 0 {
        lemma_live_slots(b, n - 1);
    }
}

/// The live slots come in increasing order, and every live slot below `n`
/// is among them.
pub proof fn lemma_live_slots_complete(b: Seq<u8>, n: int)
    ensures
        forall|i: int, j: int| 0 <= i < j < live_slots(b, n).len() ==> live_slots(b, n)[i] < live_slots(b, n)[j],
        forall|k: int| 0 <= k < n && slot_live(b, k) ==> exists|i: int| 0 <= i < live_slots(b, n).len() && #[trigger] live_slots(b, n)[i] == k,
    decreases n,
{
    lemma_live_slots(b, n);
    if n > 0 {
        lemma_live_slots_complete(b, n - 1);
        lemma_live_slots(b, n - 1);
        let prev = live_slots(b, n - 1);
        assert forall|k: int| 0 <= k < n && slot_live(b, k) implies exists|i: int| 0 <= i < live_slots(b, n).len() && #[trigger] live_slots(b, n)[i] == k by {
            if k < n - 1 {
                let i = choose|i: int| 0 <= i < prev.len() && #[trigger] prev[i] == k;
                assert(live_slots(b, n)[i] == k);
            } else {
                assert(live_slots(b, n)[prev.len() as int] == k);
            }
        }
    }
}

/// The slot at position `pos` of the device holds a live entry named `name`.
pub open spec fn pos_named(c: Seq<u8>, bs: u32, pos: (u64, int), name: Seq<u8>) -> bool {
    slot_named(c.subrange(pos.0 * bs, pos.0 * bs + bs), pos.1, name)
}

/// The live entries among the first `n` slots of a block, in slot order.
pub fn live_entries(buf: &[u8], n: usize) -> (r: Vec<DirEntry>)
    requires
        128 * n <= buf@.len(),
    ensures
        r@.len() == live_slots(buf@, n as int).len(),
        forall|i: int| 0 <= i < r@.len() ==> entry_at(#[trigger] r@[i], buf@, 128 * live_slots(buf@, n as int)[i]),
{
    let mut out: Vec<DirEntry> = Vec::new();
    let _len = buf.len();
    let mut k: usize = 0;
    while k < n
        invariant
            k <= n,
            128 * n <= buf@.len(),
            buf@.len() <= usize::MAX,
            out@.len() == live_slots(buf@, k as int).len(),
            forall|i: int| 0 <= i < out@.len() ==> entry_at(#[trigger] out@[i], buf@, 128 * live_slots(buf@, k as int)[i]),
        decreases n - k,
    {
        let e = read_entry_at(buf, k * DIR_ENTRY_SIZE);
        let ghost o0 = out@;
        if !e.is_unused() {
            out.push(e);
            proof {
                assert(live_slots(buf@, k + 1) == live_slots(buf@, k as int).push(k as int));
                assert forall|i: int| 0 <= i < out@.len() implies entry_at(#[trigger] out@[i], buf@, 128 * live_slots(buf@, k + 1)[i]) by {
                    if i < out@.len() - 1 {
                        assert(out@[i] == o0[i]);
                    }
                }
            }
        }
        k = k + 1;
    }
    out
}

/// Whether entry `e`'s name reads as `name` (never for a stored length
/// past the name field).
pub(crate) fn entry_named(e: &DirEntry, name: &str) -> (r: bool)
    ensures
        r == (e.name_len <= 122 && shown_name(e.name@.subrange(0, e.name_len as int)) == name.spec_bytes()),
{
    if e.name_len > 122 {
        return false;
    }
    bytes_eq(e.name_str().as_bytes(), name.as_bytes())
}

/// The first of the first `n` slots whose entry is live and named `name`.
pub fn find_named_slot(buf: &[u8], n: usize, name: &str) -> (r: Option<usize>)
    requires
        128 * n <= buf@.len(),
    ensures
        match r {
            Some(k) => k < n && slot_named(buf@, k as int, name.spec_bytes()) && forall|j: int|
                0 <= j < k ==> !slot_named(buf@, j, name.spec_bytes()),
            None => forall|j: int| 0 <= j < n ==> !slot_named(buf@, j, name.spec_bytes()),
        },
{
    let _len = buf.len();
    let mut k: usize = 0;
    while k < n
        invariant
            k <= n,
            128 * n <= buf@.len(),
            buf@.len() <= usize::MAX,
            forall|j: int| 0 <= j < k ==> !slot_named(buf@, j, name.spec_bytes()),
        decreases n - k,
    {
        let e = read_entry_at(buf, k * DIR_ENTRY_SIZE);
        proof {
            let o = 128 * k as int;
            if e.name_len <= 122 {
                assert(e.name@.subrange(0, e.name_len as int) =~= buf@.subrange(o + 6, o + 6 + e.name_len));
            }
        }
        if !e.is_unused() && entry_named(&e, name) {
            return Some(k);
        }
        k = k + 1;
    }
    None
}

/// The first unused slot among the first `n`.
pub fn find_unused_slot(buf: &[u8], n: usize) -> (r: Option<usize>)
    requires
        128 * n <= buf@.len(),
    ensures
        match r {
            Some(k) => k < n && !slot_live(buf@, k as int) && forall|j: int| 0 <= j < k ==> slot_live(buf@, j),
            None => forall|j: int| 0 <= j < n ==> slot_live(buf@, j),
        },
{
    let _len = buf.len();
    let mut k: usize = 0;
    while k < n
        invariant
            k <= n,
            128 * n <= buf@.len(),
            buf@.len() <= usize::MAX,
            forall|j: int| 0 <= j < k ==> slot_live(buf@, j),
        decreases n - k,
    {
        let e = read_entry_at(buf, k * DIR_ENTRY_SIZE);
        if e.is_unused() {
            return Some(k);
        }
        k = k + 1;
    }
    None
}

/// Read block `b` whole.
pub(crate) fn read_block<D: CFSBlockDevice>(dev: &mut D, b: u64, block_size: u32) -> (r: Result<Vec<u8>, VolumeError>)
    ensures
        r matches Err(e) ==> e is Device || (e == VolumeError::OutOfRange && b * block_size + block_size > u64::MAX),
        final(dev).contents() == old(dev).contents(),
        r matches Ok(v) ==> {
            &&& b * block_size + block_size <= old(dev).contents().len()
            &&& v@ == old(dev).contents().subrange(b * block_size, b * block_size + block_size)
        },
{
    let off = block_offset(b, block_size)?;
    match dev.read(off, block_size as usize) {
        Ok(v) => Ok(v),
        Err(e) => Err(VolumeError::Device(e)),
    }
}

/// Write block `b` whole.
pub(crate) fn write_block<D: CFSBlockDevice>(dev: &mut D, b: u64, block_size: u32, data: &Vec<u8>) -> (r: Result<(), VolumeError>)
    requires
        data@.len() == block_size,
    ensures
        r matches Err(e) ==> e is Device || (e == VolumeError::OutOfRange && b * block_size + block_size > u64::MAX),
        r is Ok ==> b * block_size + block_size <= old(dev).contents().len(),
        r is Ok ==> final(dev).contents() == written(old(dev).contents(), b * block_size, data@),
        r is Err ==> final(dev).contents() == old(dev).contents(),
{
    let off = block_offset(b, block_size)?;
    match dev.write(off, data.as_slice()) {
        Ok(()) => Ok(()),
        Err(e) => Err(VolumeError::Device(e)),
    }
}

/// Number of slots a directory of `size` bytes spans.
pub open spec fn dir_slot_count(size: u64) -> int {
    size as int / 128
}

/// Entry slots read from a directory block: one fewer when it holds a
/// checksum record.
pub open spec fn block_entry_slots(b: Seq<u8>, bs: u32) -> int {
    if has_checksum(b, bs) {
        bs as int / 128 - 1
    } else {
        bs as int / 128
    }
}

/// The live entries of a directory (pointer-mapped, or with a flat ordered
/// extent root), as (physical block, slot) pairs in scan order: from
/// logical block `lb` on, while blocks are mapped, with `rem` slots still
/// counted by the size.
pub open spec fn dir_positions(c: Seq<u8>, inode: Inode, bs: u32, lb: u64, rem: int) -> Seq<(u64, int)>
    decreases rem, u64::MAX - lb,
{
    if rem <= 0 {
        Seq::empty()
    } else {
        match file_block_ptr(c, inode, lb, bs) {
            Some(p) => if p == 0 {
                Seq::empty()
            } else {
                let b = c.subrange(p * bs, p * bs + bs);
                let n = block_entry_slots(b, bs);
                let take = if n < rem { n } else { rem };
                let here = live_slots(b, take).map_values(|k: int| (p, k));
                if lb == u64::MAX || take < 0 {
                    here
                } else {
                    here + dir_positions(c, inode, bs, (lb + 1) as u64, rem - take)
                }
            },
            None => Seq::empty(),
        }
    }
}

/// `v` lists the entries held at positions `ps` of the device.
pub open spec fn entries_at_positions(v: Seq<DirEntry>, c: Seq<u8>, bs: u32, ps: Seq<(u64, int)>) -> bool {
    &&& v.len() == ps.len()
    &&& forall|i: int| 0 <= i < v.len() ==> entry_at(#[trigger] v[i], c.subrange(ps[i].0 * bs, ps[i].0 * bs + bs), 128 * ps[i].1)
}

/// Every live entry of a directory, block by block from logical block 0,
/// while blocks are mapped and the slots counted by the size last. A block
/// with a checksum record is checked first and its last slot left out.
/// `Invalid` unless the inode is a directory; `ChecksumMismatch` for a
/// block whose record disagrees.
pub fn read_dir_entries<D: CFSBlockDevice>(dev: &mut D, dir_inode: &Inode, block_size: u32) -> (r: Result<Vec<DirEntry>, VolumeError>)
    requires
        block_size >= 128,
    ensures
        final(dev).contents() == old(dev).contents(),
        dir_inode.mode != INODE_DIR ==> r == Err::<Vec<DirEntry>, VolumeError>(VolumeError::Invalid),
        r matches Ok(v) ==> {
            &&& v@.len() <= dir_slot_count(dir_inode.size)
            &&& forall|i: int| 0 <= i < v@.len() ==> !(#[trigger] v@[i].inode_index == 0 && v@[i].name_len == 0)
        },
        !uses_extents(*dir_inode) || (flat_root(*dir_inode) && disjoint_sorted(root_leaves(*dir_inode))) ==> (r matches Ok(v) ==> entries_at_positions(
            v@,
            old(dev).contents(),
            block_size,
            dir_positions(old(dev).contents(), *dir_inode, block_size, 0, dir_slot_count(dir_inode.size)),
        )),
{
    if dir_inode.mode != INODE_DIR {
        return Err(VolumeError::Invalid);
    }
    let ghost c = dev.contents();
    let total: u64 = dir_inode.size / 128;
    let ghost full = dir_positions(c, *dir_inode, block_size, 0, total as int);
    let ghost mut done: Seq<(u64, int)> = Seq::empty();
    let mut result: Vec<DirEntry> = Vec::new();
    let mut checked: u64 = 0;
    let mut lb: u64 = 0;
    proof {
        assert(full =~= done + dir_positions(c, *dir_inode, block_size, lb, total - checked));
    }
    while checked < total
        invariant_except_break
            (!uses_extents(*dir_inode) || (flat_root(*dir_inode) && disjoint_sorted(root_leaves(*dir_inode)))) ==> full == done
                + dir_positions(c, *dir_inode, block_size, lb, total - checked),
        invariant
            dev.contents() == c,
            c == old(dev).contents(),
            dir_inode.mode == INODE_DIR,
            block_size >= 128,
            total == dir_slot_count(dir_inode.size),
            full == dir_positions(c, *dir_inode, block_size, 0, total as int),
            checked <= total,
            result@.len() <= checked,
            forall|i: int| 0 <= i < result@.len() ==> !(#[trigger] result@[i].inode_index == 0 && result@[i].name_len == 0),
            entries_at_positions(result@, c, block_size, done),
        ensures
            result@.len() <= dir_slot_count(dir_inode.size),
            forall|i: int| 0 <= i < result@.len() ==> !(#[trigger] result@[i].inode_index == 0 && result@[i].name_len == 0),
            (!uses_extents(*dir_inode) || (flat_root(*dir_inode) && disjoint_sorted(root_leaves(*dir_inode)))) ==> full == done,
            entries_at_positions(result@, c, block_size, done),
        decreases u64::MAX - lb,
    {
        let physical = get_block_ptr(dev, dir_inode, lb, block_size)?;
        if physical == 0 {
            proof {
                if !uses_extents(*dir_inode) || (flat_root(*dir_inode) && disjoint_sorted(root_leaves(*dir_inode))) {
                    assert(file_block_ptr(c, *dir_inode, lb, block_size) == Some(0u64));
                    assert(dir_positions(c, *dir_inode, block_size, lb, total - checked) =~= Seq::<(u64, int)>::empty());
                    assert(full =~= done);
                }
            }
            break;
        }
        let buf = read_block(dev, physical, block_size)?;
        let is_v3 = block_has_checksum(buf.as_slice(), block_size);
        if is_v3 {
            verify_dir_block_checksum(buf.as_slice(), block_size)?;
        }
        let n: u64 = if is_v3 {
            entries_per_block_v3(block_size) as u64
        } else {
            entries_per_block_v2(block_size) as u64
        };
        let take: u64 = if n < total - checked {
            n
        } else {
            total - checked
        };
        let found = live_entries(buf.as_slice(), take as usize);
        let ghost here = live_slots(buf@, take as int).map_values(|k: int| (physical, k));
        proof {
            lemma_live_slots(buf@, take as int);
            assert forall|q: int| 0 <= q < found@.len() implies !(#[trigger] found@[q].inode_index == 0 && found@[q].name_len == 0) by {
                let k = live_slots(buf@, take as int)[q];
                assert(slot_live(buf@, k));
                assert(entry_at(found@[q], buf@, 128 * k));
            }
            assert(buf@ == c.subrange(physical * block_size, physical * block_size + block_size));
            assert(block_entry_slots(buf@, block_size) == n);
        }
        let ghost r0 = result@;
        let mut i: usize = 0;
        while i < found.len()
            invariant
                i <= found@.len(),
                found@.len() <= take,
                result@.len() <= checked + i,
                result@.len() == r0.len() + i,
                forall|q: int| 0 <= q < r0.len() ==> result@[q] == r0[q],
                forall|q: int| 0 <= q < i ==> result@[r0.len() + q] == found@[q],
                forall|q: int| 0 <= q < found@.len() ==> !(#[trigger] found@[q].inode_index == 0 && found@[q].name_len == 0),
                forall|q: int| 0 <= q < result@.len() ==> !(#[trigger] result@[q].inode_index == 0 && result@[q].name_len == 0),
            decreases found@.len() - i,
        {
            result.push(found[i]);
            i = i + 1;
        }
        proof {
            let nd = done + here;
            assert forall|q: int| 0 <= q < result@.len() implies entry_at(#[trigger] result@[q], c.subrange(nd[q].0 * block_size, nd[q].0 * block_size + block_size), 128 * nd[q].1) by {
                if q >= r0.len() {
                    let k = q - r0.len();
                    assert(result@[q] == found@[k]);
                    assert(nd[q] == here[k]);
                    assert(here[k] == (physical, live_slots(buf@, take as int)[k]));
                    assert(entry_at(found@[k], buf@, 128 * live_slots(buf@, take as int)[k]));
                } else {
                    assert(nd[q] == done[q]);
                    assert(result@[q] == r0[q]);
                    assert(entry_at(r0[q], c.subrange(done[q].0 * block_size, done[q].0 * block_size + block_size), 128 * done[q].1));
                }
            }
            if !uses_extents(*dir_inode) || (flat_root(*dir_inode) && disjoint_sorted(root_leaves(*dir_inode))) {
                assert(file_block_ptr(c, *dir_inode, lb, block_size) == Some(physical));
                if lb < u64::MAX {
                    assert(dir_positions(c, *dir_inode, block_size, lb, total - checked)
                        == here + dir_positions(c, *dir_inode, block_size, (lb + 1) as u64, total - checked - take));
                    assert(full =~= nd + dir_positions(c, *dir_inode, block_size, (lb + 1) as u64, total - (checked + take)));
                } else {
                    assert(dir_positions(c, *dir_inode, block_size, lb, total - checked) == here);
                    assert(full =~= nd);
                }
            }
            done = nd;
        }
        checked = checked + take;
        if lb == u64::MAX {
            break;
        }
        lb = lb + 1;
    }
    Ok(result)
}

/// The live entry named `name`: the first one met scanning the directory
/// as `read_dir_entries` does, or `None`. `Invalid` unless the inode is a
/// directory.
pub fn lookup<D: CFSBlockDevice>(dev: &mut D, dir_inode: &Inode, block_size: u32, name: &str) -> (r: Result<Option<DirEntry>, VolumeError>)
    requires
        block_size >= 128,
    ensures
        final(dev).contents() == old(dev).contents(),
        dir_inode.mode != INODE_DIR ==> r == Err::<Option<DirEntry>, VolumeError>(VolumeError::Invalid),
        r matches Ok(Some(e)) ==> {
            &&& !(e.inode_index == 0 && e.name_len == 0)
            &&& e.name_len <= 122
            &&& shown_name(e.name@.subrange(0, e.name_len as int)) == name.spec_bytes()
        },
        !uses_extents(*dir_inode) || (flat_root(*dir_inode) && disjoint_sorted(root_leaves(*dir_inode))) ==> ({
            let c = old(dev).contents();
            let ps = dir_positions(c, *dir_inode, block_size, 0, dir_slot_count(dir_inode.size));
            &&& r matches Ok(Some(e)) ==> exists|i: int| {
                &&& 0 <= i < ps.len()
                &&& #[trigger] pos_named(c, block_size, ps[i], name.spec_bytes())
                &&& entry_at(e, c.subrange(ps[i].0 * block_size, ps[i].0 * block_size + block_size), 128 * ps[i].1)
                &&& forall|j: int| 0 <= j < i ==> !pos_named(c, block_size, ps[j], name.spec_bytes())
            }
            &&& r matches Ok(None) ==> forall|i: int| 0 <= i < ps.len() ==> !#[trigger] pos_named(c, block_size, ps[i], name.spec_bytes())
        }),
{
    if dir_inode.mode != INODE_DIR {
        return Err(VolumeError::Invalid);
    }
    let ghost c = dev.contents();
    let ghost nm = name.spec_bytes();
    let ghost modelled = !uses_extents(*dir_inode) || (flat_root(*dir_inode) && disjoint_sorted(root_leaves(*dir_inode)));
    let total: u64 = dir_inode.size / 128;
    let ghost full = dir_positions(c, *dir_inode, block_size, 0, total as int);
    let ghost mut done: Seq<(u64, int)> = Seq::empty();
    let mut checked: u64 = 0;
    let mut lb: u64 = 0;
    proof {
        assert(full =~= done + dir_positions(c, *dir_inode, block_size, lb, total - checked));
    }
    while checked < total
        invariant_except_break
            modelled ==> full == done + dir_positions(c, *dir_inode, block_size, lb, total - checked),
        invariant
            dev.contents() == c,
            c == old(dev).contents(),
            dir_inode.mode == INODE_DIR,
            block_size >= 128,
            checked <= total,
            total == dir_slot_count(dir_inode.size),
            nm == name.spec_bytes(),
            full == dir_positions(c, *dir_inode, block_size, 0, total as int),
            modelled == (!uses_extents(*dir_inode) || (flat_root(*dir_inode) && disjoint_sorted(root_leaves(*dir_inode)))),
            forall|i: int| 0 <= i < done.len() ==> !#[trigger] pos_named(c, block_size, done[i], nm),
        ensures
            modelled ==> full == done,
            forall|i: int| 0 <= i < done.len() ==> !#[trigger] pos_named(c, block_size, done[i], nm),
        decreases u64::MAX - lb,
    {
        let physical = get_block_ptr(dev, dir_inode, lb, block_size)?;
        if physical == 0 {
            proof {
                if modelled {
                    assert(file_block_ptr(c, *dir_inode, lb, block_size) == Some(0u64));
                    assert(dir_positions(c, *dir_inode, block_size, lb, total - checked) =~= Seq::<(u64, int)>::empty());
                    assert(full =~= done);
                }
            }
            break;
        }
        let buf = read_block(dev, physical, block_size)?;
        let is_v3 = block_has_checksum(buf.as_slice(), block_size);
        if is_v3 {
            verify_dir_block_checksum(buf.as_slice(), block_size)?;
        }
        let n: u64 = if is_v3 {
            entries_per_block_v3(block_size) as u64
        } else {
            entries_per_block_v2(block_size) as u64
        };
        let take: u64 = if n < total - checked {
            n
        } else {
            total - checked
        };
        let ghost here = live_slots(buf@, take as int).map_values(|k: int| (physical, k));
        proof {
            lemma_live_slots(buf@, take as int);
            lemma_live_slots_complete(buf@, take as int);
            assert(buf@ == c.subrange(physical * block_size, physical * block_size + block_size));
            assert(block_entry_slots(buf@, block_size) == n);
            if modelled {
                assert(file_block_ptr(c, *dir_inode, lb, block_size) == Some(physical));
            }
        }
        match find_named_slot(buf.as_slice(), take as usize, name) {
            Some(k) => {
                let e = read_entry_at(buf.as_slice(), k * DIR_ENTRY_SIZE);
                proof {
                    let o = 128 * k as int;
                    assert(e.name@.subrange(0, e.name_len as int) =~= buf@.subrange(o + 6, o + 6 + e.name_len));
                    if modelled {
                        let ls = live_slots(buf@, take as int);
                        let q = choose|q: int| 0 <= q < ls.len() && #[trigger] ls[q] == k as int;
                        let i0 = done.len() + q;
                        if lb < u64::MAX {
                            assert(dir_positions(c, *dir_inode, block_size, lb, total - checked)
                                == here + dir_positions(c, *dir_inode, block_size, (lb + 1) as u64, total - checked - take));
                        } else {
                            assert(dir_positions(c, *dir_inode, block_size, lb, total - checked) == here);
                        }
                        assert(full[i0] == here[q]);
                        assert(here[q] == (physical, k as int));
                        assert(pos_named(c, block_size, full[i0], nm));
                        assert forall|j: int| 0 <= j < i0 implies !pos_named(c, block_size, full[j], nm) by {
                            if j >= done.len() {
                                let q2 = j - done.len();
                                assert(full[j] == here[q2]);
                                assert(ls[q2] < k);
                            } else {
                                assert(full[j] == done[j]);
                            }
                        }
                        assert(entry_at(e, c.subrange(full[i0].0 * block_size, full[i0].0 * block_size + block_size), 128 * full[i0].1));
                    }
                }
                return Ok(Some(e));
            },
            None => {},
        }
        proof {
            let nd = done + here;
            assert forall|i: int| 0 <= i < nd.len() implies !#[trigger] pos_named(c, block_size, nd[i], nm) by {
                if i >= done.len() {
                    assert(nd[i] == here[i - done.len()]);
                } else {
                    assert(nd[i] == done[i]);
                }
            }
            if modelled {
                if lb < u64::MAX {
                    assert(dir_positions(c, *dir_inode, block_size, lb, total - checked)
                        == here + dir_positions(c, *dir_inode, block_size, (lb + 1) as u64, total - checked - take));
                    assert(full =~= nd + dir_positions(c, *dir_inode, block_size, (lb + 1) as u64, total - (checked + take)));
                } else {
                    assert(dir_positions(c, *dir_inode, block_size, lb, total - checked) == here);
                    assert(full =~= nd);
                }
            }
            done = nd;
        }
        checked = checked + take;
        if lb == u64::MAX {
            break;
        }
        lb = lb + 1;
    }
    Ok(None)
}

/// Device contents `c1` are `c0` with the entry named `name` in slot `k`
/// of block `p` removed: the slot zeroed, and the checksum record
/// restamped when the block has one.
pub open spec fn removed_at(c0: Seq<u8>, c1: Seq<u8>, p: u64, k: int, name: Seq<u8>, bs: u32) -> bool {
    let b = c0.subrange(p * bs, p * bs + bs);
    &&& p * bs + bs <= c0.len()
    &&& slot_named(b, k, name)
    &&& 0 <= k < entry_slots(b, bs)
    &&& c1 == written(c0, p * bs, if has_checksum(b, bs) {
        stamped(slot_cleared(b, k), bs)
    } else {
        slot_cleared(b, k)
    })
}

/// Mark the live entry named `name` unused: the first one met scanning the
/// directory as `read_dir_entries` does (without checking checksums). Its
/// slot is zeroed and, in a block with a checksum record, the record is
/// restamped. `Invalid` unless the inode is a directory; `NotFound` when
/// no entry has the name. The device is untouched on every error.
#[verifier::rlimit(40)]
pub fn remove_dir_entry<D: CFSBlockDevice>(dev: &mut D, dir_inode: &Inode, block_size: u32, name: &str) -> (r: Result<(), VolumeError>)
    requires
        block_size >= 128,
    ensures
        dir_inode.mode != INODE_DIR ==> r == Err::<(), VolumeError>(VolumeError::Invalid),
        r is Err ==> final(dev).contents() == old(dev).contents(),
        r is Ok ==> exists|p: u64, k: int| #[trigger] removed_at(old(dev).contents(), final(dev).contents(), p, k, name.spec_bytes(), block_size),
        dir_inode.mode == INODE_DIR && (!uses_extents(*dir_inode) || (flat_root(*dir_inode) && disjoint_sorted(root_leaves(*dir_inode)))) ==> ({
            let c = old(dev).contents();
            let ps = dir_positions(c, *dir_inode, block_size, 0, dir_slot_count(dir_inode.size));
            &&& r is Ok ==> exists|i: int| {
                &&& 0 <= i < ps.len()
                &&& #[trigger] pos_named(c, block_size, ps[i], name.spec_bytes())
                &&& removed_at(c, final(dev).contents(), ps[i].0, ps[i].1, name.spec_bytes(), block_size)
                &&& forall|j: int| 0 <= j < i ==> !pos_named(c, block_size, ps[j], name.spec_bytes())
            }
            &&& (forall|i: int| 0 <= i < ps.len() ==> !#[trigger] pos_named(c, block_size, ps[i], name.spec_bytes())) ==> r is Err
            &&& r == Err::<(), VolumeError>(VolumeError::NotFound) ==> forall|i: int| 0 <= i < ps.len() ==> !#[trigger] pos_named(c, block_size, ps[i], name.spec_bytes())
        }),
{
    if dir_inode.mode != INODE_DIR {
        return Err(VolumeError::Invalid);
    }
    let ghost c = dev.contents();
    let ghost nm = name.spec_bytes();
    let ghost modelled = !uses_extents(*dir_inode) || (flat_root(*dir_inode) && disjoint_sorted(root_leaves(*dir_inode)));
    let total: u64 = dir_inode.size / 128;
    let ghost full = dir_positions(c, *dir_inode, block_size, 0, total as int);
    let ghost mut done: Seq<(u64, int)> = Seq::empty();
    let mut checked: u64 = 0;
    let mut lb: u64 = 0;
    proof {
        assert(full =~= done + dir_positions(c, *dir_inode, block_size, lb, total - checked));
    }
    while checked < total
        invariant_except_break
            modelled ==> full == done + dir_positions(c, *dir_inode, block_size, lb, total - checked),
        invariant
            dev.contents() == c,
            c == old(dev).contents(),
            dir_inode.mode == INODE_DIR,
            block_size >= 128,
            checked <= total,
            total == dir_slot_count(dir_inode.size),
            nm == name.spec_bytes(),
            full == dir_positions(c, *dir_inode, block_size, 0, total as int),
            modelled == (!uses_extents(*dir_inode) || (flat_root(*dir_inode) && disjoint_sorted(root_leaves(*dir_inode)))),
            forall|i: int| 0 <= i < done.len() ==> !#[trigger] pos_named(c, block_size, done[i], nm),
        ensures
            modelled ==> full == done,
            forall|i: int| 0 <= i < done.len() ==> !#[trigger] pos_named(c, block_size, done[i], nm),
        decreases u64::MAX - lb,
    {
        let physical = get_block_ptr(dev, dir_inode, lb, block_size)?;
        if physical == 0 {
            proof {
                if modelled {
                    assert(file_block_ptr(c, *dir_inode, lb, block_size) == Some(0u64));
                    assert(dir_positions(c, *dir_inode, block_size, lb, total - checked) =~= Seq::<(u64, int)>::empty());
                    assert(full =~= done);
                }
            }
            break;
        }
        let mut buf = read_block(dev, physical, block_size)?;
        let is_v3 = block_has_checksum(buf.as_slice(), block_size);
        let n: u64 = if is_v3 {
            entries_per_block_v3(block_size) as u64
        } else {
            entries_per_block_v2(block_size) as u64
        };
        let take: u64 = if n < total - checked {
            n
        } else {
            total - checked
        };
        let ghost here = live_slots(buf@, take as int).map_values(|k: int| (physical, k));
        proof {
            assert(128 * (block_size / 128) <= block_size) by (nonlinear_arith)
                requires
                    block_size >= 128,
            ;
            lemma_live_slots(buf@, take as int);
            lemma_live_slots_complete(buf@, take as int);
            assert(buf@ == c.subrange(physical * block_size, physical * block_size + block_size));
            assert(block_entry_slots(buf@, block_size) == n);
            if modelled {
                assert(file_block_ptr(c, *dir_inode, lb, block_size) == Some(physical));
                if lb < u64::MAX {
                    assert(dir_positions(c, *dir_inode, block_size, lb, total - checked)
                        == here + dir_positions(c, *dir_inode, block_size, (lb + 1) as u64, total - checked - take));
                } else {
                    assert(dir_positions(c, *dir_inode, block_size, lb, total - checked) == here);
                }
            }
        }
        match find_named_slot(buf.as_slice(), take as usize, name) {
            Some(k) => {
                let ghost b = buf@;
                let mut zero: Vec<u8> = Vec::new();
                push_zeros(&mut zero, DIR_ENTRY_SIZE);
                put_bytes(&mut buf, k * DIR_ENTRY_SIZE, zero.as_slice());
                assert(buf@ =~= slot_cleared(b, k as int));
                if is_v3 {
                    proof {
                        assert(last_slot(block_size) + 128 <= block_size) by (nonlinear_arith)
                            requires
                                block_size >= 128,
                        ;
                        lemma_stamped_verifies(buf@, block_size);
                    }
                    stamp_checksum(&mut buf, block_size);
                }
                write_block(dev, physical, block_size, &buf)?;
                assert(removed_at(c, dev.contents(), physical, k as int, name.spec_bytes(), block_size));
                proof {
                    if modelled {
                        let ls = live_slots(b, take as int);
                        let q = choose|q: int| 0 <= q < ls.len() && #[trigger] ls[q] == k as int;
                        let i0 = done.len() + q;
                        assert(full[i0] == here[q]);
                        assert(here[q] == (physical, k as int));
                        assert(pos_named(c, block_size, full[i0], nm));
                        assert forall|j: int| 0 <= j < i0 implies !pos_named(c, block_size, full[j], nm) by {
                            if j >= done.len() {
                                let q2 = j - done.len();
                                assert(full[j] == here[q2]);
                                assert(ls[q2] < k);
                            } else {
                                assert(full[j] == done[j]);
                            }
                        }
                        assert(removed_at(c, dev.contents(), full[i0].0, full[i0].1, nm, block_size));
                    }
                }
                return Ok(());
            },
            None => {},
        }
        proof {
            let nd = done + here;
            assert forall|i: int| 0 <= i < nd.len() implies !#[trigger] pos_named(c, block_size, nd[i], nm) by {
                if i >= done.len() {
                    assert(nd[i] == here[i - done.len()]);
                } else {
                    assert(nd[i] == done[i]);
                }
            }
            if modelled {
                if lb < u64::MAX {
                    assert(full =~= nd + dir_positions(c, *dir_inode, block_size, (lb + 1) as u64, total - (checked + take)));
                } else {
                    assert(full =~= nd);
                }
            }
            done = nd;
        }
        checked = checked + take;
        if lb == u64::MAX {
            break;
        }
        lb = lb + 1;
    }
    Err(VolumeError::NotFound)
}

/// Device contents `c1` are `c0` with `e` written into the unused slot `k`
/// of block `p`, and the checksum record stamped on a v3 volume.
pub open spec fn added_at(c0: Seq<u8>, c1: Seq<u8>, p: u64, k: int, e: DirEntry, bs: u32, version: u32) -> bool {
    let b = c0.subrange(p * bs, p * bs + bs);
    let stamp = version >= 3;
    &&& p * bs + bs <= c0.len()
    &&& !slot_live(b, k)
    &&& 0 <= k < (if stamp || has_checksum(b, bs) { bs / 128 - 1 } else { (bs / 128) as int })
    &&& c1 == written(c0, p * bs, if stamp {
        stamped(slot_filled(b, k, e), bs)
    } else {
        slot_filled(b, k, e)
    })
}

/// Whether the directory's blocks are found as `dir_positions` models them:
/// through pointer tables, or through a flat, ordered extent root.
pub open spec fn dir_modelled(inode: Inode) -> bool {
    !uses_extents(inode) || (flat_root(inode) && disjoint_sorted(root_leaves(inode)))
}

/// A new directory block holding `e` in slot 0, zeroed elsewhere, with its
/// checksum record stamped on a v3 volume.
pub open spec fn fresh_dir_block(e: DirEntry, bs: u32, version: u32) -> Seq<u8> {
    let b = slot_filled(zeros(bs as nat), 0, e);
    if version >= 3 {
        stamped(b, bs)
    } else {
        b
    }
}

/// Add `entry` to a directory: into the first unused slot met scanning the
/// directory's blocks as `read_dir_entries` does (every block but its last
/// slot on a v3 volume or when it holds a checksum record), else into slot 0
/// of a new zeroed block mapped at the next logical block, the directory
/// growing by one block. On a v3 volume the block's checksum record is
/// stamped. `OutOfRange` when the block count or size could not grow.
pub fn add_dir_entry<D: CFSBlockDevice>(
    dev: &mut D,
    dir_inode: &mut Inode,
    alloc: &mut BlockAlloc,
    sb: &mut Superblock,
    entry: &DirEntry,
) -> (r: Result<(), VolumeError>)
    requires
        old(alloc).wf(),
        old(sb).block_size >= 128,
    ensures
        final(alloc).wf(),
        final(alloc).same_kind(old(alloc)),
        sb_spent(*final(sb), *old(sb)),
        final(dir_inode).mode == old(dir_inode).mode,
        r is Ok ==> final(dir_inode).size == old(dir_inode).size || final(dir_inode).size == old(dir_inode).size
            + old(sb).block_size,
        r is Ok && final(dir_inode).size == old(dir_inode).size ==> exists|p: u64, k: int| #[trigger] added_at(
            old(dev).contents(),
            final(dev).contents(),
            p,
            k,
            *entry,
            old(sb).block_size,
            old(sb).version,
        ),
        r is Ok && final(dir_inode).size == old(dir_inode).size && dir_modelled(*old(dir_inode)) ==> exists|lb: u64, p: u64, k: int| {
            &&& #[trigger] file_block_ptr(old(dev).contents(), *old(dir_inode), lb, old(sb).block_size) == Some(p)
            &&& p != 0
            &&& #[trigger] added_at(old(dev).contents(), final(dev).contents(), p, k, *entry, old(sb).block_size, old(sb).version)
        },
        r is Ok && final(dir_inode).size != old(dir_inode).size ==> exists|p: u64| {
            &&& p * old(sb).block_size + old(sb).block_size <= final(dev).contents().len()
            &&& #[trigger] final(dev).contents().subrange(p * old(sb).block_size, p * old(sb).block_size + old(sb).block_size)
                == fresh_dir_block(*entry, old(sb).block_size, old(sb).version)
        },
{
    let block_size = sb.block_size;
    let is_v3 = sb.version >= 3;
    let ghost c = dev.contents();
    let total: u64 = dir_inode.size / 128;
    let mut checked: u64 = 0;
    let mut lb: u64 = 0;
    proof {
        assert(last_slot(block_size) + 128 <= block_size && 128 * (block_size / 128) <= block_size) by (nonlinear_arith)
            requires
                block_size >= 128,
        ;
    }
    while checked < total
        invariant
            dev.contents() == c,
            c == old(dev).contents(),
            *dir_inode == *old(dir_inode),
            *alloc == *old(alloc),
            alloc.wf(),
            *sb == *old(sb),
            block_size == sb.block_size,
            is_v3 == (sb.version >= 3),
            block_size >= 128,
            last_slot(block_size) + 128 <= block_size,
            128 * (block_size / 128) <= block_size,
            checked <= total,
        decreases u64::MAX - lb,
    {
        let physical = get_block_ptr(dev, dir_inode, lb, block_size)?;
        if physical == 0 {
            break;
        }
        let mut buf = read_block(dev, physical, block_size)?;
        let n: u64 = if is_v3 || block_has_checksum(buf.as_slice(), block_size) {
            entries_per_block_v3(block_size) as u64
        } else {
            entries_per_block_v2(block_size) as u64
        };
        let take: u64 = if n < total - checked {
            n
        } else {
            total - checked
        };
        match find_unused_slot(buf.as_slice(), take as usize) {
            Some(k) => {
                let ghost b = buf@;
                let rec = entry.serialize();
                proof {
                    lemma_entry_bytes_len(*entry);
                }
                put_bytes(&mut buf, k * DIR_ENTRY_SIZE, rec.as_slice());
                assert(buf@ =~= slot_filled(b, k as int, *entry));
                if is_v3 {
                    proof {
                        lemma_stamped_verifies(buf@, block_size);
                    }
                    stamp_checksum(&mut buf, block_size);
                }
                write_block(dev, physical, block_size, &buf)?;
                dir_inode.modified = now_timestamp();
                assert(added_at(c, dev.contents(), physical, k as int, *entry, block_size, sb.version));
                proof {
                    if dir_modelled(*old(dir_inode)) {
                        assert(file_block_ptr(c, *old(dir_inode), lb, block_size) == Some(physical));
                    }
                }
                return Ok(());
            },
            None => {},
        }
        checked = checked + take;
        if lb == u64::MAX {
            break;
        }
        lb = lb + 1;
    }
    if dir_inode.block_count == u32::MAX || dir_inode.size > u64::MAX - block_size as u64 {
        return Err(VolumeError::OutOfRange);
    }
    let new_blocks = alloc.allocate(dev, sb, 1)?;
    let new_physical = new_blocks[0];
    let ghost s_size = dir_inode.size;
    let ghost s_bc = dir_inode.block_count;
    set_block_ptr(dev, dir_inode, lb, new_physical, block_size, alloc, sb)?;
    dir_inode.block_count = dir_inode.block_count + 1;
    let mut buf = vec![0u8; block_size as usize];
    assert(buf@ =~= zeros(block_size as nat));
    let rec = entry.serialize();
    proof {
        lemma_entry_bytes_len(*entry);
    }
    put_bytes(&mut buf, 0, rec.as_slice());
    assert(buf@ =~= slot_filled(zeros(block_size as nat), 0, *entry));
    if is_v3 {
        proof {
            lemma_stamped_verifies(buf@, block_size);
        }
        stamp_checksum(&mut buf, block_size);
    }
    assert(buf@ == fresh_dir_block(*entry, block_size, sb.version));
    write_block(dev, new_physical, block_size, &buf)?;
    assert(dev.contents().subrange(new_physical * block_size, new_physical * block_size + block_size) =~= buf@);
    dir_inode.size = dir_inode.size + block_size as u64;
    dir_inode.modified = now_timestamp();
    Ok(())
}

/// Give a new directory its first block: allocate it, map it at logical
/// block 0, and write "." (the directory itself) and ".." (its parent) in
/// the first two slots of an otherwise zeroed block, with the checksum
/// record stamped on a v3 volume. The directory then counts one block and
/// spans it.
pub fn init_dir_block<D: CFSBlockDevice>(
    dev: &mut D,
    dir_inode: &mut Inode,
    alloc: &mut BlockAlloc,
    sb: &mut Superblock,
    dir_inode_idx: u32,
    parent_inode_idx: u32,
) -> (r: Result<(), VolumeError>)
    requires
        old(alloc).wf(),
        old(sb).block_size >= 256,
    ensures
        final(alloc).wf(),
        final(alloc).same_kind(old(alloc)),
        sb_spent(*final(sb), *old(sb)),
        final(dir_inode).mode == old(dir_inode).mode,
        r is Ok ==> final(dir_inode).size == old(sb).block_size && final(dir_inode).block_count == 1,
{
    let block_size = sb.block_size;
    let blocks = alloc.allocate(dev, sb, 1)?;
    let physical = blocks[0];
    set_block_ptr(dev, dir_inode, 0, physical, block_size, alloc, sb)?;
    dir_inode.block_count = 1;
    let dot = DirEntry::new(dir_inode_idx, INODE_DIR as u8, ".")?;
    let dotdot = DirEntry::new(parent_inode_idx, INODE_DIR as u8, "..")?;
    let mut buf = vec![0u8; block_size as usize];
    let r1 = dot.serialize();
    let r2 = dotdot.serialize();
    proof {
        lemma_entry_bytes_len(dot);
        lemma_entry_bytes_len(dotdot);
    }
    put_bytes(&mut buf, 0, r1.as_slice());
    put_bytes(&mut buf, DIR_ENTRY_SIZE, r2.as_slice());
    if sb.version >= 3 {
        proof {
            assert(last_slot(block_size) + 128 <= block_size) by (nonlinear_arith)
                requires
                    block_size >= 128,
            ;
            lemma_stamped_verifies(buf@, block_size);
        }
        stamp_checksum(&mut buf, block_size);
    }
    write_block(dev, physical, block_size, &buf)?;
    dir_inode.size = block_size as u64;
    dir_inode.modified = now_timestamp();
    Ok(())
}

/// Look `name` up through the index when the directory has one (see
/// `HTree::lookup`), else by scanning (see `lookup`).
pub fn lookup_dispatch<D: CFSBlockDevice>(
    dev: &mut D,
    dir_inode: &Inode,
    dir_inode_idx: u32,
    sb: &Superblock,
    name: &str,
) -> (r: Result<Option<DirEntry>, VolumeError>)
    requires
        sb.block_size >= 256,
    ensures
        final(dev).contents() == old(dev).contents(),
        r matches Ok(Some(e)) ==> {
            &&& !(e.inode_index == 0 && e.name_len == 0)
            &&& e.name_len <= 122
            &&& shown_name(e.name@.subrange(0, e.name_len as int)) == name.spec_bytes()
        },
        dir_inode.flags & INODE_FLAG_HTREE == 0 && dir_inode.mode != INODE_DIR ==> r == Err::<
            Option<DirEntry>,
            VolumeError,
        >(VolumeError::Invalid),
{
    if dir_inode.flags & INODE_FLAG_HTREE != 0 {
        let htree = HTree::load(dev, dir_inode, dir_inode_idx, sb)?;
        htree.lookup(dev, dir_inode, name)
    } else {
        lookup(dev, dir_inode, sb.block_size, name)
    }
}

/// Add `entry` through the index when the directory has one (see
/// `HTree::insert`); else linearly (see `add_dir_entry`), converting the
/// directory to an index when that made it grow past one block and
/// `should_convert_to_htree` agrees. `Invalid` (indexed directory) for a
/// stored name length past the name field.
pub fn add_dir_entry_dispatch<D: CFSBlockDevice>(
    dev: &mut D,
    dir_inode: &mut Inode,
    dir_inode_idx: u32,
    alloc: &mut BlockAlloc,
    sb: &mut Superblock,
    entry: &DirEntry,
) -> (r: Result<(), VolumeError>)
    requires
        old(alloc).wf(),
        old(sb).block_size >= 256,
    ensures
        final(alloc).wf(),
        final(alloc).same_kind(old(alloc)),
        sb_spent(*final(sb), *old(sb)),
        final(dir_inode).mode == old(dir_inode).mode,
{
    if dir_inode.flags & INODE_FLAG_HTREE != 0 {
        let mut htree = HTree::load(dev, dir_inode, dir_inode_idx, sb)?;
        if entry.name_len > 122 {
            return Err(VolumeError::Invalid);
        }
        htree.insert(dev, dir_inode, alloc, sb, entry.name_str(), entry.inode_index, entry.file_type)
    } else {
        let old_bc = dir_inode.block_count;
        add_dir_entry(dev, dir_inode, alloc, sb, entry)?;
        if dir_inode.block_count > old_bc && should_convert_to_htree(dir_inode, sb) {
            HTree::convert_from_linear(dev, dir_inode, dir_inode_idx, alloc, sb)?;
        }
        Ok(())
    }
}

/// Remove the entry named `name` through the index when the directory has
/// one (see `HTree::remove`), else by scanning (see `remove_dir_entry`).
/// The device is untouched on every error.
pub fn remove_dir_entry_dispatch<D: CFSBlockDevice>(
    dev: &mut D,
    dir_inode: &Inode,
    dir_inode_idx: u32,
    sb: &Superblock,
    name: &str,
) -> (r: Result<(), VolumeError>)
    requires
        sb.block_size >= 256,
    ensures
        r is Err ==> final(dev).contents() == old(dev).contents(),
        dir_inode.flags & INODE_FLAG_HTREE == 0 && dir_inode.mode != INODE_DIR ==> r == Err::<(), VolumeError>(
            VolumeError::Invalid,
        ),
{
    if dir_inode.flags & INODE_FLAG_HTREE != 0 {
        let mut htree = HTree::load(dev, dir_inode, dir_inode_idx, sb)?;
        htree.remove(dev, dir_inode, name)
    } else {
        remove_dir_entry(dev, dir_inode, sb.block_size, name)
    }
}

/// Every entry of the directory through the index when it has one (see
/// `HTree::readdir`), else by scanning (see `read_dir_entries`).
pub fn read_dir_entries_dispatch<D: CFSBlockDevice>(
    dev: &mut D,
    dir_inode: &Inode,
    dir_inode_idx: u32,
    sb: &Superblock,
) -> (r: Result<Vec<DirEntry>, VolumeError>)
    requires
        sb.block_size >= 256,
    ensures
        final(dev).contents() == old(dev).contents(),
        dir_inode.flags & INODE_FLAG_HTREE == 0 && dir_inode.mode != INODE_DIR ==> r == Err::<
            Vec<DirEntry>,
            VolumeError,
        >(VolumeError::Invalid),
{
    if dir_inode.flags & INODE_FLAG_HTREE != 0 {
        let htree = HTree::load(dev, dir_inode, dir_inode_idx, sb)?;
        htree.readdir(dev, dir_inode)
    } else {
        read_dir_entries(dev, dir_inode, sb.block_size)
    }
}

} // verus!
