//! Little-endian field encoding shared by every on-disk structure.

use vstd::prelude::*;
use vstd::bytes::*;
use vstd::slice::slice_subrange;

verus! {

pub open spec fn le16(s: Seq<u8>, off: int) -> u16 {
    spec_u16_from_le_bytes(s.subrange(off, off + 2))
}

pub open spec fn le32(s: Seq<u8>, off: int) -> u32 {
    spec_u32_from_le_bytes(s.subrange(off, off + 4))
}

pub open spec fn le64(s: Seq<u8>, off: int) -> u64 {
    spec_u64_from_le_bytes(s.subrange(off, off + 8))
}

pub open spec fn enc16(v: u16) -> Seq<u8> {
    spec_u16_to_le_bytes(v)
}

pub open spec fn enc32(v: u32) -> Seq<u8> {
    spec_u32_to_le_bytes(v)
}

pub open spec fn enc64(v: u64) -> Seq<u8> {
    spec_u64_to_le_bytes(v)
}

/// `n` zero bytes.
pub open spec fn zeros(n: nat) -> Seq<u8> {
    Seq::new(n, |i: int| 0u8)
}

pub proof fn lemma_codec_roundtrip()
    ensures
        forall|v: u16| #[trigger] enc16(v).len() == 2 && spec_u16_from_le_bytes(enc16(v)) == v,
        forall|v: u32| #[trigger] enc32(v).len() == 4 && spec_u32_from_le_bytes(enc32(v)) == v,
        forall|v: u64| #[trigger] enc64(v).len() == 8 && spec_u64_from_le_bytes(enc64(v)) == v,
{
    lemma_auto_spec_u16_to_from_le_bytes();
    lemma_auto_spec_u32_to_from_le_bytes();
    lemma_auto_spec_u64_to_from_le_bytes();
}

/// Eight zero bytes read as a little-endian word are 0.
pub proof fn lemma_le64_zeros()
    ensures
        spec_u64_from_le_bytes(zeros(8)) == 0,
{
    spec_u64_to_le_bytes_to_open(0);
    assert(0u64 & 0xff == 0 && (0u64 >> 8) & 0xff == 0 && (0u64 >> 16) & 0xff == 0 && (0u64 >> 24) & 0xff == 0
        && (0u64 >> 32) & 0xff == 0 && (0u64 >> 40) & 0xff == 0 && (0u64 >> 48) & 0xff == 0 && (0u64 >> 56) & 0xff == 0)
        by (bit_vector);
    assert(spec_u64_to_le_bytes_open(0) =~= zeros(8));
    lemma_auto_spec_u64_to_from_le_bytes();
}

pub fn get_u16(buf: &[u8], off: usize) -> (r: u16)
    requires
        off + 2 <= buf@.len(),
    ensures
        r == le16(buf@, off as int),
{
    let _n = buf.len();
    u16_from_le_bytes(slice_subrange(buf, off, off + 2))
}

pub fn get_u32(buf: &[u8], off: usize) -> (r: u32)
    requires
        off + 4 <= buf@.len(),
    ensures
        r == le32(buf@, off as int),
{
    let _n = buf.len();
    u32_from_le_bytes(slice_subrange(buf, off, off + 4))
}

pub fn get_u64(buf: &[u8], off: usize) -> (r: u64)
    requires
        off + 8 <= buf@.len(),
    ensures
        r == le64(buf@, off as int),
{
    let _n = buf.len();
    u64_from_le_bytes(slice_subrange(buf, off, off + 8))
}

pub fn push_u16(buf: &mut Vec<u8>, v: u16)
    ensures
        final(buf)@ == old(buf)@ + enc16(v),
{
    let mut b = u16_to_le_bytes(v);
    buf.append(&mut b);
}

pub fn push_u32(buf: &mut Vec<u8>, v: u32)
    ensures
        final(buf)@ == old(buf)@ + enc32(v),
{
    let mut b = u32_to_le_bytes(v);
    buf.append(&mut b);
}

pub fn push_u64(buf: &mut Vec<u8>, v: u64)
    ensures
        final(buf)@ == old(buf)@ + enc64(v),
{
    let mut b = u64_to_le_bytes(v);
    buf.append(&mut b);
}

/// Append `n` zero bytes.
pub fn push_zeros(buf: &mut Vec<u8>, n: usize)
    ensures
        final(buf)@ == old(buf)@ + zeros(n as nat),
{
    let ghost start = buf@;
    let mut i: usize = 0;
    while i < n
        invariant
            i <= n,
            buf@ == start + zeros(i as nat),
        decreases n - i,
    {
        buf.push(0u8);
        i = i + 1;
        assert(buf@ =~= start + zeros(i as nat));
    }
}

/// Append the bytes of a slice.
pub fn push_bytes(buf: &mut Vec<u8>, src: &[u8])
    ensures
        final(buf)@ == old(buf)@ + src@,
{
    let ghost start = buf@;
    let mut i: usize = 0;
    while i < src.len()
        invariant
            i <= src@.len(),
            buf@ == start + src@.subrange(0, i as int),
        decreases src@.len() - i,
    {
        buf.push(src[i]);
        i = i + 1;
        assert(buf@ =~= start + src@.subrange(0, i as int));
    }
    assert(src@.subrange(0, src@.len() as int) =~= src@);
}

/// Copy `src` over `buf[off..off + src.len()]`.
pub fn put_bytes(buf: &mut Vec<u8>, off: usize, src: &[u8])
    requires
        off + src@.len() <= old(buf)@.len(),
    ensures
        final(buf)@ == old(buf)@.subrange(0, off as int) + src@ + old(buf)@.subrange(
            off + src@.len(),
            old(buf)@.len() as int,
        ),
{
    let ghost start = buf@;
    let _n = buf.len();
    let mut i: usize = 0;
    while i < src.len()
        invariant
            i <= src@.len(),
            off + src@.len() <= start.len(),
            start.len() <= usize::MAX,
            buf@.len() == start.len(),
            forall|k: int| 0 <= k < off ==> buf@[k] == start[k],
            forall|k: int| 0 <= k < i ==> buf@[off + k] == src@[k],
            forall|k: int| off + i <= k < start.len() ==> buf@[k] == start[k],
        decreases src@.len() - i,
    {
        buf.set(off + i, src[i]);
        i = i + 1;
    }
    assert(buf@ =~= start.subrange(0, off as int) + src@ + start.subrange(
        off + src@.len(),
        start.len() as int,
    ));
}

/// Copy `src` over `buf[off..off + src.len()]` of a slice.
pub fn put_slice(buf: &mut [u8], off: usize, src: &[u8])
    requires
        off + src@.len() <= old(buf)@.len(),
    ensures
        final(buf)@ == old(buf)@.subrange(0, off as int) + src@ + old(buf)@.subrange(
            off + src@.len(),
            old(buf)@.len() as int,
        ),
{
    let ghost start = buf@;
    let _n = buf.len();
    let mut i: usize = 0;
    while i < src.len()
        invariant
            i <= src@.len(),
            off + src@.len() <= start.len(),
            start.len() <= usize::MAX,
            buf@.len() == start.len(),
            forall|k: int| 0 <= k < off ==> buf@[k] == start[k],
            forall|k: int| 0 <= k < i ==> buf@[off + k] == src@[k],
            forall|k: int| off + i <= k < start.len() ==> buf@[k] == start[k],
        decreases src@.len() - i,
    {
        buf[off + i] = src[i];
        i = i + 1;
    }
    assert(buf@ =~= start.subrange(0, off as int) + src@ + start.subrange(
        off + src@.len(),
        start.len() as int,
    ));
}

/// Byte-wise equality of two slices.
pub fn bytes_eq(a: &[u8], b: &[u8]) -> (r: bool)
    ensures
        r == (a@ == b@),
{
    if a.len() != b.len() {
        return false;
    }
    let mut i: usize = 0;
    while i < a.len()
        invariant
            a@.len() == b@.len(),
            i <= a@.len(),
            forall|k: int| 0 <= k < i ==> a@[k] == b@[k],
        decreases a@.len() - i,
    {
        if a[i] != b[i] {
            return false;
        }
        i = i + 1;
    }
    assert(a@ =~= b@);
    true
}

/// Little-endian `u32` written at a fixed offset.
pub fn put_u32(buf: &mut Vec<u8>, off: usize, v: u32)
    requires
        off + 4 <= old(buf)@.len(),
    ensures
        final(buf)@ == old(buf)@.subrange(0, off as int) + enc32(v) + old(buf)@.subrange(
            off + 4,
            old(buf)@.len() as int,
        ),
{
    proof {
        lemma_codec_roundtrip();
    }
    let b = u32_to_le_bytes(v);
    put_bytes(buf, off, b.as_slice());
}

/// Little-endian encoding of each word of `a`, in order.
pub open spec fn enc64_seq(a: Seq<u64>) -> Seq<u8>
    decreases a.len(),
{
    if a.len() == 0 {
        Seq::empty()
    } else {
        enc64_seq(a.drop_last()) + enc64(a.last())
    }
}

pub proof fn lemma_enc64_seq_len(a: Seq<u64>)
    ensures
        enc64_seq(a).len() == 8 * a.len(),
    decreases a.len(),
{
    lemma_codec_roundtrip();
    if a.len() > 0 {
        lemma_enc64_seq_len(a.drop_last());
    }
}

/// Word `i` of an encoded word sequence decodes to `a[i]`.
pub proof fn lemma_enc64_seq_index(a: Seq<u64>, i: int)
    requires
        0 <= i < a.len(),
    ensures
        enc64_seq(a).subrange(8 * i, 8 * i + 8) == enc64(a[i]),
    decreases a.len(),
{
    lemma_codec_roundtrip();
    lemma_enc64_seq_len(a);
    lemma_enc64_seq_len(a.drop_last());
    let e = enc64_seq(a);
    let p = enc64_seq(a.drop_last());
    if i == a.len() - 1 {
        assert(e.subrange(8 * i, 8 * i + 8) =~= enc64(a.last()));
    } else {
        lemma_enc64_seq_index(a.drop_last(), i);
        assert(e.subrange(8 * i, 8 * i + 8) =~= p.subrange(8 * i, 8 * i + 8));
    }
}

/// Reading words back out of a buffer that holds an encoded word sequence
/// at byte `off`.
pub proof fn lemma_le64_of_seq(s: Seq<u8>, off: int, a: Seq<u64>)
    requires
        0 <= off,
        off + 8 * a.len() <= s.len(),
        s.subrange(off, off + 8 * a.len()) == enc64_seq(a),
    ensures
        forall|i: int| 0 <= i < a.len() ==> #[trigger] le64(s, off + 8 * i) == a[i],
{
    lemma_codec_roundtrip();
    assert forall|i: int| 0 <= i < a.len() implies #[trigger] le64(s, off + 8 * i) == a[i] by {
        lemma_enc64_seq_index(a, i);
        assert(s.subrange(off + 8 * i, off + 8 * i + 8) =~= enc64_seq(a).subrange(8 * i, 8 * i + 8));
    }
}

/// Append the little-endian encoding of each word of `a`.
pub fn push_u64_seq(buf: &mut Vec<u8>, a: &[u64])
    ensures
        final(buf)@ == old(buf)@ + enc64_seq(a@),
{
    let ghost start = buf@;
    let mut i: usize = 0;
    while i < a.len()
        invariant
            i <= a@.len(),
            buf@ == start + enc64_seq(a@.subrange(0, i as int)),
        decreases a@.len() - i,
    {
        push_u64(buf, a[i]);
        proof {
            assert(a@.subrange(0, i + 1).drop_last() =~= a@.subrange(0, i as int));
        }
        i = i + 1;
    }
    assert(a@.subrange(0, a@.len() as int) =~= a@);
}

/// Name for the CRC-32 (IEEE) checksum of a byte sequence, as computed by `crc32fast`.
pub uninterp spec fn crc32(data: Seq<u8>) -> u32;

/// Calls `crc32fast::hash`; the contract claims only that the result is the
/// CRC-32 of exactly the bytes handed over, a function of those bytes alone.
#[verifier::external_body]
pub(crate) fn crc32_hash(data: &[u8]) -> (r: u32)
    ensures
        r == crc32(data@),
{
    crc32fast::hash(data)
}

} // verus!
