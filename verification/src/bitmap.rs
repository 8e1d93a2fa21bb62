//! Free-block allocation bitmap.

use vstd::prelude::*;
use crate::error::VolumeError;
use crate::device::{CFSBlockDevice, written, lemma_written_concat};
use crate::codec::{put_bytes, push_bytes, push_zeros, push_u32, get_u32, crc32, crc32_hash, enc32, zeros, le32, lemma_codec_roundtrip};

verus! {

/// Bit `k` (0..8) of byte `b`.
pub open spec fn get_bit(b: u8, k: u8) -> bool {
    (b >> k) & 1u8 == 1u8
}

/// Bit `i` of a little-bit-endian byte sequence.
pub open spec fn seq_bit(data: Seq<u8>, i: int) -> bool {
    get_bit(data[i / 8], (i % 8) as u8)
}

proof fn lemma_set_bit(b: u8, k: u8, j: u8)
    by (bit_vector)
    requires
        k < 8,
        j < 8,
    ensures
        get_bit(b | (1u8 << k), j) == (j == k || get_bit(b, j)),
{
}

proof fn lemma_clear_bit(b: u8, k: u8, j: u8)
    by (bit_vector)
    requires
        k < 8,
        j < 8,
    ensures
        get_bit(b & !(1u8 << k), j) == (j != k && get_bit(b, j)),
{
}

proof fn lemma_full_byte(b: u8, j: u8)
    by (bit_vector)
    requires
        b == 0xFFu8,
        j < 8,
    ensures
        get_bit(b, j),
{
}

proof fn lemma_zero_byte(j: u8)
    by (bit_vector)
    requires
        j < 8,
    ensures
        !get_bit(0u8, j),
{
}

proof fn lemma_mask_bit(b: u8, k: u8)
    by (bit_vector)
    requires
        k < 8,
    ensures
        (b & (1u8 << k) == 0u8) == !get_bit(b, k),
{
}

/// Number of `false` (free) entries among the first `n` of `v`.
pub open spec fn count_free(v: Seq<bool>, n: int) -> nat
    decreases n,
{
    if n <= 0 {
        0
    } else {
        count_free(v, n - 1) + if !v[n - 1] {
            1nat
        } else {
            0nat
        }
    }
}

proof fn lemma_count_free_update(v: Seq<bool>, i: int, b: bool, n: int)
    requires
        0 <= i < v.len(),
        0 <= n <= v.len(),
    ensures
        count_free(v.update(i, b), n) + (if i < n && !v[i] { 1int } else { 0int }) == count_free(v, n)
            + (if i < n && !b { 1int } else { 0int }),
    decreases n,
{
    if n > 0 {
        lemma_count_free_update(v, i, b, n - 1);
    }
}

/// Allocating a free bit lowers the free count by exactly one.
pub proof fn lemma_alloc_decrements_free_count(v: Seq<bool>, i: int)
    requires
        0 <= i < v.len(),
        !v[i],
    ensures
        count_free(v.update(i, true), v.len() as int) + 1 == count_free(v, v.len() as int),
{
    lemma_count_free_update(v, i, true, v.len() as int);
}

/// Freeing an allocated bit raises the free count by exactly one.
pub proof fn lemma_free_increments_free_count(v: Seq<bool>, i: int)
    requires
        0 <= i < v.len(),
        v[i],
    ensures
        count_free(v.update(i, false), v.len() as int) == count_free(v, v.len() as int) + 1,
{
    lemma_count_free_update(v, i, false, v.len() as int);
}

/// Freeing the bit that was just allocated restores the bitmap exactly.
pub proof fn lemma_free_undoes_alloc(v: Seq<bool>, i: int)
    requires
        0 <= i < v.len(),
        !v[i],
    ensures
        v.update(i, true).update(i, false) == v,
{
    assert(v.update(i, true).update(i, false) =~= v);
}

/// The free count never exceeds the number of bits counted.
pub proof fn lemma_count_free_bound(v: Seq<bool>, n: int)
    requires
        0 <= n <= v.len(),
    ensures
        count_free(v, n) <= n,
    decreases n,
{
    if n > 0 {
        lemma_count_free_bound(v, n - 1);
    }
}

/// The `count` bits starting at `s` all lie in `[lo, hi)` and are free.
pub open spec fn free_window(v: Seq<bool>, s: int, count: int, lo: int, hi: int) -> bool {
    &&& lo <= s
    &&& s + count <= hi
    &&& forall|j: int| s <= j < s + count ==> !v[j]
}

/// The first start position `s` (smallest) of a free window of `count` bits in `[lo, hi)`.
pub open spec fn is_first_window(v: Seq<bool>, s: int, count: int, lo: int, hi: int) -> bool {
    &&& free_window(v, s, count, lo, hi)
    &&& forall|t: int| lo <= t < s ==> !free_window(v, t, count, lo, hi)
}

/// The bitmap bytes after loading `n` bytes from device offset `off` over `orig`.
pub open spec fn loaded_bytes(dev: Seq<u8>, off: int, n: int, orig: Seq<u8>) -> Seq<u8> {
    if n == 0 {
        orig
    } else {
        dev.subrange(off, off + n) + orig.subrange(n, orig.len() as int)
    }
}

/// The device after saving the first `n` bitmap bytes at offset `off`.
pub open spec fn saved_contents(dev: Seq<u8>, off: int, n: int, bytes: Seq<u8>) -> Seq<u8> {
    if n == 0 {
        dev
    } else {
        written(dev, off, bytes.subrange(0, n))
    }
}

/// End of the bitmap bytes carried by checksummed block `b` when each block
/// carries `dpb` of them: `dpb` bytes after its start, cut at the end of `data`.
pub open spec fn payload_end(len: int, b: int, dpb: int) -> int {
    if b * dpb + dpb <= len {
        b * dpb + dpb
    } else {
        len
    }
}

/// The `dpb` data bytes of checksummed block `b`: the bitmap bytes it
/// carries, padded with zeros.
pub open spec fn block_payload(data: Seq<u8>, b: int, dpb: int) -> Seq<u8> {
    let s = b * dpb;
    let e = payload_end(data.len() as int, b, dpb);
    data.subrange(s, e) + zeros((dpb - (e - s)) as nat)
}

/// On-disk image of checksummed block `b`: its payload, then the payload's
/// CRC-32 in little-endian order.
pub open spec fn checksummed_block(data: Seq<u8>, b: int, dpb: int) -> Seq<u8> {
    block_payload(data, b, dpb) + enc32(crc32(block_payload(data, b, dpb)))
}

/// The images of checksummed blocks `0..n`, one after another.
pub open spec fn checksummed_blocks(data: Seq<u8>, dpb: int, n: nat) -> Seq<u8>
    decreases n,
{
    if n == 0 {
        Seq::empty()
    } else {
        checksummed_blocks(data, dpb, (n - 1) as nat) + checksummed_block(data, n - 1, dpb)
    }
}

/// The device after writing `n` checksummed blocks of `data` at byte `off`.
pub open spec fn checksummed_saved(dev: Seq<u8>, off: int, data: Seq<u8>, dpb: int, n: nat) -> Seq<u8> {
    if n == 0 {
        dev
    } else {
        written(dev, off, checksummed_blocks(data, dpb, n))
    }
}

/// Block `b` of a checksummed region at byte `off` lies on the device and
/// its trailing CRC-32 matches its data bytes.
pub open spec fn block_checksum_ok(dev: Seq<u8>, off: int, bs: int, b: int) -> bool {
    let bo = off + b * bs;
    &&& bo + bs <= dev.len()
    &&& le32(dev, bo + bs - 4) == crc32(dev.subrange(bo, bo + bs - 4))
}

/// The bitmap bytes after loading checksummed blocks `0..n` from byte
/// `off` of the device over `orig`: each block's data bytes replace the
/// bitmap bytes it carries.
pub open spec fn checksum_loaded(dev: Seq<u8>, off: int, bs: int, orig: Seq<u8>, n: nat) -> Seq<u8>
    decreases n,
{
    if n == 0 {
        orig
    } else {
        let prev = checksum_loaded(dev, off, bs, orig, (n - 1) as nat);
        let b = n - 1;
        let s = b * (bs - 4);
        let e = payload_end(orig.len() as int, b, bs - 4);
        let bo = off + b * bs;
        prev.subrange(0, s) + dev.subrange(bo, bo + (e - s)) + prev.subrange(e, prev.len() as int)
    }
}

proof fn lemma_checksummed_len(data: Seq<u8>, dpb: int, n: nat)
    requires
        0 <= dpb,
        n == 0 || (n - 1) * dpb <= data.len(),
    ensures
        checksummed_blocks(data, dpb, n).len() == n * (dpb + 4),
    decreases n,
{
    if n > 0 {
        lemma_codec_roundtrip();
        if n > 1 {
            assert((n - 2) * dpb <= (n - 1) * dpb) by (nonlinear_arith) requires n >= 2, dpb >= 0;
        }
        lemma_checksummed_len(data, dpb, (n - 1) as nat);
        assert((n - 1) * (dpb + 4) + (dpb + 4) == n * (dpb + 4)) by (nonlinear_arith);
    }
}

proof fn lemma_loaded_len(dev: Seq<u8>, off: int, bs: int, orig: Seq<u8>, n: nat)
    requires
        4 <= bs,
        0 <= off,
        off + n * bs <= dev.len(),
        n == 0 || (n - 1) * (bs - 4) <= orig.len(),
    ensures
        checksum_loaded(dev, off, bs, orig, n).len() == orig.len(),
    decreases n,
{
    if n > 0 {
        let b = n - 1;
        if n > 1 {
            assert((n - 2) * (bs - 4) <= (n - 1) * (bs - 4)) by (nonlinear_arith) requires n >= 2, bs >= 4;
        }
        assert(off + b * bs <= off + n * bs) by (nonlinear_arith) requires b == n - 1, bs >= 4;
        assert(b * bs + (bs - 4) <= n * bs) by (nonlinear_arith) requires b == n - 1, bs >= 4;
        lemma_loaded_len(dev, off, bs, orig, b as nat);
    }
}

proof fn lemma_block_len(data: Seq<u8>, b: int, dpb: int)
    requires
        0 <= dpb,
        0 <= b,
        b * dpb <= data.len(),
    ensures
        block_payload(data, b, dpb).len() == dpb,
        checksummed_block(data, b, dpb).len() == dpb + 4,
        checksummed_block(data, b, dpb).subrange(0, dpb) == block_payload(data, b, dpb),
        checksummed_block(data, b, dpb).subrange(dpb, dpb + 4) == enc32(crc32(block_payload(data, b, dpb))),
{
    lemma_codec_roundtrip();
    assert(b * dpb >= 0) by (nonlinear_arith) requires b >= 0, dpb >= 0;
    let blk = checksummed_block(data, b, dpb);
    assert(blk.subrange(0, dpb) =~= block_payload(data, b, dpb));
    assert(blk.subrange(dpb, dpb + 4) =~= enc32(crc32(block_payload(data, b, dpb))));
}

/// Block `b` of the saved image is `checksummed_block(data, b, dpb)`.
proof fn lemma_checksummed_block_at(data: Seq<u8>, dpb: int, n: nat, b: int)
    requires
        0 <= dpb,
        0 <= b < n,
        (n - 1) * dpb <= data.len(),
    ensures
        checksummed_blocks(data, dpb, n).subrange(b * (dpb + 4), (b + 1) * (dpb + 4)) == checksummed_block(data, b, dpb),
    decreases n,
{
    let bs = dpb + 4;
    if n > 1 {
        assert((n - 2) * dpb <= (n - 1) * dpb) by (nonlinear_arith) requires n >= 2, dpb >= 0;
    }
    lemma_checksummed_len(data, dpb, (n - 1) as nat);
    lemma_checksummed_len(data, dpb, n);
    lemma_codec_roundtrip();
    let prev = checksummed_blocks(data, dpb, (n - 1) as nat);
    let last = checksummed_block(data, n - 1, dpb);
    assert(last.len() == bs);
    assert((b + 1) * bs == b * bs + bs) by (nonlinear_arith);
    if b < n - 1 {
        lemma_checksummed_block_at(data, dpb, (n - 1) as nat, b);
        assert((b + 1) * bs <= (n - 1) * bs) by (nonlinear_arith) requires b < n - 1, bs >= 4;
        assert(checksummed_blocks(data, dpb, n).subrange(b * bs, (b + 1) * bs) =~= prev.subrange(b * bs, (b + 1) * bs));
    } else {
        assert(checksummed_blocks(data, dpb, n).subrange(b * bs, (b + 1) * bs) =~= last);
    }
}

/// Law: a bitmap saved with checksums reads back. In the device image that
/// `save_with_checksums` leaves, every block passes its checksum, and
/// loading the blocks over a bitmap of the same size yields the saved bytes
/// as far as the blocks carry them (all of them when the blocks cover the
/// bitmap), the rest unchanged.
pub proof fn lemma_checksummed_roundtrip(dev: Seq<u8>, off: int, data: Seq<u8>, orig: Seq<u8>, dpb: int, n: nat)
    requires
        0 <= off,
        0 <= dpb,
        0 < n,
        (n - 1) * dpb <= data.len(),
        off + n * (dpb + 4) <= dev.len(),
        orig.len() == data.len(),
    ensures
        forall|b: int| 0 <= b < n ==> #[trigger] block_checksum_ok(checksummed_saved(dev, off, data, dpb, n), off, dpb + 4, b),
        checksum_loaded(checksummed_saved(dev, off, data, dpb, n), off, dpb + 4, orig, n)
            == data.subrange(0, payload_end(data.len() as int, n - 1, dpb)) + orig.subrange(
                payload_end(data.len() as int, n - 1, dpb),
                data.len() as int,
            ),
{
    let bs = dpb + 4;
    let c = checksummed_saved(dev, off, data, dpb, n);
    let img = checksummed_blocks(data, dpb, n);
    lemma_checksummed_len(data, dpb, n);
    lemma_codec_roundtrip();
    assert forall|b: int| 0 <= b < n implies #[trigger] block_checksum_ok(c, off, bs, b) by {
        lemma_block_in_saved(dev, off, data, dpb, n, b);
        assert(b * dpb <= (n - 1) * dpb) by (nonlinear_arith) requires b <= n - 1, dpb >= 0;
        assert((b + 1) * bs == b * bs + bs) by (nonlinear_arith);
        lemma_block_len(data, b, dpb);
        let blk = checksummed_block(data, b, dpb);
        let bo = off + b * bs;
        let w = c.subrange(bo, bo + bs);
        assert(w == blk);
        assert(c.subrange(bo + bs - 4, bo + bs) =~= w.subrange(dpb, dpb + 4));
        assert(c.subrange(bo, bo + bs - 4) =~= w.subrange(0, dpb));
    }
    lemma_loaded_prefix(dev, off, data, orig, dpb, n, n);
}

/// Block `b` of the device after a checksummed save holds block `b`'s image.
proof fn lemma_block_in_saved(dev: Seq<u8>, off: int, data: Seq<u8>, dpb: int, n: nat, b: int)
    requires
        0 <= off,
        0 <= dpb,
        0 <= b < n,
        (n - 1) * dpb <= data.len(),
        off + n * (dpb + 4) <= dev.len(),
    ensures
        off + (b + 1) * (dpb + 4) <= dev.len(),
        checksummed_saved(dev, off, data, dpb, n).len() == dev.len(),
        checksummed_saved(dev, off, data, dpb, n).subrange(off + b * (dpb + 4), off + (b + 1) * (dpb + 4))
            == checksummed_block(data, b, dpb),
{
    let bs = dpb + 4;
    lemma_checksummed_len(data, dpb, n);
    lemma_checksummed_block_at(data, dpb, n, b);
    assert((b + 1) * bs <= n * bs) by (nonlinear_arith) requires b < n, bs >= 4;
    assert(b * bs >= 0) by (nonlinear_arith) requires b >= 0, bs >= 4;
    assert((b + 1) * bs == b * bs + bs) by (nonlinear_arith);
    let img = checksummed_blocks(data, dpb, n);
    assert(img.len() == n * bs);
    assert(checksummed_saved(dev, off, data, dpb, n).subrange(off + b * bs, off + (b + 1) * bs)
        =~= img.subrange(b * bs, (b + 1) * bs));
}

/// Loading the first `k` blocks of a checksummed save yields the saved bytes
/// up to where block `k - 1` ends, the rest unchanged.
proof fn lemma_loaded_prefix(dev: Seq<u8>, off: int, data: Seq<u8>, orig: Seq<u8>, dpb: int, n: nat, k: nat)
    requires
        0 <= off,
        0 <= dpb,
        0 < n,
        k <= n,
        (n - 1) * dpb <= data.len(),
        off + n * (dpb + 4) <= dev.len(),
        orig.len() == data.len(),
    ensures
        checksum_loaded(checksummed_saved(dev, off, data, dpb, n), off, dpb + 4, orig, k) == (if k == 0 {
            orig
        } else {
            data.subrange(0, payload_end(data.len() as int, k - 1, dpb)) + orig.subrange(
                payload_end(data.len() as int, k - 1, dpb),
                data.len() as int,
            )
        }),
    decreases k,
{
    if k > 0 {
        let bs = dpb + 4;
        let c = checksummed_saved(dev, off, data, dpb, n);
        let b = k - 1;
        lemma_loaded_prefix(dev, off, data, orig, dpb, n, (k - 1) as nat);
        assert(b * dpb <= (n - 1) * dpb) by (nonlinear_arith) requires b <= n - 1, dpb >= 0;
        assert(b * dpb >= 0) by (nonlinear_arith) requires b >= 0, dpb >= 0;
        if b > 0 {
            assert((b - 1) * dpb + dpb == b * dpb) by (nonlinear_arith);
        }
        lemma_block_in_saved(dev, off, data, dpb, n, b);
        lemma_block_len(data, b, dpb);
        assert((b + 1) * bs == b * bs + bs) by (nonlinear_arith);
        let blk = checksummed_block(data, b, dpb);
        let s = b * dpb;
        let e = payload_end(data.len() as int, b, dpb);
        let bo = off + b * bs;
        let w = c.subrange(bo, bo + bs);
        assert(w == blk);
        assert(c.subrange(bo, bo + (e - s)) =~= w.subrange(0, e - s));
        assert(blk.subrange(0, e - s) =~= data.subrange(s, e));
        let prev = checksum_loaded(c, off, bs, orig, b as nat);
        assert(prev.len() == data.len());
        assert(checksum_loaded(c, off, bs, orig, k) =~= data.subrange(0, e) + orig.subrange(e, data.len() as int));
    }
}

/// Upper end of the bits scanned by a pass that ends at byte `end_byte`.
pub open spec fn region_hi(end_byte: int, total: int) -> int {
    if end_byte * 8 < total {
        end_byte * 8
    } else {
        total
    }
}

/// In-memory bitmap: bit `i` set means item `i` is allocated.
pub struct Bitmap {
    data: Vec<u8>,
    total_bits: u64,
    bitmap_start: u64,
    bitmap_blocks: u64,
    block_size: u32,
    next_free_hint: u64,
}

impl View for Bitmap {
    type V = Seq<bool>;

    /// `true` = allocated, one entry per tracked bit.
    closed spec fn view(&self) -> Seq<bool> {
        Seq::new(self.total_bits as nat, |i: int| seq_bit(self.data@, i))
    }
}

/// Number of usable bitmap bits per block when a 4-byte CRC32 trails each block.
pub fn usable_bits_per_block(block_size: u32) -> (r: u32)
    requires
        4 <= block_size,
        (block_size - 4) * 8 <= u32::MAX,
    ensures
        r == (block_size - 4) * 8,
{
    (block_size - 4) * 8
}

impl Bitmap {
    /// The bitmap is internally consistent: every tracked bit has a backing
    /// byte, and every bit below the allocation hint is allocated.
    pub closed spec fn wf(&self) -> bool {
        &&& self.total_bits <= self.data@.len() * 8
        &&& self.data@.len() * 8 <= u64::MAX
        &&& self.data@.len() <= usize::MAX
        &&& (self.next_free_hint < self.total_bits || self.next_free_hint == 0)
        &&& forall|i: int| 0 <= i < self.next_free_hint ==> #[trigger] self@[i]
    }

    pub closed spec fn spec_bytes(&self) -> Seq<u8> {
        self.data@
    }

    pub closed spec fn spec_start(&self) -> u64 {
        self.bitmap_start
    }

    pub closed spec fn spec_blocks(&self) -> u64 {
        self.bitmap_blocks
    }

    pub closed spec fn spec_block_size(&self) -> u32 {
        self.block_size
    }

    pub proof fn lemma_view_len(&self)
        ensures
            self@.len() == self.spec_total(),
    {
    }

    /// Bit `i` of the view is bit `i` of the backing bytes.
    pub proof fn lemma_view_bits(&self)
        ensures
            forall|i: int| 0 <= i < self@.len() ==> #[trigger] self@[i] == seq_bit(self.spec_bytes(), i),
    {
    }

    pub closed spec fn spec_total(&self) -> u64 {
        self.total_bits
    }

    /// A zeroed bitmap (all free) backed by `bitmap_blocks` disk blocks.
    pub fn new_empty(total_bits: u64, bitmap_start: u64, bitmap_blocks: u64, block_size: u32) -> (r: Self)
        requires
            bitmap_blocks * block_size <= usize::MAX,
            bitmap_blocks * block_size * 8 <= u64::MAX,
            total_bits <= bitmap_blocks * block_size * 8,
        ensures
            r.wf(),
            r@ == Seq::new(total_bits as nat, |i: int| false),
            r.spec_bytes() == Seq::new((bitmap_blocks * block_size) as nat, |i: int| 0u8),
            r.spec_start() == bitmap_start,
            r.spec_blocks() == bitmap_blocks,
            r.spec_block_size() == block_size,
    {
        let byte_count = (bitmap_blocks * block_size as u64) as usize;
        let r = Bitmap {
            data: vec![0u8; byte_count],
            total_bits,
            bitmap_start,
            bitmap_blocks,
            block_size,
            next_free_hint: 0,
        };
        proof {
            assert forall|i: int| 0 <= i < total_bits implies !seq_bit(r.data@, i) by {
                lemma_zero_byte((i % 8) as u8);
            }
            assert(r@ =~= Seq::new(total_bits as nat, |i: int| false));
            assert(r.data@ =~= Seq::new((bitmap_blocks * block_size) as nat, |i: int| 0u8));
        }
        r
    }

    /// A bitmap of `total_bits` bits, all free, with no disk location.
    pub fn new_all_free(total_bits: u32) -> (r: Self)
        ensures
            r.wf(),
            r.spec_bytes().len() == (total_bits + 7) / 8,
            r@ == Seq::new(total_bits as nat, |i: int| false),
    {
        let byte_count = ((total_bits as u64 + 7) / 8) as usize;
        let r = Bitmap {
            data: vec![0u8; byte_count],
            total_bits: total_bits as u64,
            bitmap_start: 0,
            bitmap_blocks: 0,
            block_size: 0,
            next_free_hint: 0,
        };
        proof {
            assert forall|i: int| 0 <= i < total_bits implies !seq_bit(r.data@, i) by {
                lemma_zero_byte((i % 8) as u8);
            }
            assert(r@ =~= Seq::new(total_bits as nat, |i: int| false));
        }
        r
    }

    /// A bitmap of `total_bits` bits loaded from raw bytes; missing bytes read as free.
    pub fn from_bytes(bytes: &[u8], total_bits: u32) -> (r: Self)
        ensures
            r.wf(),
            r.spec_bytes().len() == (total_bits + 7) / 8,
            r@ == Seq::new(
                total_bits as nat,
                |i: int| i / 8 < bytes@.len() && seq_bit(bytes@, i),
            ),
    {
        let byte_count = ((total_bits as u64 + 7) / 8) as usize;
        let mut data = vec![0u8; byte_count];
        let copy_len = if byte_count < bytes.len() { byte_count } else { bytes.len() };
        let mut k: usize = 0;
        while k < copy_len
            invariant
                copy_len <= byte_count,
                copy_len <= bytes@.len(),
                data@.len() == byte_count,
                k <= copy_len,
                forall|j: int| 0 <= j < k ==> data@[j] == bytes@[j],
                forall|j: int| k <= j < byte_count ==> data@[j] == 0u8,
            decreases copy_len - k,
        {
            data.set(k, bytes[k]);
            k = k + 1;
        }
        let r = Bitmap {
            data,
            total_bits: total_bits as u64,
            bitmap_start: 0,
            bitmap_blocks: 0,
            block_size: 0,
            next_free_hint: 0,
        };
        proof {
            assert forall|i: int| 0 <= i < total_bits implies r@[i] == (i / 8 < bytes@.len()
                && seq_bit(bytes@, i)) by {
                if i / 8 >= bytes@.len() {
                    lemma_zero_byte((i % 8) as u8);
                }
            }
            assert(r@ =~= Seq::new(
                total_bits as nat,
                |i: int| i / 8 < bytes@.len() && seq_bit(bytes@, i),
            ));
        }
        r
    }

    /// The backing bytes.
    pub fn as_bytes(&self) -> (r: &[u8])
        ensures
            r@ == self.spec_bytes(),
    {
        self.data.as_slice()
    }

    /// Number of tracked bits.
    pub fn total_bits(&self) -> (r: u64)
        ensures
            r == self@.len(),
    {
        self.total_bits
    }

    /// Reset the allocation hint to the beginning.
    pub fn reset_hint(&mut self)
        requires
            old(self).wf(),
        ensures
            final(self).wf(),
            final(self)@ == old(self)@,
            final(self).spec_bytes() == old(self).spec_bytes(),
    {
        self.next_free_hint = 0;
    }

    /// Whether bit `index` is free. Out-of-range indices are reported as not free.
    pub fn is_free(&self, index: u64) -> (r: bool)
        requires
            self.wf(),
        ensures
            r == (index < self@.len() && !self@[index as int]),
    {
        if index >= self.total_bits {
            return false;
        }
        let byte_idx = (index / 8) as usize;
        let bit = index % 8;
        (self.data[byte_idx] >> (bit as u8)) & 1u8 != 1u8
    }

    /// Set bit `index` (allocated) at byte `byte_idx`, bit `bit`.
    fn set_bit_raw(&mut self, index: u64)
        requires
            old(self).wf(),
            index < old(self)@.len(),
        ensures
            final(self)@ == old(self)@.update(index as int, true),
            final(self).wf(),
            final(self).next_free_hint == old(self).next_free_hint,
            final(self).total_bits == old(self).total_bits,
            final(self).bitmap_start == old(self).bitmap_start,
            final(self).bitmap_blocks == old(self).bitmap_blocks,
            final(self).block_size == old(self).block_size,
            final(self).data@.len() == old(self).data@.len(),
    {
        let byte_idx = (index / 8) as usize;
        let bit = (index % 8) as u8;
        let ghost old_data = self.data@;
        let nb = self.data[byte_idx] | (1u8 << bit);
        self.data.set(byte_idx, nb);
        proof {
            assert forall|i: int| 0 <= i < self.total_bits implies #[trigger] self@[i] == old(self)@.update(index as int, true)[i] by {
                if i / 8 == byte_idx as int {
                    lemma_set_bit(old_data[byte_idx as int], bit, (i % 8) as u8);
                }
            }
            assert(self@ =~= old(self)@.update(index as int, true));
        }
    }

    /// Mark bit `index` allocated, with no double-allocation check.
    pub fn set_allocated(&mut self, index: u64)
        requires
            old(self).wf(),
            index < old(self)@.len(),
        ensures
            final(self).wf(),
            final(self)@ == old(self)@.update(index as int, true),
            final(self).spec_bytes().len() == old(self).spec_bytes().len(),
    {
        self.set_bit_raw(index);
    }

    /// Free bit `index`. Fails on an out-of-range index or a double free.
    pub fn free(&mut self, index: u64) -> (r: Result<(), VolumeError>)
        requires
            old(self).wf(),
        ensures
            final(self).wf(),
            final(self).spec_bytes().len() == old(self).spec_bytes().len(),
            index >= old(self)@.len() ==> r == Err::<(), VolumeError>(VolumeError::OutOfRange)
                && final(self)@ == old(self)@,
            index < old(self)@.len() && !old(self)@[index as int] ==> r == Err::<(), VolumeError>(
                VolumeError::DoubleFree,
            ) && final(self)@ == old(self)@,
            index < old(self)@.len() && old(self)@[index as int] ==> r is Ok && final(self)@
                == old(self)@.update(index as int, false),
    {
        if index >= self.total_bits {
            return Err(VolumeError::OutOfRange);
        }
        let byte_idx = (index / 8) as usize;
        let bit = (index % 8) as u8;
        if (self.data[byte_idx] >> bit) & 1u8 != 1u8 {
            return Err(VolumeError::DoubleFree);
        }
        let ghost old_data = self.data@;
        let nb = self.data[byte_idx] & !(1u8 << bit);
        self.data.set(byte_idx, nb);
        if index < self.next_free_hint {
            self.next_free_hint = index;
        }
        proof {
            assert forall|i: int| 0 <= i < self.total_bits implies #[trigger] self@[i] == old(self)@.update(index as int, false)[i] by {
                if i / 8 == byte_idx as int {
                    lemma_clear_bit(old_data[byte_idx as int], bit, (i % 8) as u8);
                }
            }
            assert(self@ =~= old(self)@.update(index as int, false));
        }
        Ok(())
    }

    /// Allocate the lowest-numbered free bit, or `None` when every bit is allocated.
    pub fn alloc_one(&mut self) -> (r: Option<u64>)
        requires
            old(self).wf(),
        ensures
            final(self).wf(),
            final(self).spec_bytes().len() == old(self).spec_bytes().len(),
            match r {
                Some(i) => {
                    &&& i < old(self)@.len()
                    &&& !old(self)@[i as int]
                    &&& forall|j: int| 0 <= j < i ==> old(self)@[j]
                    &&& final(self)@ == old(self)@.update(i as int, true)
                },
                None => {
                    &&& forall|j: int| 0 <= j < old(self)@.len() ==> old(self)@[j]
                    &&& final(self)@ == old(self)@
                },
            },
    {
        let start_byte = (self.next_free_hint / 8) as usize;
        let total_bytes = self.data.len();
        let mut byte_idx = start_byte;
        while byte_idx < total_bytes
            invariant
                self.wf(),
                self.data@.len() == total_bytes,
                start_byte * 8 <= self.next_free_hint,
                byte_idx >= start_byte,
                *self == *old(self),
                forall|j: int| 0 <= j < byte_idx * 8 && j < self.total_bits ==> #[trigger] self@[j],
            decreases total_bytes - byte_idx,
        {
            if self.data[byte_idx] != 0xFFu8 {
                let mut bit: u64 = 0;
                while bit < 8
                    invariant
                        self.wf(),
                        *self == *old(self),
                        byte_idx < total_bytes,
                        self.data@.len() == total_bytes,
                        bit <= 8,
                        forall|j: int| 0 <= j < byte_idx * 8 + bit && j < self.total_bits ==> #[trigger] self@[j],
                    decreases 8 - bit,
                {
                    let global_bit = byte_idx as u64 * 8 + bit;
                    if global_bit >= self.total_bits {
                        proof {
                            assert forall|j: int| 0 <= j < old(self)@.len() implies old(self)@[j] by {
                            }
                        }
                        return None;
                    }
                    if (self.data[byte_idx] >> (bit as u8)) & 1u8 != 1u8 {
                        proof {
                            assert(!old(self)@[global_bit as int]);
                        }
                        self.set_bit_raw(global_bit);
                        self.next_free_hint = global_bit + 1;
                        if self.next_free_hint >= self.total_bits {
                            self.next_free_hint = 0;
                        }
                        return Some(global_bit);
                    }
                    bit = bit + 1;
                }
            } else {
                proof {
                    assert forall|j: int| byte_idx * 8 <= j < byte_idx * 8 + 8 && j < self.total_bits implies #[trigger] self@[j] by {
                        lemma_full_byte(self.data@[byte_idx as int], (j % 8) as u8);
                    }
                }
            }
            byte_idx = byte_idx + 1;
        }
        proof {
            assert forall|j: int| 0 <= j < old(self)@.len() implies old(self)@[j] by {
                if j < self.next_free_hint {
                } else {
                }
            }
        }
        None
    }

    /// Scan bytes `[start_byte, end_byte)` for the first window of `count`
    /// free bits, resetting the run at `start_byte`. Fully allocated bytes are
    /// skipped whole, and the rest of a byte is skipped once a bit past the
    /// tracked range is reached.
    fn scan_region(&self, count: u64, start_byte: usize, end_byte: usize) -> (r: Option<u64>)
        requires
            self.wf(),
            0 < count,
            start_byte <= end_byte <= self.data@.len(),
        ensures
            match r {
                Some(s) => is_first_window(
                    self@,
                    s as int,
                    count as int,
                    start_byte * 8,
                    region_hi(end_byte as int, self@.len() as int),
                ),
                None => forall|t: int|
                    !#[trigger] free_window(
                        self@,
                        t,
                        count as int,
                        start_byte * 8,
                        region_hi(end_byte as int, self@.len() as int),
                    ),
            },
    {
        let ghost lo: int = start_byte * 8;
        let ghost hi: int = region_hi(end_byte as int, self@.len() as int);
        let ghost v = self@;
        let mut run_start: Option<u64> = None;
        let mut run_len: u64 = 0;
        let mut g: u64 = start_byte as u64 * 8;
        let end: u64 = end_byte as u64 * 8;
        while g < end
            invariant
                self.wf(),
                v == self@,
                lo == start_byte * 8,
                hi == region_hi(end_byte as int, self@.len() as int),
                end == end_byte * 8,
                0 < count,
                start_byte <= end_byte <= self.data@.len(),
                lo <= g <= end,
                run_len < count,
                run_len <= g - lo,
                run_len > 0 ==> run_start == Some((g - run_len) as u64),
                run_len == 0 ==> run_start is None,
                forall|j: int| g - run_len <= j < g ==> j < v.len() && !v[j],
                g - run_len > lo && g - run_len - 1 < v.len() ==> v[g - run_len - 1],
                forall|t: int| t + count <= g ==> !#[trigger] free_window(v, t, count as int, lo, hi),
            decreases end - g,
        {
            let byte_idx = (g / 8) as usize;
            let bit = g % 8;
            let b = self.data[byte_idx];
            if bit == 0 && b == 0xFFu8 {
                proof {
                    assert forall|t: int| t + count <= g + 8 implies !#[trigger] free_window(
                        v,
                        t,
                        count as int,
                        lo,
                        hi,
                    ) by {
                        if t + count > g && free_window(v, t, count as int, lo, hi) {
                            let j = t + count - 1;
                            lemma_full_byte(b, (j % 8) as u8);
                            assert(!v[j]);
                        }
                    }
                    if g + 7 < v.len() {
                        lemma_full_byte(b, 7);
                        assert(v[g + 7]);
                    }
                }
                run_start = None;
                run_len = 0;
                g = g + 8;
            } else if g >= self.total_bits {
                let next = (byte_idx as u64 + 1) * 8;
                proof {
                    assert forall|t: int| t + count <= next implies !#[trigger] free_window(
                        v,
                        t,
                        count as int,
                        lo,
                        hi,
                    ) by {
                        if t + count > g && free_window(v, t, count as int, lo, hi) {
                            assert(t + count <= v.len());
                        }
                    }
                }
                run_start = None;
                run_len = 0;
                g = next;
            } else {
                proof {
                    lemma_mask_bit(b, bit as u8);
                }
                if b & (1u8 << (bit as u8)) == 0u8 {
                    proof {
                        assert(!v[g as int]);
                    }
                    if run_start.is_none() {
                        run_start = Some(g);
                        run_len = 0;
                    }
                    run_len = run_len + 1;
                    if run_len >= count {
                        proof {
                            assert forall|t: int| lo <= t < g + 1 - count implies !free_window(
                                v,
                                t,
                                count as int,
                                lo,
                                hi,
                            ) by {
                                assert(t + count <= g);
                            }
                        }
                        return run_start;
                    }
                    proof {
                        assert forall|t: int| t + count <= g + 1 implies !#[trigger] free_window(
                            v,
                            t,
                            count as int,
                            lo,
                            hi,
                        ) by {
                            if t + count == g + 1 && free_window(v, t, count as int, lo, hi) {
                                let j = g + 1 - run_len - 1;
                                assert(t <= j);
                                assert(!v[j]);
                            }
                        }
                    }
                } else {
                    proof {
                        assert forall|t: int| t + count <= g + 1 implies !#[trigger] free_window(
                            v,
                            t,
                            count as int,
                            lo,
                            hi,
                        ) by {
                            if t + count == g + 1 && free_window(v, t, count as int, lo, hi) {
                                assert(!v[g as int]);
                            }
                        }
                    }
                    run_start = None;
                    run_len = 0;
                }
                g = g + 1;
            }
        }
        None
    }

    /// The first run of `count` free bits starting at or after the hint's
    /// byte; when there is none, the search wraps around to bit 0 and gives
    /// the first run anywhere (which then starts before the hint's byte).
    /// `None` for `count` 0, more than the bitmap's bits, or no such run.
    pub fn find_contiguous_run(&self, count: u64, hint: u64) -> (r: Option<u64>)
        requires
            self.wf(),
        ensures
            ({
                let b = (hint / 8) * 8;
                let total = self@.len() as int;
                if count == 0 || count > total {
                    r is None
                } else if exists|t: int| #[trigger] free_window(self@, t, count as int, b as int, total) {
                    r matches Some(s) && is_first_window(self@, s as int, count as int, b as int, total)
                } else if exists|t: int| #[trigger] free_window(self@, t, count as int, 0, total) {
                    r matches Some(s) && is_first_window(self@, s as int, count as int, 0, total) && s < b
                } else {
                    r is None
                }
            }),
    {
        if count == 0 || count > self.total_bits {
            return None;
        }
        let total_bytes = self.data.len();
        let hint_byte_full = hint / 8;
        let ghost total = self@.len() as int;
        let ghost bb = ((hint / 8) * 8) as int;
        proof {
            assert(region_hi(total_bytes as int, total) == total);
        }
        if hint_byte_full < total_bytes as u64 {
            let hint_byte = hint_byte_full as usize;
            let first = self.scan_region(count, hint_byte, total_bytes);
            proof {
                assert(hint_byte * 8 == bb);
            }
            if first.is_some() {
                return first;
            }
        }
        let second = self.scan_region(count, 0, total_bytes);
        proof {
            assert(0usize * 8 == 0);
            assert(!exists|t: int| #[trigger] free_window(self@, t, count as int, bb, total)) by {
                if hint_byte_full >= total_bytes as u64 {
                    assert forall|t: int| !#[trigger] free_window(self@, t, count as int, bb, total) by {}
                }
            }
            if exists|t: int| #[trigger] free_window(self@, t, count as int, 0, total) {
                let t0 = choose|t: int| #[trigger] free_window(self@, t, count as int, 0, total);
                assert(second is None ==> !free_window(self@, t0, count as int, 0usize * 8, region_hi(total_bytes as int, total)));
                assert(second is Some);
                let s0 = second->0 as int;
                assert(is_first_window(self@, s0, count as int, 0, total));
                if s0 >= bb {
                    assert(free_window(self@, s0, count as int, bb, total));
                }
            } else {
                assert(second is None);
            }
        }
        second
    }

    /// Read the bitmap's `bitmap_blocks` blocks from disk into memory and reset the hint.
    pub fn load<D: CFSBlockDevice>(&mut self, dev: &mut D) -> (r: Result<(), VolumeError>)
        requires
            old(self).wf(),
            old(self).spec_blocks() * old(self).spec_block_size() <= old(self).spec_bytes().len(),
            (old(self).spec_start() + old(self).spec_blocks()) * old(self).spec_block_size()
                <= u64::MAX,
            old(self).spec_start() + old(self).spec_blocks() <= u64::MAX,
        ensures
            r matches Err(e) ==> e is Device,
            final(self).wf(),
            final(dev).contents() == old(dev).contents(),
            final(self)@.len() == old(self)@.len(),
            final(self).spec_start() == old(self).spec_start(),
            final(self).spec_blocks() == old(self).spec_blocks(),
            final(self).spec_block_size() == old(self).spec_block_size(),
            r is Ok ==> final(self).spec_bytes() == loaded_bytes(
                old(dev).contents(),
                old(self).spec_start() * old(self).spec_block_size(),
                old(self).spec_blocks() * old(self).spec_block_size(),
                old(self).spec_bytes(),
            ),
    {
        self.next_free_hint = 0;
        let bs = self.block_size as u64;
        let ghost orig = self.data@;
        let ghost n: int = self.bitmap_blocks * self.block_size;
        let ghost off: int = self.bitmap_start * self.block_size;
        let mut b: u64 = 0;
        while b < self.bitmap_blocks
            invariant
                self.total_bits <= self.data@.len() * 8,
                self.data@.len() * 8 <= u64::MAX,
                self.data@.len() <= usize::MAX,
                self.next_free_hint == 0,
                dev.contents() == old(dev).contents(),
                bs == self.block_size,
                b <= self.bitmap_blocks,
                self.bitmap_blocks == old(self).bitmap_blocks,
                self.bitmap_start == old(self).bitmap_start,
                self.block_size == old(self).block_size,
                self.total_bits == old(self).total_bits,
                orig == old(self).data@,
                n == self.bitmap_blocks * self.block_size,
                off == self.bitmap_start * self.block_size,
                n <= orig.len(),
                (self.bitmap_start + self.bitmap_blocks) * self.block_size <= u64::MAX,
                self.bitmap_start + self.bitmap_blocks <= u64::MAX,
                self.data@.len() == orig.len(),
                b > 0 ==> off + b * bs <= dev.contents().len(),
                b == 0 ==> self.data@ == orig,
                b > 0 ==> self.data@ == dev.contents().subrange(off, off + b * bs) + orig.subrange(b * bs, orig.len() as int),
            decreases self.bitmap_blocks - b,
        {
            proof {
                assert((self.bitmap_start + b) * bs <= (self.bitmap_start + self.bitmap_blocks) * bs) by (nonlinear_arith)
                    requires b <= self.bitmap_blocks;
                assert((b + 1) * bs <= self.bitmap_blocks * bs) by (nonlinear_arith)
                    requires b < self.bitmap_blocks;
                assert((self.bitmap_start + b) * bs == off + b * bs) by (nonlinear_arith)
                    requires off == self.bitmap_start * bs;
                assert((b + 1) * bs == b * bs + bs) by (nonlinear_arith);
            }
            assert((self.bitmap_start + b) * bs <= u64::MAX);
            let disk_offset = (self.bitmap_start + b) * bs;
            let buf_start = (b * bs) as usize;
            let chunk = match dev.read(disk_offset, self.block_size as usize) {
                Ok(c) => c,
                Err(e) => {
                    return Err(VolumeError::Device(e));
                },
            };
            let ghost prev = self.data@;
            put_bytes(&mut self.data, buf_start, chunk.as_slice());
            proof {
                if b > 0 {
                    assert(dev.contents().subrange(off, off + b * bs) + dev.contents().subrange(off + b * bs, off + (b + 1) * bs) =~= dev.contents().subrange(off, off + (b + 1) * bs));
                } else {
                    assert(orig.subrange(0, orig.len() as int) =~= orig);
                }
                assert(self.data@ =~= dev.contents().subrange(off, off + (b + 1) * bs) + orig.subrange((b + 1) * bs, orig.len() as int));
            }
            b = b + 1;
        }
        proof {
            assert forall|i: int| 0 <= i < self.next_free_hint implies #[trigger] self@[i] by {}
            assert(b * bs == n);
            if n == 0 && b > 0 {
                assert(self.data@ =~= orig);
            }
            if n > 0 {
                assert(b == 0 ==> b * bs == 0) by (nonlinear_arith);
                assert(b > 0);
                assert(self.data@ == loaded_bytes(dev.contents(), off, n, orig));
            }
        }
        Ok(())
    }

    /// Write the bitmap's `bitmap_blocks` blocks from memory to disk.
    pub fn save<D: CFSBlockDevice>(&self, dev: &mut D) -> (r: Result<(), VolumeError>)
        requires
            self.wf(),
            self.spec_blocks() * self.spec_block_size() <= self.spec_bytes().len(),
            (self.spec_start() + self.spec_blocks()) * self.spec_block_size() <= u64::MAX,
            self.spec_start() + self.spec_blocks() <= u64::MAX,
        ensures
            r matches Err(e) ==> e is Device,
            r is Ok ==> final(dev).contents() == saved_contents(
                old(dev).contents(),
                self.spec_start() * self.spec_block_size(),
                self.spec_blocks() * self.spec_block_size(),
                self.spec_bytes(),
            ),
    {
        let bs = self.block_size as u64;
        let ghost off: int = self.bitmap_start * self.block_size;
        let mut b: u64 = 0;
        while b < self.bitmap_blocks
            invariant
                self.wf(),
                bs == self.block_size,
                b <= self.bitmap_blocks,
                off == self.bitmap_start * self.block_size,
                self.bitmap_blocks * self.block_size <= self.data@.len(),
                (self.bitmap_start + self.bitmap_blocks) * self.block_size <= u64::MAX,
                self.bitmap_start + self.bitmap_blocks <= u64::MAX,
                b > 0 ==> off + b * bs <= dev.contents().len(),
                old(dev).contents().len() == dev.contents().len(),
                b == 0 ==> dev.contents() == old(dev).contents(),
                b > 0 ==> dev.contents() == written(old(dev).contents(), off, self.data@.subrange(0, b * bs)),
            decreases self.bitmap_blocks - b,
        {
            proof {
                assert((self.bitmap_start + b) * bs <= (self.bitmap_start + self.bitmap_blocks) * bs) by (nonlinear_arith)
                    requires b <= self.bitmap_blocks;
                assert((b + 1) * bs <= self.bitmap_blocks * bs) by (nonlinear_arith)
                    requires b < self.bitmap_blocks;
                assert((self.bitmap_start + b) * bs == off + b * bs) by (nonlinear_arith)
                    requires off == self.bitmap_start * bs;
                assert((b + 1) * bs == b * bs + bs) by (nonlinear_arith);
            }
            let disk_offset = (self.bitmap_start + b) * bs;
            let buf_start = (b * bs) as usize;
            let buf_end = buf_start + self.block_size as usize;
            let chunk = vstd::slice::slice_subrange(self.data.as_slice(), buf_start, buf_end);
            let ghost before = dev.contents();
            match dev.write(disk_offset, chunk) {
                Ok(()) => {},
                Err(e) => {
                    return Err(VolumeError::Device(e));
                },
            }
            proof {
                if b > 0 {
                    lemma_written_concat(old(dev).contents(), off, self.data@.subrange(0, b * bs), chunk@);
                    assert(self.data@.subrange(0, b * bs) + chunk@ =~= self.data@.subrange(0, (b + 1) * bs));
                } else {
                    assert(chunk@ =~= self.data@.subrange(0, (b + 1) * bs));
                }
            }
            b = b + 1;
        }
        proof {
            assert(b * bs == self.bitmap_blocks * self.block_size);
            if b * bs == 0 && b > 0 {
                assert(dev.contents() =~= old(dev).contents());
            }
        }
        Ok(())
    }

    /// Write the bitmap as checksummed blocks: block `b` holds the bitmap
    /// bytes from `b * (block_size - 4)` (zero-padded past the end of the
    /// bitmap) followed by their CRC-32.
    pub fn save_with_checksums<D: CFSBlockDevice>(&self, dev: &mut D) -> (r: Result<(), VolumeError>)
        requires
            self.wf(),
            4 <= self.spec_block_size(),
            self.spec_blocks() == 0 || (self.spec_blocks() - 1) * (self.spec_block_size() - 4) <= self.spec_bytes().len(),
            (self.spec_start() + self.spec_blocks()) * self.spec_block_size() <= u64::MAX,
        ensures
            r matches Err(e) ==> e is Device,
            r is Ok ==> final(dev).contents() == checksummed_saved(
                old(dev).contents(),
                self.spec_start() * self.spec_block_size(),
                self.spec_bytes(),
                self.spec_block_size() - 4,
                self.spec_blocks() as nat,
            ),
    {
        let bs = self.block_size as u64;
        let dpb: u64 = bs - 4;
        let ghost off: int = self.bitmap_start * self.block_size;
        let ghost data = self.data@;
        let len = self.data.len();
        let mut b: u64 = 0;
        let mut ds: u64 = 0;
        while b < self.bitmap_blocks
            invariant
                self.wf(),
                data == self.data@,
                len == data.len(),
                bs == self.block_size,
                4 <= bs,
                dpb == bs - 4,
                b <= self.bitmap_blocks,
                ds == b * dpb,
                off == self.bitmap_start * self.block_size,
                self.bitmap_blocks == 0 || (self.bitmap_blocks - 1) * dpb <= len,
                (self.bitmap_start + self.bitmap_blocks) * self.block_size <= u64::MAX,
                old(dev).contents().len() == dev.contents().len(),
                b > 0 ==> off + b * bs <= dev.contents().len(),
                b == 0 ==> dev.contents() == old(dev).contents(),
                b > 0 ==> dev.contents() == written(old(dev).contents(), off, checksummed_blocks(data, dpb as int, b as nat)),
            decreases self.bitmap_blocks - b,
        {
            proof {
                assert((self.bitmap_start + b) * bs <= (self.bitmap_start + self.bitmap_blocks) * bs) by (nonlinear_arith)
                    requires b <= self.bitmap_blocks;
                assert((self.bitmap_start + b) * bs == off + b * bs) by (nonlinear_arith)
                    requires off == self.bitmap_start * bs;
                assert((b + 1) * bs == b * bs + bs) by (nonlinear_arith);
                assert(b * dpb <= (self.bitmap_blocks - 1) * dpb) by (nonlinear_arith)
                    requires b < self.bitmap_blocks;
                assert((b + 1) * dpb == b * dpb + dpb) by (nonlinear_arith);
                assert((b + 1) * dpb <= (self.bitmap_start + self.bitmap_blocks) * bs) by (nonlinear_arith)
                    requires b < self.bitmap_blocks, dpb <= bs;
                assert(self.bitmap_start + self.bitmap_blocks <= (self.bitmap_start + self.bitmap_blocks) * bs) by (nonlinear_arith)
                    requires bs >= 4;
                if b > 0 {
                    assert((b - 1) * dpb <= b * dpb) by (nonlinear_arith) requires b > 0;
                }
            }
            let data_start = ds as usize;
            let data_end: usize = if len - data_start >= dpb as usize { data_start + dpb as usize } else { len };
            let mut block_buf: Vec<u8> = Vec::new();
            push_bytes(&mut block_buf, vstd::slice::slice_subrange(self.data.as_slice(), data_start, data_end));
            push_zeros(&mut block_buf, dpb as usize - (data_end - data_start));
            let checksum = crc32_hash(block_buf.as_slice());
            push_u32(&mut block_buf, checksum);
            proof {
                lemma_codec_roundtrip();
                assert(block_buf@ =~= checksummed_block(data, b as int, dpb as int));
                lemma_checksummed_len(data, dpb as int, b as nat);
            }
            let disk_offset = (self.bitmap_start + b) * bs;
            match dev.write(disk_offset, block_buf.as_slice()) {
                Ok(()) => {},
                Err(e) => {
                    return Err(VolumeError::Device(e));
                },
            }
            proof {
                if b > 0 {
                    lemma_written_concat(old(dev).contents(), off, checksummed_blocks(data, dpb as int, b as nat), block_buf@);
                }
                assert(checksummed_blocks(data, dpb as int, (b + 1) as nat)
                    == checksummed_blocks(data, dpb as int, b as nat) + checksummed_block(data, b as int, dpb as int));
                if b == 0 {
                    assert(checksummed_blocks(data, dpb as int, 0) =~= Seq::<u8>::empty());
                    assert(checksummed_blocks(data, dpb as int, 1) =~= block_buf@);
                }
            }
            b = b + 1;
            ds = ds + dpb;
        }
        Ok(())
    }

    /// Read the bitmap from checksummed blocks (see `save_with_checksums`),
    /// checking each block's CRC-32 before taking its bytes; resets the hint.
    /// Fails with `ChecksumMismatch` at the first block whose checksum does
    /// not match.
    pub fn load_with_checksums<D: CFSBlockDevice>(&mut self, dev: &mut D) -> (r: Result<(), VolumeError>)
        requires
            old(self).wf(),
            4 <= old(self).spec_block_size(),
            old(self).spec_blocks() == 0
                || (old(self).spec_blocks() - 1) * (old(self).spec_block_size() - 4) <= old(self).spec_bytes().len(),
            (old(self).spec_start() + old(self).spec_blocks()) * old(self).spec_block_size() <= u64::MAX,
        ensures
            final(self).wf(),
            final(dev).contents() == old(dev).contents(),
            final(self)@.len() == old(self)@.len(),
            final(self).spec_bytes().len() == old(self).spec_bytes().len(),
            final(self).spec_start() == old(self).spec_start(),
            final(self).spec_blocks() == old(self).spec_blocks(),
            final(self).spec_block_size() == old(self).spec_block_size(),
            r is Ok ==> {
                &&& forall|b: int| 0 <= b < old(self).spec_blocks() ==> #[trigger] block_checksum_ok(
                    old(dev).contents(),
                    old(self).spec_start() * old(self).spec_block_size(),
                    old(self).spec_block_size() as int,
                    b,
                )
                &&& final(self).spec_bytes() == checksum_loaded(
                    old(dev).contents(),
                    old(self).spec_start() * old(self).spec_block_size(),
                    old(self).spec_block_size() as int,
                    old(self).spec_bytes(),
                    old(self).spec_blocks() as nat,
                )
            },
            r matches Err(e) ==> (e is Device || e is ChecksumMismatch),
            r == Err::<(), VolumeError>(VolumeError::ChecksumMismatch) ==> exists|b: int|
                0 <= b < old(self).spec_blocks() && old(self).spec_start() * old(self).spec_block_size() + (b + 1)
                    * old(self).spec_block_size() <= old(dev).contents().len() && !#[trigger] block_checksum_ok(
                    old(dev).contents(),
                    old(self).spec_start() * old(self).spec_block_size(),
                    old(self).spec_block_size() as int,
                    b,
                ),
    {
        self.next_free_hint = 0;
        let bs = self.block_size as u64;
        let dpb: u64 = bs - 4;
        let ghost off: int = self.bitmap_start * self.block_size;
        let ghost orig = self.data@;
        let ghost c = dev.contents();
        let len = self.data.len();
        let mut b: u64 = 0;
        let mut ds: u64 = 0;
        while b < self.bitmap_blocks
            invariant
                self.wf(),
                self.next_free_hint == 0,
                self.total_bits == old(self).total_bits,
                self.bitmap_start == old(self).bitmap_start,
                self.bitmap_blocks == old(self).bitmap_blocks,
                self.block_size == old(self).block_size,
                orig == old(self).data@,
                c == old(dev).contents(),
                dev.contents() == c,
                len == orig.len(),
                self.data@.len() == len,
                bs == self.block_size,
                4 <= bs,
                dpb == bs - 4,
                b <= self.bitmap_blocks,
                ds == b * dpb,
                off == self.bitmap_start * self.block_size,
                self.bitmap_blocks == 0 || (self.bitmap_blocks - 1) * dpb <= len,
                (self.bitmap_start + self.bitmap_blocks) * self.block_size <= u64::MAX,
                forall|k: int| 0 <= k < b ==> #[trigger] block_checksum_ok(c, off, bs as int, k),
                self.data@ == checksum_loaded(c, off, bs as int, orig, b as nat),
            decreases self.bitmap_blocks - b,
        {
            proof {
                assert((self.bitmap_start + b) * bs <= (self.bitmap_start + self.bitmap_blocks) * bs) by (nonlinear_arith)
                    requires b <= self.bitmap_blocks;
                assert((self.bitmap_start + b) * bs == off + b * bs) by (nonlinear_arith)
                    requires off == self.bitmap_start * bs;
                assert((b + 1) * bs == b * bs + bs) by (nonlinear_arith);
                assert(b * dpb <= (self.bitmap_blocks - 1) * dpb) by (nonlinear_arith)
                    requires b < self.bitmap_blocks;
                assert((b + 1) * dpb == b * dpb + dpb) by (nonlinear_arith);
                assert((b + 1) * dpb <= (self.bitmap_start + self.bitmap_blocks) * bs) by (nonlinear_arith)
                    requires b < self.bitmap_blocks, dpb <= bs;
                assert(self.bitmap_start + self.bitmap_blocks <= (self.bitmap_start + self.bitmap_blocks) * bs) by (nonlinear_arith)
                    requires bs >= 4;
                assert(0 <= off);
            }
            let disk_offset = (self.bitmap_start + b) * bs;
            let block_buf = match dev.read(disk_offset, bs as usize) {
                Ok(v) => v,
                Err(e) => {
                    return Err(VolumeError::Device(e));
                },
            };
            let ghost bo: int = off + b * bs;
            let stored = get_u32(block_buf.as_slice(), dpb as usize);
            let computed = crc32_hash(vstd::slice::slice_subrange(block_buf.as_slice(), 0, dpb as usize));
            proof {
                assert(block_buf@.subrange(dpb as int, dpb + 4) =~= c.subrange(bo + dpb, bo + dpb + 4));
                assert(block_buf@.subrange(0, dpb as int) =~= c.subrange(bo, bo + bs - 4));
                assert(stored == le32(c, bo + bs - 4));
            }
            if stored != computed {
                proof {
                    assert(!block_checksum_ok(c, off, bs as int, b as int));
                    assert(off + (b + 1) * bs <= c.len());
                    assert(0 <= b < self.bitmap_blocks);
                    assert(old(self).spec_start() * old(self).spec_block_size() + (b + 1) * old(self).spec_block_size()
                        <= old(dev).contents().len());
                }
                return Err(VolumeError::ChecksumMismatch);
            }
            let data_start = ds as usize;
            let slice_len: usize = if len - data_start >= dpb as usize { dpb as usize } else { len - data_start };
            let ghost prev = self.data@;
            put_bytes(&mut self.data, data_start, vstd::slice::slice_subrange(block_buf.as_slice(), 0, slice_len));
            proof {
                assert(block_checksum_ok(c, off, bs as int, b as int));
                assert(payload_end(orig.len() as int, b as int, bs - 4) == data_start + slice_len);
                assert(block_buf@.subrange(0, slice_len as int) =~= c.subrange(bo, bo + slice_len));
                assert(self.data@ =~= checksum_loaded(c, off, bs as int, orig, (b + 1) as nat));
            }
            b = b + 1;
            ds = ds + dpb;
        }
        Ok(())
    }

    /// Number of free bits.
    pub fn free_count(&self) -> (r: u64)
        requires
            self.wf(),
        ensures
            r == count_free(self@, self@.len() as int),
    {
        let mut count: u64 = 0;
        let mut i: u64 = 0;
        while i < self.total_bits
            invariant
                self.wf(),
                i <= self.total_bits,
                count == count_free(self@, i as int),
                count <= i,
            decreases self.total_bits - i,
        {
            if self.is_free(i) {
                count = count + 1;
            }
            i = i + 1;
        }
        count
    }
}

} // verus!
