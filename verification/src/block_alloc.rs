//! Block allocation on the flat (legacy) bitmap, and contiguous runs.

use vstd::prelude::*;
use crate::bitmap::{Bitmap, free_window, is_first_window, count_free};
use crate::superblock::Superblock;
use crate::error::VolumeError;
use crate::device::{CFSBlockDevice, written, lemma_written_concat};
use crate::group::GroupDescriptor;
use crate::codec::zeros;
use crate::group_alloc::{GroupBitmapManager, alloc_blocks_group, alloc_blocks_near, free_blocks_group, all_held, released, sb_minus_blocks, try_contiguous_in_group};

verus! {

/// Position `j` occurs in `idxs`.
pub open spec fn listed(idxs: Seq<u64>, j: int) -> bool {
    exists|k: int| 0 <= k < idxs.len() && #[trigger] idxs[k] as int == j
}

/// `v` with every position listed in `idxs` marked allocated.
pub open spec fn set_all(v: Seq<bool>, idxs: Seq<u64>) -> Seq<bool> {
    Seq::new(v.len(), |j: int| v[j] || listed(idxs, j))
}

/// `v` with every position listed in `idxs` marked free.
pub open spec fn clear_all(v: Seq<bool>, idxs: Seq<u64>) -> Seq<bool> {
    Seq::new(v.len(), |j: int| v[j] && !listed(idxs, j))
}

/// Every listed index is in range, allocated in `v`, and listed once.
pub open spec fn freeable(v: Seq<bool>, idxs: Seq<u64>) -> bool {
    &&& forall|k: int| 0 <= k < idxs.len() ==> idxs[k] < v.len() && v[idxs[k] as int]
    &&& idxs.no_duplicates()
}

/// Why a flat-bitmap allocation of `n` blocks fails: the superblock counts
/// fewer than `n` free blocks (`NoSpace`), or it counts enough but the
/// bitmap has fewer than `n` free bits (`Invalid`).
pub open spec fn flat_alloc_fails(bm: Seq<bool>, free_blocks: u64, n: u64, e: VolumeError) -> bool {
    ||| e == VolumeError::NoSpace && n > free_blocks
    ||| e == VolumeError::Invalid && n <= free_blocks && count_free(bm, bm.len() as int) < n
}

/// Allocate `n` data blocks on the flat bitmap; returns their bitmap indices
/// in increasing order, each the lowest free bit at the time it was taken.
/// On failure everything allocated so far is rolled back.
pub fn alloc_blocks(bitmap: &mut Bitmap, sb: &mut Superblock, n: u64) -> (r: Result<Vec<u64>, VolumeError>)
    requires
        old(bitmap).wf(),
    ensures
        final(bitmap).wf(),
        n > old(sb).free_blocks ==> r == Err::<Vec<u64>, VolumeError>(VolumeError::NoSpace),
        match r {
            Ok(v) => {
                &&& v@.len() == n
                &&& final(sb).free_blocks == old(sb).free_blocks - n
                &&& *final(sb) == (Superblock { free_blocks: final(sb).free_blocks, ..*old(sb) })
                &&& forall|k: int| 0 <= k < v@.len() ==> v@[k] < old(bitmap)@.len() && !old(bitmap)@[v@[k] as int]
                &&& forall|k: int, l: int| 0 <= k < l < v@.len() ==> v@[k] < v@[l]
                &&& forall|k: int, j: int| #![trigger v@[k], old(bitmap)@[j]] 0 <= k < v@.len() && 0 <= j < v@[k] ==> old(bitmap)@[j] || listed(v@, j)
                &&& final(bitmap)@ == set_all(old(bitmap)@, v@)
            },
            Err(e) => {
                &&& *final(sb) == *old(sb)
                &&& final(bitmap)@ == old(bitmap)@
                &&& flat_alloc_fails(old(bitmap)@, old(sb).free_blocks, n, e)
            },
        },
{
    if n > sb.free_blocks {
        return Err(VolumeError::NoSpace);
    }
    let ghost orig = bitmap@;
    let mut allocated: Vec<u64> = Vec::new();
    let mut i: u64 = 0;
    while i < n
        invariant
            bitmap.wf(),
            i <= n,
            allocated@.len() == i,
            orig == old(bitmap)@,
            *sb == *old(sb),
            n <= sb.free_blocks,
            bitmap@.len() == orig.len(),
            forall|k: int| 0 <= k < allocated@.len() ==> allocated@[k] < orig.len() && !orig[allocated@[k] as int],
            forall|k: int, l: int| 0 <= k < l < allocated@.len() ==> allocated@[k] < allocated@[l],
            forall|k: int, j: int| #![trigger allocated@[k], orig[j]] 0 <= k < allocated@.len() && 0 <= j < allocated@[k] ==> orig[j] || listed(allocated@, j),
            allocated@.len() > 0 ==> forall|j: int| 0 <= j <= allocated@.last() ==> bitmap@[j],
            bitmap@ == set_all(orig, allocated@),
        decreases n - i,
    {
        let ghost before = bitmap@;
        match bitmap.alloc_one() {
            Some(idx) => {
                proof {
                    assert(!orig[idx as int]) by {
                        assert(!set_all(orig, allocated@)[idx as int]);
                    }
                    if allocated@.len() > 0 {
                        assert(idx > allocated@.last()) by {
                            if idx <= allocated@.last() {
                                assert(bitmap@[idx as int]);
                            }
                        }
                    }
                }
                let ghost prev = allocated@;
                allocated.push(idx);
                proof {
                    assert(prev =~= allocated@.drop_last());
                    assert(prev =~= allocated@.subrange(0, allocated@.len() - 1));
                    assert forall|j: int| 0 <= j < orig.len() implies listed(allocated@, j) == (listed(prev, j) || j == idx as int) by {
                        if listed(allocated@, j) {
                            let k = choose|k: int| 0 <= k < allocated@.len() && #[trigger] allocated@[k] as int == j;
                            if k < allocated@.len() - 1 {
                                assert(prev[k] as int == j);
                            }
                        }
                        if listed(prev, j) {
                            let k = choose|k: int| 0 <= k < prev.len() && #[trigger] prev[k] as int == j;
                            assert(allocated@[k] as int == j);
                        }
                        if j == idx as int {
                            assert(allocated@[allocated@.len() - 1] as int == j);
                        }
                    }
                    assert forall|j: int| 0 <= j < orig.len() implies #[trigger] bitmap@[j] == set_all(orig, allocated@)[j] by {
                        assert(before == set_all(orig, prev));
                        assert(bitmap@[j] == (j == idx as int || before[j]));
                    }
                    assert(bitmap@ =~= set_all(orig, allocated@));
                    assert forall|k: int, j: int| #![trigger allocated@[k], orig[j]] 0 <= k < allocated@.len() && 0 <= j < allocated@[k] implies orig[j] || listed(allocated@, j) by {
                        if k < allocated@.len() - 1 {
                            assert(prev[k] == allocated@[k]);
                            assert(orig[j] || listed(prev, j));
                        } else {
                            assert(before[j]);
                        }
                    }
                }
            },
            None => {
                proof {
                    assert(count_free(bitmap@, bitmap@.len() as int) == 0) by {
                        lemma_count_all_allocated(bitmap@, bitmap@.len() as int);
                    }
                    lemma_count_free_set_all(orig, allocated@, orig.len() as int);
                    lemma_count_below_len(allocated@, orig.len() as int);
                }
                let ghost alloc_seq = allocated@;
                let mut k: usize = 0;
                assert(allocated@.subrange(0, allocated@.len() as int) =~= allocated@);
                while k < allocated.len()
                    invariant
                        bitmap.wf(),
                        allocated@ == alloc_seq,
                        k <= allocated@.len(),
                        bitmap@.len() == orig.len(),
                        forall|q: int| 0 <= q < allocated@.len() ==> allocated@[q] < orig.len() && !orig[allocated@[q] as int],
                        forall|q: int, l: int| 0 <= q < l < allocated@.len() ==> allocated@[q] < allocated@[l],
                        bitmap@ == set_all(orig, allocated@.subrange(k as int, allocated@.len() as int)),
                    decreases allocated@.len() - k,
                {
                    let idx = allocated[k];
                    proof {
                        assert(allocated@.subrange(k as int, allocated@.len() as int)[0] == idx);
                    }
                    let _ = bitmap.free(idx);
                    proof {
                        let s0 = allocated@.subrange(k as int, allocated@.len() as int);
                        let s1 = allocated@.subrange(k + 1, allocated@.len() as int);
                        assert forall|j: int| 0 <= j < orig.len() implies listed(s0, j) == (listed(s1, j) || j == idx as int) by {
                            if listed(s0, j) {
                                let m = choose|m: int| 0 <= m < s0.len() && #[trigger] s0[m] as int == j;
                                if m > 0 {
                                    assert(s1[m - 1] as int == j);
                                }
                            }
                            if listed(s1, j) {
                                let m = choose|m: int| 0 <= m < s1.len() && #[trigger] s1[m] as int == j;
                                assert(s0[m + 1] as int == j);
                            }
                            if j == idx as int {
                                assert(s0[0] as int == j);
                            }
                        }
                        assert forall|j: int| 0 <= j < orig.len() && listed(s1, j) implies j != idx as int by {
                            let m = choose|m: int| 0 <= m < s1.len() && #[trigger] s1[m] as int == j;
                            assert(allocated@[k + 1 + m] > allocated@[k as int]);
                        }
                        assert(bitmap@ =~= set_all(orig, allocated@.subrange(k + 1, allocated@.len() as int)));
                    }
                    k = k + 1;
                }
                proof {
                    assert(set_all(orig, allocated@.subrange(allocated@.len() as int, allocated@.len() as int)) =~= orig);
                }
                return Err(VolumeError::Invalid);
            },
        }
        i = i + 1;
    }
    sb.free_blocks = sb.free_blocks - n;
    Ok(allocated)
}

/// Free the given data blocks (by bitmap index). Stops at the first index
/// that is out of range or already free.
pub fn free_blocks(bitmap: &mut Bitmap, sb: &mut Superblock, blocks: &[u64]) -> (r: Result<(), VolumeError>)
    requires
        old(bitmap).wf(),
        old(sb).free_blocks + blocks@.len() <= u64::MAX,
    ensures
        final(bitmap).wf(),
        final(bitmap)@.len() == old(bitmap)@.len(),
        r is Ok <==> freeable(old(bitmap)@, blocks@),
        r is Ok ==> {
            &&& final(bitmap)@ == clear_all(old(bitmap)@, blocks@)
            &&& final(sb).free_blocks == old(sb).free_blocks + blocks@.len()
            &&& *final(sb) == (Superblock { free_blocks: final(sb).free_blocks, ..*old(sb) })
        },
        r is Err ==> *final(sb) == *old(sb),
{
    let ghost orig = bitmap@;
    let mut k: usize = 0;
    while k < blocks.len()
        invariant
            bitmap.wf(),
            orig == old(bitmap)@,
            bitmap@.len() == orig.len(),
            *sb == *old(sb),
            k <= blocks@.len(),
            freeable(orig, blocks@.subrange(0, k as int)),
            bitmap@ == clear_all(orig, blocks@.subrange(0, k as int)),
        decreases blocks@.len() - k,
    {
        let idx = blocks[k];
        let ghost pre = blocks@.subrange(0, k as int);
        let ghost post = blocks@.subrange(0, k + 1);
        proof {
            assert(post =~= pre.push(idx));
            assert forall|j: int| 0 <= j < orig.len() implies listed(post, j) == (listed(pre, j) || j == idx as int) by {
                if listed(pre, j) {
                    let m = choose|m: int| 0 <= m < pre.len() && #[trigger] pre[m] as int == j;
                    assert(post[m] as int == j);
                }
                if listed(post, j) {
                    let m = choose|m: int| 0 <= m < post.len() && #[trigger] post[m] as int == j;
                    if m < pre.len() {
                        assert(pre[m] as int == j);
                    }
                }
                if j == idx as int {
                    assert(post[k as int] as int == j);
                }
            }
        }
        match bitmap.free(idx) {
            Ok(()) => {},
            Err(e) => {
                proof {
                    if freeable(orig, blocks@) {
                        assert(blocks@[k as int] == idx);
                        if idx < orig.len() && listed(pre, idx as int) {
                            let m = choose|m: int| 0 <= m < pre.len() && #[trigger] pre[m] as int == idx as int;
                            assert(blocks@[m] == blocks@[k as int]);
                        }
                    }
                }
                return Err(e);
            },
        }
        proof {
            assert(!listed(pre, idx as int));
            assert forall|q: int, l: int| 0 <= q < l < post.len() implies post[q] != post[l] by {
                if l == k as int {
                    assert(pre[q] as int == post[q] as int);
                }
            }
            assert(bitmap@ =~= clear_all(orig, post));
        }
        k = k + 1;
    }
    sb.free_blocks = sb.free_blocks + blocks.len() as u64;
    proof {
        assert(blocks@.subrange(0, blocks@.len() as int) =~= blocks@);
    }
    Ok(())
}

/// Free data blocks after overwriting each with zeros on disk (by bitmap
/// index, relative to `data_start`). The zeros are flushed before any bit is
/// cleared, so freed blocks never hold old data.
pub fn secure_free_blocks<D: CFSBlockDevice>(
    dev: &mut D,
    bitmap: &mut Bitmap,
    sb: &mut Superblock,
    blocks: &[u64],
    data_start: u64,
    block_size: u32,
) -> (r: Result<(), VolumeError>)
    requires
        old(bitmap).wf(),
        old(sb).free_blocks + blocks@.len() <= u64::MAX,
        forall|k: int| 0 <= k < blocks@.len() ==> (data_start + blocks@[k] + 1) * block_size <= u64::MAX,
        forall|k: int| 0 <= k < blocks@.len() ==> data_start + blocks@[k] < u64::MAX,
    ensures
        final(bitmap).wf(),
        r is Ok ==> {
            &&& freeable(old(bitmap)@, blocks@)
            &&& final(bitmap)@ == clear_all(old(bitmap)@, blocks@)
            &&& final(sb).free_blocks == old(sb).free_blocks + blocks@.len()
            &&& forall|k: int| #![trigger blocks@[k]] 0 <= k < blocks@.len() ==> final(dev).contents().subrange(
                (data_start + blocks@[k]) * block_size,
                (data_start + blocks@[k] + 1) * block_size,
            ) == Seq::new(block_size as nat, |i: int| 0u8)
        },
        r is Err ==> final(bitmap)@ == old(bitmap)@ || freeable(old(bitmap)@, blocks@) == false,
        r is Err ==> *final(sb) == *old(sb),
        r matches Err(e) ==> e is Device || !freeable(old(bitmap)@, blocks@),
{
    let zero_buf = vec![0u8; block_size as usize];
    let ghost zeros = Seq::new(block_size as nat, |i: int| 0u8);
    assert(zero_buf@ =~= zeros);
    let mut k: usize = 0;
    while k < blocks.len()
        invariant
            k <= blocks@.len(),
            zero_buf@ == zeros,
            zeros == Seq::new(block_size as nat, |i: int| 0u8),
            *bitmap == *old(bitmap),
            bitmap.wf(),
            forall|q: int| 0 <= q < blocks@.len() ==> (data_start + blocks@[q] + 1) * block_size <= u64::MAX,
            forall|q: int| 0 <= q < blocks@.len() ==> data_start + blocks@[q] < u64::MAX,
            forall|q: int| #![trigger blocks@[q]] 0 <= q < k ==> dev.contents().subrange(
                (data_start + blocks@[q]) * block_size,
                (data_start + blocks@[q] + 1) * block_size,
            ) == zeros,
            forall|q: int| #![trigger blocks@[q]] 0 <= q < k ==> (data_start + blocks@[q] + 1) * block_size <= dev.contents().len(),
            dev.contents().len() == old(dev).contents().len(),
        decreases blocks@.len() - k,
    {
        let bitmap_idx = blocks[k];
        proof {
            assert((data_start + bitmap_idx) * block_size <= (data_start + bitmap_idx + 1) * block_size) by (nonlinear_arith);
            assert((data_start + bitmap_idx + 1) * block_size == (data_start + bitmap_idx) * block_size + block_size) by (nonlinear_arith);
        }
        let disk_block = data_start + bitmap_idx;
        let disk_offset = disk_block * block_size as u64;
        let ghost before = dev.contents();
        match dev.write(disk_offset, zero_buf.as_slice()) {
            Ok(()) => {},
            Err(e) => {
                return Err(VolumeError::Device(e));
            },
        }
        proof {
            assert forall|q: int| #![trigger blocks@[q]] 0 <= q < k + 1 implies dev.contents().subrange(
                (data_start + blocks@[q]) * block_size,
                (data_start + blocks@[q] + 1) * block_size,
            ) == zeros by {
                let lo = (data_start + blocks@[q]) * block_size;
                let hi = (data_start + blocks@[q] + 1) * block_size;
                assert(hi == lo + block_size) by (nonlinear_arith)
                    requires hi == (data_start + blocks@[q] + 1) * block_size, lo == (data_start + blocks@[q]) * block_size;
                if q == k as int {
                    assert(dev.contents().subrange(lo, hi) =~= zeros);
                } else {
                    let w = disk_offset as int;
                    if lo + block_size <= w || w + block_size <= lo {
                        assert(dev.contents().subrange(lo, hi) =~= before.subrange(lo, hi));
                    } else {
                        assert(dev.contents().subrange(lo, hi) =~= zeros);
                    }
                }
            }
        }
        k = k + 1;
    }
    match dev.flush() {
        Ok(()) => {},
        Err(e) => {
            return Err(VolumeError::Device(e));
        },
    }
    free_blocks(bitmap, sb, blocks)
}

/// A run of physically adjacent blocks.
#[derive(Debug, Clone, PartialEq, Eq)]
pub struct AllocRun {
    /// Starting physical block of the run.
    pub start: u64,
    /// Number of blocks in the run.
    pub count: u64,
}

/// The blocks `start, start + 1, ..., start + count - 1`.
pub open spec fn run_blocks(start: u64, count: u64) -> Seq<u64> {
    Seq::new(count as nat, |i: int| (start + i) as u64)
}

/// The blocks that a list of runs covers, in order.
pub open spec fn expand_runs(runs: Seq<AllocRun>) -> Seq<u64>
    decreases runs.len(),
{
    if runs.len() == 0 {
        Seq::empty()
    } else {
        expand_runs(runs.drop_last()) + run_blocks(runs.last().start, runs.last().count)
    }
}

/// Runs are non-empty, and no run continues where its predecessor ended.
pub open spec fn runs_maximal(runs: Seq<AllocRun>) -> bool {
    &&& forall|k: int| 0 <= k < runs.len() ==> #[trigger] runs[k].count >= 1
    &&& forall|k: int| 0 <= k < runs.len() - 1 ==> #[trigger] runs[k].start + runs[k].count != runs[k + 1].start
}

/// Group a list of block addresses into runs of consecutive addresses.
pub fn merge_adjacent_runs_from_blocks(blocks: &[u64]) -> (r: Vec<AllocRun>)
    ensures
        expand_runs(r@) == blocks@,
        runs_maximal(r@),
{
    let mut runs: Vec<AllocRun> = Vec::new();
    if blocks.len() == 0 {
        assert(expand_runs(runs@) =~= blocks@);
        return runs;
    }
    let mut start = blocks[0];
    let mut count: u64 = 1;
    let mut i: usize = 1;
    assert(run_blocks(start, count) =~= blocks@.subrange(0, 1));
    assert(expand_runs(runs@) + run_blocks(start, count) =~= blocks@.subrange(0, 1));
    while i < blocks.len()
        invariant
            1 <= i <= blocks@.len(),
            1 <= count <= i,
            start + count - 1 == blocks@[i - 1],
            expand_runs(runs@) + run_blocks(start, count) == blocks@.subrange(0, i as int),
            runs_maximal(runs@),
            runs@.len() > 0 ==> runs@.last().start + runs@.last().count != start,
        decreases blocks@.len() - i,
    {
        let b = blocks[i];
        if b >= start && b - start == count {
            count = count + 1;
            proof {
                assert(run_blocks(start, count) =~= run_blocks(start, (count - 1) as u64).push(b));
                assert(blocks@.subrange(0, i + 1) =~= blocks@.subrange(0, i as int).push(b));
            }
        } else {
            let ghost old_runs = runs@;
            runs.push(AllocRun { start, count });
            proof {
                assert(runs@.drop_last() =~= old_runs);
                assert(expand_runs(runs@) == blocks@.subrange(0, i as int));
                assert(run_blocks(b, 1) =~= seq![b]);
                assert(blocks@.subrange(0, i + 1) =~= blocks@.subrange(0, i as int) + seq![b]);
                assert forall|k: int| 0 <= k < runs@.len() - 1 implies #[trigger] runs@[k].start + runs@[k].count != runs@[k + 1].start by {
                    if k < runs@.len() - 2 {
                        assert(runs@[k] == old_runs[k]);
                        assert(runs@[k + 1] == old_runs[k + 1]);
                    }
                }
            }
            start = b;
            count = 1;
        }
        i = i + 1;
    }
    let ghost old_runs = runs@;
    runs.push(AllocRun { start, count });
    proof {
        assert(runs@.drop_last() =~= old_runs);
        assert(blocks@.subrange(0, blocks@.len() as int) =~= blocks@);
        assert forall|k: int| 0 <= k < runs@.len() - 1 implies #[trigger] runs@[k].start + runs@[k].count != runs@[k + 1].start by {
            if k < runs@.len() - 2 {
                assert(runs@[k] == old_runs[k]);
                assert(runs@[k + 1] == old_runs[k + 1]);
            }
        }
    }
    runs
}

/// `v` with the bits `[s, s + n)` marked allocated.
pub open spec fn set_range(v: Seq<bool>, s: int, n: int) -> Seq<bool> {
    Seq::new(v.len(), |j: int| v[j] || (s <= j < s + n))
}

/// Blocks `v` were taken from flat bitmap `b0` (data area from `ds`),
/// giving `b1`: each was free and lies in the bitmap, they increase, and
/// exactly their bits are now set.
pub open spec fn took_flat(b0: Seq<bool>, b1: Seq<bool>, ds: u64, v: Seq<u64>) -> bool {
    &&& forall|k: int| 0 <= k < v.len() ==> ds <= #[trigger] v[k] && v[k] - ds < b0.len() && !b0[v[k] - ds]
    &&& forall|k: int, l: int| 0 <= k < l < v.len() ==> v[k] < v[l]
    &&& b1 == set_all(b0, offsets(v, ds))
}

/// Contiguous allocation on the flat bitmap: one run of `n` blocks at the
/// first place it fits, or else `n` single blocks merged into runs.
pub fn alloc_contiguous_legacy(bitmap: &mut Bitmap, sb: &mut Superblock, n: u64, data_start: u64) -> (r: Result<Vec<AllocRun>, VolumeError>)
    requires
        old(bitmap).wf(),
        0 < n <= old(sb).free_blocks,
        data_start + old(bitmap)@.len() <= u64::MAX,
    ensures
        final(bitmap).wf(),
        match r {
            Ok(runs) => {
                &&& *final(sb) == sb_minus_blocks(*old(sb), n as int)
                &&& took_flat(old(bitmap)@, final(bitmap)@, data_start, expand_runs(runs@))
                &&& runs_maximal(runs@)
                &&& expand_runs(runs@).len() == n
                &&& if exists|t: int| #[trigger] free_window(old(bitmap)@, t, n as int, 0, old(bitmap)@.len() as int) {
                    exists|s: int| {
                        &&& #[trigger] is_first_window(old(bitmap)@, s, n as int, 0, old(bitmap)@.len() as int)
                        &&& runs@ == seq![AllocRun { start: (data_start + s) as u64, count: n }]
                        &&& final(bitmap)@ == set_range(old(bitmap)@, s, n as int)
                    }
                } else {
                    exists|idx: Seq<u64>| {
                        &&& idx.len() == n
                        &&& final(bitmap)@ == #[trigger] set_all(old(bitmap)@, idx)
                        &&& forall|k: int| 0 <= k < n ==> idx[k] < old(bitmap)@.len() && !old(bitmap)@[idx[k] as int]
                            && expand_runs(runs@)[k] == data_start + idx[k]
                        &&& forall|k: int, l: int| 0 <= k < l < n ==> idx[k] < idx[l]
                    }
                }
            },
            Err(e) => {
                &&& *final(sb) == *old(sb)
                &&& final(bitmap)@ == old(bitmap)@
                &&& e == VolumeError::Invalid
                &&& count_free(old(bitmap)@, old(bitmap)@.len() as int) < n
            },
        },
{
    let ghost orig = bitmap@;
    match bitmap.find_contiguous_run(n, 0) {
        Some(start_bit) => {
            proof {
                assert(exists|t: int| #[trigger] free_window(orig, t, n as int, 0, orig.len() as int));
                bitmap.lemma_view_len();
            }
            let mut i: u64 = 0;
            while i < n
                invariant
                    bitmap.wf(),
                    i <= n,
                    is_first_window(orig, start_bit as int, n as int, 0, orig.len() as int),
                    bitmap@ == set_range(orig, start_bit as int, i as int),
                    orig.len() <= u64::MAX,
                decreases n - i,
            {
                bitmap.set_allocated(start_bit + i);
                proof {
                    assert(bitmap@ =~= set_range(orig, start_bit as int, i + 1));
                }
                i = i + 1;
            }
            sb.free_blocks = sb.free_blocks - n;
            let mut runs: Vec<AllocRun> = Vec::new();
            runs.push(AllocRun { start: data_start + start_bit, count: n });
            proof {
                assert(runs@ =~= seq![AllocRun { start: (data_start + start_bit) as u64, count: n }]);
                assert(runs@.drop_last() =~= Seq::<AllocRun>::empty());
                assert(expand_runs(runs@.drop_last()) =~= Seq::<u64>::empty());
                assert(expand_runs(runs@) =~= run_blocks((data_start + start_bit) as u64, n));
                assert(runs_maximal(runs@));
                let s0 = start_bit as int;
                assert(is_first_window(orig, s0, n as int, 0, orig.len() as int)
                    && runs@ == seq![AllocRun { start: (data_start + s0) as u64, count: n }]
                    && bitmap@ == set_range(orig, s0, n as int));
                assert(exists|s: int| {
                        &&& #[trigger] is_first_window(orig, s, n as int, 0, orig.len() as int)
                        &&& runs@ == seq![AllocRun { start: (data_start + s) as u64, count: n }]
                        &&& bitmap@ == set_range(orig, s, n as int)
                    });
                assert(expand_runs(runs@).len() == n);
                lemma_took_run(orig, bitmap@, data_start, s0, n);
            }
            Ok(runs)
        },
        None => {
            proof {
                assert(((0u64 / 8) * 8) as int == 0);
                assert forall|t: int| !#[trigger] free_window(orig, t, n as int, 0, orig.len() as int) by {
                    if free_window(orig, t, n as int, 0, orig.len() as int) {
                        assert(free_window(orig, t, n as int, ((0u64 / 8) * 8) as int, orig.len() as int));
                    }
                }
            }
            let indices = match alloc_blocks(bitmap, sb, n) {
                Ok(v) => v,
                Err(e) => {
                    return Err(e);
                },
            };
            let mut blocks: Vec<u64> = Vec::new();
            let mut k: usize = 0;
            while k < indices.len()
                invariant
                    k <= indices@.len(),
                    blocks@.len() == k,
                    forall|q: int| 0 <= q < indices@.len() ==> indices@[q] < orig.len(),
                    data_start + orig.len() <= u64::MAX,
                    forall|q: int| 0 <= q < k ==> blocks@[q] == data_start + indices@[q],
                decreases indices@.len() - k,
            {
                blocks.push(data_start + indices[k]);
                k = k + 1;
            }
            let runs = merge_adjacent_runs_from_blocks(blocks.as_slice());
            proof {
                assert(expand_runs(runs@) == blocks@);
                let idx = indices@;
                assert(idx.len() == n);
                assert(bitmap@ == set_all(orig, idx));
                assert(forall|k: int| 0 <= k < n ==> idx[k] < orig.len() && !orig[idx[k] as int]
                    && expand_runs(runs@)[k] == data_start + idx[k]);
                assert(!exists|t: int| #[trigger] free_window(orig, t, n as int, 0, orig.len() as int));
                assert(exists|idx: Seq<u64>| {
                        &&& idx.len() == n
                        &&& bitmap@ == #[trigger] set_all(orig, idx)
                        &&& forall|k: int| 0 <= k < n ==> idx[k] < orig.len() && !orig[idx[k] as int]
                            && expand_runs(runs@)[k] == data_start + idx[k]
                        &&& forall|k: int, l: int| 0 <= k < l < n ==> idx[k] < idx[l]
                    });
                assert(expand_runs(runs@).len() == n);
                let v = expand_runs(runs@);
                assert(offsets(v, data_start) =~= idx);
                assert forall|k: int| 0 <= k < v.len() implies data_start <= #[trigger] v[k] && v[k] - data_start < orig.len() && !orig[v[k] - data_start] by {
                    assert(v[k] == data_start + idx[k]);
                }
                assert forall|k: int, l: int| 0 <= k < l < v.len() implies v[k] < v[l] by {
                    assert(v[k] == data_start + idx[k] && v[l] == data_start + idx[l]);
                }
            }
            Ok(runs)
        },
    }
}

proof fn lemma_count_all_allocated(v: Seq<bool>, n: int)
    requires
        0 <= n <= v.len(),
        forall|j: int| 0 <= j < v.len() ==> v[j],
    ensures
        count_free(v, n) == 0,
    decreases n,
{
    if n > 0 {
        lemma_count_all_allocated(v, n - 1);
    }
}

/// Marking distinct free positions allocated lowers the free count by their number.
proof fn lemma_count_free_set_all(v: Seq<bool>, idxs: Seq<u64>, n: int)
    requires
        0 <= n <= v.len(),
        forall|q: int| 0 <= q < idxs.len() ==> idxs[q] < v.len() && !v[idxs[q] as int],
        forall|q: int, l: int| 0 <= q < l < idxs.len() ==> idxs[q] < idxs[l],
    ensures
        count_free(set_all(v, idxs), n) + count_below(idxs, n) == count_free(v, n),
    decreases n,
{
    if n > 0 {
        lemma_count_free_set_all(v, idxs, n - 1);
        lemma_count_below_step(idxs, n);
        if listed(idxs, n - 1) {
            let q = choose|q: int| 0 <= q < idxs.len() && #[trigger] idxs[q] as int == n - 1;
            assert(!v[n - 1]);
        }
    }
}

/// Number of listed positions below `n`.
pub open spec fn count_below(idxs: Seq<u64>, n: int) -> nat
    decreases n,
{
    if n <= 0 {
        0
    } else {
        count_below(idxs, n - 1) + if listed(idxs, n - 1) {
            1nat
        } else {
            0nat
        }
    }
}

proof fn lemma_count_below_push(idxs: Seq<u64>, x: u64, m: int)
    ensures
        count_below(idxs.push(x), m) == count_below(idxs, m) + if x < m && !listed(idxs, x as int) {
            1int
        } else {
            0int
        },
    decreases m,
{
    if m > 0 {
        lemma_count_below_push(idxs, x, m - 1);
        assert(listed(idxs.push(x), m - 1) == (listed(idxs, m - 1) || x as int == m - 1)) by {
            if listed(idxs, m - 1) {
                let k = choose|k: int| 0 <= k < idxs.len() && #[trigger] idxs[k] as int == m - 1;
                assert(idxs.push(x)[k] as int == m - 1);
            }
            if listed(idxs.push(x), m - 1) {
                let k = choose|k: int| 0 <= k < idxs.len() + 1 && #[trigger] idxs.push(x)[k] as int == m - 1;
                if k < idxs.len() {
                    assert(idxs[k] as int == m - 1);
                }
            }
            if x as int == m - 1 {
                assert(idxs.push(x)[idxs.len() as int] as int == m - 1);
            }
        }
    }
}

/// At most as many positions are listed below `m` as there are entries.
proof fn lemma_count_below_len(idxs: Seq<u64>, m: int)
    ensures
        count_below(idxs, m) <= idxs.len(),
    decreases idxs.len(),
{
    if idxs.len() == 0 {
        lemma_count_below_empty(idxs, m);
    } else {
        let p = idxs.drop_last();
        lemma_count_below_len(p, m);
        lemma_count_below_push(p, idxs.last(), m);
        assert(p.push(idxs.last()) =~= idxs);
    }
}

proof fn lemma_count_below_empty(idxs: Seq<u64>, m: int)
    requires
        idxs.len() == 0,
    ensures
        count_below(idxs, m) == 0,
    decreases m,
{
    if m > 0 {
        lemma_count_below_empty(idxs, m - 1);
    }
}

proof fn lemma_count_below_step(idxs: Seq<u64>, n: int)
    requires
        n > 0,
    ensures
        count_below(idxs, n) == count_below(idxs, n - 1) + if listed(idxs, n - 1) {
            1nat
        } else {
            0nat
        },
{
}


// ---------------------------------------------------------------------------
// The allocator used by file and directory code
// ---------------------------------------------------------------------------

/// Block allocation over either the flat bitmap of a legacy volume (a block
/// number is `data_start` plus its bit) or the per-group bitmaps of a
/// grouped volume. Block numbers handed in and out are physical.
pub enum BlockAlloc {
    Legacy { bitmap: Bitmap, data_start: u64 },
    Group { gbm: GroupBitmapManager, gdt: Vec<GroupDescriptor> },
}

/// Bit positions of physical blocks on a flat bitmap starting at `ds`.
pub open spec fn offsets(v: Seq<u64>, ds: u64) -> Seq<u64> {
    v.map_values(|b: u64| (b - ds) as u64)
}

/// Every descriptor's free count can grow by `extra`.
pub open spec fn counters_fit(gdt: Seq<GroupDescriptor>, extra: int) -> bool {
    forall|g: int| 0 <= g < gdt.len() ==> (#[trigger] gdt[g]).bg_free_blocks + extra <= u32::MAX
}

fn check_counters(gdt: &Vec<GroupDescriptor>, extra: u64) -> (r: bool)
    ensures
        r == counters_fit(gdt@, extra as int),
{
    let mut g: usize = 0;
    while g < gdt.len()
        invariant
            g <= gdt@.len(),
            forall|q: int| 0 <= q < g ==> (#[trigger] gdt@[q]).bg_free_blocks + extra <= u32::MAX,
        decreases gdt@.len() - g,
    {
        if extra > u32::MAX as u64 - gdt[g].bg_free_blocks as u64 {
            return false;
        }
        g = g + 1;
    }
    true
}

/// Device contents with each listed block overwritten by zeros, in order.
pub open spec fn zeroed(c: Seq<u8>, blocks: Seq<u64>, bs: int) -> Seq<u8>
    decreases blocks.len(),
{
    if blocks.len() == 0 {
        c
    } else {
        written(zeroed(c, blocks.drop_last(), bs), blocks.last() * bs, zeros(bs as nat))
    }
}

/// Overwrite each listed physical block with zeros.
fn zero_physical_blocks<D: CFSBlockDevice>(dev: &mut D, blocks: &[u64], block_size: u32) -> (r: Result<(), VolumeError>)
    requires
        forall|k: int| 0 <= k < blocks@.len() ==> (blocks@[k] + 1) * block_size <= u64::MAX,
    ensures
        r matches Err(e) ==> e is Device,
        r is Ok ==> final(dev).contents() == zeroed(old(dev).contents(), blocks@, block_size as int),
{
    let zero_buf = vec![0u8; block_size as usize];
    assert(zero_buf@ =~= zeros(block_size as nat));
    let ghost c0 = dev.contents();
    let mut k: usize = 0;
    assert(blocks@.take(0) =~= Seq::<u64>::empty());
    while k < blocks.len()
        invariant
            k <= blocks@.len(),
            zero_buf@ == zeros(block_size as nat),
            forall|q: int| 0 <= q < blocks@.len() ==> (blocks@[q] + 1) * block_size <= u64::MAX,
            dev.contents() == zeroed(c0, blocks@.take(k as int), block_size as int),
        decreases blocks@.len() - k,
    {
        let b = blocks[k];
        proof {
            assert(b * block_size <= (b + 1) * block_size) by (nonlinear_arith);
        }
        match dev.write(b * block_size as u64, zero_buf.as_slice()) {
            Ok(()) => {},
            Err(e) => return Err(VolumeError::Device(e)),
        }
        proof {
            let t = blocks@.take(k + 1);
            assert(t.drop_last() =~= blocks@.take(k as int));
            assert(t.last() == b);
        }
        k = k + 1;
    }
    assert(blocks@.take(blocks@.len() as int) =~= blocks@);
    Ok(())
}

/// Sort block numbers ascending.
fn sort_blocks(v: Vec<u64>) -> (r: Vec<u64>)
    ensures
        forall|i: int, j: int| 0 <= i <= j < r@.len() ==> r@[i] <= r@[j],
        r@.to_multiset() == v@.to_multiset(),
        r@.len() == v@.len(),
{
    let mut out: Vec<u64> = Vec::new();
    let mut i: usize = 0;
    assert(out@ =~= v@.take(0));
    while i < v.len()
        invariant
            i <= v@.len(),
            forall|a: int, b: int| 0 <= a <= b < out@.len() ==> out@[a] <= out@[b],
            out@.to_multiset() == v@.take(i as int).to_multiset(),
            out@.len() == i,
        decreases v@.len() - i,
    {
        let x = v[i];
        let mut pos: usize = 0;
        while pos < out.len() && out[pos] <= x
            invariant
                pos <= out@.len(),
                forall|j: int| 0 <= j < pos ==> out@[j] <= x,
            decreases out@.len() - pos,
        {
            pos = pos + 1;
        }
        let ghost o0 = out@;
        out.insert(pos, x);
        proof {
            assert forall|a: int, b: int| 0 <= a <= b < out@.len() implies out@[a] <= out@[b] by {
                if pos < o0.len() {
                    assert(o0[pos as int] > x);
                }
                if a < pos && b > pos {
                    assert(o0[a] <= x);
                    assert(o0[pos as int] <= o0[b - 1]);
                }
            }
            assert(v@.take(i + 1) =~= v@.take(i as int).push(x));
            vstd::seq_lib::to_multiset_insert(o0, pos as int, x);
            vstd::seq_lib::to_multiset_build(v@.take(i as int), x);
        }
        i = i + 1;
    }
    assert(v@.take(v@.len() as int) =~= v@);
    out
}

/// Merge runs into maximal runs of consecutive blocks, in block order.
fn merge_adjacent_runs(blocks: Vec<u64>) -> (r: Vec<AllocRun>)
    ensures
        expand_runs(r@).len() == blocks@.len(),
        runs_maximal(r@),
{
    let sorted = sort_blocks(blocks);
    merge_adjacent_runs_from_blocks(sorted.as_slice())
}

/// Append the blocks of `run`.
fn push_run(blocks: &mut Vec<u64>, run: &AllocRun)
    requires
        run.start + run.count <= u64::MAX,
    ensures
        final(blocks)@ == old(blocks)@ + run_blocks(run.start, run.count),
{
    let ghost b0 = blocks@;
    let mut i: u64 = 0;
    while i < run.count
        invariant
            i <= run.count,
            run.start + run.count <= u64::MAX,
            blocks@ == b0 + run_blocks(run.start, i),
        decreases run.count - i,
    {
        blocks.push(run.start + i);
        i = i + 1;
        assert(blocks@ =~= b0 + run_blocks(run.start, i));
    }
}

/// Groups other than `hint`, most free blocks first (equal counts keep
/// group order).
fn groups_by_free_desc(gdt: &Vec<GroupDescriptor>, group_count: u32, hint: u32) -> (r: Vec<u32>)
    requires
        group_count <= gdt@.len(),
    ensures
        forall|i: int| 0 <= i < r@.len() ==> #[trigger] r@[i] < group_count && r@[i] != hint,
        forall|i: int, j: int| 0 <= i <= j < r@.len() ==> gdt@[r@[i] as int].bg_free_blocks >= gdt@[r@[j] as int].bg_free_blocks,
        r@.no_duplicates(),
        forall|x: u32| x < group_count && x != hint ==> #[trigger] r@.contains(x),
        forall|i: int, j: int|
            0 <= i < j < r@.len() && gdt@[r@[i] as int].bg_free_blocks == gdt@[r@[j] as int].bg_free_blocks ==> r@[i] < r@[j],
{
    let mut out: Vec<u32> = Vec::new();
    let mut g: u32 = 0;
    while g < group_count
        invariant
            g <= group_count,
            group_count <= gdt@.len(),
            forall|i: int| 0 <= i < out@.len() ==> #[trigger] out@[i] < group_count && out@[i] != hint,
            forall|i: int, j: int| 0 <= i <= j < out@.len() ==> gdt@[out@[i] as int].bg_free_blocks >= gdt@[out@[j] as int].bg_free_blocks,
            forall|i: int| 0 <= i < out@.len() ==> #[trigger] out@[i] < g,
            out@.no_duplicates(),
            forall|x: u32| x < g && x != hint ==> #[trigger] out@.contains(x),
            forall|i: int, j: int|
                0 <= i < j < out@.len() && gdt@[out@[i] as int].bg_free_blocks == gdt@[out@[j] as int].bg_free_blocks ==> out@[i] < out@[j],
        decreases group_count - g,
    {
        if g != hint {
            let f = gdt[g as usize].bg_free_blocks;
            let mut pos: usize = 0;
            while pos < out.len() && gdt[out[pos] as usize].bg_free_blocks >= f
                invariant
                    pos <= out@.len(),
                    group_count <= gdt@.len(),
                    f == gdt@[g as int].bg_free_blocks,
                    forall|i: int| 0 <= i < out@.len() ==> #[trigger] out@[i] < group_count,
                    forall|i: int| 0 <= i < out@.len() ==> #[trigger] out@[i] < g,
                    forall|j: int| 0 <= j < pos ==> gdt@[out@[j] as int].bg_free_blocks >= f,
                decreases out@.len() - pos,
            {
                pos = pos + 1;
            }
            let ghost o0 = out@;
            out.insert(pos, g);
            proof {
                assert forall|a: int, b: int| 0 <= a <= b < out@.len() implies gdt@[out@[a] as int].bg_free_blocks >= gdt@[out@[b] as int].bg_free_blocks by {
                    if pos < o0.len() {
                        assert(gdt@[o0[pos as int] as int].bg_free_blocks < f);
                    }
                    if a < pos && b > pos {
                        assert(gdt@[o0[pos as int] as int].bg_free_blocks >= gdt@[o0[b - 1] as int].bg_free_blocks);
                    }
                }
                assert forall|i: int| 0 <= i < out@.len() implies #[trigger] out@[i] < group_count && out@[i] != hint && out@[i] < g + 1 by {
                    if i < pos {
                        assert(out@[i] == o0[i]);
                    } else if i > pos {
                        assert(out@[i] == o0[i - 1]);
                    }
                }
                assert forall|a: int, b: int| 0 <= a < b < out@.len() implies out@[a] != out@[b] by {
                    if a != pos && b != pos {
                        let a0 = if a < pos { a } else { a - 1 };
                        let b0 = if b < pos { b } else { b - 1 };
                        assert(out@[a] == o0[a0] && out@[b] == o0[b0]);
                    } else if a == pos {
                        let b0 = b - 1;
                        assert(out@[b] == o0[b0]);
                    } else {
                        assert(out@[a] == o0[a]);
                    }
                }
                assert forall|x: u32| x < g + 1 && x != hint implies #[trigger] out@.contains(x) by {
                    if x == g {
                        assert(out@[pos as int] == g);
                    } else {
                        assert(o0.contains(x));
                        let k = choose|k: int| 0 <= k < o0.len() && o0[k] == x;
                        let k2 = if k < pos { k } else { k + 1 };
                        assert(out@[k2] == x);
                    }
                }
                assert forall|a: int, b: int|
                    0 <= a < b < out@.len() && gdt@[out@[a] as int].bg_free_blocks == gdt@[out@[b] as int].bg_free_blocks implies out@[a] < out@[b] by {
                    if a != pos && b != pos {
                        let a0 = if a < pos { a } else { a - 1 };
                        let b0 = if b < pos { b } else { b - 1 };
                        assert(out@[a] == o0[a0] && out@[b] == o0[b0]);
                    } else if a == pos {
                        assert(out@[b] == o0[b - 1]);
                        assert(gdt@[o0[pos as int] as int].bg_free_blocks < f);
                        assert(gdt@[o0[pos as int] as int].bg_free_blocks >= gdt@[o0[b - 1] as int].bg_free_blocks);
                    } else {
                        assert(out@[a] == o0[a]);
                    }
                }
            }
        } else {
            proof {
                assert forall|i: int| 0 <= i < out@.len() implies #[trigger] out@[i] < g + 1 by {}
            }
        }
        g = g + 1;
    }
    out
}

/// Contiguous allocation on group bitmaps: one run in group `hint_group`,
/// else one run in the first group (most free blocks first) that has one,
/// else the largest runs each group yields (halving the tried length), the
/// rest as single blocks (see `alloc_blocks_group`); merged into maximal
/// runs. `NoSpace` when a descriptor's free count could not take the
/// single blocks back.
fn alloc_contiguous_group<D: CFSBlockDevice>(
    gbm: &mut GroupBitmapManager,
    dev: &mut D,
    sb: &mut Superblock,
    gdt: &mut Vec<GroupDescriptor>,
    n: u64,
    hint_group: u32,
) -> (r: Result<Vec<AllocRun>, VolumeError>)
    requires
        old(gbm).wf(),
        old(gbm).bounded(),
        old(gbm).blocks_per_group > 0,
        old(gbm).fits_descriptors(old(gdt)@),
        old(gdt)@.len() == old(gbm).group_count,
        0 < n <= old(sb).free_blocks,
    ensures
        final(gbm).wf(),
        final(gbm).bounded(),
        final(gbm).same_params(old(gbm)),
        final(gbm).fits_descriptors(final(gdt)@),
        final(gdt)@.len() == old(gdt)@.len(),
        match r {
            Ok(runs) => {
                &&& expand_runs(runs@).len() == n
                &&& runs_maximal(runs@)
                &&& *final(sb) == sb_minus_blocks(*old(sb), n as int)
            },
            Err(_) => *final(sb) == *old(sb),
        },
{
    let group_count = gbm.group_count;
    match try_contiguous_in_group(gbm, dev, gdt, hint_group, n)? {
        Some(run) => {
            sb.free_blocks = sb.free_blocks - n;
            let runs = vec![run];
            proof {
                assert(runs@.drop_last() =~= Seq::<AllocRun>::empty());
                assert(expand_runs(runs@.drop_last()) =~= Seq::<u64>::empty());
                assert(expand_runs(runs@) =~= run_blocks(run.start, n));
            }
            return Ok(runs);
        },
        None => {},
    }
    let others = groups_by_free_desc(gdt, group_count, hint_group);
    let mut k: usize = 0;
    while k < others.len()
        invariant
            gbm.wf(),
            gbm.bounded(),
            gbm.blocks_per_group > 0,
            gbm.same_params(old(gbm)),
            gbm.fits_descriptors(gdt@),
            gdt@.len() == gbm.group_count,
            gdt@.len() == old(gdt)@.len(),
            group_count == gbm.group_count,
            *sb == *old(sb),
            0 < n <= sb.free_blocks,
            forall|i: int| 0 <= i < others@.len() ==> #[trigger] others@[i] < group_count,
        decreases others@.len() - k,
    {
        let g = others[k];
        if (gdt[g as usize].bg_free_blocks as u64) < n {
            break;
        }
        match try_contiguous_in_group(gbm, dev, gdt, g, n)? {
            Some(run) => {
                sb.free_blocks = sb.free_blocks - n;
                let runs = vec![run];
                proof {
                    assert(runs@.drop_last() =~= Seq::<AllocRun>::empty());
                    assert(expand_runs(runs@.drop_last()) =~= Seq::<u64>::empty());
                    assert(expand_runs(runs@) =~= run_blocks(run.start, n));
                }
                return Ok(runs);
            },
            None => {},
        }
        k = k + 1;
    }
    let mut remaining = n;
    let mut blocks: Vec<u64> = Vec::new();
    let mut all_groups: Vec<u32> = Vec::new();
    all_groups.push(hint_group);
    let mut k: usize = 0;
    while k < others.len()
        invariant
            k <= others@.len(),
            all_groups@.len() == k + 1,
        decreases others@.len() - k,
    {
        all_groups.push(others[k]);
        k = k + 1;
    }
    let mut k: usize = 0;
    while k < all_groups.len()
        invariant
            gbm.wf(),
            gbm.bounded(),
            gbm.blocks_per_group > 0,
            gbm.same_params(old(gbm)),
            gbm.fits_descriptors(gdt@),
            gdt@.len() == gbm.group_count,
            gdt@.len() == old(gdt)@.len(),
            *sb == *old(sb),
            0 < n <= sb.free_blocks,
            remaining <= n,
            blocks@.len() == n - remaining,
        decreases all_groups@.len() - k,
    {
        if remaining == 0 {
            break;
        }
        let g = all_groups[k];
        if (g as usize) < gdt.len() {
            let free = gdt[g as usize].bg_free_blocks as u64;
            let max_in_group = if remaining < free {
                remaining
            } else {
                free
            };
            let mut try_len = max_in_group;
            while try_len > 0 && remaining > 0
                invariant_except_break
                    try_len <= remaining,
                invariant
                    gbm.wf(),
                    gbm.bounded(),
                    gbm.blocks_per_group > 0,
                    gbm.same_params(old(gbm)),
                    gbm.fits_descriptors(gdt@),
                    gdt@.len() == gbm.group_count,
                    gdt@.len() == old(gdt)@.len(),
                    *sb == *old(sb),
                    0 < n <= sb.free_blocks,
                    remaining <= n,
                    blocks@.len() == n - remaining,
                ensures
                    gbm.wf(),
                    gbm.bounded(),
                    gbm.same_params(old(gbm)),
                    gbm.fits_descriptors(gdt@),
                    gdt@.len() == gbm.group_count,
                    gdt@.len() == old(gdt)@.len(),
                    remaining <= n,
                    blocks@.len() == n - remaining,
                decreases try_len,
            {
                match try_contiguous_in_group(gbm, dev, gdt, g, try_len)? {
                    Some(run) => {
                        remaining = remaining - run.count;
                        push_run(&mut blocks, &run);
                        break;
                    },
                    None => {},
                }
                try_len = try_len / 2;
            }
        }
        k = k + 1;
    }
    if remaining > 0 {
        if remaining > usize::MAX as u64 || !check_counters(gdt, remaining) {
            return Err(VolumeError::NoSpace);
        }
        let scattered = alloc_blocks_group(gbm, dev, remaining as usize, gdt, sb)?;
        let mut q: usize = 0;
        while q < scattered.len()
            invariant
                q <= scattered@.len(),
                blocks@.len() == n - remaining + q,
            decreases scattered@.len() - q,
        {
            blocks.push(scattered[q]);
            q = q + 1;
        }
        sb.free_blocks = sb.free_blocks - (n - remaining);
    } else {
        sb.free_blocks = sb.free_blocks - n;
    }
    Ok(merge_adjacent_runs(blocks))
}

/// A run allocated on the flat bitmap is what `took` describes.
proof fn lemma_took_run(b0: Seq<bool>, b1: Seq<bool>, ds: u64, s: int, n: u64)
    requires
        free_window(b0, s, n as int, 0, b0.len() as int),
        b1 == set_range(b0, s, n as int),
        ds + b0.len() <= u64::MAX,
    ensures
        ({
            let v = run_blocks((ds + s) as u64, n);
            &&& forall|k: int| 0 <= k < v.len() ==> ds <= #[trigger] v[k] && v[k] - ds < b0.len() && !b0[v[k] - ds]
            &&& forall|k: int, l: int| 0 <= k < l < v.len() ==> v[k] < v[l]
            &&& b1 == set_all(b0, offsets(v, ds))
        }),
{
    let v = run_blocks((ds + s) as u64, n);
    let o = offsets(v, ds);
    assert forall|k: int| 0 <= k < v.len() implies ds <= #[trigger] v[k] && v[k] - ds < b0.len() && !b0[v[k] - ds] by {
        assert(v[k] == ds + s + k);
    }
    assert forall|j: int| 0 <= j < b0.len() implies #[trigger] set_all(b0, o)[j] == b1[j] by {
        if s <= j < s + n {
            assert(o[j - s] as int == j);
            assert(listed(o, j));
        }
        if listed(o, j) {
            let k = choose|k: int| 0 <= k < o.len() && #[trigger] o[k] as int == j;
            assert(o[k] == s + k);
        }
    }
    assert(set_all(b0, o) =~= b1);
}

impl BlockAlloc {
    pub open spec fn wf(&self) -> bool {
        match self {
            BlockAlloc::Legacy { bitmap, data_start } => bitmap.wf() && *data_start + bitmap@.len() <= u64::MAX,
            BlockAlloc::Group { gbm, gdt } => {
                &&& gbm.wf()
                &&& gbm.bounded()
                &&& gbm.blocks_per_group > 0
                &&& gbm.fits_descriptors(gdt@)
                &&& gdt@.len() == gbm.group_count
            },
        }
    }

    /// Same kind of allocator over the same layout.
    pub open spec fn same_kind(&self, other: &Self) -> bool {
        match (self, other) {
            (BlockAlloc::Legacy { bitmap: b1, data_start: d1 }, BlockAlloc::Legacy { bitmap: b2, data_start: d2 }) => d1 == d2
                && b1@.len() == b2@.len(),
            (BlockAlloc::Group { gbm: g1, .. }, BlockAlloc::Group { gbm: g2, .. }) => g1.same_params(g2),
            _ => false,
        }
    }

    /// What a successful allocation of `v` did: on the flat bitmap each block
    /// was free, lies in the bitmap, and is now marked; on group bitmaps each
    /// block is now held, once.
    pub open spec fn took(&self, before: &Self, v: Seq<u64>) -> bool {
        match (self, before) {
            (BlockAlloc::Legacy { bitmap: b1, data_start }, BlockAlloc::Legacy { bitmap: b0, .. }) => took_flat(b0@, b1@, *data_start, v),
            (BlockAlloc::Group { gbm, .. }, BlockAlloc::Group { .. }) => all_held(gbm, v),
            _ => false,
        }
    }

    /// What a successful free of `v` did: on the flat bitmap each block was
    /// marked, once, and is now clear; on group bitmaps each block is clear.
    pub open spec fn gave_back(&self, before: &Self, v: Seq<u64>) -> bool {
        match (self, before) {
            (BlockAlloc::Legacy { bitmap: b1, data_start }, BlockAlloc::Legacy { bitmap: b0, .. }) => {
                &&& freeable(b0@, offsets(v, *data_start))
                &&& b1@ == clear_all(b0@, offsets(v, *data_start))
            },
            (BlockAlloc::Group { gbm, .. }, BlockAlloc::Group { .. }) => forall|i: int| 0 <= i < v.len() ==> released(gbm, #[trigger] v[i]),
            _ => false,
        }
    }

    /// Bitmap positions of physical blocks on the flat bitmap: every block
    /// lies at or after the data area.
    pub open spec fn blocks_in_area(&self, v: Seq<u64>) -> bool {
        match self {
            BlockAlloc::Legacy { data_start, .. } => forall|k: int| 0 <= k < v.len() ==> *data_start <= #[trigger] v[k],
            BlockAlloc::Group { .. } => true,
        }
    }

    /// Whether every listed block lies in the allocator's data area (and the
    /// superblock's free count can take them back).
    pub fn can_take_back(&self, sb: &Superblock, blocks: &[u64]) -> (r: bool)
        ensures
            r == (self.blocks_in_area(blocks@) && sb.free_blocks + blocks@.len() <= u64::MAX),
    {
        if blocks.len() as u64 > u64::MAX - sb.free_blocks {
            return false;
        }
        let ds = match self {
            BlockAlloc::Legacy { data_start, .. } => *data_start,
            BlockAlloc::Group { .. } => return true,
        };
        match self {
            BlockAlloc::Legacy { .. } => {
                let mut k: usize = 0;
                while k < blocks.len()
                    invariant
                        k <= blocks@.len(),
                        (*self matches BlockAlloc::Legacy { data_start: d, .. } && d == ds),
                        forall|q: int| 0 <= q < k ==> ds <= #[trigger] blocks@[q],
                    decreases blocks@.len() - k,
                {
                    if blocks[k] < ds {
                        assert(!self.blocks_in_area(blocks@)) by {
                            assert(blocks@[k as int] < ds);
                        }
                        return false;
                    }
                    k = k + 1;
                }
                true
            },
            BlockAlloc::Group { .. } => true,
        }
    }

    fn alloc_legacy(bitmap: &mut Bitmap, data_start: u64, sb: &mut Superblock, n: u64) -> (r: Result<Vec<u64>, VolumeError>)
        requires
            old(bitmap).wf(),
            data_start + old(bitmap)@.len() <= u64::MAX,
        ensures
            final(bitmap).wf(),
            final(bitmap)@.len() == old(bitmap)@.len(),
            n > old(sb).free_blocks ==> r is Err,
            match r {
                Ok(v) => {
                    &&& v@.len() == n
                    &&& *final(sb) == sb_minus_blocks(*old(sb), n as int)
                    &&& forall|k: int| 0 <= k < v@.len() ==> data_start <= #[trigger] v@[k] && v@[k] - data_start < old(bitmap)@.len()
                        && !old(bitmap)@[v@[k] - data_start]
                    &&& forall|k: int, l: int| 0 <= k < l < v@.len() ==> v@[k] < v@[l]
                    &&& final(bitmap)@ == set_all(old(bitmap)@, offsets(v@, data_start))
                },
                Err(e) => *final(sb) == *old(sb) && final(bitmap)@ == old(bitmap)@ && flat_alloc_fails(
                    old(bitmap)@,
                    old(sb).free_blocks,
                    n,
                    e,
                ),
            },
    {
        let idx = alloc_blocks(bitmap, sb, n)?;
        let mut out: Vec<u64> = Vec::new();
        let mut k: usize = 0;
        while k < idx.len()
            invariant
                k <= idx@.len(),
                out@.len() == k,
                forall|q: int| 0 <= q < idx@.len() ==> idx@[q] < old(bitmap)@.len(),
                data_start + old(bitmap)@.len() <= u64::MAX,
                forall|q: int| 0 <= q < k ==> #[trigger] out@[q] == data_start + idx@[q],
            decreases idx@.len() - k,
        {
            out.push(data_start + idx[k]);
            k = k + 1;
        }
        assert(offsets(out@, data_start) =~= idx@);
        Ok(out)
    }

    /// Allocate `n` data blocks; returns their physical numbers. On the
    /// flat bitmap these are the lowest free bits, in order (see
    /// `alloc_blocks`); on group bitmaps they are taken near the group with
    /// the most free blocks (see `alloc_blocks_group`). `NoSpace` when the
    /// superblock counts fewer than `n` free blocks, or (group bitmaps) when a
    /// group's free count could not take back `n` blocks.
    pub fn allocate<D: CFSBlockDevice>(&mut self, dev: &mut D, sb: &mut Superblock, n: u64) -> (r: Result<Vec<u64>, VolumeError>)
        requires
            old(self).wf(),
        ensures
            final(self).wf(),
            final(self).same_kind(old(self)),
            n > old(sb).free_blocks ==> r is Err,
            *old(self) is Legacy ==> (r matches Err(e) ==> flat_alloc_fails(
                old(self)->bitmap@,
                old(sb).free_blocks,
                n,
                e,
            )),
            match r {
                Ok(v) => {
                    &&& v@.len() == n
                    &&& *final(sb) == sb_minus_blocks(*old(sb), n as int)
                    &&& final(self).took(old(self), v@)
                },
                Err(_) => *final(sb) == *old(sb),
            },
    {
        match self {
            BlockAlloc::Legacy { bitmap, data_start } => {
                let ds = *data_start;
                Self::alloc_legacy(bitmap, ds, sb, n)
            },
            BlockAlloc::Group { gbm, gdt } => {
                if n > sb.free_blocks || n > usize::MAX as u64 || !check_counters(gdt, n) {
                    return Err(VolumeError::NoSpace);
                }
                alloc_blocks_group(gbm, dev, n as usize, gdt, sb)
            },
        }
    }

    /// Allocate `n` data blocks near physical block `hint` (group bitmaps:
    /// see `alloc_blocks_near`; the flat bitmap ignores the hint).
    pub fn alloc_near<D: CFSBlockDevice>(&mut self, dev: &mut D, sb: &mut Superblock, n: u64, hint: u64) -> (r: Result<Vec<u64>, VolumeError>)
        requires
            old(self).wf(),
        ensures
            final(self).wf(),
            final(self).same_kind(old(self)),
            n > old(sb).free_blocks ==> r is Err,
            *old(self) is Legacy ==> (r matches Err(e) ==> flat_alloc_fails(
                old(self)->bitmap@,
                old(sb).free_blocks,
                n,
                e,
            )),
            match r {
                Ok(v) => {
                    &&& v@.len() == n
                    &&& *final(sb) == sb_minus_blocks(*old(sb), n as int)
                    &&& final(self).took(old(self), v@)
                },
                Err(_) => *final(sb) == *old(sb),
            },
    {
        match self {
            BlockAlloc::Legacy { bitmap, data_start } => {
                let ds = *data_start;
                Self::alloc_legacy(bitmap, ds, sb, n)
            },
            BlockAlloc::Group { gbm, gdt } => {
                if n > sb.free_blocks || n > usize::MAX as u64 || !check_counters(gdt, n) {
                    return Err(VolumeError::NoSpace);
                }
                alloc_blocks_near(gbm, dev, hint, n as usize, gdt, sb)
            },
        }
    }

    /// Free blocks given by physical number. The flat bitmap stops at the
    /// first block that is out of range or already free (see `free_blocks`);
    /// group bitmaps stop at the first failure (see `free_blocks_group`).
    /// `Invalid` (group bitmaps) when a group's free count could not take
    /// back every block.
    pub fn free<D: CFSBlockDevice>(&mut self, dev: &mut D, sb: &mut Superblock, blocks: &[u64]) -> (r: Result<(), VolumeError>)
        requires
            old(self).wf(),
            old(self).blocks_in_area(blocks@),
            old(sb).free_blocks + blocks@.len() <= u64::MAX,
        ensures
            final(self).wf(),
            final(self).same_kind(old(self)),
            r is Ok ==> {
                &&& *final(sb) == (Superblock { free_blocks: (old(sb).free_blocks + blocks@.len()) as u64, ..*old(sb) })
                &&& final(self).gave_back(old(self), blocks@)
            },
            r is Err ==> *final(sb) == *old(sb),
            *old(self) is Legacy ==> final(dev).contents() == old(dev).contents(),
            *old(self) is Legacy ==> (r is Ok <==> freeable(old(self)->bitmap@, offsets(blocks@, old(self)->data_start))),
    {
        match self {
            BlockAlloc::Legacy { bitmap, data_start } => {
                let ds = *data_start;
                let mut idx: Vec<u64> = Vec::new();
                let mut k: usize = 0;
                while k < blocks.len()
                    invariant
                        k <= blocks@.len(),
                        idx@.len() == k,
                        forall|q: int| 0 <= q < blocks@.len() ==> ds <= #[trigger] blocks@[q],
                        forall|q: int| 0 <= q < k ==> #[trigger] idx@[q] == blocks@[q] - ds,
                    decreases blocks@.len() - k,
                {
                    idx.push(blocks[k] - ds);
                    k = k + 1;
                }
                assert(idx@ =~= offsets(blocks@, ds));
                free_blocks(bitmap, sb, idx.as_slice())
            },
            BlockAlloc::Group { gbm, gdt } => {
                if !check_counters(gdt, blocks.len() as u64) {
                    return Err(VolumeError::Invalid);
                }
                free_blocks_group(gbm, dev, blocks, gdt, sb)
            },
        }
    }

    /// Allocate `n` blocks, preferring one contiguous run (see
    /// `alloc_contiguous_legacy` and `alloc_contiguous_group`); the runs
    /// returned are maximal. Nothing for `n` 0; `NoSpace` when the
    /// superblock counts fewer than `n` free blocks.
    pub fn alloc_contiguous<D: CFSBlockDevice>(&mut self, dev: &mut D, sb: &mut Superblock, n: u64, hint_group: u32) -> (r: Result<Vec<AllocRun>, VolumeError>)
        requires
            old(self).wf(),
        ensures
            final(self).wf(),
            final(self).same_kind(old(self)),
            n == 0 ==> (r matches Ok(v) && v@.len() == 0 && *final(sb) == *old(sb) && *final(self) == *old(self)),
            0 < n && n > old(sb).free_blocks ==> r == Err::<Vec<AllocRun>, VolumeError>(VolumeError::NoSpace),
            match r {
                Ok(runs) => {
                    &&& expand_runs(runs@).len() == n
                    &&& runs_maximal(runs@)
                    &&& *final(sb) == sb_minus_blocks(*old(sb), n as int)
                    &&& *old(self) is Legacy ==> final(self).took(old(self), expand_runs(runs@))
                },
                Err(_) => *final(sb) == *old(sb),
            },
            *old(self) is Legacy && 0 < n <= old(sb).free_blocks ==> match r {
                Ok(runs) => (exists|t: int| #[trigger] free_window(old(self)->bitmap@, t, n as int, 0, old(self)->bitmap@.len() as int))
                    ==> runs@.len() == 1,
                Err(e) => {
                    &&& e == VolumeError::Invalid
                    &&& final(self)->bitmap@ == old(self)->bitmap@
                    &&& count_free(old(self)->bitmap@, old(self)->bitmap@.len() as int) < n
                },
            },
    {
        if n == 0 {
            let v: Vec<AllocRun> = Vec::new();
            proof {
                assert(expand_runs(v@) =~= Seq::<u64>::empty());
                if let BlockAlloc::Legacy { bitmap, data_start } = self {
                    let o = offsets(Seq::<u64>::empty(), *data_start);
                    assert(o =~= Seq::<u64>::empty());
                    assert(set_all(bitmap@, o) =~= bitmap@);
                    assert(expand_runs(v@) == Seq::<u64>::empty());
                }
            }
            return Ok(v);
        }
        if sb.free_blocks < n {
            return Err(VolumeError::NoSpace);
        }
        match self {
            BlockAlloc::Legacy { bitmap, data_start } => {
                let ds = *data_start;
                alloc_contiguous_legacy(bitmap, sb, n, ds)
            },
            BlockAlloc::Group { gbm, gdt } => alloc_contiguous_group(gbm, dev, sb, gdt, n, hint_group),
        }
    }

    /// Overwrite each block with zeros, flush, then free them (see `free`).
    pub fn secure_free<D: CFSBlockDevice>(&mut self, dev: &mut D, sb: &mut Superblock, blocks: &[u64], block_size: u32) -> (r: Result<(), VolumeError>)
        requires
            old(self).wf(),
            old(self).blocks_in_area(blocks@),
            old(sb).free_blocks + blocks@.len() <= u64::MAX,
            forall|k: int| 0 <= k < blocks@.len() ==> (blocks@[k] + 1) * block_size <= u64::MAX,
        ensures
            final(self).wf(),
            final(self).same_kind(old(self)),
            r is Ok ==> {
                &&& *final(sb) == (Superblock { free_blocks: (old(sb).free_blocks + blocks@.len()) as u64, ..*old(sb) })
                &&& final(self).gave_back(old(self), blocks@)
            },
            r is Ok && *old(self) is Legacy ==> final(dev).contents() == zeroed(old(dev).contents(), blocks@, block_size as int),
            r is Err ==> *final(sb) == *old(sb),
            *old(self) is Legacy ==> (r matches Err(e) ==> e is Device || !freeable(
                old(self)->bitmap@,
                offsets(blocks@, old(self)->data_start),
            )),
    {
        zero_physical_blocks(dev, blocks, block_size)?;
        match dev.flush() {
            Ok(()) => {},
            Err(e) => return Err(VolumeError::Device(e)),
        }
        self.free(dev, sb, blocks)
    }
}

} // verus!
