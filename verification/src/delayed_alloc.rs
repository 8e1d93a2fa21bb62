//! Delayed allocation: buffer written blocks in memory and reserve space for
//! them, deferring physical placement until the pending data is flushed.

use vstd::prelude::*;
use std::collections::{BTreeMap, HashMap};
use crate::error::VolumeError;
use vstd::std_specs::iter::IteratorSpec;

verus! {

broadcast use vstd::std_specs::hash::group_hash_axioms, vstd::std_specs::btree::group_btree_axioms, vstd::laws_cmp::group_laws_cmp,
    vstd::set_lib::lemma_set_empty_equivalency_len;

/// Pending writes and reserved block counts for delayed allocation.
pub struct DelayedAllocManager {
    pending: HashMap<u32, BTreeMap<u64, Vec<u8>>>,
    reserved_per_inode: HashMap<u32, u64>,
    total_reserved: u64,
    block_size: u32,
}

/// Contents of one inode's pending map: logical block to its buffered data.
pub open spec fn pending_view(m: BTreeMap<u64, Vec<u8>>) -> Map<u64, Seq<u8>> {
    m@.map_values(|v: Vec<u8>| v@)
}

impl View for DelayedAllocManager {
    type V = Map<u32, Map<u64, Seq<u8>>>;

    /// Pending data per inode.
    closed spec fn view(&self) -> Map<u32, Map<u64, Seq<u8>>> {
        self.pending@.map_values(|m: BTreeMap<u64, Vec<u8>>| pending_view(m))
    }
}

impl DelayedAllocManager {
    pub closed spec fn spec_total_reserved(&self) -> u64 {
        self.total_reserved
    }

    pub closed spec fn spec_block_size(&self) -> u32 {
        self.block_size
    }

    /// Blocks counted as reserved for `inode`.
    pub closed spec fn reserved_count(&self, inode: u32) -> u64 {
        if self.reserved_per_inode@.contains_key(inode) {
            self.reserved_per_inode@[inode]
        } else {
            0
        }
    }

    /// Pending data of `inode` (empty when there is none).
    pub open spec fn pending_of(&self, inode: u32) -> Map<u64, Seq<u8>> {
        if self@.contains_key(inode) {
            self@[inode]
        } else {
            Map::empty()
        }
    }

    /// `inode` has at least one buffered block.
    pub open spec fn has_data(&self, inode: u32) -> bool {
        self@.contains_key(inode) && self@[inode].dom().len() > 0
    }

    /// Every buffered block has the volume's block size.
    pub closed spec fn wf(&self) -> bool {
        forall|k: u32, b: u64|
            #![trigger self@[k][b]]
            self@.contains_key(k) && self@[k].contains_key(b) ==> self@[k][b].len() == self.block_size
    }

    pub fn new(block_size: u32) -> (r: Self)
        ensures
            r.wf(),
            r@ == Map::<u32, Map<u64, Seq<u8>>>::empty(),
            r.spec_total_reserved() == 0,
            r.spec_block_size() == block_size,
    {
        let r = DelayedAllocManager {
            pending: HashMap::new(),
            reserved_per_inode: HashMap::new(),
            total_reserved: 0,
            block_size,
        };
        assert(r@ =~= Map::<u32, Map<u64, Seq<u8>>>::empty());
        r
    }

    /// Free blocks not yet promised to a reservation.
    pub fn available_blocks(&self, sb_free_blocks: u64) -> (r: u64)
        ensures
            r == if sb_free_blocks >= self.spec_total_reserved() {
                sb_free_blocks - self.spec_total_reserved()
            } else {
                0
            },
    {
        sb_free_blocks.saturating_sub(self.total_reserved)
    }

    /// Buffer `data` for `(inode_idx, logical_block)`. Overwriting a buffered
    /// block needs no new reservation; a new block needs one unreserved free
    /// block, else ENOSPC.
    pub fn reserve(&mut self, sb_free_blocks: u64, inode_idx: u32, logical_block: u64, data: Vec<u8>) -> (r: Result<(), VolumeError>)
        requires
            old(self).wf(),
            data@.len() == old(self).spec_block_size(),
            old(self).reserved_count(inode_idx) < u64::MAX,
        ensures
            final(self).wf(),
            final(self).spec_block_size() == old(self).spec_block_size(),
            old(self).pending_of(inode_idx).contains_key(logical_block) ==> {
                &&& r is Ok
                &&& final(self)@ == old(self)@.insert(inode_idx, old(self).pending_of(inode_idx).insert(logical_block, data@))
                &&& final(self).spec_total_reserved() == old(self).spec_total_reserved()
                &&& final(self).reserved_count(inode_idx) == old(self).reserved_count(inode_idx)
            },
            !old(self).pending_of(inode_idx).contains_key(logical_block) && sb_free_blocks <= old(self).spec_total_reserved() ==> {
                &&& r == Err::<(), VolumeError>(VolumeError::NoSpace)
                &&& final(self)@ == old(self)@
                &&& final(self).spec_total_reserved() == old(self).spec_total_reserved()
            },
            !old(self).pending_of(inode_idx).contains_key(logical_block) && sb_free_blocks > old(self).spec_total_reserved() ==> {
                &&& r is Ok
                &&& final(self)@ == old(self)@.insert(inode_idx, old(self).pending_of(inode_idx).insert(logical_block, data@))
                &&& final(self).spec_total_reserved() == old(self).spec_total_reserved() + 1
                &&& final(self).reserved_count(inode_idx) == old(self).reserved_count(inode_idx) + 1
            },
    {
        let ghost dv = data@;
        let overwrite = match self.pending.get(&inode_idx) {
            Some(m) => m.contains_key(&logical_block),
            None => false,
        };
        if overwrite {
            let mut inode_map = match self.pending.remove(&inode_idx) {
                Some(m) => m,
                None => BTreeMap::new(),
            };
            inode_map.insert(logical_block, data);
            self.pending.insert(inode_idx, inode_map);
            proof {
                assert(self@ =~= old(self)@.insert(inode_idx, old(self).pending_of(inode_idx).insert(logical_block, dv))) by {
                    assert(pending_view(self.pending@[inode_idx]) =~= old(self).pending_of(inode_idx).insert(logical_block, dv));
                }
            }
            return Ok(());
        }
        if self.available_blocks(sb_free_blocks) < 1 {
            return Err(VolumeError::NoSpace);
        }
        let mut inode_map = match self.pending.remove(&inode_idx) {
            Some(m) => m,
            None => BTreeMap::new(),
        };
        inode_map.insert(logical_block, data);
        self.pending.insert(inode_idx, inode_map);
        let cnt = match self.reserved_per_inode.get(&inode_idx) {
            Some(c) => *c,
            None => 0,
        };
        self.reserved_per_inode.insert(inode_idx, cnt + 1);
        self.total_reserved = self.total_reserved + 1;
        proof {
            assert(self@ =~= old(self)@.insert(inode_idx, old(self).pending_of(inode_idx).insert(logical_block, dv))) by {
                assert(pending_view(self.pending@[inode_idx]) =~= old(self).pending_of(inode_idx).insert(logical_block, dv));
            }
        }
        Ok(())
    }

    /// The buffered data for `(inode_idx, logical_block)`, if any.
    pub fn read_pending(&self, inode_idx: u32, logical_block: u64) -> (r: Option<&[u8]>)
        ensures
            match r {
                Some(d) => self.pending_of(inode_idx).contains_key(logical_block) && d@ == self.pending_of(inode_idx)[logical_block],
                None => !self.pending_of(inode_idx).contains_key(logical_block),
            },
    {
        match self.pending.get(&inode_idx) {
            Some(map) => match map.get(&logical_block) {
                Some(v) => Some(v.as_slice()),
                None => None,
            },
            None => None,
        }
    }

    /// Whether `inode_idx` has any buffered writes.
    pub fn has_pending(&self, inode_idx: u32) -> (r: bool)
        ensures
            r == (self.pending_of(inode_idx).dom().len() > 0),
    {
        match self.pending.get(&inode_idx) {
            Some(m) => {
                proof {
                    assert(pending_view(*m).dom() == m@.dom());
                }
                !m.is_empty()
            },
            None => {
                proof {
                    assert(self.pending_of(inode_idx).dom() =~= Set::<u64>::empty());
                }
                false
            },
        }
    }

    /// Total reserved blocks across all inodes.
    pub fn total_reserved(&self) -> (r: u64)
        ensures
            r == self.spec_total_reserved(),
    {
        self.total_reserved
    }

    /// Drop every buffered write of `inode_idx` and release its reservations.
    pub fn discard_inode(&mut self, inode_idx: u32)
        requires
            old(self).wf(),
        ensures
            final(self).wf(),
            final(self)@ == old(self)@.remove(inode_idx),
            final(self).spec_block_size() == old(self).spec_block_size(),
            final(self).reserved_count(inode_idx) == 0,
            final(self).spec_total_reserved() == if old(self).spec_total_reserved() >= old(self).pending_of(inode_idx).dom().len() {
                old(self).spec_total_reserved() - old(self).pending_of(inode_idx).dom().len()
            } else {
                0
            },
    {
        if let Some(map) = self.pending.remove(&inode_idx) {
            proof {
                assert(pending_view(map).dom() == map@.dom());
            }
            let count = map.len() as u64;
            self.total_reserved = self.total_reserved.saturating_sub(count);
        } else {
            proof {
                assert(old(self).pending_of(inode_idx).dom() =~= Set::<u64>::empty());
            }
        }
        self.reserved_per_inode.remove(&inode_idx);
        proof {
            assert(self@ =~= old(self)@.remove(inode_idx));
        }
    }

    /// Remove and return the buffered writes of `inode_idx`; `None` when there are none.
    pub fn take_pending(&mut self, inode_idx: u32) -> (r: Option<BTreeMap<u64, Vec<u8>>>)
        requires
            old(self).wf(),
        ensures
            final(self).wf(),
            final(self).spec_block_size() == old(self).spec_block_size(),
            final(self)@ == old(self)@.remove(inode_idx),
            match r {
                Some(m) => {
                    &&& pending_view(m) == old(self).pending_of(inode_idx)
                    &&& m@.dom().len() > 0
                    &&& final(self).reserved_count(inode_idx) == 0
                    &&& final(self).spec_total_reserved() == if old(self).spec_total_reserved() >= m@.dom().len() {
                        old(self).spec_total_reserved() - m@.dom().len()
                    } else {
                        0
                    }
                },
                None => {
                    &&& old(self).pending_of(inode_idx).dom().len() == 0
                    &&& final(self).spec_total_reserved() == old(self).spec_total_reserved()
                    &&& final(self).reserved_count(inode_idx) == old(self).reserved_count(inode_idx)
                },
            },
    {
        let map = match self.pending.remove(&inode_idx) {
            Some(m) => m,
            None => {
                proof {
                    assert(self@ =~= old(self)@.remove(inode_idx));
                    assert(old(self).pending_of(inode_idx).dom() =~= Set::<u64>::empty());
                }
                return None;
            },
        };
        proof {
            assert(self@ =~= old(self)@.remove(inode_idx));
            assert(pending_view(map).dom() == map@.dom());
        }
        if map.is_empty() {
            return None;
        }
        let count = map.len() as u64;
        self.total_reserved = self.total_reserved.saturating_sub(count);
        self.reserved_per_inode.remove(&inode_idx);
        Some(map)
    }

    /// Inodes that have buffered writes, each listed once.
    pub fn pending_inodes(&self) -> (r: Vec<u32>)
        ensures
            r@.no_duplicates(),
            forall|k: u32| r@.contains(k) <==> self.has_data(k),
    {
        let mut out: Vec<u32> = Vec::new();
        let mut keys: Vec<u32> = Vec::new();
        for k in it: self.pending.keys()
            invariant
                keys@.len() == it.index(),
                forall|j: int| 0 <= j < keys@.len() ==> keys@[j] == *it.seq()[j],
                it.seq() == vstd::std_specs::hash::spec_keys_iter(&self.pending).remaining(),
        {
            keys.push(*k);
        }
        proof {
            broadcast use vstd::std_specs::hash::axiom_spec_keys_iter;
            let rem = vstd::std_specs::hash::spec_keys_iter(&self.pending).remaining();
            assert(keys@ =~= rem.unref());
            assert(keys@.to_set() == self.pending@.dom());
        }
        let mut i: usize = 0;
        while i < keys.len()
            invariant
                i <= keys@.len(),
                keys@.to_set() == self.pending@.dom(),
                keys@.no_duplicates(),
                out@.no_duplicates(),
                forall|m: int|
                    0 <= m < out@.len() ==> self.has_data(#[trigger] out@[m]) && (exists|j: int|
                        0 <= j < i && keys@[j] == out@[m]),
                forall|j: int| 0 <= j < i && self.has_data(#[trigger] keys@[j]) ==> out@.contains(keys@[j]),
            decreases keys@.len() - i,
        {
            let k = keys[i];
            proof {
                assert(keys@.to_set().contains(k));
            }
            let ghost old_out = out@;
            match self.pending.get(&k) {
                Some(m) => {
                    proof {
                        assert(pending_view(*m).dom() == m@.dom());
                    }
                    if !m.is_empty() {
                        proof {
                            assert(m@.dom().len() > 0);
                            assert(!out@.contains(k)) by {
                                if out@.contains(k) {
                                    let q = choose|q: int| 0 <= q < out@.len() && out@[q] == k;
                                    assert(self.has_data(out@[q]));
                                    let j = choose|j: int| 0 <= j < i && keys@[j] == out@[q];
                                    assert(keys@[j] == keys@[i as int]);
                                }
                            }
                        }
                        out.push(k);
                        proof {
                            assert forall|m: int|
                                0 <= m < out@.len() implies self.has_data(#[trigger] out@[m]) && (exists|j: int|
                                    0 <= j < i + 1 && keys@[j] == out@[m]) by {
                                if m < old_out.len() {
                                    assert(out@[m] == old_out[m]);
                                    assert(self.has_data(old_out[m]));
                                } else {
                                    assert(keys@[i as int] == out@[m]);
                                }
                            }
                            assert forall|j: int| 0 <= j < i + 1 && self.has_data(#[trigger] keys@[j]) implies out@.contains(
                                keys@[j],
                            ) by {
                                if j < i {
                                    assert(old_out.contains(keys@[j]));
                                    let q = choose|q: int| 0 <= q < old_out.len() && old_out[q] == keys@[j];
                                    assert(out@[q] == keys@[j]);
                                } else {
                                    assert(out@[out@.len() - 1] == keys@[j]);
                                }
                            }
                        }
                    } else {
                        proof {
                            assert(m@.dom().len() == 0);
                            assert(!self.has_data(keys@[i as int]));
                        }
                    }
                },
                None => {},
            }
            i = i + 1;
        }
        proof {
            assert forall|k: u32| out@.contains(k) <==> self.has_data(k) by {
                if self.has_data(k) {
                    assert(keys@.to_set().contains(k));
                    let j = choose|j: int| 0 <= j < keys@.len() && keys@[j] == k;
                    assert(self.has_data(keys@[j]));
                }
                if out@.contains(k) {
                    let q = choose|q: int| 0 <= q < out@.len() && out@[q] == k;
                    assert(self.has_data(out@[q]));
                }
            }
        }
        out
    }
}

/// A run of pending blocks with consecutive logical numbers.
pub struct ContiguousRange {
    pub start_logical: u64,
    /// `(logical_block, data)` pairs in increasing logical order.
    pub blocks: Vec<(u64, Vec<u8>)>,
}

/// The blocks of a range as plain values.
pub open spec fn range_blocks(r: ContiguousRange) -> Seq<(u64, Seq<u8>)> {
    r.blocks@.map_values(|p: (u64, Vec<u8>)| (p.0, p.1@))
}

/// A range is non-empty and its `j`-th block is `start_logical + j`.
pub open spec fn range_is_contiguous(r: ContiguousRange) -> bool {
    &&& r.blocks@.len() > 0
    &&& forall|j: int| 0 <= j < r.blocks@.len() ==> (#[trigger] r.blocks@[j]).0 == r.start_logical + j
}

/// All blocks of a list of ranges, in order.
pub open spec fn flatten_ranges(rs: Seq<ContiguousRange>) -> Seq<(u64, Seq<u8>)>
    decreases rs.len(),
{
    if rs.len() == 0 {
        Seq::empty()
    } else {
        flatten_ranges(rs.drop_last()) + range_blocks(rs.last())
    }
}

/// The keys of a `BTreeMap<u64, _>` as its `keys()` iterator yields them,
/// which is in strictly increasing order.
proof fn lemma_sorted_keys(m: &BTreeMap<u64, Vec<u8>>)
    ensures
        ({
            let rem = vstd::std_specs::btree::spec_keys_iter(m).remaining();
            &&& rem.unref().to_set() == m@.dom()
            &&& rem.len() == m@.dom().len()
            &&& forall|i: int, j: int| 0 <= i < j < rem.len() ==> *rem[i] < *rem[j]
        }),
{
    broadcast use vstd::std_specs::btree::axiom_spec_keys_iter;

    let rem = vstd::std_specs::btree::spec_keys_iter(m).remaining();
    assert forall|i: int, j: int| 0 <= i < j < rem.len() implies *rem[i] < *rem[j] by {
        assert(vstd::std_specs::cmp::OrdSpec::cmp_spec(&rem[i], &rem[j]) is Less);
    }
}

/// Split the pending writes of one inode into maximal runs of consecutive
/// logical blocks, in increasing logical order.
pub fn group_contiguous_ranges(pending: BTreeMap<u64, Vec<u8>>) -> (r: Vec<ContiguousRange>)
    ensures
        forall|i: int| 0 <= i < r@.len() ==> range_is_contiguous(#[trigger] r@[i]),
        forall|i: int|
            0 <= i < r@.len() - 1 ==> (#[trigger] r@[i]).start_logical + r@[i].blocks@.len() < r@[i
                + 1].start_logical,
        flatten_ranges(r@).len() == pending@.dom().len(),
        forall|i: int, j: int|
            0 <= i < j < flatten_ranges(r@).len() ==> flatten_ranges(r@)[i].0 < flatten_ranges(r@)[j].0,
        forall|i: int|
            0 <= i < flatten_ranges(r@).len() ==> {
                let e = #[trigger] flatten_ranges(r@)[i];
                pending@.contains_key(e.0) && pending@[e.0]@ == e.1
            },
{
    let ghost orig = pending@;
    let mut pending = pending;
    let mut keys: Vec<u64> = Vec::new();
    for k in it: pending.keys()
        invariant
            keys@.len() == it.index(),
            forall|j: int| 0 <= j < keys@.len() ==> keys@[j] == *it.seq()[j],
            it.seq() == vstd::std_specs::btree::spec_keys_iter(&pending).remaining(),
    {
        keys.push(*k);
    }
    proof {
        lemma_sorted_keys(&pending);
        let rem = vstd::std_specs::btree::spec_keys_iter(&pending).remaining();
        assert(keys@ =~= rem.unref());
    }
    let mut ranges: Vec<ContiguousRange> = Vec::new();
    let mut cur_start: u64 = 0;
    let mut cur_blocks: Vec<(u64, Vec<u8>)> = Vec::new();
    let ghost mut done: Seq<(u64, Seq<u8>)> = Seq::empty();
    let mut i: usize = 0;
    while i < keys.len()
        invariant
            i <= keys@.len(),
            keys@.len() == orig.dom().len(),
            keys@.to_set() == orig.dom(),
            forall|a: int, b: int| 0 <= a < b < keys@.len() ==> keys@[a] < keys@[b],
            forall|j: int| i <= j < keys@.len() ==> pending@.contains_key(#[trigger] keys@[j]) && pending@[keys@[j]] == orig[keys@[j]],
            done.len() == i,
            forall|j: int| 0 <= j < i ==> (#[trigger] done[j]).0 == keys@[j] && orig[keys@[j]]@ == done[j].1,
            i == 0 <==> cur_blocks@.len() == 0,
            i > 0 ==> cur_start + cur_blocks@.len() == keys@[i - 1] + 1,
            forall|j: int| 0 <= j < cur_blocks@.len() ==> (#[trigger] cur_blocks@[j]).0 == cur_start + j,
            forall|a: int| 0 <= a < ranges@.len() ==> range_is_contiguous(#[trigger] ranges@[a]),
            forall|a: int|
                0 <= a < ranges@.len() - 1 ==> (#[trigger] ranges@[a]).start_logical + ranges@[a].blocks@.len() < ranges@[a + 1].start_logical,
            ranges@.len() > 0 ==> ranges@.last().start_logical + ranges@.last().blocks@.len() < cur_start,
            done == flatten_ranges(ranges@) + range_blocks(ContiguousRange { start_logical: cur_start, blocks: cur_blocks }),
        decreases keys@.len() - i,
    {
        let k = keys[i];
        let data = match pending.remove(&k) {
            Some(d) => d,
            None => {
                proof {
                    assert(false);
                }
                Vec::new()
            },
        };
        let ghost dv = data@;
        proof {
            assert(dv == orig[k]@);
            assert forall|j: int| i + 1 <= j < keys@.len() implies pending@.contains_key(#[trigger] keys@[j]) && pending@[keys@[j]] == orig[keys@[j]] by {
                assert(keys@[j] != k);
            }
        }
        let ghost old_cur = ContiguousRange { start_logical: cur_start, blocks: cur_blocks };
        let ghost old_ranges = ranges@;
        let extend = cur_blocks.len() > 0 && cur_start as u128 + cur_blocks.len() as u128 == k as u128;
        if extend {
            cur_blocks.push((k, data));
            proof {
                assert(range_blocks(ContiguousRange { start_logical: cur_start, blocks: cur_blocks }) =~= range_blocks(old_cur).push((k, dv)));
            }
        } else {
            if cur_blocks.len() > 0 {
                let finished = ContiguousRange { start_logical: cur_start, blocks: cur_blocks };
                ranges.push(finished);
                proof {
                    assert(ranges@.drop_last() =~= old_ranges);
                    assert(flatten_ranges(ranges@) == flatten_ranges(old_ranges) + range_blocks(old_cur));
                    assert(keys@[i - 1] < k);
                }
            }
            cur_start = k;
            cur_blocks = Vec::new();
            cur_blocks.push((k, data));
            proof {
                assert(range_blocks(ContiguousRange { start_logical: cur_start, blocks: cur_blocks }) =~= seq![(k, dv)]);
                assert(flatten_ranges(ranges@) + range_blocks(ContiguousRange { start_logical: cur_start, blocks: cur_blocks }) =~= done.push((k, dv)));
            }
        }
        proof {
            done = done.push((k, dv));
        }
        i = i + 1;
    }
    if cur_blocks.len() > 0 {
        let ghost old_ranges = ranges@;
        let ghost last = ContiguousRange { start_logical: cur_start, blocks: cur_blocks };
        ranges.push(ContiguousRange { start_logical: cur_start, blocks: cur_blocks });
        proof {
            assert(ranges@.drop_last() =~= old_ranges);
        }
    } else {
        proof {
            assert(range_blocks(ContiguousRange { start_logical: cur_start, blocks: cur_blocks }) =~= Seq::<(u64, Seq<u8>)>::empty());
            assert(done =~= flatten_ranges(ranges@));
        }
    }
    proof {
        assert forall|a: int| 0 <= a < i implies orig.contains_key((#[trigger] done[a]).0) by {
            assert(keys@.to_set().contains(keys@[a]));
        }
    }
    ranges
}

} // verus!
