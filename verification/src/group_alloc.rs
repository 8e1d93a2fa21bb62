//! Per-group allocation: the block and inode bitmaps of each group, loaded
//! on first use and written back when dirty, and the inode tables of a
//! grouped volume.

use vstd::prelude::*;
use std::collections::{HashMap, HashSet};
use vstd::std_specs::iter::IteratorSpec;
use crate::bitmap::{Bitmap, seq_bit, free_window, is_first_window};
use crate::block_alloc::{set_range, AllocRun};
use crate::codec::zeros;
use crate::device::{CFSBlockDevice, written};
use crate::error::VolumeError;
use crate::group::{GroupDescriptor, orlov_select_group, orlov_score, sum_free_inodes, sum_free_blocks, BG_BLOCK_UNINIT, BG_INODE_UNINIT, spec_global_to_local, spec_local_to_global, lemma_u32_product};
use crate::superblock::Superblock;
use crate::inode::{Inode, inode_bytes, inode_decodes, read_inode_at, write_inode_at, lemma_inode_within_block};

verus! {

broadcast use vstd::std_specs::hash::group_hash_axioms;

/// Loaded per-group bitmaps and the groups whose bitmap changed since it
/// was last written.
pub struct GroupBitmaps {
    bitmaps: HashMap<u32, Bitmap>,
    dirty: HashSet<u32>,
}

impl GroupBitmaps {
    pub closed spec fn loaded(&self) -> Map<u32, Seq<bool>> {
        self.bitmaps@.map_values(|b: Bitmap| b@)
    }

    pub closed spec fn dirty_set(&self) -> Set<u32> {
        self.dirty@
    }

    pub closed spec fn wf(&self) -> bool {
        forall|g: u32| #[trigger] self.bitmaps@.contains_key(g) ==> self.bitmaps@[g].wf() && self.bitmaps@[g]@.len() <= u32::MAX
    }

    /// Every loaded bitmap fits in a block of `bs` bytes.
    pub closed spec fn fits(&self, bs: int) -> bool {
        forall|g: u32| #[trigger] self.bitmaps@.contains_key(g) ==> self.bitmaps@[g].spec_bytes().len() <= bs
    }

    fn new() -> (r: Self)
        ensures
            r.wf(),
            r.loaded() == Map::<u32, Seq<bool>>::empty(),
            r.dirty_set() == Set::<u32>::empty(),
            forall|b: int| #[trigger] r.fits(b),
    {
        let r = GroupBitmaps { bitmaps: HashMap::new(), dirty: HashSet::new() };
        assert(r.loaded() =~= Map::<u32, Seq<bool>>::empty());
        r
    }

    fn contains(&self, g: u32) -> (r: bool)
        ensures
            r == self.loaded().contains_key(g),
    {
        self.bitmaps.contains_key(&g)
    }

    /// The loaded bitmap of group `g`, to change in place.
    fn get_mut(&mut self, g: u32) -> (r: Option<&mut Bitmap>)
        ensures
            r is Some <==> old(self).loaded().contains_key(g),
            final(self).dirty_set() == old(self).dirty_set(),
            match r {
                Some(b) => {
                    &&& (*b)@ == old(self).loaded()[g]
                    &&& final(self).loaded() == old(self).loaded().insert(g, (*final(b))@)
                    &&& old(self).wf() && (*final(b)).wf() && (*final(b))@.len() <= u32::MAX ==> final(self).wf()
                    &&& forall|bs: int| old(self).fits(bs) && (*final(b)).spec_bytes().len() <= bs ==> #[trigger] final(self).fits(bs)
                },
                None => final(self).loaded() == old(self).loaded() && (old(self).wf() ==> final(self).wf())
                    && forall|bs: int| old(self).fits(bs) ==> #[trigger] final(self).fits(bs),
            },
    {
        match self.bitmaps.entry(g) {
            std::collections::hash_map::Entry::Occupied(o) => Some(o.into_mut()),
            std::collections::hash_map::Entry::Vacant(_) => None,
        }
    }

    fn insert(&mut self, g: u32, b: Bitmap)
        requires
            old(self).wf(),
            b.wf(),
            b@.len() <= u32::MAX,
        ensures
            final(self).wf(),
            final(self).loaded() == old(self).loaded().insert(g, b@),
            final(self).dirty_set() == old(self).dirty_set(),
            forall|bs: int| old(self).fits(bs) && b.spec_bytes().len() <= bs ==> #[trigger] final(self).fits(bs),
    {
        self.bitmaps.insert(g, b);
        assert(self.loaded() =~= old(self).loaded().insert(g, b@));
    }

    fn mark_dirty(&mut self, g: u32)
        ensures
            final(self).loaded() == old(self).loaded(),
            final(self).dirty_set() == old(self).dirty_set().insert(g),
            final(self).wf() == old(self).wf(),
            forall|bs: int| #[trigger] final(self).fits(bs) == old(self).fits(bs),
    {
        self.dirty.insert(g);
        assert(self.bitmaps == old(self).bitmaps);
    }

    /// Allocate the lowest free bit of group `g`'s bitmap.
    fn alloc_bit(&mut self, g: u32) -> (r: Option<u64>)
        requires
            old(self).wf(),
            old(self).loaded().contains_key(g),
        ensures
            final(self).wf(),
            forall|bs: int| #[trigger] final(self).fits(bs) == old(self).fits(bs),
            final(self).dirty_set() == old(self).dirty_set(),
            old(self).loaded()[g].len() <= u32::MAX,
            match r {
                Some(l) => {
                    let v = old(self).loaded()[g];
                    &&& l < v.len()
                    &&& !v[l as int]
                    &&& forall|j: int| 0 <= j < l ==> v[j]
                    &&& final(self).loaded() == old(self).loaded().insert(g, v.update(l as int, true))
                },
                None => {
                    &&& forall|j: int| 0 <= j < old(self).loaded()[g].len() ==> old(self).loaded()[g][j]
                    &&& final(self).loaded() == old(self).loaded()
                },
            },
    {
        let mut b = match self.bitmaps.remove(&g) {
            Some(b) => b,
            None => {
                assert(false);
                return None;
            },
        };
        let r = b.alloc_one();
        self.bitmaps.insert(g, b);
        proof {
            assert(self.loaded() =~= old(self).loaded().insert(g, b@));
            assert forall|bs: int| #[trigger] self.fits(bs) == old(self).fits(bs) by {
                if old(self).fits(bs) {
                    assert(self.fits(bs));
                }
                if self.fits(bs) {
                    assert forall|q: u32| #[trigger] old(self).bitmaps@.contains_key(q) implies old(self).bitmaps@[q].spec_bytes().len() <= bs by {
                        assert(self.bitmaps@.contains_key(q));
                    }
                }
            }
        }
        r
    }

    /// Mark the first run of `n` free bits of group `g`'s bitmap allocated.
    fn take_run(&mut self, g: u32, n: u64) -> (r: Option<u64>)
        requires
            old(self).wf(),
            old(self).loaded().contains_key(g),
        ensures
            final(self).wf(),
            forall|bs: int| #[trigger] final(self).fits(bs) == old(self).fits(bs),
            final(self).dirty_set() == old(self).dirty_set(),
            old(self).loaded()[g].len() <= u32::MAX,
            ({
                let v = old(self).loaded()[g];
                match r {
                    Some(s) => {
                        &&& is_first_window(v, s as int, n as int, 0, v.len() as int)
                        &&& n > 0
                        &&& final(self).loaded() == old(self).loaded().insert(g, set_range(v, s as int, n as int))
                    },
                    None => {
                        &&& n > 0 ==> forall|t: int| !#[trigger] free_window(v, t, n as int, 0, v.len() as int)
                        &&& final(self).loaded() == old(self).loaded()
                    },
                }
            }),
    {
        let mut b = match self.bitmaps.remove(&g) {
            Some(b) => b,
            None => {
                assert(false);
                return None;
            },
        };
        let ghost v = b@;
        assert(b == old(self).bitmaps@[g]);
        proof {
            b.lemma_view_len();
        }
        let found = b.find_contiguous_run(n, 0);
        let r = match found {
            Some(start) => {
                proof {
                    assert(exists|t: int| #[trigger] free_window(v, t, n as int, 0, v.len() as int));
                }
                let mut i: u64 = 0;
                while i < n
                    invariant
                        b.wf(),
                        i <= n,
                        is_first_window(v, start as int, n as int, 0, v.len() as int),
                        b@ == set_range(v, start as int, i as int),
                        v.len() <= u64::MAX,
                        b.spec_bytes().len() == old(self).bitmaps@[g].spec_bytes().len(),
                    decreases n - i,
                {
                    b.set_allocated(start + i);
                    proof {
                        assert(b@ =~= set_range(v, start as int, i + 1));
                    }
                    i = i + 1;
                }
                Some(start)
            },
            None => {
                proof {
                    assert(((0u64 / 8) * 8) as int == 0);
                    assert forall|t: int| n > 0 implies !#[trigger] free_window(v, t, n as int, 0, v.len() as int) by {
                        if free_window(v, t, n as int, 0, v.len() as int) {
                            assert(free_window(v, t, n as int, ((0u64 / 8) * 8) as int, v.len() as int));
                        }
                    }
                    assert(b@ == v);
                }
                None
            },
        };
        self.bitmaps.insert(g, b);
        proof {
            assert(self.loaded() =~= old(self).loaded().insert(g, b@));
            if r is None {
                assert(old(self).loaded().insert(g, v) =~= old(self).loaded());
            }
            assert forall|bs: int| #[trigger] self.fits(bs) == old(self).fits(bs) by {
                if old(self).fits(bs) {
                    assert(self.fits(bs));
                }
                if self.fits(bs) {
                    assert forall|q: u32| #[trigger] old(self).bitmaps@.contains_key(q) implies old(self).bitmaps@[q].spec_bytes().len() <= bs by {
                        assert(self.bitmaps@.contains_key(q));
                    }
                }
            }
        }
        r
    }

    /// Free bit `l` of group `g`'s bitmap.
    fn free_bit(&mut self, g: u32, l: u64) -> (r: Result<(), VolumeError>)
        requires
            old(self).wf(),
            old(self).loaded().contains_key(g),
        ensures
            final(self).wf(),
            forall|bs: int| #[trigger] final(self).fits(bs) == old(self).fits(bs),
            final(self).dirty_set() == old(self).dirty_set(),
            ({
                let v = old(self).loaded()[g];
                &&& l >= v.len() ==> r == Err::<(), VolumeError>(VolumeError::OutOfRange) && final(self).loaded() == old(self).loaded()
                &&& l < v.len() && !v[l as int] ==> r == Err::<(), VolumeError>(VolumeError::DoubleFree) && final(self).loaded()
                    == old(self).loaded()
                &&& l < v.len() && v[l as int] ==> r is Ok && final(self).loaded() == old(self).loaded().insert(g, v.update(l as int, false))
            }),
    {
        let mut b = match self.bitmaps.remove(&g) {
            Some(b) => b,
            None => {
                assert(false);
                return Err(VolumeError::OutOfRange);
            },
        };
        let r = b.free(l);
        self.bitmaps.insert(g, b);
        proof {
            assert(self.loaded() =~= old(self).loaded().insert(g, b@));
            assert forall|bs: int| #[trigger] self.fits(bs) == old(self).fits(bs) by {
                if old(self).fits(bs) {
                    assert(self.fits(bs));
                }
                if self.fits(bs) {
                    assert forall|q: u32| #[trigger] old(self).bitmaps@.contains_key(q) implies old(self).bitmaps@[q].spec_bytes().len() <= bs by {
                        assert(self.bitmaps@.contains_key(q));
                    }
                }
            }
            if r is Err {
                assert(self.loaded() =~= old(self).loaded());
            }
        }
        r
    }

    /// The dirty groups, each once, in the set's iteration order.
    fn dirty_list(&self) -> (r: Vec<u32>)
        ensures
            r@.to_set() == self.dirty_set(),
            r@.no_duplicates(),
    {
        let mut out: Vec<u32> = Vec::new();
        for g in it: self.dirty.iter()
            invariant
                out@.len() == it.index(),
                forall|j: int| 0 <= j < out@.len() ==> out@[j] == *it.seq()[j],
                it.seq() == vstd::std_specs::hash::spec_hash_keys_iter(&self.dirty).remaining(),
        {
            out.push(*g);
        }
        proof {
            broadcast use vstd::std_specs::hash::axiom_spec_hash_keys_iter;
            let rem = vstd::std_specs::hash::spec_hash_keys_iter(&self.dirty).remaining();
            assert(out@ =~= rem.unref());
        }
        out
    }

    /// The backing bytes of group `g`'s bitmap, padded with zeros to `bs` bytes.
    fn block_image(&self, g: u32, bs: u32) -> (r: Vec<u8>)
        requires
            self.loaded().contains_key(g),
            self.fits(bs as int),
        ensures
            r@ == padded(self.bytes_of(g), bs as int),
    {
        let b = match self.bitmaps.get(&g) {
            Some(b) => b,
            None => {
                assert(false);
                return Vec::new();
            },
        };
        let bytes = b.as_bytes();
        let mut buf: Vec<u8> = Vec::new();
        crate::codec::push_bytes(&mut buf, bytes);
        crate::codec::push_zeros(&mut buf, bs as usize - bytes.len());
        buf
    }

    pub closed spec fn bytes_of(&self, g: u32) -> Seq<u8> {
        self.bitmaps@[g].spec_bytes()
    }

    /// Load group `g`'s bitmap unless it is loaded: all free when `uninit`,
    /// else `n` bits from the `bs`-byte block at byte `off` of the device.
    fn ensure<D: CFSBlockDevice>(&mut self, dev: &mut D, g: u32, uninit: bool, off: u64, bs: u32, n: u32) -> (r: Result<(), VolumeError>)
        requires
            old(self).wf(),
            off + bs <= u64::MAX,
        ensures
            final(self).wf(),
            final(dev).contents() == old(dev).contents(),
            final(self).dirty_set() == old(self).dirty_set(),
            old(self).loaded().contains_key(g) ==> r is Ok && final(self).loaded() == old(self).loaded() && (forall|b: int| #[trigger] final(self).fits(b) == old(self).fits(b)),
            !old(self).loaded().contains_key(g) ==> {
                &&& r is Ok ==> final(self).loaded() == old(self).loaded().insert(
                    g,
                    if uninit {
                        Seq::new(n as nat, |i: int| false)
                    } else {
                        bitmap_from_device(old(dev).contents(), off as int, bs as int, n as int)
                    },
                )
                &&& r is Ok ==> forall|b: int| old(self).fits(b) && (n + 7) / 8 <= b ==> #[trigger] final(self).fits(b)
                &&& r is Err ==> final(self).loaded() == old(self).loaded() && (forall|b: int| #[trigger] final(self).fits(b) == old(self).fits(b))
            },
            r matches Err(e) ==> e is Device,
    {
        if self.contains(g) {
            return Ok(());
        }
        if uninit {
            let b = Bitmap::new_all_free(n);
            self.insert(g, b);
            return Ok(());
        }
        let buf = match dev.read(off, bs as usize) {
            Ok(v) => v,
            Err(e) => return Err(VolumeError::Device(e)),
        };
        let b = Bitmap::from_bytes(buf.as_slice(), n);
        self.insert(g, b);
        Ok(())
    }

    fn clear_dirty(&mut self)
        ensures
            final(self).loaded() == old(self).loaded(),
            final(self).dirty_set() == Set::<u32>::empty(),
            final(self).wf() == old(self).wf(),
            forall|bs: int| #[trigger] final(self).fits(bs) == old(self).fits(bs),
    {
        self.dirty.clear();
        assert(self.bitmaps == old(self).bitmaps);
    }
}

/// `bytes` followed by zeros up to `n` bytes.
pub open spec fn padded(bytes: Seq<u8>, n: int) -> Seq<u8> {
    bytes + zeros((n - bytes.len()) as nat)
}

/// Data blocks of a group: its block count (as 32 bits) minus its metadata.
pub open spec fn group_data_blocks(d: GroupDescriptor, ovh: u32) -> u32 {
    let total = d.bg_blocks_count as u32;
    if total >= ovh {
        (total - ovh) as u32
    } else {
        0
    }
}

/// A bitmap of `n` bits read from the `bs`-byte block at byte `off`.
pub open spec fn bitmap_from_device(dev: Seq<u8>, off: int, bs: int, n: int) -> Seq<bool> {
    Seq::new(n as nat, |i: int| i / 8 < bs && seq_bit(dev.subrange(off, off + bs), i))
}

/// Device contents after writing each group of `order` as the block image
/// `images[g]` at byte `offs[g]`, in order.
pub open spec fn write_all(c: Seq<u8>, order: Seq<u32>, offs: Map<u32, int>, images: Map<u32, Seq<u8>>) -> Seq<u8>
    decreases order.len(),
{
    if order.len() == 0 {
        c
    } else {
        let prev = write_all(c, order.drop_last(), offs, images);
        written(prev, offs[order.last()], images[order.last()])
    }
}

/// Offset of each group's block bitmap, for the groups of `descs`.
pub open spec fn block_bitmap_offsets(descs: Seq<GroupDescriptor>, bs: u32) -> Map<u32, int> {
    Map::new(|g: u32| g < descs.len(), |g: u32| descs[g as int].bg_block_bitmap * bs)
}

/// Offset of each group's inode bitmap, for the groups of `descs`.
pub open spec fn inode_bitmap_offsets(descs: Seq<GroupDescriptor>, bs: u32) -> Map<u32, int> {
    Map::new(|g: u32| g < descs.len(), |g: u32| descs[g as int].bg_inode_bitmap * bs)
}

/// A descriptor after one of its blocks was allocated.
pub open spec fn after_block_alloc(d: GroupDescriptor) -> GroupDescriptor {
    GroupDescriptor {
        bg_free_blocks: if d.bg_free_blocks > 0 { (d.bg_free_blocks - 1) as u32 } else { 0 },
        bg_flags: d.bg_flags & !BG_BLOCK_UNINIT,
        ..d
    }
}

/// A descriptor after one of its inodes was allocated.
pub open spec fn after_inode_alloc(d: GroupDescriptor) -> GroupDescriptor {
    GroupDescriptor {
        bg_free_inodes: if d.bg_free_inodes > 0 { (d.bg_free_inodes - 1) as u32 } else { 0 },
        bg_flags: d.bg_flags & !BG_INODE_UNINIT,
        ..d
    }
}

/// Per-group block bitmaps, loaded on first use, with dirty tracking.
/// Descriptors are passed in on each call.
pub struct GroupBitmapManager {
    pub maps: GroupBitmaps,
    pub block_size: u32,
    pub blocks_per_group: u32,
    pub group_count: u32,
    /// First block of group 0.
    pub first_group_block: u64,
    /// Metadata blocks at the start of each group.
    pub overhead_per_group: u32,
}

impl GroupBitmapManager {
    /// Loaded bitmaps by group (`true` = allocated).
    pub closed spec fn loaded(&self) -> Map<u32, Seq<bool>> {
        self.maps.loaded()
    }

    /// Groups whose bitmap changed since it was last written.
    pub closed spec fn dirty(&self) -> Set<u32> {
        self.maps.dirty_set()
    }

    pub closed spec fn wf(&self) -> bool {
        self.maps.wf()
    }

    /// Every loaded bitmap fits in one block.
    pub closed spec fn fits(&self) -> bool {
        self.maps.fits(self.block_size as int)
    }

    /// The block image written for a loaded group: its bitmap bytes, zero-padded to a block.
    pub closed spec fn block_images(&self) -> Map<u32, Seq<u8>> {
        Map::new(|g: u32| self.maps.loaded().contains_key(g), |g: u32| padded(self.maps.bytes_of(g), self.block_size as int))
    }

    /// The bitmap that loading group `g` with descriptor `d` gives.
    pub open spec fn image(&self, d: GroupDescriptor, dev: Seq<u8>) -> Seq<bool> {
        let n = group_data_blocks(d, self.overhead_per_group);
        if d.bg_flags & BG_BLOCK_UNINIT != 0 {
            Seq::new(n as nat, |i: int| false)
        } else {
            bitmap_from_device(dev, d.bg_block_bitmap * self.block_size, self.block_size as int, n as int)
        }
    }

    /// Group `g`'s bitmap: the loaded one, else what loading gives.
    pub open spec fn current(&self, g: u32, d: GroupDescriptor, dev: Seq<u8>) -> Seq<bool> {
        if self.loaded().contains_key(g) {
            self.loaded()[g]
        } else {
            self.image(d, dev)
        }
    }

    /// Reading `d`'s block bitmap stays within `u64` offsets.
    pub open spec fn addressable(&self, d: GroupDescriptor) -> bool {
        d.bg_block_bitmap * self.block_size + self.block_size <= u64::MAX
    }

    /// Same parameters as `other`.
    pub open spec fn same_params(&self, other: &Self) -> bool {
        &&& self.block_size == other.block_size
        &&& self.blocks_per_group == other.blocks_per_group
        &&& self.group_count == other.group_count
        &&& self.first_group_block == other.first_group_block
        &&& self.overhead_per_group == other.overhead_per_group
    }

    /// No loaded bitmap has more bits than a group has data blocks.
    pub open spec fn bounded(&self) -> bool {
        forall|g: u32| #[trigger] self.loaded().contains_key(g) ==> self.loaded()[g].len() + self.overhead_per_group <= self.blocks_per_group
    }

    /// `descs` has a descriptor for each group, each group's bitmap is
    /// addressable and its data blocks fit in the group, and every group's
    /// blocks have `u64` numbers.
    pub open spec fn fits_descriptors(&self, descs: Seq<GroupDescriptor>) -> bool {
        &&& 0 < self.group_count <= descs.len()
        &&& self.first_group_block + self.group_count * self.blocks_per_group <= u64::MAX
        &&& forall|g: int| 0 <= g < self.group_count ==> self.addressable(#[trigger] descs[g])
            && group_data_blocks(descs[g], self.overhead_per_group) + self.overhead_per_group <= self.blocks_per_group
    }

    /// `b` is a data block whose bit is set in a loaded bitmap.
    pub open spec fn holds(&self, b: u64) -> bool {
        match spec_global_to_local(self.first_group_block, self.blocks_per_group, self.group_count, self.overhead_per_group, b) {
            Some((g, l)) => self.loaded().contains_key(g) && l < self.loaded()[g].len() && self.loaded()[g][l as int],
            None => false,
        }
    }

    /// A manager with no bitmap loaded.
    pub fn new(block_size: u32, blocks_per_group: u32, group_count: u32, first_group_block: u64, overhead_per_group: u32) -> (r: Self)
        ensures
            r.wf(),
            r.fits(),
            r.loaded() == Map::<u32, Seq<bool>>::empty(),
            r.dirty() == Set::<u32>::empty(),
            r.block_size == block_size,
            r.blocks_per_group == blocks_per_group,
            r.group_count == group_count,
            r.first_group_block == first_group_block,
            r.overhead_per_group == overhead_per_group,
    {
        GroupBitmapManager { maps: GroupBitmaps::new(), block_size, blocks_per_group, group_count, first_group_block, overhead_per_group }
    }

    /// Group and data-block index of a global block; `None` for blocks in
    /// the global area, in a group's metadata, or past the last group.
    pub fn global_to_local(&self, global_block: u64) -> (r: Option<(u32, u32)>)
        requires
            self.blocks_per_group > 0,
        ensures
            r == spec_global_to_local(self.first_group_block, self.blocks_per_group, self.group_count, self.overhead_per_group, global_block),
    {
        if global_block < self.first_group_block {
            return None;
        }
        let relative = global_block - self.first_group_block;
        let group_idx = (relative / self.blocks_per_group as u64) as u32;
        if group_idx >= self.group_count {
            return None;
        }
        let within = (relative % self.blocks_per_group as u64) as u32;
        if within < self.overhead_per_group {
            return None;
        }
        Some((group_idx, within - self.overhead_per_group))
    }

    /// Global block of a group's data block.
    pub fn local_to_global(&self, group_idx: u32, local_data_idx: u32) -> (r: u64)
        requires
            spec_local_to_global(self.first_group_block, self.blocks_per_group, self.overhead_per_group, group_idx, local_data_idx) <= u64::MAX,
        ensures
            r == spec_local_to_global(self.first_group_block, self.blocks_per_group, self.overhead_per_group, group_idx, local_data_idx),
    {
        proof {
            lemma_u32_product(group_idx, self.blocks_per_group);
        }
        self.first_group_block + group_idx as u64 * self.blocks_per_group as u64 + self.overhead_per_group as u64
            + local_data_idx as u64
    }

    fn data_blocks_in_group(&self, desc: &GroupDescriptor) -> (r: u32)
        ensures
            r == group_data_blocks(*desc, self.overhead_per_group),
    {
        let total = desc.bg_blocks_count as u32;
        total.saturating_sub(self.overhead_per_group)
    }

    /// Load group `group_idx`'s bitmap unless it is loaded.
    pub fn ensure_loaded_pub<D: CFSBlockDevice>(&mut self, dev: &mut D, group_idx: u32, descriptors: &[GroupDescriptor]) -> (r: Result<(), VolumeError>)
        requires
            old(self).wf(),
            group_idx < descriptors@.len(),
            old(self).addressable(descriptors@[group_idx as int]),
        ensures
            final(self).wf(),
            final(self).same_params(old(self)),
            final(dev).contents() == old(dev).contents(),
            final(self).dirty() == old(self).dirty(),
            old(self).loaded().contains_key(group_idx) ==> r is Ok,
            r is Ok ==> final(self).loaded() == old(self).loaded().insert(
                group_idx,
                old(self).current(group_idx, descriptors@[group_idx as int], old(dev).contents()),
            ),
            r is Err ==> final(self).loaded() == old(self).loaded(),
            r is Ok && old(self).fits() && (group_data_blocks(descriptors@[group_idx as int], old(self).overhead_per_group) + 7) / 8
                <= old(self).block_size ==> final(self).fits(),
            r is Err ==> final(self).fits() == old(self).fits(),
            r matches Err(e) ==> e is Device,
    {
        let d = descriptors[group_idx as usize];
        let n = self.data_blocks_in_group(&d);
        let uninit = d.bg_flags & BG_BLOCK_UNINIT != 0;
        let off = d.bg_block_bitmap * self.block_size as u64;
        let r = self.maps.ensure(dev, group_idx, uninit, off, self.block_size, n);
        proof {
            if old(self).loaded().contains_key(group_idx) {
                assert(old(self).loaded().insert(group_idx, old(self).loaded()[group_idx]) =~= old(self).loaded());
            }
        }
        r
    }

    /// Allocate the lowest free data block of a group: `Ok(None)` when the
    /// group is full. Counts the block off the group's descriptor and clears
    /// its lazy-init flag.
    pub fn alloc_in_group<D: CFSBlockDevice>(&mut self, dev: &mut D, group_idx: u32, descriptors: &mut Vec<GroupDescriptor>) -> (r: Result<Option<u64>, VolumeError>)
        requires
            old(self).wf(),
            group_idx < old(descriptors)@.len(),
            old(self).addressable(old(descriptors)@[group_idx as int]),
            old(self).first_group_block + group_idx * old(self).blocks_per_group + old(self).overhead_per_group
                + old(self).current(group_idx, old(descriptors)@[group_idx as int], old(dev).contents()).len() <= u64::MAX,
        ensures
            final(self).wf(),
            final(self).same_params(old(self)),
            final(dev).contents() == old(dev).contents(),
            ({
                let v = old(self).current(group_idx, old(descriptors)@[group_idx as int], old(dev).contents());
                match r {
                    Ok(Some(b)) => exists|l: int| {
                        &&& 0 <= l < v.len()
                        &&& !v[l]
                        &&& (forall|j: int| 0 <= j < l ==> v[j])
                        &&& b == spec_local_to_global(old(self).first_group_block, old(self).blocks_per_group, old(self).overhead_per_group, group_idx, l as u32)
                        &&& final(self).loaded() == old(self).loaded().insert(group_idx, v.update(l, true))
                        &&& final(self).dirty() == old(self).dirty().insert(group_idx)
                        &&& final(descriptors)@ == old(descriptors)@.update(group_idx as int, after_block_alloc(old(descriptors)@[group_idx as int]))
                    },
                    Ok(None) => {
                        &&& forall|j: int| 0 <= j < v.len() ==> v[j]
                        &&& final(self).loaded() == old(self).loaded().insert(group_idx, v)
                        &&& final(self).dirty() == old(self).dirty()
                        &&& final(descriptors)@ == old(descriptors)@
                    },
                    Err(_) => {
                        &&& final(self).loaded() == old(self).loaded()
                        &&& final(self).dirty() == old(self).dirty()
                        &&& final(descriptors)@ == old(descriptors)@
                    },
                }
            }),
    {
        self.ensure_loaded_pub(dev, group_idx, descriptors.as_slice())?;
        let ghost v = self.loaded()[group_idx];
        match self.maps.alloc_bit(group_idx) {
            Some(l) => {
                self.maps.mark_dirty(group_idx);
                let mut d = descriptors[group_idx as usize];
                d.bg_free_blocks = d.bg_free_blocks.saturating_sub(1);
                d.bg_flags = d.bg_flags & !BG_BLOCK_UNINIT;
                descriptors.set(group_idx as usize, d);
                let b = self.local_to_global(group_idx, l as u32);
                Ok(Some(b))
            },
            None => Ok(None),
        }
    }

    /// Free a data block given its global number: `OutOfRange` when it is no
    /// group's data block or lies past the group's bitmap, `DoubleFree` when
    /// it is free; else the group's free count goes up by one.
    pub fn free_block<D: CFSBlockDevice>(&mut self, dev: &mut D, global_block: u64, descriptors: &mut Vec<GroupDescriptor>) -> (r: Result<(), VolumeError>)
        requires
            old(self).wf(),
            old(self).blocks_per_group > 0,
            spec_global_to_local(old(self).first_group_block, old(self).blocks_per_group, old(self).group_count, old(self).overhead_per_group, global_block) matches Some((g, l))
                ==> g < old(descriptors)@.len() && old(self).addressable(old(descriptors)@[g as int]) && old(descriptors)@[g as int].bg_free_blocks < u32::MAX,
        ensures
            final(self).wf(),
            final(self).same_params(old(self)),
            final(dev).contents() == old(dev).contents(),
            match spec_global_to_local(old(self).first_group_block, old(self).blocks_per_group, old(self).group_count, old(self).overhead_per_group, global_block) {
                None => {
                    &&& r == Err::<(), VolumeError>(VolumeError::OutOfRange)
                    &&& final(self).loaded() == old(self).loaded()
                    &&& final(self).dirty() == old(self).dirty()
                    &&& final(descriptors)@ == old(descriptors)@
                },
                Some((g, l)) => {
                    let v = old(self).current(g, old(descriptors)@[g as int], old(dev).contents());
                    &&& r is Ok ==> {
                        &&& l < v.len() && v[l as int]
                        &&& final(self).loaded() == old(self).loaded().insert(g, v.update(l as int, false))
                        &&& final(self).dirty() == old(self).dirty().insert(g)
                        &&& final(descriptors)@ == old(descriptors)@.update(g as int, GroupDescriptor {
                            bg_free_blocks: (old(descriptors)@[g as int].bg_free_blocks + 1) as u32,
                            ..old(descriptors)@[g as int]
                        })
                    }
                    &&& r is Err ==> final(self).dirty() == old(self).dirty() && final(descriptors)@ == old(descriptors)@
                    &&& r is Err ==> final(self).loaded() == old(self).loaded() || final(self).loaded() == old(self).loaded().insert(g, v)
                    &&& old(self).loaded().contains_key(g) ==> (r is Ok <==> (l < v.len() && v[l as int]))
                    &&& r == Err::<(), VolumeError>(VolumeError::DoubleFree) ==> l < v.len() && !v[l as int]
                },
            },
    {
        let (g, l) = match self.global_to_local(global_block) {
            Some(p) => p,
            None => return Err(VolumeError::OutOfRange),
        };
        self.ensure_loaded_pub(dev, g, descriptors.as_slice())?;
        self.maps.free_bit(g, l as u64)?;
        self.maps.mark_dirty(g);
        let mut d = descriptors[g as usize];
        d.bg_free_blocks = d.bg_free_blocks + 1;
        descriptors.set(g as usize, d);
        Ok(())
    }

    /// Write every dirty group's bitmap, zero-padded to a block, over its
    /// block bitmap; afterwards no group is dirty. `BadState` when a dirty
    /// group is not loaded.
    pub fn save_all<D: CFSBlockDevice>(&mut self, dev: &mut D, descriptors: &[GroupDescriptor]) -> (r: Result<(), VolumeError>)
        requires
            old(self).wf(),
            old(self).fits(),
            forall|g: u32| #[trigger] old(self).dirty().contains(g) ==> g < descriptors@.len() && old(self).addressable(descriptors@[g as int]),
        ensures
            final(self).wf(),
            final(self).same_params(old(self)),
            final(self).loaded() == old(self).loaded(),
            r is Ok ==> final(self).dirty() == Set::<u32>::empty(),
            r is Ok ==> forall|g: u32| #[trigger] old(self).dirty().contains(g) ==> old(self).loaded().contains_key(g),
            r is Ok ==> exists|order: Seq<u32>| {
                &&& order.to_set() == old(self).dirty()
                &&& order.no_duplicates()
                &&& final(dev).contents() == write_all(old(dev).contents(), order, block_bitmap_offsets(descriptors@, old(self).block_size), old(self).block_images())
            },
            r is Err ==> final(self).dirty() == old(self).dirty(),
            r matches Err(e) ==> e is Device || e == VolumeError::BadState,
            r == Err::<(), VolumeError>(VolumeError::BadState) ==> exists|g: u32| #[trigger] old(self).dirty().contains(g)
                && !old(self).loaded().contains_key(g),
    {
        let order = self.maps.dirty_list();
        let ghost offs = block_bitmap_offsets(descriptors@, self.block_size);
        let ghost images = self.block_images();
        let ghost c0 = dev.contents();
        let mut i: usize = 0;
        while i < order.len()
            invariant
                i <= order@.len(),
                self == old(self),
                self.wf(),
                order@.to_set() == old(self).dirty(),
                order@.no_duplicates(),
                offs == block_bitmap_offsets(descriptors@, self.block_size),
                images == self.block_images(),
                self.fits(),
                forall|g: u32| #[trigger] self.dirty().contains(g) ==> g < descriptors@.len() && self.addressable(descriptors@[g as int]),
                forall|j: int| 0 <= j < i ==> self.loaded().contains_key(#[trigger] order@[j]),
                dev.contents() == write_all(c0, order@.subrange(0, i as int), offs, images),
            decreases order@.len() - i,
        {
            let g = order[i];
            proof {
                assert(order@.to_set().contains(g));
            }
            if !self.maps.contains(g) {
                proof {
                    assert(old(self).dirty().contains(g));
                }
                return Err(VolumeError::BadState);
            }
            let d = descriptors[g as usize];
            let off = d.bg_block_bitmap * self.block_size as u64;
            let image = self.maps.block_image(g, self.block_size);
            match dev.write(off, image.as_slice()) {
                Ok(()) => {},
                Err(e) => return Err(VolumeError::Device(e)),
            }
            proof {
                assert(order@.subrange(0, i + 1).drop_last() =~= order@.subrange(0, i as int));
            }
            i = i + 1;
        }
        proof {
            assert(order@.subrange(0, order@.len() as int) =~= order@);
            assert forall|g: u32| #[trigger] old(self).dirty().contains(g) implies old(self).loaded().contains_key(g) by {
                assert(order@.to_set().contains(g));
                let j = choose|j: int| 0 <= j < order@.len() && order@[j] == g;
                assert(self.loaded().contains_key(order@[j]));
            }
        }
        self.maps.clear_dirty();
        Ok(())
    }

    /// Whether some bitmap is not yet written back.
    pub fn has_dirty(&self) -> (r: bool)
        ensures
            r == !self.dirty().is_empty(),
    {
        !self.maps.dirty.is_empty()
    }

    /// Whether group `group_idx`'s bitmap is loaded.
    pub fn is_loaded(&self, group_idx: u32) -> (r: bool)
        ensures
            r == self.loaded().contains_key(group_idx),
    {
        self.maps.contains(group_idx)
    }

    /// The loaded bitmap of group `group_idx`, to change in place: `None`
    /// when it is not loaded. What the caller leaves in it becomes the
    /// group's loaded bitmap; the group is not marked dirty.
    pub fn get_bitmap_mut(&mut self, group_idx: u32) -> (r: Option<&mut Bitmap>)
        ensures
            r is Some <==> old(self).loaded().contains_key(group_idx),
            final(self).same_params(old(self)),
            final(self).dirty() == old(self).dirty(),
            match r {
                Some(b) => {
                    &&& (*b)@ == old(self).loaded()[group_idx]
                    &&& final(self).loaded() == old(self).loaded().insert(group_idx, (*final(b))@)
                    &&& old(self).wf() && (*final(b)).wf() && (*final(b))@.len() <= u32::MAX ==> final(self).wf()
                    &&& old(self).fits() && (*final(b)).spec_bytes().len() <= old(self).block_size ==> final(self).fits()
                },
                None => final(self).loaded() == old(self).loaded() && (old(self).wf() ==> final(self).wf())
                    && (old(self).fits() ==> final(self).fits()),
            },
    {
        self.maps.get_mut(group_idx)
    }

    /// Mark group `group_idx`'s bitmap as changed.
    pub fn mark_dirty(&mut self, group_idx: u32)
        ensures
            final(self).wf() == old(self).wf(),
            final(self).fits() == old(self).fits(),
            final(self).same_params(old(self)),
            final(self).loaded() == old(self).loaded(),
            final(self).dirty() == old(self).dirty().insert(group_idx),
    {
        self.maps.mark_dirty(group_idx);
    }
}

/// Per-group inode bitmaps, loaded on first use, with dirty tracking.
pub struct GroupInodeBitmapManager {
    pub maps: GroupBitmaps,
    pub block_size: u32,
    pub inodes_per_group: u32,
    pub group_count: u32,
}

impl GroupInodeBitmapManager {
    pub closed spec fn loaded(&self) -> Map<u32, Seq<bool>> {
        self.maps.loaded()
    }

    pub closed spec fn dirty(&self) -> Set<u32> {
        self.maps.dirty_set()
    }

    /// Loaded bitmaps are well formed and have one bit per inode of a group.
    pub closed spec fn wf(&self) -> bool {
        &&& self.maps.wf()
        &&& forall|g: u32| #[trigger] self.maps.loaded().contains_key(g) ==> self.maps.loaded()[g].len() == self.inodes_per_group
    }

    pub closed spec fn fits(&self) -> bool {
        self.maps.fits(self.block_size as int)
    }

    pub closed spec fn block_images(&self) -> Map<u32, Seq<u8>> {
        Map::new(|g: u32| self.maps.loaded().contains_key(g), |g: u32| padded(self.maps.bytes_of(g), self.block_size as int))
    }

    /// The bitmap that loading a group with descriptor `d` gives.
    pub open spec fn image(&self, d: GroupDescriptor, dev: Seq<u8>) -> Seq<bool> {
        if d.bg_flags & BG_INODE_UNINIT != 0 {
            Seq::new(self.inodes_per_group as nat, |i: int| false)
        } else {
            bitmap_from_device(dev, d.bg_inode_bitmap * self.block_size, self.block_size as int, self.inodes_per_group as int)
        }
    }

    pub open spec fn current(&self, g: u32, d: GroupDescriptor, dev: Seq<u8>) -> Seq<bool> {
        if self.loaded().contains_key(g) {
            self.loaded()[g]
        } else {
            self.image(d, dev)
        }
    }

    pub open spec fn addressable(&self, d: GroupDescriptor) -> bool {
        d.bg_inode_bitmap * self.block_size + self.block_size <= u64::MAX
    }

    pub open spec fn same_params(&self, other: &Self) -> bool {
        &&& self.block_size == other.block_size
        &&& self.inodes_per_group == other.inodes_per_group
        &&& self.group_count == other.group_count
    }

    /// A manager with no bitmap loaded.
    pub fn new(block_size: u32, inodes_per_group: u32, group_count: u32) -> (r: Self)
        ensures
            r.wf(),
            r.fits(),
            r.loaded() == Map::<u32, Seq<bool>>::empty(),
            r.dirty() == Set::<u32>::empty(),
            r.block_size == block_size,
            r.inodes_per_group == inodes_per_group,
            r.group_count == group_count,
    {
        GroupInodeBitmapManager { maps: GroupBitmaps::new(), block_size, inodes_per_group, group_count }
    }

    fn ensure_loaded<D: CFSBlockDevice>(&mut self, dev: &mut D, group_idx: u32, descriptors: &[GroupDescriptor]) -> (r: Result<(), VolumeError>)
        requires
            old(self).wf(),
            group_idx < descriptors@.len(),
            old(self).addressable(descriptors@[group_idx as int]),
        ensures
            final(self).wf(),
            final(self).same_params(old(self)),
            final(dev).contents() == old(dev).contents(),
            final(self).dirty() == old(self).dirty(),
            old(self).loaded().contains_key(group_idx) ==> r is Ok,
            r is Ok ==> final(self).loaded() == old(self).loaded().insert(
                group_idx,
                old(self).current(group_idx, descriptors@[group_idx as int], old(dev).contents()),
            ),
            r is Err ==> final(self).loaded() == old(self).loaded(),
            r matches Err(e) ==> e is Device,
    {
        let d = descriptors[group_idx as usize];
        let uninit = d.bg_flags & BG_INODE_UNINIT != 0;
        let off = d.bg_inode_bitmap * self.block_size as u64;
        let r = self.maps.ensure(dev, group_idx, uninit, off, self.block_size, self.inodes_per_group);
        proof {
            if old(self).loaded().contains_key(group_idx) {
                assert(old(self).loaded().insert(group_idx, old(self).loaded()[group_idx]) =~= old(self).loaded());
            }
        }
        r
    }

    /// Allocate the lowest free inode of a group, returning its global
    /// number: `Ok(None)` when the group has no free inode. Counts the inode
    /// off the group's descriptor and clears its lazy-init flag.
    pub fn alloc_in_group<D: CFSBlockDevice>(&mut self, dev: &mut D, group_idx: u32, descriptors: &mut Vec<GroupDescriptor>) -> (r: Result<Option<u32>, VolumeError>)
        requires
            old(self).wf(),
            group_idx < old(descriptors)@.len(),
            old(self).addressable(old(descriptors)@[group_idx as int]),
            (group_idx + 1) * old(self).inodes_per_group <= u32::MAX,
        ensures
            final(self).wf(),
            final(self).same_params(old(self)),
            final(dev).contents() == old(dev).contents(),
            ({
                let v = old(self).current(group_idx, old(descriptors)@[group_idx as int], old(dev).contents());
                match r {
                    Ok(Some(ino)) => exists|l: int| {
                        &&& 0 <= l < v.len()
                        &&& !v[l]
                        &&& (forall|j: int| 0 <= j < l ==> v[j])
                        &&& ino == group_idx * old(self).inodes_per_group + l
                        &&& final(self).loaded() == old(self).loaded().insert(group_idx, v.update(l, true))
                        &&& final(self).dirty() == old(self).dirty().insert(group_idx)
                        &&& final(descriptors)@ == old(descriptors)@.update(group_idx as int, after_inode_alloc(old(descriptors)@[group_idx as int]))
                    },
                    Ok(None) => {
                        &&& forall|j: int| 0 <= j < v.len() ==> v[j]
                        &&& final(self).loaded() == old(self).loaded().insert(group_idx, v)
                        &&& final(self).dirty() == old(self).dirty()
                        &&& final(descriptors)@ == old(descriptors)@
                    },
                    Err(_) => {
                        &&& final(self).loaded() == old(self).loaded()
                        &&& final(self).dirty() == old(self).dirty()
                        &&& final(descriptors)@ == old(descriptors)@
                    },
                }
            }),
    {
        self.ensure_loaded(dev, group_idx, descriptors.as_slice())?;
        let ghost v = self.loaded()[group_idx];
        match self.maps.alloc_bit(group_idx) {
            Some(l) => {
                self.maps.mark_dirty(group_idx);
                let mut d = descriptors[group_idx as usize];
                d.bg_free_inodes = d.bg_free_inodes.saturating_sub(1);
                d.bg_flags = d.bg_flags & !BG_INODE_UNINIT;
                descriptors.set(group_idx as usize, d);
                proof {
                    assert(group_idx * self.inodes_per_group + l < (group_idx + 1) * self.inodes_per_group) by (nonlinear_arith)
                        requires
                            l < self.inodes_per_group,
                    ;
                    lemma_u32_product(group_idx, self.inodes_per_group);
                    assert forall|g: u32| #[trigger] self.maps.loaded().contains_key(g) implies self.maps.loaded()[g].len() == self.inodes_per_group by {
                        if g != group_idx {
                            assert(old(self).maps.loaded().contains_key(g));
                        }
                    }
                }
                Ok(Some(group_idx * self.inodes_per_group + l as u32))
            },
            None => Ok(None),
        }
    }

    /// Free an inode given its global number: `OutOfRange` past its group's
    /// bitmap, `DoubleFree` when it is free; else the group's free-inode count
    /// goes up by one.
    pub fn free_inode<D: CFSBlockDevice>(&mut self, dev: &mut D, inode_idx: u32, descriptors: &mut Vec<GroupDescriptor>) -> (r: Result<(), VolumeError>)
        requires
            old(self).wf(),
            old(self).inodes_per_group > 0,
            inode_idx / old(self).inodes_per_group < old(descriptors)@.len(),
            old(self).addressable(old(descriptors)@[(inode_idx / old(self).inodes_per_group) as int]),
            old(descriptors)@[(inode_idx / old(self).inodes_per_group) as int].bg_free_inodes < u32::MAX,
        ensures
            final(self).wf(),
            final(self).same_params(old(self)),
            final(dev).contents() == old(dev).contents(),
            ({
                let g = (inode_idx / old(self).inodes_per_group) as u32;
                let l = inode_idx % old(self).inodes_per_group;
                let v = old(self).current(g, old(descriptors)@[g as int], old(dev).contents());
                &&& r is Ok ==> {
                    &&& v[l as int]
                    &&& final(self).loaded() == old(self).loaded().insert(g, v.update(l as int, false))
                    &&& final(self).dirty() == old(self).dirty().insert(g)
                    &&& final(descriptors)@ == old(descriptors)@.update(g as int, GroupDescriptor {
                        bg_free_inodes: (old(descriptors)@[g as int].bg_free_inodes + 1) as u32,
                        ..old(descriptors)@[g as int]
                    })
                }
                &&& r is Err ==> final(self).dirty() == old(self).dirty() && final(descriptors)@ == old(descriptors)@
                &&& old(self).loaded().contains_key(g) ==> (r is Ok <==> v[l as int])
                &&& r == Err::<(), VolumeError>(VolumeError::DoubleFree) ==> !v[l as int]
            }),
    {
        let g = inode_idx / self.inodes_per_group;
        let l = inode_idx % self.inodes_per_group;
        self.ensure_loaded(dev, g, descriptors.as_slice())?;
        self.maps.free_bit(g, l as u64)?;
        self.maps.mark_dirty(g);
        let mut d = descriptors[g as usize];
        d.bg_free_inodes = d.bg_free_inodes + 1;
        descriptors.set(g as usize, d);
        proof {
            assert forall|q: u32| #[trigger] self.maps.loaded().contains_key(q) implies self.maps.loaded()[q].len() == self.inodes_per_group by {
                if q != g {
                    assert(old(self).maps.loaded().contains_key(q));
                }
            }
        }
        Ok(())
    }

    /// Write every dirty group's inode bitmap, zero-padded to a block, over
    /// its inode bitmap; afterwards no group is dirty.
    pub fn save_all<D: CFSBlockDevice>(&mut self, dev: &mut D, descriptors: &[GroupDescriptor]) -> (r: Result<(), VolumeError>)
        requires
            old(self).wf(),
            old(self).fits(),
            forall|g: u32| #[trigger] old(self).dirty().contains(g) ==> g < descriptors@.len() && old(self).addressable(descriptors@[g as int]),
        ensures
            final(self).wf(),
            final(self).same_params(old(self)),
            final(self).loaded() == old(self).loaded(),
            r is Ok ==> final(self).dirty() == Set::<u32>::empty(),
            r is Ok ==> exists|order: Seq<u32>| {
                &&& order.to_set() == old(self).dirty()
                &&& order.no_duplicates()
                &&& final(dev).contents() == write_all(old(dev).contents(), order, inode_bitmap_offsets(descriptors@, old(self).block_size), old(self).block_images())
            },
            r is Err ==> final(self).dirty() == old(self).dirty(),
            r matches Err(e) ==> e is Device || e == VolumeError::BadState,
            r == Err::<(), VolumeError>(VolumeError::BadState) ==> exists|g: u32| #[trigger] old(self).dirty().contains(g)
                && !old(self).loaded().contains_key(g),
    {
        let order = self.maps.dirty_list();
        let ghost offs = inode_bitmap_offsets(descriptors@, self.block_size);
        let ghost images = self.block_images();
        let ghost c0 = dev.contents();
        let mut i: usize = 0;
        while i < order.len()
            invariant
                i <= order@.len(),
                self == old(self),
                self.wf(),
                order@.to_set() == old(self).dirty(),
                order@.no_duplicates(),
                offs == inode_bitmap_offsets(descriptors@, self.block_size),
                images == self.block_images(),
                self.fits(),
                forall|g: u32| #[trigger] self.dirty().contains(g) ==> g < descriptors@.len() && self.addressable(descriptors@[g as int]),
                dev.contents() == write_all(c0, order@.subrange(0, i as int), offs, images),
            decreases order@.len() - i,
        {
            let g = order[i];
            proof {
                assert(order@.to_set().contains(g));
            }
            if !self.maps.contains(g) {
                proof {
                    assert(old(self).dirty().contains(g));
                }
                return Err(VolumeError::BadState);
            }
            let d = descriptors[g as usize];
            let off = d.bg_inode_bitmap * self.block_size as u64;
            let image = self.maps.block_image(g, self.block_size);
            match dev.write(off, image.as_slice()) {
                Ok(()) => {},
                Err(e) => return Err(VolumeError::Device(e)),
            }
            proof {
                assert(order@.subrange(0, i + 1).drop_last() =~= order@.subrange(0, i as int));
            }
            i = i + 1;
        }
        proof {
            assert(order@.subrange(0, order@.len() as int) =~= order@);
        }
        self.maps.clear_dirty();
        Ok(())
    }

    /// Whether some inode bitmap is not yet written back.
    pub fn has_dirty(&self) -> (r: bool)
        ensures
            r == !self.dirty().is_empty(),
    {
        !self.maps.dirty.is_empty()
    }
}

/// Inode I/O across the inode tables of all groups.
#[derive(Debug, Clone, Copy)]
pub struct GroupInodeTable {
    pub inodes_per_group: u32,
    pub inode_size: u32,
    pub block_size: u32,
    pub group_count: u32,
}

impl GroupInodeTable {
    /// Byte offset of inode `local` of a group whose table starts at block `table`.
    pub open spec fn spec_offset(&self, table: u64, local: u32) -> int {
        table * self.block_size + local * self.inode_size
    }

    /// Inodes never straddle blocks, and every group's table is addressable.
    pub open spec fn well_laid_out(&self, descs: Seq<GroupDescriptor>) -> bool {
        &&& self.block_size > 0
        &&& self.inode_size > 0
        &&& self.inodes_per_group > 0
        &&& self.block_size % self.inode_size == 0
        &&& self.group_count <= descs.len()
        &&& forall|g: int| 0 <= g < self.group_count ==> #[trigger] descs[g].bg_inode_table * self.block_size
            + self.inodes_per_group * self.inode_size + self.block_size <= u64::MAX
    }

    pub fn new(inodes_per_group: u32, inode_size: u32, block_size: u32, group_count: u32) -> (r: Self)
        ensures
            r == (GroupInodeTable { inodes_per_group, inode_size, block_size, group_count }),
    {
        GroupInodeTable { inodes_per_group, inode_size, block_size, group_count }
    }

    /// Group and index within the group of a global inode number.
    pub fn inode_to_group(&self, inode_idx: u32) -> (r: (u32, u32))
        requires
            self.inodes_per_group > 0,
        ensures
            r == ((inode_idx / self.inodes_per_group) as u32, (inode_idx % self.inodes_per_group) as u32),
    {
        (inode_idx / self.inodes_per_group, inode_idx % self.inodes_per_group)
    }

    fn offset_of(&self, inode_idx: u32, descriptors: &[GroupDescriptor]) -> (r: u64)
        requires
            self.well_laid_out(descriptors@),
            inode_idx / self.inodes_per_group < self.group_count,
        ensures
            r == self.spec_offset(descriptors@[(inode_idx / self.inodes_per_group) as int].bg_inode_table, (inode_idx % self.inodes_per_group) as u32),
            (r as int) % (self.block_size as int) + self.inode_size <= self.block_size,
            r + self.block_size <= u64::MAX,
    {
        let (g, l) = self.inode_to_group(inode_idx);
        let d = descriptors[g as usize];
        proof {
            assert(d.bg_inode_table * self.block_size + self.inodes_per_group * self.inode_size + self.block_size <= u64::MAX);
            lemma_u32_product(l, self.inode_size);
            assert(l * self.inode_size <= self.inodes_per_group * self.inode_size) by (nonlinear_arith)
                requires
                    l < self.inodes_per_group,
            ;
            assert(d.bg_inode_table * self.block_size >= 0) by (nonlinear_arith);
            lemma_inode_within_block(d.bg_inode_table as int, self.block_size as int, self.inode_size as int, l as int);
        }
        d.bg_inode_table * self.block_size as u64 + l as u64 * self.inode_size as u64
    }

    /// Read a global inode; `OutOfRange` past the last group.
    pub fn read_inode<D: CFSBlockDevice>(&self, dev: &mut D, inode_idx: u32, descriptors: &[GroupDescriptor]) -> (r: Result<Inode, VolumeError>)
        requires
            self.well_laid_out(descriptors@),
        ensures
            final(dev).contents() == old(dev).contents(),
            inode_idx / self.inodes_per_group >= self.group_count ==> r == Err::<Inode, VolumeError>(VolumeError::OutOfRange),
            r matches Ok(i) ==> {
                let off = self.spec_offset(descriptors@[(inode_idx / self.inodes_per_group) as int].bg_inode_table, (inode_idx % self.inodes_per_group) as u32);
                &&& inode_idx / self.inodes_per_group < self.group_count
                &&& off + self.inode_size <= old(dev).contents().len()
                &&& inode_decodes(i, old(dev).contents().subrange(off, off + self.inode_size), self.inode_size)
            },
    {
        let (g, _l) = self.inode_to_group(inode_idx);
        if g >= self.group_count {
            return Err(VolumeError::OutOfRange);
        }
        let off = self.offset_of(inode_idx, descriptors);
        read_inode_at(dev, off, self.block_size, self.inode_size)
    }

    /// Write a global inode (read-modify-write of its block); `OutOfRange`
    /// past the last group.
    pub fn write_inode<D: CFSBlockDevice>(&self, dev: &mut D, inode_idx: u32, inode: &Inode, descriptors: &[GroupDescriptor]) -> (r: Result<(), VolumeError>)
        requires
            self.well_laid_out(descriptors@),
            self.inode_size == 128 || self.inode_size == 256,
        ensures
            inode_idx / self.inodes_per_group >= self.group_count ==> r == Err::<(), VolumeError>(VolumeError::OutOfRange),
            r is Ok ==> {
                let off = self.spec_offset(descriptors@[(inode_idx / self.inodes_per_group) as int].bg_inode_table, (inode_idx % self.inodes_per_group) as u32);
                &&& inode_idx / self.inodes_per_group < self.group_count
                &&& off + self.inode_size <= old(dev).contents().len()
                &&& final(dev).contents() == written(old(dev).contents(), off, inode_bytes(*inode, self.inode_size))
            },
            r is Err ==> final(dev).contents() == old(dev).contents(),
    {
        let (g, _l) = self.inode_to_group(inode_idx);
        if g >= self.group_count {
            return Err(VolumeError::OutOfRange);
        }
        let off = self.offset_of(inode_idx, descriptors);
        write_inode_at(dev, off, self.block_size, self.inode_size, inode)
    }
}

/// The groups keep their bitmap locations and sizes; free counts only drop.
pub open spec fn same_groups(a: Seq<GroupDescriptor>, b: Seq<GroupDescriptor>) -> bool {
    &&& a.len() == b.len()
    &&& forall|g: int| 0 <= g < a.len() ==> {
        &&& (#[trigger] a[g]).bg_block_bitmap == b[g].bg_block_bitmap
        &&& a[g].bg_inode_bitmap == b[g].bg_inode_bitmap
        &&& a[g].bg_blocks_count == b[g].bg_blocks_count
        &&& a[g].bg_free_blocks <= b[g].bg_free_blocks
    }
}

/// Data block `b` of one of the groups is marked allocated in its group's
/// bitmap as it stands (loaded, else on the device).
pub open spec fn in_use(gbm: &GroupBitmapManager, descs: Seq<GroupDescriptor>, dev: Seq<u8>, b: u64) -> bool {
    &&& gbm.first_group_block <= b < gbm.first_group_block + gbm.group_count * gbm.blocks_per_group
    &&& match spec_global_to_local(gbm.first_group_block, gbm.blocks_per_group, gbm.group_count, gbm.overhead_per_group, b) {
        Some((g, l)) => {
            let v = gbm.current(g, descs[g as int], dev);
            l < v.len() && v[l as int]
        },
        None => false,
    }
}

/// Replacing group `g`'s loaded bitmap by `w` (the other descriptors kept)
/// changes only whether the blocks of group `g` are in use.
proof fn lemma_in_use_frame(
    g0: GroupBitmapManager,
    g1: GroupBitmapManager,
    d0: Seq<GroupDescriptor>,
    d1: Seq<GroupDescriptor>,
    dev: Seq<u8>,
    g: u32,
    w: Seq<bool>,
)
    requires
        g1.same_params(&g0),
        g1.loaded() == g0.loaded().insert(g, w),
        d1.len() == d0.len(),
        g0.group_count <= d0.len(),
        forall|q: int| 0 <= q < d0.len() && q != g ==> d1[q] == d0[q],
    ensures
        forall|b: u64| #[trigger] in_use(&g1, d1, dev, b) == match spec_global_to_local(g0.first_group_block, g0.blocks_per_group, g0.group_count, g0.overhead_per_group, b) {
            Some((h, l)) => if h == g {
                g0.first_group_block <= b < g0.first_group_block + g0.group_count * g0.blocks_per_group && l < w.len() && w[l as int]
            } else {
                in_use(&g0, d0, dev, b)
            },
            None => false,
        },
{
    assert forall|b: u64| #[trigger] in_use(&g1, d1, dev, b) == match spec_global_to_local(g0.first_group_block, g0.blocks_per_group, g0.group_count, g0.overhead_per_group, b) {
        Some((h, l)) => if h == g {
            g0.first_group_block <= b < g0.first_group_block + g0.group_count * g0.blocks_per_group && l < w.len() && w[l as int]
        } else {
            in_use(&g0, d0, dev, b)
        },
        None => false,
    } by {
        if let Some((h, l)) = spec_global_to_local(g0.first_group_block, g0.blocks_per_group, g0.group_count, g0.overhead_per_group, b) {
            if h != g {
                assert(d1[h as int] == d0[h as int]);
                assert(g1.loaded().contains_key(h) == g0.loaded().contains_key(h));
                if g0.loaded().contains_key(h) {
                    assert(g1.loaded()[h] == g0.loaded()[h]);
                }
                assert(g1.current(h, d1[h as int], dev) == g0.current(h, d0[h as int], dev));
            } else {
                assert(g1.current(h, d1[h as int], dev) == w);
            }
        }
    }
}

/// Two data blocks of the groups with one group and index are one block.
proof fn lemma_slot_injective(gbm: GroupBitmapManager, b1: u64, b2: u64)
    requires
        gbm.blocks_per_group > 0,
        gbm.first_group_block <= b1 < gbm.first_group_block + gbm.group_count * gbm.blocks_per_group,
        gbm.first_group_block <= b2 < gbm.first_group_block + gbm.group_count * gbm.blocks_per_group,
        spec_global_to_local(gbm.first_group_block, gbm.blocks_per_group, gbm.group_count, gbm.overhead_per_group, b1) is Some,
        spec_global_to_local(gbm.first_group_block, gbm.blocks_per_group, gbm.group_count, gbm.overhead_per_group, b1)
            == spec_global_to_local(gbm.first_group_block, gbm.blocks_per_group, gbm.group_count, gbm.overhead_per_group, b2),
    ensures
        b1 == b2,
{
    let fgb = gbm.first_group_block;
    let bpg = gbm.blocks_per_group;
    let gc = gbm.group_count;
    assert((b1 - fgb) / (bpg as int) <= u32::MAX) by {
        vstd::arithmetic::div_mod::lemma_div_is_ordered(b1 - fgb, gc * bpg, bpg as int);
        vstd::arithmetic::div_mod::lemma_div_multiples_vanish(gc as int, bpg as int);
    }
    assert((b2 - fgb) / (bpg as int) <= u32::MAX) by {
        vstd::arithmetic::div_mod::lemma_div_is_ordered(b2 - fgb, gc * bpg, bpg as int);
        vstd::arithmetic::div_mod::lemma_div_multiples_vanish(gc as int, bpg as int);
    }
    crate::group::lemma_global_local_inverse(fgb, bpg, gc, gbm.overhead_per_group, b1);
    crate::group::lemma_global_local_inverse(fgb, bpg, gc, gbm.overhead_per_group, b2);
}

/// Blocks that `gbm` holds, each once.
pub open spec fn all_held(gbm: &GroupBitmapManager, v: Seq<u64>) -> bool {
    &&& v.no_duplicates()
    &&& forall|i: int| 0 <= i < v.len() ==> gbm.holds(#[trigger] v[i])
}

/// Allocate from group `g` until `allocated` has `count` blocks or the group is full.
fn take_from_group<D: CFSBlockDevice>(
    gbm: &mut GroupBitmapManager,
    dev: &mut D,
    g: u32,
    count: usize,
    allocated: &mut Vec<u64>,
    descriptors: &mut Vec<GroupDescriptor>,
) -> (r: Result<(), VolumeError>)
    requires
        old(gbm).wf(),
        old(gbm).bounded(),
        old(gbm).fits_descriptors(old(descriptors)@),
        g < old(gbm).group_count,
        all_held(&*old(gbm), old(allocated)@),
    ensures
        final(gbm).wf(),
        final(gbm).bounded(),
        final(gbm).same_params(old(gbm)),
        final(gbm).fits_descriptors(final(descriptors)@),
        same_groups(final(descriptors)@, old(descriptors)@),
        all_held(&*final(gbm), final(allocated)@),
        final(dev).contents() == old(dev).contents(),
        final(allocated)@.len() >= old(allocated)@.len(),
        final(allocated)@.subrange(0, old(allocated)@.len() as int) == old(allocated)@,
        old(allocated)@.len() <= count ==> final(allocated)@.len() <= count,
        old(allocated)@.len() > count ==> final(allocated)@ == old(allocated)@,
        r is Ok ==> final(allocated)@.len() >= count || (final(gbm).loaded().contains_key(g) && forall|j: int|
            0 <= j < final(gbm).loaded()[g].len() ==> #[trigger] final(gbm).loaded()[g][j]),
        forall|b: u64| #[trigger] in_use(&*final(gbm), final(descriptors)@, final(dev).contents(), b)
            == (in_use(&*old(gbm), old(descriptors)@, old(dev).contents(), b)
            || final(allocated)@.subrange(old(allocated)@.len() as int, final(allocated)@.len() as int).contains(b)),
        forall|k: int| old(allocated)@.len() <= k < final(allocated)@.len()
            ==> !in_use(&*old(gbm), old(descriptors)@, old(dev).contents(), #[trigger] final(allocated)@[k]),
{
    proof {
        assert(allocated@.subrange(old(allocated)@.len() as int, allocated@.len() as int) =~= Seq::<u64>::empty());
    }
    while allocated.len() < count
        invariant
            forall|b: u64| #[trigger] in_use(&*gbm, descriptors@, dev.contents(), b)
                == (in_use(&*old(gbm), old(descriptors)@, old(dev).contents(), b)
                || allocated@.subrange(old(allocated)@.len() as int, allocated@.len() as int).contains(b)),
            forall|k: int| old(allocated)@.len() <= k < allocated@.len()
                ==> !in_use(&*old(gbm), old(descriptors)@, old(dev).contents(), #[trigger] allocated@[k]),
            gbm.wf(),
            gbm.bounded(),
            gbm.same_params(old(gbm)),
            gbm.fits_descriptors(descriptors@),
            same_groups(descriptors@, old(descriptors)@),
            g < gbm.group_count,
            all_held(&*gbm, allocated@),
            dev.contents() == old(dev).contents(),
            allocated@.len() >= old(allocated)@.len(),
            allocated@.subrange(0, old(allocated)@.len() as int) == old(allocated)@,
            old(allocated)@.len() <= count ==> allocated@.len() <= count,
            old(allocated)@.len() > count ==> allocated@ == old(allocated)@,
        ensures
            allocated@.len() >= count || (gbm.loaded().contains_key(g) && forall|j: int|
                0 <= j < gbm.loaded()[g].len() ==> #[trigger] gbm.loaded()[g][j]),
        decreases count - allocated@.len(),
    {
        let ghost v = gbm.current(g, descriptors@[g as int], dev.contents());
        let ghost old_gbm = *gbm;
        let ghost old_alloc = allocated@;
        let ghost old_descs = descriptors@;
        proof {
            assert(v.len() + gbm.overhead_per_group <= gbm.blocks_per_group) by {
                if !gbm.loaded().contains_key(g) {
                    assert(gbm.addressable(descriptors@[g as int]));
                }
            }
            assert(gbm.first_group_block + g * gbm.blocks_per_group + gbm.blocks_per_group <= u64::MAX) by (nonlinear_arith)
                requires
                    gbm.first_group_block + gbm.group_count * gbm.blocks_per_group <= u64::MAX,
                    g < gbm.group_count,
            ;
        }
        let res = gbm.alloc_in_group(dev, g, descriptors);
        let got = match res {
            Ok(x) => x,
            Err(e) => {
                proof {
                    assert forall|b0: u64| #[trigger] in_use(&*gbm, descriptors@, dev.contents(), b0) == in_use(&old_gbm, old_descs, dev.contents(), b0) by {
                        if let Some((h, l0)) = spec_global_to_local(gbm.first_group_block, gbm.blocks_per_group, gbm.group_count, gbm.overhead_per_group, b0) {
                            assert(gbm.current(h, descriptors@[h as int], dev.contents()) == old_gbm.current(h, old_descs[h as int], dev.contents()));
                        }
                    }
                }
                return Err(e);
            },
        };
        let ghost d_mid = descriptors@;
        match got {
            Some(b) => {
                proof {
                    let l = choose|l: int| {
                        &&& 0 <= l < v.len()
                        &&& !v[l]
                        &&& (forall|j: int| 0 <= j < l ==> v[j])
                        &&& b == spec_local_to_global(old_gbm.first_group_block, old_gbm.blocks_per_group, old_gbm.overhead_per_group, g, l as u32)
                        &&& gbm.loaded() == old_gbm.loaded().insert(g, v.update(l, true))
                        &&& gbm.dirty() == old_gbm.dirty().insert(g)
                        &&& descriptors@ == old_descs.update(g as int, after_block_alloc(old_descs[g as int]))
                    };
                    crate::group::lemma_local_global_roundtrip(gbm.first_group_block, gbm.blocks_per_group, gbm.group_count, gbm.overhead_per_group, g, l as u32);
                    assert(gbm.holds(b));
                    assert(b < gbm.first_group_block + gbm.group_count * gbm.blocks_per_group) by (nonlinear_arith)
                        requires
                            b == gbm.first_group_block + g * gbm.blocks_per_group + gbm.overhead_per_group + l,
                            gbm.overhead_per_group + l < gbm.blocks_per_group,
                            g < gbm.group_count,
                    ;
                    lemma_in_use_frame(old_gbm, *gbm, old_descs, descriptors@, dev.contents(), g, v.update(l, true));
                    assert(!in_use(&old_gbm, old_descs, dev.contents(), b));
                    assert forall|b0: u64| #[trigger] in_use(&*gbm, descriptors@, dev.contents(), b0)
                        == (in_use(&old_gbm, old_descs, dev.contents(), b0) || b0 == b) by {
                        if let Some((h, l0)) = spec_global_to_local(gbm.first_group_block, gbm.blocks_per_group, gbm.group_count, gbm.overhead_per_group, b0) {
                            if h == g && gbm.first_group_block <= b0 < gbm.first_group_block + gbm.group_count * gbm.blocks_per_group {
                                if l0 == l {
                                    lemma_slot_injective(*gbm, b0, b);
                                }
                                if b0 == b {
                                    assert(l0 == l);
                                }
                            }
                        }
                    }
                    assert forall|i: int| 0 <= i < old_alloc.len() implies gbm.holds(#[trigger] old_alloc[i]) && old_alloc[i] != b by {
                        assert(old_gbm.holds(old_alloc[i]));
                    }
                    assert forall|q: u32| #[trigger] gbm.loaded().contains_key(q) implies gbm.loaded()[q].len() + gbm.overhead_per_group <= gbm.blocks_per_group by {
                        if q != g {
                            assert(old_gbm.loaded().contains_key(q));
                        }
                    }
                    assert forall|q: int| 0 <= q < gbm.group_count implies gbm.addressable(#[trigger] descriptors@[q])
                        && group_data_blocks(descriptors@[q], gbm.overhead_per_group) + gbm.overhead_per_group <= gbm.blocks_per_group by {
                        assert(old_gbm.addressable(old_descs[q]));
                    }
                }
                allocated.push(b);
                proof {
                    assert(allocated@.subrange(0, old(allocated)@.len() as int) =~= old(allocated)@);
                    let ns = allocated@.subrange(old(allocated)@.len() as int, allocated@.len() as int);
                    let ps = old_alloc.subrange(old(allocated)@.len() as int, old_alloc.len() as int);
                    assert(ns =~= ps.push(b));
                    assert forall|b0: u64| #[trigger] in_use(&*gbm, descriptors@, dev.contents(), b0)
                        == (in_use(&*old(gbm), old(descriptors)@, old(dev).contents(), b0) || ns.contains(b0)) by {
                        assert(in_use(&*gbm, descriptors@, dev.contents(), b0) == (in_use(&old_gbm, old_descs, dev.contents(), b0) || b0 == b));
                        assert(in_use(&old_gbm, old_descs, dev.contents(), b0) == (in_use(&*old(gbm), old(descriptors)@, old(dev).contents(), b0) || ps.contains(b0)));
                        if ps.contains(b0) {
                            let t = choose|t: int| 0 <= t < ps.len() && ps[t] == b0;
                            assert(ns[t] == b0);
                        }
                        if b0 == b {
                            assert(ns[ps.len() as int] == b);
                        }
                        if ns.contains(b0) {
                            let t = choose|t: int| 0 <= t < ns.len() && ns[t] == b0;
                            if t < ps.len() {
                                assert(ps[t] == b0);
                            }
                        }
                    }
                    assert forall|i: int| 0 <= i < allocated@.len() implies gbm.holds(#[trigger] allocated@[i]) by {
                        if i < old_alloc.len() {
                            assert(allocated@[i] == old_alloc[i]);
                        }
                    }
                    assert(allocated@.no_duplicates()) by {
                        assert forall|i: int, j: int| 0 <= i < j < allocated@.len() implies allocated@[i] != allocated@[j] by {
                            if j < old_alloc.len() {
                                assert(allocated@[i] == old_alloc[i] && allocated@[j] == old_alloc[j]);
                            } else {
                                assert(allocated@[i] == old_alloc[i]);
                            }
                        }
                    }
                }
            },
            None => {
                proof {
                    lemma_in_use_frame(old_gbm, *gbm, old_descs, descriptors@, dev.contents(), g, v);
                    assert forall|b0: u64| #[trigger] in_use(&*gbm, descriptors@, dev.contents(), b0) == in_use(&old_gbm, old_descs, dev.contents(), b0) by {
                        if let Some((h, l0)) = spec_global_to_local(gbm.first_group_block, gbm.blocks_per_group, gbm.group_count, gbm.overhead_per_group, b0) {
                            if h == g {
                                assert(old_gbm.current(h, old_descs[h as int], dev.contents()) == v);
                            }
                        }
                    }
                    assert forall|q: u32| #[trigger] gbm.loaded().contains_key(q) implies gbm.loaded()[q].len() + gbm.overhead_per_group <= gbm.blocks_per_group by {
                        if q != g {
                            assert(old_gbm.loaded().contains_key(q));
                        }
                    }
                    assert forall|i: int| 0 <= i < allocated@.len() implies gbm.holds(#[trigger] allocated@[i]) by {
                        assert(old_gbm.holds(allocated@[i]));
                    }
                }
                break;
            },
        }
    }
    Ok(())
}

/// Take `n` consecutive data blocks in group `group_idx`: the first free
/// run in its bitmap (loaded first when needed), counted off its
/// descriptor. `Ok(None)` when the group does not exist, its descriptor
/// counts fewer than `n` free blocks, or it has no such run.
pub fn try_contiguous_in_group<D: CFSBlockDevice>(
    gbm: &mut GroupBitmapManager,
    dev: &mut D,
    gdt: &mut Vec<GroupDescriptor>,
    group_idx: u32,
    n: u64,
) -> (r: Result<Option<AllocRun>, VolumeError>)
    requires
        old(gbm).wf(),
        old(gbm).bounded(),
        old(gbm).fits_descriptors(old(gdt)@),
        old(gdt)@.len() == old(gbm).group_count,
    ensures
        final(gbm).wf(),
        final(gbm).bounded(),
        final(gbm).same_params(old(gbm)),
        final(gbm).fits_descriptors(final(gdt)@),
        same_groups(final(gdt)@, old(gdt)@),
        final(dev).contents() == old(dev).contents(),
        group_idx >= old(gbm).group_count || old(gdt)@[group_idx as int].bg_free_blocks < n ==> r matches Ok(None),
        r matches Ok(Some(run)) ==> {
            let d = old(gdt)@[group_idx as int];
            let v = old(gbm).current(group_idx, d, old(dev).contents());
            &&& run.count == n
            &&& n > 0
            &&& group_idx < old(gbm).group_count
            &&& run.start + n <= u64::MAX
            &&& d.bg_free_blocks >= n
            &&& final(gdt)@ == old(gdt)@.update(group_idx as int, GroupDescriptor { bg_free_blocks: (d.bg_free_blocks - n) as u32, ..d })
            &&& final(gbm).dirty() == old(gbm).dirty().insert(group_idx)
            &&& exists|l: int| {
                &&& #[trigger] is_first_window(v, l, n as int, 0, v.len() as int)
                &&& run.start == spec_local_to_global(old(gbm).first_group_block, old(gbm).blocks_per_group, old(gbm).overhead_per_group, group_idx, l as u32)
                &&& final(gbm).loaded() == old(gbm).loaded().insert(group_idx, set_range(v, l, n as int))
            }
        },
        r matches Ok(None) ==> final(gdt)@ == old(gdt)@,
        r matches Ok(None) && group_idx < old(gbm).group_count && old(gdt)@[group_idx as int].bg_free_blocks >= n && n > 0 ==> {
            let v = old(gbm).current(group_idx, old(gdt)@[group_idx as int], old(dev).contents());
            forall|t: int| !#[trigger] free_window(v, t, n as int, 0, v.len() as int)
        },
{
    if group_idx >= gbm.group_count {
        return Ok(None);
    }
    if (gdt[group_idx as usize].bg_free_blocks as u64) < n {
        return Ok(None);
    }
    let ghost g0 = *gbm;
    let ghost d = gdt@[group_idx as int];
    let ghost v = gbm.current(group_idx, d, dev.contents());
    proof {
        assert(v.len() + gbm.overhead_per_group <= gbm.blocks_per_group) by {
            if !gbm.loaded().contains_key(group_idx) {
                assert(gbm.addressable(gdt@[group_idx as int]));
            }
        }
        assert(gbm.first_group_block + group_idx * gbm.blocks_per_group + gbm.blocks_per_group <= u64::MAX) by (nonlinear_arith)
            requires
                gbm.first_group_block + gbm.group_count * gbm.blocks_per_group <= u64::MAX,
                group_idx < gbm.group_count,
        ;
        assert(gbm.addressable(gdt@[group_idx as int]));
    }
    gbm.ensure_loaded_pub(dev, group_idx, gdt.as_slice())?;
    let ghost g1 = *gbm;
    proof {
        assert forall|q: u32| #[trigger] g1.loaded().contains_key(q) implies g1.loaded()[q].len() + g1.overhead_per_group <= g1.blocks_per_group by {
            if q != group_idx {
                assert(g0.loaded().contains_key(q));
            }
        }
    }
    match gbm.maps.take_run(group_idx, n) {
        Some(l) => {
            gbm.maps.mark_dirty(group_idx);
            let mut dd = gdt[group_idx as usize];
            dd.bg_free_blocks = dd.bg_free_blocks - n as u32;
            let ghost old_gdt = gdt@;
            gdt.set(group_idx as usize, dd);
            proof {
                assert(l + n <= v.len());
                assert(gbm.first_group_block + group_idx * gbm.blocks_per_group + gbm.overhead_per_group + l + n <= u64::MAX);
                assert forall|q: u32| #[trigger] gbm.loaded().contains_key(q) implies gbm.loaded()[q].len() + gbm.overhead_per_group <= gbm.blocks_per_group by {
                    if q != group_idx {
                        assert(g1.loaded().contains_key(q));
                    }
                }
                assert forall|q: int| 0 <= q < gbm.group_count implies gbm.addressable(#[trigger] gdt@[q])
                    && group_data_blocks(gdt@[q], gbm.overhead_per_group) + gbm.overhead_per_group <= gbm.blocks_per_group by {
                    assert(g0.addressable(old_gdt[q]));
                }
            }
            let start = gbm.local_to_global(group_idx, l as u32);
            proof {
                assert(is_first_window(v, l as int, n as int, 0, v.len() as int));
            }
            Ok(Some(AllocRun { start, count: n }))
        },
        None => {
            proof {
                assert forall|q: u32| #[trigger] gbm.loaded().contains_key(q) implies gbm.loaded()[q].len() + gbm.overhead_per_group <= gbm.blocks_per_group by {
                    assert(g1.loaded().contains_key(q));
                }
            }
            Ok(None)
        },
    }
}

/// The superblock with `n` fewer free blocks (none left when it counted
/// fewer than `n`).
pub open spec fn sb_minus_blocks(sb: Superblock, n: int) -> Superblock {
    Superblock { free_blocks: if sb.free_blocks >= n { (sb.free_blocks - n) as u64 } else { 0 }, ..sb }
}

/// The blocks in use after another `take_from_group` are those in use at
/// first and those taken so far, none of which was in use at first.
proof fn lemma_take_step(
    g0: GroupBitmapManager,
    d0: Seq<GroupDescriptor>,
    g1: GroupBitmapManager,
    d1: Seq<GroupDescriptor>,
    g2: GroupBitmapManager,
    d2: Seq<GroupDescriptor>,
    dev: Seq<u8>,
    a1: Seq<u64>,
    a2: Seq<u64>,
)
    requires
        forall|b: u64| #[trigger] in_use(&g1, d1, dev, b) == (in_use(&g0, d0, dev, b) || a1.contains(b)),
        forall|k: int| 0 <= k < a1.len() ==> !in_use(&g0, d0, dev, #[trigger] a1[k]),
        forall|b: u64| #[trigger] in_use(&g2, d2, dev, b) == (in_use(&g1, d1, dev, b) || a2.subrange(a1.len() as int, a2.len() as int).contains(b)),
        forall|k: int| a1.len() <= k < a2.len() ==> !in_use(&g1, d1, dev, #[trigger] a2[k]),
        a2.len() >= a1.len(),
        a2.subrange(0, a1.len() as int) == a1,
    ensures
        forall|b: u64| #[trigger] in_use(&g2, d2, dev, b) == (in_use(&g0, d0, dev, b) || a2.contains(b)),
        forall|k: int| 0 <= k < a2.len() ==> !in_use(&g0, d0, dev, #[trigger] a2[k]),
{
    let ns = a2.subrange(a1.len() as int, a2.len() as int);
    assert forall|b: u64| #[trigger] in_use(&g2, d2, dev, b) == (in_use(&g0, d0, dev, b) || a2.contains(b)) by {
        assert(in_use(&g2, d2, dev, b) == (in_use(&g1, d1, dev, b) || ns.contains(b)));
        assert(in_use(&g1, d1, dev, b) == (in_use(&g0, d0, dev, b) || a1.contains(b)));
        if a1.contains(b) {
            let t = choose|t: int| 0 <= t < a1.len() && a1[t] == b;
            assert(a2.subrange(0, a1.len() as int)[t] == b);
        }
        if ns.contains(b) {
            let t = choose|t: int| 0 <= t < ns.len() && ns[t] == b;
            assert(a2[a1.len() + t] == b);
        }
        if a2.contains(b) {
            let t = choose|t: int| 0 <= t < a2.len() && a2[t] == b;
            if t < a1.len() {
                assert(a1[t] == a2.subrange(0, a1.len() as int)[t]);
            } else {
                assert(ns[t - a1.len()] == b);
            }
        }
    }
    assert forall|k: int| 0 <= k < a2.len() implies !in_use(&g0, d0, dev, #[trigger] a2[k]) by {
        if k < a1.len() {
            assert(a2[k] == a2.subrange(0, a1.len() as int)[k]);
            assert(a2[k] == a1[k]);
        } else {
            assert(!in_use(&g1, d1, dev, a2[k]));
        }
    }
}

/// Allocate `count` data blocks, preferring the group of `hint_block` (group
/// 0 when it is no data block), then groups at growing distance from it
/// (above before below), then every group in order. When fewer than
/// `count` are free, the blocks taken are freed again and the result is
/// `NoSpace`.
pub fn alloc_blocks_near<D: CFSBlockDevice>(
    gbm: &mut GroupBitmapManager,
    dev: &mut D,
    hint_block: u64,
    count: usize,
    descriptors: &mut Vec<GroupDescriptor>,
    superblock: &mut Superblock,
) -> (r: Result<Vec<u64>, VolumeError>)
    requires
        old(gbm).wf(),
        old(gbm).bounded(),
        old(gbm).blocks_per_group > 0,
        old(gbm).fits_descriptors(old(descriptors)@),
        forall|g: int| 0 <= g < old(descriptors)@.len() ==> (#[trigger] old(descriptors)@[g]).bg_free_blocks + count <= u32::MAX,
    ensures
        final(descriptors)@.len() == old(descriptors)@.len(),
        final(gbm).wf(),
        final(gbm).bounded(),
        final(gbm).same_params(old(gbm)),
        final(gbm).fits_descriptors(final(descriptors)@),
        match r {
            Ok(v) => {
                &&& v@.len() == count
                &&& all_held(&*final(gbm), v@)
                &&& *final(superblock) == sb_minus_blocks(*old(superblock), count as int)
            },
            Err(_) => *final(superblock) == *old(superblock),
        },
        final(dev).contents() == old(dev).contents(),
        r matches Ok(v) ==> forall|b: u64| #[trigger] in_use(&*final(gbm), final(descriptors)@, final(dev).contents(), b)
            == (in_use(&*old(gbm), old(descriptors)@, old(dev).contents(), b) || v@.contains(b)),
        r matches Ok(v) ==> forall|k: int| 0 <= k < v@.len() ==> !in_use(&*old(gbm), old(descriptors)@, old(dev).contents(), #[trigger] v@[k]),
        r is Err ==> forall|b: u64| #[trigger] in_use(&*final(gbm), final(descriptors)@, final(dev).contents(), b)
            == in_use(&*old(gbm), old(descriptors)@, old(dev).contents(), b),
{
    let ghost orig = descriptors@;
    let mut allocated: Vec<u64> = Vec::new();
    let preferred = match gbm.global_to_local(hint_block) {
        Some((g, _)) => g,
        None => 0,
    };
    let gc = gbm.group_count;
    proof {
        assert forall|b: u64| #[trigger] in_use(&*gbm, descriptors@, dev.contents(), b) == (in_use(&*old(gbm), old(descriptors)@, old(dev).contents(), b) || allocated@.contains(b)) by {}
    }
    let ghost (gp, dp, ap) = (*gbm, descriptors@, allocated@);
    let phase = take_from_group(gbm, dev, preferred, count, &mut allocated, descriptors);
    proof {
        lemma_take_step(*old(gbm), old(descriptors)@, gp, dp, *gbm, descriptors@, dev.contents(), ap, allocated@);
    }
    let mut failed = phase.is_err();
    if !failed && allocated.len() < count {
        let max_radius = gc / 2 + 1;
        let mut radius: u32 = 1;
        while radius <= max_radius
            invariant
                gbm.wf(),
                gbm.bounded(),
                gbm.same_params(old(gbm)),
                gbm.fits_descriptors(descriptors@),
                same_groups(descriptors@, orig),
                dev.contents() == old(dev).contents(),
                forall|b: u64| #[trigger] in_use(&*gbm, descriptors@, dev.contents(), b) == (in_use(&*old(gbm), old(descriptors)@, old(dev).contents(), b) || allocated@.contains(b)),
                forall|k: int| 0 <= k < allocated@.len() ==> !in_use(&*old(gbm), old(descriptors)@, old(dev).contents(), #[trigger] allocated@[k]),
                all_held(&*gbm, allocated@),
                allocated@.len() <= count,
                gc == gbm.group_count,
                preferred < gc,
                max_radius == gc / 2 + 1,
                1 <= radius <= max_radius + 1,
            decreases max_radius + 1 - radius,
        {
            let up = preferred.wrapping_add(radius);
            if up < gc {
                let ghost (gp, dp, ap) = (*gbm, descriptors@, allocated@);
                let step = take_from_group(gbm, dev, up, count, &mut allocated, descriptors);
                proof {
                    lemma_take_step(*old(gbm), old(descriptors)@, gp, dp, *gbm, descriptors@, dev.contents(), ap, allocated@);
                }
                if step.is_err() {
                    failed = true;
                    break;
                }
            }
            if allocated.len() >= count {
                break;
            }
            let down = preferred.wrapping_sub(radius);
            if down < gc {
                let ghost (gp, dp, ap) = (*gbm, descriptors@, allocated@);
                let step = take_from_group(gbm, dev, down, count, &mut allocated, descriptors);
                proof {
                    lemma_take_step(*old(gbm), old(descriptors)@, gp, dp, *gbm, descriptors@, dev.contents(), ap, allocated@);
                }
                if step.is_err() {
                    failed = true;
                    break;
                }
            }
            if allocated.len() >= count {
                break;
            }
            radius = radius + 1;
        }
    }
    if !failed && allocated.len() < count {
        let mut g: u32 = 0;
        while g < gc
            invariant
                gbm.wf(),
                gbm.bounded(),
                gbm.same_params(old(gbm)),
                gbm.fits_descriptors(descriptors@),
                same_groups(descriptors@, orig),
                dev.contents() == old(dev).contents(),
                forall|b: u64| #[trigger] in_use(&*gbm, descriptors@, dev.contents(), b) == (in_use(&*old(gbm), old(descriptors)@, old(dev).contents(), b) || allocated@.contains(b)),
                forall|k: int| 0 <= k < allocated@.len() ==> !in_use(&*old(gbm), old(descriptors)@, old(dev).contents(), #[trigger] allocated@[k]),
                all_held(&*gbm, allocated@),
                allocated@.len() <= count,
                gc == gbm.group_count,
                g <= gc,
            decreases gc - g,
        {
            let ghost (gp, dp, ap) = (*gbm, descriptors@, allocated@);
            let step = take_from_group(gbm, dev, g, count, &mut allocated, descriptors);
            proof {
                lemma_take_step(*old(gbm), old(descriptors)@, gp, dp, *gbm, descriptors@, dev.contents(), ap, allocated@);
            }
            if step.is_err() {
                failed = true;
                break;
            }
            if allocated.len() >= count {
                break;
            }
            g = g + 1;
        }
    }
    if failed || allocated.len() < count {
        proof {
            assert(allocated@.subrange(0, allocated@.len() as int) =~= allocated@);
        }
        let mut i: usize = 0;
        while i < allocated.len()
            invariant
                gbm.wf(),
                gbm.bounded(),
                gbm.same_params(old(gbm)),
                gbm.blocks_per_group > 0,
                gbm.fits_descriptors(descriptors@),
                descriptors@.len() == orig.len(),
                forall|q: int| 0 <= q < orig.len() ==> {
                    &&& (#[trigger] descriptors@[q]).bg_block_bitmap == orig[q].bg_block_bitmap
                    &&& descriptors@[q].bg_blocks_count == orig[q].bg_blocks_count
                    &&& descriptors@[q].bg_free_blocks <= orig[q].bg_free_blocks + i
                },
                forall|q: int| 0 <= q < orig.len() ==> (#[trigger] orig[q]).bg_free_blocks + count <= u32::MAX,
                allocated@.len() <= count,
                i <= allocated@.len(),
                *superblock == *old(superblock),
                dev.contents() == old(dev).contents(),
                allocated@.no_duplicates(),
                forall|k: int| i <= k < allocated@.len() ==> gbm.holds(#[trigger] allocated@[k]),
                forall|k: int| 0 <= k < allocated@.len() ==> !in_use(&*old(gbm), old(descriptors)@, old(dev).contents(), #[trigger] allocated@[k]),
                forall|b: u64| #[trigger] in_use(&*gbm, descriptors@, dev.contents(), b)
                    == (in_use(&*old(gbm), old(descriptors)@, old(dev).contents(), b) || allocated@.subrange(i as int, allocated@.len() as int).contains(b)),
            decreases allocated@.len() - i,
        {
            let b = allocated[i];
            let ghost before = descriptors@;
            let ghost g_before = *gbm;
            proof {
                assert(allocated@.subrange(i as int, allocated@.len() as int)[0] == b);
                assert(in_use(&*gbm, descriptors@, dev.contents(), b));
            }
            proof {
                if let Some((g, l)) = spec_global_to_local(gbm.first_group_block, gbm.blocks_per_group, gbm.group_count, gbm.overhead_per_group, b) {
                    assert(gbm.addressable(descriptors@[g as int]));
                    assert(descriptors@[g as int].bg_free_blocks <= orig[g as int].bg_free_blocks + i);
                }
            }
            let _ = gbm.free_block(dev, b, descriptors);
            proof {
                let (g, l) = spec_global_to_local(gbm.first_group_block, gbm.blocks_per_group, gbm.group_count, gbm.overhead_per_group, b)->0;
                let v = g_before.current(g, before[g as int], dev.contents());
                assert(g_before.loaded().contains_key(g));
                assert(v == g_before.loaded()[g]);
                assert(gbm.loaded() == g_before.loaded().insert(g, v.update(l as int, false)));
                lemma_in_use_frame(g_before, *gbm, before, descriptors@, dev.contents(), g, v.update(l as int, false));
                let s0 = allocated@.subrange(i as int, allocated@.len() as int);
                let s1 = allocated@.subrange(i + 1, allocated@.len() as int);
                assert forall|b0: u64| #[trigger] in_use(&*gbm, descriptors@, dev.contents(), b0)
                    == (in_use(&*old(gbm), old(descriptors)@, old(dev).contents(), b0) || s1.contains(b0)) by {
                    assert(in_use(&g_before, before, dev.contents(), b0) == (in_use(&*old(gbm), old(descriptors)@, old(dev).contents(), b0) || s0.contains(b0)));
                    if let Some((h, l0)) = spec_global_to_local(gbm.first_group_block, gbm.blocks_per_group, gbm.group_count, gbm.overhead_per_group, b0) {
                        if h == g && l0 == l && gbm.first_group_block <= b0 < gbm.first_group_block + gbm.group_count * gbm.blocks_per_group {
                            lemma_slot_injective(*gbm, b0, b);
                        }
                    }
                    if b0 == b {
                        assert(!in_use(&*old(gbm), old(descriptors)@, old(dev).contents(), allocated@[i as int]));
                        if s1.contains(b0) {
                            let t = choose|t: int| 0 <= t < s1.len() && s1[t] == b0;
                            assert(allocated@[i + 1 + t] == allocated@[i as int]);
                        }
                    } else {
                        if s0.contains(b0) {
                            let t = choose|t: int| 0 <= t < s0.len() && s0[t] == b0;
                            assert(t != 0);
                            assert(s1[t - 1] == b0);
                        }
                        if s1.contains(b0) {
                            let t = choose|t: int| 0 <= t < s1.len() && s1[t] == b0;
                            assert(s0[t + 1] == b0);
                        }
                    }
                }
                assert forall|k: int| i + 1 <= k < allocated@.len() implies gbm.holds(#[trigger] allocated@[k]) by {
                    let bk = allocated@[k];
                    assert(g_before.holds(bk));
                    assert(bk != b);
                    assert(s0[k - i] == bk);
                    assert(in_use(&g_before, before, dev.contents(), bk));
                    let (hk, lk) = spec_global_to_local(gbm.first_group_block, gbm.blocks_per_group, gbm.group_count, gbm.overhead_per_group, bk)->0;
                    if hk == g && lk == l {
                        lemma_slot_injective(*gbm, bk, b);
                    }
                }
                assert forall|q: u32| #[trigger] gbm.loaded().contains_key(q) implies gbm.loaded()[q].len() + gbm.overhead_per_group <= gbm.blocks_per_group by {
                    if let Some((g, l)) = spec_global_to_local(gbm.first_group_block, gbm.blocks_per_group, gbm.group_count, gbm.overhead_per_group, b) {
                        if q == g {
                            assert(gbm.addressable(before[g as int]));
                        }
                    }
                }
                assert forall|q: int| 0 <= q < gbm.group_count implies gbm.addressable(#[trigger] descriptors@[q])
                    && group_data_blocks(descriptors@[q], gbm.overhead_per_group) + gbm.overhead_per_group <= gbm.blocks_per_group by {
                    assert(gbm.addressable(before[q]));
                }
            }
            i = i + 1;
        }
        return Err(VolumeError::NoSpace);
    }
    superblock.free_blocks = superblock.free_blocks.saturating_sub(count as u64);
    Ok(allocated)
}

/// The last group with the most free blocks (0 when there is none).
fn most_free_group(descriptors: &Vec<GroupDescriptor>) -> (r: u32)
    requires
        descriptors@.len() <= u32::MAX,
    ensures
        descriptors@.len() == 0 ==> r == 0,
        descriptors@.len() > 0 ==> {
            &&& r < descriptors@.len()
            &&& forall|j: int| 0 <= j < descriptors@.len() ==> (#[trigger] descriptors@[j]).bg_free_blocks <= descriptors@[r as int].bg_free_blocks
            &&& forall|j: int| r < j < descriptors@.len() ==> (#[trigger] descriptors@[j]).bg_free_blocks < descriptors@[r as int].bg_free_blocks
        },
{
    let n = descriptors.len();
    if n == 0 {
        return 0;
    }
    let mut best: usize = 0;
    let mut i: usize = 1;
    while i < n
        invariant
            n == descriptors@.len(),
            n <= u32::MAX,
            1 <= i <= n,
            best < i,
            forall|j: int| 0 <= j < i ==> (#[trigger] descriptors@[j]).bg_free_blocks <= descriptors@[best as int].bg_free_blocks,
            forall|j: int| best < j < i ==> (#[trigger] descriptors@[j]).bg_free_blocks < descriptors@[best as int].bg_free_blocks,
        decreases n - i,
    {
        if descriptors[i].bg_free_blocks >= descriptors[best].bg_free_blocks {
            best = i;
        }
        i = i + 1;
    }
    best as u32
}

/// Allocate `count` data blocks near the last group with the most free
/// blocks (see `alloc_blocks_near`).
pub fn alloc_blocks_group<D: CFSBlockDevice>(
    gbm: &mut GroupBitmapManager,
    dev: &mut D,
    count: usize,
    descriptors: &mut Vec<GroupDescriptor>,
    superblock: &mut Superblock,
) -> (r: Result<Vec<u64>, VolumeError>)
    requires
        old(gbm).wf(),
        old(gbm).bounded(),
        old(gbm).blocks_per_group > 0,
        old(gbm).fits_descriptors(old(descriptors)@),
        old(descriptors)@.len() == old(gbm).group_count,
        forall|g: int| 0 <= g < old(descriptors)@.len() ==> (#[trigger] old(descriptors)@[g]).bg_free_blocks + count <= u32::MAX,
        old(superblock).free_blocks >= count,
    ensures
        final(descriptors)@.len() == old(descriptors)@.len(),
        final(gbm).wf(),
        final(gbm).bounded(),
        final(gbm).same_params(old(gbm)),
        final(gbm).fits_descriptors(final(descriptors)@),
        match r {
            Ok(v) => {
                &&& v@.len() == count
                &&& all_held(&*final(gbm), v@)
                &&& *final(superblock) == sb_minus_blocks(*old(superblock), count as int)
            },
            Err(_) => *final(superblock) == *old(superblock),
        },
{
    let best = most_free_group(descriptors);
    proof {
        assert(gbm.addressable(descriptors@[0]));
        assert(gbm.first_group_block + best * gbm.blocks_per_group + gbm.overhead_per_group <= u64::MAX) by (nonlinear_arith)
            requires
                gbm.first_group_block + gbm.group_count * gbm.blocks_per_group <= u64::MAX,
                best < gbm.group_count,
                gbm.overhead_per_group <= gbm.blocks_per_group,
        ;
    }
    let hint = gbm.local_to_global(best, 0);
    alloc_blocks_near(gbm, dev, hint, count, descriptors, superblock)
}

/// Allocate `count` data blocks for a file, preferring the group of its inode.
pub fn alloc_blocks_for_file<D: CFSBlockDevice>(
    gbm: &mut GroupBitmapManager,
    dev: &mut D,
    inode_idx: u32,
    count: usize,
    inodes_per_group: u32,
    descriptors: &mut Vec<GroupDescriptor>,
    superblock: &mut Superblock,
) -> (r: Result<Vec<u64>, VolumeError>)
    requires
        old(gbm).wf(),
        old(gbm).bounded(),
        old(gbm).blocks_per_group > 0,
        old(gbm).fits_descriptors(old(descriptors)@),
        inodes_per_group > 0,
        spec_local_to_global(old(gbm).first_group_block, old(gbm).blocks_per_group, old(gbm).overhead_per_group, (inode_idx / inodes_per_group) as u32, 0) <= u64::MAX,
        forall|g: int| 0 <= g < old(descriptors)@.len() ==> (#[trigger] old(descriptors)@[g]).bg_free_blocks + count <= u32::MAX,
        old(superblock).free_blocks >= count,
    ensures
        final(descriptors)@.len() == old(descriptors)@.len(),
        final(gbm).wf(),
        final(gbm).bounded(),
        final(gbm).same_params(old(gbm)),
        final(gbm).fits_descriptors(final(descriptors)@),
        match r {
            Ok(v) => {
                &&& v@.len() == count
                &&& all_held(&*final(gbm), v@)
                &&& *final(superblock) == sb_minus_blocks(*old(superblock), count as int)
            },
            Err(_) => *final(superblock) == *old(superblock),
        },
{
    let file_group = inode_idx / inodes_per_group;
    let hint = gbm.local_to_global(file_group, 0);
    alloc_blocks_near(gbm, dev, hint, count, descriptors, superblock)
}

/// `b` is a data block whose bit is clear in its (loaded) group bitmap.
pub open spec fn released(gbm: &GroupBitmapManager, b: u64) -> bool {
    match spec_global_to_local(gbm.first_group_block, gbm.blocks_per_group, gbm.group_count, gbm.overhead_per_group, b) {
        Some((g, l)) => gbm.loaded().contains_key(g) && l < gbm.loaded()[g].len() && !gbm.loaded()[g][l as int],
        None => false,
    }
}

/// Free each block in turn, stopping at the first failure; when all are
/// freed the superblock counts them as free.
pub fn free_blocks_group<D: CFSBlockDevice>(
    gbm: &mut GroupBitmapManager,
    dev: &mut D,
    blocks: &[u64],
    descriptors: &mut Vec<GroupDescriptor>,
    superblock: &mut Superblock,
) -> (r: Result<(), VolumeError>)
    requires
        old(gbm).wf(),
        old(gbm).bounded(),
        old(gbm).blocks_per_group > 0,
        old(gbm).fits_descriptors(old(descriptors)@),
        forall|g: int| 0 <= g < old(descriptors)@.len() ==> (#[trigger] old(descriptors)@[g]).bg_free_blocks + blocks@.len() <= u32::MAX,
        old(superblock).free_blocks + blocks@.len() <= u64::MAX,
    ensures
        final(descriptors)@.len() == old(descriptors)@.len(),
        final(gbm).wf(),
        final(gbm).bounded(),
        final(gbm).same_params(old(gbm)),
        final(gbm).fits_descriptors(final(descriptors)@),
        r is Ok ==> *final(superblock) == (Superblock { free_blocks: (old(superblock).free_blocks + blocks@.len()) as u64, ..*old(superblock) }),
        r is Ok ==> forall|i: int| 0 <= i < blocks@.len() ==> released(&*final(gbm), #[trigger] blocks@[i]),
        r is Err ==> *final(superblock) == *old(superblock),
{
    let ghost orig = descriptors@;
    let mut i: usize = 0;
    while i < blocks.len()
        invariant
            gbm.wf(),
            gbm.bounded(),
            gbm.same_params(old(gbm)),
            gbm.blocks_per_group > 0,
            gbm.fits_descriptors(descriptors@),
            orig == old(descriptors)@,
            descriptors@.len() == orig.len(),
            forall|q: int| 0 <= q < orig.len() ==> {
                &&& (#[trigger] descriptors@[q]).bg_block_bitmap == orig[q].bg_block_bitmap
                &&& descriptors@[q].bg_blocks_count == orig[q].bg_blocks_count
                &&& descriptors@[q].bg_free_blocks <= orig[q].bg_free_blocks + i
            },
            forall|q: int| 0 <= q < orig.len() ==> (#[trigger] orig[q]).bg_free_blocks + blocks@.len() <= u32::MAX,
            i <= blocks@.len(),
            *superblock == *old(superblock),
            forall|j: int| 0 <= j < i ==> released(&*gbm, #[trigger] blocks@[j]),
        decreases blocks@.len() - i,
    {
        let b = blocks[i];
        let ghost before = descriptors@;
        let ghost old_gbm = *gbm;
        proof {
            if let Some((g, l)) = spec_global_to_local(gbm.first_group_block, gbm.blocks_per_group, gbm.group_count, gbm.overhead_per_group, b) {
                assert(gbm.addressable(descriptors@[g as int]));
                assert(descriptors@[g as int].bg_free_blocks <= orig[g as int].bg_free_blocks + i);
            }
        }
        gbm.free_block(dev, b, descriptors)?;
        proof {
            assert forall|q: u32| #[trigger] gbm.loaded().contains_key(q) implies gbm.loaded()[q].len() + gbm.overhead_per_group <= gbm.blocks_per_group by {
                if let Some((g, l)) = spec_global_to_local(gbm.first_group_block, gbm.blocks_per_group, gbm.group_count, gbm.overhead_per_group, b) {
                    if q == g {
                        assert(gbm.addressable(before[g as int]));
                    }
                }
            }
            assert forall|q: int| 0 <= q < gbm.group_count implies gbm.addressable(#[trigger] descriptors@[q])
                && group_data_blocks(descriptors@[q], gbm.overhead_per_group) + gbm.overhead_per_group <= gbm.blocks_per_group by {
                assert(gbm.addressable(before[q]));
            }
            assert forall|j: int| 0 <= j < i + 1 implies released(&*gbm, #[trigger] blocks@[j]) by {
                if j < i {
                    assert(released(&old_gbm, blocks@[j]));
                }
            }
        }
        i = i + 1;
    }
    superblock.free_blocks = superblock.free_blocks + blocks.len() as u64;
    Ok(())
}

impl GroupInodeBitmapManager {
    /// `descs` has a descriptor per group, every inode bitmap is addressable,
    /// and global inode numbers of all descriptors' groups fit in `u32`.
    pub open spec fn fits_descriptors(&self, descs: Seq<GroupDescriptor>) -> bool {
        &&& self.group_count <= descs.len()
        &&& descs.len() * self.inodes_per_group <= u32::MAX
        &&& forall|g: int| 0 <= g < descs.len() ==> self.addressable(#[trigger] descs[g])
    }

    /// Inode `ino` is marked used in its group's loaded bitmap.
    pub open spec fn holds(&self, ino: u32) -> bool {
        let g = (ino / self.inodes_per_group) as u32;
        let l = ino % self.inodes_per_group;
        self.loaded().contains_key(g) && l < self.loaded()[g].len() && self.loaded()[g][l as int]
    }

    /// Inode `ino` is marked free in its group's loaded bitmap.
    pub open spec fn released(&self, ino: u32) -> bool {
        let g = (ino / self.inodes_per_group) as u32;
        let l = ino % self.inodes_per_group;
        self.loaded().contains_key(g) && l < self.loaded()[g].len() && !self.loaded()[g][l as int]
    }
}

/// Inode bitmap locations stay; only counters of the descriptors change.
pub open spec fn same_inode_groups(a: Seq<GroupDescriptor>, b: Seq<GroupDescriptor>) -> bool {
    &&& a.len() == b.len()
    &&& forall|g: int| 0 <= g < a.len() ==> (#[trigger] a[g]).bg_inode_bitmap == b[g].bg_inode_bitmap
}

/// The superblock with one inode fewer free (not below zero).
pub open spec fn sb_minus_inode(sb: Superblock) -> Superblock {
    Superblock { free_inodes: if sb.free_inodes > 0 { (sb.free_inodes - 1) as u32 } else { 0 }, ..sb }
}

proof fn lemma_inode_number(g: u32, l: int, ipg: u32)
    requires
        0 <= l < ipg,
        (g + 1) * ipg <= u32::MAX,
    ensures
        (g * ipg + l) / (ipg as int) == g,
        (g * ipg + l) % (ipg as int) == l,
{
    vstd::arithmetic::div_mod::lemma_fundamental_div_mod_converse_div(g * ipg + l, ipg as int, g as int, l);
    vstd::arithmetic::div_mod::lemma_fundamental_div_mod_converse_mod(g * ipg + l, ipg as int, g as int, l);
}

/// Try group `g`: `Some(inode)` when it had a free inode, which is now used.
fn try_inode_group<D: CFSBlockDevice>(
    gibm: &mut GroupInodeBitmapManager,
    dev: &mut D,
    g: u32,
    descriptors: &mut Vec<GroupDescriptor>,
) -> (r: Result<Option<u32>, VolumeError>)
    requires
        old(gibm).wf(),
        old(gibm).inodes_per_group > 0,
        old(gibm).fits_descriptors(old(descriptors)@),
        g < old(descriptors)@.len(),
    ensures
        final(gibm).wf(),
        final(gibm).same_params(old(gibm)),
        final(gibm).fits_descriptors(final(descriptors)@),
        same_inode_groups(final(descriptors)@, old(descriptors)@),
        final(dev).contents() == old(dev).contents(),
        r matches Ok(Some(ino)) ==> ino / final(gibm).inodes_per_group == g && final(gibm).holds(ino)
            && final(gibm).dirty().contains(g),
        r matches Ok(Some(ino)) ==> final(descriptors)@ == old(descriptors)@.update(g as int, after_inode_alloc(old(descriptors)@[g as int])),
        !(r matches Ok(Some(_))) ==> final(descriptors)@ == old(descriptors)@,
        r matches Ok(None) ==> {
            let v = old(gibm).current(g, old(descriptors)@[g as int], old(dev).contents());
            forall|j: int| 0 <= j < v.len() ==> #[trigger] v[j]
        },
{
    proof {
        assert(gibm.addressable(descriptors@[g as int]));
        assert((g + 1) * gibm.inodes_per_group <= descriptors@.len() * gibm.inodes_per_group) by (nonlinear_arith)
            requires
                g < descriptors@.len(),
        ;
    }
    let ghost before = descriptors@;
    let ghost old_gibm = *gibm;
    let r = gibm.alloc_in_group(dev, g, descriptors);
    proof {
        assert forall|q: int| 0 <= q < descriptors@.len() implies gibm.addressable(#[trigger] descriptors@[q]) by {
            assert(gibm.addressable(before[q]));
        }
        if let Ok(Some(ino)) = r {
            let v = old_gibm.current(g, before[g as int], old(dev).contents());
            let l = choose|l: int| {
                &&& 0 <= l < v.len()
                &&& !v[l]
                &&& (forall|j: int| 0 <= j < l ==> v[j])
                &&& ino == g * old_gibm.inodes_per_group + l
                &&& gibm.loaded() == old_gibm.loaded().insert(g, v.update(l, true))
                &&& gibm.dirty() == old_gibm.dirty().insert(g)
                &&& descriptors@ == before.update(g as int, after_inode_alloc(before[g as int]))
            };
            assert(v.len() == gibm.inodes_per_group) by {
                if old_gibm.loaded().contains_key(g) {
                    assert(old_gibm.loaded()[g].len() == old_gibm.inodes_per_group);
                }
            }
            lemma_inode_number(g, l, gibm.inodes_per_group);
        }
    }
    r
}

/// Allocate an inode for a new file: in the parent's group if it has a free
/// one, else in the first group that has, trying groups from the parent's
/// onward (modulo the group count).
pub fn alloc_inode_for_file<D: CFSBlockDevice>(
    gibm: &mut GroupInodeBitmapManager,
    dev: &mut D,
    parent_inode: u32,
    inodes_per_group: u32,
    descriptors: &mut Vec<GroupDescriptor>,
    superblock: &mut Superblock,
) -> (r: Result<u32, VolumeError>)
    requires
        old(gibm).wf(),
        old(gibm).inodes_per_group > 0,
        inodes_per_group > 0,
        old(gibm).fits_descriptors(old(descriptors)@),
    ensures
        final(gibm).wf(),
        final(gibm).same_params(old(gibm)),
        final(gibm).fits_descriptors(final(descriptors)@),
        match r {
            Ok(ino) => {
                &&& ino / final(gibm).inodes_per_group < final(gibm).group_count
                &&& final(gibm).holds(ino)
                &&& *final(superblock) == sb_minus_inode(*old(superblock))
            },
            Err(_) => *final(superblock) == *old(superblock),
        },
{
    let parent_group = parent_inode / inodes_per_group;
    let gc = gibm.group_count;
    if parent_group < gc {
        if let Some(ino) = try_inode_group(gibm, dev, parent_group, descriptors)? {
            superblock.free_inodes = superblock.free_inodes.saturating_sub(1);
            return Ok(ino);
        }
    }
    let mut g: u32 = 0;
    while g < gc
        invariant
            gibm.wf(),
            gibm.same_params(old(gibm)),
            gibm.inodes_per_group > 0,
            gibm.fits_descriptors(descriptors@),
            gc == gibm.group_count,
            g <= gc,
            *superblock == *old(superblock),
        decreases gc - g,
    {
        let candidate = parent_group.wrapping_add(g) % gc;
        if candidate != parent_group {
            if let Some(ino) = try_inode_group(gibm, dev, candidate, descriptors)? {
                superblock.free_inodes = superblock.free_inodes.saturating_sub(1);
                return Ok(ino);
            }
        }
        g = g + 1;
    }
    Err(VolumeError::NoSpace)
}

/// Allocate an inode for a new directory in the group the Orlov rule picks
/// (see `orlov_select_group`), else in the first other group with a free
/// inode; the chosen group counts one more directory.
pub fn alloc_inode_for_dir<D: CFSBlockDevice>(
    gibm: &mut GroupInodeBitmapManager,
    dev: &mut D,
    parent_inode: u32,
    inodes_per_group: u32,
    descriptors: &mut Vec<GroupDescriptor>,
    superblock: &mut Superblock,
    is_top_level: bool,
) -> (r: Result<u32, VolumeError>)
    requires
        old(gibm).wf(),
        old(gibm).inodes_per_group > 0,
        inodes_per_group > 0,
        old(gibm).fits_descriptors(old(descriptors)@),
        parent_inode / inodes_per_group < old(descriptors)@.len(),
        forall|g: int| 0 <= g < old(descriptors)@.len() ==> (#[trigger] old(descriptors)@[g]).bg_used_dirs < u32::MAX,
    ensures
        final(gibm).wf(),
        final(gibm).same_params(old(gibm)),
        final(gibm).fits_descriptors(final(descriptors)@),
        match r {
            Ok(ino) => {
                let g = (ino / final(gibm).inodes_per_group) as int;
                &&& g < final(descriptors)@.len()
                &&& final(gibm).holds(ino)
                &&& final(descriptors)@[g].bg_used_dirs == old(descriptors)@[g].bg_used_dirs + 1
                &&& *final(superblock) == sb_minus_inode(*old(superblock))
            },
            Err(_) => *final(superblock) == *old(superblock),
        },
{
    let parent_group = parent_inode / inodes_per_group;
    let gc = gibm.group_count;
    proof {
        assert(descriptors@.len() <= u32::MAX) by (nonlinear_arith)
            requires
                descriptors@.len() * gibm.inodes_per_group <= u32::MAX,
                gibm.inodes_per_group >= 1,
        ;
    }
    let target = orlov_select_group(descriptors.as_slice(), parent_group, is_top_level, gc);
    proof {
        if is_top_level && gc > 0 {
            if !(exists|i: int| 0 <= i < descriptors@.len() && (#[trigger] descriptors@[i]).bg_free_inodes > 0) {
                assert(target == 0);
            }
        }
        if !is_top_level && descriptors@[parent_group as int].bg_free_inodes == 0 {
            crate::group::lemma_nearest_bound(descriptors@, parent_group, gc);
        }
    }
    let ghost orig = descriptors@;
    if let Some(ino) = try_inode_group(gibm, dev, target, descriptors)? {
        let mut d = descriptors[target as usize];
        d.bg_used_dirs = d.bg_used_dirs + 1;
        descriptors.set(target as usize, d);
        superblock.free_inodes = superblock.free_inodes.saturating_sub(1);
        proof {
            assert forall|q: int| 0 <= q < descriptors@.len() implies gibm.addressable(#[trigger] descriptors@[q]) by {
                if q != target {
                    assert(gibm.addressable(orig[q]));
                } else {
                    assert(gibm.addressable(orig[q]));
                }
            }
        }
        return Ok(ino);
    }
    let mut g: u32 = 0;
    while g < gc
        invariant
            gibm.wf(),
            gibm.same_params(old(gibm)),
            gibm.inodes_per_group > 0,
            gibm.fits_descriptors(descriptors@),
            descriptors@ == orig,
            orig == old(descriptors)@,
            forall|q: int| 0 <= q < orig.len() ==> (#[trigger] orig[q]).bg_used_dirs < u32::MAX,
            gc == gibm.group_count,
            g <= gc,
            *superblock == *old(superblock),
        decreases gc - g,
    {
        if g != target {
            if let Some(ino) = try_inode_group(gibm, dev, g, descriptors)? {
                let mut d = descriptors[g as usize];
                d.bg_used_dirs = d.bg_used_dirs + 1;
                descriptors.set(g as usize, d);
                superblock.free_inodes = superblock.free_inodes.saturating_sub(1);
                proof {
                    assert forall|q: int| 0 <= q < descriptors@.len() implies gibm.addressable(#[trigger] descriptors@[q]) by {
                        assert(gibm.addressable(orig[q]));
                    }
                }
                return Ok(ino);
            }
        }
        g = g + 1;
    }
    Err(VolumeError::NoSpace)
}

/// The Orlov search for a subdirectory gives the parent's group or a group
/// before `gc`.
/// Free an inode; a directory's group counts one directory fewer, and the
/// superblock one more free inode.
pub fn free_inode_group<D: CFSBlockDevice>(
    gibm: &mut GroupInodeBitmapManager,
    dev: &mut D,
    inode_idx: u32,
    was_directory: bool,
    inodes_per_group: u32,
    descriptors: &mut Vec<GroupDescriptor>,
    superblock: &mut Superblock,
) -> (r: Result<(), VolumeError>)
    requires
        old(gibm).wf(),
        old(gibm).inodes_per_group > 0,
        inodes_per_group > 0,
        inode_idx / old(gibm).inodes_per_group < old(descriptors)@.len(),
        old(gibm).addressable(old(descriptors)@[(inode_idx / old(gibm).inodes_per_group) as int]),
        old(descriptors)@[(inode_idx / old(gibm).inodes_per_group) as int].bg_free_inodes < u32::MAX,
        old(superblock).free_inodes < u32::MAX,
    ensures
        final(gibm).wf(),
        final(gibm).same_params(old(gibm)),
        r is Ok ==> final(gibm).released(inode_idx),
        r is Ok ==> *final(superblock) == (Superblock { free_inodes: (old(superblock).free_inodes + 1) as u32, ..*old(superblock) }),
        r is Ok && was_directory && inode_idx / inodes_per_group < old(descriptors)@.len() ==> ({
            let g = (inode_idx / inodes_per_group) as int;
            let before = old(descriptors)@[g].bg_used_dirs;
            final(descriptors)@[g].bg_used_dirs == if before > 0 { before - 1 } else { 0 }
        }),
        r is Err ==> *final(superblock) == *old(superblock),
        r is Ok ==> ({
            let g = (inode_idx / old(gibm).inodes_per_group) as int;
            final(descriptors)@[g].bg_free_inodes == old(descriptors)@[g].bg_free_inodes + 1
        }),
{
    gibm.free_inode(dev, inode_idx, descriptors)?;
    let group = inode_idx / inodes_per_group;
    if was_directory && (group as usize) < descriptors.len() {
        let ghost mid = descriptors@;
        let mut d = descriptors[group as usize];
        d.bg_used_dirs = d.bg_used_dirs.saturating_sub(1);
        descriptors.set(group as usize, d);
    }
    superblock.free_inodes = superblock.free_inodes + 1;
    Ok(())
}

} // verus!
