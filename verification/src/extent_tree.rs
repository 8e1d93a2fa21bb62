//! Editing an extent tree on disk: inserting extents (merging with
//! neighbours, splitting full nodes, growing the tree), removing ranges,
//! converting preallocated extents, and walking the whole tree.

use vstd::prelude::*;
use crate::device::{CFSBlockDevice, written};
use crate::error::VolumeError;
use crate::inode::Inode;
use crate::superblock::Superblock;
use crate::block_alloc::{BlockAlloc, flat_alloc_fails, freeable, offsets};
use crate::group_alloc::sb_minus_blocks;
use crate::codec::{le16, zeros};
use crate::extent::{
    ExtentHeader, ExtentLeaf, ExtentIndex, ExtentEntries, EXTENT_MAGIC, EXTENT_MAX_DEPTH, EXTENT_ROOT_MAX_ENTRIES,
    EXTENT_UNINIT_FLAG, leaf_count, leaf_uninit, leaf_physical, entries_len, read_inode_extent_root,
    write_inode_extent_root, read_extent_block, write_extent_block, bsearch_leaf, bsearch_index, extent_find,
    extent_entries_per_block, init_inode_extent_root, leaf_covers, sorted_starts, leaf_starts, flat_root,
    root_leaves, root_area, lemma_root_roundtrip, disjoint_sorted, EXTENT_MAX_LEN_INIT, root_image, header_bytes,
    entries_bytes, header_at, indices_at, indices_bytes, index_child, block_bytes, leaves_at, lemma_node_roundtrip,
    splits_at, index_starts, entries_match,
    node_image,
};

verus! {

/// No leaf's end overflows a 32-bit block number.
pub open spec fn leaves_sane(ls: Seq<ExtentLeaf>) -> bool {
    forall|i: int| 0 <= i < ls.len() ==> #[trigger] ls[i].ee_block + leaf_count(ls[i]) <= u32::MAX
}

/// Only the extent-root area (the block-pointer fields) of `a` differs from `b`.
pub open spec fn root_only(a: Inode, b: Inode) -> bool {
    a == (Inode { direct_blocks: a.direct_blocks, indirect_block: a.indirect_block, double_indirect: a.double_indirect, ..b })
}

/// `a` is `b` with some free blocks spent.
pub open spec fn sb_spent(a: Superblock, b: Superblock) -> bool {
    a == (Superblock { free_blocks: a.free_blocks, ..b }) && a.free_blocks <= b.free_blocks
}

fn check_leaves(ls: &Vec<ExtentLeaf>) -> (r: bool)
    ensures
        r == leaves_sane(ls@),
{
    let mut i: usize = 0;
    while i < ls.len()
        invariant
            i <= ls@.len(),
            forall|j: int| 0 <= j < i ==> #[trigger] ls@[j].ee_block + leaf_count(ls@[j]) <= u32::MAX,
        decreases ls@.len() - i,
    {
        if ls[i].ee_block as u64 + ls[i].block_count() as u64 > u32::MAX as u64 {
            return false;
        }
        i = i + 1;
    }
    true
}

proof fn lemma_len_flag(c: u16)
    requires
        c < 0x8000,
    ensures
        (c | 0x8000u16) % 0x8000 == c,
        (c | 0x8000u16) >= 0x8000,
{
    assert((c | 0x8000u16) % 0x8000 == c && (c | 0x8000u16) >= 0x8000) by (bit_vector)
        requires
            c < 0x8000,
    ;
}

/// `a` maps exactly what `b` maps together with what leaf `e` maps.
pub open spec fn maps_with(a: Seq<ExtentLeaf>, b: Seq<ExtentLeaf>, e: ExtentLeaf) -> bool {
    forall|x: int, p: int, u: bool|
        #![trigger leaves_map(a, x, p, u)]
        #![trigger leaves_map(b, x, p, u)]
        leaves_map(a, x, p, u) == (leaves_map(b, x, p, u) || leaf_maps(e, x, p, u))
}

proof fn lemma_physical_bound(l: ExtentLeaf)
    ensures
        0 <= leaf_physical(l) < 0x1_0000_0000_0000,
{
}

/// A leaf `m` that runs `a` on into `b` maps what the two map.
proof fn lemma_merged(a: ExtentLeaf, b: ExtentLeaf, m: ExtentLeaf)
    requires
        a.ee_block + leaf_count(a) == b.ee_block,
        leaf_physical(a) + leaf_count(a) == leaf_physical(b),
        leaf_uninit(a) == leaf_uninit(b),
        m.ee_block == a.ee_block,
        leaf_count(m) == leaf_count(a) + leaf_count(b),
        leaf_physical(m) == leaf_physical(a),
        leaf_uninit(m) == leaf_uninit(a),
    ensures
        forall|x: int, p: int, u: bool|
            #![trigger leaf_maps(m, x, p, u)]
            leaf_maps(m, x, p, u) == (leaf_maps(a, x, p, u) || leaf_maps(b, x, p, u)),
{
}

proof fn lemma_insert_with(ls: Seq<ExtentLeaf>, i: int, e: ExtentLeaf)
    requires
        0 <= i <= ls.len(),
    ensures
        maps_with(ls.insert(i, e), ls, e),
{
    let r = ls.insert(i, e);
    assert forall|x: int, p: int, u: bool| leaves_map(r, x, p, u) == (leaves_map(ls, x, p, u) || leaf_maps(e, x, p, u)) by {
        if leaves_map(r, x, p, u) {
            let k = choose|k: int| 0 <= k < r.len() && #[trigger] leaf_maps(r[k], x, p, u);
            if k != i {
                let k2 = if k < i { k } else { k - 1 };
                assert(r[k] == ls[k2]);
                assert(leaf_maps(ls[k2], x, p, u));
            }
        }
        if leaves_map(ls, x, p, u) {
            let k = choose|k: int| 0 <= k < ls.len() && #[trigger] leaf_maps(ls[k], x, p, u);
            let k2 = if k < i { k } else { k + 1 };
            assert(r[k2] == ls[k]);
            assert(leaf_maps(r[k2], x, p, u));
        }
        if leaf_maps(e, x, p, u) {
            assert(r[i] == e);
            assert(leaf_maps(r[i], x, p, u));
        }
    }
}

/// Extent `e` shares no logical block with any leaf of `ls`.
pub open spec fn apart_from(ls: Seq<ExtentLeaf>, e: ExtentLeaf) -> bool {
    forall|j: int| 0 <= j < ls.len() ==> #[trigger] ls[j].ee_block + leaf_count(ls[j]) <= e.ee_block
        || e.ee_block + leaf_count(e) <= ls[j].ee_block
}

/// Inserting a nonempty extent that overlaps none of a sorted, disjoint
/// sequence of leaves at its place by start block (after every leaf that
/// starts at or before it, before every leaf that starts after it) keeps the
/// sequence sorted and disjoint.
pub proof fn lemma_insert_sorted(ls: Seq<ExtentLeaf>, i: int, e: ExtentLeaf)
    requires
        disjoint_sorted(ls),
        0 <= i <= ls.len(),
        forall|j: int| 0 <= j < i ==> #[trigger] ls[j].ee_block <= e.ee_block,
        i < ls.len() ==> ls[i].ee_block > e.ee_block,
        apart_from(ls, e),
        leaf_count(e) > 0,
        e.ee_block + leaf_count(e) <= u32::MAX,
    ensures
        disjoint_sorted(ls.insert(i, e)),
{
    let r = ls.insert(i, e);
    assert forall|a: int| 0 <= a < r.len() implies #[trigger] r[a].ee_block + leaf_count(r[a]) <= u32::MAX by {
        if a < i {
            assert(r[a] == ls[a]);
        } else if a > i {
            assert(r[a] == ls[a - 1]);
        }
    }
    assert forall|a: int, b: int| #![trigger r[a], r[b]] 0 <= a < b < r.len() implies r[a].ee_block + leaf_count(r[a]) <= r[b].ee_block by {
        if b < i {
            assert(r[a] == ls[a] && r[b] == ls[b]);
        } else if b == i {
            assert(r[a] == ls[a]);
            assert(ls[a].ee_block <= e.ee_block);
            assert(ls[a].ee_block + leaf_count(ls[a]) <= e.ee_block || e.ee_block + leaf_count(e) <= ls[a].ee_block);
        } else if a == i {
            assert(r[b] == ls[b - 1]);
            assert(ls[b - 1].ee_block >= ls[i].ee_block) by {
                if b - 1 > i {
                    assert(ls[i].ee_block + leaf_count(ls[i]) <= ls[b - 1].ee_block);
                }
            }
            assert(ls[b - 1].ee_block + leaf_count(ls[b - 1]) <= e.ee_block || e.ee_block + leaf_count(e) <= ls[b - 1].ee_block);
        } else if a < i {
            assert(r[a] == ls[a] && r[b] == ls[b - 1]);
        } else {
            assert(r[a] == ls[a - 1] && r[b] == ls[b - 1]);
        }
    }
}

proof fn lemma_update_with(ls: Seq<ExtentLeaf>, i: int, m: ExtentLeaf, e: ExtentLeaf)
    requires
        0 <= i < ls.len(),
        forall|x: int, p: int, u: bool|
            #![trigger leaf_maps(m, x, p, u)]
            leaf_maps(m, x, p, u) == (leaf_maps(ls[i], x, p, u) || leaf_maps(e, x, p, u)),
    ensures
        maps_with(ls.update(i, m), ls, e),
{
    let r = ls.update(i, m);
    assert forall|x: int, p: int, u: bool| leaves_map(r, x, p, u) == (leaves_map(ls, x, p, u) || leaf_maps(e, x, p, u)) by {
        if leaves_map(r, x, p, u) {
            let k = choose|k: int| 0 <= k < r.len() && #[trigger] leaf_maps(r[k], x, p, u);
            if k != i {
                assert(leaf_maps(ls[k], x, p, u));
            } else {
                assert(leaf_maps(m, x, p, u));
                if leaf_maps(ls[i], x, p, u) {
                    assert(leaves_map(ls, x, p, u));
                }
            }
        }
        if leaves_map(ls, x, p, u) {
            let k = choose|k: int| 0 <= k < ls.len() && #[trigger] leaf_maps(ls[k], x, p, u);
            if k != i {
                assert(leaf_maps(r[k], x, p, u));
            } else {
                assert(leaf_maps(m, x, p, u));
                assert(leaf_maps(r[i], x, p, u));
            }
        }
        if leaf_maps(e, x, p, u) {
            assert(leaf_maps(m, x, p, u));
            assert(leaf_maps(r[i], x, p, u));
        }
    }
}

proof fn lemma_merge2_with(ls: Seq<ExtentLeaf>, i: int, m: ExtentLeaf, e: ExtentLeaf)
    requires
        0 < i < ls.len(),
        forall|x: int, p: int, u: bool|
            #![trigger leaf_maps(m, x, p, u)]
            leaf_maps(m, x, p, u) == (leaf_maps(ls[i - 1], x, p, u) || leaf_maps(e, x, p, u) || leaf_maps(ls[i], x, p, u)),
    ensures
        maps_with(ls.update(i - 1, m).remove(i), ls, e),
{
    let r = ls.update(i - 1, m).remove(i);
    assert forall|x: int, p: int, u: bool| leaves_map(r, x, p, u) == (leaves_map(ls, x, p, u) || leaf_maps(e, x, p, u)) by {
        if leaves_map(r, x, p, u) {
            let k = choose|k: int| 0 <= k < r.len() && #[trigger] leaf_maps(r[k], x, p, u);
            if k == i - 1 {
                assert(leaf_maps(m, x, p, u));
                if leaf_maps(ls[i - 1], x, p, u) {
                    assert(leaves_map(ls, x, p, u));
                } else if leaf_maps(ls[i], x, p, u) {
                    assert(leaves_map(ls, x, p, u));
                }
            } else {
                let k2 = if k < i - 1 { k } else { k + 1 };
                assert(r[k] == ls[k2]);
                assert(leaf_maps(ls[k2], x, p, u));
            }
        }
        if leaves_map(ls, x, p, u) {
            let k = choose|k: int| 0 <= k < ls.len() && #[trigger] leaf_maps(ls[k], x, p, u);
            if k == i - 1 || k == i {
                assert(leaf_maps(m, x, p, u));
                assert(r[i - 1] == m);
                assert(leaf_maps(r[i - 1], x, p, u));
            } else {
                let k2 = if k < i - 1 { k } else { k - 1 };
                assert(r[k2] == ls[k]);
                assert(leaf_maps(r[k2], x, p, u));
            }
        }
        if leaf_maps(e, x, p, u) {
            assert(leaf_maps(m, x, p, u));
            assert(r[i - 1] == m);
            assert(leaf_maps(r[i - 1], x, p, u));
        }
    }
}

/// `b` continues `a` logically and physically, with the same
/// initialization state, and together they stay within 32767 blocks.
pub open spec fn mergeable(a: ExtentLeaf, b: ExtentLeaf) -> bool {
    &&& a.ee_block + leaf_count(a) == b.ee_block
    &&& leaf_physical(a) + leaf_count(a) == leaf_physical(b)
    &&& leaf_uninit(a) == leaf_uninit(b)
    &&& leaf_count(a) + leaf_count(b) <= EXTENT_MAX_LEN_INIT
}

/// Leaf `i` is the last one starting at or before `key`.
pub open spec fn last_at_or_before(ls: Seq<ExtentLeaf>, i: int, key: u32) -> bool {
    0 <= i < ls.len() && ls[i].ee_block <= key && (i + 1 == ls.len() || ls[i + 1].ee_block > key)
}

/// Leaf `i` is the first one starting after `key`.
pub open spec fn first_after(ls: Seq<ExtentLeaf>, i: int, key: u32) -> bool {
    0 <= i < ls.len() && ls[i].ee_block > key && (i == 0 || ls[i - 1].ee_block <= key)
}

/// The leaf just before `e`'s first block continues into `e`.
pub open spec fn left_mergeable(ls: Seq<ExtentLeaf>, e: ExtentLeaf) -> bool {
    exists|i: int| #[trigger] last_at_or_before(ls, i, e.ee_block) && mergeable(ls[i], e)
}

/// `try_merge_leaf` merges: no leaf covers the new extent's first block, and
/// its left neighbour continues into it or it continues into its right one.
pub open spec fn merges_into(ls: Seq<ExtentLeaf>, e: ExtentLeaf) -> bool {
    &&& forall|i: int| 0 <= i < ls.len() ==> !leaf_covers(#[trigger] ls[i], e.ee_block)
    &&& (exists|i: int| #[trigger] last_at_or_before(ls, i, e.ee_block) && mergeable(ls[i], e))
        || (exists|i: int| #[trigger] first_after(ls, i, e.ee_block) && mergeable(e, ls[i]))
}

/// Merge `new_ext` into a neighbour when it continues one (logically and
/// physically, same initialization state, within 32767 blocks): first the
/// left neighbour (then also the right one into it), else the right one.
/// Nothing happens when a leaf already covers the new extent's first block.
/// A merge into the left neighbour keeps the flag bit only as the merged
/// length has it (it is written without it).
fn try_merge_leaf(leaves: &mut Vec<ExtentLeaf>, new_ext: &ExtentLeaf) -> (r: bool)
    requires
        leaves_sane(old(leaves)@),
        new_ext.ee_block + leaf_count(*new_ext) <= u32::MAX,
    ensures
        leaves_sane(final(leaves)@),
        !r ==> final(leaves)@ == old(leaves)@,
        final(leaves)@.len() <= old(leaves)@.len(),
        r && !leaf_uninit(*new_ext) ==> maps_with(final(leaves)@, old(leaves)@, *new_ext),
        disjoint_sorted(old(leaves)@) ==> (r == merges_into(old(leaves)@, *new_ext)),
        r && leaf_uninit(*new_ext) && disjoint_sorted(old(leaves)@) && !left_mergeable(old(leaves)@, *new_ext) ==> maps_with(
            final(leaves)@,
            old(leaves)@,
            *new_ext,
        ),
{
    let ghost before = leaves@;
    let ghost key = new_ext.ee_block;
    let (found, idx) = bsearch_leaf(leaves.as_slice(), new_ext.ee_block);
    proof {
        if disjoint_sorted(before) {
            assert forall|i: int, j: int| 0 <= i < j < leaf_starts(before).len() implies leaf_starts(before)[i] <= leaf_starts(before)[j] by {
                assert(before[i].ee_block + leaf_count(before[i]) <= before[j].ee_block);
            }
            if found {
                assert(leaf_covers(before[idx as int], key));
            } else {
                assert forall|i: int| 0 <= i < before.len() implies !leaf_covers(#[trigger] before[i], key) by {
                    assert(leaf_starts(before)[i] == before[i].ee_block);
                    if i < idx - 1 {
                        assert(before[i].ee_block + leaf_count(before[i]) <= before[idx - 1].ee_block);
                        assert(leaf_starts(before)[idx - 1] == before[idx - 1].ee_block);
                    }
                }
                assert forall|i: int| #[trigger] last_at_or_before(before, i, key) implies i == idx - 1 by {
                    assert(leaf_starts(before)[i] == before[i].ee_block);
                    if i + 1 < before.len() {
                        assert(leaf_starts(before)[i + 1] == before[i + 1].ee_block);
                    }
                }
                assert forall|i: int| #[trigger] first_after(before, i, key) implies i == idx by {
                    assert(leaf_starts(before)[i] == before[i].ee_block);
                    if i > 0 {
                        assert(leaf_starts(before)[i - 1] == before[i - 1].ee_block);
                    }
                }
                if idx > 0 {
                    assert(leaf_starts(before)[idx - 1] == before[idx - 1].ee_block);
                    if idx < before.len() {
                        assert(leaf_starts(before)[idx as int] == before[idx as int].ee_block);
                    }
                    assert(last_at_or_before(before, idx - 1, key));
                }
                if idx < before.len() {
                    assert(leaf_starts(before)[idx as int] == before[idx as int].ee_block);
                    if idx > 0 {
                        assert(leaf_starts(before)[idx - 1] == before[idx - 1].ee_block);
                    }
                    assert(first_after(before, idx as int, key));
                }
            }
        }
    }
    if found {
        return false;
    }
    if idx > 0 {
        let left = leaves[idx - 1];
        proof {
            assert(left.ee_block + leaf_count(left) <= u32::MAX);
        }
        if left.can_merge_right(new_ext) {
            proof {
                if disjoint_sorted(before) {
                    assert(last_at_or_before(before, idx - 1, key) && mergeable(before[idx - 1], *new_ext));
                    assert(left_mergeable(before, *new_ext));
                }
            }
            let combined = left.block_count() + new_ext.block_count();
            let mut l = left;
            l.ee_len = combined as u16;
            if l.is_uninitialized() {
                proof {
                    lemma_len_flag(combined as u16);
                }
                l.ee_len = l.ee_len | EXTENT_UNINIT_FLAG;
            }
            proof {
                if !leaf_uninit(*new_ext) {
                    assert(leaf_count(l) == leaf_count(left) + leaf_count(*new_ext) && !leaf_uninit(l));
                    lemma_merged(left, *new_ext, l);
                    lemma_update_with(before, idx - 1, l, *new_ext);
                }
            }
            leaves.set(idx - 1, l);
            if idx < leaves.len() {
                let right = leaves[idx];
                if l.can_merge_right(&right) {
                    let total = l.block_count() + right.block_count();
                    let mut l2 = l;
                    l2.ee_len = total as u16;
                    if l2.is_uninitialized() {
                        proof {
                            lemma_len_flag(total as u16);
                        }
                        l2.ee_len = l2.ee_len | EXTENT_UNINIT_FLAG;
                    }
                    proof {
                        if !leaf_uninit(*new_ext) {
                            assert(leaf_count(l2) == leaf_count(l) + leaf_count(right) && !leaf_uninit(l2));
                            lemma_merged(l, right, l2);
                            assert(right == before[idx as int]);
                            lemma_merge2_with(before, idx as int, l2, *new_ext);
                        }
                    }
                    leaves.set(idx - 1, l2);
                    leaves.remove(idx);
                    proof {
                        assert(leaves@ =~= before.update(idx - 1, l2).remove(idx as int));
                    }
                }
            }
            return true;
        }
    }
    if idx < leaves.len() {
        let right = leaves[idx];
        if new_ext.can_merge_right(&right) {
            let combined = new_ext.block_count() + right.block_count();
            let mut rr = right;
            rr.ee_block = new_ext.ee_block;
            rr.set_physical_block(new_ext.physical_block());
            rr.ee_len = combined as u16;
            if new_ext.is_uninitialized() {
                proof {
                    lemma_len_flag(combined as u16);
                }
                rr.ee_len = rr.ee_len | EXTENT_UNINIT_FLAG;
            }
            proof {
                lemma_physical_bound(*new_ext);
                assert(leaf_count(rr) == leaf_count(*new_ext) + leaf_count(right) && leaf_uninit(rr) == leaf_uninit(*new_ext));
                lemma_merged(*new_ext, right, rr);
                lemma_update_with(before, idx as int, rr, *new_ext);
            }
            leaves.set(idx, rr);
            return true;
        }
    }
    false
}


/// A step of the path from the root to a leaf: the node's block (0 for
/// the in-inode root), its header, its index entries, and the entry taken.
type PathStep = (u64, ExtentHeader, Vec<ExtentIndex>, usize);

fn copy_indices(v: &Vec<ExtentIndex>) -> (r: Vec<ExtentIndex>)
    ensures
        r@ == v@,
{
    let mut out: Vec<ExtentIndex> = Vec::new();
    let mut i: usize = 0;
    while i < v.len()
        invariant
            i <= v@.len(),
            out@ == v@.subrange(0, i as int),
        decreases v@.len() - i,
    {
        out.push(v[i]);
        i = i + 1;
        assert(out@ =~= v@.subrange(0, i as int));
    }
    assert(v@.subrange(0, v@.len() as int) =~= v@);
    out
}

/// Take one block from the allocator.
fn alloc_node_block<D: CFSBlockDevice>(dev: &mut D, alloc: &mut BlockAlloc, sb: &mut Superblock) -> (r: Result<u64, VolumeError>)
    requires
        old(alloc).wf(),
    ensures
        final(alloc).wf(),
        final(alloc).same_kind(old(alloc)),
        sb_spent(*final(sb), *old(sb)),
        old(sb).free_blocks == 0 ==> r is Err,
        match r {
            Ok(b) => *final(sb) == sb_minus_blocks(*old(sb), 1) && final(alloc).took(old(alloc), seq![b]),
            Err(e) => {
                &&& *final(sb) == *old(sb)
                &&& *old(alloc) is Legacy ==> flat_alloc_fails(old(alloc)->bitmap@, old(sb).free_blocks, 1, e)
            },
        },
{
    let v = alloc.allocate(dev, sb, 1)?;
    assert(v@ =~= seq![v@[0]]);
    Ok(v[0])
}

/// Write a node's entries back: into the inode's root when `block` is 0,
/// else into the block. `Invalid` when they do not fit.
fn write_node<D: CFSBlockDevice>(
    dev: &mut D,
    inode: &mut Inode,
    block: u64,
    header: &ExtentHeader,
    entries: &ExtentEntries,
    block_size: u32,
) -> (r: Result<(), VolumeError>)
    ensures
        root_only(*final(inode), *old(inode)),
        block != 0 ==> *final(inode) == *old(inode),
        block == 0 ==> final(dev).contents() == old(dev).contents() && if entries_len(*entries) <= EXTENT_ROOT_MAX_ENTRIES {
            r is Ok && root_area(*final(inode)) == root_image(*header, *entries)
        } else {
            r == Err::<(), VolumeError>(VolumeError::Invalid) && *final(inode) == *old(inode)
        },
        block != 0 && entries_len(*entries) >= block_size / 12 ==> r == Err::<(), VolumeError>(VolumeError::Invalid),
        block != 0 ==> match r {
            Ok(_) => {
                &&& block * block_size + block_size <= old(dev).contents().len()
                &&& final(dev).contents() == written(
                    old(dev).contents(),
                    block * block_size,
                    header_bytes(*header) + entries_bytes(*entries) + zeros((block_size - 12 - 12 * entries_len(*entries)) as nat),
                )
            },
            Err(e) => final(dev).contents() == old(dev).contents(),
        },
{
    let n = match entries {
        ExtentEntries::Leaves(l) => l.len(),
        ExtentEntries::Indices(x) => x.len(),
    };
    if block == 0 {
        if n > EXTENT_ROOT_MAX_ENTRIES as usize {
            return Err(VolumeError::Invalid);
        }
        write_inode_extent_root(inode, header, entries);
        Ok(())
    } else {
        if n >= (block_size as usize) / 12 {
            return Err(VolumeError::Invalid);
        }
        write_extent_block(dev, block, header, entries, block_size)
    }
}

/// Add a level: move the root's entries into a new block and make the root
/// a single index entry for it (keyed by the first entry's start, or 0).
/// `Invalid` at the maximum depth.
pub fn grow_indepth<D: CFSBlockDevice>(
    dev: &mut D,
    inode: &mut Inode,
    alloc: &mut BlockAlloc,
    sb: &mut Superblock,
    block_size: u32,
) -> (r: Result<(), VolumeError>)
    requires
        old(alloc).wf(),
        block_size >= 96,
    ensures
        final(alloc).wf(),
        final(alloc).same_kind(old(alloc)),
        root_only(*final(inode), *old(inode)),
        sb_spent(*final(sb), *old(sb)),
        r is Err ==> *final(inode) == *old(inode),
        ({
            let ra = root_area(*old(inode));
            le16(ra, 0) == EXTENT_MAGIC && le16(ra, 2) <= EXTENT_ROOT_MAX_ENTRIES && le16(ra, 6) >= EXTENT_MAX_DEPTH
        }) ==> r == Err::<(), VolumeError>(VolumeError::Invalid),
        r is Ok ==> ({
            let ra = root_area(*old(inode));
            let h = header_at(ra, 0);
            let n = h.entries as int;
            let x = indices_at(root_area(*final(inode)), 12, 1)[0];
            &&& h.magic == EXTENT_MAGIC && h.entries <= EXTENT_ROOT_MAX_ENTRIES && h.depth < EXTENT_MAX_DEPTH
            &&& header_at(root_area(*final(inode)), 0) == (ExtentHeader {
                magic: EXTENT_MAGIC,
                entries: 1,
                max: EXTENT_ROOT_MAX_ENTRIES,
                depth: (h.depth + 1) as u16,
                generation: h.generation,
            })
            &&& *final(sb) == sb_minus_blocks(*old(sb), 1)
            &&& x.ei_block == (if n == 0 {
                0
            } else if h.depth == 0 {
                leaves_at(ra, 12, n)[0].ee_block
            } else {
                indices_at(ra, 12, n)[0].ei_block
            })
            &&& exists|b: u64| {
                let blk = block_bytes(final(dev).contents(), b, block_size);
                &&& #[trigger] final(alloc).took(old(alloc), seq![b])
                &&& index_child(x) == b % 0x1_0000_0000_0000
                &&& b * block_size + block_size <= final(dev).contents().len()
                &&& header_at(blk, 0) == (ExtentHeader { max: ((block_size - 12) / 12) as u16, ..h })
                &&& h.depth == 0 ==> leaves_at(blk, 12, n) == leaves_at(ra, 12, n)
                &&& h.depth > 0 ==> indices_at(blk, 12, n) == indices_at(ra, 12, n)
            }
        }),
{
    let (root_header, root_entries) = read_inode_extent_root(inode)?;
    if root_header.depth >= EXTENT_MAX_DEPTH {
        return Err(VolumeError::Invalid);
    }
    let new_block = alloc_node_block(dev, alloc, sb)?;
    let child_header = ExtentHeader {
        magic: EXTENT_MAGIC,
        entries: root_header.entries,
        max: extent_entries_per_block(block_size),
        depth: root_header.depth,
        generation: root_header.generation,
    };
    write_extent_block(dev, new_block, &child_header, &root_entries, block_size)?;
    let first_block = match &root_entries {
        ExtentEntries::Leaves(l) => if l.len() == 0 {
            0
        } else {
            l[0].ee_block
        },
        ExtentEntries::Indices(i) => if i.len() == 0 {
            0
        } else {
            i[0].ei_block
        },
    };
    let new_root_header = ExtentHeader {
        magic: EXTENT_MAGIC,
        entries: 1,
        max: EXTENT_ROOT_MAX_ENTRIES,
        depth: root_header.depth + 1,
        generation: root_header.generation,
    };
    let mut one: Vec<ExtentIndex> = Vec::new();
    let ix = ExtentIndex::new(first_block, new_block);
    one.push(ix);
    let new_root_entries = ExtentEntries::Indices(one);
    write_inode_extent_root(inode, &new_root_header, &new_root_entries);
    proof {
        lemma_root_roundtrip(new_root_header, new_root_entries);
        lemma_node_roundtrip(child_header, root_entries, block_size as int);
        assert(indices_at(root_area(*inode), 12, 1)[0] == ix);
        assert(block_bytes(dev.contents(), new_block, block_size) =~= node_image(child_header, root_entries, block_size as int));
    }
    Ok(())
}

/// Set the key of the entry taken at the path's last step to `new_key` and
/// write that node back.
fn update_index_key<D: CFSBlockDevice>(
    dev: &mut D,
    inode: &mut Inode,
    path: &[PathStep],
    new_key: u32,
    block_size: u32,
) -> (r: Result<(), VolumeError>)
    ensures
        root_only(*final(inode), *old(inode)),
        path@.len() == 0 || path@.last().3 >= path@.last().2@.len() ==> r is Ok && *final(inode) == *old(inode)
            && final(dev).contents() == old(dev).contents(),
        path@.len() > 0 && path@.last().3 < path@.last().2@.len() ==> ({
            let st = path@.last();
            let xs = st.2@.update(st.3 as int, ExtentIndex { ei_block: new_key, ..st.2@[st.3 as int] });
            &&& st.0 == 0 ==> final(dev).contents() == old(dev).contents() && if xs.len() <= EXTENT_ROOT_MAX_ENTRIES {
                r is Ok && root_area(*final(inode)) == header_bytes(st.1) + indices_bytes(xs) + zeros((84 - 12 * xs.len()) as nat)
            } else {
                r == Err::<(), VolumeError>(VolumeError::Invalid) && *final(inode) == *old(inode)
            }
            &&& st.0 != 0 ==> *final(inode) == *old(inode) && match r {
                Ok(_) => final(dev).contents() == written(
                    old(dev).contents(),
                    st.0 * block_size,
                    header_bytes(st.1) + indices_bytes(xs) + zeros((block_size - 12 - 12 * xs.len()) as nat),
                ),
                Err(_) => final(dev).contents() == old(dev).contents(),
            }
        }),
{
    if path.len() == 0 {
        return Ok(());
    }
    let level = path.len() - 1;
    let step = &path[level];
    let parent_block = step.0;
    let parent_header = step.1;
    let child_idx = step.3;
    let mut indices = copy_indices(&step.2);
    if child_idx < indices.len() {
        let mut e = indices[child_idx];
        e.ei_block = new_key;
        indices.set(child_idx, e);
        let entries = ExtentEntries::Indices(indices);
        write_node(dev, inode, parent_block, &parent_header, &entries, block_size)?;
    }
    Ok(())
}

/// First position whose key is above `key` (the end when none is).
fn index_insert_pos(indices: &Vec<ExtentIndex>, key: u32) -> (r: usize)
    ensures
        r <= indices@.len(),
        forall|j: int| 0 <= j < r ==> #[trigger] indices@[j].ei_block <= key,
        r < indices@.len() ==> indices@[r as int].ei_block > key,
{
    let mut i: usize = 0;
    while i < indices.len()
        invariant
            i <= indices@.len(),
            forall|j: int| 0 <= j < i ==> #[trigger] indices@[j].ei_block <= key,
        decreases indices@.len() - i,
    {
        if indices[i].ei_block > key {
            return i;
        }
        i = i + 1;
    }
    i
}

/// First position whose start is above `key` (the end when none is).
fn leaf_insert_pos(leaves: &Vec<ExtentLeaf>, key: u32) -> (r: usize)
    ensures
        r <= leaves@.len(),
        forall|j: int| 0 <= j < r ==> #[trigger] leaves@[j].ee_block <= key,
        r < leaves@.len() ==> leaves@[r as int].ee_block > key,
{
    let mut i: usize = 0;
    while i < leaves.len()
        invariant
            i <= leaves@.len(),
            forall|j: int| 0 <= j < i ==> #[trigger] leaves@[j].ee_block <= key,
        decreases leaves@.len() - i,
    {
        if leaves[i].ee_block > key {
            return i;
        }
        i = i + 1;
    }
    i
}

/// Add index entry `e` to a root that `grow_indepth` just made (one entry),
/// keeping keys in order (after an equal key).
fn add_to_new_root(inode: &mut Inode, e: ExtentIndex) -> (r: Result<(), VolumeError>)
    ensures
        root_only(*final(inode), *old(inode)),
        r is Err ==> *final(inode) == *old(inode),
        r is Ok ==> ({
            let h = header_at(root_area(*old(inode)), 0);
            let xs = indices_at(root_area(*old(inode)), 12, h.entries as int);
            &&& h.magic == EXTENT_MAGIC
            &&& h.depth > 0
            &&& h.entries < EXTENT_ROOT_MAX_ENTRIES
            &&& header_at(root_area(*final(inode)), 0) == (ExtentHeader { entries: (h.entries + 1) as u16, ..h })
            &&& exists|pos: int| {
                &&& 0 <= pos <= xs.len()
                &&& indices_at(root_area(*final(inode)), 12, h.entries + 1) == xs.insert(pos, e)
                &&& forall|j: int| 0 <= j < pos ==> #[trigger] xs[j].ei_block <= e.ei_block
                &&& pos < xs.len() ==> xs[pos].ei_block > e.ei_block
            }
        }),
{
    let (root_hdr, root_entries) = read_inode_extent_root(inode)?;
    let mut root_indices = match root_entries {
        ExtentEntries::Indices(idx) => idx,
        ExtentEntries::Leaves(_) => return Err(VolumeError::Invalid),
    };
    let ghost xs = root_indices@;
    let pos = index_insert_pos(&root_indices, e.ei_block);
    root_indices.insert(pos, e);
    if root_indices.len() > EXTENT_ROOT_MAX_ENTRIES as usize {
        return Err(VolumeError::Invalid);
    }
    let mut hdr = root_hdr;
    hdr.entries = root_indices.len() as u16;
    let entries = ExtentEntries::Indices(root_indices);
    write_inode_extent_root(inode, &hdr, &entries);
    proof {
        lemma_root_roundtrip(hdr, entries);
        assert(indices_at(root_area(*inode), 12, hdr.entries as int) == xs.insert(pos as int, e));
    }
    Ok(())
}

/// Insert index entry `new_index` into the node at the path's last step;
/// a full node is split in half, the right half going to a new block whose
/// entry is inserted one level up (growing the tree when the root splits).
fn insert_index_entry<D: CFSBlockDevice>(
    dev: &mut D,
    inode: &mut Inode,
    alloc: &mut BlockAlloc,
    sb: &mut Superblock,
    path: &[PathStep],
    new_index: ExtentIndex,
    block_size: u32,
) -> (r: Result<(), VolumeError>)
    requires
        old(alloc).wf(),
        block_size >= 96,
    ensures
        final(alloc).wf(),
        final(alloc).same_kind(old(alloc)),
        root_only(*final(inode), *old(inode)),
        sb_spent(*final(sb), *old(sb)),
    decreases path@.len(),
{
    if path.len() == 0 {
        return Err(VolumeError::Invalid);
    }
    let level = path.len() - 1;
    let step = &path[level];
    let parent_block = step.0;
    let parent_header = step.1;
    let mut indices = copy_indices(&step.2);
    let insert_pos = index_insert_pos(&indices, new_index.ei_block);
    if indices.len() < parent_header.max as usize {
        indices.insert(insert_pos, new_index);
        let mut hdr = parent_header;
        hdr.entries = indices.len() as u16;
        let entries = ExtentEntries::Indices(indices);
        return write_node(dev, inode, parent_block, &hdr, &entries, block_size);
    }
    indices.insert(insert_pos, new_index);
    let mid = indices.len() / 2;
    let right_indices = indices.split_off(mid);
    let left_indices = indices;
    let split_key = right_indices[0].ei_block;
    let mut left_hdr = parent_header;
    left_hdr.entries = left_indices.len() as u16;
    let left_entries = ExtentEntries::Indices(left_indices);
    write_node(dev, inode, parent_block, &left_hdr, &left_entries, block_size)?;
    let new_idx_block = alloc_node_block(dev, alloc, sb)?;
    let mut right_hdr = ExtentHeader::new_index(block_size, parent_header.depth);
    if right_indices.len() > u16::MAX as usize {
        return Err(VolumeError::Invalid);
    }
    right_hdr.entries = right_indices.len() as u16;
    let right_entries = ExtentEntries::Indices(right_indices);
    write_node(dev, inode, new_idx_block, &right_hdr, &right_entries, block_size)?;
    let right_entry = ExtentIndex::new(split_key, new_idx_block);
    if parent_block == 0 || level == 0 {
        grow_indepth(dev, inode, alloc, sb, block_size)?;
        return add_to_new_root(inode, right_entry);
    }
    let parent_path = vstd::slice::slice_subrange(path, 0, level);
    insert_index_entry(dev, inode, alloc, sb, parent_path, right_entry, block_size)
}

/// The leaves held by the extent node in block `b`.
pub open spec fn node_leaves(c: Seq<u8>, b: u64, bs: u32) -> Seq<ExtentLeaf> {
    leaves_at(block_bytes(c, b, bs), 12, le16(block_bytes(c, b, bs), 2) as int)
}

/// The extent node in block `b` has room for another entry.
pub open spec fn node_has_room(c: Seq<u8>, b: u64, bs: u32) -> bool {
    le16(block_bytes(c, b, bs), 2) < le16(block_bytes(c, b, bs), 4)
}

/// The inode's root (an index node) sends logical block `key` to block `b`:
/// the child of the last index starting at or before `key`, the first one
/// when none does.
pub open spec fn child_for(inode: Inode, b: u64, key: u32) -> bool {
    let xs = indices_at(root_area(inode), 12, le16(root_area(inode), 2) as int);
    exists|lo: int| #[trigger] splits_at(index_starts(xs), key, lo) && {
        let k = if lo == 0 { 0 } else { lo - 1 };
        0 <= k < xs.len() && index_child(xs[k]) == b
    }
}

/// Insert a leaf into a tree of depth 1 or more: descend to the leaf node
/// for its start, merge or insert it there, splitting a full node (the
/// right half goes to a new block whose entry is inserted into the parent),
/// and update the parent's key when the node's first entry changed.
/// `Invalid` for an empty index node, a child not below its parent, or a
/// node whose entries do not fit.
fn insert_into_tree<D: CFSBlockDevice>(
    dev: &mut D,
    inode: &mut Inode,
    alloc: &mut BlockAlloc,
    sb: &mut Superblock,
    new_ext: ExtentLeaf,
    block_size: u32,
) -> (r: Result<(), VolumeError>)
    requires
        old(alloc).wf(),
        block_size >= 96,
        new_ext.ee_block + leaf_count(new_ext) <= u32::MAX,
    ensures
        final(alloc).wf(),
        final(alloc).same_kind(old(alloc)),
        root_only(*final(inode), *old(inode)),
        sb_spent(*final(sb), *old(sb)),
        le16(root_area(*old(inode)), 0) == EXTENT_MAGIC && le16(root_area(*old(inode)), 6) == 1 && le16(root_area(*old(inode)), 2)
            <= EXTENT_ROOT_MAX_ENTRIES && sorted_starts(index_starts(indices_at(root_area(*old(inode)), 12, le16(root_area(*old(inode)), 2) as int)))
            && r is Ok ==> exists|b: u64| #[trigger] child_for(*old(inode), b, new_ext.ee_block) && (b != 0 ==> {
            let ls0 = node_leaves(old(dev).contents(), b, block_size);
            let ls1 = node_leaves(final(dev).contents(), b, block_size);
            &&& node_has_room(old(dev).contents(), b, block_size) && disjoint_sorted(ls0) && !merges_into(ls0, new_ext) ==> {
                &&& maps_with(ls1, ls0, new_ext)
                &&& apart_from(ls0, new_ext) && leaf_count(new_ext) > 0 ==> disjoint_sorted(ls1)
            }
            &&& disjoint_sorted(ls0) && merges_into(ls0, new_ext) && (!leaf_uninit(new_ext) || !left_mergeable(ls0, new_ext))
                ==> maps_with(ls1, ls0, new_ext)
        }),
{
    let (root_header, root_entries) = read_inode_extent_root(inode)?;
    let mut path: Vec<PathStep> = Vec::new();
    let mut header = root_header;
    let mut entries = root_entries;
    let mut current_block: u64 = 0;
    let ghost ra = root_area(*old(inode));
    let ghost xs0 = indices_at(ra, 12, le16(ra, 2) as int);
    let ghost d1 = le16(ra, 0) == EXTENT_MAGIC && le16(ra, 6) == 1 && le16(ra, 2) <= EXTENT_ROOT_MAX_ENTRIES
        && sorted_starts(index_starts(xs0));
    let ghost c = dev.contents();
    proof {
        if d1 {
            assert(header == header_at(ra, 0));
            assert(entries_match(entries, header, ra));
        }
    }
    while header.depth > 0
        invariant
            block_size >= 96,
            *alloc == *old(alloc),
            alloc.wf(),
            *inode == *old(inode),
            *sb == *old(sb),
            dev.contents() == c,
            c == old(dev).contents(),
            ra == root_area(*old(inode)),
            xs0 == indices_at(ra, 12, le16(ra, 2) as int),
            d1 == (le16(ra, 0) == EXTENT_MAGIC && le16(ra, 6) == 1 && le16(ra, 2) <= EXTENT_ROOT_MAX_ENTRIES
                && sorted_starts(index_starts(xs0))),
            d1 ==> header.depth <= 1,
            d1 && header.depth == 1 ==> path@.len() == 0 && current_block == 0 && header == header_at(ra, 0)
                && entries_match(entries, header, ra),
            d1 && header.depth == 0 ==> {
                &&& path@.len() == 1
                &&& path@[0].0 == 0
                &&& child_for(*old(inode), current_block, new_ext.ee_block)
                &&& current_block * block_size + block_size <= c.len()
                &&& header == header_at(block_bytes(c, current_block, block_size), 0)
                &&& entries_match(entries, header, block_bytes(c, current_block, block_size))
            },
        decreases header.depth,
    {
        let indices = match entries {
            ExtentEntries::Indices(idx) => idx,
            ExtentEntries::Leaves(_) => return Err(VolumeError::Invalid),
        };
        if indices.len() == 0 {
            return Err(VolumeError::Invalid);
        }
        let child_idx = bsearch_index(indices.as_slice(), new_ext.ee_block);
        let child_block = indices[child_idx].child_block();
        proof {
            if d1 {
                assert(indices@ == xs0);
                let lo = choose|lo: int| splits_at(index_starts(indices@), new_ext.ee_block, lo) && child_idx == (if lo == 0 { 0 } else { lo - 1 });
                assert(splits_at(index_starts(xs0), new_ext.ee_block, lo));
                assert(child_for(*old(inode), child_block, new_ext.ee_block));
            }
        }
        path.push((current_block, header, indices, child_idx));
        let (child_header, child_entries) = read_extent_block(dev, child_block, block_size)?;
        if child_header.depth >= header.depth {
            return Err(VolumeError::Invalid);
        }
        current_block = child_block;
        header = child_header;
        entries = child_entries;
    }
    let mut leaves = match entries {
        ExtentEntries::Leaves(l) => l,
        ExtentEntries::Indices(_) => return Err(VolumeError::Invalid),
    };
    if !check_leaves(&leaves) {
        return Err(VolumeError::Invalid);
    }
    if leaves.len() > u16::MAX as usize {
        return Err(VolumeError::Invalid);
    }
    let ghost ls0 = leaves@;
    if try_merge_leaf(&mut leaves, &new_ext) {
        let mut hdr = header;
        hdr.entries = leaves.len() as u16;
        let ghost lm = leaves@;
        let es = ExtentEntries::Leaves(leaves);
        let rw = write_node(dev, inode, current_block, &hdr, &es, block_size);
        proof {
            if d1 && current_block != 0 && rw is Ok {
                lemma_node_roundtrip(hdr, es, block_size as int);
                let img = node_image(hdr, es, block_size as int);
                assert(block_bytes(dev.contents(), current_block, block_size) =~= img);
                assert(node_leaves(dev.contents(), current_block, block_size) == lm);
                assert(node_leaves(c, current_block, block_size) == ls0);
            }
        }
        return rw;
    }
    let insert_pos = leaf_insert_pos(&leaves, new_ext.ee_block);
    if !header.is_full() {
        leaves.insert(insert_pos, new_ext);
        let mut hdr = header;
        if leaves.len() > u16::MAX as usize {
            return Err(VolumeError::Invalid);
        }
        hdr.entries = leaves.len() as u16;
        let first_key = leaves[0].ee_block;
        let ghost ls1 = leaves@;
        proof {
            lemma_insert_with(ls0, insert_pos as int, new_ext);
            if disjoint_sorted(ls0) && apart_from(ls0, new_ext) && leaf_count(new_ext) > 0 {
                lemma_insert_sorted(ls0, insert_pos as int, new_ext);
            }
        }
        let es = ExtentEntries::Leaves(leaves);
        write_node(dev, inode, current_block, &hdr, &es, block_size)?;
        let ghost c1 = dev.contents();
        proof {
            if d1 && current_block != 0 {
                lemma_node_roundtrip(hdr, es, block_size as int);
                let img = node_image(hdr, es, block_size as int);
                assert(block_bytes(c1, current_block, block_size) =~= img);
                assert(node_leaves(c1, current_block, block_size) == ls1);
                assert(node_leaves(c, current_block, block_size) == ls0);
            }
        }
        if insert_pos == 0 && path.len() > 0 {
            update_index_key(dev, inode, path.as_slice(), first_key, block_size)?;
            proof {
                if d1 {
                    assert(dev.contents() == c1);
                }
            }
        }
        return Ok(());
    }
    leaves.insert(insert_pos, new_ext);
    let mid = leaves.len() / 2;
    let right_leaves = leaves.split_off(mid);
    let left_leaves = leaves;
    let split_key = right_leaves[0].ee_block;
    let needs_key = insert_pos == 0 && path.len() > 0;
    if needs_key && left_leaves.len() == 0 {
        return Err(VolumeError::Invalid);
    }
    let left_first = if left_leaves.len() > 0 {
        left_leaves[0].ee_block
    } else {
        0
    };
    let mut left_hdr = header;
    if left_leaves.len() > u16::MAX as usize || right_leaves.len() > u16::MAX as usize {
        return Err(VolumeError::Invalid);
    }
    left_hdr.entries = left_leaves.len() as u16;
    let left_es = ExtentEntries::Leaves(left_leaves);
    write_node(dev, inode, current_block, &left_hdr, &left_es, block_size)?;
    let new_leaf_block = alloc_node_block(dev, alloc, sb)?;
    let mut right_hdr = ExtentHeader::new_leaf(block_size);
    right_hdr.entries = right_leaves.len() as u16;
    let right_es = ExtentEntries::Leaves(right_leaves);
    write_node(dev, inode, new_leaf_block, &right_hdr, &right_es, block_size)?;
    if needs_key {
        update_index_key(dev, inode, path.as_slice(), left_first, block_size)?;
    }
    let new_index = ExtentIndex::new(split_key, new_leaf_block);
    insert_index_entry(dev, inode, alloc, sb, path.as_slice(), new_index, block_size)
}

/// Insert a built leaf: in a depth-0 root, merge it or insert it in order,
/// growing the tree first when the root is full; deeper trees go through
/// `insert_into_tree`.
fn extent_insert_leaf<D: CFSBlockDevice>(
    dev: &mut D,
    inode: &mut Inode,
    alloc: &mut BlockAlloc,
    sb: &mut Superblock,
    new_ext: ExtentLeaf,
    block_size: u32,
) -> (r: Result<(), VolumeError>)
    requires
        old(alloc).wf(),
        block_size >= 96,
        new_ext.ee_block + leaf_count(new_ext) <= u32::MAX,
    ensures
        final(alloc).wf(),
        final(alloc).same_kind(old(alloc)),
        root_only(*final(inode), *old(inode)),
        sb_spent(*final(sb), *old(sb)),
        flat_root(*old(inode)) && le16(root_area(*old(inode)), 2) < le16(root_area(*old(inode)), 4) && (!leaf_uninit(new_ext) || (
        disjoint_sorted(root_leaves(*old(inode))) && !left_mergeable(root_leaves(*old(inode)), new_ext))) ==> match r {
            Ok(_) => flat_root(*final(inode)) && maps_with(root_leaves(*final(inode)), root_leaves(*old(inode)), new_ext),
            Err(e) => e == VolumeError::Invalid && *final(inode) == *old(inode),
        },
        flat_root(*old(inode)) && le16(root_area(*old(inode)), 2) < le16(root_area(*old(inode)), 4) && le16(
            root_area(*old(inode)),
            2,
        ) < EXTENT_ROOT_MAX_ENTRIES && leaves_sane(root_leaves(*old(inode))) ==> r is Ok,
        flat_root(*old(inode)) && le16(root_area(*old(inode)), 2) < le16(root_area(*old(inode)), 4) && disjoint_sorted(
            root_leaves(*old(inode)),
        ) && apart_from(root_leaves(*old(inode)), new_ext) && leaf_count(new_ext) > 0 && !merges_into(
            root_leaves(*old(inode)),
            new_ext,
        ) && r is Ok ==> disjoint_sorted(root_leaves(*final(inode))),
        le16(root_area(*old(inode)), 0) == EXTENT_MAGIC && le16(root_area(*old(inode)), 6) == 1 && le16(root_area(*old(inode)), 2)
            <= EXTENT_ROOT_MAX_ENTRIES && sorted_starts(index_starts(indices_at(root_area(*old(inode)), 12, le16(root_area(*old(inode)), 2) as int)))
            && r is Ok ==> exists|b: u64| #[trigger] child_for(*old(inode), b, new_ext.ee_block) && (b != 0 ==> {
            let ls0 = node_leaves(old(dev).contents(), b, block_size);
            let ls1 = node_leaves(final(dev).contents(), b, block_size);
            &&& node_has_room(old(dev).contents(), b, block_size) && disjoint_sorted(ls0) && !merges_into(ls0, new_ext) ==> {
                &&& maps_with(ls1, ls0, new_ext)
                &&& apart_from(ls0, new_ext) && leaf_count(new_ext) > 0 ==> disjoint_sorted(ls1)
            }
            &&& disjoint_sorted(ls0) && merges_into(ls0, new_ext) && (!leaf_uninit(new_ext) || !left_mergeable(ls0, new_ext))
                ==> maps_with(ls1, ls0, new_ext)
        }),
{
    let (root_header, root_entries) = read_inode_extent_root(inode)?;
    if root_header.depth == 0 {
        let mut leaves = match root_entries {
            ExtentEntries::Leaves(l) => l,
            ExtentEntries::Indices(_) => return Err(VolumeError::Invalid),
        };
        if !check_leaves(&leaves) || leaves.len() > EXTENT_ROOT_MAX_ENTRIES as usize {
            return Err(VolumeError::Invalid);
        }
        let ghost orig = leaves@;
        if try_merge_leaf(&mut leaves, &new_ext) {
            let mut hdr = root_header;
            hdr.entries = leaves.len() as u16;
            let ghost kept = leaves@;
            let es = ExtentEntries::Leaves(leaves);
            write_inode_extent_root(inode, &hdr, &es);
            proof {
                lemma_root_roundtrip(hdr, es);
                assert(root_leaves(*inode) == kept);
            }
            return Ok(());
        }
        let insert_pos = leaf_insert_pos(&leaves, new_ext.ee_block);
        if (leaves.len() as u16) < root_header.max {
            leaves.insert(insert_pos, new_ext);
            proof {
                lemma_insert_with(orig, insert_pos as int, new_ext);
                if disjoint_sorted(orig) && apart_from(orig, new_ext) && leaf_count(new_ext) > 0 {
                    lemma_insert_sorted(orig, insert_pos as int, new_ext);
                }
            }
            if leaves.len() > EXTENT_ROOT_MAX_ENTRIES as usize {
                return Err(VolumeError::Invalid);
            }
            let mut hdr = root_header;
            hdr.entries = leaves.len() as u16;
            let ghost kept = leaves@;
            let es = ExtentEntries::Leaves(leaves);
            write_inode_extent_root(inode, &hdr, &es);
            proof {
                lemma_root_roundtrip(hdr, es);
                assert(root_leaves(*inode) == kept);
            }
            return Ok(());
        }
        assert(!(flat_root(*old(inode)) && le16(root_area(*old(inode)), 2) < le16(root_area(*old(inode)), 4)));
        grow_indepth(dev, inode, alloc, sb, block_size)?;
    }
    insert_into_tree(dev, inode, alloc, sb, new_ext, block_size)
}

/// Map logical blocks `[logical_block, logical_block + length)` to physical
/// blocks from `physical_block` (see `extent_insert_leaf`).
pub fn extent_insert<D: CFSBlockDevice>(
    dev: &mut D,
    inode: &mut Inode,
    alloc: &mut BlockAlloc,
    sb: &mut Superblock,
    logical_block: u32,
    physical_block: u64,
    length: u16,
    block_size: u32,
) -> (r: Result<(), VolumeError>)
    requires
        old(alloc).wf(),
        block_size >= 96,
        0 < length <= 32767,
        logical_block + length <= u32::MAX,
    ensures
        final(alloc).wf(),
        final(alloc).same_kind(old(alloc)),
        root_only(*final(inode), *old(inode)),
        sb_spent(*final(sb), *old(sb)),
        flat_root(*old(inode)) && le16(root_area(*old(inode)), 2) < le16(root_area(*old(inode)), 4) ==> match r {
            Ok(_) => {
                &&& flat_root(*final(inode))
                &&& forall|x: int, p: int, u: bool|
                    #![trigger leaves_map(root_leaves(*final(inode)), x, p, u)]
                    leaves_map(root_leaves(*final(inode)), x, p, u) == (leaves_map(root_leaves(*old(inode)), x, p, u) || (
                    logical_block <= x < logical_block + length && p == (physical_block % 0x1_0000_0000_0000 + (x
                        - logical_block)) % 0x1_0000_0000_0000 && !u))
            },
            Err(e) => e == VolumeError::Invalid && *final(inode) == *old(inode),
        },
        flat_root(*old(inode)) && le16(root_area(*old(inode)), 2) < le16(root_area(*old(inode)), 4) && le16(
            root_area(*old(inode)),
            2,
        ) < EXTENT_ROOT_MAX_ENTRIES && leaves_sane(root_leaves(*old(inode))) ==> r is Ok,
        le16(root_area(*old(inode)), 0) == EXTENT_MAGIC && le16(root_area(*old(inode)), 6) == 1 && le16(root_area(*old(inode)), 2)
            <= EXTENT_ROOT_MAX_ENTRIES && sorted_starts(index_starts(indices_at(root_area(*old(inode)), 12, le16(root_area(*old(inode)), 2) as int)))
            && r is Ok ==> exists|e: ExtentLeaf, b: u64| #![trigger child_for(*old(inode), b, logical_block), leaf_count(e)] {
            let ls0 = node_leaves(old(dev).contents(), b, block_size);
            let ls1 = node_leaves(final(dev).contents(), b, block_size);
            &&& e.ee_block == logical_block && leaf_count(e) == length && !leaf_uninit(e)
            &&& leaf_physical(e) == physical_block % 0x1_0000_0000_0000
            &&& child_for(*old(inode), b, logical_block)
            &&& b != 0 && node_has_room(old(dev).contents(), b, block_size) && disjoint_sorted(ls0) && !merges_into(ls0, e) ==> {
                &&& maps_with(ls1, ls0, e)
                &&& apart_from(ls0, e) ==> disjoint_sorted(ls1)
            }
            &&& b != 0 && disjoint_sorted(ls0) && merges_into(ls0, e) ==> maps_with(ls1, ls0, e)
        },
        flat_root(*old(inode)) && le16(root_area(*old(inode)), 2) < le16(root_area(*old(inode)), 4) && disjoint_sorted(
            root_leaves(*old(inode)),
        ) && (forall|j: int| 0 <= j < root_leaves(*old(inode)).len() ==> #[trigger] root_leaves(*old(inode))[j].ee_block
            + leaf_count(root_leaves(*old(inode))[j]) <= logical_block || logical_block + length <= root_leaves(*old(inode))[j].ee_block)
            && r is Ok ==> exists|e: ExtentLeaf| #![trigger leaf_count(e)] {
                &&& e.ee_block == logical_block && leaf_count(e) == length && !leaf_uninit(e)
                &&& leaf_physical(e) == physical_block % 0x1_0000_0000_0000
                &&& !merges_into(root_leaves(*old(inode)), e) ==> disjoint_sorted(root_leaves(*final(inode)))
            },
{
    let new_ext = ExtentLeaf::new(logical_block, physical_block, length);
    let r = extent_insert_leaf(dev, inode, alloc, sb, new_ext, block_size);
    proof {
        assert(leaf_count(new_ext) == length);
        if flat_root(*old(inode)) && le16(root_area(*old(inode)), 2) < le16(root_area(*old(inode)), 4) && r is Ok {
            assert forall|x: int, p: int, u: bool|
                #![trigger leaves_map(root_leaves(*inode), x, p, u)]
                leaves_map(root_leaves(*inode), x, p, u) == (leaves_map(root_leaves(*old(inode)), x, p, u) || (
                logical_block <= x < logical_block + length && p == (physical_block % 0x1_0000_0000_0000 + (x
                    - logical_block)) % 0x1_0000_0000_0000 && !u)) by {
                assert(leaves_map(root_leaves(*inode), x, p, u) == (leaves_map(root_leaves(*old(inode)), x, p, u)
                    || leaf_maps(new_ext, x, p, u)));
            }
        }
    }
    r
}

/// As `extent_insert`, for a preallocated (uninitialized) extent.
pub fn extent_insert_uninit<D: CFSBlockDevice>(
    dev: &mut D,
    inode: &mut Inode,
    alloc: &mut BlockAlloc,
    sb: &mut Superblock,
    logical_block: u32,
    physical_block: u64,
    length: u16,
    block_size: u32,
) -> (r: Result<(), VolumeError>)
    requires
        old(alloc).wf(),
        block_size >= 96,
        0 < length <= 32767,
        logical_block + length <= u32::MAX,
    ensures
        final(alloc).wf(),
        final(alloc).same_kind(old(alloc)),
        root_only(*final(inode), *old(inode)),
        sb_spent(*final(sb), *old(sb)),
        flat_root(*old(inode)) && le16(root_area(*old(inode)), 2) < le16(root_area(*old(inode)), 4) && disjoint_sorted(
            root_leaves(*old(inode)),
        ) && !(exists|i: int| #[trigger] last_at_or_before(root_leaves(*old(inode)), i, logical_block) && {
            let l = root_leaves(*old(inode))[i];
            &&& l.ee_block + leaf_count(l) == logical_block
            &&& leaf_physical(l) + leaf_count(l) == physical_block % 0x1_0000_0000_0000
            &&& leaf_uninit(l)
            &&& leaf_count(l) + length <= EXTENT_MAX_LEN_INIT
        }) ==> match r {
            Ok(_) => {
                &&& flat_root(*final(inode))
                &&& forall|x: int, p: int, u: bool|
                    #![trigger leaves_map(root_leaves(*final(inode)), x, p, u)]
                    leaves_map(root_leaves(*final(inode)), x, p, u) == (leaves_map(root_leaves(*old(inode)), x, p, u) || (
                    logical_block <= x < logical_block + length && p == (physical_block % 0x1_0000_0000_0000 + (x
                        - logical_block)) % 0x1_0000_0000_0000 && u))
            },
            Err(e) => e == VolumeError::Invalid && *final(inode) == *old(inode),
        },
        flat_root(*old(inode)) && le16(root_area(*old(inode)), 2) < le16(root_area(*old(inode)), 4) && le16(
            root_area(*old(inode)),
            2,
        ) < EXTENT_ROOT_MAX_ENTRIES && leaves_sane(root_leaves(*old(inode))) ==> r is Ok,
{
    let new_ext = ExtentLeaf::new_uninit(logical_block, physical_block, length);
    let r = extent_insert_leaf(dev, inode, alloc, sb, new_ext, block_size);
    proof {
        if flat_root(*old(inode)) && le16(root_area(*old(inode)), 2) < le16(root_area(*old(inode)), 4) && r is Ok
            && disjoint_sorted(root_leaves(*old(inode))) && !left_mergeable(root_leaves(*old(inode)), new_ext) {
            assert forall|x: int, p: int, u: bool|
                #![trigger leaves_map(root_leaves(*inode), x, p, u)]
                leaves_map(root_leaves(*inode), x, p, u) == (leaves_map(root_leaves(*old(inode)), x, p, u) || (
                logical_block <= x < logical_block + length && p == (physical_block % 0x1_0000_0000_0000 + (x
                    - logical_block)) % 0x1_0000_0000_0000 && u)) by {
                assert(leaves_map(root_leaves(*inode), x, p, u) == (leaves_map(root_leaves(*old(inode)), x, p, u)
                    || leaf_maps(new_ext, x, p, u)));
            }
        }
    }
    r
}


/// Whether leaf `l` maps any block of `[start, end)`.
pub open spec fn overlaps(l: ExtentLeaf, start: u32, end: u32) -> bool {
    l.ee_block < end && start < l.ee_block + leaf_count(l)
}

/// Append the physical blocks `[first, first + n)`.
fn push_run(out: &mut Vec<u64>, first: u64, n: u32)
    requires
        first + n <= u64::MAX,
    ensures
        final(out)@ == old(out)@ + Seq::new(n as nat, |j: int| (first + j) as u64),
{
    let ghost o = out@;
    let mut j: u32 = 0;
    while j < n
        invariant
            j <= n,
            first + n <= u64::MAX,
            out@ == o + Seq::new(j as nat, |q: int| (first + q) as u64),
        decreases n - j,
    {
        out.push(first + j as u64);
        j = j + 1;
        assert(out@ =~= o + Seq::new(j as nat, |q: int| (first + q) as u64));
    }
}

/// Leaf `l` maps logical block `x` to physical block `p` (block numbers are
/// 48 bits wide), as a preallocated block when `u` holds.
pub open spec fn leaf_maps(l: ExtentLeaf, x: int, p: int, u: bool) -> bool {
    &&& l.ee_block <= x < l.ee_block + leaf_count(l)
    &&& p == (leaf_physical(l) + (x - l.ee_block)) % 0x1_0000_0000_0000
    &&& u == leaf_uninit(l)
}

/// Some leaf of `ls` maps `x` to `p`, preallocated or not as `u` says.
pub open spec fn leaves_map(ls: Seq<ExtentLeaf>, x: int, p: int, u: bool) -> bool {
    exists|i: int| 0 <= i < ls.len() && #[trigger] leaf_maps(ls[i], x, p, u)
}

/// Logical block `x` lies outside `[start, end)`.
pub open spec fn outside(x: int, start: u32, end: u32) -> bool {
    x < start || end <= x
}

/// `a` and `b` map every logical block outside `[start, end)` alike.
pub open spec fn same_outside(a: Seq<ExtentLeaf>, b: Seq<ExtentLeaf>, start: u32, end: u32) -> bool {
    forall|x: int, p: int, u: bool|
        #![trigger leaves_map(a, x, p, u)]
        #![trigger leaves_map(b, x, p, u)]
        outside(x, start, end) ==> (leaves_map(a, x, p, u) == leaves_map(b, x, p, u))
}

/// Leaf `l` maps blocks outside `[start, end)` exactly as leaf `e` does.
pub open spec fn same_leaf_outside(l: ExtentLeaf, e: ExtentLeaf, start: u32, end: u32) -> bool {
    forall|x: int, p: int, u: bool|
        #![trigger leaf_maps(l, x, p, u)]
        #![trigger leaf_maps(e, x, p, u)]
        outside(x, start, end) ==> (leaf_maps(l, x, p, u) == leaf_maps(e, x, p, u))
}

proof fn lemma_same_trans(a: Seq<ExtentLeaf>, b: Seq<ExtentLeaf>, c: Seq<ExtentLeaf>, start: u32, end: u32)
    requires
        same_outside(a, b, start, end),
        same_outside(b, c, start, end),
    ensures
        same_outside(a, c, start, end),
{
    assert forall|x: int, p: int, u: bool| outside(x, start, end) implies (leaves_map(a, x, p, u) == leaves_map(c, x, p, u)) by {
        assert(leaves_map(a, x, p, u) == leaves_map(b, x, p, u));
        assert(leaves_map(b, x, p, u) == leaves_map(c, x, p, u));
    }
}

/// Dropping a leaf that lies inside `[start, end)` changes no mapping outside it.
proof fn lemma_remove_same(ls: Seq<ExtentLeaf>, i: int, start: u32, end: u32)
    requires
        0 <= i < ls.len(),
        start <= ls[i].ee_block,
        ls[i].ee_block + leaf_count(ls[i]) <= end,
    ensures
        same_outside(ls.remove(i), ls, start, end),
{
    let r = ls.remove(i);
    assert forall|x: int, p: int, u: bool| outside(x, start, end) implies (leaves_map(r, x, p, u) == leaves_map(ls, x, p, u)) by {
        if leaves_map(r, x, p, u) {
            let k = choose|k: int| 0 <= k < r.len() && #[trigger] leaf_maps(r[k], x, p, u);
            let k2 = if k < i { k } else { k + 1 };
            assert(r[k] == ls[k2]);
            assert(leaf_maps(ls[k2], x, p, u));
        }
        if leaves_map(ls, x, p, u) {
            let k = choose|k: int| 0 <= k < ls.len() && #[trigger] leaf_maps(ls[k], x, p, u);
            assert(k != i);
            let k2 = if k < i { k } else { k - 1 };
            assert(r[k2] == ls[k]);
            assert(leaf_maps(r[k2], x, p, u));
        }
    }
}

/// Replacing leaf `i` by one that maps alike outside `[start, end)` changes
/// no mapping outside it.
proof fn lemma_update_same(ls: Seq<ExtentLeaf>, i: int, l: ExtentLeaf, start: u32, end: u32)
    requires
        0 <= i < ls.len(),
        same_leaf_outside(l, ls[i], start, end),
    ensures
        same_outside(ls.update(i, l), ls, start, end),
{
    let r = ls.update(i, l);
    assert forall|x: int, p: int, u: bool| outside(x, start, end) implies (leaves_map(r, x, p, u) == leaves_map(ls, x, p, u)) by {
        if leaves_map(r, x, p, u) {
            let k = choose|k: int| 0 <= k < r.len() && #[trigger] leaf_maps(r[k], x, p, u);
            if k == i {
                assert(leaf_maps(l, x, p, u) == leaf_maps(ls[i], x, p, u));
            }
            assert(leaf_maps(ls[k], x, p, u));
        }
        if leaves_map(ls, x, p, u) {
            let k = choose|k: int| 0 <= k < ls.len() && #[trigger] leaf_maps(ls[k], x, p, u);
            if k == i {
                assert(leaf_maps(l, x, p, u) == leaf_maps(ls[i], x, p, u));
            }
            assert(leaf_maps(r[k], x, p, u));
        }
    }
}

/// Splitting leaf `i` into `a` and `b`, which together map alike outside
/// `[start, end)`, changes no mapping outside it.
proof fn lemma_split_same(ls: Seq<ExtentLeaf>, i: int, a: ExtentLeaf, b: ExtentLeaf, start: u32, end: u32)
    requires
        0 <= i < ls.len(),
        forall|x: int, p: int, u: bool|
            #![trigger leaf_maps(ls[i], x, p, u)]
            outside(x, start, end) ==> (leaf_maps(ls[i], x, p, u) == (leaf_maps(a, x, p, u) || leaf_maps(b, x, p, u))),
    ensures
        same_outside(ls.update(i, a).insert(i + 1, b), ls, start, end),
{
    let r = ls.update(i, a).insert(i + 1, b);
    assert forall|x: int, p: int, u: bool| outside(x, start, end) implies (leaves_map(r, x, p, u) == leaves_map(ls, x, p, u)) by {
        if leaves_map(r, x, p, u) {
            let k = choose|k: int| 0 <= k < r.len() && #[trigger] leaf_maps(r[k], x, p, u);
            if k == i || k == i + 1 {
                assert(leaf_maps(ls[i], x, p, u));
            } else {
                let k2 = if k < i { k } else { k - 1 };
                assert(r[k] == ls[k2]);
                assert(leaf_maps(ls[k2], x, p, u));
            }
        }
        if leaves_map(ls, x, p, u) {
            let k = choose|k: int| 0 <= k < ls.len() && #[trigger] leaf_maps(ls[k], x, p, u);
            if k == i {
                if leaf_maps(a, x, p, u) {
                    assert(r[i] == a);
                    assert(leaf_maps(r[i], x, p, u));
                } else {
                    assert(r[i + 1] == b);
                    assert(leaf_maps(r[i + 1], x, p, u));
                }
            } else {
                let k2 = if k < i { k } else { k + 1 };
                assert(r[k2] == ls[k]);
                assert(leaf_maps(r[k2], x, p, u));
            }
        }
    }
}

proof fn lemma_shift_mod(a: int, d: int, e: int)
    requires
        0 <= a,
        0 <= d,
        0 <= e,
    ensures
        ((a + d) % 0x1_0000_0000_0000 + e) % 0x1_0000_0000_0000 == (a + d + e) % 0x1_0000_0000_0000,
{
    vstd::arithmetic::div_mod::lemma_add_mod_noop(a + d, e, 0x1_0000_0000_0000);
    vstd::arithmetic::div_mod::lemma_mod_twice(a + d, 0x1_0000_0000_0000);
    vstd::arithmetic::div_mod::lemma_add_mod_noop((a + d) % 0x1_0000_0000_0000, e, 0x1_0000_0000_0000);
    vstd::arithmetic::div_mod::lemma_mod_twice(e, 0x1_0000_0000_0000);
}

/// A leaf that keeps the part of `e` from `keep` on maps blocks outside
/// `[start, end)` as `e` does, when `[start, keep)` covers what was cut.
proof fn lemma_trim_front(l: ExtentLeaf, e: ExtentLeaf, keep: int, start: u32, end: u32)
    requires
        start <= e.ee_block,
        e.ee_block <= keep <= end,
        keep < e.ee_block + leaf_count(e),
        l.ee_block == keep,
        leaf_count(l) == e.ee_block + leaf_count(e) - keep,
        leaf_physical(l) == (leaf_physical(e) + (keep - e.ee_block)) % 0x1_0000_0000_0000,
        leaf_uninit(l) == leaf_uninit(e),
    ensures
        same_leaf_outside(l, e, start, end),
{
    assert forall|x: int, p: int, u: bool| outside(x, start, end) implies (leaf_maps(l, x, p, u) == leaf_maps(e, x, p, u)) by {
        if keep <= x {
            lemma_shift_mod(leaf_physical(e), keep - e.ee_block, x - keep);
        }
    }
}

/// A leaf that keeps the first `n` blocks of `e` maps blocks outside
/// `[start, end)` as `e` does, when what was cut lies in `[start, end)`.
proof fn lemma_trim_back(l: ExtentLeaf, e: ExtentLeaf, n: int, start: u32, end: u32)
    requires
        0 < n <= leaf_count(e),
        start == e.ee_block + n,
        e.ee_block + leaf_count(e) <= end,
        l.ee_block == e.ee_block,
        leaf_count(l) == n,
        leaf_physical(l) == leaf_physical(e),
        leaf_uninit(l) == leaf_uninit(e),
    ensures
        same_leaf_outside(l, e, start, end),
{
    assert forall|x: int, p: int, u: bool| outside(x, start, end) implies (leaf_maps(l, x, p, u) == leaf_maps(e, x, p, u)) by {
        if x < start {
            assert(leaf_maps(l, x, p, u) == leaf_maps(e, x, p, u));
        } else {
            assert(!leaf_maps(l, x, p, u) && !leaf_maps(e, x, p, u));
        }
    }
}

/// Cutting `[start, end)` out of the middle of `e` leaves a front part `a`
/// and a back part `b` that together map blocks outside the range as `e`.
proof fn lemma_split_parts(e: ExtentLeaf, a: ExtentLeaf, b: ExtentLeaf, start: u32, end: u32)
    requires
        e.ee_block < start < end < e.ee_block + leaf_count(e),
        a.ee_block == e.ee_block,
        leaf_count(a) == start - e.ee_block,
        leaf_physical(a) == leaf_physical(e),
        leaf_uninit(a) == leaf_uninit(e),
        b.ee_block == end,
        leaf_count(b) == e.ee_block + leaf_count(e) - end,
        leaf_physical(b) == (leaf_physical(e) + (end - e.ee_block)) % 0x1_0000_0000_0000,
        leaf_uninit(b) == leaf_uninit(e),
    ensures
        forall|x: int, p: int, u: bool|
            #![trigger leaf_maps(e, x, p, u)]
            outside(x, start, end) ==> (leaf_maps(e, x, p, u) == (leaf_maps(a, x, p, u) || leaf_maps(b, x, p, u))),
{
    assert forall|x: int, p: int, u: bool| outside(x, start, end) implies (leaf_maps(e, x, p, u) == (leaf_maps(a, x, p, u)
        || leaf_maps(b, x, p, u))) by {
        if end <= x {
            lemma_shift_mod(leaf_physical(e), end - e.ee_block, x - end);
            assert(!leaf_maps(a, x, p, u));
        } else {
            assert(!leaf_maps(b, x, p, u));
        }
    }
}

/// The physical blocks of leaf `l` whose logical blocks lie in
/// `[start, end)`, in logical order.
pub open spec fn overlap_phys(l: ExtentLeaf, start: u32, end: u32) -> Seq<u64> {
    let lo = if start > l.ee_block { start as int } else { l.ee_block as int };
    let e = l.ee_block + leaf_count(l);
    let hi = if end < e { end as int } else { e };
    if lo >= hi {
        Seq::empty()
    } else {
        Seq::new((hi - lo) as nat, |k: int| (leaf_physical(l) + (lo - l.ee_block) + k) as u64)
    }
}

/// The physical blocks the leaves `ls` map in `[start, end)`, leaf by leaf.
pub open spec fn removed_phys(ls: Seq<ExtentLeaf>, start: u32, end: u32) -> Seq<u64>
    decreases ls.len(),
{
    if ls.len() == 0 {
        Seq::empty()
    } else {
        removed_phys(ls.drop_last(), start, end) + overlap_phys(ls.last(), start, end)
    }
}

/// Leaf `l` lies wholly in `[start, end)` and meets it (a leaf that
/// removing the range drops).
pub open spec fn leaf_inside(l: ExtentLeaf, start: u32, end: u32) -> bool {
    &&& !(l.ee_block + leaf_count(l) <= start || l.ee_block >= end)
    &&& start <= l.ee_block
    &&& l.ee_block + leaf_count(l) <= end
}

/// Every leaf of `ls` is dropped by removing `[start, end)`.
pub open spec fn all_inside(ls: Seq<ExtentLeaf>, start: u32, end: u32) -> bool {
    forall|j: int| 0 <= j < ls.len() ==> #[trigger] leaf_inside(ls[j], start, end)
}

/// Remove `[start, end)` from a leaf list: extents inside it go, extents
/// crossing an end are cut, an extent holding it is split in two; the
/// physical blocks of the removed part are appended to `freed`.
#[verifier::spinoff_prover]
#[verifier::rlimit(30)]
fn remove_from_leaves(leaves: &mut Vec<ExtentLeaf>, start: u32, end: u32, freed: &mut Vec<u64>)
    requires
        leaves_sane(old(leaves)@),
        start < end,
    ensures
        leaves_sane(final(leaves)@),
        forall|i: int| 0 <= i < final(leaves)@.len() ==> !overlaps(#[trigger] final(leaves)@[i], start, end),
        final(freed)@.len() >= old(freed)@.len(),
        final(freed)@.subrange(0, old(freed)@.len() as int) == old(freed)@,
        same_outside(final(leaves)@, old(leaves)@, start, end),
        final(leaves)@.len() <= 2 * old(leaves)@.len(),
        final(freed)@ == old(freed)@ + removed_phys(old(leaves)@, start, end),
        final(leaves)@.len() == 0 <==> all_inside(old(leaves)@, start, end),
{
    let ghost f0 = freed@;
    let ghost mut oi: int = 0;
    proof {
        assert(old(leaves)@.take(0) =~= Seq::<ExtentLeaf>::empty());
        assert(freed@ =~= f0 + removed_phys(old(leaves)@.take(0), start, end));
        assert(leaves@.subrange(0, leaves@.len() as int) =~= old(leaves)@.subrange(0, old(leaves)@.len() as int));
    }
    assert(same_outside(leaves@, old(leaves)@, start, end));
    let mut i: usize = 0;
    while i < leaves.len()
        invariant
            i <= leaves@.len(),
            start < end,
            leaves_sane(leaves@),
            forall|k: int| 0 <= k < i ==> !overlaps(#[trigger] leaves@[k], start, end),
            freed@.len() >= f0.len(),
            freed@.subrange(0, f0.len() as int) == f0,
            f0 == old(freed)@,
            same_outside(leaves@, old(leaves)@, start, end),
            i + 2 * (leaves@.len() - i) <= 2 * old(leaves)@.len(),
            0 <= oi <= old(leaves)@.len(),
            leaves@.subrange(i as int, leaves@.len() as int) == old(leaves)@.subrange(oi, old(leaves)@.len() as int),
            freed@ == f0 + removed_phys(old(leaves)@.take(oi), start, end),
            (i == 0) == all_inside(old(leaves)@.take(oi), start, end),
        decreases 2 * (leaves@.len() - i) + (if i < leaves@.len() && overlaps(leaves@[i as int], start, end) { 1int } else { 0 }),
    {
        let ext = leaves[i];
        let ghost i_before = i;
        proof {
            assert(ext.ee_block + leaf_count(ext) <= u32::MAX);
        }
        let ext_start = ext.ee_block;
        let ext_end = ext.logical_end();
        let phys = ext.physical_block();
        proof {
            assert(phys < 0x1_0000_0000_0000) by {
                assert(ext.ee_start_hi * 0x1_0000_0000 + ext.ee_start_lo < 0x1_0000_0000_0000);
            }
        }
        let ghost fb = freed@;
        let ghost before = leaves@;
        let ghost ov = overlap_phys(ext, start, end);
        proof {
            assert(before.subrange(i as int, before.len() as int).len() == old(leaves)@.subrange(oi, old(leaves)@.len() as int).len());
            assert(oi < old(leaves)@.len());
            assert(before.subrange(i as int, before.len() as int)[0] == ext);
            assert(old(leaves)@.subrange(oi, old(leaves)@.len() as int)[0] == old(leaves)@[oi]);
            assert(old(leaves)@[oi] == ext);
            assert(old(leaves)@.take(oi + 1).drop_last() =~= old(leaves)@.take(oi));
            assert(old(leaves)@.take(oi + 1).last() == ext);
            assert(removed_phys(old(leaves)@.take(oi + 1), start, end) == removed_phys(old(leaves)@.take(oi), start, end) + ov);
            assert(all_inside(old(leaves)@.take(oi + 1), start, end) == (all_inside(old(leaves)@.take(oi), start, end)
                && leaf_inside(ext, start, end))) by {
                let t1 = old(leaves)@.take(oi + 1);
                let t0 = old(leaves)@.take(oi);
                if all_inside(t0, start, end) && leaf_inside(ext, start, end) {
                    assert forall|q: int| 0 <= q < t1.len() implies #[trigger] leaf_inside(t1[q], start, end) by {
                        if q < oi {
                            assert(t1[q] == t0[q]);
                        }
                    }
                }
                if all_inside(t1, start, end) {
                    assert(leaf_inside(t1[oi], start, end));
                    assert forall|q: int| 0 <= q < t0.len() implies #[trigger] leaf_inside(t0[q], start, end) by {
                        assert(leaf_inside(t1[q], start, end));
                    }
                }
            }
        }
        if ext_end <= start || ext_start >= end {
            i = i + 1;
        } else if start <= ext_start && end >= ext_end {
            push_run(freed, phys, ext.block_count());
            leaves.remove(i);
            proof {
                lemma_remove_same(before, i as int, start, end);
                lemma_same_trans(leaves@, before, old(leaves)@, start, end);
                assert forall|k: int| 0 <= k < i implies !overlaps(#[trigger] leaves@[k], start, end) by {
                    assert(leaves@[k] == old(leaves)@[k] || true);
                }
            }
        } else if start <= ext_start && end < ext_end {
            let remove_count = end - ext_start;
            push_run(freed, phys, remove_count);
            let mut l = ext;
            l.ee_block = end;
            l.set_physical_block(phys + remove_count as u64);
            let new_len = ext.block_count() - remove_count;
            l.ee_len = new_len as u16;
            if ext.is_uninitialized() {
                proof {
                    lemma_len_flag(new_len as u16);
                }
                l.ee_len = l.ee_len | EXTENT_UNINIT_FLAG;
            }
            proof {
                assert(leaf_count(l) == new_len && leaf_uninit(l) == leaf_uninit(ext));
                lemma_trim_front(l, ext, end as int, start, end);
            }
            leaves.set(i, l);
            proof {
                lemma_update_same(before, i as int, l, start, end);
                lemma_same_trans(leaves@, before, old(leaves)@, start, end);
            }
            i = i + 1;
        } else if start > ext_start && end >= ext_end {
            let remove_count = ext_end - start;
            push_run(freed, phys + (start - ext_start) as u64, remove_count);
            let mut l = ext;
            let new_len = start - ext_start;
            l.ee_len = new_len as u16;
            if ext.is_uninitialized() {
                proof {
                    lemma_len_flag(new_len as u16);
                }
                l.ee_len = l.ee_len | EXTENT_UNINIT_FLAG;
            }
            proof {
                assert(leaf_count(l) == new_len && leaf_uninit(l) == leaf_uninit(ext));
                lemma_trim_back(l, ext, new_len as int, start, end);
            }
            leaves.set(i, l);
            proof {
                lemma_update_same(before, i as int, l, start, end);
                lemma_same_trans(leaves@, before, old(leaves)@, start, end);
            }
            i = i + 1;
        } else {
            let front_len = start - ext_start;
            let back_start = end;
            let back_len = ext_end - end;
            let remove_count = end - start;
            push_run(freed, phys + (start - ext_start) as u64, remove_count);
            let mut l = ext;
            l.ee_len = front_len as u16;
            if ext.is_uninitialized() {
                proof {
                    lemma_len_flag(front_len as u16);
                }
                l.ee_len = l.ee_len | EXTENT_UNINIT_FLAG;
            }
            leaves.set(i, l);
            let back_phys = phys + (back_start - ext_start) as u64;
            let mut back_ext = ExtentLeaf::new(back_start, back_phys, back_len as u16);
            if ext.is_uninitialized() {
                proof {
                    lemma_len_flag(back_len as u16);
                }
                back_ext.ee_len = back_ext.ee_len | EXTENT_UNINIT_FLAG;
            }
            proof {
                assert(leaf_count(l) == front_len && leaf_uninit(l) == leaf_uninit(ext));
                assert(leaf_count(back_ext) == back_len && leaf_uninit(back_ext) == leaf_uninit(ext));
                lemma_split_parts(ext, l, back_ext, start, end);
            }
            leaves.insert(i + 1, back_ext);
            proof {
                lemma_split_same(before, i as int, l, back_ext, start, end);
                assert(leaves@ == before.update(i as int, l).insert(i + 1, back_ext));
                lemma_same_trans(leaves@, before, old(leaves)@, start, end);
            }
            let _n = leaves.len();
            i = i + 2;
        }
        proof {
            assert(freed@.subrange(0, f0.len() as int) =~= f0) by {
                assert(fb.subrange(0, f0.len() as int) == f0);
            }
            assert(freed@ =~= fb + ov);
            let tail_b = before.subrange(i_before as int + 1, before.len() as int);
            let tail_o = old(leaves)@.subrange(oi + 1, old(leaves)@.len() as int);
            assert(tail_b.len() == tail_o.len()) by {
                assert(before.subrange(i_before as int, before.len() as int).len() == old(leaves)@.subrange(oi, old(leaves)@.len() as int).len());
            }
            assert forall|k: int| 0 <= k < tail_b.len() implies tail_b[k] == tail_o[k] by {
                assert(tail_b[k] == before.subrange(i_before as int, before.len() as int)[k + 1]);
                assert(tail_o[k] == old(leaves)@.subrange(oi, old(leaves)@.len() as int)[k + 1]);
            }
            assert(tail_b =~= tail_o);
            assert(leaves@.subrange(i as int, leaves@.len() as int) =~= tail_b);
            oi = oi + 1;
        }
    }
    proof {
        assert(old(leaves)@.take(oi) =~= old(leaves)@);
    }
}

/// What removing `[start, end)` frees in the leaf node in block `b`: the
/// physical blocks its leaves map in the range, then `b` itself when every
/// leaf goes.
pub open spec fn child_freed(c: Seq<u8>, b: u64, bs: u32, start: u32, end: u32) -> Seq<u64> {
    let ls = node_leaves(c, b, bs);
    removed_phys(ls, start, end) + (if all_inside(ls, start, end) { seq![b] } else { Seq::<u64>::empty() })
}

/// The key range of index `i` of `xs` (up to the next key, or the last
/// block for the last index) meets `[start, end)`.
pub open spec fn index_meets(xs: Seq<ExtentIndex>, i: int, start: u32, end: u32) -> bool {
    let idx_end = if i + 1 < xs.len() { xs[i + 1].ei_block as int } else { u32::MAX as int };
    !(idx_end <= start || xs[i].ei_block >= end)
}

/// What removing `[start, end)` frees under the first `n` indices of an
/// index node whose children are leaf nodes, child by child.
pub open spec fn tree_freed(c: Seq<u8>, xs: Seq<ExtentIndex>, n: int, bs: u32, start: u32, end: u32) -> Seq<u64>
    decreases n,
{
    if n <= 0 || n > xs.len() {
        Seq::empty()
    } else {
        tree_freed(c, xs, n - 1, bs, start, end) + (if index_meets(xs, n - 1, start, end) {
            child_freed(c, index_child(xs[n - 1]) as u64, bs, start, end)
        } else {
            Seq::<u64>::empty()
        })
    }
}

/// The leaf node in block `b` of `c1` is the one of `c0` with `[start, end)`
/// removed: none of its leaves meets the range, and outside it the node maps
/// what it mapped.
pub open spec fn child_trimmed(c0: Seq<u8>, c1: Seq<u8>, b: u64, bs: u32, start: u32, end: u32) -> bool {
    &&& b * bs + bs <= c0.len()
    &&& forall|k: int| 0 <= k < node_leaves(c1, b, bs).len() ==> !overlaps(#[trigger] node_leaves(c1, b, bs)[k], start, end)
    &&& same_outside(node_leaves(c1, b, bs), node_leaves(c0, b, bs), start, end)
}

/// Index `j` of `xs` loses its child when `[start, end)` is removed: the
/// child's key range meets the range and every leaf of the child in `c`
/// lies inside it.
pub open spec fn index_dropped(c: Seq<u8>, xs: Seq<ExtentIndex>, j: int, bs: u32, start: u32, end: u32) -> bool {
    index_meets(xs, j, start, end) && all_inside(node_leaves(c, index_child(xs[j]) as u64, bs), start, end)
}

/// Index `j` of `xs` after `[start, end)` is removed, its child as it stands
/// in `c1`: an index whose range meets the removed one is keyed by the first
/// leaf left in its child; any other stays as it was.
pub open spec fn index_after(c1: Seq<u8>, xs: Seq<ExtentIndex>, j: int, bs: u32, start: u32, end: u32) -> ExtentIndex {
    if index_meets(xs, j, start, end) {
        ExtentIndex { ei_block: node_leaves(c1, index_child(xs[j]) as u64, bs)[0].ee_block, ..xs[j] }
    } else {
        xs[j]
    }
}

/// The first `n` indices of a root after `[start, end)` is removed, in
/// order: a dropped index goes, every other one becomes `index_after`.
pub open spec fn kept_indices(c0: Seq<u8>, c1: Seq<u8>, xs: Seq<ExtentIndex>, n: int, bs: u32, start: u32, end: u32) -> Seq<ExtentIndex>
    decreases n,
{
    if n <= 0 || n > xs.len() {
        Seq::empty()
    } else {
        kept_indices(c0, c1, xs, n - 1, bs, start, end) + (if index_dropped(c0, xs, n - 1, bs, start, end) {
            Seq::<ExtentIndex>::empty()
        } else {
            seq![index_after(c1, xs, n - 1, bs, start, end)]
        })
    }
}

/// Removing a range keeps at most `n` of the first `n` indices.
proof fn lemma_kept_len(c0: Seq<u8>, c1: Seq<u8>, xs: Seq<ExtentIndex>, n: int, bs: u32, start: u32, end: u32)
    ensures
        kept_indices(c0, c1, xs, n, bs, start, end).len() <= if n < 0 { 0 } else { n },
    decreases n,
{
    if n > 0 && n <= xs.len() {
        lemma_kept_len(c0, c1, xs, n - 1, bs, start, end);
    }
}

/// `kept_indices` reads of `c1` only the leaf nodes of the children that
/// keep leaves.
proof fn lemma_kept_same(c0: Seq<u8>, ca: Seq<u8>, cb: Seq<u8>, xs: Seq<ExtentIndex>, n: int, bs: u32, start: u32, end: u32)
    requires
        forall|j: int| 0 <= j < n && index_meets(xs, j, start, end)
            && !all_inside(node_leaves(c0, index_child(xs[j]) as u64, bs), start, end)
            ==> #[trigger] node_leaves(ca, index_child(xs[j]) as u64, bs) == node_leaves(cb, index_child(xs[j]) as u64, bs),
    ensures
        kept_indices(c0, ca, xs, n, bs, start, end) == kept_indices(c0, cb, xs, n, bs, start, end),
    decreases n,
{
    if n > 0 && n <= xs.len() {
        lemma_kept_same(c0, ca, cb, xs, n - 1, bs, start, end);
        if index_meets(xs, n - 1, start, end) && !all_inside(node_leaves(c0, index_child(xs[n - 1]) as u64, bs), start, end) {
            assert(node_leaves(ca, index_child(xs[n - 1]) as u64, bs) == node_leaves(cb, index_child(xs[n - 1]) as u64, bs));
        }
    }
}

/// The indices of `xs` name distinct child blocks.
pub open spec fn children_distinct(xs: Seq<ExtentIndex>) -> bool {
    forall|a: int, b: int| 0 <= a < b < xs.len() ==> index_child(#[trigger] xs[a]) != index_child(#[trigger] xs[b])
}

/// The root after removing a range from a tree of depth 1: each child leaf
/// node overlapping the range is trimmed (see `remove_from_leaves`) and
/// written back with its key updated, or, when emptied, dropped from the
/// root with its block appended to `freed`. `Invalid` for deeper trees.
fn remove_from_tree_recursive<D: CFSBlockDevice>(
    dev: &mut D,
    inode: &mut Inode,
    start: u32,
    end: u32,
    block_size: u32,
    freed: &mut Vec<u64>,
) -> (r: Result<(), VolumeError>)
    requires
        block_size >= 96,
        start < end,
    ensures
        root_only(*final(inode), *old(inode)),
        ({
            let ra = root_area(*old(inode));
            let xs = indices_at(ra, 12, le16(ra, 2) as int);
            &&& le16(ra, 0) == EXTENT_MAGIC && le16(ra, 2) <= EXTENT_ROOT_MAX_ENTRIES && le16(ra, 6) > 0
            &&& children_distinct(xs)
            &&& r is Ok
        }) ==> final(freed)@ == old(freed)@ + tree_freed(
            old(dev).contents(),
            indices_at(root_area(*old(inode)), 12, le16(root_area(*old(inode)), 2) as int),
            le16(root_area(*old(inode)), 2) as int,
            block_size,
            start,
            end,
        ),
        ({
            let ra = root_area(*old(inode));
            let xs = indices_at(ra, 12, le16(ra, 2) as int);
            &&& le16(ra, 0) == EXTENT_MAGIC && le16(ra, 2) <= EXTENT_ROOT_MAX_ENTRIES && le16(ra, 6) > 0
            &&& children_distinct(xs)
            &&& r is Ok
        }) ==> ({
            let xs = indices_at(root_area(*old(inode)), 12, le16(root_area(*old(inode)), 2) as int);
            forall|j: int| 0 <= j < xs.len() && index_meets(xs, j, start, end)
                && !all_inside(node_leaves(old(dev).contents(), index_child(xs[j]) as u64, block_size), start, end)
                ==> #[trigger] child_trimmed(old(dev).contents(), final(dev).contents(), index_child(xs[j]) as u64, block_size, start, end)
        }),
        ({
            let ra = root_area(*old(inode));
            let xs = indices_at(ra, 12, le16(ra, 2) as int);
            &&& le16(ra, 0) == EXTENT_MAGIC && le16(ra, 2) <= EXTENT_ROOT_MAX_ENTRIES && le16(ra, 6) > 0
            &&& children_distinct(xs)
            &&& r is Ok
        }) ==> ({
            let ra0 = root_area(*old(inode));
            let xs = indices_at(ra0, 12, le16(ra0, 2) as int);
            let ks = kept_indices(old(dev).contents(), final(dev).contents(), xs, xs.len() as int, block_size, start, end);
            let ra1 = root_area(*final(inode));
            &&& header_at(ra1, 0) == (ExtentHeader { entries: ks.len() as u16, ..header_at(ra0, 0) })
            &&& indices_at(ra1, 12, ks.len() as int) == ks
        }),
{
    let ghost c0 = dev.contents();
    let ghost ra = root_area(*old(inode));
    let ghost xs0 = indices_at(ra, 12, le16(ra, 2) as int);
    let ghost good = le16(ra, 0) == EXTENT_MAGIC && le16(ra, 2) <= EXTENT_ROOT_MAX_ENTRIES && le16(ra, 6) > 0 && children_distinct(xs0);
    let ghost f0 = freed@;
    let (root_header, root_entries) = read_inode_extent_root(inode)?;
    let indices = match root_entries {
        ExtentEntries::Indices(x) => x,
        ExtentEntries::Leaves(_) => return Err(VolumeError::Invalid),
    };
    proof {
        if good {
            assert(indices@ == xs0);
        }
        assert(freed@ =~= f0 + tree_freed(c0, indices@, 0, block_size, start, end));
    }
    let mut kept: Vec<ExtentIndex> = Vec::new();
    let mut i: usize = 0;
    while i < indices.len()
        invariant
            block_size >= 96,
            start < end,
            kept@.len() <= i,
            good ==> kept@ == kept_indices(c0, dev.contents(), indices@, i as int, block_size, start, end),
            *inode == *old(inode),
            i <= indices@.len(),
            good ==> indices@ == xs0 && children_distinct(indices@),
            good ==> freed@ == f0 + tree_freed(c0, indices@, i as int, block_size, start, end),
            f0 == old(freed)@,
            dev.contents().len() == c0.len(),
            good ==> forall|j: int| 0 <= j < i && index_meets(indices@, j, start, end)
                && !all_inside(node_leaves(c0, index_child(indices@[j]) as u64, block_size), start, end)
                ==> #[trigger] child_trimmed(c0, dev.contents(), index_child(indices@[j]) as u64, block_size, start, end),
            good ==> forall|j: int| i <= j < indices@.len() && index_child(indices@[j]) * block_size + block_size <= c0.len()
                ==> block_bytes(dev.contents(), index_child(#[trigger] indices@[j]) as u64, block_size)
                == block_bytes(c0, index_child(indices@[j]) as u64, block_size),
        decreases indices@.len() - i,
    {
        let ghost fb = freed@;
        let ghost cb = dev.contents();
        proof {
            assert(tree_freed(c0, indices@, i + 1, block_size, start, end) == tree_freed(c0, indices@, i as int, block_size, start, end)
                + (if index_meets(indices@, i as int, start, end) {
                    child_freed(c0, index_child(indices@[i as int]) as u64, block_size, start, end)
                } else {
                    Seq::<u64>::empty()
                }));
        }
        let idx_start = indices[i].ei_block;
        let idx_end = if i + 1 < indices.len() {
            indices[i + 1].ei_block
        } else {
            u32::MAX
        };
        proof {
            assert(index_meets(indices@, i as int, start, end) == !(idx_end <= start || idx_start >= end));
        }
        if !(idx_end <= start || idx_start >= end) {
            let child_block = indices[i].child_block();
            let (child_header, child_entries) = read_extent_block(dev, child_block, block_size)?;
            if !child_header.is_leaf() {
                return Err(VolumeError::Invalid);
            }
            let mut leaves = match child_entries {
                ExtentEntries::Leaves(l) => l,
                ExtentEntries::Indices(_) => return Err(VolumeError::Invalid),
            };
            if !check_leaves(&leaves) {
                return Err(VolumeError::Invalid);
            }
            let ghost ls_old = leaves@;
            remove_from_leaves(&mut leaves, start, end, freed);
            if leaves.len() == 0 {
                proof {
                    if good {
                        assert(ls_old == node_leaves(c0, child_block, block_size));
                        assert(all_inside(node_leaves(c0, child_block, block_size), start, end));
                        assert(index_dropped(c0, indices@, i as int, block_size, start, end));
                        assert(kept@ =~= kept_indices(c0, dev.contents(), indices@, i + 1, block_size, start, end));
                    }
                }
                freed.push(child_block);
            } else {
                if leaves.len() > u16::MAX as usize || leaves.len() >= (block_size as usize) / 12 {
                    return Err(VolumeError::Invalid);
                }
                let mut hdr = child_header;
                hdr.entries = leaves.len() as u16;
                let first = leaves[0].ee_block;
                let es = ExtentEntries::Leaves(leaves);
                let ghost cw = dev.contents();
                write_extent_block(dev, child_block, &hdr, &es, block_size)?;
                proof {
                    lemma_node_roundtrip(hdr, es, block_size as int);
                    let img = node_image(hdr, es, block_size as int);
                    assert(dev.contents() == written(cw, child_block * block_size, img));
                    assert(dev.contents().len() == cw.len());
                    if good {
                        assert(ls_old == node_leaves(c0, child_block, block_size));
                        assert(block_bytes(dev.contents(), child_block, block_size) =~= img);
                        assert(node_leaves(dev.contents(), child_block, block_size) == leaves@);
                        assert(same_outside(node_leaves(dev.contents(), child_block, block_size), node_leaves(c0, child_block, block_size), start, end));
                        assert(child_trimmed(c0, dev.contents(), child_block, block_size, start, end));
                        assert(index_child(indices@[i as int]) == child_block);
                        assert forall|j: int| 0 <= j <= i && index_meets(indices@, j, start, end)
                            && !all_inside(node_leaves(c0, index_child(indices@[j]) as u64, block_size), start, end)
                            implies #[trigger] child_trimmed(c0, dev.contents(), index_child(indices@[j]) as u64, block_size, start, end)
                            && (j < i ==> node_leaves(dev.contents(), index_child(indices@[j]) as u64, block_size)
                                == node_leaves(cw, index_child(indices@[j]) as u64, block_size)) by {
                            if j < i {
                                let bj = index_child(indices@[j]);
                                assert(child_trimmed(c0, cw, bj as u64, block_size, start, end));
                                assert(bj != child_block);
                                if bj < child_block {
                                    assert(bj * block_size + block_size <= child_block * block_size) by (nonlinear_arith)
                                        requires
                                            bj < child_block,
                                    ;
                                } else {
                                    assert(child_block * block_size + block_size <= bj * block_size) by (nonlinear_arith)
                                        requires
                                            child_block < bj,
                                    ;
                                }
                                assert(block_bytes(dev.contents(), bj as u64, block_size) =~= block_bytes(cw, bj as u64, block_size));
                            }
                        }
                        assert forall|j: int| i < j < indices@.len() && index_child(indices@[j]) * block_size + block_size <= c0.len()
                            implies block_bytes(dev.contents(), index_child(#[trigger] indices@[j]) as u64, block_size)
                            == block_bytes(cw, index_child(indices@[j]) as u64, block_size) by {
                            let bj = index_child(indices@[j]);
                            assert(bj != child_block);
                            if bj < child_block {
                                assert(bj * block_size + block_size <= child_block * block_size) by (nonlinear_arith)
                                    requires
                                        bj < child_block,
                                ;
                            } else {
                                assert(child_block * block_size + block_size <= bj * block_size) by (nonlinear_arith)
                                    requires
                                        child_block < bj,
                                ;
                            }
                            assert(block_bytes(dev.contents(), bj as u64, block_size) =~= block_bytes(cw, bj as u64, block_size));
                        }
                    }
                }
                let mut e = indices[i];
                e.ei_block = first;
                proof {
                    if good {
                        assert forall|j: int| 0 <= j < i && index_meets(indices@, j, start, end)
                            && !all_inside(node_leaves(c0, index_child(indices@[j]) as u64, block_size), start, end)
                            implies #[trigger] node_leaves(dev.contents(), index_child(indices@[j]) as u64, block_size)
                            == node_leaves(cw, index_child(indices@[j]) as u64, block_size) by {
                            assert(child_trimmed(c0, dev.contents(), index_child(indices@[j]) as u64, block_size, start, end));
                        }
                        lemma_kept_same(c0, dev.contents(), cw, indices@, i as int, block_size, start, end);
                        assert(!all_inside(ls_old, start, end));
                        assert(!index_dropped(c0, indices@, i as int, block_size, start, end));
                        assert(e == index_after(dev.contents(), indices@, i as int, block_size, start, end));
                    }
                }
                kept.push(e);
                proof {
                    if good {
                        assert(kept@ =~= kept_indices(c0, dev.contents(), indices@, i + 1, block_size, start, end));
                    }
                }
            }
        } else {
            kept.push(indices[i]);
            proof {
                if good {
                    assert(!index_dropped(c0, indices@, i as int, block_size, start, end));
                    assert(kept@ =~= kept_indices(c0, dev.contents(), indices@, i + 1, block_size, start, end));
                }
            }
        }
        proof {
            if good {
                assert forall|j: int| 0 <= j <= i && index_meets(indices@, j, start, end)
                    && !all_inside(node_leaves(c0, index_child(indices@[j]) as u64, block_size), start, end)
                    implies #[trigger] child_trimmed(c0, dev.contents(), index_child(indices@[j]) as u64, block_size, start, end) by {
                    assert(child_trimmed(c0, dev.contents(), index_child(indices@[j]) as u64, block_size, start, end));
                }
            }
        }
        i = i + 1;
    }
    if kept.len() > EXTENT_ROOT_MAX_ENTRIES as usize {
        return Err(VolumeError::Invalid);
    }
    let mut hdr = root_header;
    hdr.entries = kept.len() as u16;
    let es = ExtentEntries::Indices(kept);
    write_inode_extent_root(inode, &hdr, &es);
    proof {
        lemma_root_roundtrip(hdr, es);
    }
    Ok(())
}

/// When the root is an index with one entry whose child's entries fit in
/// the root, move them up into the root (one level less). Returns whether
/// it did. `Invalid` when the child is not below the root.
fn try_shrink_depth<D: CFSBlockDevice>(dev: &mut D, inode: &mut Inode, block_size: u32) -> (r: Result<bool, VolumeError>)
    requires
        block_size >= 96,
    ensures
        root_only(*final(inode), *old(inode)),
        final(dev).contents() == old(dev).contents(),
        !(r matches Ok(true)) ==> *final(inode) == *old(inode),
        ({
            let ra = root_area(*old(inode));
            le16(ra, 0) == EXTENT_MAGIC && le16(ra, 2) <= EXTENT_ROOT_MAX_ENTRIES && (le16(ra, 6) == 0 || le16(ra, 2) != 1)
        }) ==> r == Ok::<bool, VolumeError>(false),
        r matches Ok(true) ==> ({
            let h = header_at(root_area(*old(inode)), 0);
            let c = index_child(indices_at(root_area(*old(inode)), 12, 1)[0]) as u64;
            let blk = block_bytes(old(dev).contents(), c, block_size);
            let ch = header_at(blk, 0);
            let nh = header_at(root_area(*final(inode)), 0);
            &&& h.magic == EXTENT_MAGIC && h.depth > 0 && h.entries == 1
            &&& c * block_size + block_size <= old(dev).contents().len()
            &&& ch.magic == EXTENT_MAGIC && ch.entries <= EXTENT_ROOT_MAX_ENTRIES && ch.depth < h.depth
            &&& nh == (ExtentHeader { magic: EXTENT_MAGIC, entries: ch.entries, max: EXTENT_ROOT_MAX_ENTRIES, depth: ch.depth, generation: ch.generation })
            &&& ch.depth == 0 ==> leaves_at(root_area(*final(inode)), 12, ch.entries as int) == leaves_at(blk, 12, ch.entries as int)
            &&& ch.depth > 0 ==> indices_at(root_area(*final(inode)), 12, ch.entries as int) == indices_at(blk, 12, ch.entries as int)
        }),
{
    let (root_header, root_entries) = read_inode_extent_root(inode)?;
    if root_header.depth == 0 || root_header.entries != 1 {
        return Ok(false);
    }
    let child_block = match &root_entries {
        ExtentEntries::Indices(indices) => {
            if indices.len() == 0 {
                return Ok(false);
            }
            indices[0].child_block()
        },
        ExtentEntries::Leaves(_) => return Ok(false),
    };
    let (child_header, child_entries) = read_extent_block(dev, child_block, block_size)?;
    if child_header.entries > EXTENT_ROOT_MAX_ENTRIES {
        return Ok(false);
    }
    if child_header.depth >= root_header.depth {
        return Err(VolumeError::Invalid);
    }
    let new_root_header = ExtentHeader {
        magic: EXTENT_MAGIC,
        entries: child_header.entries,
        max: EXTENT_ROOT_MAX_ENTRIES,
        depth: child_header.depth,
        generation: child_header.generation,
    };
    write_inode_extent_root(inode, &new_root_header, &child_entries);
    proof {
        lemma_root_roundtrip(new_root_header, child_entries);
    }
    Ok(true)
}

/// The root's depth (0 when the root cannot be read).
fn root_depth(inode: &Inode) -> (r: u16)
    ensures
        r == (if le16(root_area(*inode), 0) == EXTENT_MAGIC && le16(root_area(*inode), 2) <= EXTENT_ROOT_MAX_ENTRIES {
            le16(root_area(*inode), 6)
        } else {
            0
        }),
{
    match read_inode_extent_root(inode) {
        Ok((h, _)) => h.depth,
        Err(_) => 0,
    }
}

/// Remove logical blocks `[logical_start, logical_start + length)` from the
/// tree and return the physical blocks they used (and the blocks of leaf
/// nodes emptied on the way), for the caller to free; then shrink the tree
/// while the root has a single child that fits in it.
pub fn extent_remove<D: CFSBlockDevice>(
    dev: &mut D,
    inode: &mut Inode,
    logical_start: u32,
    length: u32,
    block_size: u32,
) -> (r: Result<Vec<u64>, VolumeError>)
    requires
        block_size >= 96,
        logical_start + length <= u32::MAX,
    ensures
        root_only(*final(inode), *old(inode)),
        length == 0 ==> (r matches Ok(v) && v@.len() == 0 && *final(inode) == *old(inode)),
        flat_root(*old(inode)) && length > 0 ==> final(dev).contents() == old(dev).contents() && match r {
            Ok(_) => {
                &&& flat_root(*final(inode))
                &&& same_outside(
                    root_leaves(*final(inode)),
                    root_leaves(*old(inode)),
                    logical_start,
                    (logical_start + length) as u32,
                )
                &&& forall|i: int|
                    0 <= i < root_leaves(*final(inode)).len() ==> !overlaps(
                        #[trigger] root_leaves(*final(inode))[i],
                        logical_start,
                        (logical_start + length) as u32,
                    )
                &&& r->Ok_0@ == removed_phys(root_leaves(*old(inode)), logical_start, (logical_start + length) as u32)
            },
            Err(e) => e == VolumeError::Invalid && *final(inode) == *old(inode),
        },
        flat_root(*old(inode)) && leaves_sane(root_leaves(*old(inode))) && root_leaves(*old(inode)).len() <= 3 ==> r is Ok,
        ({
            let ra = root_area(*old(inode));
            &&& le16(ra, 0) == EXTENT_MAGIC && le16(ra, 2) <= EXTENT_ROOT_MAX_ENTRIES && le16(ra, 6) > 0
            &&& children_distinct(indices_at(ra, 12, le16(ra, 2) as int))
            &&& length > 0
        }) ==> (r matches Ok(v) ==> v@ == tree_freed(
            old(dev).contents(),
            indices_at(root_area(*old(inode)), 12, le16(root_area(*old(inode)), 2) as int),
            le16(root_area(*old(inode)), 2) as int,
            block_size,
            logical_start,
            (logical_start + length) as u32,
        )),
        ({
            let ra = root_area(*old(inode));
            &&& le16(ra, 0) == EXTENT_MAGIC && le16(ra, 2) <= EXTENT_ROOT_MAX_ENTRIES && le16(ra, 6) > 0
            &&& children_distinct(indices_at(ra, 12, le16(ra, 2) as int))
            &&& length > 0
            &&& r is Ok
        }) ==> ({
            let xs = indices_at(root_area(*old(inode)), 12, le16(root_area(*old(inode)), 2) as int);
            forall|j: int| 0 <= j < xs.len() && index_meets(xs, j, logical_start, (logical_start + length) as u32)
                && !all_inside(node_leaves(old(dev).contents(), index_child(xs[j]) as u64, block_size), logical_start, (logical_start + length) as u32)
                ==> #[trigger] child_trimmed(old(dev).contents(), final(dev).contents(), index_child(xs[j]) as u64, block_size, logical_start, (logical_start + length) as u32)
        }),
        ({
            let ra = root_area(*old(inode));
            let xs = indices_at(ra, 12, le16(ra, 2) as int);
            &&& le16(ra, 0) == EXTENT_MAGIC && le16(ra, 2) <= EXTENT_ROOT_MAX_ENTRIES && le16(ra, 6) > 0
            &&& children_distinct(xs)
            &&& length > 0
            &&& r is Ok
            &&& kept_indices(old(dev).contents(), final(dev).contents(), xs, xs.len() as int, block_size, logical_start, (logical_start + length) as u32).len() != 1
        }) ==> ({
            let ra0 = root_area(*old(inode));
            let xs = indices_at(ra0, 12, le16(ra0, 2) as int);
            let ks = kept_indices(old(dev).contents(), final(dev).contents(), xs, xs.len() as int, block_size, logical_start, (logical_start + length) as u32);
            let ra1 = root_area(*final(inode));
            &&& header_at(ra1, 0) == (ExtentHeader { entries: ks.len() as u16, ..header_at(ra0, 0) })
            &&& indices_at(ra1, 12, ks.len() as int) == ks
        }),
{
    if length == 0 {
        return Ok(Vec::new());
    }
    let logical_end = logical_start + length;
    let mut freed: Vec<u64> = Vec::new();
    let (root_header, root_entries) = read_inode_extent_root(inode)?;
    if root_header.depth == 0 {
        let mut leaves = match root_entries {
            ExtentEntries::Leaves(l) => l,
            ExtentEntries::Indices(_) => return Err(VolumeError::Invalid),
        };
        if !check_leaves(&leaves) {
            return Err(VolumeError::Invalid);
        }
        remove_from_leaves(&mut leaves, logical_start, logical_end, &mut freed);
        if leaves.len() > EXTENT_ROOT_MAX_ENTRIES as usize {
            return Err(VolumeError::Invalid);
        }
        let mut hdr = root_header;
        hdr.entries = leaves.len() as u16;
        let ghost kept = leaves@;
        let es = ExtentEntries::Leaves(leaves);
        write_inode_extent_root(inode, &hdr, &es);
        proof {
            lemma_root_roundtrip(hdr, es);
            assert(root_leaves(*inode) == kept);
        }
        return Ok(freed);
    }
    assert(!flat_root(*old(inode)));
    remove_from_tree_recursive(dev, inode, logical_start, logical_end, block_size, &mut freed)?;
    let ghost c1 = dev.contents();
    let ghost inode1 = *inode;
    let ghost ra0 = root_area(*old(inode));
    let ghost xs0 = indices_at(ra0, 12, le16(ra0, 2) as int);
    let ghost stays = le16(ra0, 0) == EXTENT_MAGIC && le16(ra0, 2) <= EXTENT_ROOT_MAX_ENTRIES && le16(ra0, 6) > 0
        && children_distinct(xs0)
        && kept_indices(old(dev).contents(), c1, xs0, xs0.len() as int, block_size, logical_start, logical_end).len() != 1;
    proof {
        if stays {
            let ks = kept_indices(old(dev).contents(), c1, xs0, xs0.len() as int, block_size, logical_start, logical_end);
            lemma_kept_len(old(dev).contents(), c1, xs0, xs0.len() as int, block_size, logical_start, logical_end);
            assert(le16(root_area(inode1), 0) == header_at(root_area(inode1), 0).magic);
            assert(le16(root_area(inode1), 2) == header_at(root_area(inode1), 0).entries);
            assert(le16(root_area(inode1), 2) == ks.len());
        }
    }
    let mut depth = root_depth(inode);
    loop
        invariant
            block_size >= 96,
            length > 0,
            root_only(*inode, *old(inode)),
            !flat_root(*old(inode)),
            dev.contents() == c1,
            stays ==> *inode == inode1,
            stays ==> le16(root_area(inode1), 0) == EXTENT_MAGIC && le16(root_area(inode1), 2) <= EXTENT_ROOT_MAX_ENTRIES
                && le16(root_area(inode1), 2) != 1,
        decreases depth,
    {
        if !try_shrink_depth(dev, inode, block_size)? {
            break;
        }
        let after = root_depth(inode);
        if after >= depth {
            return Err(VolumeError::Invalid);
        }
        depth = after;
        if depth == 0 {
            break;
        }
    }
    Ok(freed)
}


/// Convert the part of the preallocated extent covering `write_start` that
/// `[write_start, write_start + write_count)` overlaps to an initialized
/// extent: the extent is removed from the tree (its blocks stay allocated)
/// and re-inserted as up to three pieces (uninitialized before, initialized,
/// uninitialized after). Nothing happens for an initialized extent;
/// `NotFound` when no extent covers `write_start`.
pub fn extent_mark_initialized<D: CFSBlockDevice>(
    dev: &mut D,
    inode: &mut Inode,
    alloc: &mut BlockAlloc,
    sb: &mut Superblock,
    write_start: u32,
    write_count: u32,
    block_size: u32,
) -> (r: Result<(), VolumeError>)
    requires
        old(alloc).wf(),
        block_size >= 96,
        write_start + write_count <= u32::MAX,
    ensures
        final(alloc).wf(),
        final(alloc).same_kind(old(alloc)),
        root_only(*final(inode), *old(inode)),
        sb_spent(*final(sb), *old(sb)),
        flat_root(*old(inode)) && disjoint_sorted(root_leaves(*old(inode))) && (forall|i: int|
            0 <= i < root_leaves(*old(inode)).len() ==> !leaf_covers(#[trigger] root_leaves(*old(inode))[i], write_start))
            ==> r == Err::<(), VolumeError>(VolumeError::NotFound) && *final(inode) == *old(inode),
        flat_root(*old(inode)) && disjoint_sorted(root_leaves(*old(inode))) && (exists|i: int|
            0 <= i < root_leaves(*old(inode)).len() && leaf_covers(#[trigger] root_leaves(*old(inode))[i], write_start)
            && !leaf_uninit(root_leaves(*old(inode))[i])) ==> r is Ok && *final(inode) == *old(inode)
            && final(dev).contents() == old(dev).contents() && *final(sb) == *old(sb),
{
    let ext = match extent_find(dev, inode, write_start, block_size)? {
        Some(e) => e,
        None => return Err(VolumeError::NotFound),
    };
    if !ext.is_uninitialized() {
        return Ok(());
    }
    proof {
        if flat_root(*old(inode)) && disjoint_sorted(root_leaves(*old(inode))) {
            let ls = root_leaves(*old(inode));
            assert forall|i: int| 0 <= i < ls.len() && leaf_covers(#[trigger] ls[i], write_start) implies leaf_uninit(ls[i]) by {
                let i0 = choose|i0: int| 0 <= i0 < ls.len() && ls[i0] == ext;
                if i < i0 {
                    assert(ls[i].ee_block + leaf_count(ls[i]) <= ls[i0].ee_block);
                } else if i0 < i {
                    assert(ls[i0].ee_block + leaf_count(ls[i0]) <= ls[i].ee_block);
                }
            }
        }
    }
    let ext_start = ext.ee_block;
    let ext_len = ext.block_count();
    let ext_phys = ext.physical_block();
    proof {
        assert(ext_phys < 0x1_0000_0000_0000) by {
            assert(ext.ee_start_hi * 0x1_0000_0000 + ext.ee_start_lo < 0x1_0000_0000_0000);
        }
    }
    let ext_end = ext_start + ext_len;
    let write_end = write_start + write_count;
    let _removed = extent_remove(dev, inode, ext_start, ext_len, block_size)?;
    if write_start > ext_start {
        let pre_len = (write_start - ext_start) as u16;
        extent_insert_uninit(dev, inode, alloc, sb, ext_start, ext_phys, pre_len, block_size)?;
    }
    let init_end = if write_end < ext_end {
        write_end
    } else {
        ext_end
    };
    if init_end <= write_start {
        return Err(VolumeError::Invalid);
    }
    let init_count = (init_end - write_start) as u16;
    let init_phys = ext_phys + (write_start - ext_start) as u64;
    extent_insert(dev, inode, alloc, sb, write_start, init_phys, init_count, block_size)?;
    if init_end < ext_end {
        let post_len = (ext_end - init_end) as u16;
        let post_phys = ext_phys + (init_end - ext_start) as u64;
        extent_insert_uninit(dev, inode, alloc, sb, init_end, post_phys, post_len, block_size)?;
    }
    Ok(())
}

/// Append the leaves under a node, children in order. `Invalid` when a
/// child is not below its parent.
fn collect_leaves_recursive<D: CFSBlockDevice>(
    dev: &mut D,
    header: &ExtentHeader,
    entries: &ExtentEntries,
    block_size: u32,
    out: &mut Vec<ExtentLeaf>,
) -> (r: Result<(), VolumeError>)
    requires
        block_size >= 12,
    ensures
        final(dev).contents() == old(dev).contents(),
        final(out)@.len() >= old(out)@.len(),
        *entries is Leaves ==> r is Ok && final(out)@ == old(out)@ + entries->Leaves_0@,
    decreases header.depth,
{
    match entries {
        ExtentEntries::Leaves(leaves) => {
            let mut i: usize = 0;
            while i < leaves.len()
                invariant
                    i <= leaves@.len(),
                    out@.len() >= old(out)@.len(),
                    out@ == old(out)@ + leaves@.take(i as int),
                decreases leaves@.len() - i,
            {
                out.push(leaves[i]);
                i = i + 1;
                assert(out@ =~= old(out)@ + leaves@.take(i as int));
            }
            assert(leaves@.take(leaves@.len() as int) =~= leaves@);
            Ok(())
        },
        ExtentEntries::Indices(indices) => {
            let mut i: usize = 0;
            while i < indices.len()
                invariant
                    i <= indices@.len(),
                    block_size >= 12,
                    dev.contents() == old(dev).contents(),
                    out@.len() >= old(out)@.len(),
                    *entries is Indices,
                decreases indices@.len() - i,
            {
                let child_block = indices[i].child_block();
                let (child_header, child_entries) = read_extent_block(dev, child_block, block_size)?;
                if child_header.depth >= header.depth {
                    return Err(VolumeError::Invalid);
                }
                collect_leaves_recursive(dev, &child_header, &child_entries, block_size, out)?;
                i = i + 1;
            }
            Ok(())
        },
    }
}

/// Stable insertion sort of leaves by start block.
fn sort_leaves(v: &mut Vec<ExtentLeaf>)
    ensures
        final(v)@.len() == old(v)@.len(),
        sorted_starts(leaf_starts(final(v)@)),
        final(v)@.to_multiset() == old(v)@.to_multiset(),
{
    let mut out: Vec<ExtentLeaf> = Vec::new();
    let mut i: usize = 0;
    assert(out@.to_multiset() =~= v@.take(0).to_multiset()) by {
        assert(v@.take(0) =~= Seq::<ExtentLeaf>::empty());
    }
    while i < v.len()
        invariant
            i <= v@.len(),
            out@.len() == i,
            sorted_starts(leaf_starts(out@)),
            out@.to_multiset() == v@.take(i as int).to_multiset(),
        decreases v@.len() - i,
    {
        let x = v[i];
        let mut p: usize = out.len();
        while p > 0 && out[p - 1].ee_block > x.ee_block
            invariant
                p <= out@.len(),
                forall|q: int| p <= q < out@.len() ==> #[trigger] out@[q].ee_block > x.ee_block,
            decreases p,
        {
            p = p - 1;
        }
        let ghost before = out@;
        out.insert(p, x);
        proof {
            assert forall|a: int, b: int| 0 <= a < b < out@.len() implies leaf_starts(out@)[a] <= leaf_starts(out@)[b] by {
                assert(leaf_starts(before)[0] == before[0].ee_block || before.len() == 0);
                if a < p && b < p {
                    assert(leaf_starts(before)[a] <= leaf_starts(before)[b]);
                } else if a < p && b == p {
                    assert(leaf_starts(before)[a] <= leaf_starts(before)[p - 1]);
                } else if a < p && b > p {
                    assert(leaf_starts(before)[a] <= leaf_starts(before)[b - 1]);
                } else if a == p {
                    assert(before[b - 1].ee_block > x.ee_block);
                } else {
                    assert(leaf_starts(before)[a - 1] <= leaf_starts(before)[b - 1]);
                }
            }
            assert(v@.take(i + 1) =~= v@.take(i as int).push(x));
            vstd::seq_lib::to_multiset_insert(before, p as int, x);
            vstd::seq_lib::to_multiset_build(v@.take(i as int), x);
        }
        i = i + 1;
    }
    assert(v@.take(v@.len() as int) =~= v@);
    *v = out;
}

/// Every leaf of the tree, sorted by start block (stably).
pub fn extent_list_leaves<D: CFSBlockDevice>(dev: &mut D, inode: &Inode, block_size: u32) -> (r: Result<Vec<ExtentLeaf>, VolumeError>)
    requires
        block_size >= 12,
    ensures
        final(dev).contents() == old(dev).contents(),
        r matches Ok(v) ==> sorted_starts(leaf_starts(v@)),
        flat_root(*inode) ==> (r matches Ok(v) && v@.to_multiset() == root_leaves(*inode).to_multiset()),
{
    let mut leaves: Vec<ExtentLeaf> = Vec::new();
    let (header, entries) = read_inode_extent_root(inode)?;
    collect_leaves_recursive(dev, &header, &entries, block_size, &mut leaves)?;
    proof {
        if flat_root(*inode) {
            assert(leaves@ =~= root_leaves(*inode));
        }
    }
    sort_leaves(&mut leaves);
    Ok(leaves)
}

/// The physical blocks of leaves `ls`, leaf by leaf, each in order.
pub open spec fn leaf_runs(ls: Seq<ExtentLeaf>) -> Seq<u64>
    decreases ls.len(),
{
    if ls.len() == 0 {
        Seq::empty()
    } else {
        leaf_runs(ls.drop_last()) + Seq::new(
            leaf_count(ls.last()) as nat,
            |j: int| (leaf_physical(ls.last()) + j) as u64,
        )
    }
}

/// Append the data blocks of every leaf under a node and the blocks of its
/// child nodes (each before its own subtree). `Invalid` when a child is not
/// below its parent.
fn collect_recursive<D: CFSBlockDevice>(
    dev: &mut D,
    header: &ExtentHeader,
    entries: &ExtentEntries,
    block_size: u32,
    data_blocks: &mut Vec<u64>,
    node_blocks: &mut Vec<u64>,
) -> (r: Result<(), VolumeError>)
    requires
        block_size >= 12,
    ensures
        final(dev).contents() == old(dev).contents(),
        *entries is Leaves ==> r is Ok && final(data_blocks)@ == old(data_blocks)@ + leaf_runs(entries->Leaves_0@)
            && final(node_blocks)@ == old(node_blocks)@,
    decreases header.depth,
{
    match entries {
        ExtentEntries::Leaves(leaves) => {
            let ghost d0 = data_blocks@;
            let mut i: usize = 0;
            assert(leaves@.take(0) =~= Seq::<ExtentLeaf>::empty());
            assert(data_blocks@ =~= d0 + leaf_runs(leaves@.take(0)));
            while i < leaves.len()
                invariant
                    i <= leaves@.len(),
                    data_blocks@ == d0 + leaf_runs(leaves@.take(i as int)),
                    d0 == old(data_blocks)@,
                    *node_blocks == *old(node_blocks),
                decreases leaves@.len() - i,
            {
                let start = leaves[i].physical_block();
                let count = leaves[i].block_count();
                proof {
                    let l = leaves@[i as int];
                    assert(start < 0x1_0000_0000_0000) by {
                        assert(l.ee_start_hi * 0x1_0000_0000 + l.ee_start_lo < 0x1_0000_0000_0000);
                    }
                }
                push_run(data_blocks, start, count);
                proof {
                    let t = leaves@.take(i + 1);
                    assert(t.drop_last() =~= leaves@.take(i as int));
                    assert(t.last() == leaves@[i as int]);
                    assert(data_blocks@ =~= d0 + leaf_runs(t));
                }
                i = i + 1;
            }
            assert(leaves@.take(leaves@.len() as int) =~= leaves@);
            Ok(())
        },
        ExtentEntries::Indices(indices) => {
            let mut i: usize = 0;
            while i < indices.len()
                invariant
                    i <= indices@.len(),
                    block_size >= 12,
                    dev.contents() == old(dev).contents(),
                    *entries is Indices,
                decreases indices@.len() - i,
            {
                let child_block = indices[i].child_block();
                node_blocks.push(child_block);
                let (child_header, child_entries) = read_extent_block(dev, child_block, block_size)?;
                if child_header.depth >= header.depth {
                    return Err(VolumeError::Invalid);
                }
                collect_recursive(dev, &child_header, &child_entries, block_size, data_blocks, node_blocks)?;
                i = i + 1;
            }
            Ok(())
        },
    }
}

/// All data blocks and all tree node blocks (not the in-inode root) of the
/// tree, for the caller to free.
pub fn collect_all_extents<D: CFSBlockDevice>(dev: &mut D, inode: &Inode, block_size: u32) -> (r: Result<(Vec<u64>, Vec<u64>), VolumeError>)
    requires
        block_size >= 12,
    ensures
        final(dev).contents() == old(dev).contents(),
        flat_root(*inode) ==> (r matches Ok((d, n)) && d@ == leaf_runs(root_leaves(*inode)) && n@.len() == 0),
{
    let mut data_blocks: Vec<u64> = Vec::new();
    let mut node_blocks: Vec<u64> = Vec::new();
    let (header, entries) = read_inode_extent_root(inode)?;
    collect_recursive(dev, &header, &entries, block_size, &mut data_blocks, &mut node_blocks)?;
    proof {
        if flat_root(*inode) {
            assert(data_blocks@ =~= leaf_runs(root_leaves(*inode)));
        }
    }
    Ok((data_blocks, node_blocks))
}

/// Free every data and node block of the tree and reset the inode to an
/// empty extent root, with size and block count 0. `Invalid` when a block
/// lies outside the allocator's data area.
pub fn free_all_extents<D: CFSBlockDevice>(
    dev: &mut D,
    inode: &mut Inode,
    alloc: &mut BlockAlloc,
    sb: &mut Superblock,
    block_size: u32,
) -> (r: Result<(), VolumeError>)
    requires
        old(alloc).wf(),
        block_size >= 12,
    ensures
        final(alloc).wf(),
        final(alloc).same_kind(old(alloc)),
        r is Ok ==> final(inode).size == 0 && final(inode).block_count == 0 && final(inode).block_count_hi == 0,
        flat_root(*old(inode)) && *old(alloc) is Legacy ==> ({
            let d = leaf_runs(root_leaves(*old(inode)));
            &&& r is Ok <==> (d.len() == 0 || (old(alloc).blocks_in_area(d) && old(sb).free_blocks + d.len() <= u64::MAX
                && freeable(old(alloc)->bitmap@, offsets(d, old(alloc)->data_start))))
            &&& r is Ok ==> *final(sb) == (Superblock { free_blocks: (old(sb).free_blocks + d.len()) as u64, ..*old(sb) })
            &&& r is Ok && d.len() > 0 ==> final(alloc).gave_back(old(alloc), d)
        }),
{
    let (data_blocks, node_blocks) = collect_all_extents(dev, inode, block_size)?;
    if data_blocks.len() > 0 {
        if !alloc.can_take_back(sb, data_blocks.as_slice()) {
            return Err(VolumeError::Invalid);
        }
        alloc.free(dev, sb, data_blocks.as_slice())?;
    }
    if node_blocks.len() > 0 {
        if !alloc.can_take_back(sb, node_blocks.as_slice()) {
            return Err(VolumeError::Invalid);
        }
        alloc.free(dev, sb, node_blocks.as_slice())?;
    }
    init_inode_extent_root(inode);
    inode.size = 0;
    inode.block_count = 0;
    inode.block_count_hi = 0;
    Ok(())
}

} // verus!
