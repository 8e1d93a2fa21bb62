//! File data: mapping logical blocks of a file to physical blocks (direct,
//! indirect and double-indirect pointer tables, or the extent tree), and
//! reading, writing, truncating and freeing file contents.

use vstd::prelude::*;
use crate::codec::{le64, enc64, zeros, enc64_seq, lemma_codec_roundtrip, lemma_enc64_seq_len, lemma_le64_of_seq, get_u64, push_u64_seq, push_zeros};
use crate::device::{CFSBlockDevice, written};
use crate::error::VolumeError;
use crate::inode::{Inode, INODE_FLAG_EXTENTS, INODE_FLAG_INLINE_DATA};
use crate::extent::{
    get_block_ptr_extent, extent_find, init_inode_extent_root, root_area, header_bytes, ExtentHeader, EXTENT_MAGIC,
    EXTENT_ROOT_MAX_ENTRIES, ExtentLeaf, flat_root, root_leaves, disjoint_sorted, leaf_covers, leaf_uninit, leaf_physical,
    leaf_count,
};
use crate::extent_tree::{
    extent_insert, extent_mark_initialized, collect_all_extents, extent_remove, root_only, sb_spent, leaves_map, leaf_runs,
    removed_phys, same_outside, overlaps, merges_into, leaf_maps,
};
use crate::inode::{unix_now_ns, ns_to_seconds};
use crate::INODE_FILE;
use vstd::slice::slice_subrange;
use crate::codec::{push_bytes, le16};
use crate::superblock::Superblock;
use crate::block_alloc::{BlockAlloc, flat_alloc_fails, freeable, offsets};
use crate::group_alloc::sb_minus_blocks;

verus! {

/// Block pointers held in the inode itself.
pub const DIRECT_BLOCKS: u64 = 10;

/// Bytes of file data that fit in the inode's inline area.
pub const MAX_INLINE_DATA_SIZE: usize = 76;

/// Pointer `i` of the pointer table in block `t`.
pub open spec fn table_ptr(c: Seq<u8>, t: u64, i: int, bs: u32) -> u64 {
    le64(c, t * bs + 8 * i)
}

/// Pointers per table block.
pub open spec fn ptrs_per_block(bs: u32) -> int {
    (bs / 8) as int
}

/// The physical block of logical block `lb` of a file mapped by pointer
/// tables, in device contents `c`: `Some(0)` for a hole, `None` past the
/// largest file (10 direct, one indirect and one double-indirect table).
pub open spec fn legacy_block_ptr(c: Seq<u8>, inode: Inode, lb: u64, bs: u32) -> Option<u64> {
    let ppb = ptrs_per_block(bs);
    if lb < 10 {
        Some(inode.direct_blocks@[lb as int])
    } else if lb - 10 < ppb {
        if inode.indirect_block == 0 {
            Some(0u64)
        } else {
            Some(table_ptr(c, inode.indirect_block, lb - 10, bs))
        }
    } else if lb - 10 - ppb < ppb * ppb {
        let adj = lb - 10 - ppb;
        if inode.double_indirect == 0 {
            Some(0u64)
        } else {
            let l1 = table_ptr(c, inode.double_indirect, adj / ppb, bs);
            if l1 == 0 {
                Some(0u64)
            } else {
                Some(table_ptr(c, l1, adj % ppb, bs))
            }
        }
    } else {
        None
    }
}

/// Byte offset of block `b`, checked: `OutOfRange` when the block's end
/// does not fit in 64 bits.
pub fn block_offset(b: u64, bs: u32) -> (r: Result<u64, VolumeError>)
    ensures
        match r {
            Ok(o) => o == b * bs && b * bs + bs <= u64::MAX,
            Err(e) => e == VolumeError::OutOfRange && b * bs + bs > u64::MAX,
        },
{
    match b.checked_mul(bs as u64) {
        Some(o) => match o.checked_add(bs as u64) {
            Some(_) => Ok(o),
            None => Err(VolumeError::OutOfRange),
        },
        None => {
            proof {
                assert(b * bs + bs > u64::MAX) by (nonlinear_arith)
                    requires
                        b * bs > u64::MAX,
                ;
            }
            Err(VolumeError::OutOfRange)
        },
    }
}

/// Read the pointer table in block `block_addr`.
fn read_ptr_table<D: CFSBlockDevice>(dev: &mut D, block_addr: u64, block_size: u32) -> (r: Result<Vec<u64>, VolumeError>)
    ensures
        r matches Err(e) ==> e is Device || (e == VolumeError::OutOfRange && block_addr * block_size + block_size > u64::MAX),
        final(dev).contents() == old(dev).contents(),
        r matches Ok(v) ==> {
            &&& v@.len() == ptrs_per_block(block_size)
            &&& block_addr * block_size + block_size <= old(dev).contents().len()
            &&& forall|i: int| 0 <= i < v@.len() ==> #[trigger] v@[i] == table_ptr(old(dev).contents(), block_addr, i, block_size)
        },
{
    let ghost c = dev.contents();
    let off = block_offset(block_addr, block_size)?;
    let buf = match dev.read(off, block_size as usize) {
        Ok(v) => v,
        Err(e) => return Err(VolumeError::Device(e)),
    };
    let count = block_size as usize / 8;
    let mut ptrs: Vec<u64> = Vec::new();
    let mut i: usize = 0;
    while i < count
        invariant
            count == ptrs_per_block(block_size),
            i <= count,
            buf@.len() == block_size,
            buf@ == c.subrange(off as int, off + block_size),
            off == block_addr * block_size,
            off + block_size <= c.len(),
            ptrs@.len() == i,
            forall|j: int| 0 <= j < i ==> #[trigger] ptrs@[j] == table_ptr(c, block_addr, j, block_size),
        decreases count - i,
    {
        let p = get_u64(buf.as_slice(), 8 * i);
        proof {
            assert(buf@.subrange(8 * i, 8 * i + 8) =~= c.subrange(off + 8 * i, off + 8 * i + 8));
        }
        ptrs.push(p);
        i = i + 1;
    }
    Ok(ptrs)
}

/// The block image of a pointer table: the pointers, then zeros.
pub open spec fn table_image(ptrs: Seq<u64>, bs: u32) -> Seq<u8> {
    enc64_seq(ptrs) + zeros((bs - 8 * ptrs.len()) as nat)
}

/// Write a pointer table into block `block_addr`.
fn write_ptr_table<D: CFSBlockDevice>(dev: &mut D, block_addr: u64, ptrs: &[u64], block_size: u32) -> (r: Result<(), VolumeError>)
    requires
        8 * ptrs@.len() <= block_size,
    ensures
        r matches Err(e) ==> e is Device || (e == VolumeError::OutOfRange && block_addr * block_size + block_size > u64::MAX),
        r is Ok ==> {
            &&& block_addr * block_size + block_size <= old(dev).contents().len()
            &&& final(dev).contents() == written(old(dev).contents(), block_addr * block_size, table_image(ptrs@, block_size))
        },
        r is Err ==> final(dev).contents() == old(dev).contents(),
{
    let off = block_offset(block_addr, block_size)?;
    let mut buf: Vec<u8> = Vec::new();
    push_u64_seq(&mut buf, ptrs);
    proof {
        lemma_enc64_seq_len(ptrs@);
    }
    push_zeros(&mut buf, block_size as usize - 8 * ptrs.len());
    match dev.write(off, buf.as_slice()) {
        Ok(()) => Ok(()),
        Err(e) => Err(VolumeError::Device(e)),
    }
}

/// After a table is written, its pointers read back.
proof fn lemma_table_written(c: Seq<u8>, t: u64, ptrs: Seq<u64>, bs: u32, i: int)
    requires
        8 * ptrs.len() <= bs,
        t * bs + bs <= c.len(),
        0 <= i < ptrs.len(),
    ensures
        table_ptr(written(c, t * bs, table_image(ptrs, bs)), t, i, bs) == ptrs[i],
{
    lemma_codec_roundtrip();
    lemma_enc64_seq_len(ptrs);
    let img = table_image(ptrs, bs);
    let w = written(c, t * bs, img);
    assert(w.subrange(t * bs, t * bs + 8 * ptrs.len()) =~= enc64_seq(ptrs));
    lemma_le64_of_seq(w, t * bs, ptrs);
}

/// Physical block of logical block `lb` of a file mapped by pointer tables
/// (0 for a hole); `OutOfRange` past the largest file.
pub fn get_block_ptr_legacy<D: CFSBlockDevice>(dev: &mut D, inode: &Inode, logical_block: u64, block_size: u32) -> (r: Result<u64, VolumeError>)
    ensures
        final(dev).contents() == old(dev).contents(),
        legacy_block_ptr(old(dev).contents(), *inode, logical_block, block_size) is None ==> r == Err::<u64, VolumeError>(VolumeError::OutOfRange),
        r matches Ok(p) ==> legacy_block_ptr(old(dev).contents(), *inode, logical_block, block_size) == Some(p),
        r matches Err(e) ==> e is Device || e is OutOfRange,
{
    let ghost c = dev.contents();
    let ppb = block_size as u64 / 8;
    if logical_block < DIRECT_BLOCKS {
        return Ok(inode.direct_blocks[logical_block as usize]);
    }
    let adj = logical_block - DIRECT_BLOCKS;
    if adj < ppb {
        if inode.indirect_block == 0 {
            return Ok(0);
        }
        let table = read_ptr_table(dev, inode.indirect_block, block_size)?;
        return Ok(table[adj as usize]);
    }
    let adj = adj - ppb;
    proof {
        assert(ppb * ppb <= 0x2000_0000u64 * 0x2000_0000u64) by (nonlinear_arith)
            requires
                ppb <= 0x2000_0000,
        ;
    }
    if adj < ppb * ppb {
        if inode.double_indirect == 0 {
            return Ok(0);
        }
        assert(ppb > 0) by (nonlinear_arith)
            requires
                adj < ppb * ppb,
        ;
        let l1_idx = adj / ppb;
        let l2_idx = adj % ppb;
        proof {
            assert(l1_idx < ppb) by (nonlinear_arith)
                requires
                    l1_idx == adj / ppb,
                    adj < ppb * ppb,
                    ppb > 0,
            ;
        }
        let l1_table = read_ptr_table(dev, inode.double_indirect, block_size)?;
        let l1 = l1_table[l1_idx as usize];
        if l1 == 0 {
            return Ok(0);
        }
        let l2_table = read_ptr_table(dev, l1, block_size)?;
        return Ok(l2_table[l2_idx as usize]);
    }
    Err(VolumeError::OutOfRange)
}

/// Table blocks `set_block_ptr_legacy` allocates for logical block `lb`:
/// the indirect table, the double-indirect table and its second-level
/// table, each when missing.
pub open spec fn tables_needed(c: Seq<u8>, inode: Inode, lb: u64, bs: u32) -> int {
    let ppb = ptrs_per_block(bs);
    if lb < 10 {
        0
    } else if lb - 10 < ppb {
        if inode.indirect_block == 0 { 1 } else { 0 }
    } else if inode.double_indirect == 0 {
        2
    } else if table_ptr(c, inode.double_indirect, (lb - 10 - ppb) / ppb, bs) == 0 {
        1
    } else {
        0
    }
}

/// Take one block from the allocator.
fn alloc_table_block<D: CFSBlockDevice>(dev: &mut D, alloc: &mut BlockAlloc, sb: &mut Superblock) -> (r: Result<u64, VolumeError>)
    requires
        old(alloc).wf(),
    ensures
        final(alloc).wf(),
        final(alloc).same_kind(old(alloc)),
        r is Ok ==> *final(sb) == sb_minus_blocks(*old(sb), 1) && old(sb).free_blocks >= 1,
        r is Err ==> *final(sb) == *old(sb),
        r matches Ok(b) ==> final(alloc).took(old(alloc), seq![b]),
        *old(alloc) is Legacy ==> (r matches Err(e) ==> flat_alloc_fails(old(alloc)->bitmap@, old(sb).free_blocks, 1, e)),
{
    let v = alloc.allocate(dev, sb, 1)?;
    assert(v@ =~= seq![v@[0]]);
    Ok(v[0])
}

/// Zero block `b`.
fn zero_block<D: CFSBlockDevice>(dev: &mut D, b: u64, block_size: u32) -> (r: Result<(), VolumeError>)
    ensures
        r matches Err(e) ==> e is Device || (e == VolumeError::OutOfRange && b * block_size + block_size > u64::MAX),
        r is Ok ==> {
            &&& b * block_size + block_size <= old(dev).contents().len()
            &&& final(dev).contents() == written(old(dev).contents(), b * block_size, zeros(block_size as nat))
        },
{
    let off = block_offset(b, block_size)?;
    let z = vec![0u8; block_size as usize];
    assert(z@ =~= zeros(block_size as nat));
    match dev.write(off, z.as_slice()) {
        Ok(()) => Ok(()),
        Err(e) => Err(VolumeError::Device(e)),
    }
}

/// Make logical block `lb` of a file mapped by pointer tables point at
/// physical block `phys`, allocating (and zeroing) missing tables;
/// `OutOfRange` past the largest file. In the direct and indirect ranges the
/// mapping of `lb` afterwards reads back as `phys`.
pub fn set_block_ptr_legacy<D: CFSBlockDevice>(
    dev: &mut D,
    inode: &mut Inode,
    logical_block: u64,
    physical_block: u64,
    block_size: u32,
    alloc: &mut BlockAlloc,
    sb: &mut Superblock,
) -> (r: Result<(), VolumeError>)
    requires
        old(alloc).wf(),
    ensures
        final(alloc).wf(),
        final(alloc).same_kind(old(alloc)),
        legacy_block_ptr(old(dev).contents(), *old(inode), logical_block, block_size) is None ==> r == Err::<(), VolumeError>(
            VolumeError::OutOfRange,
        ) && *final(inode) == *old(inode) && final(dev).contents() == old(dev).contents() && *final(sb) == *old(sb),
        r is Ok ==> {
            &&& *final(sb) == sb_minus_blocks(*old(sb), tables_needed(old(dev).contents(), *old(inode), logical_block, block_size))
            &&& final(inode).mode == old(inode).mode && final(inode).size == old(inode).size
                && final(inode).block_count == old(inode).block_count && final(inode).flags == old(inode).flags
            &&& logical_block < 10 ==> {
                &&& final(inode).direct_blocks@ == old(inode).direct_blocks@.update(logical_block as int, physical_block)
                &&& *final(inode) == (Inode { direct_blocks: final(inode).direct_blocks, ..*old(inode) })
                &&& final(dev).contents() == old(dev).contents()
            }
            &&& logical_block >= 10 ==> final(inode).direct_blocks == old(inode).direct_blocks
            &&& old(inode).indirect_block != 0 ==> final(inode).indirect_block == old(inode).indirect_block
            &&& old(inode).double_indirect != 0 ==> final(inode).double_indirect == old(inode).double_indirect
            &&& logical_block < 10 + ptrs_per_block(block_size) ==> {
                &&& final(inode).double_indirect == old(inode).double_indirect
                &&& (logical_block < 10 || final(inode).indirect_block != 0) ==> legacy_block_ptr(
                    final(dev).contents(),
                    *final(inode),
                    logical_block,
                    block_size,
                ) == Some(physical_block)
            }
            &&& logical_block >= 10 + ptrs_per_block(block_size) ==> final(inode).indirect_block == old(inode).indirect_block
        },
        r is Err ==> *final(sb) == (Superblock { free_blocks: final(sb).free_blocks, ..*old(sb) }) && final(sb).free_blocks
            <= old(sb).free_blocks,
        root_only(*final(inode), *old(inode)),
        sb_spent(*final(sb), *old(sb)),
{
    let ghost c0 = dev.contents();
    let ppb = block_size as u64 / 8;
    if logical_block < DIRECT_BLOCKS {
        inode.direct_blocks[logical_block as usize] = physical_block;
        return Ok(());
    }
    let adj = logical_block - DIRECT_BLOCKS;
    if adj < ppb {
        if inode.indirect_block == 0 {
            let t = alloc_table_block(dev, alloc, sb)?;
            inode.indirect_block = t;
            zero_block(dev, t, block_size)?;
        }
        let mut table = read_ptr_table(dev, inode.indirect_block, block_size)?;
        table.set(adj as usize, physical_block);
        proof {
            assert(8 * table@.len() <= block_size) by (nonlinear_arith)
                requires
                    table@.len() == block_size / 8,
            ;
        }
        let ghost cm = dev.contents();
        write_ptr_table(dev, inode.indirect_block, table.as_slice(), block_size)?;
        proof {
            lemma_table_written(cm, inode.indirect_block, table@, block_size, adj as int);
        }
        return Ok(());
    }
    let adj = adj - ppb;
    proof {
        assert(ppb * ppb <= 0x2000_0000u64 * 0x2000_0000u64) by (nonlinear_arith)
            requires
                ppb <= 0x2000_0000,
        ;
    }
    if adj < ppb * ppb {
        assert(ppb > 0) by (nonlinear_arith)
            requires
                adj < ppb * ppb,
        ;
        let l1_idx = adj / ppb;
        let l2_idx = adj % ppb;
        proof {
            assert(l1_idx < ppb) by (nonlinear_arith)
                requires
                    l1_idx == adj / ppb,
                    adj < ppb * ppb,
                    ppb > 0,
            ;
        }
        let ghost fresh_l1 = inode.double_indirect == 0;
        if inode.double_indirect == 0 {
            let t = alloc_table_block(dev, alloc, sb)?;
            inode.double_indirect = t;
            zero_block(dev, t, block_size)?;
        }
        let ghost c1 = dev.contents();
        let mut l1_table = read_ptr_table(dev, inode.double_indirect, block_size)?;
        proof {
            assert(8 * l1_table@.len() <= block_size) by (nonlinear_arith)
                requires
                    l1_table@.len() == block_size / 8,
            ;
            if fresh_l1 {
                let o = inode.double_indirect * block_size + 8 * l1_idx;
                assert(c1.subrange(o, o + 8) =~= zeros(8));
                crate::codec::lemma_le64_zeros();
            }
        }
        if l1_table[l1_idx as usize] == 0 {
            let t = alloc_table_block(dev, alloc, sb)?;
            l1_table.set(l1_idx as usize, t);
            zero_block(dev, t, block_size)?;
            write_ptr_table(dev, inode.double_indirect, l1_table.as_slice(), block_size)?;
        }
        let l2 = l1_table[l1_idx as usize];
        let mut l2_table = read_ptr_table(dev, l2, block_size)?;
        proof {
            assert(8 * l2_table@.len() <= block_size) by (nonlinear_arith)
                requires
                    l2_table@.len() == block_size / 8,
            ;
        }
        l2_table.set(l2_idx as usize, physical_block);
        write_ptr_table(dev, l2, l2_table.as_slice(), block_size)?;
        return Ok(());
    }
    Err(VolumeError::OutOfRange)
}


/// Whether the file is mapped by an extent tree.
pub open spec fn uses_extents(inode: Inode) -> bool {
    inode.flags & INODE_FLAG_EXTENTS != 0
}

/// Whether the file's data is held in the inode's inline area.
pub open spec fn is_inline(inode: Inode) -> bool {
    inode.flags & INODE_FLAG_INLINE_DATA != 0
}

/// Block `lb` of a file whose extent root is flat: the physical block of
/// the leaf covering it, 0 for a hole or a preallocated block.
pub open spec fn flat_extent_ptr(inode: Inode, lb: u32) -> u64 {
    let ls = root_leaves(inode);
    if exists|i: int| 0 <= i < ls.len() && #[trigger] leaf_covers(ls[i], lb) {
        let i = choose|i: int| 0 <= i < ls.len() && #[trigger] leaf_covers(ls[i], lb);
        if leaf_uninit(ls[i]) {
            0
        } else {
            (leaf_physical(ls[i]) + (lb - ls[i].ee_block)) as u64
        }
    } else {
        0
    }
}

/// The physical block of logical block `lb` as `get_block_ptr` finds it,
/// for pointer-mapped files and files with a flat, ordered extent root;
/// `None` where the lookup fails or is not modelled.
pub open spec fn file_block_ptr(c: Seq<u8>, inode: Inode, lb: u64, bs: u32) -> Option<u64> {
    if !uses_extents(inode) {
        legacy_block_ptr(c, inode, lb, bs)
    } else if flat_root(inode) && disjoint_sorted(root_leaves(inode)) {
        Some(flat_extent_ptr(inode, lb as u32))
    } else {
        None
    }
}

/// Physical block of logical block `logical_block` (0 for a hole): through
/// the extent tree when the inode uses one (see `get_block_ptr_extent`; the
/// block number is taken modulo 2^32), else through the pointer tables.
pub fn get_block_ptr<D: CFSBlockDevice>(dev: &mut D, inode: &Inode, logical_block: u64, block_size: u32) -> (r: Result<u64, VolumeError>)
    requires
        block_size >= 12,
    ensures
        final(dev).contents() == old(dev).contents(),
        !uses_extents(*inode) ==> {
            &&& legacy_block_ptr(old(dev).contents(), *inode, logical_block, block_size) is None ==> r == Err::<u64, VolumeError>(
                VolumeError::OutOfRange,
            )
            &&& r matches Ok(p) ==> legacy_block_ptr(old(dev).contents(), *inode, logical_block, block_size) == Some(p)
            &&& r matches Err(e) ==> e is Device || e is OutOfRange
        },
        uses_extents(*inode) && flat_root(*inode) && disjoint_sorted(root_leaves(*inode)) ==> r == Ok::<u64, VolumeError>(
            flat_extent_ptr(*inode, logical_block as u32),
        ),
{
    if inode.flags & INODE_FLAG_EXTENTS != 0 {
        let r = get_block_ptr_extent(dev, inode, logical_block as u32, block_size);
        proof {
            let ls = root_leaves(*inode);
            let lb = logical_block as u32;
            if flat_root(*inode) && disjoint_sorted(ls) {
                if exists|i: int| 0 <= i < ls.len() && #[trigger] leaf_covers(ls[i], lb) {
                    let i = choose|i: int| 0 <= i < ls.len() && #[trigger] leaf_covers(ls[i], lb);
                    assert(leaf_covers(ls[i], lb));
                }
            }
        }
        return r;
    }
    get_block_ptr_legacy(dev, inode, logical_block, block_size)
}

/// Byte `p` of a file whose blocks `file_block_ptr` finds: 0 in a hole or
/// a preallocated block.
pub open spec fn file_byte(c: Seq<u8>, inode: Inode, bs: u32, p: int) -> u8 {
    match file_block_ptr(c, inode, (p / (bs as int)) as u64, bs) {
        Some(b) => if b == 0 {
            0u8
        } else {
            c[b * bs + p % (bs as int)]
        },
        None => 0u8,
    }
}

/// No two leaves map overlapping physical ranges.
pub open spec fn phys_disjoint(ls: Seq<ExtentLeaf>) -> bool {
    forall|i: int, j: int| #![trigger ls[i], ls[j]] 0 <= i < j < ls.len() ==>
        leaf_physical(ls[i]) + leaf_count(ls[i]) <= leaf_physical(ls[j]) || leaf_physical(ls[j]) + leaf_count(ls[j]) <= leaf_physical(ls[i])
}

/// The file keeps its blocks through a flat, ordered extent root whose
/// leaves map disjoint physical ranges, and each logical block from `first`
/// to `last` lies in an initialized leaf at a nonzero physical block.
pub open spec fn extents_mapped(inode: Inode, first: int, last: int) -> bool {
    let ls = root_leaves(inode);
    &&& uses_extents(inode)
    &&& !is_inline(inode)
    &&& flat_root(inode)
    &&& disjoint_sorted(ls)
    &&& phys_disjoint(ls)
    &&& 0 <= first <= last < 0x1_0000_0000
    &&& forall|lb: int| first <= lb <= last ==> #[trigger] block_in_init_leaf(ls, lb)
}

/// Logical block `lb` lies in an initialized leaf at a nonzero physical block.
pub open spec fn block_in_init_leaf(ls: Seq<ExtentLeaf>, lb: int) -> bool {
    exists|i: int| {
        &&& 0 <= i < ls.len()
        &&& #[trigger] leaf_covers(ls[i], lb as u32)
        &&& !leaf_uninit(ls[i])
        &&& leaf_physical(ls[i]) + (lb - ls[i].ee_block) != 0
    }
}

/// Byte `p` of the file is a hole or lies in a block on the device.
pub open spec fn byte_on_device(c: Seq<u8>, inode: Inode, bs: u32, p: int) -> bool {
    match file_block_ptr(c, inode, (p / (bs as int)) as u64, bs) {
        Some(b) => b == 0 || b * bs + bs <= c.len(),
        None => true,
    }
}

/// Two blocks found at one nonzero physical block are the same block.
proof fn lemma_flat_ptr_injective(inode: Inode, lb1: u32, lb2: u32)
    requires
        flat_root(inode),
        disjoint_sorted(root_leaves(inode)),
        phys_disjoint(root_leaves(inode)),
        flat_extent_ptr(inode, lb1) == flat_extent_ptr(inode, lb2),
        flat_extent_ptr(inode, lb1) != 0,
    ensures
        lb1 == lb2,
{
    let ls = root_leaves(inode);
    let i1 = choose|i: int| 0 <= i < ls.len() && #[trigger] leaf_covers(ls[i], lb1);
    let i2 = choose|i: int| 0 <= i < ls.len() && #[trigger] leaf_covers(ls[i], lb2);
    assert(flat_extent_ptr(inode, lb1) == (leaf_physical(ls[i1]) + (lb1 - ls[i1].ee_block)) as u64);
    assert(flat_extent_ptr(inode, lb2) == (leaf_physical(ls[i2]) + (lb2 - ls[i2].ee_block)) as u64);
    assert(leaf_physical(ls[i1]) < 0x1_0000_0000_0000) by {
        assert(ls[i1].ee_start_hi * 0x1_0000_0000 + ls[i1].ee_start_lo < 0x1_0000_0000_0000);
    }
    assert(leaf_physical(ls[i2]) < 0x1_0000_0000_0000) by {
        assert(ls[i2].ee_start_hi * 0x1_0000_0000 + ls[i2].ee_start_lo < 0x1_0000_0000_0000);
    }
    if i1 < i2 {
        assert(leaf_physical(ls[i1]) + leaf_count(ls[i1]) <= leaf_physical(ls[i2]) || leaf_physical(ls[i2]) + leaf_count(ls[i2]) <= leaf_physical(ls[i1]));
    } else if i2 < i1 {
        assert(leaf_physical(ls[i2]) + leaf_count(ls[i2]) <= leaf_physical(ls[i1]) || leaf_physical(ls[i1]) + leaf_count(ls[i1]) <= leaf_physical(ls[i2]));
    }
}

/// A flat root whose leaves map exactly one logical block `lb`, to `p`,
/// finds `p` for that block.
proof fn lemma_single_mapping_ptr(inode: Inode, lb: u32, p: int)
    requires
        flat_root(inode),
        0 <= p < 0x1_0000_0000_0000,
        forall|x: int, q: int, u: bool|
            #![trigger leaves_map(root_leaves(inode), x, q, u)]
            leaves_map(root_leaves(inode), x, q, u) == (x == lb && q == p && !u),
    ensures
        flat_extent_ptr(inode, lb) == p,
{
    let ls = root_leaves(inode);
    assert(leaves_map(ls, lb as int, p, false));
    let k = choose|k: int| 0 <= k < ls.len() && #[trigger] leaf_maps(ls[k], lb as int, p, false);
    assert(leaf_covers(ls[k], lb));
    let i = choose|i: int| 0 <= i < ls.len() && #[trigger] leaf_covers(ls[i], lb);
    let l = ls[i];
    let st = l.ee_block as int;
    assert(leaf_maps(l, st, (leaf_physical(l) + (st - l.ee_block)) % 0x1_0000_0000_0000, leaf_uninit(l)));
    assert(leaves_map(ls, st, (leaf_physical(l) + (st - l.ee_block)) % 0x1_0000_0000_0000, leaf_uninit(l)));
    assert(st == lb);
    assert(leaf_physical(l) < 0x1_0000_0000_0000) by {
        assert(l.ee_start_hi * 0x1_0000_0000 + l.ee_start_lo < 0x1_0000_0000_0000);
    }
    vstd::arithmetic::div_mod::lemma_small_mod(leaf_physical(l) as nat, 0x1_0000_0000_0000nat);
    assert(!leaf_uninit(l));
}

/// Writing `chunk` bytes of `data` into the block of the file's logical
/// block `lb` at `oib` sets the file's bytes `[pos, pos + chunk)` and keeps
/// every other byte of the first 2^32 blocks that lies on the device.
#[verifier::spinoff_prover]
#[verifier::rlimit(30)]
proof fn lemma_write_chunk(
    c: Seq<u8>,
    c1: Seq<u8>,
    inode: Inode,
    bs: u32,
    lb: int,
    oib: int,
    chunk: int,
    pos: int,
    offset: int,
    data: Seq<u8>,
    p: u64,
)
    requires
        bs > 0,
        uses_extents(inode),
        flat_root(inode),
        disjoint_sorted(root_leaves(inode)),
        phys_disjoint(root_leaves(inode)),
        0 <= lb < 0x1_0000_0000,
        0 <= oib,
        oib + chunk <= bs,
        0 < chunk,
        pos == lb * bs + oib,
        offset <= pos,
        pos - offset + chunk <= data.len(),
        p != 0,
        p == flat_extent_ptr(inode, lb as u32),
        p * bs + bs <= c.len(),
        c1 == written(c, p * bs + oib, data.subrange(pos - offset, pos - offset + chunk)),
    ensures
        c1.len() == c.len(),
        forall|q: int| pos <= q < pos + chunk ==> #[trigger] file_byte(c1, inode, bs, q) == data[q - offset] && byte_on_device(c1, inode, bs, q),
        forall|q: int|
            0 <= q < 0x1_0000_0000 * bs && !(pos <= q < pos + chunk) && byte_on_device(c, inode, bs, q) ==> #[trigger] file_byte(c1, inode, bs, q)
                == file_byte(c, inode, bs, q) && byte_on_device(c1, inode, bs, q),
{
    let d = data.subrange(pos - offset, pos - offset + chunk);
    assert(c1.len() == c.len());
    assert forall|q: int| pos <= q < pos + chunk implies #[trigger] file_byte(c1, inode, bs, q) == data[q - offset]
        && byte_on_device(c1, inode, bs, q) by {
        vstd::arithmetic::div_mod::lemma_fundamental_div_mod_converse_div(q, bs as int, lb, oib + (q - pos));
        vstd::arithmetic::div_mod::lemma_fundamental_div_mod_converse_mod(q, bs as int, lb, oib + (q - pos));
        assert(q / (bs as int) == lb);
        assert(q % (bs as int) == oib + (q - pos));
        assert(file_block_ptr(c1, inode, lb as u64, bs) == Some(p));
        assert(c1[p * bs + q % (bs as int)] == d[q - pos]);
    }
    assert forall|q: int|
        0 <= q < 0x1_0000_0000 * bs && !(pos <= q < pos + chunk) && byte_on_device(c, inode, bs, q) implies #[trigger] file_byte(c1, inode, bs, q)
            == file_byte(c, inode, bs, q) && byte_on_device(c1, inode, bs, q) by {
        let lq = q / (bs as int);
        let r = q % (bs as int);
        vstd::arithmetic::div_mod::lemma_fundamental_div_mod(q, bs as int);
        assert(0 <= lq < 0x1_0000_0000) by {
            vstd::arithmetic::div_mod::lemma_div_is_ordered(q, 0x1_0000_0000 * bs - 1, bs as int);
            vstd::arithmetic::div_mod::lemma_fundamental_div_mod_converse_div(0x1_0000_0000 * bs - 1, bs as int, 0x1_0000_0000 - 1, bs - 1);
            vstd::arithmetic::div_mod::lemma_div_pos_is_pos(q, bs as int);
        }
        let pq = flat_extent_ptr(inode, lq as u32);
        assert(file_block_ptr(c, inode, lq as u64, bs) == Some(pq));
        if pq != 0 {
            if pq == p {
                lemma_flat_ptr_injective(inode, lq as u32, lb as u32);
                assert(lq == lb);
                assert(lb * bs == bs * lb) by (nonlinear_arith);
                assert(q == lb * bs + r);
                assert(!(oib <= r < oib + chunk));
            } else {
                if pq < p {
                    assert(pq * bs + bs <= p * bs) by (nonlinear_arith)
                        requires
                            pq < p,
                    ;
                } else {
                    assert(p * bs + bs <= pq * bs) by (nonlinear_arith)
                        requires
                            p < pq,
                    ;
                }
            }
            assert(c1[pq * bs + r] == c[pq * bs + r]);
        }
    }
}

/// Bytes `[offset, offset + len)` of a file, cut at its size.
pub open spec fn read_len(size: u64, offset: u64, len: u64) -> int {
    if offset >= size {
        0
    } else if offset + len <= size {
        len as int
    } else {
        size - offset
    }
}

/// Read up to `len` bytes from byte `offset`, stopping at the file's size;
/// holes read as zeros. Inline files read from the inline area (`Invalid`
/// when their size exceeds it).
pub fn read_data<D: CFSBlockDevice>(dev: &mut D, inode: &Inode, block_size: u32, offset: u64, len: u64) -> (r: Result<Vec<u8>, VolumeError>)
    requires
        block_size >= 12,
        offset + len <= u64::MAX,
    ensures
        final(dev).contents() == old(dev).contents(),
        r matches Ok(v) ==> v@.len() == read_len(inode.size, offset, len),
        is_inline(*inode) && inode.size <= 76 ==> (r matches Ok(v) && (offset < inode.size ==> v@
            == inode.inline_area@.subrange(offset as int, offset + read_len(inode.size, offset, len)))),
        !is_inline(*inode) && (!uses_extents(*inode) || (flat_root(*inode) && disjoint_sorted(root_leaves(*inode))))
            ==> (r matches Ok(v) ==> forall|k: int|
            0 <= k < v@.len() ==> #[trigger] v@[k] == file_byte(old(dev).contents(), *inode, block_size, offset + k)),
{
    let ghost c = dev.contents();
    if inode.flags & INODE_FLAG_INLINE_DATA != 0 {
        if inode.size > MAX_INLINE_DATA_SIZE as u64 {
            return Err(VolumeError::Invalid);
        }
        if offset >= inode.size {
            return Ok(Vec::new());
        }
        let end = if offset + len <= inode.size {
            offset + len
        } else {
            inode.size
        };
        let mut out: Vec<u8> = Vec::new();
        push_bytes(&mut out, slice_subrange(inode.inline_area.as_slice(), offset as usize, end as usize));
        return Ok(out);
    }
    if offset >= inode.size {
        return Ok(Vec::new());
    }
    let end = if offset + len <= inode.size {
        offset + len
    } else {
        inode.size
    };
    let bs = block_size as u64;
    let mut result: Vec<u8> = Vec::new();
    let mut pos = offset;
    while pos < end
        invariant
            offset <= pos <= end,
            end == offset + read_len(inode.size, offset, len),
            bs == block_size,
            bs >= 12,
            dev.contents() == c,
            c == old(dev).contents(),
            !is_inline(*inode),
            result@.len() == pos - offset,
            !is_inline(*inode) && (!uses_extents(*inode) || (flat_root(*inode) && disjoint_sorted(root_leaves(*inode))))
                ==> forall|k: int| 0 <= k < result@.len() ==> #[trigger] result@[k] == file_byte(c, *inode, block_size, offset + k),
        decreases end - pos,
    {
        let lb = pos / bs;
        let oib = pos % bs;
        let chunk = if bs - oib < end - pos {
            bs - oib
        } else {
            end - pos
        };
        let physical = get_block_ptr(dev, inode, lb, block_size)?;
        let ghost before = result@;
        if physical == 0 {
            push_zeros(&mut result, chunk as usize);
        } else {
            let off = block_offset(physical, block_size)?;
            let buf = match dev.read(off, block_size as usize) {
                Ok(v) => v,
                Err(e) => return Err(VolumeError::Device(e)),
            };
            push_bytes(&mut result, slice_subrange(buf.as_slice(), oib as usize, (oib + chunk) as usize));
        }
        proof {
            if !is_inline(*inode) && (!uses_extents(*inode) || (flat_root(*inode) && disjoint_sorted(root_leaves(*inode)))) {
                assert forall|k: int| 0 <= k < result@.len() implies #[trigger] result@[k] == file_byte(
                    c,
                    *inode,
                    block_size,
                    offset + k,
                ) by {
                    if k >= before.len() {
                        let j = k - before.len();
                        let p = offset + k;
                        assert(p == pos + j);
                        vstd::arithmetic::div_mod::lemma_fundamental_div_mod(pos as int, bs as int);
                        vstd::arithmetic::div_mod::lemma_fundamental_div_mod_converse_div(p, bs as int, lb as int, oib + j);
                        vstd::arithmetic::div_mod::lemma_fundamental_div_mod_converse_mod(p, bs as int, lb as int, oib + j);
                    }
                }
            }
        }
        pos = pos + chunk;
    }
    Ok(result)
}


/// Seconds since the epoch now.
pub(crate) fn now_timestamp() -> (r: u64) {
    ns_to_seconds(unix_now_ns())
}

/// Point logical block `logical_block` at `physical_block`: one-block
/// extent insert for extent-mapped files (`OutOfRange` for a block number
/// without a 32-bit successor), else `set_block_ptr_legacy`.
pub fn set_block_ptr<D: CFSBlockDevice>(
    dev: &mut D,
    inode: &mut Inode,
    logical_block: u64,
    physical_block: u64,
    block_size: u32,
    alloc: &mut BlockAlloc,
    sb: &mut Superblock,
) -> (r: Result<(), VolumeError>)
    requires
        old(alloc).wf(),
        block_size >= 96,
    ensures
        final(alloc).wf(),
        final(alloc).same_kind(old(alloc)),
        root_only(*final(inode), *old(inode)),
        sb_spent(*final(sb), *old(sb)),
        !uses_extents(*old(inode)) && r is Ok && logical_block < 10 + ptrs_per_block(block_size)
            && (logical_block < 10 || final(inode).indirect_block != 0) ==> legacy_block_ptr(
            final(dev).contents(),
            *final(inode),
            logical_block,
            block_size,
        ) == Some(physical_block),
        uses_extents(*old(inode)) && logical_block as u32 == u32::MAX ==> r == Err::<(), VolumeError>(VolumeError::OutOfRange),
        uses_extents(*old(inode)) && (logical_block as u32) < u32::MAX && flat_root(*old(inode)) && le16(root_area(*old(inode)), 2)
            < le16(root_area(*old(inode)), 4) ==> match r {
            Ok(_) => {
                &&& flat_root(*final(inode))
                &&& forall|x: int, p: int, u: bool|
                    #![trigger leaves_map(root_leaves(*final(inode)), x, p, u)]
                    leaves_map(root_leaves(*final(inode)), x, p, u) == (leaves_map(root_leaves(*old(inode)), x, p, u) || (
                    x == logical_block as u32 && p == physical_block % 0x1_0000_0000_0000 && !u))
            },
            Err(e) => e == VolumeError::Invalid && *final(inode) == *old(inode),
        },
        uses_extents(*old(inode)) && flat_root(*old(inode)) && le16(root_area(*old(inode)), 2) < le16(root_area(*old(inode)), 4)
            && root_leaves(*old(inode)).len() == 0 && r is Ok ==> disjoint_sorted(root_leaves(*final(inode))),
{
    if inode.flags & INODE_FLAG_EXTENTS != 0 {
        let lb = logical_block as u32;
        if lb == u32::MAX {
            return Err(VolumeError::OutOfRange);
        }
        let r = extent_insert(dev, inode, alloc, sb, lb, physical_block, 1, block_size);
        proof {
            if flat_root(*old(inode)) && le16(root_area(*old(inode)), 2) < le16(root_area(*old(inode)), 4)
                && root_leaves(*old(inode)).len() == 0 && r is Ok {
                let e = choose|e: ExtentLeaf| #![trigger leaf_count(e)] {
                    &&& e.ee_block == lb && leaf_count(e) == 1 && !leaf_uninit(e)
                    &&& leaf_physical(e) == physical_block % 0x1_0000_0000_0000
                    &&& !merges_into(root_leaves(*old(inode)), e) ==> disjoint_sorted(root_leaves(*inode))
                };
                assert(!merges_into(root_leaves(*old(inode)), e));
            }
        }
        return r;
    }
    set_block_ptr_legacy(dev, inode, logical_block, physical_block, block_size, alloc, sb)
}

/// What a write learns of an extent-mapped block.
enum BlockStatus {
    Mapped(u64),
    Uninitialized(u64),
    Hole,
}

/// Status of logical block `lb` under a leaf that covers it.
spec fn leaf_status(l: ExtentLeaf, lb: u32) -> BlockStatus {
    let p = (leaf_physical(l) + (lb - l.ee_block)) as u64;
    if p == 0 {
        BlockStatus::Hole
    } else if leaf_uninit(l) {
        BlockStatus::Uninitialized(p)
    } else {
        BlockStatus::Mapped(p)
    }
}

/// Status of logical block `lb` in an extent-mapped file.
fn probe_extent_block<D: CFSBlockDevice>(dev: &mut D, inode: &Inode, lb: u32, block_size: u32) -> (r: Result<BlockStatus, VolumeError>)
    requires
        block_size >= 12,
    ensures
        final(dev).contents() == old(dev).contents(),
        flat_root(*inode) && disjoint_sorted(root_leaves(*inode)) ==> (r matches Ok(st) && {
            &&& forall|i: int| 0 <= i < root_leaves(*inode).len() && #[trigger] leaf_covers(root_leaves(*inode)[i], lb)
                ==> st == leaf_status(root_leaves(*inode)[i], lb)
            &&& (forall|i: int| 0 <= i < root_leaves(*inode).len() ==> !#[trigger] leaf_covers(root_leaves(*inode)[i], lb))
                ==> st == BlockStatus::Hole
        }),
{
    let found = extent_find(dev, inode, lb, block_size);
    proof {
        if flat_root(*inode) && disjoint_sorted(root_leaves(*inode)) {
            let ls = root_leaves(*inode);
            if found is Ok && found->Ok_0 is Some {
                let l = found->Ok_0->Some_0;
                let i0 = choose|i: int| 0 <= i < ls.len() && ls[i] == l;
                assert forall|i: int| 0 <= i < ls.len() && #[trigger] leaf_covers(ls[i], lb) implies ls[i] == l by {
                    if i < i0 {
                        assert(ls[i].ee_block + crate::extent::leaf_count(ls[i]) <= ls[i0].ee_block);
                    } else if i > i0 {
                        assert(ls[i0].ee_block + crate::extent::leaf_count(ls[i0]) <= ls[i].ee_block);
                    }
                }
            }
        }
    }
    match found? {
        Some(leaf) => {
            let phys = match leaf.map(lb) {
                Some(p) => p,
                None => 0,
            };
            if phys == 0 {
                Ok(BlockStatus::Hole)
            } else if leaf.is_uninitialized() {
                Ok(BlockStatus::Uninitialized(phys))
            } else {
                Ok(BlockStatus::Mapped(phys))
            }
        },
        None => Ok(BlockStatus::Hole),
    }
}

/// Copy `src` into the inline area from `offset`.
fn write_inline(inode: &mut Inode, offset: usize, src: &[u8])
    requires
        offset + src@.len() <= 76,
    ensures
        final(inode).inline_area@ == old(inode).inline_area@.subrange(0, offset as int) + src@
            + old(inode).inline_area@.subrange(offset + src@.len(), 76),
        *final(inode) == (Inode { inline_area: final(inode).inline_area, ..*old(inode) }),
{
    let ghost a0 = inode.inline_area@;
    let mut i: usize = 0;
    while i < src.len()
        invariant
            i <= src@.len(),
            offset + src@.len() <= 76,
            *inode == (Inode { inline_area: inode.inline_area, ..*old(inode) }),
            a0 == old(inode).inline_area@,
            forall|k: int| 0 <= k < offset ==> inode.inline_area@[k] == a0[k],
            forall|k: int| 0 <= k < i ==> inode.inline_area@[offset + k] == src@[k],
            forall|k: int| offset + i <= k < 76 ==> inode.inline_area@[k] == a0[k],
        decreases src@.len() - i,
    {
        inode.inline_area[offset + i] = src[i];
        i = i + 1;
    }
    assert(inode.inline_area@ =~= a0.subrange(0, offset as int) + src@ + a0.subrange(offset + src@.len(), 76));
}

/// Write `chunk` bytes of `data` from `data_pos` into physical block
/// `physical` at `offset_in_block`; a partial block is read first.
fn write_block_part<D: CFSBlockDevice>(
    dev: &mut D,
    physical: u64,
    block_size: u32,
    offset_in_block: usize,
    data: &[u8],
    data_pos: usize,
    chunk: usize,
) -> (r: Result<(), VolumeError>)
    requires
        offset_in_block + chunk <= block_size,
        data_pos + chunk <= data@.len(),
    ensures
        r matches Err(e) ==> e is Device || (e == VolumeError::OutOfRange && physical * block_size + block_size > u64::MAX),
        r is Ok ==> {
            &&& physical * block_size + block_size <= old(dev).contents().len()
            &&& final(dev).contents() == written(
                old(dev).contents(),
                physical * block_size + offset_in_block,
                data@.subrange(data_pos as int, data_pos + chunk),
            )
        },
{
    let off = block_offset(physical, block_size)?;
    let ghost c = dev.contents();
    let mut buf: Vec<u8> = Vec::new();
    if offset_in_block != 0 || chunk < block_size as usize {
        buf = match dev.read(off, block_size as usize) {
            Ok(v) => v,
            Err(e) => return Err(VolumeError::Device(e)),
        };
    } else {
        buf = vec![0u8; block_size as usize];
    }
    if buf.len() != block_size as usize {
        return Err(VolumeError::Device(crate::device::DeviceError::Io));
    }
    let _bl = buf.len();
    let _dl = data.len();
    let ghost base = buf@;
    proof {
        if offset_in_block != 0 || chunk < block_size as usize {
            assert(base == c.subrange(off as int, off + block_size));
        }
    }
    let mut i: usize = 0;
    while i < chunk
        invariant
            i <= chunk,
            offset_in_block + chunk <= buf@.len(),
            data_pos + chunk <= data@.len(),
            buf@.len() <= usize::MAX,
            data@.len() <= usize::MAX,
            buf@.len() == base.len(),
            forall|k: int| 0 <= k < i ==> #[trigger] buf@[offset_in_block + k] == data@[data_pos + k],
            forall|k: int| 0 <= k < buf@.len() && !(offset_in_block <= k < offset_in_block + i) ==> buf@[k] == base[k],
        decreases chunk - i,
    {
        buf.set(offset_in_block + i, data[data_pos + i]);
        i = i + 1;
    }
    let ghost img = buf@;
    match dev.write(off, buf.as_slice()) {
        Ok(()) => {
            proof {
                let chunk_bytes = data@.subrange(data_pos as int, data_pos + chunk);
                assert forall|k: int| 0 <= k < chunk implies img[offset_in_block + k] == #[trigger] chunk_bytes[k] by {}
                if offset_in_block != 0 || chunk < block_size as usize {
                    let w1 = written(c, off as int, img);
                    let w2 = written(c, off + offset_in_block, chunk_bytes);
                    assert forall|q: int| 0 <= q < w1.len() implies w1[q] == w2[q] by {
                        if off + offset_in_block <= q < off + offset_in_block + chunk {
                            assert(img[offset_in_block + (q - off - offset_in_block)] == chunk_bytes[q - off - offset_in_block]);
                        } else if off <= q < off + block_size {
                            assert(img[q - off] == base[q - off]);
                        }
                    }
                    assert(w1 =~= w2);
                } else {
                    assert forall|k: int| 0 <= k < img.len() implies img[k] == chunk_bytes[k] by {
                        assert(img[offset_in_block + k] == chunk_bytes[k]);
                    }
                    assert(img =~= chunk_bytes);
                    assert(written(c, off as int, img) =~= written(c, off + offset_in_block, chunk_bytes));
                }
            }
            Ok(())
        },
        Err(e) => Err(VolumeError::Device(e)),
    }
}

/// Allocate a data block for logical block `lb`, map it, count it, and zero
/// it first when the write will not cover it whole.
fn map_new_block<D: CFSBlockDevice>(
    dev: &mut D,
    alloc: &mut BlockAlloc,
    sb: &mut Superblock,
    inode: &mut Inode,
    block_size: u32,
    lb: u64,
    partial: bool,
) -> (r: Result<u64, VolumeError>)
    requires
        old(alloc).wf(),
        block_size >= 96,
    ensures
        final(alloc).wf(),
        final(alloc).same_kind(old(alloc)),
        sb_spent(*final(sb), *old(sb)),
        final(inode).mode == old(inode).mode && final(inode).size == old(inode).size && final(inode).flags == old(inode).flags
            && final(inode).inline_area == old(inode).inline_area,
        old(sb).free_blocks == 0 ==> r is Err,
        r matches Ok(p) ==> {
            &&& final(inode).block_count == old(inode).block_count + 1
            &&& final(sb).free_blocks < old(sb).free_blocks
            &&& partial ==> p * block_size + block_size <= final(dev).contents().len() && final(dev).contents().subrange(
                p * block_size,
                p * block_size + block_size,
            ) == zeros(block_size as nat)
        },
        uses_extents(*old(inode)) && (lb as u32) < u32::MAX && flat_root(*old(inode)) && le16(root_area(*old(inode)), 2) < le16(
            root_area(*old(inode)),
            4,
        ) && root_leaves(*old(inode)).len() == 0 ==> (r matches Ok(p) ==> {
            &&& flat_root(*final(inode))
            &&& disjoint_sorted(root_leaves(*final(inode)))
            &&& forall|x: int, q: int, u: bool|
                #![trigger leaves_map(root_leaves(*final(inode)), x, q, u)]
                leaves_map(root_leaves(*final(inode)), x, q, u) == (x == lb as u32 && q == p % 0x1_0000_0000_0000 && !u)
        }),
{
    let new = alloc.allocate(dev, sb, 1)?;
    let physical = new[0];
    set_block_ptr(dev, inode, lb, physical, block_size, alloc, sb)?;
    if inode.block_count == u32::MAX {
        return Err(VolumeError::OutOfRange);
    }
    inode.block_count = inode.block_count + 1;
    if partial {
        zero_block(dev, physical, block_size)?;
        assert(dev.contents().subrange(physical * block_size, physical * block_size + block_size) =~= zeros(block_size as nat));
    }
    Ok(physical)
}

/// Move inline data into a data block: clear the inline state, give the
/// inode an empty extent root, and write the old bytes through the block
/// path. `Invalid` when the inline size exceeds the inline area.
fn migrate_inline_to_blocks<D: CFSBlockDevice>(
    dev: &mut D,
    alloc: &mut BlockAlloc,
    sb: &mut Superblock,
    inode: &mut Inode,
    block_size: u32,
) -> (r: Result<(), VolumeError>)
    requires
        old(alloc).wf(),
        block_size >= 96,
    ensures
        final(alloc).wf(),
        final(alloc).same_kind(old(alloc)),
        sb_spent(*final(sb), *old(sb)),
        final(inode).mode == old(inode).mode,
        r is Ok ==> !is_inline(*final(inode)) && final(inode).size == old(inode).size,
        old(inode).size > 76 ==> r == Err::<(), VolumeError>(VolumeError::Invalid) && *final(inode) == *old(inode),
        old(inode).size == 0 ==> r is Ok && final(dev).contents() == old(dev).contents() && *final(sb) == *old(sb)
            && final(inode).block_count == 0 && final(inode).inline_area@ == Seq::new(76, |k: int| 0u8),
{
    if inode.size > MAX_INLINE_DATA_SIZE as u64 {
        return Err(VolumeError::Invalid);
    }
    let current_size = inode.size as usize;
    let mut inline_copy: Vec<u8> = Vec::new();
    push_bytes(&mut inline_copy, slice_subrange(inode.inline_area.as_slice(), 0, current_size));
    inode.flags = inode.flags & !INODE_FLAG_INLINE_DATA;
    inode.inline_area = [0u8; 76];
    inode.size = 0;
    inode.block_count = 0;
    inode.block_count_hi = 0;
    inode.init_extent_root();
    proof {
        let f = old(inode).flags;
        assert((f & !1u32) & 1u32 == 0 && ((f & !1u32) | 64u32) & 1u32 == 0) by (bit_vector);
    }
    if current_size > 0 {
        let bs = block_size as u64;
        let mut pos: u64 = 0;
        let mut data_pos: usize = 0;
        while data_pos < inline_copy.len()
            invariant
                alloc.wf(),
                alloc.same_kind(old(alloc)),
                sb_spent(*sb, *old(sb)),
                block_size >= 96,
                bs == block_size,
                pos == data_pos,
                data_pos <= inline_copy@.len(),
                inline_copy@.len() == current_size,
                current_size <= 76,
                old(inode).size == current_size,
                current_size > 0,
                inode.mode == old(inode).mode,
                !is_inline(*inode),
            decreases inline_copy@.len() - data_pos,
        {
            let logical_block = pos / bs;
            let offset_in_block = pos % bs;
            let rest = (inline_copy.len() - data_pos) as u64;
            let chunk = if bs - offset_in_block < rest {
                bs - offset_in_block
            } else {
                rest
            };
            let physical = map_new_block(dev, alloc, sb, inode, block_size, logical_block, false)?;
            let off = block_offset(physical, block_size)?;
            let mut block_buf = vec![0u8; block_size as usize];
            let _bl = block_buf.len();
            let mut i: usize = 0;
            while i < chunk as usize
                invariant
                    i <= chunk,
                    chunk <= 76,
                    offset_in_block + chunk <= block_buf@.len(),
                    data_pos + chunk <= inline_copy@.len(),
                    block_buf@.len() <= usize::MAX,
                    inline_copy@.len() <= 76,
                decreases chunk - i,
            {
                block_buf.set(offset_in_block as usize + i, inline_copy[data_pos + i]);
                i = i + 1;
            }
            match dev.write(off, block_buf.as_slice()) {
                Ok(()) => {},
                Err(e) => return Err(VolumeError::Device(e)),
            }
            pos = pos + chunk;
            data_pos = data_pos + chunk as usize;
        }
        inode.size = current_size as u64;
    }
    Ok(())
}

/// An empty (size 0, no blocks) extent-mapped regular file without inline
/// attributes, written from offset 0 with at most 76 bytes: the write goes
/// inline.
pub open spec fn inline_first_write(inode: Inode, offset: u64, len: int) -> bool {
    !is_inline(inode) && inode.mode == INODE_FILE && inode.block_count == 0 && inode.block_count_hi == 0 && offset == 0
        && len <= 76 && uses_extents(inode) && inode.xattr_inline_size == 0 && inode.size == 0
}

/// A write of `len` bytes at `offset` that falls in one logical block of
/// an extent-mapped file with no blocks yet (an empty flat extent root with
/// room), too large or too far in to go inline.
pub open spec fn fresh_block_write(inode: Inode, offset: u64, len: int, bs: u32) -> bool {
    &&& len > 0
    &&& uses_extents(inode)
    &&& !is_inline(inode)
    &&& flat_root(inode)
    &&& le16(root_area(inode), 2) < le16(root_area(inode), 4)
    &&& root_leaves(inode).len() == 0
    &&& !inline_first_write(inode, offset, len)
    &&& (offset as int) / (bs as int) == (offset + len - 1) / (bs as int)
    &&& (offset as int) / (bs as int) < u32::MAX
}

/// Write `data` at byte `offset` of a file. An inline file takes the bytes
/// in its inline area while they end within 76 bytes, else it first moves
/// to a data block; an empty (size 0) extent-mapped regular file without
/// inline extended attributes takes a first write of at most 76 bytes at
/// offset 0 inline. Otherwise each block is mapped (allocating and zero-filling
/// where a partial write meets a hole; preallocated extents are used and
/// then marked initialized) and written. The size grows to the write's end.
#[verifier::spinoff_prover]
pub fn write_data<D: CFSBlockDevice>(
    dev: &mut D,
    alloc: &mut BlockAlloc,
    sb: &mut Superblock,
    inode: &mut Inode,
    block_size: u32,
    offset: u64,
    data: &[u8],
) -> (r: Result<(), VolumeError>)
    requires
        old(alloc).wf(),
        block_size >= 96,
        offset + data@.len() <= u64::MAX,
    ensures
        final(alloc).wf(),
        final(alloc).same_kind(old(alloc)),
        sb_spent(*final(sb), *old(sb)),
        final(inode).mode == old(inode).mode,
        is_inline(*old(inode)) && offset + data@.len() <= 76 ==> r is Ok && final(dev).contents() == old(dev).contents()
            && final(inode).inline_area@ == old(inode).inline_area@.subrange(0, offset as int) + data@
            + old(inode).inline_area@.subrange(offset + data@.len(), 76) && final(inode).size == (if offset + data@.len()
            > old(inode).size { (offset + data@.len()) as u64 } else { old(inode).size }),
        inline_first_write(*old(inode), offset, data@.len() as int) ==> r is Ok
            && final(dev).contents() == old(dev).contents() && is_inline(*final(inode)) && final(inode).size == data@.len()
            && final(inode).inline_area@.subrange(0, data@.len() as int) == data@,
        r is Ok && !is_inline(*final(inode)) ==> final(inode).size == (if offset + data@.len() > old(inode).size {
            (offset + data@.len()) as u64
        } else {
            old(inode).size
        }),
        data@.len() > 0 && extents_mapped(*old(inode), (offset as int) / (block_size as int), (offset + data@.len() - 1) / (block_size as int))
            && !inline_first_write(*old(inode), offset, data@.len() as int) && r is Ok ==> {
            &&& forall|q: int| offset <= q < offset + data@.len() ==> #[trigger] file_byte(final(dev).contents(), *final(inode), block_size, q)
                == data@[q - offset]
            &&& forall|q: int| 0 <= q < 0x1_0000_0000 * block_size && !(offset <= q < offset + data@.len())
                && byte_on_device(old(dev).contents(), *old(inode), block_size, q) ==> #[trigger] file_byte(final(dev).contents(), *final(inode), block_size, q)
                == file_byte(old(dev).contents(), *old(inode), block_size, q)
        },
        fresh_block_write(*old(inode), offset, data@.len() as int, block_size) && final(dev).contents().len()
            <= 0x1_0000_0000_0000 * block_size && r is Ok ==> {
            let lb = (offset as int) / (block_size as int);
            &&& forall|q: int| q / (block_size as int) == lb && !(offset <= q < offset + data@.len()) ==> #[trigger] file_byte(
                final(dev).contents(),
                *final(inode),
                block_size,
                q,
            ) == 0
            &&& flat_extent_ptr(*final(inode), lb as u32) != 0 ==> forall|q: int| offset <= q < offset + data@.len()
                ==> #[trigger] file_byte(final(dev).contents(), *final(inode), block_size, q) == data@[q - offset]
        },
{
    let end_offset = offset + data.len() as u64;
    let mut migrated = false;
    if inode.flags & INODE_FLAG_INLINE_DATA != 0 {
        if end_offset <= MAX_INLINE_DATA_SIZE as u64 {
            write_inline(inode, offset as usize, data);
            if end_offset > inode.size {
                inode.size = end_offset;
            }
            inode.modified = now_timestamp();
            return Ok(());
        }
        migrate_inline_to_blocks(dev, alloc, sb, inode, block_size)?;
        migrated = true;
    }
    if !migrated && inode.mode == INODE_FILE && inode.block_count == 0 && inode.block_count_hi == 0 && offset == 0
        && data.len() <= MAX_INLINE_DATA_SIZE && inode.flags & INODE_FLAG_EXTENTS != 0 && inode.xattr_inline_size == 0
        && inode.size == 0 {
        write_inline(inode, 0, data);
        inode.size = data.len() as u64;
        inode.flags = inode.flags | INODE_FLAG_INLINE_DATA;
        proof {
            let f = old(inode).flags;
            assert((f | 1u32) & 1u32 != 0) by (bit_vector);
        }
        inode.modified = now_timestamp();
        return Ok(());
    }
    let bs = block_size as u64;
    let mut pos = offset;
    let mut data_pos: usize = 0;
    let mut uninit_ranges: Vec<(u32, u32)> = Vec::new();
    let ghost size0 = inode.size;
    let ghost em = data@.len() > 0 && extents_mapped(*old(inode), (offset as int) / (block_size as int), (offset + data@.len() - 1) / (block_size as int))
        && !inline_first_write(*old(inode), offset, data@.len() as int);
    let ghost inode0 = *old(inode);
    let ghost c0 = old(dev).contents();
    let ghost first = (offset as int) / (block_size as int);
    let ghost last = (offset + data@.len() - 1) / (block_size as int);
    let ghost em2 = fresh_block_write(*old(inode), offset, data@.len() as int, block_size);
    let ghost lb0 = (offset as int) / (block_size as int);
    let ghost oib0 = (offset as int) % (block_size as int);
    let ghost mut gp: u64 = 0;
    proof {
        if em {
            assert(*inode == inode0);
            assert(dev.contents() == c0);
            assert(offset + data@.len() <= 0x1_0000_0000 * block_size) by {
                if offset + data@.len() > 0x1_0000_0000 * block_size {
                    vstd::arithmetic::div_mod::lemma_div_is_ordered(0x1_0000_0000 * block_size, offset + data@.len() - 1, block_size as int);
                    vstd::arithmetic::div_mod::lemma_div_multiples_vanish(0x1_0000_0000, block_size as int);
                }
            }
        }
    }
    proof {
        if em2 {
            assert(*inode == inode0);
            assert(dev.contents() == c0);
            vstd::arithmetic::div_mod::lemma_fundamental_div_mod(offset as int, block_size as int);
            vstd::arithmetic::div_mod::lemma_fundamental_div_mod(offset + data@.len() - 1, block_size as int);
            assert(oib0 + data@.len() <= block_size) by (nonlinear_arith)
                requires
                    offset == block_size * lb0 + oib0,
                    offset + data@.len() - 1 == block_size * lb0 + (offset + data@.len() - 1) % (block_size as int),
                    (offset + data@.len() - 1) % (block_size as int) < block_size,
            ;
        }
    }
    while data_pos < data.len()
        invariant
            em2 ==> fresh_block_write(inode0, offset, data@.len() as int, block_size),
            inode0 == *old(inode),
            em2 ==> uninit_ranges@.len() == 0,
            em2 ==> lb0 == (offset as int) / (block_size as int) && oib0 == (offset as int) % (block_size as int)
                && oib0 + data@.len() <= block_size && offset == block_size * lb0 + oib0 && 0 <= lb0 < u32::MAX,
            em2 && data_pos == 0 ==> *inode == inode0 && dev.contents() == c0,
            em2 && data_pos > 0 ==> {
                &&& data_pos == data@.len()
                &&& uses_extents(*inode)
                &&& !is_inline(*inode)
                &&& flat_root(*inode)
                &&& disjoint_sorted(root_leaves(*inode))
                &&& forall|x: int, q: int, u: bool|
                    #![trigger leaves_map(root_leaves(*inode), x, q, u)]
                    leaves_map(root_leaves(*inode), x, q, u) == (x == lb0 as u32 && q == gp % 0x1_0000_0000_0000 && !u)
                &&& gp * block_size + block_size <= dev.contents().len()
                &&& forall|k: int| 0 <= k < block_size && !(oib0 <= k < oib0 + data@.len()) ==> #[trigger] dev.contents()[gp * block_size + k] == 0
                &&& forall|k: int| oib0 <= k < oib0 + data@.len() ==> #[trigger] dev.contents()[gp * block_size + k] == data@[k - oib0]
            },
            em ==> *inode == inode0,
            em ==> uninit_ranges@.len() == 0,
            em ==> dev.contents().len() == c0.len(),
            em ==> offset + data@.len() <= 0x1_0000_0000 * block_size,
            em ==> extents_mapped(inode0, first, last),
            first == (offset as int) / (block_size as int),
            last == (offset + data@.len() - 1) / (block_size as int),
            em ==> forall|q: int| offset <= q < pos ==> #[trigger] file_byte(dev.contents(), inode0, block_size, q) == data@[q - offset]
                && byte_on_device(dev.contents(), inode0, block_size, q),
            em ==> forall|q: int| 0 <= q < 0x1_0000_0000 * block_size && !(offset <= q < pos) && byte_on_device(c0, inode0, block_size, q)
                ==> #[trigger] file_byte(dev.contents(), inode0, block_size, q) == file_byte(c0, inode0, block_size, q)
                && byte_on_device(dev.contents(), inode0, block_size, q),
            alloc.wf(),
            alloc.same_kind(old(alloc)),
            sb_spent(*sb, *old(sb)),
            block_size >= 96,
            bs == block_size,
            pos == offset + data_pos,
            data_pos <= data@.len(),
            offset + data@.len() <= u64::MAX,
            inode.mode == old(inode).mode,
            inode.size == size0,
            !is_inline(*inode),
            !inline_first_write(*old(inode), offset, data@.len() as int),
            !(is_inline(*old(inode)) && offset + data@.len() <= 76),
            forall|k: int| 0 <= k < uninit_ranges@.len() ==> #[trigger] uninit_ranges@[k].0 + uninit_ranges@[k].1 <= u32::MAX,
        decreases data@.len() - data_pos,
    {
        let logical_block = pos / bs;
        let offset_in_block = pos % bs;
        let rest = (data.len() - data_pos) as u64;
        let chunk = if bs - offset_in_block < rest {
            bs - offset_in_block
        } else {
            rest
        };
        let partial = offset_in_block != 0 || chunk < bs;
        let ghost c_before = dev.contents();
        proof {
            if em {
                vstd::arithmetic::div_mod::lemma_fundamental_div_mod(pos as int, bs as int);
                vstd::arithmetic::div_mod::lemma_div_is_ordered(offset as int, pos as int, bs as int);
                vstd::arithmetic::div_mod::lemma_div_is_ordered(pos as int, offset + data@.len() - 1, bs as int);
                assert(first <= logical_block <= last);
                assert(block_in_init_leaf(root_leaves(inode0), logical_block as int));
                let ls = root_leaves(inode0);
                let i0 = choose|i: int| {
                    &&& 0 <= i < ls.len()
                    &&& #[trigger] leaf_covers(ls[i], logical_block as u32)
                    &&& !leaf_uninit(ls[i])
                    &&& leaf_physical(ls[i]) + (logical_block - ls[i].ee_block) != 0
                };
                assert forall|j: int| 0 <= j < ls.len() && #[trigger] leaf_covers(ls[j], logical_block as u32) implies j == i0 by {
                    if j < i0 {
                        assert(ls[j].ee_block + leaf_count(ls[j]) <= ls[i0].ee_block);
                    } else if i0 < j {
                        assert(ls[i0].ee_block + leaf_count(ls[i0]) <= ls[j].ee_block);
                    }
                }
                assert(leaf_physical(ls[i0]) < 0x1_0000_0000_0000) by {
                    assert(ls[i0].ee_start_hi * 0x1_0000_0000 + ls[i0].ee_start_lo < 0x1_0000_0000_0000);
                }
                assert(flat_extent_ptr(inode0, logical_block as u32) == (leaf_physical(ls[i0]) + (logical_block - ls[i0].ee_block)) as u64);
                assert((logical_block as u32) as int == logical_block as int);
                assert(leaf_status(ls[i0], logical_block as u32) == BlockStatus::Mapped(flat_extent_ptr(inode0, logical_block as u32)));
                assert(uses_extents(*inode));
            }
        }
        proof {
            if em2 {
                assert(*inode == inode0);
                assert(uses_extents(*inode));
                assert(root_leaves(*inode).len() == 0);
                assert(disjoint_sorted(root_leaves(*inode)));
                assert(forall|i: int| 0 <= i < root_leaves(*inode).len() ==> !#[trigger] leaf_covers(root_leaves(*inode)[i], logical_block as u32));
                assert(logical_block == lb0);
                assert((logical_block as u32) < u32::MAX);
            }
        }
        let physical;
        if inode.flags & INODE_FLAG_EXTENTS != 0 {
            match probe_extent_block(dev, inode, logical_block as u32, block_size)? {
                BlockStatus::Mapped(p) => {
                    physical = p;
                },
                BlockStatus::Uninitialized(p) => {
                    physical = p;
                    let lb = logical_block as u32;
                    let n = uninit_ranges.len();
                    if n > 0 && uninit_ranges[n - 1].0 as u64 + uninit_ranges[n - 1].1 as u64 == lb as u64 {
                        let (st, cnt) = uninit_ranges[n - 1];
                        if st as u64 + cnt as u64 + 1 > u32::MAX as u64 {
                            return Err(VolumeError::OutOfRange);
                        }
                        uninit_ranges.set(n - 1, (st, cnt + 1));
                    } else {
                        if lb == u32::MAX {
                            return Err(VolumeError::OutOfRange);
                        }
                        uninit_ranges.push((lb, 1));
                    }
                },
                BlockStatus::Hole => {
                    physical = map_new_block(dev, alloc, sb, inode, block_size, logical_block, partial)?;
                },
            }
        } else {
            let p = get_block_ptr(dev, inode, logical_block, block_size)?;
            if p == 0 {
                physical = map_new_block(dev, alloc, sb, inode, block_size, logical_block, partial)?;
            } else {
                physical = p;
            }
        }
        let ghost c_mid = dev.contents();
        proof {
            if em2 {
                assert(data_pos == 0);
                assert(chunk == data@.len());
                assert(logical_block == lb0 && offset_in_block == oib0);
                assert(partial ==> c_mid.subrange(physical * block_size, physical * block_size + block_size) == zeros(block_size as nat));
            }
        }
        write_block_part(dev, physical, block_size, offset_in_block as usize, data, data_pos, chunk as usize)?;
        proof {
            if em2 {
                assert(partial == (oib0 != 0 || data@.len() < block_size));
                gp = physical;
                let c1 = dev.contents();
                assert forall|k: int| 0 <= k < block_size && !(oib0 <= k < oib0 + data@.len()) implies #[trigger] c1[gp * block_size + k] == 0 by {
                    assert(partial);
                    assert(c_mid.subrange(gp * block_size, gp * block_size + block_size)[k] == 0u8);
                    assert(c1[gp * block_size + k] == c_mid[gp * block_size + k]);
                }
                assert forall|k: int| oib0 <= k < oib0 + data@.len() implies #[trigger] c1[gp * block_size + k] == data@[k - oib0] by {
                    assert(c1[gp * block_size + k] == data@.subrange(0, data@.len() as int)[k - oib0]);
                }
            }
            if em {
                assert(physical == flat_extent_ptr(inode0, logical_block as u32));
                assert(logical_block * bs == bs * logical_block) by (nonlinear_arith);
                lemma_write_chunk(c_before, dev.contents(), inode0, block_size, logical_block as int, offset_in_block as int,
                    chunk as int, pos as int, offset as int, data@, physical);
                assert forall|q: int| offset <= q < pos + chunk implies #[trigger] file_byte(dev.contents(), inode0, block_size, q) == data@[q - offset]
                    && byte_on_device(dev.contents(), inode0, block_size, q) by {
                    if q < pos {
                        assert(file_byte(c_before, inode0, block_size, q) == data@[q - offset]);
                        assert(byte_on_device(c_before, inode0, block_size, q));
                        assert(0 <= q < 0x1_0000_0000 * block_size);
                        assert(file_byte(dev.contents(), inode0, block_size, q) == file_byte(c_before, inode0, block_size, q));
                    } else {
                        assert(pos <= q < pos + chunk);
                        assert(file_byte(dev.contents(), inode0, block_size, q) == data@[q - offset]);
                    }
                }
            }
        }
        pos = pos + chunk;
        data_pos = data_pos + chunk as usize;
    }
    let ghost c_done = dev.contents();
    let ghost inode_done = *inode;
    let mut k: usize = 0;
    while k < uninit_ranges.len()
        invariant
            em ==> uninit_ranges@.len() == 0 && *inode == inode0 && dev.contents() == c_done,
            em2 ==> uninit_ranges@.len() == 0 && *inode == inode_done && dev.contents() == c_done,
            alloc.wf(),
            alloc.same_kind(old(alloc)),
            sb_spent(*sb, *old(sb)),
            block_size >= 96,
            inode.mode == old(inode).mode,
            inode.size == size0,
            !is_inline(*inode),
            !inline_first_write(*old(inode), offset, data@.len() as int),
            !(is_inline(*old(inode)) && offset + data@.len() <= 76),
            k <= uninit_ranges@.len(),
            forall|q: int| 0 <= q < uninit_ranges@.len() ==> #[trigger] uninit_ranges@[q].0 + uninit_ranges@[q].1 <= u32::MAX,
        decreases uninit_ranges@.len() - k,
    {
        let (start, count) = uninit_ranges[k];
        extent_mark_initialized(dev, inode, alloc, sb, start, count, block_size)?;
        k = k + 1;
    }
    if pos > inode.size {
        inode.size = pos;
    }
    inode.modified = now_timestamp();
    proof {
        if em {
            assert forall|lb: u64| #[trigger] file_block_ptr(c_done, *inode, lb, block_size) == file_block_ptr(c_done, inode0, lb, block_size) by {
                assert(root_area(*inode) == root_area(inode0));
            }
            assert forall|lb: u64| #[trigger] file_block_ptr(c0, *inode, lb, block_size) == file_block_ptr(c0, inode0, lb, block_size) by {
                assert(root_area(*inode) == root_area(inode0));
            }
            assert(pos == offset + data@.len());
            assert(dev.contents() == c_done);
            assert forall|q: int| offset <= q < offset + data@.len() implies #[trigger] file_byte(dev.contents(), *inode, block_size, q)
                == data@[q - offset] by {
                assert(file_byte(c_done, inode0, block_size, q) == data@[q - offset]);
                assert(file_block_ptr(c_done, *inode, (q / (block_size as int)) as u64, block_size) == file_block_ptr(c_done, inode0, (q / (block_size as int)) as u64, block_size));
            }
            assert forall|q: int| 0 <= q < 0x1_0000_0000 * block_size && !(offset <= q < offset + data@.len())
                && byte_on_device(c0, inode0, block_size, q) implies #[trigger] file_byte(dev.contents(), *inode, block_size, q)
                == file_byte(c0, inode0, block_size, q) by {
                assert(file_byte(c_done, inode0, block_size, q) == file_byte(c0, inode0, block_size, q));
                assert(file_block_ptr(c_done, *inode, (q / (block_size as int)) as u64, block_size) == file_block_ptr(c_done, inode0, (q / (block_size as int)) as u64, block_size));
            }
        }
        if em2 && dev.contents().len() <= 0x1_0000_0000_0000 * block_size {
            let c = dev.contents();
            assert(c == c_done);
            assert(root_area(*inode) == root_area(inode_done));
            assert(gp < 0x1_0000_0000_0000) by (nonlinear_arith)
                requires
                    gp * block_size + block_size <= c.len(),
                    c.len() <= 0x1_0000_0000_0000 * block_size,
                    block_size > 0,
            ;
            vstd::arithmetic::div_mod::lemma_small_mod(gp as nat, 0x1_0000_0000_0000nat);
            lemma_single_mapping_ptr(*inode, lb0 as u32, gp as int);
            assert forall|q: int| q / (block_size as int) == lb0 implies #[trigger] file_byte(c, *inode, block_size, q)
                == (if gp == 0 { 0u8 } else if offset <= q < offset + data@.len() { data@[q - offset] } else { 0u8 }) by {
                vstd::arithmetic::div_mod::lemma_fundamental_div_mod(q, block_size as int);
                let kq = q % (block_size as int);
                assert(file_block_ptr(c, *inode, lb0 as u64, block_size) == Some(gp));
                if gp != 0 {
                    assert(q == block_size * lb0 + kq);
                    if offset <= q < offset + data@.len() {
                        assert(c[gp * block_size + kq] == data@[kq - oib0]);
                    } else {
                        assert(!(oib0 <= kq < oib0 + data@.len()));
                    }
                }
            }
            assert forall|q: int| flat_extent_ptr(*inode, lb0 as u32) != 0 && offset <= q < offset + data@.len()
                implies #[trigger] file_byte(c, *inode, block_size, q) == data@[q - offset] by {
                vstd::arithmetic::div_mod::lemma_fundamental_div_mod(q, block_size as int);
                vstd::arithmetic::div_mod::lemma_fundamental_div_mod_converse_div(q, block_size as int, lb0, oib0 + (q - offset));
            }
        }
    }
    Ok(())
}


/// The nonzero entries of `s`, in order.
pub open spec fn nonzero(s: Seq<u64>) -> Seq<u64>
    decreases s.len(),
{
    if s.len() == 0 {
        Seq::empty()
    } else if s.last() != 0 {
        nonzero(s.drop_last()).push(s.last())
    } else {
        nonzero(s.drop_last())
    }
}

/// The pointer table held in block `t`.
pub open spec fn table_seq(c: Seq<u8>, t: u64, bs: u32) -> Seq<u64> {
    Seq::new(ptrs_per_block(bs) as nat, |i: int| table_ptr(c, t, i, bs))
}

/// Data blocks under the second-level tables listed in `l1s`, table by table.
pub open spec fn second_level_data(c: Seq<u8>, l1s: Seq<u64>, bs: u32) -> Seq<u64>
    decreases l1s.len(),
{
    if l1s.len() == 0 {
        Seq::empty()
    } else if l1s.last() != 0 {
        second_level_data(c, l1s.drop_last(), bs) + nonzero(table_seq(c, l1s.last(), bs))
    } else {
        second_level_data(c, l1s.drop_last(), bs)
    }
}

/// Every data block of a file mapped by pointer tables: the direct
/// pointers, the indirect table's entries, then the entries of each
/// second-level table; holes left out.
pub open spec fn legacy_data_blocks(c: Seq<u8>, inode: Inode, bs: u32) -> Seq<u64> {
    nonzero(inode.direct_blocks@) + (if inode.indirect_block != 0 {
        nonzero(table_seq(c, inode.indirect_block, bs))
    } else {
        Seq::empty()
    }) + (if inode.double_indirect != 0 {
        second_level_data(c, table_seq(c, inode.double_indirect, bs), bs)
    } else {
        Seq::empty()
    })
}

/// Every pointer-table block of a file: the indirect table, the
/// second-level tables, then the double-indirect table.
pub open spec fn legacy_table_blocks(c: Seq<u8>, inode: Inode, bs: u32) -> Seq<u64> {
    (if inode.indirect_block != 0 {
        seq![inode.indirect_block]
    } else {
        Seq::empty()
    }) + (if inode.double_indirect != 0 {
        nonzero(table_seq(c, inode.double_indirect, bs)).push(inode.double_indirect)
    } else {
        Seq::empty()
    })
}

/// What freeing every block of a file mapped by pointer tables did, from
/// device contents `c`: the data blocks, then the table blocks, went back to
/// the allocator and the free count; the inode lost its pointers, block
/// count and size.
pub open spec fn legacy_freed(
    c: Seq<u8>,
    i0: Inode,
    i1: Inode,
    s0: Superblock,
    s1: Superblock,
    a0: BlockAlloc,
    a1: BlockAlloc,
    bs: u32,
) -> bool {
    let data = legacy_data_blocks(c, i0, bs);
    let tables = legacy_table_blocks(c, i0, bs);
    &&& i1.direct_blocks@ == Seq::new(10, |k: int| 0u64)
    &&& i1 == (Inode {
        direct_blocks: i1.direct_blocks,
        indirect_block: 0,
        double_indirect: 0,
        block_count: 0,
        size: 0,
        modified: i1.modified,
        ..i0
    })
    &&& s1 == (Superblock { free_blocks: (s0.free_blocks + data.len() + tables.len()) as u64, ..s0 })
    &&& exists|mid: BlockAlloc| #[trigger] mid.gave_back(&a0, data) && a1.gave_back(&mid, tables)
}

/// Append the nonzero entries of `table` to `out`.
fn push_nonzero(out: &mut Vec<u64>, table: &Vec<u64>)
    ensures
        final(out)@ == old(out)@ + nonzero(table@),
{
    let ghost o0 = out@;
    let mut i: usize = 0;
    while i < table.len()
        invariant
            i <= table@.len(),
            out@ == o0 + nonzero(table@.take(i as int)),
        decreases table@.len() - i,
    {
        proof {
            let t = table@.take(i + 1);
            assert(t.drop_last() =~= table@.take(i as int));
            assert(t.last() == table@[i as int]);
        }
        if table[i] != 0 {
            out.push(table[i]);
            proof {
                assert(o0 + nonzero(table@.take(i as int)).push(table@[i as int]) =~= (o0 + nonzero(
                    table@.take(i as int),
                )).push(table@[i as int]));
            }
        }
        i = i + 1;
    }
    assert(table@.take(table@.len() as int) =~= table@);
}

/// Every block's end offset fits in 64 bits.
fn blocks_addressable(blocks: &[u64], bs: u32) -> (r: bool)
    ensures
        r == forall|k: int| 0 <= k < blocks@.len() ==> (blocks@[k] + 1) * bs <= u64::MAX,
{
    if bs == 0 {
        return true;
    }
    let mut k: usize = 0;
    while k < blocks.len()
        invariant
            k <= blocks@.len(),
            bs >= 1,
            forall|q: int| 0 <= q < k ==> (blocks@[q] + 1) * bs <= u64::MAX,
        decreases blocks@.len() - k,
    {
        let b = blocks[k];
        let fits = match b.checked_add(1) {
            Some(n) => match n.checked_mul(bs as u64) {
                Some(_) => true,
                None => false,
            },
            None => false,
        };
        if !fits {
            proof {
                if b < u64::MAX {
                    assert((b + 1) * bs > u64::MAX);
                } else {
                    assert((b + 1) * bs >= b + 1) by (nonlinear_arith)
                        requires
                            bs >= 1,
                    ;
                }
            }
            return false;
        }
        k = k + 1;
    }
    true
}

/// Nothing freed is a free of nothing.
proof fn lemma_gave_back_nothing(a: &BlockAlloc)
    ensures
        a.gave_back(a, Seq::empty()),
{
    match a {
        BlockAlloc::Legacy { bitmap, data_start } => {
            let o = crate::block_alloc::offsets(Seq::<u64>::empty(), *data_start);
            assert(o =~= Seq::<u64>::empty());
            assert(crate::block_alloc::clear_all(bitmap@, o) =~= bitmap@);
        },
        BlockAlloc::Group { .. } => {},
    }
}

/// Give `blocks` back to the allocator, zeroing them first when `secure`.
/// Nothing is done for an empty list. `Invalid` when a block lies outside
/// the data area, the free count could not take them back, or (secure) a
/// block's end offset does not fit in 64 bits.
fn release_blocks<D: CFSBlockDevice>(
    dev: &mut D,
    alloc: &mut BlockAlloc,
    sb: &mut Superblock,
    blocks: &Vec<u64>,
    block_size: u32,
    secure: bool,
) -> (r: Result<(), VolumeError>)
    requires
        old(alloc).wf(),
    ensures
        final(alloc).wf(),
        final(alloc).same_kind(old(alloc)),
        r is Ok ==> {
            &&& old(sb).free_blocks + blocks@.len() <= u64::MAX
            &&& *final(sb) == (Superblock { free_blocks: (old(sb).free_blocks + blocks@.len()) as u64, ..*old(sb) })
            &&& final(alloc).gave_back(old(alloc), blocks@)
        },
        r is Err ==> *final(sb) == *old(sb),
        blocks@.len() == 0 ==> r is Ok,
        blocks@.len() > 0 && !(old(alloc).blocks_in_area(blocks@) && old(sb).free_blocks + blocks@.len() <= u64::MAX)
            ==> r == Err::<(), VolumeError>(VolumeError::Invalid),
        blocks@.len() > 0 && secure && !(forall|k: int| 0 <= k < blocks@.len() ==> (blocks@[k] + 1) * block_size <= u64::MAX)
            ==> r == Err::<(), VolumeError>(VolumeError::Invalid),
        *old(alloc) is Legacy && blocks@.len() > 0 && old(alloc).blocks_in_area(blocks@) && old(sb).free_blocks + blocks@.len()
            <= u64::MAX && (!secure || forall|k: int| 0 <= k < blocks@.len() ==> (blocks@[k] + 1) * block_size <= u64::MAX)
            ==> (r matches Err(e) ==> e is Device || !freeable(old(alloc)->bitmap@, offsets(blocks@, old(alloc)->data_start))),
        *old(alloc) is Legacy && !secure && blocks@.len() > 0 && old(alloc).blocks_in_area(blocks@) && old(sb).free_blocks
            + blocks@.len() <= u64::MAX ==> (r is Ok <==> freeable(old(alloc)->bitmap@, offsets(blocks@, old(alloc)->data_start))),
{
    if blocks.len() == 0 {
        proof {
            assert(blocks@ =~= Seq::<u64>::empty());
            lemma_gave_back_nothing(alloc);
        }
        return Ok(());
    }
    if !alloc.can_take_back(sb, blocks.as_slice()) {
        return Err(VolumeError::Invalid);
    }
    if secure {
        if !blocks_addressable(blocks.as_slice(), block_size) {
            return Err(VolumeError::Invalid);
        }
        alloc.secure_free(dev, sb, blocks.as_slice(), block_size)
    } else {
        alloc.free(dev, sb, blocks.as_slice())
    }
}

/// Free every data and table block of a file mapped by pointer tables,
/// zeroing them first when `secure`, and clear its pointers, block count
/// and size. Data blocks are freed first, then table blocks.
fn free_all_blocks_legacy<D: CFSBlockDevice>(
    dev: &mut D,
    alloc: &mut BlockAlloc,
    sb: &mut Superblock,
    inode: &mut Inode,
    block_size: u32,
    secure: bool,
) -> (r: Result<(), VolumeError>)
    requires
        old(alloc).wf(),
    ensures
        final(alloc).wf(),
        final(alloc).same_kind(old(alloc)),
        final(inode).mode == old(inode).mode,
        r is Ok ==> legacy_freed(old(dev).contents(), *old(inode), *final(inode), *old(sb), *final(sb), *old(alloc), *final(alloc), block_size),
{
    let ghost c = dev.contents();
    let ghost i0 = *inode;
    let mut data_blocks: Vec<u64> = Vec::new();
    let mut table_blocks: Vec<u64> = Vec::new();
    let mut i: usize = 0;
    while i < 10
        invariant
            i <= 10,
            data_blocks@ == nonzero(i0.direct_blocks@.take(i as int)),
            forall|k: int| 0 <= k < i ==> inode.direct_blocks@[k] == 0u64,
            forall|k: int| i <= k < 10 ==> inode.direct_blocks@[k] == i0.direct_blocks@[k],
            *inode == (Inode { direct_blocks: inode.direct_blocks, ..i0 }),
        decreases 10 - i,
    {
        proof {
            let t = i0.direct_blocks@.take(i + 1);
            assert(t.drop_last() =~= i0.direct_blocks@.take(i as int));
            assert(t.last() == i0.direct_blocks@[i as int]);
        }
        if inode.direct_blocks[i] != 0 {
            data_blocks.push(inode.direct_blocks[i]);
            inode.direct_blocks[i] = 0;
        }
        i = i + 1;
    }
    assert(i0.direct_blocks@.take(10) =~= i0.direct_blocks@);
    assert(inode.direct_blocks@ =~= Seq::new(10, |k: int| 0u64));
    if inode.indirect_block != 0 {
        let table = read_ptr_table(dev, inode.indirect_block, block_size)?;
        assert(table@ =~= table_seq(c, i0.indirect_block, block_size));
        push_nonzero(&mut data_blocks, &table);
        table_blocks.push(inode.indirect_block);
        inode.indirect_block = 0;
    }
    assert(table_blocks@ =~= (if i0.indirect_block != 0 { seq![i0.indirect_block] } else { Seq::empty() }));
    let ghost d1 = data_blocks@;
    let ghost t1 = table_blocks@;
    if inode.double_indirect != 0 {
        let l1_table = read_ptr_table(dev, inode.double_indirect, block_size)?;
        assert(l1_table@ =~= table_seq(c, i0.double_indirect, block_size));
        let mut j: usize = 0;
        while j < l1_table.len()
            invariant
                j <= l1_table@.len(),
                dev.contents() == c,
                *alloc == *old(alloc),
                *sb == *old(sb),
                alloc.wf(),
                inode.mode == old(inode).mode,
                data_blocks@ == d1 + second_level_data(c, l1_table@.take(j as int), block_size),
                table_blocks@ == t1 + nonzero(l1_table@.take(j as int)),
            decreases l1_table@.len() - j,
        {
            proof {
                let t = l1_table@.take(j + 1);
                assert(t.drop_last() =~= l1_table@.take(j as int));
                assert(t.last() == l1_table@[j as int]);
            }
            let l1 = l1_table[j];
            if l1 != 0 {
                let l2_table = read_ptr_table(dev, l1, block_size)?;
                assert(l2_table@ =~= table_seq(c, l1, block_size));
                push_nonzero(&mut data_blocks, &l2_table);
                table_blocks.push(l1);
                proof {
                    assert(d1 + second_level_data(c, l1_table@.take(j as int), block_size) + nonzero(l2_table@) =~= d1
                        + (second_level_data(c, l1_table@.take(j as int), block_size) + nonzero(l2_table@)));
                    assert(t1 + nonzero(l1_table@.take(j as int)).push(l1) =~= (t1 + nonzero(l1_table@.take(j as int))).push(l1));
                }
            }
            j = j + 1;
        }
        assert(l1_table@.take(l1_table@.len() as int) =~= l1_table@);
        table_blocks.push(inode.double_indirect);
        inode.double_indirect = 0;
        proof {
            assert(table_blocks@ =~= t1 + nonzero(table_seq(c, i0.double_indirect, block_size)).push(i0.double_indirect));
        }
    } else {
        assert(data_blocks@ =~= d1 + Seq::<u64>::empty());
        assert(table_blocks@ =~= t1 + Seq::<u64>::empty());
    }
    assert(data_blocks@ =~= legacy_data_blocks(c, i0, block_size));
    assert(table_blocks@ =~= legacy_table_blocks(c, i0, block_size));
    let ghost a0 = *alloc;
    release_blocks(dev, alloc, sb, &data_blocks, block_size, secure)?;
    let ghost a1 = *alloc;
    release_blocks(dev, alloc, sb, &table_blocks, block_size, secure)?;
    assert(a1.gave_back(&a0, data_blocks@) && alloc.gave_back(&a1, table_blocks@));
    inode.block_count = 0;
    inode.size = 0;
    inode.modified = now_timestamp();
    Ok(())
}

/// An inline file emptied: inline area zeroed, size 0, inline flag off.
pub open spec fn inline_cleared(i0: Inode, i1: Inode) -> bool {
    &&& i1.inline_area@ == Seq::new(76, |k: int| 0u8)
    &&& !is_inline(i1)
    &&& i1 == (Inode {
        inline_area: i1.inline_area,
        size: 0,
        flags: i0.flags & !INODE_FLAG_INLINE_DATA,
        modified: i1.modified,
        ..i0
    })
}

/// Free every data and node block of an extent-mapped file, zeroing them
/// first when `secure`, and reset the inode to an empty extent root with
/// size and block count 0.
fn free_all_extents_secure<D: CFSBlockDevice>(
    dev: &mut D,
    inode: &mut Inode,
    alloc: &mut BlockAlloc,
    sb: &mut Superblock,
    block_size: u32,
    secure: bool,
) -> (r: Result<(), VolumeError>)
    requires
        old(alloc).wf(),
        block_size >= 12,
    ensures
        final(alloc).wf(),
        final(alloc).same_kind(old(alloc)),
        final(inode).mode == old(inode).mode,
        r is Ok ==> {
            &&& root_area(*final(inode)) == header_bytes(
                ExtentHeader { magic: EXTENT_MAGIC, entries: 0, max: EXTENT_ROOT_MAX_ENTRIES, depth: 0, generation: 0 },
            ) + zeros(84)
            &&& *final(inode) == (Inode {
                direct_blocks: final(inode).direct_blocks,
                indirect_block: final(inode).indirect_block,
                double_indirect: final(inode).double_indirect,
                flags: old(inode).flags | INODE_FLAG_EXTENTS,
                size: 0,
                block_count: 0,
                block_count_hi: 0,
                ..*old(inode)
            })
            &&& final(sb).free_blocks >= old(sb).free_blocks
            &&& *final(sb) == (Superblock { free_blocks: final(sb).free_blocks, ..*old(sb) })
        },
        flat_root(*old(inode)) ==> ({
            let d = leaf_runs(root_leaves(*old(inode)));
            &&& d.len() > 0 && !(old(alloc).blocks_in_area(d) && old(sb).free_blocks + d.len() <= u64::MAX) ==> r
                == Err::<(), VolumeError>(VolumeError::Invalid)
            &&& secure && d.len() > 0 && !(forall|k: int| 0 <= k < d.len() ==> (d[k] + 1) * block_size <= u64::MAX) ==> r
                == Err::<(), VolumeError>(VolumeError::Invalid)
            &&& *old(alloc) is Legacy && !secure ==> (r is Ok <==> (d.len() == 0 || (old(alloc).blocks_in_area(d)
                && old(sb).free_blocks + d.len() <= u64::MAX && freeable(old(alloc)->bitmap@, offsets(d, old(alloc)->data_start)))))
            &&& r is Ok ==> *final(sb) == (Superblock { free_blocks: (old(sb).free_blocks + d.len()) as u64, ..*old(sb) })
        }),
{
    let (data_blocks, node_blocks) = collect_all_extents(dev, inode, block_size)?;
    release_blocks(dev, alloc, sb, &data_blocks, block_size, secure)?;
    release_blocks(dev, alloc, sb, &node_blocks, block_size, secure)?;
    init_inode_extent_root(inode);
    inode.size = 0;
    inode.block_count = 0;
    inode.block_count_hi = 0;
    Ok(())
}

/// Free every block of a file (zeroing them first when `secure`): an
/// inline file just loses its inline bytes and flag; an extent-mapped file
/// frees its tree (see `free_all_extents_secure`); otherwise the pointer
/// tables are walked (see `free_all_blocks_legacy`).
pub fn free_all_blocks<D: CFSBlockDevice>(
    dev: &mut D,
    alloc: &mut BlockAlloc,
    sb: &mut Superblock,
    inode: &mut Inode,
    block_size: u32,
    secure: bool,
) -> (r: Result<(), VolumeError>)
    requires
        old(alloc).wf(),
        block_size >= 12,
    ensures
        final(alloc).wf(),
        final(alloc).same_kind(old(alloc)),
        final(inode).mode == old(inode).mode,
        is_inline(*old(inode)) ==> {
            &&& r is Ok
            &&& inline_cleared(*old(inode), *final(inode))
            &&& final(dev).contents() == old(dev).contents()
            &&& *final(sb) == *old(sb)
            &&& *final(alloc) == *old(alloc)
        },
        !is_inline(*old(inode)) && uses_extents(*old(inode)) && r is Ok ==> {
            &&& final(inode).size == 0
            &&& final(inode).block_count == 0
            &&& final(inode).block_count_hi == 0
            &&& final(inode).mode == old(inode).mode
            &&& final(sb).free_blocks >= old(sb).free_blocks
        },
        !is_inline(*old(inode)) && !uses_extents(*old(inode)) && r is Ok ==> legacy_freed(
            old(dev).contents(),
            *old(inode),
            *final(inode),
            *old(sb),
            *final(sb),
            *old(alloc),
            *final(alloc),
            block_size,
        ),
{
    if inode.flags & INODE_FLAG_INLINE_DATA != 0 {
        inode.inline_area = [0u8; 76];
        inode.size = 0;
        inode.flags = inode.flags & !INODE_FLAG_INLINE_DATA;
        inode.modified = now_timestamp();
        proof {
            let f = old(inode).flags;
            assert((f & !1u32) & 1u32 == 0) by (bit_vector);
            assert(inode.inline_area@ =~= Seq::new(76, |k: int| 0u8));
        }
        return Ok(());
    }
    if inode.flags & INODE_FLAG_EXTENTS != 0 {
        return free_all_extents_secure(dev, inode, alloc, sb, block_size, secure);
    }
    free_all_blocks_legacy(dev, alloc, sb, inode, block_size, secure)
}

/// Zero bytes `[tail, block_size)` of block `physical`.
fn zero_block_tail<D: CFSBlockDevice>(dev: &mut D, physical: u64, block_size: u32, tail: usize) -> (r: Result<(), VolumeError>)
    requires
        tail <= block_size,
    ensures
        r matches Err(e) ==> e is Device || (e == VolumeError::OutOfRange && physical * block_size + block_size > u64::MAX),
        r is Ok ==> {
            &&& physical * block_size + block_size <= old(dev).contents().len()
            &&& final(dev).contents() == written(
                old(dev).contents(),
                physical * block_size,
                old(dev).contents().subrange(physical * block_size, physical * block_size + tail) + zeros(
                    (block_size - tail) as nat,
                ),
            )
        },
{
    let ghost c = dev.contents();
    let off = block_offset(physical, block_size)?;
    let mut buf = match dev.read(off, block_size as usize) {
        Ok(v) => v,
        Err(e) => return Err(VolumeError::Device(e)),
    };
    let mut i: usize = tail;
    while i < buf.len()
        invariant
            tail <= i <= buf@.len(),
            buf@.len() == block_size,
            buf@.subrange(0, tail as int) == c.subrange(off as int, off + tail),
            forall|k: int| tail <= k < i ==> buf@[k] == 0u8,
        decreases buf@.len() - i,
    {
        buf.set(i, 0);
        i = i + 1;
    }
    assert(buf@ =~= c.subrange(off as int, off + tail) + zeros((block_size - tail) as nat));
    match dev.write(off, buf.as_slice()) {
        Ok(()) => Ok(()),
        Err(e) => Err(VolumeError::Device(e)),
    }
}

/// Truncate a file to `new_size` bytes. Growing (or keeping) the size only
/// sets it; size 0 frees every block (see `free_all_blocks`). An inline
/// file stays inline up to 76 bytes (bytes past the new size are zeroed),
/// and moves to a data block to grow past that. Shrinking an extent-mapped
/// file removes the logical blocks past the new last block from the tree
/// and frees them (only blocks below 2^32 can be mapped); a file mapped by
/// pointer tables clears and frees each such block. The bytes past the new
/// size in its last block are zeroed. `Invalid` for an inline size beyond
/// the inline area.
pub fn truncate<D: CFSBlockDevice>(
    dev: &mut D,
    alloc: &mut BlockAlloc,
    sb: &mut Superblock,
    inode: &mut Inode,
    block_size: u32,
    new_size: u64,
    secure: bool,
) -> (r: Result<(), VolumeError>)
    requires
        old(alloc).wf(),
        block_size >= 96,
    ensures
        final(alloc).wf(),
        final(alloc).same_kind(old(alloc)),
        final(inode).mode == old(inode).mode,
        r is Ok ==> final(inode).size == new_size,
        is_inline(*old(inode)) && new_size == 0 ==> r is Ok && inline_cleared(*old(inode), *final(inode))
            && final(dev).contents() == old(dev).contents() && *final(sb) == *old(sb),
        is_inline(*old(inode)) && 0 < new_size <= 76 && old(inode).size <= 76 ==> {
            &&& r is Ok
            &&& final(dev).contents() == old(dev).contents()
            &&& *final(sb) == *old(sb)
            &&& final(inode).inline_area@ == (if new_size < old(inode).size {
                old(inode).inline_area@.subrange(0, new_size as int) + zeros((old(inode).size - new_size) as nat)
                    + old(inode).inline_area@.subrange(old(inode).size as int, 76)
            } else {
                old(inode).inline_area@
            })
            &&& *final(inode) == (Inode {
                inline_area: final(inode).inline_area,
                size: new_size,
                modified: final(inode).modified,
                ..*old(inode)
            })
        },
        !is_inline(*old(inode)) && new_size >= old(inode).size ==> {
            &&& r is Ok
            &&& *final(inode) == (Inode { size: new_size, ..*old(inode) })
            &&& final(dev).contents() == old(dev).contents()
            &&& *final(sb) == *old(sb)
            &&& *final(alloc) == *old(alloc)
        },
        !is_inline(*old(inode)) && !uses_extents(*old(inode)) && new_size == 0 && old(inode).size > 0 && r is Ok
            ==> legacy_freed(
            old(dev).contents(),
            *old(inode),
            *final(inode),
            *old(sb),
            *final(sb),
            *old(alloc),
            *final(alloc),
            block_size,
        ),
        !is_inline(*old(inode)) && uses_extents(*old(inode)) && flat_root(*old(inode)) && 0 < new_size < old(inode).size && r is Ok ==> {
            let rs = (new_size - 1) / (block_size as int) + 1;
            let last = (old(inode).size - 1) / (block_size as int);
            let re = if last < u32::MAX { last + 1 } else { u32::MAX as int };
            rs < re ==> {
                let gone = removed_phys(root_leaves(*old(inode)), rs as u32, re as u32);
                &&& flat_root(*final(inode))
                &&& same_outside(root_leaves(*final(inode)), root_leaves(*old(inode)), rs as u32, re as u32)
                &&& forall|i: int| 0 <= i < root_leaves(*final(inode)).len() ==> !overlaps(#[trigger] root_leaves(*final(inode))[i], rs as u32, re as u32)
                &&& *final(sb) == (Superblock { free_blocks: (old(sb).free_blocks + gone.len()) as u64, ..*old(sb) })
                &&& final(alloc).gave_back(old(alloc), gone)
            }
        },
{
    if inode.flags & INODE_FLAG_INLINE_DATA != 0 {
        if new_size == 0 {
            inode.inline_area = [0u8; 76];
            inode.size = 0;
            inode.flags = inode.flags & !INODE_FLAG_INLINE_DATA;
            inode.modified = now_timestamp();
            proof {
                let f = old(inode).flags;
                assert((f & !1u32) & 1u32 == 0) by (bit_vector);
                assert(inode.inline_area@ =~= Seq::new(76, |k: int| 0u8));
            }
            return Ok(());
        }
        if new_size <= MAX_INLINE_DATA_SIZE as u64 {
            if inode.size > MAX_INLINE_DATA_SIZE as u64 {
                return Err(VolumeError::Invalid);
            }
            let old_size = inode.size as usize;
            let new = new_size as usize;
            let ghost a0 = inode.inline_area@;
            if new < old_size {
                let mut k: usize = new;
                while k < old_size
                    invariant
                        new <= k <= old_size,
                        old_size <= 76,
                        inode.inline_area@.len() == 76,
                        forall|q: int| 0 <= q < 76 && !(new <= q < k) ==> inode.inline_area@[q] == a0[q],
                        forall|q: int| new <= q < k ==> inode.inline_area@[q] == 0u8,
                        *inode == (Inode { inline_area: inode.inline_area, ..*old(inode) }),
                    decreases old_size - k,
                {
                    inode.inline_area[k] = 0;
                    k = k + 1;
                }
                assert(inode.inline_area@ =~= a0.subrange(0, new as int) + zeros((old_size - new) as nat) + a0.subrange(
                    old_size as int,
                    76,
                ));
            }
            inode.size = new_size;
            inode.modified = now_timestamp();
            return Ok(());
        }
        migrate_inline_to_blocks(dev, alloc, sb, inode, block_size)?;
    }
    if new_size >= inode.size {
        inode.size = new_size;
        return Ok(());
    }
    if new_size == 0 {
        free_all_blocks(dev, alloc, sb, inode, block_size, secure)?;
        return Ok(());
    }
    let bs = block_size as u64;
    let new_last_block = (new_size - 1) / bs;
    let old_last_block = (inode.size - 1) / bs;
    if inode.flags & INODE_FLAG_EXTENTS != 0 {
        let remove_end: u64 = if old_last_block < u32::MAX as u64 {
            old_last_block + 1
        } else {
            u32::MAX as u64
        };
        let remove_start = new_last_block + 1;
        if remove_start < remove_end {
            let freed = extent_remove(
                dev,
                inode,
                remove_start as u32,
                (remove_end - remove_start) as u32,
                block_size,
            )?;
            release_blocks(dev, alloc, sb, &freed, block_size, secure)?;
            if freed.len() as u64 <= inode.block_count as u64 {
                inode.block_count = inode.block_count - freed.len() as u32;
            }
        }
    } else {
        let mut blocks_to_free: Vec<u64> = Vec::new();
        let mut logical = new_last_block + 1;
        while logical <= old_last_block
            invariant
                alloc.wf(),
                alloc.same_kind(old(alloc)),
                block_size >= 96,
                inode.mode == old(inode).mode,
                old_last_block < u64::MAX,
                new_size > 0,
                !(is_inline(*old(inode)) && new_size <= 76),
                !(!is_inline(*old(inode)) && new_size >= old(inode).size),
            decreases old_last_block - logical + 1,
        {
            let physical = get_block_ptr(dev, inode, logical, block_size)?;
            if physical != 0 {
                blocks_to_free.push(physical);
                set_block_ptr(dev, inode, logical, 0, block_size, alloc, sb)?;
                if inode.block_count > 0 {
                    inode.block_count = inode.block_count - 1;
                }
            }
            logical = logical + 1;
        }
        release_blocks(dev, alloc, sb, &blocks_to_free, block_size, secure)?;
    }
    let tail = new_size % bs;
    if tail != 0 {
        let physical = get_block_ptr(dev, inode, new_last_block, block_size)?;
        if physical != 0 {
            zero_block_tail(dev, physical, block_size, tail as usize)?;
        }
    }
    inode.size = new_size;
    inode.modified = now_timestamp();
    Ok(())
}

} // verus!
