use cfs::cache::{BlockCache, GdtCache, InodeCache};
use cfs::inode::Inode;
use cfs::group::GroupDescriptor;

fn make_gd(free_blocks: u32, free_inodes: u32) -> GroupDescriptor {
    let mut gd = GroupDescriptor::new(0, 0, 0, 0, 0, free_blocks, false);
    gd.bg_free_inodes = free_inodes;
    gd
}

#[test]
fn test_gdt_cache_from_vec() {
    let gdt = vec![make_gd(100, 50), make_gd(200, 80), make_gd(50, 20)];
    let cache = GdtCache::from_vec(gdt);
    assert_eq!(cache.len(), 3);
}

#[test]
fn test_gdt_cache_get() {
    let gdt = vec![make_gd(100, 50), make_gd(200, 80)];
    let mut cache = GdtCache::from_vec(gdt);
    let gd = cache.get(0).unwrap();
    assert_eq!(gd.bg_free_blocks, 100);
    assert_eq!(cache.stats().hits, 1);
}

#[test]
fn test_gdt_cache_get_out_of_range() {
    let mut cache = GdtCache::from_vec(vec![make_gd(100, 50)]);
    assert!(cache.get(99).is_none());
}

#[test]
fn test_gdt_cache_put_dirty() {
    let mut cache = GdtCache::from_vec(vec![make_gd(100, 50)]);
    let mut gd = cache.get(0).unwrap().clone();
    gd.bg_free_blocks = 99;
    cache.put(0, gd);

    let dirty = cache.flush_dirty();
    assert_eq!(dirty.len(), 1);
    assert_eq!(dirty[0].1.bg_free_blocks, 99);
}

#[test]
fn test_gdt_cache_modify() {
    let mut cache = GdtCache::from_vec(vec![make_gd(100, 50)]);
    let modified = cache.modify(0, |mut gd: GroupDescriptor| {
        gd.bg_free_blocks -= 1;
        gd
    });
    assert!(modified);

    let dirty = cache.flush_dirty();
    assert_eq!(dirty.len(), 1);
    assert_eq!(dirty[0].1.bg_free_blocks, 99);
}

#[test]
fn test_gdt_cache_total_free_blocks() {
    let cache = GdtCache::from_vec(vec![make_gd(100, 50), make_gd(200, 80), make_gd(50, 20)]);
    assert_eq!(cache.total_free_blocks(), 350);
}

#[test]
fn test_gdt_cache_total_free_inodes() {
    let cache = GdtCache::from_vec(vec![make_gd(100, 50), make_gd(200, 80), make_gd(50, 20)]);
    assert_eq!(cache.total_free_inodes(), 150);
}

#[test]
fn test_gdt_cache_mark_all_clean() {
    let mut cache = GdtCache::from_vec(vec![make_gd(100, 50), make_gd(200, 80)]);
    cache.modify(0, |mut gd: GroupDescriptor| {
        gd.bg_free_blocks = 99;
        gd
    });
    cache.modify(1, |mut gd: GroupDescriptor| {
        gd.bg_free_blocks = 199;
        gd
    });
    cache.mark_all_clean();

    let dirty = cache.flush_dirty();
    assert_eq!(dirty.len(), 0);
}

#[test]
fn test_gdt_cache_empty() {
    let cache = GdtCache::empty();
    assert!(cache.is_empty());
    assert_eq!(cache.len(), 0);
}

#[test]
fn test_inode_cache_hit() {
    let mut cache = InodeCache::new(16);
    let inode = Inode::new_file();
    cache.insert(42, inode.clone());
    let got = cache.get(42).unwrap();
    assert_eq!(got, &inode);
    assert_eq!(cache.stats().hits, 1);
    assert_eq!(cache.stats().misses, 0);
}

#[test]
fn test_inode_cache_miss() {
    let mut cache = InodeCache::new(16);
    assert!(cache.get(99).is_none());
    assert_eq!(cache.stats().misses, 1);
}

#[test]
fn test_inode_cache_eviction_clean() {
    let mut cache = InodeCache::new(2);
    cache.insert(1, Inode::new_file());
    cache.insert(2, Inode::new_file());
    let evicted = cache.insert(3, Inode::new_file());
    assert!(evicted.is_none());
    assert_eq!(cache.stats().evictions, 1);
    assert_eq!(cache.len(), 2);
}

#[test]
fn test_inode_cache_eviction_dirty() {
    let mut cache = InodeCache::new(2);
    cache.put_dirty(1, Inode::new_file());
    cache.insert(2, Inode::new_file());
    let evicted = cache.insert(3, Inode::new_file());
    assert!(evicted.is_some());
    assert_eq!(evicted.unwrap().0, 1);
}

#[test]
fn test_inode_cache_put_dirty() {
    let mut cache = InodeCache::new(16);
    cache.put_dirty(5, Inode::new_dir());
    let dirty = cache.flush_dirty();
    assert_eq!(dirty.len(), 1);
    assert_eq!(dirty[0].0, 5);
}

#[test]
fn test_inode_cache_flush_dirty() {
    let mut cache = InodeCache::new(16);
    cache.put_dirty(1, Inode::new_file());
    cache.put_dirty(2, Inode::new_dir());
    cache.insert(3, Inode::new_file());
    let dirty = cache.flush_dirty();
    assert_eq!(dirty.len(), 2);
    let dirty2 = cache.flush_dirty();
    assert_eq!(dirty2.len(), 0);
}

#[test]
fn test_inode_cache_invalidate_dirty() {
    let mut cache = InodeCache::new(16);
    cache.put_dirty(10, Inode::new_file());
    let evicted = cache.invalidate(10);
    assert!(evicted.is_some());
    assert!(cache.is_empty());
}

#[test]
fn test_inode_cache_invalidate_clean() {
    let mut cache = InodeCache::new(16);
    cache.insert(10, Inode::new_file());
    let evicted = cache.invalidate(10);
    assert!(evicted.is_none());
}

#[test]
fn test_inode_cache_clear() {
    let mut cache = InodeCache::new(16);
    cache.put_dirty(1, Inode::new_file());
    cache.put_dirty(2, Inode::new_file());
    cache.insert(3, Inode::new_file());
    let dirty = cache.clear();
    assert_eq!(dirty.len(), 2);
    assert!(cache.is_empty());
}

#[test]
fn test_inode_cache_hit_rate() {
    let mut cache = InodeCache::new(16);
    cache.insert(1, Inode::new_file());
    cache.get(1);
    cache.get(1);
    cache.get(1);
    cache.get(99);
    let st = cache.stats();
    let rate = st.hits as f64 / (st.hits + st.misses) as f64;
    assert!((rate - 0.75).abs() < 0.001);
}

#[test]
fn test_inode_cache_lru_order() {
    let mut cache = InodeCache::new(2);
    cache.put_dirty(1, Inode::new_file());
    cache.put_dirty(2, Inode::new_file());
    cache.get(1);
    let evicted = cache.insert(3, Inode::new_file());
    assert!(evicted.is_some());
    assert_eq!(evicted.unwrap().0, 2);
}

#[test]
fn inode_cache_flush_lists_most_recent_first_and_counts() {
    let mut cache = InodeCache::new(4);
    cache.put_dirty(1, Inode::new_file());
    cache.put_dirty(2, Inode::new_dir());
    let dirty = cache.flush_dirty();
    assert_eq!(dirty[0].0, 2);
    assert_eq!(dirty[1].0, 1);
    assert_eq!(cache.stats().dirty_writebacks, 2);
    assert_eq!(cache.len(), 2);
}

#[test]
fn test_block_cache_hit() {
    let mut cache = BlockCache::new(16, 4096);
    let data = vec![0xABu8; 4096];
    cache.insert(100, data.clone());
    let got = cache.get(100).unwrap();
    assert_eq!(got, &data[..]);
    assert_eq!(cache.stats().hits, 1);
}

#[test]
fn test_block_cache_miss() {
    let mut cache = BlockCache::new(16, 4096);
    assert!(cache.get(99).is_none());
    assert_eq!(cache.stats().misses, 1);
}

#[test]
fn test_block_cache_eviction_dirty() {
    let mut cache = BlockCache::new(2, 512);
    cache.put_dirty(1, vec![1u8; 512]);
    cache.insert(2, vec![2u8; 512]);
    let evicted = cache.insert(3, vec![3u8; 512]);
    assert!(evicted.is_some());
    assert_eq!(evicted.unwrap().0, 1);
}

#[test]
fn test_block_cache_modify_in_place() {
    let mut cache = BlockCache::new(16, 4096);
    cache.insert(10, vec![0u8; 4096]);
    let modified = cache.modify(10, |mut data: Vec<u8>| {
        data[0] = 0xFF;
        data[1] = 0xEE;
        data
    });
    assert!(modified);
    let got = cache.get(10).unwrap();
    assert_eq!(got[0], 0xFF);
    assert_eq!(got[1], 0xEE);
}

#[test]
fn test_block_cache_invalidate_range() {
    let mut cache = BlockCache::new(16, 512);
    for addr in 0..10u64 {
        cache.put_dirty(addr, vec![addr as u8; 512]);
    }
    let dirty = cache.invalidate_range(3, 5);
    assert_eq!(dirty.len(), 5);
    assert_eq!(cache.len(), 5);
}

#[test]
fn test_block_cache_flush_dirty() {
    let mut cache = BlockCache::new(16, 512);
    cache.put_dirty(1, vec![1u8; 512]);
    cache.put_dirty(2, vec![2u8; 512]);
    cache.insert(3, vec![3u8; 512]);
    let dirty = cache.flush_dirty();
    assert_eq!(dirty.len(), 2);
    let dirty2 = cache.flush_dirty();
    assert_eq!(dirty2.len(), 0);
}

#[test]
fn test_block_cache_memory_usage() {
    let cache = BlockCache::new(256, 4096);
    assert_eq!(cache.memory_usage(), 0);
}

#[test]
fn block_cache_memory_usage_counts_each_block() {
    let mut cache = BlockCache::new(4, 512);
    cache.insert(1, vec![0u8; 512]);
    cache.insert(2, vec![0u8; 512]);
    assert_eq!(cache.memory_usage(), 2 * (512 + std::mem::size_of::<cfs::cache::CachedBlock>()));
}

#[test]
fn block_cache_modify_missing_is_false() {
    let mut cache = BlockCache::new(4, 512);
    assert!(!cache.modify(7, |d: Vec<u8>| d));
    assert!(cache.is_empty());
}

#[test]
fn block_cache_invalidate_returns_dirty_data() {
    let mut cache = BlockCache::new(4, 4);
    cache.put_dirty(9, vec![1, 2, 3, 4]);
    assert_eq!(cache.invalidate(9), Some(vec![1, 2, 3, 4]));
    assert!(cache.get(9).is_none());
}
