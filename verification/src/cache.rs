//! Write-back caches: bounded LRU caches of inodes and of block images,
//! each entry with a dirty flag, and the group descriptor table cache that
//! keeps every descriptor of the volume in memory so that only changed
//! descriptors are written back.

use vstd::prelude::*;
use std::num::NonZeroUsize;
use lru::LruCache;
use crate::group::{GroupDescriptor, sum_free_blocks, sum_free_inodes};
use crate::inode::Inode;

verus! {

#[verifier::external_type_specification]
#[verifier::external_body]
#[verifier::reject_recursive_types(K)]
#[verifier::reject_recursive_types(V)]
#[verifier::reject_recursive_types(S)]
pub struct ExLruCache<K, V, S>(LruCache<K, V, S>);

#[verifier::external_type_specification]
#[verifier::external_body]
pub struct ExDefaultHasher(lru::DefaultHasher);

/// A cached inode with its dirty flag.
#[derive(Debug, Clone, Copy)]
pub struct CachedInode {
    pub inode: Inode,
    pub dirty: bool,
}

/// What an inode LRU holds, least recently used first: (inode number,
/// inode, dirty).
pub uninterp spec fn inode_lru(c: LruCache<u32, CachedInode>) -> Seq<(u32, Inode, bool)>;

/// The capacity an inode LRU was made with.
pub uninterp spec fn inode_lru_cap(c: LruCache<u32, CachedInode>) -> nat;

/// No key occurs twice.
pub open spec fn keys_distinct<K, T>(s: Seq<(K, T, bool)>) -> bool {
    forall|i: int, j: int| 0 <= i < j < s.len() ==> s[i].0 != s[j].0
}

/// Key `k` occurs in `s`.
pub open spec fn has_key<K, T>(s: Seq<(K, T, bool)>, k: K) -> bool {
    exists|i: int| 0 <= i < s.len() && #[trigger] s[i].0 == k
}

/// The position of key `k` in `s` (meaningful when it occurs).
pub open spec fn key_pos<K, T>(s: Seq<(K, T, bool)>, k: K) -> int {
    choose|i: int| 0 <= i < s.len() && #[trigger] s[i].0 == k
}

/// Calls `LruCache::new` with capacity `cap`: an empty cache of that capacity.
#[verifier::external_body]
fn inode_lru_new(cap: usize) -> (r: LruCache<u32, CachedInode>)
    requires
        cap > 0,
    ensures
        inode_lru(r) == Seq::<(u32, Inode, bool)>::empty(),
        inode_lru_cap(r) == cap,
{
    LruCache::new(NonZeroUsize::new(cap).unwrap())
}

/// Calls `LruCache::contains`: whether the key is cached (recency unchanged).
#[verifier::external_body]
fn inode_lru_contains(c: &LruCache<u32, CachedInode>, k: u32) -> (r: bool)
    ensures
        r == has_key(inode_lru(*c), k),
{
    c.contains(&k)
}

/// Calls `LruCache::len`: the number of cached entries.
#[verifier::external_body]
fn inode_lru_len(c: &LruCache<u32, CachedInode>) -> (r: usize)
    ensures
        r == inode_lru(*c).len(),
{
    c.len()
}

/// Calls `LruCache::cap`: the capacity.
#[verifier::external_body]
fn inode_lru_cap_of(c: &LruCache<u32, CachedInode>) -> (r: usize)
    ensures
        r == inode_lru_cap(*c),
{
    c.cap().get()
}

/// Calls `LruCache::put`: a cached key gets the new value and becomes most
/// recently used (the old value is returned); a new key is added as most
/// recently used, the least recently used entry making room when the
/// cache is full.
#[verifier::external_body]
fn inode_lru_put(c: &mut LruCache<u32, CachedInode>, k: u32, v: CachedInode) -> (r: Option<CachedInode>)
    ensures
        inode_lru_cap(*final(c)) == inode_lru_cap(*old(c)),
        keys_distinct(inode_lru(*old(c))) ==> keys_distinct(inode_lru(*final(c))),
        ({
            let s = inode_lru(*old(c));
            if has_key(s, k) {
                let i = key_pos(s, k);
                &&& r matches Some(o) && o.inode == s[i].1 && o.dirty == s[i].2
                &&& inode_lru(*final(c)) == s.remove(i).push((k, v.inode, v.dirty))
            } else if s.len() < inode_lru_cap(*old(c)) {
                &&& r is None
                &&& inode_lru(*final(c)) == s.push((k, v.inode, v.dirty))
            } else {
                &&& r is None
                &&& inode_lru(*final(c)) == s.drop_first().push((k, v.inode, v.dirty))
            }
        }),
{
    c.put(k, v)
}

/// Calls `LruCache::get`: the cached value, its key becoming most recently used.
#[verifier::external_body]
fn inode_lru_get<'a>(c: &'a mut LruCache<u32, CachedInode>, k: u32) -> (r: Option<&'a CachedInode>)
    ensures
        inode_lru_cap(*final(c)) == inode_lru_cap(*old(c)),
        keys_distinct(inode_lru(*old(c))) ==> keys_distinct(inode_lru(*final(c))),
        ({
            let s = inode_lru(*old(c));
            if has_key(s, k) {
                let i = key_pos(s, k);
                &&& r matches Some(o) && o.inode == s[i].1 && o.dirty == s[i].2
                &&& inode_lru(*final(c)) == s.remove(i).push(s[i])
            } else {
                &&& r is None
                &&& inode_lru(*final(c)) == s
            }
        }),
{
    c.get(&k)
}

/// Calls `LruCache::pop`: removes a key, returning its value.
#[verifier::external_body]
fn inode_lru_pop(c: &mut LruCache<u32, CachedInode>, k: u32) -> (r: Option<CachedInode>)
    ensures
        inode_lru_cap(*final(c)) == inode_lru_cap(*old(c)),
        keys_distinct(inode_lru(*old(c))) ==> keys_distinct(inode_lru(*final(c))),
        ({
            let s = inode_lru(*old(c));
            if has_key(s, k) {
                let i = key_pos(s, k);
                &&& r matches Some(o) && o.inode == s[i].1 && o.dirty == s[i].2
                &&& inode_lru(*final(c)) == s.remove(i)
            } else {
                &&& r is None
                &&& inode_lru(*final(c)) == s
            }
        }),
{
    c.pop(&k)
}

/// Calls `LruCache::pop_lru`: removes the least recently used entry.
#[verifier::external_body]
fn inode_lru_pop_lru(c: &mut LruCache<u32, CachedInode>) -> (r: Option<(u32, CachedInode)>)
    ensures
        inode_lru_cap(*final(c)) == inode_lru_cap(*old(c)),
        keys_distinct(inode_lru(*old(c))) ==> keys_distinct(inode_lru(*final(c))),
        ({
            let s = inode_lru(*old(c));
            if s.len() > 0 {
                &&& r matches Some((k, o)) && k == s[0].0 && o.inode == s[0].1 && o.dirty == s[0].2
                &&& inode_lru(*final(c)) == s.drop_first()
            } else {
                &&& r is None
                &&& inode_lru(*final(c)) == s
            }
        }),
{
    c.pop_lru()
}

/// Calls `LruCache::clear`: no entry is left.
#[verifier::external_body]
fn inode_lru_clear(c: &mut LruCache<u32, CachedInode>)
    ensures
        inode_lru_cap(*final(c)) == inode_lru_cap(*old(c)),
        inode_lru(*final(c)) == Seq::<(u32, Inode, bool)>::empty(),
{
    c.clear()
}

/// Hit, miss, eviction and write-back counters.
#[derive(Debug, Clone, Copy)]
pub struct CacheStats {
    pub hits: u64,
    pub misses: u64,
    pub evictions: u64,
    pub dirty_writebacks: u64,
}

impl CacheStats {
    /// The counters after one more hit.
    pub open spec fn with_hit(self) -> CacheStats {
        CacheStats { hits: (self.hits + 1) as u64, ..self }
    }

    /// The counters after `n` more write-backs.
    pub open spec fn with_writebacks(self, n: int) -> CacheStats {
        CacheStats { dirty_writebacks: (self.dirty_writebacks + n) as u64, ..self }
    }

    /// All counters at zero.
    pub fn new() -> (r: Self)
        ensures
            r == zero_stats(),
    {
        CacheStats { hits: 0, misses: 0, evictions: 0, dirty_writebacks: 0 }
    }
}

/// All counters at zero.
pub open spec fn zero_stats() -> CacheStats {
    CacheStats { hits: 0, misses: 0, evictions: 0, dirty_writebacks: 0 }
}

/// `x + 1`, staying at the maximum.
pub open spec fn sat_inc(x: u64) -> u64 {
    if x < u64::MAX { (x + 1) as u64 } else { x }
}

/// `x + n`, staying at the maximum.
pub open spec fn sat_add(x: u64, n: int) -> u64 {
    if x + n <= u64::MAX { (x + n) as u64 } else { u64::MAX }
}

/// The entries with their dirty flags cleared.
pub open spec fn all_clean<K, T>(s: Seq<(K, T, bool)>) -> Seq<(K, T, bool)> {
    s.map_values(|e: (K, T, bool)| (e.0, e.1, false))
}

/// The dirty entries as (key, value), most recently used (last) first.
pub open spec fn dirty_mru<K, T>(s: Seq<(K, T, bool)>) -> Seq<(K, T)>
    decreases s.len(),
{
    if s.len() == 0 {
        Seq::empty()
    } else if s[0].2 {
        dirty_mru(s.drop_first()).push((s[0].0, s[0].1))
    } else {
        dirty_mru(s.drop_first())
    }
}

/// An LRU cache of inodes with dirty tracking: a dirty entry that is
/// evicted or invalidated is handed back for writing.
pub struct InodeCache {
    cache: LruCache<u32, CachedInode>,
    stats: CacheStats,
}

impl InodeCache {
    /// The cached entries, least recently used first.
    pub closed spec fn entries(&self) -> Seq<(u32, Inode, bool)> {
        inode_lru(self.cache)
    }

    /// The capacity.
    pub closed spec fn capacity(&self) -> nat {
        inode_lru_cap(self.cache)
    }

    pub closed spec fn spec_stats(&self) -> CacheStats {
        self.stats
    }

    /// Keys are distinct and the entries fit the capacity.
    pub open spec fn wf(&self) -> bool {
        &&& keys_distinct(self.entries())
        &&& self.entries().len() <= self.capacity()
        &&& self.capacity() > 0
    }

    /// An empty cache holding up to `capacity` inodes.
    pub fn new(capacity: usize) -> (r: Self)
        requires
            capacity > 0,
        ensures
            r.wf(),
            r.entries() == Seq::<(u32, Inode, bool)>::empty(),
            r.capacity() == capacity,
            r.spec_stats() == zero_stats(),
    {
        InodeCache { cache: inode_lru_new(capacity), stats: CacheStats::new() }
    }

    /// The cached inode, its entry becoming most recently used; counts a hit
    /// or a miss.
    pub fn get(&mut self, inode_idx: u32) -> (r: Option<&Inode>)
        requires
            old(self).wf(),
        ensures
            final(self).wf(),
            final(self).capacity() == old(self).capacity(),
            ({
                let s = old(self).entries();
                if has_key(s, inode_idx) {
                    let i = key_pos(s, inode_idx);
                    &&& r matches Some(x) && *x == s[i].1
                    &&& final(self).entries() == s.remove(i).push(s[i])
                    &&& final(self).spec_stats() == (CacheStats { hits: sat_inc(old(self).spec_stats().hits), ..old(self).spec_stats() })
                } else {
                    &&& r is None
                    &&& final(self).entries() == s
                    &&& final(self).spec_stats() == (CacheStats { misses: sat_inc(old(self).spec_stats().misses), ..old(self).spec_stats() })
                }
            }),
    {
        match inode_lru_get(&mut self.cache, inode_idx) {
            Some(e) => {
                self.stats.hits = self.stats.hits.saturating_add(1);
                Some(&e.inode)
            },
            None => {
                self.stats.misses = self.stats.misses.saturating_add(1);
                None
            },
        }
    }

    /// Take the least recently used entry out; it is returned when dirty.
    fn pop_lru_dirty(&mut self) -> (r: Option<(u32, Inode)>)
        requires
            old(self).wf(),
        ensures
            final(self).wf(),
            final(self).capacity() == old(self).capacity(),
            ({
                let s = old(self).entries();
                let st = old(self).spec_stats();
                if s.len() > 0 {
                    &&& final(self).entries() == s.drop_first()
                    &&& r == (if s[0].2 { Some((s[0].0, s[0].1)) } else { None::<(u32, Inode)> })
                    &&& final(self).spec_stats() == (CacheStats {
                        evictions: sat_inc(st.evictions),
                        dirty_writebacks: if s[0].2 { sat_inc(st.dirty_writebacks) } else { st.dirty_writebacks },
                        ..st
                    })
                } else {
                    &&& r is None
                    &&& final(self).entries() == s
                    &&& final(self).spec_stats() == st
                }
            }),
    {
        match inode_lru_pop_lru(&mut self.cache) {
            Some((key, entry)) => {
                self.stats.evictions = self.stats.evictions.saturating_add(1);
                if entry.dirty {
                    self.stats.dirty_writebacks = self.stats.dirty_writebacks.saturating_add(1);
                    Some((key, entry.inode))
                } else {
                    None
                }
            },
            None => None,
        }
    }

    /// Cache an inode as clean (after reading it). A cached inode is
    /// replaced and becomes most recently used. Else, when the cache is
    /// full, the least recently used entry is evicted first and returned
    /// when dirty, for writing back.
    pub fn insert(&mut self, inode_idx: u32, inode: Inode) -> (r: Option<(u32, Inode)>)
        requires
            old(self).wf(),
        ensures
            final(self).wf(),
            final(self).capacity() == old(self).capacity(),
            ({
                let s = old(self).entries();
                let st = old(self).spec_stats();
                if has_key(s, inode_idx) {
                    &&& r is None
                    &&& final(self).entries() == s.remove(key_pos(s, inode_idx)).push((inode_idx, inode, false))
                    &&& final(self).spec_stats() == st
                } else if s.len() < old(self).capacity() {
                    &&& r is None
                    &&& final(self).entries() == s.push((inode_idx, inode, false))
                    &&& final(self).spec_stats() == st
                } else {
                    &&& final(self).entries() == s.drop_first().push((inode_idx, inode, false))
                    &&& r == (if s[0].2 { Some((s[0].0, s[0].1)) } else { None::<(u32, Inode)> })
                    &&& final(self).spec_stats() == (CacheStats {
                        evictions: sat_inc(st.evictions),
                        dirty_writebacks: if s[0].2 { sat_inc(st.dirty_writebacks) } else { st.dirty_writebacks },
                        ..st
                    })
                }
            }),
    {
        if inode_lru_contains(&self.cache, inode_idx) {
            inode_lru_put(&mut self.cache, inode_idx, CachedInode { inode, dirty: false });
            return None;
        }
        let evicted = if inode_lru_len(&self.cache) >= inode_lru_cap_of(&self.cache) {
            self.pop_lru_dirty()
        } else {
            None
        };
        proof {
            let s = old(self).entries();
            if s.len() >= old(self).capacity() {
                assert forall|j: int| 0 <= j < s.drop_first().len() implies #[trigger] s.drop_first()[j].0 != inode_idx by {
                    assert(s.drop_first()[j] == s[j + 1]);
                }
                assert(!has_key(s.drop_first(), inode_idx));
            }
        }
        inode_lru_put(&mut self.cache, inode_idx, CachedInode { inode, dirty: false });
        evicted
    }

    /// Cache an inode as dirty (its write to disk deferred). When the inode
    /// is not cached and the cache is full, the least recently used entry
    /// is evicted first and returned when dirty.
    pub fn put_dirty(&mut self, inode_idx: u32, inode: Inode) -> (r: Option<(u32, Inode)>)
        requires
            old(self).wf(),
        ensures
            final(self).wf(),
            final(self).capacity() == old(self).capacity(),
            ({
                let s = old(self).entries();
                let st = old(self).spec_stats();
                if has_key(s, inode_idx) {
                    &&& r is None
                    &&& final(self).entries() == s.remove(key_pos(s, inode_idx)).push((inode_idx, inode, true))
                    &&& final(self).spec_stats() == st
                } else if s.len() < old(self).capacity() {
                    &&& r is None
                    &&& final(self).entries() == s.push((inode_idx, inode, true))
                    &&& final(self).spec_stats() == st
                } else {
                    &&& final(self).entries() == s.drop_first().push((inode_idx, inode, true))
                    &&& r == (if s[0].2 { Some((s[0].0, s[0].1)) } else { None::<(u32, Inode)> })
                    &&& final(self).spec_stats() == (CacheStats {
                        evictions: sat_inc(st.evictions),
                        dirty_writebacks: if s[0].2 { sat_inc(st.dirty_writebacks) } else { st.dirty_writebacks },
                        ..st
                    })
                }
            }),
    {
        let evicted = if !inode_lru_contains(&self.cache, inode_idx) && inode_lru_len(&self.cache) >= inode_lru_cap_of(
            &self.cache,
        ) {
            self.pop_lru_dirty()
        } else {
            None
        };
        proof {
            let s = old(self).entries();
            if !has_key(s, inode_idx) && s.len() >= old(self).capacity() {
                assert forall|j: int| 0 <= j < s.drop_first().len() implies #[trigger] s.drop_first()[j].0 != inode_idx by {
                    assert(s.drop_first()[j] == s[j + 1]);
                }
                assert(!has_key(s.drop_first(), inode_idx));
            }
        }
        inode_lru_put(&mut self.cache, inode_idx, CachedInode { inode, dirty: true });
        evicted
    }

    /// Drop an inode from the cache; it is returned when its entry was
    /// dirty.
    pub fn invalidate(&mut self, inode_idx: u32) -> (r: Option<Inode>)
        requires
            old(self).wf(),
        ensures
            final(self).wf(),
            final(self).capacity() == old(self).capacity(),
            final(self).spec_stats() == old(self).spec_stats(),
            ({
                let s = old(self).entries();
                if has_key(s, inode_idx) {
                    let i = key_pos(s, inode_idx);
                    &&& final(self).entries() == s.remove(i)
                    &&& r == (if s[i].2 { Some(s[i].1) } else { None::<Inode> })
                } else {
                    &&& r is None
                    &&& final(self).entries() == s
                }
            }),
    {
        match inode_lru_pop(&mut self.cache, inode_idx) {
            Some(e) => {
                if e.dirty {
                    Some(e.inode)
                } else {
                    None
                }
            },
            None => None,
        }
    }

    /// Mark every entry clean; returns the dirty ones, most recently used
    /// first, for writing back, and counts them as write-backs. Recency is
    /// kept.
    pub fn flush_dirty(&mut self) -> (r: Vec<(u32, Inode)>)
        requires
            old(self).wf(),
        ensures
            final(self).wf(),
            final(self).capacity() == old(self).capacity(),
            final(self).entries() == all_clean(old(self).entries()),
            r@ == dirty_mru(old(self).entries()),
            final(self).spec_stats() == (CacheStats {
                dirty_writebacks: sat_add(old(self).spec_stats().dirty_writebacks, r@.len() as int),
                ..old(self).spec_stats()
            }),
    {
        let ghost s = self.entries();
        let mut taken: Vec<(u32, CachedInode)> = Vec::new();
        while inode_lru_len(&self.cache) > 0
            invariant
                keys_distinct(self.entries()),
                keys_distinct(s),
                self.capacity() == old(self).capacity(),
                s.len() <= self.capacity(),
                self.stats == old(self).stats,
                s == old(self).entries(),
                taken@.len() + self.entries().len() == s.len(),
                forall|j: int| 0 <= j < taken@.len() ==> (#[trigger] taken@[j]).0 == s[j].0 && taken@[j].1.inode == s[j].1
                    && taken@[j].1.dirty == s[j].2,
                self.entries() == s.subrange(taken@.len() as int, s.len() as int),
            decreases self.entries().len(),
        {
            match inode_lru_pop_lru(&mut self.cache) {
                Some(p) => {
                    taken.push(p);
                    proof {
                        assert(self.entries() =~= s.subrange(taken@.len() as int, s.len() as int));
                    }
                },
                None => {},
            }
        }
        let mut j: usize = 0;
        assert(self.entries() =~= all_clean(s.take(0)));
        while j < taken.len()
            invariant
                j <= taken@.len(),
                taken@.len() == s.len(),
                keys_distinct(s),
                s.len() <= self.capacity(),
                self.capacity() == old(self).capacity(),
                self.stats == old(self).stats,
                forall|q: int| 0 <= q < taken@.len() ==> (#[trigger] taken@[q]).0 == s[q].0 && taken@[q].1.inode == s[q].1
                    && taken@[q].1.dirty == s[q].2,
                self.entries() == all_clean(s.take(j as int)),
                keys_distinct(self.entries()),
            decreases taken@.len() - j,
        {
            let (key, entry) = taken[j];
            proof {
                assert forall|q: int| 0 <= q < self.entries().len() implies #[trigger] self.entries()[q].0 != key by {
                    assert(self.entries()[q].0 == s[q].0);
                }
                assert(!has_key(self.entries(), key));
            }
            inode_lru_put(&mut self.cache, key, CachedInode { inode: entry.inode, dirty: false });
            proof {
                assert(self.entries() =~= all_clean(s.take(j + 1)));
            }
            j = j + 1;
        }
        assert(s.take(s.len() as int) =~= s);
        let mut dirty: Vec<(u32, Inode)> = Vec::new();
        let mut k: usize = taken.len();
        assert(s.subrange(s.len() as int, s.len() as int) =~= Seq::<(u32, Inode, bool)>::empty());
        while k > 0
            invariant
                k <= taken@.len(),
                taken@.len() == s.len(),
                forall|q: int| 0 <= q < taken@.len() ==> (#[trigger] taken@[q]).0 == s[q].0 && taken@[q].1.inode == s[q].1
                    && taken@[q].1.dirty == s[q].2,
                dirty@ == dirty_mru(s.subrange(k as int, s.len() as int)),
                self.stats.dirty_writebacks == sat_add(old(self).stats.dirty_writebacks, dirty@.len() as int),
                self.stats == (CacheStats { dirty_writebacks: self.stats.dirty_writebacks, ..old(self).stats }),
                self.entries() == all_clean(s),
                keys_distinct(self.entries()),
                self.capacity() == old(self).capacity(),
                s.len() <= self.capacity(),
            decreases k,
        {
            k = k - 1;
            proof {
                let t = s.subrange(k as int, s.len() as int);
                assert(t.drop_first() =~= s.subrange(k + 1, s.len() as int));
                assert(t[0] == s[k as int]);
            }
            if taken[k].1.dirty {
                dirty.push((taken[k].0, taken[k].1.inode));
                self.stats.dirty_writebacks = self.stats.dirty_writebacks.saturating_add(1);
            }
        }
        assert(s.subrange(0, s.len() as int) =~= s);
        dirty
    }

    /// Flush (see `flush_dirty`), then drop every entry.
    pub fn clear(&mut self) -> (r: Vec<(u32, Inode)>)
        requires
            old(self).wf(),
        ensures
            final(self).wf(),
            final(self).capacity() == old(self).capacity(),
            final(self).entries() == Seq::<(u32, Inode, bool)>::empty(),
            r@ == dirty_mru(old(self).entries()),
            final(self).spec_stats() == (CacheStats {
                dirty_writebacks: sat_add(old(self).spec_stats().dirty_writebacks, r@.len() as int),
                ..old(self).spec_stats()
            }),
    {
        let dirty = self.flush_dirty();
        inode_lru_clear(&mut self.cache);
        dirty
    }

    /// The counters.
    pub fn stats(&self) -> (r: &CacheStats)
        ensures
            *r == self.spec_stats(),
    {
        &self.stats
    }

    /// Number of cached inodes.
    pub fn len(&self) -> (r: usize)
        ensures
            r == self.entries().len(),
    {
        inode_lru_len(&self.cache)
    }

    /// Whether no inode is cached.
    pub fn is_empty(&self) -> (r: bool)
        ensures
            r == (self.entries().len() == 0),
    {
        inode_lru_len(&self.cache) == 0
    }
}

/// A cached block with its dirty flag.
#[derive(Debug, Clone)]
pub struct CachedBlock {
    pub data: Vec<u8>,
    pub dirty: bool,
}

/// What a block LRU holds, least recently used first: (block address,
/// bytes, dirty).
pub uninterp spec fn block_lru(c: LruCache<u64, CachedBlock>) -> Seq<(u64, Seq<u8>, bool)>;

/// The capacity a block LRU was made with.
pub uninterp spec fn block_lru_cap(c: LruCache<u64, CachedBlock>) -> nat;

/// Calls `LruCache::new` with capacity `cap`: an empty cache of that capacity.
#[verifier::external_body]
fn block_lru_new(cap: usize) -> (r: LruCache<u64, CachedBlock>)
    requires
        cap > 0,
    ensures
        block_lru(r) == Seq::<(u64, Seq<u8>, bool)>::empty(),
        block_lru_cap(r) == cap,
{
    LruCache::new(NonZeroUsize::new(cap).unwrap())
}

/// Calls `LruCache::contains`: whether the block is cached (recency unchanged).
#[verifier::external_body]
fn block_lru_contains(c: &LruCache<u64, CachedBlock>, k: u64) -> (r: bool)
    ensures
        r == has_key(block_lru(*c), k),
{
    c.contains(&k)
}

/// Calls `LruCache::len`: the number of cached entries.
#[verifier::external_body]
fn block_lru_len(c: &LruCache<u64, CachedBlock>) -> (r: usize)
    ensures
        r == block_lru(*c).len(),
{
    c.len()
}

/// Calls `LruCache::cap`: the capacity.
#[verifier::external_body]
fn block_lru_cap_of(c: &LruCache<u64, CachedBlock>) -> (r: usize)
    ensures
        r == block_lru_cap(*c),
{
    c.cap().get()
}

/// Calls `LruCache::put` (see `inode_lru_put`).
#[verifier::external_body]
fn block_lru_put(c: &mut LruCache<u64, CachedBlock>, k: u64, v: CachedBlock) -> (r: Option<CachedBlock>)
    ensures
        block_lru_cap(*final(c)) == block_lru_cap(*old(c)),
        keys_distinct(block_lru(*old(c))) ==> keys_distinct(block_lru(*final(c))),
        ({
            let s = block_lru(*old(c));
            if has_key(s, k) {
                let i = key_pos(s, k);
                &&& r matches Some(o) && o.data@ == s[i].1 && o.dirty == s[i].2
                &&& block_lru(*final(c)) == s.remove(i).push((k, v.data@, v.dirty))
            } else if s.len() < block_lru_cap(*old(c)) {
                &&& r is None
                &&& block_lru(*final(c)) == s.push((k, v.data@, v.dirty))
            } else {
                &&& r is None
                &&& block_lru(*final(c)) == s.drop_first().push((k, v.data@, v.dirty))
            }
        }),
{
    c.put(k, v)
}

/// Calls `LruCache::get`: the cached entry, its key becoming most recently used.
#[verifier::external_body]
fn block_lru_get<'a>(c: &'a mut LruCache<u64, CachedBlock>, k: u64) -> (r: Option<&'a CachedBlock>)
    ensures
        block_lru_cap(*final(c)) == block_lru_cap(*old(c)),
        keys_distinct(block_lru(*old(c))) ==> keys_distinct(block_lru(*final(c))),
        ({
            let s = block_lru(*old(c));
            if has_key(s, k) {
                let i = key_pos(s, k);
                &&& r matches Some(o) && o.data@ == s[i].1 && o.dirty == s[i].2
                &&& block_lru(*final(c)) == s.remove(i).push(s[i])
            } else {
                &&& r is None
                &&& block_lru(*final(c)) == s
            }
        }),
{
    c.get(&k)
}

/// Calls `LruCache::pop`: removes a key, returning its entry.
#[verifier::external_body]
fn block_lru_pop(c: &mut LruCache<u64, CachedBlock>, k: u64) -> (r: Option<CachedBlock>)
    ensures
        block_lru_cap(*final(c)) == block_lru_cap(*old(c)),
        keys_distinct(block_lru(*old(c))) ==> keys_distinct(block_lru(*final(c))),
        ({
            let s = block_lru(*old(c));
            if has_key(s, k) {
                let i = key_pos(s, k);
                &&& r matches Some(o) && o.data@ == s[i].1 && o.dirty == s[i].2
                &&& block_lru(*final(c)) == s.remove(i)
            } else {
                &&& r is None
                &&& block_lru(*final(c)) == s
            }
        }),
{
    c.pop(&k)
}

/// Calls `LruCache::pop_lru`: removes the least recently used entry.
#[verifier::external_body]
fn block_lru_pop_lru(c: &mut LruCache<u64, CachedBlock>) -> (r: Option<(u64, CachedBlock)>)
    ensures
        block_lru_cap(*final(c)) == block_lru_cap(*old(c)),
        keys_distinct(block_lru(*old(c))) ==> keys_distinct(block_lru(*final(c))),
        ({
            let s = block_lru(*old(c));
            if s.len() > 0 {
                &&& r matches Some((k, o)) && k == s[0].0 && o.data@ == s[0].1 && o.dirty == s[0].2
                &&& block_lru(*final(c)) == s.drop_first()
            } else {
                &&& r is None
                &&& block_lru(*final(c)) == s
            }
        }),
{
    c.pop_lru()
}

/// Calls `LruCache::clear`: no entry is left.
#[verifier::external_body]
fn block_lru_clear(c: &mut LruCache<u64, CachedBlock>)
    ensures
        block_lru_cap(*final(c)) == block_lru_cap(*old(c)),
        block_lru(*final(c)) == Seq::<(u64, Seq<u8>, bool)>::empty(),
{
    c.clear()
}

/// Removing the entry of key `a` removes exactly that key.
proof fn lemma_remove_key<T>(s: Seq<(u64, T, bool)>, a: u64)
    requires
        keys_distinct(s),
        has_key(s, a),
    ensures
        keys_distinct(s.remove(key_pos(s, a))),
        forall|k: u64| has_key(s.remove(key_pos(s, a)), k) <==> has_key(s, k) && k != a,
{
    let i = key_pos(s, a);
    let t = s.remove(i);
    assert forall|k: u64| has_key(t, k) <==> has_key(s, k) && k != a by {
        if has_key(t, k) {
            let j = choose|j: int| 0 <= j < t.len() && #[trigger] t[j].0 == k;
            if j < i {
                assert(t[j] == s[j]);
                assert(s[j].0 == k);
            } else {
                assert(t[j] == s[j + 1]);
                assert(s[j + 1].0 == k);
            }
        }
        if has_key(s, k) && k != a {
            let j = choose|j: int| 0 <= j < s.len() && #[trigger] s[j].0 == k;
            assert(j != i);
            if j < i {
                assert(t[j] == s[j]);
            } else {
                assert(t[j - 1] == s[j]);
            }
        }
    }
    assert forall|x: int, y: int| 0 <= x < y < t.len() implies t[x].0 != t[y].0 by {
        let sx = if x < i { x } else { x + 1 };
        let sy = if y < i { y } else { y + 1 };
        assert(t[x] == s[sx] && t[y] == s[sy]);
    }
}

/// An LRU cache of metadata blocks with dirty tracking: a dirty block that
/// is evicted or invalidated is handed back for writing.
pub struct BlockCache {
    cache: LruCache<u64, CachedBlock>,
    block_size: u32,
    stats: CacheStats,
}

impl BlockCache {
    /// The cached entries, least recently used first.
    pub closed spec fn entries(&self) -> Seq<(u64, Seq<u8>, bool)> {
        block_lru(self.cache)
    }

    /// The capacity.
    pub closed spec fn capacity(&self) -> nat {
        block_lru_cap(self.cache)
    }

    pub closed spec fn spec_stats(&self) -> CacheStats {
        self.stats
    }

    pub closed spec fn spec_block_size(&self) -> u32 {
        self.block_size
    }

    /// Keys are distinct and the entries fit the capacity.
    pub open spec fn wf(&self) -> bool {
        &&& keys_distinct(self.entries())
        &&& self.entries().len() <= self.capacity()
        &&& self.capacity() > 0
    }

    /// An empty cache holding up to `capacity` blocks of `block_size` bytes.
    pub fn new(capacity: usize, block_size: u32) -> (r: Self)
        requires
            capacity > 0,
        ensures
            r.wf(),
            r.entries() == Seq::<(u64, Seq<u8>, bool)>::empty(),
            r.capacity() == capacity,
            r.spec_block_size() == block_size,
            r.spec_stats() == zero_stats(),
    {
        BlockCache { cache: block_lru_new(capacity), block_size, stats: CacheStats::new() }
    }

    /// The cached bytes of a block, its entry becoming most recently used;
    /// counts a hit or a miss.
    pub fn get(&mut self, block_addr: u64) -> (r: Option<&[u8]>)
        requires
            old(self).wf(),
        ensures
            final(self).wf(),
            final(self).capacity() == old(self).capacity(),
            final(self).spec_block_size() == old(self).spec_block_size(),
            ({
                let s = old(self).entries();
                if has_key(s, block_addr) {
                    let i = key_pos(s, block_addr);
                    &&& r matches Some(x) && x@ == s[i].1
                    &&& final(self).entries() == s.remove(i).push(s[i])
                    &&& final(self).spec_stats() == (CacheStats { hits: sat_inc(old(self).spec_stats().hits), ..old(self).spec_stats() })
                } else {
                    &&& r is None
                    &&& final(self).entries() == s
                    &&& final(self).spec_stats() == (CacheStats { misses: sat_inc(old(self).spec_stats().misses), ..old(self).spec_stats() })
                }
            }),
    {
        match block_lru_get(&mut self.cache, block_addr) {
            Some(e) => {
                self.stats.hits = self.stats.hits.saturating_add(1);
                Some(e.data.as_slice())
            },
            None => {
                self.stats.misses = self.stats.misses.saturating_add(1);
                None
            },
        }
    }

    /// Take the least recently used entry out; it is returned when dirty.
    fn pop_lru_dirty(&mut self) -> (r: Option<(u64, Vec<u8>)>)
        requires
            old(self).wf(),
        ensures
            final(self).wf(),
            final(self).capacity() == old(self).capacity(),
            final(self).spec_block_size() == old(self).spec_block_size(),
            ({
                let s = old(self).entries();
                let st = old(self).spec_stats();
                if s.len() > 0 {
                    &&& final(self).entries() == s.drop_first()
                    &&& (s[0].2 ==> (r matches Some(p) && p.0 == s[0].0 && p.1@ == s[0].1))
                    &&& (!s[0].2 ==> r is None)
                    &&& final(self).spec_stats() == (CacheStats {
                        evictions: sat_inc(st.evictions),
                        dirty_writebacks: if s[0].2 { sat_inc(st.dirty_writebacks) } else { st.dirty_writebacks },
                        ..st
                    })
                } else {
                    &&& r is None
                    &&& final(self).entries() == s
                    &&& final(self).spec_stats() == st
                }
            }),
    {
        match block_lru_pop_lru(&mut self.cache) {
            Some((key, entry)) => {
                self.stats.evictions = self.stats.evictions.saturating_add(1);
                if entry.dirty {
                    self.stats.dirty_writebacks = self.stats.dirty_writebacks.saturating_add(1);
                    Some((key, entry.data))
                } else {
                    None
                }
            },
            None => None,
        }
    }

    /// Cache a block as clean (after reading it), or as dirty (its write
    /// deferred). A cached block is replaced and becomes most recently
    /// used. Else, when the cache is full, the least recently used entry is
    /// evicted first and returned when dirty.
    fn put_entry(&mut self, block_addr: u64, data: Vec<u8>, dirty: bool, evict_cached_too: bool) -> (r: Option<(u64, Vec<u8>)>)
        requires
            old(self).wf(),
        ensures
            final(self).wf(),
            final(self).capacity() == old(self).capacity(),
            final(self).spec_block_size() == old(self).spec_block_size(),
            ({
                let s = old(self).entries();
                let st = old(self).spec_stats();
                if has_key(s, block_addr) {
                    &&& r is None
                    &&& final(self).entries() == s.remove(key_pos(s, block_addr)).push((block_addr, data@, dirty))
                    &&& final(self).spec_stats() == st
                } else if s.len() < old(self).capacity() {
                    &&& r is None
                    &&& final(self).entries() == s.push((block_addr, data@, dirty))
                    &&& final(self).spec_stats() == st
                } else {
                    &&& final(self).entries() == s.drop_first().push((block_addr, data@, dirty))
                    &&& (s[0].2 ==> (r matches Some(p) && p.0 == s[0].0 && p.1@ == s[0].1))
                    &&& (!s[0].2 ==> r is None)
                    &&& final(self).spec_stats() == (CacheStats {
                        evictions: sat_inc(st.evictions),
                        dirty_writebacks: if s[0].2 { sat_inc(st.dirty_writebacks) } else { st.dirty_writebacks },
                        ..st
                    })
                }
            }),
    {
        let cached = block_lru_contains(&self.cache, block_addr);
        if cached && !evict_cached_too {
            block_lru_put(&mut self.cache, block_addr, CachedBlock { data, dirty });
            return None;
        }
        let evicted = if !cached && block_lru_len(&self.cache) >= block_lru_cap_of(&self.cache) {
            self.pop_lru_dirty()
        } else {
            None
        };
        proof {
            let s = old(self).entries();
            if !has_key(s, block_addr) && s.len() >= old(self).capacity() {
                assert forall|j: int| 0 <= j < s.drop_first().len() implies #[trigger] s.drop_first()[j].0 != block_addr by {
                    assert(s.drop_first()[j] == s[j + 1]);
                }
                assert(!has_key(s.drop_first(), block_addr));
            }
        }
        block_lru_put(&mut self.cache, block_addr, CachedBlock { data, dirty });
        evicted
    }

    /// Cache a block as clean (after reading it); see `put_entry`.
    pub fn insert(&mut self, block_addr: u64, data: Vec<u8>) -> (r: Option<(u64, Vec<u8>)>)
        requires
            old(self).wf(),
        ensures
            final(self).wf(),
            final(self).capacity() == old(self).capacity(),
            final(self).spec_block_size() == old(self).spec_block_size(),
            ({
                let s = old(self).entries();
                let st = old(self).spec_stats();
                if has_key(s, block_addr) {
                    &&& r is None
                    &&& final(self).entries() == s.remove(key_pos(s, block_addr)).push((block_addr, data@, false))
                    &&& final(self).spec_stats() == st
                } else if s.len() < old(self).capacity() {
                    &&& r is None
                    &&& final(self).entries() == s.push((block_addr, data@, false))
                    &&& final(self).spec_stats() == st
                } else {
                    &&& final(self).entries() == s.drop_first().push((block_addr, data@, false))
                    &&& (s[0].2 ==> (r matches Some(p) && p.0 == s[0].0 && p.1@ == s[0].1))
                    &&& (!s[0].2 ==> r is None)
                    &&& final(self).spec_stats() == (CacheStats {
                        evictions: sat_inc(st.evictions),
                        dirty_writebacks: if s[0].2 { sat_inc(st.dirty_writebacks) } else { st.dirty_writebacks },
                        ..st
                    })
                }
            }),
    {
        self.put_entry(block_addr, data, false, false)
    }

    /// Cache a block as dirty (its write deferred); see `put_entry`.
    pub fn put_dirty(&mut self, block_addr: u64, data: Vec<u8>) -> (r: Option<(u64, Vec<u8>)>)
        requires
            old(self).wf(),
        ensures
            final(self).wf(),
            final(self).capacity() == old(self).capacity(),
            final(self).spec_block_size() == old(self).spec_block_size(),
            ({
                let s = old(self).entries();
                let st = old(self).spec_stats();
                if has_key(s, block_addr) {
                    &&& r is None
                    &&& final(self).entries() == s.remove(key_pos(s, block_addr)).push((block_addr, data@, true))
                    &&& final(self).spec_stats() == st
                } else if s.len() < old(self).capacity() {
                    &&& r is None
                    &&& final(self).entries() == s.push((block_addr, data@, true))
                    &&& final(self).spec_stats() == st
                } else {
                    &&& final(self).entries() == s.drop_first().push((block_addr, data@, true))
                    &&& (s[0].2 ==> (r matches Some(p) && p.0 == s[0].0 && p.1@ == s[0].1))
                    &&& (!s[0].2 ==> r is None)
                    &&& final(self).spec_stats() == (CacheStats {
                        evictions: sat_inc(st.evictions),
                        dirty_writebacks: if s[0].2 { sat_inc(st.dirty_writebacks) } else { st.dirty_writebacks },
                        ..st
                    })
                }
            }),
    {
        self.put_entry(block_addr, data, true, true)
    }

    /// Rewrite a cached block through `f` and mark it dirty; its entry
    /// becomes most recently used. Returns whether it was cached.
    pub fn modify<F: FnOnce(Vec<u8>) -> Vec<u8>>(&mut self, block_addr: u64, f: F) -> (r: bool)
        requires
            old(self).wf(),
            forall|d: Vec<u8>| #[trigger] f.requires((d,)),
        ensures
            final(self).wf(),
            final(self).capacity() == old(self).capacity(),
            final(self).spec_block_size() == old(self).spec_block_size(),
            final(self).spec_stats() == old(self).spec_stats(),
            ({
                let s = old(self).entries();
                if has_key(s, block_addr) {
                    let i = key_pos(s, block_addr);
                    &&& r
                    &&& exists|d: Vec<u8>, n: Vec<u8>| d@ == s[i].1 && #[trigger] f.ensures((d,), n)
                        && final(self).entries() == s.remove(i).push((block_addr, n@, true))
                } else {
                    &&& !r
                    &&& final(self).entries() == s
                }
            }),
    {
        if !block_lru_contains(&self.cache, block_addr) {
            return false;
        }
        let ghost s = self.entries();
        let ghost i = key_pos(s, block_addr);
        let current = match block_lru_get(&mut self.cache, block_addr) {
            Some(e) => e.data.clone(),
            None => {
                return false;
            },
        };
        let ghost s1 = self.entries();
        proof {
            assert(s1.last() == s[i]);
            assert(s1[s1.len() - 1].0 == block_addr);
            assert(has_key(s1, block_addr));
            assert(key_pos(s1, block_addr) == s1.len() - 1) by {
                let q = key_pos(s1, block_addr);
                if q != s1.len() - 1 {
                    assert(s1[q].0 == s1[s1.len() - 1].0);
                }
            }
            assert(s1.remove(s1.len() - 1) =~= s.remove(i));
        }
        let newd = f(current);
        block_lru_put(&mut self.cache, block_addr, CachedBlock { data: newd, dirty: true });
        true
    }

    /// Drop a block from the cache; its bytes are returned when its entry
    /// was dirty.
    pub fn invalidate(&mut self, block_addr: u64) -> (r: Option<Vec<u8>>)
        requires
            old(self).wf(),
        ensures
            final(self).wf(),
            final(self).capacity() == old(self).capacity(),
            final(self).spec_block_size() == old(self).spec_block_size(),
            final(self).spec_stats() == old(self).spec_stats(),
            ({
                let s = old(self).entries();
                if has_key(s, block_addr) {
                    let i = key_pos(s, block_addr);
                    &&& final(self).entries() == s.remove(i)
                    &&& (s[i].2 ==> (r matches Some(d) && d@ == s[i].1))
                    &&& (!s[i].2 ==> r is None)
                } else {
                    &&& r is None
                    &&& final(self).entries() == s
                }
            }),
    {
        match block_lru_pop(&mut self.cache, block_addr) {
            Some(e) => {
                if e.dirty {
                    Some(e.data)
                } else {
                    None
                }
            },
            None => None,
        }
    }

    /// Drop blocks `start .. start + count` (the end saturating at the
    /// largest address); returns the dirty ones, by address, for writing
    /// back.
    pub fn invalidate_range(&mut self, start: u64, count: u64) -> (r: Vec<(u64, Vec<u8>)>)
        requires
            old(self).wf(),
        ensures
            final(self).wf(),
            final(self).capacity() == old(self).capacity(),
            final(self).spec_block_size() == old(self).spec_block_size(),
            final(self).spec_stats() == old(self).spec_stats(),
            forall|k: u64| has_key(final(self).entries(), k) <==> has_key(old(self).entries(), k) && !(start <= k
                && k < sat_add(start, count as int)),
            forall|q: int| 0 <= q < r@.len() ==> start <= (#[trigger] r@[q]).0 < sat_add(start, count as int)
                && has_key(old(self).entries(), r@[q].0) && old(self).entries()[key_pos(old(self).entries(), r@[q].0)].2
                && old(self).entries()[key_pos(old(self).entries(), r@[q].0)].1 == r@[q].1@,
    {
        let end = start.saturating_add(count);
        let ghost s0 = self.entries();
        let mut dirty: Vec<(u64, Vec<u8>)> = Vec::new();
        let mut addr = start;
        while addr < end
            invariant
                self.wf(),
                self.capacity() == old(self).capacity(),
                self.spec_block_size() == old(self).spec_block_size(),
                self.spec_stats() == old(self).spec_stats(),
                s0 == old(self).entries(),
                keys_distinct(s0),
                start <= addr <= end,
                end == sat_add(start, count as int),
                forall|k: u64| has_key(self.entries(), k) <==> has_key(s0, k) && !(start <= k && k < addr),
                forall|k: u64| #[trigger] has_key(self.entries(), k) ==> self.entries()[key_pos(self.entries(), k)] == s0[key_pos(s0, k)],
                forall|q: int| 0 <= q < dirty@.len() ==> start <= (#[trigger] dirty@[q]).0 < addr
                    && has_key(s0, dirty@[q].0) && s0[key_pos(s0, dirty@[q].0)].2
                    && s0[key_pos(s0, dirty@[q].0)].1 == dirty@[q].1@,
            decreases end - addr,
        {
            let ghost s = self.entries();
            let got = self.invalidate(addr);
            proof {
                if has_key(s, addr) {
                    lemma_remove_key(s, addr);
                    let t = s.remove(key_pos(s, addr));
                    assert forall|k: u64| #[trigger] has_key(t, k) implies t[key_pos(t, k)] == s0[key_pos(s0, k)] by {
                        assert(has_key(s, k));
                        let i = key_pos(s, addr);
                        let j = key_pos(t, k);
                        let sj = if j < i { j } else { j + 1 };
                        assert(t[j] == s[sj]);
                        assert(s[key_pos(s, k)].0 == k);
                        if sj != key_pos(s, k) {
                            assert(s[sj].0 == s[key_pos(s, k)].0);
                        }
                    }
                }
            }
            match got {
                Some(d) => {
                    proof {
                        assert(has_key(s, addr));
                        assert(s[key_pos(s, addr)] == s0[key_pos(s0, addr)]);
                    }
                    dirty.push((addr, d));
                },
                None => {},
            }
            addr = addr + 1;
        }
        dirty
    }

    /// Mark every entry clean; returns the dirty ones, most recently used
    /// first, for writing back, and counts them as write-backs. Recency is
    /// kept.
    pub fn flush_dirty(&mut self) -> (r: Vec<(u64, Vec<u8>)>)
        requires
            old(self).wf(),
        ensures
            final(self).wf(),
            final(self).capacity() == old(self).capacity(),
            final(self).spec_block_size() == old(self).spec_block_size(),
            final(self).entries() == all_clean(old(self).entries()),
            r@.map_values(|p: (u64, Vec<u8>)| (p.0, p.1@)) == dirty_mru(old(self).entries()),
            final(self).spec_stats() == (CacheStats {
                dirty_writebacks: sat_add(old(self).spec_stats().dirty_writebacks, r@.len() as int),
                ..old(self).spec_stats()
            }),
    {
        let ghost s = self.entries();
        let mut taken: Vec<(u64, CachedBlock)> = Vec::new();
        while block_lru_len(&self.cache) > 0
            invariant
                keys_distinct(self.entries()),
                keys_distinct(s),
                self.capacity() == old(self).capacity(),
                self.block_size == old(self).block_size,
                s.len() <= self.capacity(),
                self.stats == old(self).stats,
                s == old(self).entries(),
                taken@.len() + self.entries().len() == s.len(),
                forall|j: int| 0 <= j < taken@.len() ==> (#[trigger] taken@[j]).0 == s[j].0 && taken@[j].1.data@ == s[j].1
                    && taken@[j].1.dirty == s[j].2,
                self.entries() == s.subrange(taken@.len() as int, s.len() as int),
            decreases self.entries().len(),
        {
            match block_lru_pop_lru(&mut self.cache) {
                Some(p) => {
                    taken.push(p);
                    proof {
                        assert(self.entries() =~= s.subrange(taken@.len() as int, s.len() as int));
                    }
                },
                None => {},
            }
        }
        let mut dirty: Vec<(u64, Vec<u8>)> = Vec::new();
        let mut k: usize = taken.len();
        assert(s.subrange(s.len() as int, s.len() as int) =~= Seq::<(u64, Seq<u8>, bool)>::empty());
        assert(dirty@.map_values(|p: (u64, Vec<u8>)| (p.0, p.1@)) =~= Seq::<(u64, Seq<u8>)>::empty());
        while k > 0
            invariant
                k <= taken@.len(),
                taken@.len() == s.len(),
                forall|q: int| 0 <= q < taken@.len() ==> (#[trigger] taken@[q]).0 == s[q].0 && taken@[q].1.data@ == s[q].1
                    && taken@[q].1.dirty == s[q].2,
                dirty@.map_values(|p: (u64, Vec<u8>)| (p.0, p.1@)) == dirty_mru(s.subrange(k as int, s.len() as int)),
                self.stats.dirty_writebacks == sat_add(old(self).stats.dirty_writebacks, dirty@.len() as int),
                self.stats == (CacheStats { dirty_writebacks: self.stats.dirty_writebacks, ..old(self).stats }),
                self.entries() == Seq::<(u64, Seq<u8>, bool)>::empty(),
                keys_distinct(s),
                s.len() <= self.capacity(),
                self.capacity() == old(self).capacity(),
                self.block_size == old(self).block_size,
            decreases k,
        {
            k = k - 1;
            proof {
                let t = s.subrange(k as int, s.len() as int);
                assert(t.drop_first() =~= s.subrange(k + 1, s.len() as int));
                assert(t[0] == s[k as int]);
            }
            if taken[k].1.dirty {
                let ghost d0 = dirty@;
                let d = taken[k].1.data.clone();
                dirty.push((taken[k].0, d));
                proof {
                    assert(dirty@.map_values(|p: (u64, Vec<u8>)| (p.0, p.1@)) =~= d0.map_values(|p: (u64, Vec<u8>)| (p.0, p.1@)).push(
                        (s[k as int].0, s[k as int].1),
                    ));
                }
                self.stats.dirty_writebacks = self.stats.dirty_writebacks.saturating_add(1);
            }
        }
        let mut j: usize = 0;
        let ghost st = self.stats;
        assert(self.entries() =~= all_clean(s.take(0)));
        while j < taken.len()
            invariant
                j <= taken@.len(),
                taken@.len() == s.len(),
                self.stats == st,
                keys_distinct(s),
                s.len() <= self.capacity(),
                self.capacity() == old(self).capacity(),
                self.block_size == old(self).block_size,
                forall|q: int| 0 <= q < taken@.len() ==> (#[trigger] taken@[q]).0 == s[q].0 && taken@[q].1.data@ == s[q].1
                    && taken@[q].1.dirty == s[q].2,
                self.entries() == all_clean(s.take(j as int)),
                keys_distinct(self.entries()),
            decreases taken@.len() - j,
        {
            let key = taken[j].0;
            let data = taken[j].1.data.clone();
            proof {
                assert forall|q: int| 0 <= q < self.entries().len() implies #[trigger] self.entries()[q].0 != key by {
                    assert(self.entries()[q].0 == s[q].0);
                }
                assert(!has_key(self.entries(), key));
            }
            block_lru_put(&mut self.cache, key, CachedBlock { data, dirty: false });
            proof {
                assert(self.entries() =~= all_clean(s.take(j + 1)));
            }
            j = j + 1;
        }
        assert(s.take(s.len() as int) =~= s);
        assert(s.subrange(0, s.len() as int) =~= s);
        dirty
    }

    /// Flush (see `flush_dirty`), then drop every entry.
    pub fn clear(&mut self) -> (r: Vec<(u64, Vec<u8>)>)
        requires
            old(self).wf(),
        ensures
            final(self).wf(),
            final(self).capacity() == old(self).capacity(),
            final(self).spec_block_size() == old(self).spec_block_size(),
            final(self).entries() == Seq::<(u64, Seq<u8>, bool)>::empty(),
            r@.map_values(|p: (u64, Vec<u8>)| (p.0, p.1@)) == dirty_mru(old(self).entries()),
            final(self).spec_stats() == (CacheStats {
                dirty_writebacks: sat_add(old(self).spec_stats().dirty_writebacks, r@.len() as int),
                ..old(self).spec_stats()
            }),
    {
        let dirty = self.flush_dirty();
        block_lru_clear(&mut self.cache);
        dirty
    }

    /// Estimated memory use: per cached block, its bytes and the entry
    /// record (saturating at the largest `usize`).
    pub fn memory_usage(&self) -> (r: usize)
        ensures
            r == (if self.entries().len() * (self.spec_block_size() + vstd::layout::size_of::<CachedBlock>()) <= usize::MAX {
                self.entries().len() * (self.spec_block_size() + vstd::layout::size_of::<CachedBlock>())
            } else {
                usize::MAX as int
            }),
    {
        let per = (self.block_size as usize).saturating_add(std::mem::size_of::<CachedBlock>());
        let n = block_lru_len(&self.cache);
        proof {
            let full = self.spec_block_size() + vstd::layout::size_of::<CachedBlock>();
            assert(n == self.entries().len());
            if per < full {
                assert(per == usize::MAX);
                if n > 0 {
                    assert(n * per >= per) by (nonlinear_arith) requires n > 0, per >= 0;
                    assert(n * full >= full) by (nonlinear_arith) requires n > 0, full >= 0;
                    if n > 1 {
                        assert(n * per >= 2 * per) by (nonlinear_arith) requires n > 1, per >= 0;
                    }
                } else {
                    assert(n * per == 0 && n * full == 0) by (nonlinear_arith) requires n == 0;
                }
            }
        }
        match n.checked_mul(per) {
            Some(total) => total,
            None => usize::MAX,
        }
    }

    /// The counters.
    pub fn stats(&self) -> (r: &CacheStats)
        ensures
            *r == self.spec_stats(),
    {
        &self.stats
    }

    /// Number of cached blocks.
    pub fn len(&self) -> (r: usize)
        ensures
            r == self.entries().len(),
    {
        block_lru_len(&self.cache)
    }

    /// Whether no block is cached.
    pub fn is_empty(&self) -> (r: bool)
        ensures
            r == (self.entries().len() == 0),
    {
        block_lru_len(&self.cache) == 0
    }
}

struct CachedGd {
    gd: GroupDescriptor,
    dirty: bool,
}

/// All group descriptors of a volume, each with a dirty flag.
pub struct GdtCache {
    entries: Vec<CachedGd>,
    stats: CacheStats,
}

impl GdtCache {
    /// The cached descriptors, by group index.
    pub closed spec fn descs(&self) -> Seq<GroupDescriptor> {
        self.entries@.map_values(|e: CachedGd| e.gd)
    }

    /// Which descriptors changed since they were last flushed.
    pub closed spec fn dirty_flags(&self) -> Seq<bool> {
        self.entries@.map_values(|e: CachedGd| e.dirty)
    }

    pub closed spec fn spec_stats(&self) -> CacheStats {
        self.stats
    }

    /// Group indices fit in `u32`.
    pub closed spec fn wf(&self) -> bool {
        self.entries@.len() <= u32::MAX
    }

    /// A cache holding `gdt`, all clean.
    pub fn from_vec(gdt: Vec<GroupDescriptor>) -> (r: Self)
        requires
            gdt@.len() <= u32::MAX,
        ensures
            r.wf(),
            r.descs() == gdt@,
            r.dirty_flags() == Seq::new(gdt@.len(), |i: int| false),
            r.spec_stats() == zero_stats(),
    {
        let mut entries: Vec<CachedGd> = Vec::new();
        let mut i: usize = 0;
        while i < gdt.len()
            invariant
                i <= gdt@.len(),
                entries@.len() == i,
                forall|j: int| 0 <= j < i ==> (#[trigger] entries@[j]).gd == gdt@[j] && !entries@[j].dirty,
            decreases gdt@.len() - i,
        {
            entries.push(CachedGd { gd: gdt[i], dirty: false });
            i = i + 1;
        }
        let r = GdtCache { entries, stats: CacheStats::new() };
        assert(r.descs() =~= gdt@);
        assert(r.dirty_flags() =~= Seq::new(gdt@.len(), |i: int| false));
        r
    }

    /// A cache with no groups.
    pub fn empty() -> (r: Self)
        ensures
            r.wf(),
            r.descs() == Seq::<GroupDescriptor>::empty(),
            r.dirty_flags() == Seq::<bool>::empty(),
            r.spec_stats() == zero_stats(),
    {
        let r = GdtCache { entries: Vec::new(), stats: CacheStats::new() };
        assert(r.descs() =~= Seq::<GroupDescriptor>::empty());
        assert(r.dirty_flags() =~= Seq::<bool>::empty());
        r
    }

    /// The descriptor of a group, counting a hit; `None` past the last group.
    pub fn get(&mut self, group_idx: u32) -> (r: Option<&GroupDescriptor>)
        requires
            old(self).spec_stats().hits < u64::MAX,
        ensures
            final(self).descs() == old(self).descs(),
            final(self).dirty_flags() == old(self).dirty_flags(),
            final(self).wf() == old(self).wf(),
            match r {
                Some(d) => {
                    &&& group_idx < old(self).descs().len()
                    &&& *d == old(self).descs()[group_idx as int]
                    &&& final(self).spec_stats() == old(self).spec_stats().with_hit()
                },
                None => group_idx >= old(self).descs().len() && final(self).spec_stats() == old(self).spec_stats(),
            },
    {
        let idx = group_idx as usize;
        if idx >= self.entries.len() {
            return None;
        }
        self.stats.hits = self.stats.hits + 1;
        Some(&self.entries[idx].gd)
    }

    /// The descriptor of a group, without counting; `None` past the last group.
    pub fn get_ref(&self, group_idx: u32) -> (r: Option<&GroupDescriptor>)
        ensures
            match r {
                Some(d) => group_idx < self.descs().len() && *d == self.descs()[group_idx as int],
                None => group_idx >= self.descs().len(),
            },
    {
        let idx = group_idx as usize;
        if idx < self.entries.len() {
            Some(&self.entries[idx].gd)
        } else {
            None
        }
    }

    /// Replace a group's descriptor and mark it dirty; no effect past the last group.
    pub fn put(&mut self, group_idx: u32, gd: GroupDescriptor)
        ensures
            final(self).wf() == old(self).wf(),
            final(self).spec_stats() == old(self).spec_stats(),
            group_idx < old(self).descs().len() ==> {
                &&& final(self).descs() == old(self).descs().update(group_idx as int, gd)
                &&& final(self).dirty_flags() == old(self).dirty_flags().update(group_idx as int, true)
            },
            group_idx >= old(self).descs().len() ==> {
                &&& final(self).descs() == old(self).descs()
                &&& final(self).dirty_flags() == old(self).dirty_flags()
            },
    {
        let idx = group_idx as usize;
        if idx < self.entries.len() {
            self.entries.set(idx, CachedGd { gd, dirty: true });
            assert(self.descs() =~= old(self).descs().update(group_idx as int, gd));
            assert(self.dirty_flags() =~= old(self).dirty_flags().update(group_idx as int, true));
        }
    }

    /// Replace a group's descriptor by `f` applied to it and mark it dirty.
    /// Returns `false`, changing nothing, past the last group.
    pub fn modify<F: FnOnce(GroupDescriptor) -> GroupDescriptor>(&mut self, group_idx: u32, f: F) -> (r: bool)
        requires
            group_idx < old(self).descs().len() ==> f.requires((old(self).descs()[group_idx as int],)),
        ensures
            final(self).wf() == old(self).wf(),
            final(self).spec_stats() == old(self).spec_stats(),
            r == (group_idx < old(self).descs().len()),
            r ==> {
                &&& f.ensures((old(self).descs()[group_idx as int],), final(self).descs()[group_idx as int])
                &&& final(self).descs() == old(self).descs().update(group_idx as int, final(self).descs()[group_idx as int])
                &&& final(self).dirty_flags() == old(self).dirty_flags().update(group_idx as int, true)
            },
            !r ==> {
                &&& final(self).descs() == old(self).descs()
                &&& final(self).dirty_flags() == old(self).dirty_flags()
            },
    {
        let idx = group_idx as usize;
        if idx < self.entries.len() {
            let cur = self.entries[idx].gd;
            let updated = f(cur);
            self.entries.set(idx, CachedGd { gd: updated, dirty: true });
            assert(self.descs() =~= old(self).descs().update(group_idx as int, updated));
            assert(self.dirty_flags() =~= old(self).dirty_flags().update(group_idx as int, true));
            true
        } else {
            false
        }
    }

    /// The dirty descriptors with their group indices, in index order; all
    /// entries are clean afterwards and each one counts as a write-back.
    pub fn flush_dirty(&mut self) -> (r: Vec<(u32, GroupDescriptor)>)
        requires
            old(self).wf(),
            old(self).spec_stats().dirty_writebacks + old(self).descs().len() <= u64::MAX,
        ensures
            final(self).wf(),
            final(self).descs() == old(self).descs(),
            final(self).dirty_flags() == Seq::new(old(self).descs().len(), |i: int| false),
            r@ == dirty_list(old(self).descs(), old(self).dirty_flags(), old(self).descs().len() as int),
            final(self).spec_stats() == old(self).spec_stats().with_writebacks(r@.len() as int),
    {
        let mut out: Vec<(u32, GroupDescriptor)> = Vec::new();
        let n = self.entries.len();
        let mut i: usize = 0;
        while i < n
            invariant
                n == old(self).entries@.len(),
                n <= u32::MAX,
                i <= n,
                self.entries@.len() == n,
                forall|j: int| 0 <= j < n ==> (#[trigger] self.entries@[j]).gd == old(self).entries@[j].gd,
                forall|j: int| 0 <= j < i ==> !(#[trigger] self.entries@[j]).dirty,
                forall|j: int| i <= j < n ==> (#[trigger] self.entries@[j]).dirty == old(self).entries@[j].dirty,
                out@ == dirty_list(old(self).descs(), old(self).dirty_flags(), i as int),
                out@.len() <= i,
                self.stats == old(self).stats.with_writebacks(out@.len() as int),
                old(self).stats.dirty_writebacks + n <= u64::MAX,
            decreases n - i,
        {
            if self.entries[i].dirty {
                let gd = self.entries[i].gd;
                out.push((i as u32, gd));
                self.entries.set(i, CachedGd { gd, dirty: false });
                self.stats.dirty_writebacks = self.stats.dirty_writebacks + 1;
            }
            i = i + 1;
        }
        assert(self.descs() =~= old(self).descs());
        assert(self.dirty_flags() =~= Seq::new(old(self).descs().len(), |i: int| false));
        out
    }

    /// Mark every entry clean.
    pub fn mark_all_clean(&mut self)
        ensures
            final(self).wf() == old(self).wf(),
            final(self).descs() == old(self).descs(),
            final(self).dirty_flags() == Seq::new(old(self).descs().len(), |i: int| false),
            final(self).spec_stats() == old(self).spec_stats(),
    {
        let n = self.entries.len();
        let mut i: usize = 0;
        while i < n
            invariant
                n == old(self).entries@.len(),
                i <= n,
                self.entries@.len() == n,
                self.stats == old(self).stats,
                forall|j: int| 0 <= j < n ==> (#[trigger] self.entries@[j]).gd == old(self).entries@[j].gd,
                forall|j: int| 0 <= j < i ==> !(#[trigger] self.entries@[j]).dirty,
            decreases n - i,
        {
            let gd = self.entries[i].gd;
            self.entries.set(i, CachedGd { gd, dirty: false });
            i = i + 1;
        }
        assert(self.descs() =~= old(self).descs());
        assert(self.dirty_flags() =~= Seq::new(old(self).descs().len(), |i: int| false));
    }

    /// Free blocks over all groups.
    pub fn total_free_blocks(&self) -> (r: u64)
        requires
            self.wf(),
        ensures
            r == sum_free_blocks(self.descs(), self.descs().len() as int),
    {
        let n = self.entries.len();
        let mut total: u64 = 0;
        let mut i: usize = 0;
        while i < n
            invariant
                n == self.entries@.len(),
                n <= u32::MAX,
                i <= n,
                total == sum_free_blocks(self.descs(), i as int),
                total <= i * 0xffff_ffff,
            decreases n - i,
        {
            proof {
                assert(self.descs()[i as int] == self.entries@[i as int].gd);
                assert(i * 0xffff_ffff + 0xffff_ffff <= 0x1_0000_0000u64 * 0xffff_ffffu64) by (nonlinear_arith)
                    requires
                        i < 0x1_0000_0000,
                ;
                assert((i + 1) * 0xffff_ffff == i * 0xffff_ffff + 0xffff_ffff) by (nonlinear_arith);
            }
            total = total + self.entries[i].gd.bg_free_blocks as u64;
            i = i + 1;
        }
        total
    }

    /// Free inodes over all groups.
    pub fn total_free_inodes(&self) -> (r: u64)
        requires
            self.wf(),
        ensures
            r == sum_free_inodes(self.descs(), self.descs().len() as int),
    {
        let n = self.entries.len();
        let mut total: u64 = 0;
        let mut i: usize = 0;
        while i < n
            invariant
                n == self.entries@.len(),
                n <= u32::MAX,
                i <= n,
                total == sum_free_inodes(self.descs(), i as int),
                total <= i * 0xffff_ffff,
            decreases n - i,
        {
            proof {
                assert(self.descs()[i as int] == self.entries@[i as int].gd);
                assert(i * 0xffff_ffff + 0xffff_ffff <= 0x1_0000_0000u64 * 0xffff_ffffu64) by (nonlinear_arith)
                    requires
                        i < 0x1_0000_0000,
                ;
                assert((i + 1) * 0xffff_ffff == i * 0xffff_ffff + 0xffff_ffff) by (nonlinear_arith);
            }
            total = total + self.entries[i].gd.bg_free_inodes as u64;
            i = i + 1;
        }
        total
    }

    /// A copy of all descriptors, by group index.
    pub fn as_slice(&self) -> (r: Vec<GroupDescriptor>)
        ensures
            r@ == self.descs(),
    {
        let mut out: Vec<GroupDescriptor> = Vec::new();
        let mut i: usize = 0;
        while i < self.entries.len()
            invariant
                i <= self.entries@.len(),
                out@ == self.descs().subrange(0, i as int),
            decreases self.entries@.len() - i,
        {
            out.push(self.entries[i].gd);
            i = i + 1;
            assert(out@ =~= self.descs().subrange(0, i as int));
        }
        assert(out@ =~= self.descs());
        out
    }

    /// References to all descriptors, by group index.
    pub fn descriptors(&self) -> (r: Vec<&GroupDescriptor>)
        ensures
            r@.len() == self.descs().len(),
            forall|i: int| 0 <= i < r@.len() ==> *(#[trigger] r@[i]) == self.descs()[i],
    {
        let mut out: Vec<&GroupDescriptor> = Vec::new();
        let mut i: usize = 0;
        while i < self.entries.len()
            invariant
                i <= self.entries@.len(),
                out@.len() == i,
                forall|j: int| 0 <= j < i ==> *(#[trigger] out@[j]) == self.descs()[j],
            decreases self.entries@.len() - i,
        {
            out.push(&self.entries[i].gd);
            i = i + 1;
        }
        out
    }

    /// Number of groups.
    pub fn len(&self) -> (r: usize)
        ensures
            r == self.descs().len(),
    {
        self.entries.len()
    }

    /// Whether the cache holds no group.
    pub fn is_empty(&self) -> (r: bool)
        ensures
            r == (self.descs().len() == 0),
    {
        self.entries.len() == 0
    }

    /// The counters.
    pub fn stats(&self) -> (r: &CacheStats)
        ensures
            *r == self.spec_stats(),
    {
        &self.stats
    }
}

/// The `(index, descriptor)` pairs of the dirty entries among the first `n`, in order.
pub open spec fn dirty_list(descs: Seq<GroupDescriptor>, dirty: Seq<bool>, n: int) -> Seq<(u32, GroupDescriptor)>
    decreases n,
{
    if n <= 0 {
        Seq::empty()
    } else if dirty[n - 1] {
        dirty_list(descs, dirty, n - 1).push(((n - 1) as u32, descs[n - 1]))
    } else {
        dirty_list(descs, dirty, n - 1)
    }
}

} // verus!
