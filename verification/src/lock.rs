//! Byte-range advisory file locking.

use vstd::prelude::*;
use std::collections::HashMap;
use crate::error::VolumeError;
use vstd::std_specs::iter::IteratorSpec;

verus! {

broadcast use vstd::std_specs::hash::group_hash_axioms;

/// Type of byte-range lock.
#[derive(Debug, Clone, Copy, PartialEq, Eq, Structural)]
pub enum LockType {
    /// Shared (read) lock: many readers, no writers.
    Shared,
    /// Exclusive (write) lock: no other readers or writers.
    Exclusive,
}

/// A byte-range lock on a file.
#[derive(Debug, Clone, Copy)]
pub struct FileLock {
    /// Inode index of the locked file.
    pub inode: u32,
    /// Start offset of the locked range (inclusive).
    pub offset: u64,
    /// Length of the locked range; 0 means "to end of file".
    pub length: u64,
    /// Lock type.
    pub lock_type: LockType,
    /// Opaque handle identifying the lock owner.
    pub owner: u64,
}

/// End of a lock's range (exclusive), saturating at `u64::MAX`; length 0 reaches `u64::MAX`.
pub open spec fn lock_end(l: FileLock) -> int {
    if l.length == 0 || l.offset + l.length > u64::MAX {
        u64::MAX as int
    } else {
        l.offset + l.length
    }
}

/// Two locks on the same inode whose byte ranges intersect.
pub open spec fn spec_overlaps(a: FileLock, b: FileLock) -> bool {
    &&& a.inode == b.inode
    &&& a.offset < lock_end(b)
    &&& b.offset < lock_end(a)
}

/// Byte `x` lies in lock `l`'s range: from its offset up to its length
/// (to the end of the file for length 0), below `u64::MAX`.
pub open spec fn covers_byte(l: FileLock, x: int) -> bool {
    &&& l.offset <= x < u64::MAX
    &&& (l.length == 0 || x < l.offset + l.length)
}

/// Two locks overlap exactly when they lock the same file and some byte lies
/// in both ranges; so overlap is symmetric, and a lock of length 0 reaches
/// every byte from its offset on.
pub proof fn lemma_overlaps_iff_common_byte(a: FileLock, b: FileLock)
    ensures
        spec_overlaps(a, b) <==> (a.inode == b.inode && exists|x: int| covers_byte(a, x) && covers_byte(b, x)),
        spec_overlaps(a, b) == spec_overlaps(b, a),
{
    if a.inode == b.inode && exists|x: int| covers_byte(a, x) && covers_byte(b, x) {
        let x = choose|x: int| covers_byte(a, x) && covers_byte(b, x);
        assert(a.offset < lock_end(b));
        assert(b.offset < lock_end(a));
    }
    if spec_overlaps(a, b) {
        let x = if a.offset >= b.offset { a.offset as int } else { b.offset as int };
        assert(covers_byte(a, x) && covers_byte(b, x));
    }
}

/// A lock of length 0 overlaps every lock on the same file that starts at or
/// after its offset (below `u64::MAX`), whatever that lock's length.
pub proof fn lemma_whole_file_lock_overlaps(a: FileLock, b: FileLock)
    requires
        a.length == 0,
        a.inode == b.inode,
        a.offset <= b.offset < u64::MAX,
    ensures
        spec_overlaps(a, b),
        spec_overlaps(b, a),
{
    lemma_overlaps_iff_common_byte(a, b);
    assert(covers_byte(a, b.offset as int) && covers_byte(b, b.offset as int));
}

/// Overlapping locks of different owners, unless both are shared.
pub open spec fn spec_conflicts(a: FileLock, b: FileLock) -> bool {
    &&& spec_overlaps(a, b)
    &&& a.owner != b.owner
    &&& !(a.lock_type == LockType::Shared && b.lock_type == LockType::Shared)
}

impl FileLock {
    /// Whether the two locks' byte ranges overlap.
    pub fn overlaps(&self, other: &FileLock) -> (r: bool)
        ensures
            r == spec_overlaps(*self, *other),
    {
        if self.inode != other.inode {
            return false;
        }
        let self_end = if self.length == 0 {
            u64::MAX
        } else {
            self.offset.saturating_add(self.length)
        };
        let other_end = if other.length == 0 {
            u64::MAX
        } else {
            other.offset.saturating_add(other.length)
        };
        self.offset < other_end && other.offset < self_end
    }

    /// Whether this lock conflicts with another: overlapping, different
    /// owners, and not both shared.
    pub fn conflicts_with(&self, other: &FileLock) -> (r: bool)
        ensures
            r == spec_conflicts(*self, *other),
    {
        if !self.overlaps(other) {
            return false;
        }
        if self.owner == other.owner {
            return false;
        }
        if self.lock_type == LockType::Shared && other.lock_type == LockType::Shared {
            return false;
        }
        true
    }
}

/// The locks of `s` not held by `owner`, in their original order.
pub open spec fn without_owner(s: Seq<FileLock>, owner: u64) -> Seq<FileLock>
    decreases s.len(),
{
    if s.len() == 0 {
        s
    } else {
        let rest = without_owner(s.drop_last(), owner);
        if s.last().owner != owner {
            rest.push(s.last())
        } else {
            rest
        }
    }
}

/// The lock table after dropping every lock of `owner` (and inodes left with none).
pub open spec fn release_owner_map(m: Map<u32, Seq<FileLock>>, owner: u64) -> Map<u32, Seq<FileLock>> {
    Map::new(
        |k: u32| m.contains_key(k) && without_owner(m[k], owner).len() > 0,
        |k: u32| without_owner(m[k], owner),
    )
}

/// Manages byte-range locks for all open files.
pub struct FileLockManager {
    locks: HashMap<u32, Vec<FileLock>>,
}

impl View for FileLockManager {
    type V = Map<u32, Seq<FileLock>>;

    /// Locks per inode, in acquisition order.
    closed spec fn view(&self) -> Map<u32, Seq<FileLock>> {
        self.locks@.map_values(|v: Vec<FileLock>| v@)
    }
}

impl FileLockManager {
    /// Every listed inode holds at least one lock, and each lock is filed under its own inode.
    pub open spec fn wf(&self) -> bool {
        forall|k: u32| #[trigger] self@.contains_key(k) ==> self@[k].len() > 0 && forall|i: int|
            0 <= i < self@[k].len() ==> #[trigger] self@[k][i].inode == k
    }

    /// Locks held on `inode` (empty when there are none).
    pub open spec fn locks_of(&self, inode: u32) -> Seq<FileLock> {
        if self@.contains_key(inode) {
            self@[inode]
        } else {
            Seq::empty()
        }
    }

    pub fn new() -> (r: Self)
        ensures
            r.wf(),
            r@ == Map::<u32, Seq<FileLock>>::empty(),
    {
        let r = FileLockManager { locks: HashMap::new() };
        assert(r@ =~= Map::<u32, Seq<FileLock>>::empty());
        r
    }

    /// Take the locks of `inode` out of the table.
    fn take(&mut self, inode: u32) -> (r: Vec<FileLock>)
        ensures
            r@ == old(self).locks_of(inode),
            final(self)@ == old(self)@.remove(inode),
    {
        let r = match self.locks.remove(&inode) {
            Some(v) => v,
            None => Vec::new(),
        };
        proof {
            assert(self@ =~= old(self)@.remove(inode));
        }
        r
    }

    /// Put a non-empty list of locks back under `inode`.
    fn put(&mut self, inode: u32, v: Vec<FileLock>)
        ensures
            final(self)@ == old(self)@.insert(inode, v@),
    {
        let ghost vv = v@;
        self.locks.insert(inode, v);
        proof {
            assert(self@ =~= old(self)@.insert(inode, vv));
        }
    }

    /// Acquire `lock` unless it conflicts with a lock already held on its inode.
    pub fn try_lock(&mut self, lock: FileLock) -> (r: Result<(), VolumeError>)
        requires
            old(self).wf(),
        ensures
            final(self).wf(),
            r is Ok <==> forall|i: int| 0 <= i < old(self).locks_of(lock.inode).len() ==> !spec_conflicts(
                lock,
                #[trigger] old(self).locks_of(lock.inode)[i],
            ),
            r is Ok ==> final(self)@ == old(self)@.insert(lock.inode, old(self).locks_of(lock.inode).push(lock)),
            r is Err ==> r == Err::<(), VolumeError>(VolumeError::Conflict) && final(self)@ == old(self)@,
    {
        let mut v = self.take(lock.inode);
        let mut i: usize = 0;
        while i < v.len()
            invariant
                v@ == old(self).locks_of(lock.inode),
                self@ == old(self)@.remove(lock.inode),
                old(self).wf(),
                i <= v@.len(),
                forall|j: int| 0 <= j < i ==> !spec_conflicts(lock, #[trigger] v@[j]),
            decreases v@.len() - i,
        {
            if lock.conflicts_with(&v[i]) {
                if v.len() > 0 {
                    self.put(lock.inode, v);
                }
                proof {
                    assert(self@ =~= old(self)@);
                    assert(self.wf());
                }
                return Err(VolumeError::Conflict);
            }
            i = i + 1;
        }
        v.push(lock);
        self.put(lock.inode, v);
        proof {
            assert(self@ =~= old(self)@.insert(lock.inode, old(self).locks_of(lock.inode).push(lock)));
        }
        Ok(())
    }

    /// Release the lock of `owner` on `inode` with exactly this offset and length.
    pub fn unlock(&mut self, inode: u32, offset: u64, length: u64, owner: u64) -> (r: Result<(), VolumeError>)
        requires
            old(self).wf(),
        ensures
            final(self).wf(),
            r is Ok <==> exists|i: int| 0 <= i < old(self).locks_of(inode).len() && matches_lock(
                #[trigger] old(self).locks_of(inode)[i],
                offset,
                length,
                owner,
            ),
            r is Err ==> r == Err::<(), VolumeError>(VolumeError::NotFound) && final(self)@ == old(self)@,
            r is Ok ==> {
                let s = old(self).locks_of(inode);
                let i = first_match(s, offset, length, owner);
                let rest = s.remove(i);
                &&& 0 <= i < s.len()
                &&& rest.len() > 0 ==> final(self)@ == old(self)@.insert(inode, rest)
                &&& rest.len() == 0 ==> final(self)@ == old(self)@.remove(inode)
            },
    {
        if !self.locks.contains_key(&inode) {
            return Err(VolumeError::NotFound);
        }
        let mut v = self.take(inode);
        let mut i: usize = 0;
        while i < v.len()
            invariant
                v@ == old(self).locks_of(inode),
                self@ == old(self)@.remove(inode),
                old(self)@.contains_key(inode),
                old(self).wf(),
                i <= v@.len(),
                forall|j: int| 0 <= j < i ==> !matches_lock(#[trigger] v@[j], offset, length, owner),
            decreases v@.len() - i,
        {
            let l = v[i];
            if l.offset == offset && l.length == length && l.owner == owner {
                proof {
                    assert(first_match(v@, offset, length, owner) == i) by {
                        lemma_first_match(v@, offset, length, owner, i as int);
                    }
                }
                let ghost before = v@;
                v.remove(i);
                proof {
                    assert forall|j: int| 0 <= j < v@.len() implies #[trigger] v@[j].inode == inode by {
                        if j < i {
                            assert(v@[j] == before[j]);
                        } else {
                            assert(v@[j] == before[j + 1]);
                        }
                    }
                }
                if v.len() > 0 {
                    self.put(inode, v);
                }
                proof {
                    assert(self.wf());
                }
                return Ok(());
            }
            i = i + 1;
        }
        self.put(inode, v);
        proof {
            assert(self@ =~= old(self)@);
        }
        Err(VolumeError::NotFound)
    }

    /// Release every lock that `owner` holds on `inode`.
    pub fn release_all(&mut self, inode: u32, owner: u64)
        requires
            old(self).wf(),
        ensures
            final(self).wf(),
            old(self)@.contains_key(inode) && without_owner(old(self)@[inode], owner).len() > 0
                ==> final(self)@ == old(self)@.insert(inode, without_owner(old(self)@[inode], owner)),
            old(self)@.contains_key(inode) && without_owner(old(self)@[inode], owner).len() == 0
                ==> final(self)@ == old(self)@.remove(inode),
            !old(self)@.contains_key(inode) ==> final(self)@ == old(self)@,
    {
        if !self.locks.contains_key(&inode) {
            return;
        }
        let v = self.take(inode);
        let mut kept: Vec<FileLock> = Vec::new();
        let mut i: usize = 0;
        while i < v.len()
            invariant
                i <= v@.len(),
                kept@ == without_owner(v@.subrange(0, i as int), owner),
                forall|j: int| 0 <= j < v@.len() ==> #[trigger] v@[j].inode == inode,
                forall|j: int| 0 <= j < kept@.len() ==> #[trigger] kept@[j].inode == inode,
            decreases v@.len() - i,
        {
            proof {
                assert(v@.subrange(0, i + 1).drop_last() =~= v@.subrange(0, i as int));
            }
            if v[i].owner != owner {
                kept.push(v[i]);
            }
            i = i + 1;
        }
        proof {
            assert(v@.subrange(0, v@.len() as int) =~= v@);
        }
        if kept.len() > 0 {
            self.put(inode, kept);
        }
    }

    /// Release every lock that `owner` holds, on every inode.
    pub fn release_all_for_owner(&mut self, owner: u64)
        requires
            old(self).wf(),
        ensures
            final(self).wf(),
            final(self)@ == release_owner_map(old(self)@, owner),
    {
        let mut keys: Vec<u32> = Vec::new();
        for k in it: self.locks.keys()
            invariant
                keys@.len() == it.index(),
                forall|j: int| 0 <= j < keys@.len() ==> keys@[j] == *it.seq()[j],
                it.seq() == vstd::std_specs::hash::spec_keys_iter(&self.locks).remaining(),
        {
            keys.push(*k);
        }
        proof {
            broadcast use vstd::std_specs::hash::axiom_spec_keys_iter;
            let rem = vstd::std_specs::hash::spec_keys_iter(&self.locks).remaining();
            assert(keys@ =~= rem.unref());
            assert(keys@.to_set() == self.locks@.dom());
            assert(keys@.no_duplicates());
        }
        let ghost m0 = self@;
        let mut i: usize = 0;
        while i < keys.len()
            invariant
                self.wf(),
                m0 == old(self)@,
                keys@.to_set() == m0.dom(),
                keys@.no_duplicates(),
                i <= keys@.len(),
                self@ == Map::new(
                    |k: u32| m0.contains_key(k) && (!done_key(keys@, i as int, k) || without_owner(m0[k], owner).len() > 0),
                    |k: u32| if done_key(keys@, i as int, k) { without_owner(m0[k], owner) } else { m0[k] },
                ),
            decreases keys@.len() - i,
        {
            let k = keys[i];
            proof {
                assert(keys@.to_set().contains(k));
                assert(!done_key(keys@, i as int, k)) by {
                    if done_key(keys@, i as int, k) {
                        let j = choose|j: int| 0 <= j < i && keys@[j] == k;
                    }
                }
                assert(self@.contains_key(k));
            }
            self.release_all(k, owner);
            proof {
                assert forall|q: u32| done_key(keys@, i + 1, q) == (done_key(keys@, i as int, q) || q == k) by {
                    if done_key(keys@, i + 1, q) {
                        let j = choose|j: int| 0 <= j < i + 1 && keys@[j] == q;
                    }
                    if q == k {
                        assert(keys@[i as int] == q);
                    }
                }
                assert(self@ =~= Map::new(
                    |q: u32| m0.contains_key(q) && (!done_key(keys@, i + 1, q) || without_owner(m0[q], owner).len() > 0),
                    |q: u32| if done_key(keys@, i + 1, q) { without_owner(m0[q], owner) } else { m0[q] },
                ));
            }
            i = i + 1;
        }
        proof {
            assert forall|q: u32| m0.contains_key(q) implies done_key(keys@, keys@.len() as int, q) by {
                assert(keys@.to_set().contains(q));
                let j = choose|j: int| 0 <= j < keys@.len() && keys@[j] == q;
            }
            assert(self@ =~= release_owner_map(m0, owner));
        }
    }

    /// The first lock held on the query's inode that conflicts with it, if any.
    pub fn would_conflict(&self, lock: &FileLock) -> (r: Option<&FileLock>)
        requires
            self.wf(),
        ensures
            match r {
                Some(l) => exists|i: int| 0 <= i < self.locks_of(lock.inode).len() && self.locks_of(lock.inode)[i] == *l
                    && spec_conflicts(*lock, *l) && forall|j: int| 0 <= j < i ==> !spec_conflicts(*lock, #[trigger] self.locks_of(lock.inode)[j]),
                None => forall|i: int| 0 <= i < self.locks_of(lock.inode).len() ==> !spec_conflicts(
                    *lock,
                    #[trigger] self.locks_of(lock.inode)[i],
                ),
            },
    {
        match self.locks.get(&lock.inode) {
            Some(v) => {
                let mut i: usize = 0;
                while i < v.len()
                    invariant
                        v@ == self.locks_of(lock.inode),
                        i <= v@.len(),
                        forall|j: int| 0 <= j < i ==> !spec_conflicts(*lock, #[trigger] v@[j]),
                    decreases v@.len() - i,
                {
                    if lock.conflicts_with(&v[i]) {
                        return Some(&v[i]);
                    }
                    i = i + 1;
                }
                None
            },
            None => None,
        }
    }

    /// All locks currently held on `inode`.
    pub fn active_locks(&self, inode: u32) -> (r: Vec<FileLock>)
        ensures
            r@ == self.locks_of(inode),
    {
        match self.locks.get(&inode) {
            Some(v) => v.clone(),
            None => Vec::new(),
        }
    }
}

/// Key `k` is among the first `i` keys.
pub open spec fn done_key(keys: Seq<u32>, i: int, k: u32) -> bool {
    exists|j: int| 0 <= j < i && keys[j] == k
}

/// The lock has exactly this range and owner.
pub open spec fn matches_lock(l: FileLock, offset: u64, length: u64, owner: u64) -> bool {
    l.offset == offset && l.length == length && l.owner == owner
}

/// Position of the first lock with this range and owner.
pub open spec fn first_match(s: Seq<FileLock>, offset: u64, length: u64, owner: u64) -> int {
    choose|i: int| 0 <= i < s.len() && matches_lock(s[i], offset, length, owner) && forall|j: int|
        0 <= j < i ==> !matches_lock(#[trigger] s[j], offset, length, owner)
}

proof fn lemma_first_match(s: Seq<FileLock>, offset: u64, length: u64, owner: u64, i: int)
    requires
        0 <= i < s.len(),
        matches_lock(s[i], offset, length, owner),
        forall|j: int| 0 <= j < i ==> !matches_lock(#[trigger] s[j], offset, length, owner),
    ensures
        first_match(s, offset, length, owner) == i,
{
    let f = first_match(s, offset, length, owner);
    assert(0 <= f < s.len() && matches_lock(s[f], offset, length, owner) && forall|j: int|
        0 <= j < f ==> !matches_lock(#[trigger] s[j], offset, length, owner));
    if f < i {
        assert(!matches_lock(s[f], offset, length, owner));
    }
    if f > i {
        assert(!matches_lock(s[i], offset, length, owner));
    }
}

} // verus!
