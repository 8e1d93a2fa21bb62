use cfs::lock::{FileLock, FileLockManager, LockType};

#[test]
fn test_lock_shared_shared_no_conflict() {
    let mut mgr = FileLockManager::new();
    mgr.try_lock(FileLock {
        inode: 1,
        offset: 0,
        length: 100,
        lock_type: LockType::Shared,
        owner: 1,
    })
    .unwrap();
    mgr.try_lock(FileLock {
        inode: 1,
        offset: 0,
        length: 100,
        lock_type: LockType::Shared,
        owner: 2,
    })
    .unwrap();
}

#[test]
fn test_lock_shared_exclusive_conflict() {
    let mut mgr = FileLockManager::new();
    mgr.try_lock(FileLock {
        inode: 1,
        offset: 0,
        length: 100,
        lock_type: LockType::Shared,
        owner: 1,
    })
    .unwrap();
    assert!(mgr
        .try_lock(FileLock {
            inode: 1,
            offset: 0,
            length: 100,
            lock_type: LockType::Exclusive,
            owner: 2,
        })
        .is_err());
}

#[test]
fn test_lock_exclusive_shared_conflict() {
    let mut mgr = FileLockManager::new();
    mgr.try_lock(FileLock {
        inode: 1,
        offset: 0,
        length: 100,
        lock_type: LockType::Exclusive,
        owner: 1,
    })
    .unwrap();
    assert!(mgr
        .try_lock(FileLock {
            inode: 1,
            offset: 0,
            length: 100,
            lock_type: LockType::Shared,
            owner: 2,
        })
        .is_err());
}

#[test]
fn test_lock_exclusive_exclusive_conflict() {
    let mut mgr = FileLockManager::new();
    mgr.try_lock(FileLock {
        inode: 1,
        offset: 0,
        length: 100,
        lock_type: LockType::Exclusive,
        owner: 1,
    })
    .unwrap();
    assert!(mgr
        .try_lock(FileLock {
            inode: 1,
            offset: 0,
            length: 100,
            lock_type: LockType::Exclusive,
            owner: 2,
        })
        .is_err());
}

#[test]
fn test_lock_non_overlapping_ok() {
    let mut mgr = FileLockManager::new();
    mgr.try_lock(FileLock {
        inode: 1,
        offset: 0,
        length: 100,
        lock_type: LockType::Exclusive,
        owner: 1,
    })
    .unwrap();
    mgr.try_lock(FileLock {
        inode: 1,
        offset: 100,
        length: 100,
        lock_type: LockType::Exclusive,
        owner: 2,
    })
    .unwrap();
}

#[test]
fn test_lock_partial_overlap_conflict() {
    let mut mgr = FileLockManager::new();
    mgr.try_lock(FileLock {
        inode: 1,
        offset: 0,
        length: 100,
        lock_type: LockType::Exclusive,
        owner: 1,
    })
    .unwrap();
    assert!(mgr
        .try_lock(FileLock {
            inode: 1,
            offset: 50,
            length: 100,
            lock_type: LockType::Exclusive,
            owner: 2,
        })
        .is_err());
}

#[test]
fn test_lock_full_file_range() {
    let mut mgr = FileLockManager::new();
    mgr.try_lock(FileLock {
        inode: 1,
        offset: 0,
        length: 0, // whole file
        lock_type: LockType::Exclusive,
        owner: 1,
    })
    .unwrap();
    assert!(mgr
        .try_lock(FileLock {
            inode: 1,
            offset: 500,
            length: 10,
            lock_type: LockType::Shared,
            owner: 2,
        })
        .is_err());
}

#[test]
fn test_lock_same_owner_no_conflict() {
    let mut mgr = FileLockManager::new();
    mgr.try_lock(FileLock {
        inode: 1,
        offset: 0,
        length: 100,
        lock_type: LockType::Exclusive,
        owner: 1,
    })
    .unwrap();
    // Same owner, overlapping → no conflict
    mgr.try_lock(FileLock {
        inode: 1,
        offset: 50,
        length: 100,
        lock_type: LockType::Shared,
        owner: 1,
    })
    .unwrap();
}

#[test]
fn test_lock_unlock() {
    let mut mgr = FileLockManager::new();
    mgr.try_lock(FileLock {
        inode: 1,
        offset: 0,
        length: 100,
        lock_type: LockType::Exclusive,
        owner: 1,
    })
    .unwrap();
    mgr.unlock(1, 0, 100, 1).unwrap();
    // Now another owner can lock the same range
    mgr.try_lock(FileLock {
        inode: 1,
        offset: 0,
        length: 100,
        lock_type: LockType::Exclusive,
        owner: 2,
    })
    .unwrap();
}

#[test]
fn test_lock_release_all_inode() {
    let mut mgr = FileLockManager::new();
    mgr.try_lock(FileLock {
        inode: 1,
        offset: 0,
        length: 100,
        lock_type: LockType::Exclusive,
        owner: 1,
    })
    .unwrap();
    mgr.try_lock(FileLock {
        inode: 1,
        offset: 200,
        length: 50,
        lock_type: LockType::Shared,
        owner: 1,
    })
    .unwrap();
    mgr.release_all(1, 1);
    assert!(mgr.active_locks(1).is_empty());
}

#[test]
fn test_lock_release_all_for_owner() {
    let mut mgr = FileLockManager::new();
    mgr.try_lock(FileLock {
        inode: 1,
        offset: 0,
        length: 100,
        lock_type: LockType::Exclusive,
        owner: 1,
    })
    .unwrap();
    mgr.try_lock(FileLock {
        inode: 2,
        offset: 0,
        length: 50,
        lock_type: LockType::Shared,
        owner: 1,
    })
    .unwrap();
    mgr.try_lock(FileLock {
        inode: 1,
        offset: 200,
        length: 10,
        lock_type: LockType::Shared,
        owner: 2,
    })
    .unwrap();
    mgr.release_all_for_owner(1);
    assert!(mgr.active_locks(1).len() == 1); // owner 2's lock remains
    assert!(mgr.active_locks(2).is_empty());
}

#[test]
fn test_lock_would_conflict() {
    let mut mgr = FileLockManager::new();
    mgr.try_lock(FileLock {
        inode: 1,
        offset: 0,
        length: 100,
        lock_type: LockType::Exclusive,
        owner: 1,
    })
    .unwrap();
    let query = FileLock {
        inode: 1,
        offset: 50,
        length: 10,
        lock_type: LockType::Shared,
        owner: 2,
    };
    assert!(mgr.would_conflict(&query).is_some());
}

#[test]
fn test_lock_different_inodes() {
    let mut mgr = FileLockManager::new();
    mgr.try_lock(FileLock {
        inode: 1,
        offset: 0,
        length: 100,
        lock_type: LockType::Exclusive,
        owner: 1,
    })
    .unwrap();
    mgr.try_lock(FileLock {
        inode: 2,
        offset: 0,
        length: 100,
        lock_type: LockType::Exclusive,
        owner: 2,
    })
    .unwrap();
}

#[test]
fn test_lock_mixed_ranges() {
    let mut mgr = FileLockManager::new();
    mgr.try_lock(FileLock {
        inode: 1,
        offset: 0,
        length: 100,
        lock_type: LockType::Exclusive,
        owner: 1,
    })
    .unwrap();
    mgr.try_lock(FileLock {
        inode: 1,
        offset: 100,
        length: 100,
        lock_type: LockType::Exclusive,
        owner: 2,
    })
    .unwrap();
    mgr.try_lock(FileLock {
        inode: 1,
        offset: 200,
        length: 50,
        lock_type: LockType::Shared,
        owner: 3,
    })
    .unwrap();
    assert_eq!(mgr.active_locks(1).len(), 3);
}
