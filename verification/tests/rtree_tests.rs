use basealloc::rtree::{RTree, RTreeError};
use basealloc::bump::ChunkError;
use basealloc::extent::ExtentError;
use basealloc::system::{MemSlice, SysError, SysOption, SysResult, System, UnsupportedSystem};
use std::cell::Cell;

/// A host that hands out consecutive page-aligned ranges and counts what it is asked.
struct Host {
    next: Cell<usize>,
    mapped: Cell<usize>,
    released: Cell<usize>,
    committed: Cell<usize>,
    reclaimed: Cell<usize>,
    budget: Cell<usize>,
}

impl Host {
    fn new() -> Self {
        Host {
            next: Cell::new(0x1000_0000),
            mapped: Cell::new(0),
            released: Cell::new(0),
            committed: Cell::new(0),
            reclaimed: Cell::new(0),
            budget: Cell::new(usize::MAX),
        }
    }
}

impl System for Host {
    fn allocate(&self, size: usize, _options: SysOption) -> SysResult<MemSlice> {
        if size % 4096 != 0 {
            return Err(SysError::InvalidArgument);
        }
        if self.budget.get() == 0 {
            return Err(SysError::OutOfMemory);
        }
        self.budget.set(self.budget.get() - 1);
        let base = self.next.get();
        self.next.set(base + size + 4096);
        self.mapped.set(self.mapped.get() + 1);
        Ok(MemSlice { base, len: size })
    }

    fn modify(&self, _slice: MemSlice, options: SysOption) -> SysResult<()> {
        match options {
            SysOption::Reclaim => self.reclaimed.set(self.reclaimed.get() + 1),
            _ => self.committed.set(self.committed.get() + 1),
        }
        Ok(())
    }

    fn dealloc(&self, _slice: MemSlice) -> SysResult<()> {
        self.released.set(self.released.get() + 1);
        Ok(())
    }
}

const CHUNK: usize = 4096;
const FANOUT: usize = 1 << 4;

#[test]
fn insert_and_lookup_round_trip() {
    let host = Host::new();
    let mut tree: RTree<usize, FANOUT> = RTree::new(CHUNK);

    tree.insert(&host, 0x1234, 42).expect("insert should succeed");
    assert_eq!(tree.lookup(0x1234), Some(&42));
    assert_eq!(tree.lookup(0x9999), None);

    let removed = tree.remove(0x1234);
    assert_eq!(removed, Some(42));
}

#[test]
fn duplicate_insert_fails() {
    let host = Host::new();
    let mut tree: RTree<usize, FANOUT> = RTree::new(CHUNK);
    tree.insert(&host, 0xDEAD, 1).expect("first insert succeeds");
    let err = tree.insert(&host, 0xDEAD, 2).expect_err("duplicate should fail");
    assert!(matches!(err, RTreeError::AlreadyPresent));

    let removed = tree.remove(0xDEAD);
    assert_eq!(removed, Some(1));
}

#[test]
fn remove_prunes_empty_path() {
    let host = Host::new();
    let mut tree: RTree<usize, FANOUT> = RTree::new(CHUNK);
    let key = 0xABCD;
    tree.insert(&host, key, 77).expect("insert");
    assert!(tree.has_nodes());
    let removed = tree.remove(key);
    assert_eq!(removed, Some(77));
    assert_eq!(tree.lookup(key), None, "node should be pruned");
    assert!(!tree.has_nodes());
}

#[test]
fn multiple_entries_share_prefix() {
    let host = Host::new();
    let mut tree: RTree<usize, FANOUT> = RTree::new(CHUNK);
    let base = 0x12340000usize;
    let keys = [base, base + 1, base + FANOUT];

    for &key in &keys {
        tree.insert(&host, key, key).expect("insert");
    }

    for key in keys {
        assert_eq!(tree.lookup(key), Some(&key));
        let removed = tree.remove(key);
        assert_eq!(removed, Some(key));
        assert_eq!(tree.lookup(key), None);
    }
    assert!(!tree.has_nodes());
}

#[test]
fn remove_keeps_what_shares_the_path() {
    let host = Host::new();
    let mut tree: RTree<u32, 512> = RTree::new(CHUNK);
    assert_eq!(tree.remove(0x7000), None);
    tree.insert(&host, 0x7000, 1).unwrap();
    tree.insert(&host, 0x8000, 2).unwrap();
    tree.insert(&host, 0x7f00_0000_0000, 3).unwrap();
    assert_eq!(tree.remove(0x7000), Some(1));
    assert_eq!(tree.remove(0x7000), None);
    assert_eq!(tree.lookup(0x8000), Some(&2));
    assert_eq!(tree.lookup(0x7f00_0000_0000), Some(&3));
    assert!(tree.has_nodes());
    assert_eq!(tree.remove(0x8000), Some(2));
    assert_eq!(tree.remove(0x7f00_0000_0000), Some(3));
    assert!(!tree.has_nodes());
}

#[test]
fn insert_reports_the_host_refusal() {
    let mut tree: RTree<u32, 512> = RTree::new(CHUNK);
    let err = tree.insert(&UnsupportedSystem {}, 0x1000, 7).unwrap_err();
    assert_eq!(
        err,
        RTreeError::Bump(ChunkError::ExtentError(ExtentError::SystemError(SysError::Unsupported)))
    );
    assert_eq!(tree.lookup(0x1000), None);
    // a host that runs dry half way leaves nothing behind that a lookup could find
    let host = Host::new();
    host.budget.set(1);
    let mut small: RTree<u32, 512> = RTree::new(0);
    assert!(small.insert(&host, 0x1000, 7).is_err());
    assert_eq!(small.lookup(0x1000), None);
    host.budget.set(usize::MAX);
    assert_eq!(small.insert(&host, 0x1000, 7), Ok(()));
    assert_eq!(small.lookup(0x1000), Some(&7));
}

#[test]
fn lookup_mut_allows_updates() {
    let host = Host::new();
    let mut tree: RTree<usize, FANOUT> = RTree::new(CHUNK);
    let key = 0x5555usize;
    tree.insert(&host, key, 10).expect("insert");

    let value = tree.lookup_mut(key).expect("value should exist");
    *value = 99;

    assert_eq!(tree.lookup(key), Some(&99));
    assert_eq!(tree.remove(key), Some(99));
}

#[test]
fn lookup_mut_of_an_absent_key_is_none() {
    let host = Host::new();
    let mut tree: RTree<usize, FANOUT> = RTree::new(CHUNK);
    assert!(tree.lookup_mut(0x5555).is_none());
    tree.insert(&host, 0x5555, 10).expect("insert");
    assert!(tree.lookup_mut(0x5556).is_none());
    assert_eq!(tree.lookup(0x5555), Some(&10));
}
