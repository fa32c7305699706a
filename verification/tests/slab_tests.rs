use basealloc::arena::{Arena, ArenaError};
use basealloc::bin::BinError;
use basealloc::bump::Bump;
use basealloc::classes::{class_at, class_for, pages_for, SizeClassIndex, SlabSize, QUANTUM};
use basealloc::extent::Extent;
use basealloc::lookup::{ArenaId, ArenaMap, ExtentTree, LookupError, OwnerInfo};
use basealloc::rtree::RTreeError;
use basealloc::slab::{Slab, SlabError};
use basealloc::system::{MemSlice, SysError, SysOption, SysResult, System};
use basealloc::CHUNK_SIZE;
use std::cell::Cell;

/// A host that hands out consecutive page-aligned ranges and counts what it is asked.
struct Host {
    next: Cell<usize>,
    mapped: Cell<usize>,
    released: Cell<usize>,
    committed: Cell<usize>,
    reclaimed: Cell<usize>,
    budget: Cell<usize>,
}

impl Host {
    fn new() -> Self {
        Host {
            next: Cell::new(0x1000_0000),
            mapped: Cell::new(0),
            released: Cell::new(0),
            committed: Cell::new(0),
            reclaimed: Cell::new(0),
            budget: Cell::new(usize::MAX),
        }
    }
}

impl System for Host {
    fn allocate(&self, size: usize, _options: SysOption) -> SysResult<MemSlice> {
        if size % 4096 != 0 {
            return Err(SysError::InvalidArgument);
        }
        if self.budget.get() == 0 {
            return Err(SysError::OutOfMemory);
        }
        self.budget.set(self.budget.get() - 1);
        let base = self.next.get();
        self.next.set(base + size + 4096);
        self.mapped.set(self.mapped.get() + 1);
        Ok(MemSlice { base, len: size })
    }

    fn modify(&self, _slice: MemSlice, options: SysOption) -> SysResult<()> {
        match options {
            SysOption::Reclaim => self.reclaimed.set(self.reclaimed.get() + 1),
            _ => self.committed.set(self.committed.get() + 1),
        }
        Ok(())
    }

    fn dealloc(&self, _slice: MemSlice) -> SysResult<()> {
        self.released.set(self.released.get() + 1);
        Ok(())
    }
}

fn fresh_slab(host: &Host, etree: &mut ExtentTree, amap: &mut ArenaMap) -> Slab {
    let mut bump = Bump::new(CHUNK_SIZE);
    let class_idx = class_for(QUANTUM).unwrap();
    let class = class_at(class_idx);
    let SlabSize(slab_size) = pages_for(class_idx);
    Slab::new(&mut bump, host, class, slab_size, ArenaId(5), etree, amap, 0).expect("create slab")
}

#[test]
fn allocate_deallocate_reuse() {
    let host = Host::new();
    let mut etree = ExtentTree::new(CHUNK_SIZE);
    let mut amap = ArenaMap::new(CHUNK_SIZE);
    let mut slab = fresh_slab(&host, &mut etree, &mut amap);

    let p = slab.allocate(&host).expect("alloc");
    let range = *slab.extent().as_ref();
    assert!(range.as_ptr() <= p && p < range.as_ptr() + range.len());

    slab.deallocate(p).expect("dealloc");
    let again = slab.allocate(&host).expect("alloc2");
    assert_eq!(p, again);
}

#[test]
fn allocate_exhaustion_and_reuse() {
    let host = Host::new();
    let mut etree = ExtentTree::new(CHUNK_SIZE);
    let mut amap = ArenaMap::new(CHUNK_SIZE);
    let mut slab = fresh_slab(&host, &mut etree, &mut amap);
    let class = slab.class();
    let slab_size = slab.extent().size();

    let mut slots = Vec::new();
    let regions = slab_size / class.0;
    for _ in 0..regions {
        slots.push(slab.allocate(&host).expect("alloc"));
    }

    match slab.allocate(&host) {
        Err(SlabError::OutOfMemory) => {}
        other => panic!("expected OutOfMemory, got {:?}", other),
    }

    slab.deallocate(slots[regions - 1]).expect("dealloc");
    let p = slab.allocate(&host).expect("alloc after free");
    let range = *slab.extent().as_ref();
    assert!(range.as_ptr() <= p && p < range.as_ptr() + range.len());
    assert_eq!(p, slots[regions - 1]);
}

#[test]
fn slab_serves_its_capacity_and_no_more() {
    let host = Host::new();
    let mut etree = ExtentTree::new(CHUNK_SIZE);
    let mut amap = ArenaMap::new(CHUNK_SIZE);
    let mut slab = fresh_slab(&host, &mut etree, &mut amap);
    assert!(slab.is_empty());
    let base = slab.extent().as_ref().as_ptr();
    for i in 0..256 {
        assert_eq!(slab.allocate(&host), Ok(base + i * 16));
    }
    assert_eq!(slab.allocate(&host), Err(SlabError::OutOfMemory));
    assert_eq!(slab.allocate(&host), Err(SlabError::OutOfMemory));
    assert!(!slab.is_empty());
    // the extent was committed once, on the first request
    assert_eq!(host.committed.get(), 1);
}

#[test]
fn slab_cursor_rotates_to_the_freed_region() {
    let host = Host::new();
    let mut etree = ExtentTree::new(CHUNK_SIZE);
    let mut amap = ArenaMap::new(CHUNK_SIZE);
    let mut slab = fresh_slab(&host, &mut etree, &mut amap);
    let a = slab.allocate(&host).unwrap();
    let b = slab.allocate(&host).unwrap();
    let c = slab.allocate(&host).unwrap();
    assert_eq!((b, c), (a + 16, a + 32));
    slab.deallocate(b).unwrap();
    assert_eq!(slab.allocate(&host), Ok(b));
    // the search goes on from the cursor and does not fall back to the start
    slab.deallocate(a).unwrap();
    slab.deallocate(c).unwrap();
    assert_eq!(slab.allocate(&host), Ok(c));
    assert_eq!(slab.allocate(&host), Ok(c + 16));
}

#[test]
fn slab_refuses_foreign_pointers() {
    let host = Host::new();
    let mut etree = ExtentTree::new(CHUNK_SIZE);
    let mut amap = ArenaMap::new(CHUNK_SIZE);
    let mut slab = fresh_slab(&host, &mut etree, &mut amap);
    let base = slab.extent().as_ref().as_ptr();
    let p = slab.allocate(&host).unwrap();
    assert_eq!(slab.deallocate(base - 1), Err(SlabError::InvalidPointer));
    assert_eq!(slab.deallocate(base + 4096), Err(SlabError::InvalidPointer));
    assert!(!slab.is_empty());
    // a pointer into the middle of a region frees that region
    assert_eq!(slab.deallocate(p + 7), Ok(()));
    assert!(slab.is_empty());
}

#[test]
fn slab_registers_every_page_or_none() {
    let host = Host::new();
    let mut etree = ExtentTree::new(CHUNK_SIZE);
    let mut amap = ArenaMap::new(CHUNK_SIZE);
    let mut bump = Bump::new(CHUNK_SIZE);
    let idx = SizeClassIndex(2);
    let class = class_at(idx);
    let SlabSize(size) = pages_for(idx);
    assert_eq!(size, 3 * 4096);
    let slab = Slab::new(&mut bump, &host, class, size, ArenaId(9), &mut etree, &mut amap, 4).unwrap();
    let base = slab.extent().as_ref().as_ptr();
    for page in 0..3 {
        let at = base + page * 4096 + 100;
        assert_eq!(amap.lookup(at), Some(ArenaId(9)));
        assert_eq!(etree.lookup(at), Some(&OwnerInfo::Slab { slab: 4, size_class: idx }));
    }
    assert_eq!(amap.lookup(base - 1), None);
    assert_eq!(amap.lookup(base + 3 * 4096), None);
    // a page of the next extent is taken in the arena map: nothing of the slab is filed
    let next = host.next.get();
    let blocker = Extent { slice: MemSlice { base: next + 4096, len: 4096 }, link: Default::default(), activated: true };
    amap.associate(&host, &blocker, ArenaId(1)).unwrap();
    let failed = Slab::new(&mut bump, &host, class, size, ArenaId(9), &mut etree, &mut amap, 5);
    assert_eq!(
        failed.err(),
        Some(SlabError::LookupError(LookupError::Tree(RTreeError::AlreadyPresent)))
    );
    assert_eq!(amap.lookup(next), None);
    assert_eq!(etree.lookup(next), None);
    assert_eq!(etree.lookup(next + 2 * 4096), None);
    assert_eq!(amap.lookup(next + 4096), Some(ArenaId(1)));
}

#[test]
fn test_arena_creation() {
    let host = Host::new();
    let mut amap = ArenaMap::new(CHUNK_SIZE);
    let arena = Arena::new(&host, ArenaId(0), CHUNK_SIZE).expect("Failed to create arena");
    assert_eq!(arena.index(), ArenaId(0));
    assert_eq!(arena.slab_count(), 0);
    arena.release(&host, &mut amap);
    assert_eq!(host.released.get(), 1);
}

#[test]
fn arena_exhaustion_and_recovery() {
    let host = Host::new();
    let mut amap = ArenaMap::new(CHUNK_SIZE);
    let mut arena = Arena::new(&host, ArenaId(3), CHUNK_SIZE).unwrap();
    let sc = class_for(QUANTUM).unwrap();
    let cap = pages_for(sc).0 / QUANTUM;
    let mut got = Vec::new();
    for _ in 0..cap {
        got.push(arena.allocate(&host, &mut amap, sc).unwrap());
    }
    assert_eq!(arena.slab_count(), 1);
    // the next request forces a second slab
    let extra = arena.allocate(&host, &mut amap, sc).unwrap();
    assert_eq!(arena.slab_count(), 2);
    assert!(!got.contains(&extra));
    assert!(arena.owns(extra));
    assert_eq!(amap.lookup(extra), Some(ArenaId(3)));
    // a freed region of the first slab is taken back; the newest slab serves the next request
    arena.deallocate(&host, &mut amap, got[10]).unwrap();
    let again = arena.allocate(&host, &mut amap, sc).unwrap();
    assert_eq!(again, extra + QUANTUM);
    assert_eq!(arena.slab_count(), 2);
    // all pointers are distinct and aligned to the quantum
    got.push(extra);
    got.push(again);
    let mut sorted = got.clone();
    sorted.sort();
    sorted.dedup();
    assert_eq!(sorted.len(), got.len());
    for p in &got {
        assert_eq!(p % QUANTUM, 0);
    }
}

#[test]
fn arena_retires_an_empty_slab_and_uses_it_again() {
    let host = Host::new();
    let mut amap = ArenaMap::new(CHUNK_SIZE);
    let mut arena = Arena::new(&host, ArenaId(0), CHUNK_SIZE).unwrap();
    let sc = SizeClassIndex(63);
    let a = arena.allocate(&host, &mut amap, sc).unwrap();
    let b = arena.allocate(&host, &mut amap, sc).unwrap();
    assert_eq!(b, a + 1024);
    arena.deallocate(&host, &mut amap, a).unwrap();
    assert_eq!(host.reclaimed.get(), 0);
    arena.deallocate(&host, &mut amap, b).unwrap();
    // the slab is empty: its pages went back to the host, and it stays filed
    assert_eq!(host.reclaimed.get(), 1);
    assert!(arena.owns(a));
    assert!(arena.owns(b));
    assert_eq!(amap.lookup(a), Some(ArenaId(0)));
    // the retired slab serves the next request, without a new extent
    let mapped = host.mapped.get();
    let c = arena.allocate(&host, &mut amap, sc).unwrap();
    assert_eq!(c, b);
    // a region of the slab that is used again resolves
    assert_eq!(arena.owner_of(c), Some(OwnerInfo::Slab { slab: 0, size_class: sc }));
    assert_eq!(arena.slab_count(), 1);
    assert_eq!(host.mapped.get(), mapped);
}

#[test]
fn arena_large_allocations() {
    let host = Host::new();
    let mut amap = ArenaMap::new(CHUNK_SIZE);
    let mut arena = Arena::new(&host, ArenaId(7), CHUNK_SIZE).unwrap();
    let layout = basealloc::layout::Layout::from_size_align(3 * 1024 * 1024 + 5, 8).unwrap();
    let p = arena.allocate_large(&host, &mut amap, layout).unwrap();
    assert_eq!(p % 4096, 0);
    let len = 3 * 1024 * 1024 + 4096;
    let extent = Extent { slice: MemSlice { base: p, len }, link: Default::default(), activated: true };
    assert_eq!(arena.owner_of(p + len - 1), Some(OwnerInfo::Extent { extent }));
    assert_eq!(arena.owner_of(p + len), None);
    assert_eq!(amap.lookup(p + 12345), Some(ArenaId(7)));
    let released = host.released.get();
    assert_eq!(arena.deallocate(&host, &mut amap, p + 5000), Ok(()));
    assert_eq!(host.released.get(), released + 1);
    assert_eq!(amap.lookup(p), None);
    assert!(!arena.owns(p));
    // a host that refuses leaves both maps as they were
    host.budget.set(0);
    let refused = arena.allocate_large(&host, &mut amap, layout);
    assert!(matches!(refused, Err(ArenaError::ExtentError(_))));
    let small = class_for(100).unwrap();
    host.budget.set(0);
    assert!(matches!(
        arena.allocate(&host, &mut amap, small),
        Err(ArenaError::BinError(BinError::SlabError(SlabError::ExtentError(_))))
    ));
}

#[test]
fn arena_release_takes_its_large_extents_out_of_the_map() {
    let host = Host::new();
    let mut amap = ArenaMap::new(CHUNK_SIZE);
    let mut arena = Arena::new(&host, ArenaId(5), CHUNK_SIZE).unwrap();
    let layout = basealloc::layout::Layout::from_size_align(3 * 1024 * 1024, 8).unwrap();
    let kept = arena.allocate_large(&host, &mut amap, layout).unwrap();
    let gone = arena.allocate_large(&host, &mut amap, layout).unwrap();
    let small = arena.allocate(&host, &mut amap, SizeClassIndex(0)).unwrap();
    assert_eq!(arena.deallocate(&host, &mut amap, gone), Ok(()));
    assert_eq!(amap.lookup(kept), Some(ArenaId(5)));
    assert_eq!(amap.lookup(gone), None);
    let released = host.released.get();
    arena.release(&host, &mut amap);
    assert_eq!(amap.lookup(kept), None);
    assert_eq!(amap.lookup(kept + 3 * 1024 * 1024 - 1), None);
    assert_eq!(amap.lookup(small), None);
    // the slab, the large extent that was left, the nodes of the extent tree and the metadata
    assert!(host.released.get() >= released + 4);
}

#[test]
fn arena_release_takes_its_slabs_out_of_the_map() {
    let host = Host::new();
    let mut amap = ArenaMap::new(CHUNK_SIZE);
    let mut arena = Arena::new(&host, ArenaId(2), CHUNK_SIZE).unwrap();
    let a = arena.allocate(&host, &mut amap, SizeClassIndex(0)).unwrap();
    let b = arena.allocate(&host, &mut amap, SizeClassIndex(70)).unwrap();
    assert_eq!(amap.lookup(a), Some(ArenaId(2)));
    assert_eq!(amap.lookup(b), Some(ArenaId(2)));
    let released = host.released.get();
    arena.release(&host, &mut amap);
    assert_eq!(amap.lookup(a), None);
    assert_eq!(amap.lookup(b), None);
    // two slab extents, the nodes of the extent tree and the chunk of metadata went back
    assert_eq!(host.released.get(), released + 4);
}
