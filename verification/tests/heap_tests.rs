use basealloc::cabi::{aligned_alloc, calloc, free, malloc, malloc_usable_size, realloc, Moved};
use basealloc::classes::{class_for, SizeClassIndex, QUANTUM, SCLASS_CUTOFF};
use basealloc::heap::{BaseAlloc, ThreadState, SENTINEL};
use basealloc::layout::Layout;
use basealloc::lookup::ArenaId;
use basealloc::static_::{Entry, Static, FALLBACK_ARENA};
use basealloc::system::{MemSlice, SysError, SysOption, SysResult, System, UnsupportedSystem};
use basealloc::tcache::TCache;
use basealloc::prim::page_size;
use std::cell::Cell;

/// A host that hands out consecutive page-aligned ranges and counts what it is asked.
struct Host {
    next: Cell<usize>,
    mapped: Cell<usize>,
    released: Cell<usize>,
    committed: Cell<usize>,
    reclaimed: Cell<usize>,
    budget: Cell<usize>,
}

impl Host {
    fn new() -> Self {
        Host {
            next: Cell::new(0x1000_0000),
            mapped: Cell::new(0),
            released: Cell::new(0),
            committed: Cell::new(0),
            reclaimed: Cell::new(0),
            budget: Cell::new(usize::MAX),
        }
    }
}

impl System for Host {
    fn allocate(&self, size: usize, _options: SysOption) -> SysResult<MemSlice> {
        if size % 4096 != 0 {
            return Err(SysError::InvalidArgument);
        }
        if self.budget.get() == 0 {
            return Err(SysError::OutOfMemory);
        }
        self.budget.set(self.budget.get() - 1);
        let base = self.next.get();
        self.next.set(base + size + 4096);
        self.mapped.set(self.mapped.get() + 1);
        Ok(MemSlice { base, len: size })
    }

    fn modify(&self, _slice: MemSlice, options: SysOption) -> SysResult<()> {
        match options {
            SysOption::Reclaim => self.reclaimed.set(self.reclaimed.get() + 1),
            _ => self.committed.set(self.committed.get() + 1),
        }
        Ok(())
    }

    fn dealloc(&self, _slice: MemSlice) -> SysResult<()> {
        self.released.set(self.released.get() + 1);
        Ok(())
    }
}

fn new_heap() -> BaseAlloc {
    BaseAlloc::new(vec![0u64; 4])
}

#[test]
fn tiny_round_trip() {
    let host = Host::new();
    let mut heap = new_heap();
    let mut me = ThreadState::new();
    let layout = Layout::from_size_align(8, 8).unwrap();
    let p = heap.allocate(&host, &mut me, layout);
    assert_ne!(p, 0);
    assert_eq!(p % 8, 0);
    assert_eq!(heap.sizeof(p), Some(16));
    heap.deallocate(&host, &mut me, p, layout);
    // the freed region waits behind the regions that the cache holds already
    let mut seen = Vec::new();
    for _ in 0..199 {
        let q = heap.allocate(&host, &mut me, layout);
        assert_ne!(q, p);
        seen.push(q);
    }
    assert_eq!(heap.allocate(&host, &mut me, layout), p);
    seen.sort();
    seen.dedup();
    assert_eq!(seen.len(), 199);
}

#[test]
fn large_path() {
    let host = Host::new();
    let mut heap = new_heap();
    let mut me = ThreadState::new();
    let size = SCLASS_CUTOFF + page_size();
    let layout = Layout::from_size_align(size, 16).unwrap();
    let p = heap.allocate(&host, &mut me, layout);
    assert_ne!(p, 0);
    assert_eq!(p % page_size(), 0);
    match heap.globals().lookup(p + size - 1) {
        Some(Entry::Large(extent)) => {
            assert_eq!(extent.as_ref().as_ptr(), p);
            assert_eq!(extent.size(), size);
        }
        other => panic!("expected a large extent, got {:?}", other),
    }
    assert_eq!(heap.sizeof(p), Some(size));
    heap.deallocate(&host, &mut me, p, layout);
    assert_eq!(heap.globals().lookup(p), None);
    assert_eq!(heap.sizeof(p), None);
}

#[test]
fn cross_thread_free() {
    let host = Host::new();
    let mut heap = new_heap();
    let mut a = ThreadState::new();
    let mut b = ThreadState::new();
    let layout = Layout::from_size_align(40, 8).unwrap();
    let p = heap.allocate(&host, &mut a, layout);
    assert_ne!(p, 0);
    let warm = heap.allocate(&host, &mut b, layout);
    assert_ne!(warm, 0);
    assert_ne!(a.arena(), b.arena());
    let home = heap.globals().owner_of(p);
    assert_eq!(home, a.arena());
    assert_ne!(heap.globals().owner_of(warm), home);
    // B frees what A allocated
    heap.deallocate(&host, &mut b, p, layout);
    let q = heap.allocate(&host, &mut a, layout);
    assert_ne!(q, 0);
    assert_eq!(heap.globals().owner_of(q), home);
    assert_eq!(heap.thread_exit(&host, a), Ok(()));
    assert_eq!(heap.thread_exit(&host, b), Ok(()));
}

#[test]
fn realloc_grows_into_a_new_block() {
    let host = Host::new();
    let mut heap = new_heap();
    let mut me = ThreadState::new();
    let p = malloc(&mut heap, &host, &mut me, 16);
    assert_ne!(p, 0);
    let moved = realloc(&mut heap, &host, &mut me, p, 128);
    assert_ne!(moved.new, 0);
    assert_ne!(moved.new, p);
    assert_eq!(moved.copy, 16);
    assert_eq!(moved.old, p);
    assert_eq!(malloc_usable_size(&heap, moved.new), 128);
    // shrinking copies no more than the new size
    let shrunk = realloc(&mut heap, &host, &mut me, moved.new, 20);
    assert_eq!(shrunk.copy, 20);
    assert_eq!(shrunk.old, moved.new);
    free(&mut heap, &host, &mut me, p);
    free(&mut heap, &host, &mut me, moved.new);
    free(&mut heap, &host, &mut me, shrunk.new);
}

#[test]
fn realloc_edge_cases() {
    let host = Host::new();
    let mut heap = new_heap();
    let mut me = ThreadState::new();
    assert_eq!(realloc(&mut heap, &host, &mut me, 0, 0), Moved { new: SENTINEL, copy: 0, old: 0 });
    let grown = realloc(&mut heap, &host, &mut me, SENTINEL, 24);
    assert_ne!(grown.new, 0);
    assert_eq!((grown.copy, grown.old), (0, 0));
    assert_eq!(
        realloc(&mut heap, &host, &mut me, grown.new, 0),
        Moved { new: SENTINEL, copy: 0, old: 0 }
    );
    // a pointer that the allocator does not know
    assert_eq!(realloc(&mut heap, &host, &mut me, 0x7777_0000, 10), Moved { new: 0, copy: 0, old: 0 });
    assert_eq!(
        realloc(&mut heap, &host, &mut me, grown.new, usize::MAX),
        Moved { new: 0, copy: 0, old: 0 }
    );
}

#[test]
fn sentinel_and_null_are_ignored() {
    let host = Host::new();
    let mut heap = new_heap();
    let mut me = ThreadState::new();
    assert_eq!(BaseAlloc::sentinel(), SENTINEL);
    assert!(BaseAlloc::is_invalid(0));
    assert!(BaseAlloc::is_invalid(SENTINEL));
    assert!(!BaseAlloc::is_invalid(16));
    assert_eq!(malloc(&mut heap, &host, &mut me, 0), SENTINEL);
    for _ in 0..3 {
        free(&mut heap, &host, &mut me, SENTINEL);
        free(&mut heap, &host, &mut me, 0);
        free(&mut heap, &host, &mut me, 0x1234_5678);
    }
    assert_eq!(host.mapped.get(), 0);
    assert!(me.arena().is_none());
    assert_eq!(malloc_usable_size(&heap, 0), 0);
    assert_eq!(malloc_usable_size(&heap, SENTINEL), 0);
    assert_eq!(malloc_usable_size(&heap, 0x1234_5678), 0);
    assert_eq!(aligned_alloc(&mut heap, &host, &mut me, 64, 0), SENTINEL);
    assert_eq!(aligned_alloc(&mut heap, &host, &mut me, 3, 10), 0);
    assert_eq!(malloc(&mut heap, &host, &mut me, usize::MAX), 0);
    assert_eq!(host.mapped.get(), 0);
}

#[test]
fn calloc_checks_the_product() {
    let host = Host::new();
    let mut heap = new_heap();
    let mut me = ThreadState::new();
    assert_eq!(calloc(&mut heap, &host, &mut me, usize::MAX, 2), 0);
    assert_eq!(calloc(&mut heap, &host, &mut me, 0, 8), SENTINEL);
    assert_eq!(calloc(&mut heap, &host, &mut me, 8, 0), SENTINEL);
    assert_eq!(host.mapped.get(), 0);
    let p = calloc(&mut heap, &host, &mut me, 10, 10);
    assert_ne!(p, 0);
    assert_eq!(malloc_usable_size(&heap, p), 112);
    free(&mut heap, &host, &mut me, p);
}

#[test]
fn allocations_do_not_overlap() {
    let host = Host::new();
    let mut heap = new_heap();
    let mut me = ThreadState::new();
    let sizes = [1usize, 16, 17, 48, 100, 1024, 1025, 2048, 5000, 70_000, 2_000_000, 3_000_000];
    let mut blocks: Vec<(usize, usize)> = Vec::new();
    for round in 0..5 {
        for &size in &sizes {
            let p = malloc(&mut heap, &host, &mut me, size + round);
            assert_ne!(p, 0);
            assert_eq!(p % QUANTUM, 0);
            let usable = malloc_usable_size(&heap, p);
            assert!(usable >= size + round);
            blocks.push((p, size + round));
        }
    }
    blocks.sort();
    for pair in blocks.windows(2) {
        assert!(pair[0].0 + pair[0].1 <= pair[1].0, "{:?} overlaps {:?}", pair[0], pair[1]);
    }
    for (p, _) in blocks {
        free(&mut heap, &host, &mut me, p);
    }
}

#[test]
fn allocation_fails_with_null_on_a_host_without_memory() {
    let mut heap = new_heap();
    let mut me = ThreadState::new();
    let none = UnsupportedSystem {};
    assert_eq!(malloc(&mut heap, &none, &mut me, 32), 0);
    assert_eq!(malloc(&mut heap, &none, &mut me, 4_000_000), 0);
    assert_eq!(calloc(&mut heap, &none, &mut me, 4, 4), 0);
}

#[test]
fn directory_hands_out_each_slot_once() {
    let host = Host::new();
    let mut dir = Static::new(vec![0u64; 4]);
    let mut ids = Vec::new();
    for i in 0..256 {
        let id = dir.acquire_arena(&host).unwrap();
        assert_eq!(id, ArenaId(i));
        assert!(dir.has_arena(i));
        ids.push(id);
    }
    assert_eq!(dir.acquire_arena(&host), None);
    assert!(dir.bitmap().is_full());
    // a released slot is found again, and the search goes on behind the slot taken last
    dir.release_arena(&host, ArenaId(17));
    dir.release_arena(&host, ArenaId(4));
    assert!(!dir.has_arena(17));
    assert_eq!(dir.acquire_arena(&host), Some(ArenaId(4)));
    assert_eq!(dir.acquire_arena(&host), Some(ArenaId(17)));
    assert_eq!(dir.acquire_arena(&host), None);
    assert!(dir.ensure_fallback(&host));
    let p = dir.allocate_in(&host, ArenaId(FALLBACK_ARENA), SizeClassIndex(0)).unwrap();
    assert_eq!(dir.owner_of(p), Some(ArenaId(FALLBACK_ARENA)));
    assert!(matches!(dir.lookup(p), Some(Entry::Class(_))));
    assert_eq!(dir.deallocate_at(&host, p), Ok(()));
}

#[test]
fn thread_without_a_slot_uses_the_fallback_arena() {
    let host = Host::new();
    let mut heap = new_heap();
    let mut threads = Vec::new();
    for _ in 0..256 {
        let mut t = ThreadState::new();
        assert_ne!(malloc(&mut heap, &host, &mut t, 64), 0);
        threads.push(t);
    }
    let mut late = ThreadState::new();
    let p = malloc(&mut heap, &host, &mut late, 64);
    assert_ne!(p, 0);
    assert_eq!(late.arena(), None);
    assert_eq!(heap.globals().owner_of(p), Some(ArenaId(FALLBACK_ARENA)));
}

#[test]
fn thread_cache_flushes_half_when_full() {
    let host = Host::new();
    let mut dir = Static::new(vec![0u64; 4]);
    let id = dir.acquire_arena(&host).unwrap();
    let mut cache = TCache::new(&host, basealloc::classes::total_cache_size()).unwrap();
    let sc = class_for(2_000_000).unwrap();
    assert_eq!(sc, SizeClassIndex(107));
    // the ring of the largest class has eight slots
    let first = cache.allocate(&mut dir, &host, id, sc).unwrap();
    let mut held = vec![first];
    for _ in 0..7 {
        held.push(cache.allocate(&mut dir, &host, id, sc).unwrap());
    }
    // the cache is empty now; every region is still live in the arena
    let reclaimed = host.reclaimed.get();
    for p in &held {
        cache.deallocate(&mut dir, &host, *p, sc).unwrap();
    }
    assert_eq!(host.reclaimed.get(), reclaimed);
    // the ring is full: the next free hands the four oldest regions to the arena
    let extra = dir.allocate_in(&host, id, sc).unwrap();
    cache.deallocate(&mut dir, &host, extra, sc).unwrap();
    assert_eq!(host.reclaimed.get(), reclaimed + 4);
    // the cache hands out the regions that stayed, oldest first
    for p in &held[4..] {
        assert_eq!(cache.allocate(&mut dir, &host, id, sc), Ok(*p));
    }
    assert_eq!(cache.allocate(&mut dir, &host, id, sc), Ok(extra));
    cache.flush_all(&mut dir, &host).unwrap();
    cache.release(&host);
}

#[test]
fn a_region_freed_into_an_empty_ring_is_served_next() {
    let host = Host::new();
    let mut heap = new_heap();
    let mut me = ThreadState::new();
    let layout = Layout::from_size_align(8, 8).unwrap();
    let mut held = Vec::new();
    for _ in 0..200 {
        let q = heap.allocate(&host, &mut me, layout);
        assert_ne!(q, 0);
        held.push(q);
    }
    // the ring took two hundred regions at the first miss and has served them all
    let p = held[17];
    heap.deallocate(&host, &mut me, p, layout);
    assert_eq!(heap.allocate(&host, &mut me, layout), p);
}

#[test]
fn regions_in_hand_stay_apart_while_others_come_and_go() {
    let host = Host::new();
    let mut heap = new_heap();
    let mut me = ThreadState::new();
    let layout = Layout::from_size_align(48, 8).unwrap();
    let mut held: Vec<usize> = Vec::new();
    for round in 0..600usize {
        let p = heap.allocate(&host, &mut me, layout);
        assert_ne!(p, 0);
        assert_eq!(p % QUANTUM, 0);
        for q in held.iter() {
            assert!(p + 48 <= *q || *q + 48 <= p);
        }
        held.push(p);
        if round % 3 == 2 {
            let gone = held.remove(round % held.len());
            heap.deallocate(&host, &mut me, gone, layout);
        }
    }
    assert_eq!(held.len(), 400);
}
