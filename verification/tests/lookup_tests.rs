use basealloc::arena::{Arena, ArenaError};
use basealloc::bin::BinError;
use basealloc::bump::{Bump, ChunkError};
use basealloc::classes::{class_at, SizeClassIndex, total_cache_size};
use basealloc::extent::{Extent, ExtentError};
use basealloc::lookup::{
    extent_range, register_entries, unregister_entries, ArenaId, ArenaMap, ExtentTree, LookupError,
    LookupRange, LookupResult, OwnerInfo,
};
use basealloc::prim::PrimError;
use basealloc::rtree::{RTree, RTreeError};
use basealloc::slab::{Slab, SlabError};
use basealloc::static_::Static;
use basealloc::system::{MemSlice, SysError, SysOption, SysResult, System, UnsupportedSystem};
use basealloc::tcache::{TCache, TCacheError};
use basealloc::CHUNK_SIZE;
use std::cell::Cell;

/// A host that hands out consecutive page-aligned ranges and counts what it is asked.
struct Host {
    next: Cell<usize>,
    mapped: Cell<usize>,
    released: Cell<usize>,
    budget: Cell<usize>,
    refuse_modify: Cell<bool>,
}

impl Host {
    fn new() -> Self {
        Host {
            next: Cell::new(0x1000_0000),
            mapped: Cell::new(0),
            released: Cell::new(0),
            budget: Cell::new(usize::MAX),
            refuse_modify: Cell::new(false),
        }
    }
}

impl System for Host {
    fn allocate(&self, size: usize, _options: SysOption) -> SysResult<MemSlice> {
        if size % 4096 != 0 {
            return Err(SysError::InvalidArgument);
        }
        if self.budget.get() == 0 {
            return Err(SysError::OutOfMemory);
        }
        self.budget.set(self.budget.get() - 1);
        let base = self.next.get();
        self.next.set(base + size + 4096);
        self.mapped.set(self.mapped.get() + 1);
        Ok(MemSlice { base, len: size })
    }

    fn modify(&self, _slice: MemSlice, _options: SysOption) -> SysResult<()> {
        if self.refuse_modify.get() {
            return Err(SysError::InvalidArgument);
        }
        Ok(())
    }

    fn dealloc(&self, _slice: MemSlice) -> SysResult<()> {
        self.released.set(self.released.get() + 1);
        Ok(())
    }
}

fn extent_at(base: usize, len: usize) -> Extent {
    Extent { slice: MemSlice { base, len }, link: Default::default(), activated: true }
}

#[test]
fn arena_map_files_every_page_of_an_extent() {
    let host = Host::new();
    let mut map = ArenaMap::new(CHUNK_SIZE);
    // the extent starts and ends inside a page
    let extent = extent_at(0x5000_0100, 3 * 4096);
    assert_eq!(map.associate(&host, &extent, ArenaId(3)), Ok(()));
    assert_eq!(map.lookup(0x5000_0000), Some(ArenaId(3)));
    assert_eq!(map.lookup(0x5000_0100), Some(ArenaId(3)));
    assert_eq!(map.lookup(0x5000_0100 + 3 * 4096 - 1), Some(ArenaId(3)));
    assert_eq!(map.lookup(0x5000_3fff), Some(ArenaId(3)));
    assert_eq!(map.lookup(0x5000_4000), None);
    assert_eq!(map.lookup(0x4fff_ffff), None);
    assert_eq!(map.detach(&extent), Ok(()));
    assert_eq!(map.lookup(0x5000_0100), None);
    assert_eq!(map.detach(&extent), Err(LookupError::NotFound));
    assert!(!map.tree().has_nodes());
    // an empty extent touches no page
    assert_eq!(map.associate(&host, &extent_at(0x7000_0000, 0), ArenaId(1)), Ok(()));
    assert_eq!(map.lookup(0x7000_0000), None);
    assert_eq!(map.detach(&extent_at(0x7000_0000, 0)), Ok(()));
}

#[test]
fn registration_rolls_back_on_a_taken_page() {
    let host = Host::new();
    let mut tree = ExtentTree::new(CHUNK_SIZE);
    let taken = extent_at(0x6000_2000, 4096);
    let info = OwnerInfo::new_extent(taken);
    assert_eq!(tree.register(&host, &taken, info), Ok(()));
    let wide = extent_at(0x6000_0000, 4 * 4096);
    let other = OwnerInfo::new_slab(7, SizeClassIndex(2));
    assert_eq!(
        tree.register(&host, &wide, other),
        Err(LookupError::Tree(RTreeError::AlreadyPresent))
    );
    assert_eq!(tree.lookup(0x6000_0000), None);
    assert_eq!(tree.lookup(0x6000_1000), None);
    assert_eq!(tree.lookup(0x6000_2000), Some(&info));
    assert_eq!(tree.lookup(0x6000_3000), None);
    // taking out a range takes out the pages of it that are filed
    assert_eq!(tree.unregister(&wide), Ok(()));
    assert_eq!(tree.lookup(0x6000_2000), None);
    assert_eq!(tree.unregister(&wide), Err(LookupError::NotFound));
    let result = LookupResult::new(ArenaId(2), other);
    assert_eq!(result.arena_id, ArenaId(2));
    assert_eq!(result.owner_info, OwnerInfo::Slab { slab: 7, size_class: SizeClassIndex(2) });
}

#[test]
fn ranges_at_the_end_of_the_address_space() {
    let host = Host::new();
    let mut map = ArenaMap::new(CHUNK_SIZE);
    let wraps = extent_at(usize::MAX - 10, 100);
    assert_eq!(extent_range(&wraps), Err(LookupError::RangeOverflow));
    assert_eq!(map.associate(&host, &wraps, ArenaId(0)), Err(LookupError::RangeOverflow));
    let last_page = extent_at(usize::MAX - 4095, 100);
    assert_eq!(extent_range(&last_page), Err(LookupError::Align(PrimError::Overflow)));
    assert_eq!(map.detach(&last_page), Err(LookupError::Align(PrimError::Overflow)));
    let inner = extent_at(0x9000_0010, 4096);
    assert_eq!(
        extent_range(&inner),
        Ok(Some(LookupRange { start: 0x9000_0000, end: 0x9000_2000, step: 4096 }))
    );
    assert_eq!(extent_range(&extent_at(0x9000_0010, 0)), Ok(None));
    let range = LookupRange { start: 0x9000_0000, end: 0x9000_2000, step: 4096 };
    assert_eq!(range.next_addr(0x9000_0000), Ok(0x9000_1000));
    assert_eq!(range.next_addr(usize::MAX - 10), Err(LookupError::RangeOverflow));
    let mut tree: RTree<u8, 512> = RTree::new(CHUNK_SIZE);
    assert_eq!(register_entries(&mut tree, &host, &range, 9u8), Ok(()));
    assert_eq!(tree.lookup(0x9000_1000), Some(&9));
    assert_eq!(unregister_entries(&mut tree, &range), Ok(()));
    assert_eq!(unregister_entries(&mut tree, &range), Err(LookupError::NotFound));
}

#[test]
fn errors_of_the_host_come_through() {
    let none = UnsupportedSystem {};
    let refused = ExtentError::SystemError(SysError::Unsupported);
    assert_eq!(
        Arena::new(&none, ArenaId(0), CHUNK_SIZE).err(),
        Some(ArenaError::BumpError(ChunkError::ExtentError(refused)))
    );
    assert_eq!(TCache::new(&none, total_cache_size()).err(), Some(TCacheError::ExtentError(refused)));
    let host = Host::new();
    assert_eq!(
        TCache::new(&host, usize::MAX).err(),
        Some(TCacheError::PrimError(PrimError::Overflow))
    );
    assert_eq!(
        Extent::new(&host, 123, SysOption::Commit),
        Err(ExtentError::SystemError(SysError::InvalidArgument))
    );
    let mut bump = Bump::new(CHUNK_SIZE);
    let mut etree = ExtentTree::new(CHUNK_SIZE);
    let mut map = ArenaMap::new(CHUNK_SIZE);
    let class = class_at(SizeClassIndex(0));
    assert_eq!(
        Slab::new(&mut bump, &none, class, 4096, ArenaId(0), &mut etree, &mut map, 0).err(),
        Some(SlabError::BumpError(ChunkError::ExtentError(refused)))
    );
    assert_eq!(
        Slab::new(&mut bump, &host, class, 0, ArenaId(0), &mut etree, &mut map, 0).err(),
        Some(SlabError::OutOfMemory)
    );
    // a directory without the arena that is asked for
    let mut dir = Static::new(vec![0u64; 4]);
    assert_eq!(
        dir.allocate_in(&host, ArenaId(5), SizeClassIndex(0)),
        Err(ArenaError::LookupError(LookupError::InvalidArena))
    );
    assert_eq!(
        dir.deallocate_in(&host, ArenaId(999), 0x1000),
        Err(ArenaError::LookupError(LookupError::InvalidArena))
    );
    assert_eq!(dir.deallocate_at(&host, 0x1000), Err(ArenaError::LookupError(LookupError::NotFound)));
    // the cache reports what the arena reports
    let id = dir.acquire_arena(&host).unwrap();
    let mut cache = TCache::new(&host, total_cache_size()).unwrap();
    host.budget.set(0);
    assert!(matches!(
        cache.allocate(&mut dir, &host, id, SizeClassIndex(5)),
        Err(TCacheError::ArenaError(ArenaError::BinError(BinError::SlabError(SlabError::ExtentError(_)))))
    ));
}

#[test]
fn slab_with_a_tail_refuses_pointers_into_it() {
    let host = Host::new();
    let mut bump = Bump::new(CHUNK_SIZE);
    let mut etree = ExtentTree::new(CHUNK_SIZE);
    let mut map = ArenaMap::new(CHUNK_SIZE);
    // regions of 48 bytes in one page: 85 regions and a tail of 16 bytes
    let class = class_at(SizeClassIndex(2));
    let mut slab = Slab::new(&mut bump, &host, class, 4096, ArenaId(0), &mut etree, &mut map, 0).unwrap();
    let base = slab.extent().as_ref().as_ptr();
    for i in 0..85 {
        assert_eq!(slab.allocate(&host), Ok(base + i * 48));
    }
    assert_eq!(slab.allocate(&host), Err(SlabError::OutOfMemory));
    assert!(matches!(slab.deallocate(base + 85 * 48 + 3), Err(SlabError::BitmapError(_))));
    assert_eq!(slab.deallocate(base + 84 * 48 + 47), Ok(()));
    assert_eq!(slab.allocate(&host), Ok(base + 84 * 48));
}

#[test]
fn retiring_a_slab_reports_a_host_that_keeps_the_pages() {
    let host = Host::new();
    let mut map = ArenaMap::new(CHUNK_SIZE);
    let mut arena = Arena::new(&host, ArenaId(1), CHUNK_SIZE).unwrap();
    let p = arena.allocate(&host, &mut map, SizeClassIndex(63)).unwrap();
    host.refuse_modify.set(true);
    assert_eq!(
        arena.deallocate(&host, &mut map, p),
        Err(ArenaError::BinError(BinError::ExtentError(ExtentError::SystemError(
            SysError::InvalidArgument
        ))))
    );
    // a slab that cannot be committed serves nothing
    let q = arena.allocate(&host, &mut map, SizeClassIndex(10));
    assert!(matches!(
        q,
        Err(ArenaError::BinError(BinError::SlabError(SlabError::ExtentError(_))))
    ));
}
