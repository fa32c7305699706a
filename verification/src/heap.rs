use vstd::prelude::*;
use crate::classes::{class_for, total_cache_size, SizeClassIndex, NSCLASSES};
use crate::layout::Layout;
use crate::lookup::ArenaId;
use crate::static_::{Entry, Static, FALLBACK_ARENA};
use crate::system::System;
use crate::tcache::TCache;

verus! {

/// The address returned for requests of no bytes: not null, and never
/// the address of a block.
pub const SENTINEL: usize = 1;

/// What a thread keeps between calls: its cache, once it has one, and
/// the arena it prefers, once it has taken one.
pub struct ThreadState {
    tcache: Option<TCache>,
    arena: Option<ArenaId>,
}

impl ThreadState {
    pub closed spec fn spec_tcache(&self) -> Option<TCache> {
        self.tcache
    }

    pub closed spec fn spec_arena(&self) -> Option<ArenaId> {
        self.arena
    }

    pub closed spec fn wf(&self) -> bool {
        self.tcache matches Some(t) ==> t.wf()
    }

    /// The state of a thread that has not allocated yet.
    pub fn new() -> (r: Self)
        ensures
            r.wf(),
            r.spec_tcache() is None,
            r.spec_arena() is None,
    {
        Self { tcache: None, arena: None }
    }

    /// The arena that the thread prefers, if it has taken one.
    pub fn arena(&self) -> (r: Option<ArenaId>)
        ensures
            r == self.spec_arena(),
    {
        self.arena
    }
}

/// The allocator: the process-wide state, served through the native
/// interface.
pub struct BaseAlloc {
    globals: Static,
}

impl BaseAlloc {
    pub closed spec fn spec_globals(&self) -> Static {
        self.globals
    }

    pub closed spec fn wf(&self) -> bool {
        self.globals.wf()
    }

    /// Every arena agrees with the arena map on where its slabs and
    /// large extents lie.
    pub closed spec fn coherent(&self) -> bool {
        self.globals.coherent()
    }

    /// What the allocator's invariants say of its process-wide state.
    pub proof fn lemma_wf(&self)
        ensures
            self.wf() == self.spec_globals().wf(),
            self.coherent() == self.spec_globals().coherent(),
    {
    }

    /// An allocator without arenas, over the directory flags in `store`.
    pub fn new(store: Vec<u64>) -> (r: Self)
        requires
            store@.len() * 64 >= crate::ARENA_BMS,
        ensures
            r.wf(),
            r.spec_globals().spec_map() == Map::<Seq<usize>, ArenaId>::empty(),
            r.spec_globals().spec_fallback() is None,
            r.coherent(),
    {
        Self { globals: Static::new(store) }
    }

    pub fn globals(&self) -> (r: &Static)
        ensures
            *r == self.spec_globals(),
    {
        &self.globals
    }

    /// Whether `ptr` is null or the sentinel.
    pub fn is_invalid(ptr: usize) -> (r: bool)
        ensures
            r == (ptr == 0 || ptr == SENTINEL),
    {
        ptr == 0 || ptr == Self::sentinel()
    }

    pub fn sentinel() -> (r: usize)
        ensures
            r == SENTINEL,
    {
        SENTINEL
    }

    /// The region that starts at `p` is out of the allocator's hands, as
    /// the thread sees it: the region is live, and the thread's cache
    /// does not hold it.
    pub open spec fn lent(&self, local: ThreadState, p: usize) -> bool {
        self.spec_globals().is_live(p) && !local.caches(p)
    }

    /// What `allocate` owes to a thread with a tidy cache: the cache
    /// stays tidy, every region that was lent stays lent, and a region
    /// that is served for a size class was not lent and now is.
    pub open spec fn lends(
        &self,
        before: BaseAlloc,
        local_before: ThreadState,
        local_after: ThreadState,
        size: usize,
        r: usize,
    ) -> bool {
        &&& local_after.tidy(*self)
        &&& forall|q: usize| #[trigger] before.lent(local_before, q) ==> self.lent(local_after, q)
        &&& crate::classes::spec_class_for(size as int) is Some && r != 0 ==> !before.lent(
            local_before,
            r,
        ) && self.lent(local_after, r)
    }

    /// What `deallocate` owes to a thread with a tidy cache that gives
    /// back a lent region for which the cache has room: the cache stays
    /// tidy, the region is no longer lent, and every other region is
    /// lent if and only if it was.
    pub open spec fn takes_back(
        &self,
        before: BaseAlloc,
        local_before: ThreadState,
        local_after: ThreadState,
        ptr: usize,
    ) -> bool {
        &&& local_after.tidy(*self)
        &&& !self.lent(local_after, ptr)
        &&& forall|q: usize|
            #![trigger before.lent(local_before, q)]
            #![trigger self.lent(local_after, q)]
            q != ptr ==> (before.lent(local_before, q) <==> self.lent(local_after, q))
    }

    /// What `deallocate` owes to a thread with a tidy cache that gives
    /// back nothing of a size class but lent regions: the cache stays
    /// tidy, and every other region that was lent stays lent. A lent
    /// region that is given back is lent no longer: the cache holds it,
    /// or the arena that owns it has taken it back. Every region that
    /// left the cache on the way was taken back by its arena. A thread
    /// without a cache hands the region to its arena, and to nothing else.
    pub open spec fn keeps_lent(
        &self,
        before: BaseAlloc,
        local_before: ThreadState,
        local_after: ThreadState,
        ptr: usize,
    ) -> bool {
        &&& local_after.tidy(*self)
        &&& forall|q: usize|
            q != ptr && #[trigger] before.lent(local_before, q) ==> self.lent(local_after, q)
        &&& before.lent(local_before, ptr) ==> !self.lent(local_after, ptr) && (local_after.caches(ptr)
            || !self.spec_globals().is_live(ptr))
        &&& forall|q: usize| #[trigger]
            local_before.caches(q) && !local_after.caches(q) ==> !self.spec_globals().is_live(q)
        &&& local_before.spec_tcache() is None && local_after.spec_tcache() is None && before.lent(
            local_before,
            ptr,
        ) ==> self.spec_globals().frees_only(before.spec_globals(), ptr)
    }

    /// A live region starts at an address that is neither null nor the
    /// sentinel, and the address resolves to the size class of the region.
    pub proof fn lemma_live_resolves(&self, p: usize)
        requires
            self.wf(),
            self.coherent(),
            self.spec_globals().is_live(p),
        ensures
            p != 0,
            p != SENTINEL,
            self.spec_class_of(p) == Some(self.spec_globals().live_class(p)),
            self.spec_sizeof(p) == Some(self.spec_globals().live_size(p) as usize),
    {
        let (id, c) = choose|id: ArenaId, c: SizeClassIndex| #[trigger]
            self.globals.arena_holds(id, p, c);
        self.globals.lemma_wf();
        self.globals.spec_arena(id)->0.lemma_live_placed(p, c);
        self.globals.lemma_live_resolves(id, p, c);
        self.globals.lemma_live_class(id, p, c);
    }

    /// Two regions that are lent at once do not overlap, and neither
    /// starts at null.
    pub proof fn lemma_lent_apart(&self, local: ThreadState, p: usize, q: usize)
        requires
            self.wf(),
            self.coherent(),
            self.lent(local, p),
            self.lent(local, q),
            p != q,
        ensures
            p + self.spec_globals().live_size(p) <= q || q + self.spec_globals().live_size(q) <= p,
            p != 0,
            q != 0,
    {
        self.globals.lemma_live_regions_apart(p, q);
    }

    /// The pointer resolves to a large extent.
    pub open spec fn spec_names_large(&self, ptr: usize) -> bool {
        ptr != 0 && ptr != SENTINEL && (self.spec_globals().spec_lookup(ptr) matches Some(
            Entry::Large(_),
        ))
    }

    /// The size class of the region that the pointer resolves to.
    pub open spec fn spec_class_of(&self, ptr: usize) -> Option<SizeClassIndex> {
        if ptr == 0 || ptr == SENTINEL {
            None
        } else {
            match self.spec_globals().spec_lookup(ptr) {
                Some(Entry::Class(cls)) => Some(cls.class.1),
                _ => None,
            }
        }
    }

    /// The bytes that the block at `ptr` can hold.
    pub open spec fn spec_sizeof(&self, ptr: usize) -> Option<usize> {
        if ptr == 0 || ptr == SENTINEL {
            None
        } else {
            match self.spec_globals().spec_lookup(ptr) {
                Some(Entry::Class(cls)) => Some(cls.class.0),
                Some(Entry::Large(lrg)) => Some(lrg.slice.len),
                None => None,
            }
        }
    }

    /// The bytes that the block at `ptr` can hold: the region size of
    /// its class, or the length of its extent.
    pub fn sizeof(&self, ptr: usize) -> (r: Option<usize>)
        requires
            self.wf(),
        ensures
            r == self.spec_sizeof(ptr),
    {
        if Self::is_invalid(ptr) {
            return None;
        }
        match self.globals.lookup(ptr) {
            Some(Entry::Class(cls)) => Some(cls.class().0),
            Some(Entry::Large(lrg)) => Some(lrg.size()),
            None => None,
        }
    }

    /// The arena that serves the thread: the one it prefers, else one
    /// taken from the directory, which it then prefers, else the
    /// fallback arena.
    fn acquire_arena<S: System>(&mut self, sys: &S, local: &mut ThreadState) -> (r: Option<ArenaId>)
        requires
            old(self).wf(),
            old(local).wf(),
        ensures
            final(self).wf(),
            old(self).coherent() ==> final(self).coherent(),
            final(local).wf(),
            final(local).spec_tcache() == old(local).spec_tcache(),
            final(self).spec_globals().spec_map() == old(self).spec_globals().spec_map(),
            old(local).spec_arena() matches Some(id) ==> r == Some(id) && *final(self) == *old(self)
                && final(local).spec_arena() == Some(id),
            r matches Some(id) ==> id == final(local).serving(),
            final(self).spec_globals().keeps_live(old(self).spec_globals()),
            final(self).spec_globals().keeps_owners(old(self).spec_globals()),
            final(self).spec_globals().keeps_lookups(old(self).spec_globals()),
    {
        if let Some(id) = local.arena {
            return Some(id);
        }
        if let Some(id) = self.globals.acquire_arena(sys) {
            local.arena = Some(id);
            return Some(id);
        }
        if self.globals.ensure_fallback(sys) {
            Some(ArenaId(FALLBACK_ARENA))
        } else {
            None
        }
    }

    /// Makes sure that the thread has a cache; tells whether it has one.
    fn acquire_tcache<S: System>(sys: &S, local: &mut ThreadState) -> (r: bool)
        requires
            old(local).wf(),
        ensures
            final(local).wf(),
            final(local).spec_arena() == old(local).spec_arena(),
            r == final(local).spec_tcache() is Some,
            old(local).spec_tcache() is Some ==> final(local).spec_tcache() == old(local).spec_tcache(),
            old(local).spec_tcache() is None && r ==> forall|c: int|
                0 <= c < NSCLASSES ==> #[trigger] final(local).spec_tcache()->0.cached(c) == Seq::<
                    usize,
                >::empty(),
    {
        if local.tcache.is_some() {
            return true;
        }
        match TCache::new(sys, total_cache_size()) {
            Ok(t) => {
                local.tcache = Some(t);
                true
            },
            Err(_) => false,
        }
    }

    /// What is lent stays lent while nothing is taken back and the
    /// cache takes in nothing that was live.
    proof fn lemma_lent_kept(
        before: Static,
        after: Static,
        local_before: ThreadState,
        local_after: ThreadState,
    )
        requires
            after.keeps_live(before),
            forall|q: usize| #[trigger]
                local_after.caches(q) ==> local_before.caches(q) || !before.is_live(q),
        ensures
            forall|q: usize|
                #![trigger before.is_live(q)]
                before.is_live(q) && !local_before.caches(q) ==> after.is_live(q)
                    && !local_after.caches(q),
    {
        assert forall|q: usize|
            #![trigger before.is_live(q)]
            before.is_live(q) && !local_before.caches(q) implies after.is_live(q)
            && !local_after.caches(q) by {
            after.lemma_live_kept(before, q);
        }
    }

    /// Hands out a block for `layout`, or null. A size below the class
    /// cutoff is served from the thread's cache, or, where that fails,
    /// from the thread's arena; any other size is served as an extent
    /// of its own.
    pub fn allocate<S: System>(&mut self, sys: &S, local: &mut ThreadState, layout: Layout) -> (r: usize)
        requires
            old(self).wf(),
            old(local).wf(),
        ensures
            final(self).wf(),
            old(self).coherent() ==> final(self).coherent(),
            final(local).wf(),
            old(local).served_from_cache(layout) ==> final(local).took_from_cache(
                *old(local),
                layout,
                r,
            ) && *final(self) == *old(self),
            final(self).spec_globals().keeps_live(old(self).spec_globals()),
            final(self).spec_globals().keeps_owners(old(self).spec_globals()),
            final(self).spec_globals().keeps_lookups(old(self).spec_globals()),
            old(local).served_without_host(*old(self), layout.spec_size()) ==> r != 0,
            old(local).misses_cache(layout.spec_size()) && r != 0 ==> final(self).spec_globals().arena_holds(
                final(local).serving(),
                r,
                SizeClassIndex(crate::classes::spec_class_for(layout.spec_size() as int)->0 as usize),
            ),
            old(local).misses_cache(layout.spec_size()) && r != 0 ==> r % crate::classes::QUANTUM == 0
                && r + crate::classes::class_size(
                crate::classes::spec_class_for(layout.spec_size() as int)->0,
            ) <= usize::MAX,
            old(self).coherent() && old(local).misses_cache(layout.spec_size()) && r != 0
                ==> !old(self).spec_globals().is_live(r),
            r != 0 && (old(local).misses_cache(layout.spec_size()) && layout.spec_align()
                <= crate::classes::QUANTUM || layout.spec_size() >= crate::classes::SCLASS_CUTOFF
                && layout.spec_align() <= crate::prim::COMMON_PAGE_SIZE) ==> r % layout.spec_align()
                == 0,
            old(self).coherent() && old(local).misses_cache(layout.spec_size()) && r != 0
                ==> final(self).spec_sizeof(r) == Some(
                crate::classes::class_size(
                    crate::classes::spec_class_for(layout.spec_size() as int)->0,
                ) as usize,
            ),
            old(self).coherent() && old(local).tidy(*old(self)) ==> final(self).lends(
                *old(self),
                *old(local),
                *final(local),
                layout.spec_size(),
                r,
            ),
            layout.spec_size() >= crate::classes::SCLASS_CUTOFF && r != 0
                ==> old(self).spec_globals().unowned(
                (crate::system::MemSlice {
                    base: r,
                    len: crate::math::round_up(
                        layout.spec_size() as int,
                        crate::prim::COMMON_PAGE_SIZE as int,
                    ) as usize,
                }),
            ),
            layout.spec_size() >= crate::classes::SCLASS_CUTOFF && r != 0
                ==> final(self).spec_globals().owned_by(
                (crate::system::MemSlice {
                    base: r,
                    len: crate::math::round_up(
                        layout.spec_size() as int,
                        crate::prim::COMMON_PAGE_SIZE as int,
                    ) as usize,
                }),
                final(local).serving(),
            ),
            layout.spec_size() >= crate::classes::SCLASS_CUTOFF && r != 0 ==> r
                % crate::prim::COMMON_PAGE_SIZE == 0 && final(self).spec_sizeof(r) == Some(
                crate::math::round_up(
                    layout.spec_size() as int,
                    crate::prim::COMMON_PAGE_SIZE as int,
                ) as usize,
            ),
    {
        let ghost start = self.globals;
        let ghost tidy = old(self).coherent() && old(local).tidy(*old(self));
        let align: usize = layout.align();
        proof {
            assert(16usize & ((16usize - 1) as usize) == 0) by (bit_vector);
            crate::math::lemma_single_bit_is_pow2(16);
            crate::prim::lemma_page_size_is_pow2();
        }
        let got = self.acquire_arena(sys, local);
        let ghost taken = self.globals;
        proof {
            if tidy {
                if old(local).tcache is Some {
                    old(local).tcache->0.lemma_tidy_kept(start, taken);
                }
                Self::lemma_lent_kept(start, taken, *old(local), *local);
            }
        }
        let arena: ArenaId = match got {
            Some(id) => id,
            None => return 0,
        };
        let class: Option<SizeClassIndex> = class_for(layout.size());
        if let Some(class) = class {
            if Self::acquire_tcache(sys, local) {
                let mut tcache: TCache = match local.tcache.take() {
                    Some(t) => t,
                    None => return 0,
                };
                let ghost ready = tcache;
                proof {
                    if tidy && old(local).tcache is None {
                        ready.lemma_empty_tidy(taken);
                    }
                    ready.lemma_wf(class.0 as int);
                }
                let served = tcache.allocate(&mut self.globals, sys, arena, class);
                local.tcache = Some(tcache);
                proof {
                    if tidy {
                        assert forall|q: usize| #[trigger] local.caches(q) implies old(local).caches(q)
                            || !start.is_live(q) by {
                            if !ready.holds(q) && start.is_live(q) {
                                taken.lemma_live_kept(start, q);
                            }
                        }
                        self.globals.lemma_keeps_live_twice(taken, start);
                        Self::lemma_lent_kept(start, self.globals, *old(local), *local);
                    }
                }
                if let Ok(ptr) = served {
                    proof {
                        if self.globals.arena_holds(arena, ptr, class) {
                            self.globals.lemma_wf();
                            self.globals.spec_arena(arena)->0.lemma_live_placed(ptr, class);
                            if align <= 16 {
                                crate::math::lemma_aligned_to_less(ptr, 16, align);
                            }
                            if old(self).coherent() {
                                self.globals.lemma_live_resolves(arena, ptr, class);
                            }
                        }
                        if old(self).coherent() && old(local).misses_cache(layout.spec_size()) {
                            taken.lemma_free_before(start, ptr);
                        }
                        if tidy && !ready.holds(ptr) {
                            taken.lemma_free_before(start, ptr);
                        }
                    }
                    return ptr;
                }
            }
            let ghost missed = self.globals;
            let served = self.globals.allocate_in(sys, arena, class);
            proof {
                if tidy {
                    missed.lemma_keeps_live_twice(taken, start);
                    self.globals.lemma_keeps_live_twice(missed, start);
                    if local.tcache is Some {
                        local.tcache->0.lemma_tidy_kept(missed, self.globals);
                    }
                    Self::lemma_lent_kept(start, self.globals, *old(local), *local);
                }
            }
            return match served {
                Ok(p) => {
                    proof {
                        self.globals.lemma_wf();
                        self.globals.spec_arena(arena)->0.lemma_live_placed(p, class);
                        if align <= 16 {
                            crate::math::lemma_aligned_to_less(p, 16, align);
                        }
                        if old(self).coherent() {
                            self.globals.lemma_live_resolves(arena, p, class);
                            missed.lemma_keeps_live_twice(taken, start);
                            missed.lemma_free_before(start, p);
                        }
                        if tidy && local.caches(p) {
                            let (c, k) = choose|c: int, k: int| #[trigger]
                                local.tcache->0.cached_at(c, k, p);
                            assert(missed.is_live(p));
                        }
                    }
                    p
                },
                Err(_) => 0,
            };
        }
        let ghost before = self.globals;
        let served = self.globals.allocate_large_in(sys, arena, layout);
        proof {
            if tidy {
                self.globals.lemma_keeps_live_twice(taken, start);
                if local.tcache is Some {
                    local.tcache->0.lemma_tidy_kept(taken, self.globals);
                }
                Self::lemma_lent_kept(start, self.globals, *old(local), *local);
            }
        }
        match served {
            Ok(p) => {
                proof {
                    if layout.spec_size() > 0 && align <= 4096 {
                        crate::arena::Arena::lemma_large_placed(
                            before.spec_arena(arena)->0,
                            self.globals.spec_arena(arena)->0,
                            before.spec_map(),
                            self.globals.spec_map(),
                            layout,
                            p,
                        );
                        crate::math::lemma_aligned_to_less(p, 4096, align);
                    }
                    if layout.spec_size() > 0 {
                        self.globals.lemma_large_lookup(
                            before.spec_arena(arena)->0,
                            before.spec_map(),
                            arena,
                            layout,
                            p,
                        );
                    }
                }
                p
            },
            Err(_) => 0,
        }
    }

    /// Takes back the block at `ptr`. Null and the sentinel are ignored,
    /// and so is a pointer into a page that no arena owns. A region of a
    /// size class goes to the thread's cache, or, where that fails, to
    /// the arena that owns it; a large extent goes to its arena.
    pub fn deallocate<S: System>(&mut self, sys: &S, local: &mut ThreadState, ptr: usize, layout: Layout)
        requires
            old(self).wf(),
            old(local).wf(),
        ensures
            final(self).wf(),
            old(self).coherent() ==> final(self).coherent(),
            final(local).wf(),
            ptr == 0 || ptr == SENTINEL || old(self).spec_globals().spec_lookup(ptr) is None
                ==> *final(self) == *old(self) && *final(local) == *old(local),
            old(self).coherent() && old(self).spec_names_large(ptr)
                ==> final(self).spec_globals().spec_lookup(ptr) is None && *final(local)
                == *old(local),
            old(self).spec_class_of(ptr) is Some && old(local).has_room(
                old(self).spec_class_of(ptr)->0,
            ) ==> *final(self) == *old(self) && final(local).put_in_cache(
                *old(local),
                old(self).spec_class_of(ptr)->0,
                ptr,
            ),
            final(self).spec_globals().only_freed(old(self).spec_globals()),
            old(local).tidy(*old(self)) && old(self).lent(*old(local), ptr) && old(self).spec_class_of(
                ptr,
            ) is Some && old(local).has_room(old(self).spec_class_of(ptr)->0)
                ==> final(self).takes_back(*old(self), *old(local), *final(local), ptr),
            old(self).coherent() && old(local).tidy(*old(self)) && (old(self).spec_class_of(ptr) is Some
                ==> old(self).lent(*old(local), ptr)) ==> final(self).keeps_lent(
                *old(self),
                *old(local),
                *final(local),
                ptr,
            ),
    {
        proof {
            if old(self).coherent() && self.globals.is_live(ptr) {
                let (id, c) = choose|id: ArenaId, c: SizeClassIndex| #[trigger]
                    self.globals.arena_holds(id, ptr, c);
                self.globals.lemma_wf();
                self.globals.spec_arena(id)->0.lemma_live_placed(ptr, c);
                self.globals.lemma_live_resolves(id, ptr, c);
            }
        }
        if Self::is_invalid(ptr) {
            return ;
        }
        let ghost start = self.globals;
        let ghost tidy = old(self).coherent() && old(local).tidy(*old(self));
        match self.globals.lookup(ptr) {
            Some(Entry::Class(class_entry)) => {
                let sc: SizeClassIndex = class_entry.class().1;
                let ghost lent = tidy && old(self).lent(*old(local), ptr);
                if sc.0 < NSCLASSES && Self::acquire_tcache(sys, local) {
                    let cached: bool = match local.tcache.take() {
                        Some(mut tcache) => {
                            let ghost ready = tcache;
                            proof {
                                if lent && old(local).tcache is None {
                                    ready.lemma_empty_tidy(start);
                                }
                            }
                            let done = tcache.deallocate(&mut self.globals, sys, ptr, sc);
                            proof {
                                if old(local).tidy(*old(self)) && old(self).lent(*old(local), ptr)
                                    && old(local).has_room(sc) {
                                    assert(tcache.differs_at(
                                        ready,
                                        sc.0 as int,
                                        ready.cached(sc.0 as int).push(ptr),
                                    ));
                                    tcache.lemma_tidy_pushed(ready, self.globals, sc.0 as int, ptr);
                                }
                            }
                            local.tcache = Some(tcache);
                            done.is_ok()
                        },
                        None => false,
                    };
                    if cached {
                        return ;
                    }
                }
                let ghost mid = self.globals;
                proof {
                    if lent {
                        mid.lemma_wf();
                        start.lemma_wf();
                        let (b, c) = choose|b: ArenaId, c: SizeClassIndex| #[trigger]
                            mid.arena_holds(b, ptr, c);
                        assert(start.arena_holds(b, ptr, c));
                        mid.spec_arena(b)->0.lemma_live_placed(ptr, c);
                        crate::classes::lemma_classes_monotonic(c.0 as int);
                        mid.lemma_live_owned(b, ptr, c, ptr);
                        start.lemma_live_owned(b, ptr, c, ptr);
                    }
                }
                let _ = self.globals.deallocate_in(sys, class_entry.arena(), ptr);
                proof {
                    self.globals.lemma_only_freed_twice(mid, old(self).globals);
                    if lent && local.tcache is Some {
                        local.tcache->0.lemma_tidy_freed(mid, self.globals, ptr);
                    }
                }
            },
            Some(Entry::Large(_)) => {
                let ghost before = self.globals;
                let r = self.globals.deallocate_at(sys, ptr);
                proof {
                    if tidy {
                        if local.tcache is Some {
                            local.tcache->0.lemma_tidy_kept(before, self.globals);
                        }
                        assert forall|q: usize| #[trigger] before.is_live(q) implies self.globals.is_live(
                            q,
                        ) by {
                            self.globals.lemma_live_kept(before, q);
                        }
                    }
                    if before.coherent() {
                        let id = before.spec_owner_of(ptr)->0;
                        assert(before.arena_coherent(id));
                        crate::arena::Arena::lemma_large_freed(
                            before.spec_arena(id)->0,
                            self.globals.spec_arena(id)->0,
                            before.spec_map(),
                            self.globals.spec_map(),
                            ptr,
                            r,
                        );
                    }
                }
            },
            None => {},
        }
    }

    /// Ends a thread: hands every cached region to the arena that owns
    /// it, returns the cache to the host, and gives the thread's arena
    /// back to the directory. Nothing is handed out; the slot of the
    /// thread's arena is free afterwards, and its arena is gone. The
    /// result is that of the flush: where it is `Ok`, no region that a
    /// tidy cache held is live any more; an error is that of the arena
    /// that refused a region, and the regions behind it are lost with
    /// the cache.
    pub fn thread_exit<S: System>(&mut self, sys: &S, local: ThreadState) -> (r: Result<
        (),
        crate::tcache::TCacheError,
    >)
        requires
            old(self).wf(),
            local.wf(),
        ensures
            final(self).wf(),
            r matches Err(e) ==> e is ArenaError && local.spec_tcache() is Some,
            local.spec_tcache() is None || local.spec_tcache()->0.holds_nothing() ==> r is Ok,
            r is Ok && old(self).coherent() && local.tidy(*old(self)) ==> forall|q: usize|
                #[trigger] local.caches(q) ==> !final(self).spec_globals().is_live(q),
            old(self).coherent() ==> final(self).coherent(),
            !local.leaves_slot() ==> final(self).spec_globals().only_freed(old(self).spec_globals()),
            !local.leaves_slot() && old(self).coherent() && local.tidy(*old(self)) ==> forall|q: usize|
                #[trigger] old(self).lent(local, q) ==> final(self).spec_globals().is_live(q),
            local.leaves_slot() ==> final(self).spec_globals().spec_arena(local.serving())
                is None && final(self).spec_globals().spec_taken()
                    == old(self).spec_globals().spec_taken().update(local.serving().0 as int,
                    false),
            forall|id: ArenaId, q: usize, c: SizeClassIndex| #[trigger]
                final(self).spec_globals().arena_holds(id, q, c)
                    ==> old(self).spec_globals().arena_holds(id, q, c),
    {
        let ThreadState { tcache, arena } = local;
        let flushed: Result<(), crate::tcache::TCacheError> = match tcache {
            Some(mut t) => {
                let ghost held = t;
                let done = t.flush_all(&mut self.globals, sys);
                proof {
                    if done is Ok && old(self).coherent() && local.tidy(*old(self)) {
                        assert forall|q: usize| #[trigger] held.holds(q) implies !self.globals.is_live(
                            q,
                        ) by {
                            if t.holds(q) {
                                let (c, k) = choose|c: int, k: int| #[trigger] t.cached_at(c, k, q);
                                assert(t.cached(c) == Seq::<usize>::empty());
                            }
                        }
                    }
                }
                t.release(sys);
                done
            },
            None => Ok(()),
        };
        let ghost mid = self.globals;
        proof {
            if flushed is Ok && old(self).coherent() && local.tidy(*old(self)) {
                assert forall|q: usize| #[trigger] local.caches(q) implies !mid.is_live(q) by {}
            }
        }
        if let Some(id) = arena {
            self.globals.release_arena(sys, id);
            proof {
                mid.lemma_wf();
                self.globals.lemma_wf();
                assert forall|other: ArenaId, q: usize, c: SizeClassIndex| #[trigger]
                    self.globals.arena_holds(other, q, c) implies mid.arena_holds(other, q, c) by {
                    assert(self.globals.spec_arena(other) is Some);
                    assert(self.globals.spec_arena(other) == mid.spec_arena(other));
                }
                if id.0 >= crate::MAX_ARENAS {
                    assert forall|q: usize| #[trigger] mid.is_live(q) implies self.globals.is_live(
                        q,
                    ) by {
                        let (other, c) = choose|other: ArenaId, c: SizeClassIndex| #[trigger]
                            mid.arena_holds(other, q, c);
                        assert(self.globals.spec_arena(other) == mid.spec_arena(other));
                        assert(self.globals.arena_holds(other, q, c));
                    }
                }
                assert forall|q: usize| !mid.is_live(q) implies !#[trigger] self.globals.is_live(
                    q,
                ) by {
                    if self.globals.is_live(q) {
                        let (other, c) = choose|other: ArenaId, c: SizeClassIndex| #[trigger]
                            self.globals.arena_holds(other, q, c);
                        assert(mid.arena_holds(other, q, c));
                    }
                }
            }
        }
        flushed
    }
}

impl ThreadState {
    /// The thread's cache holds `p`.
    pub open spec fn caches(&self, p: usize) -> bool {
        self.spec_tcache() is Some && self.spec_tcache()->0.holds(p)
    }

    /// Every address in the thread's cache is the start of a live
    /// region, and none is cached twice.
    pub open spec fn tidy(&self, heap: BaseAlloc) -> bool {
        self.spec_tcache() is Some ==> self.spec_tcache()->0.tidy(heap.spec_globals())
    }

    /// The thread holds a slot of the directory.
    pub open spec fn leaves_slot(&self) -> bool {
        self.spec_arena() is Some && self.serving().0 < crate::MAX_ARENAS
    }

    /// The arena that serves the thread: the one it prefers, else the
    /// fallback arena.
    pub open spec fn serving(&self) -> ArenaId {
        match self.spec_arena() {
            Some(id) => id,
            None => ArenaId(FALLBACK_ARENA),
        }
    }

    /// The request can be served without the host, though the cache
    /// holds no region for it: the thread has its arena and its cache,
    /// and the arena has room for all the regions that the empty ring
    /// takes in.
    pub open spec fn served_without_host(&self, heap: BaseAlloc, size: usize) -> bool {
        &&& self.misses_cache(size)
        &&& self.spec_arena() is Some
        &&& self.spec_tcache() is Some
        &&& heap.spec_globals().room(
            self.serving(),
            SizeClassIndex(crate::classes::spec_class_for(size as int)->0 as usize),
        ) >= crate::classes::spec_cache_slots(crate::classes::spec_class_for(size as int)->0)
    }

    /// The request is for a size class of which the thread has no
    /// region cached.
    pub open spec fn misses_cache(&self, size: usize) -> bool {
        &&& crate::classes::spec_class_for(size as int) is Some
        &&& self.spec_tcache() is Some ==> self.spec_tcache()->0.cached(
            crate::classes::spec_class_for(size as int)->0,
        ).len() == 0
    }

    /// The thread has a cache, and its ring of class `sc` has a free slot.
    pub open spec fn has_room(&self, sc: SizeClassIndex) -> bool {
        &&& sc.0 < NSCLASSES
        &&& self.spec_tcache() is Some
        &&& self.spec_tcache()->0.cached(sc.0 as int).len() < self.spec_tcache()->0.slots(
            sc.0 as int,
        )
    }

    /// The thread's state is `before` with `ptr` put into the cache as
    /// the newest region of class `sc`.
    pub open spec fn put_in_cache(&self, before: ThreadState, sc: SizeClassIndex, ptr: usize) -> bool {
        &&& self.spec_arena() == before.spec_arena()
        &&& self.spec_tcache() is Some
        &&& self.spec_tcache()->0.cached(sc.0 as int) == before.spec_tcache()->0.cached(
            sc.0 as int,
        ).push(ptr)
        &&& forall|other: int|
            0 <= other < NSCLASSES && other != sc.0 ==> #[trigger] self.spec_tcache()->0.cached(
                other,
            ) == before.spec_tcache()->0.cached(other)
    }

    /// The thread's state is `before` with the oldest cached region of
    /// the class of `layout`, `r`, taken out of the cache.
    pub open spec fn took_from_cache(&self, before: ThreadState, layout: Layout, r: usize) -> bool {
        let c = crate::classes::spec_class_for(layout.spec_size() as int)->0;
        let ring = before.spec_tcache()->0.cached(c);
        &&& self.spec_arena() == before.spec_arena()
        &&& self.spec_tcache() is Some
        &&& r == ring[0]
        &&& self.spec_tcache()->0.cached(c) == ring.subrange(1, ring.len() as int)
        &&& forall|other: int|
            0 <= other < NSCLASSES && other != c ==> #[trigger] self.spec_tcache()->0.cached(other)
                == before.spec_tcache()->0.cached(other)
    }

    /// A region that is put into an empty ring is the one that the ring
    /// serves next; put behind others, it is served after them.
    pub proof fn lemma_round_trip(
        before: ThreadState,
        held: ThreadState,
        after: ThreadState,
        layout: Layout,
        ptr: usize,
        r: usize,
    )
        requires
            crate::classes::spec_class_for(layout.spec_size() as int) is Some,
            before.spec_tcache() is Some,
            held.put_in_cache(
                before,
                SizeClassIndex(crate::classes::spec_class_for(layout.spec_size() as int)->0 as usize),
                ptr,
            ),
            after.took_from_cache(held, layout, r),
        ensures
            before.spec_tcache()->0.cached(
                crate::classes::spec_class_for(layout.spec_size() as int)->0,
            ).len() == 0 ==> r == ptr,
            before.spec_tcache()->0.cached(
                crate::classes::spec_class_for(layout.spec_size() as int)->0,
            ).len() > 0 ==> r == before.spec_tcache()->0.cached(
                crate::classes::spec_class_for(layout.spec_size() as int)->0,
            )[0],
    {
        crate::classes::lemma_class_for_bounds(layout.spec_size() as int);
        crate::classes::lemma_class_for_fits(layout.spec_size() as int);
    }

    /// The request is for a size class whose ring in the thread's cache
    /// is not empty, and the thread has an arena.
    pub open spec fn served_from_cache(&self, layout: Layout) -> bool {
        &&& self.spec_arena() is Some
        &&& self.spec_tcache() is Some
        &&& crate::classes::spec_class_for(layout.spec_size() as int) matches Some(c)
        &&& self.spec_tcache()->0.cached(c).len() > 0
    }
}

} // verus!
