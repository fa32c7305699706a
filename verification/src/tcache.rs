use vstd::prelude::*;
use core::ops::Range;
use crate::arena::ArenaError;
use crate::classes::{cache_for, CacheSize, SizeClassIndex, NSCLASSES};
use crate::extent::{Extent, ExtentError};
use crate::lookup::{ArenaId, LookupError};
use crate::prim::{page_align, PrimError, WORD};
use crate::ring::Ring;
use crate::static_::{Entry, Static};
use crate::system::{SysOption, System};

verus! {

#[derive(Clone, Copy, Debug, PartialEq, Eq, Structural)]
pub enum TCacheError {
    ExtentError(ExtentError),
    PrimError(PrimError),
    ArenaError(ArenaError),
    LookupError(LookupError),
}

pub type TCacheResult<T> = Result<T, TCacheError>;

/// The ring of one size class and the slots that it runs over.
struct CacheBin {
    store: Vec<usize>,
    ring: Ring,
}

/// A thread's cache: one ring of region addresses per size class, over
/// one committed extent.
pub struct TCache {
    backing: Extent,
    caches: Vec<CacheBin>,
}

impl TCache {
    /// The addresses cached for class `sc`, oldest first.
    pub closed spec fn cached(&self, sc: int) -> Seq<usize> {
        self.caches@[sc].ring.view(self.caches@[sc].store@)
    }

    /// The number of slots of the ring of class `sc`.
    pub closed spec fn slots(&self, sc: int) -> nat {
        self.caches@[sc].store@.len()
    }

    /// Every address cached for class `sc` is the start of a live region
    /// of that class in the arena that `arena` names.
    pub open spec fn all_live(&self, heap: Static, arena: ArenaId, sc: SizeClassIndex) -> bool {
        forall|k: int|
            0 <= k < self.cached(sc.0 as int).len() ==> heap.arena_holds(
                arena,
                #[trigger] self.cached(sc.0 as int)[k],
                sc,
            )
    }

    /// No cached address of class `sc` from place `from` on was the
    /// start of a live region in `heap`.
    pub open spec fn fresh_from(&self, from: int, heap: Static, sc: SizeClassIndex) -> bool {
        forall|k: int|
            from <= k < self.cached(sc.0 as int).len() ==> !heap.is_live(
                #[trigger] self.cached(sc.0 as int)[k],
            )
    }

    /// `p` is cached at place `k` of the ring of class `c`.
    pub open spec fn cached_at(&self, c: int, k: int, p: usize) -> bool {
        0 <= c < NSCLASSES && 0 <= k < self.cached(c).len() && self.cached(c)[k] == p
    }

    /// One of the rings holds `p`.
    pub open spec fn holds(&self, p: usize) -> bool {
        exists|c: int, k: int| #[trigger] self.cached_at(c, k, p)
    }

    /// Every cached address is the start of a live region of `heap`, and
    /// no address is cached twice.
    pub open spec fn tidy(&self, heap: Static) -> bool {
        &&& forall|c: int, k: int, p: usize| #[trigger] self.cached_at(c, k, p) ==> heap.is_live(p)
        &&& forall|c: int, k: int, d: int, l: int, p: usize|
            #[trigger] self.cached_at(c, k, p) && #[trigger] self.cached_at(d, l, p) ==> c == d && k
                == l
    }

    /// The rings are those of `before` but for the ring of class `sc`,
    /// which holds `ring`.
    pub open spec fn differs_at(&self, before: TCache, sc: int, ring: Seq<usize>) -> bool {
        &&& self.cached(sc) == ring
        &&& forall|c: int|
            0 <= c < NSCLASSES && c != sc ==> #[trigger] self.cached(c) == before.cached(c)
    }

    /// What serving leaves of the tidy cache `before`: the cache is
    /// tidy, and whatever it holds it held before, or was the start of
    /// no live region before.
    pub open spec fn tidy_after(&self, before: TCache, heap_before: Static, heap_after: Static) -> bool {
        &&& self.tidy(heap_after)
        &&& forall|q: usize| #[trigger] self.holds(q) ==> before.holds(q) || !heap_before.is_live(q)
    }

    /// A cache with the rings of a tidy cache is tidy.
    pub proof fn lemma_tidy_same(&self, before: TCache, heap: Static)
        requires
            before.tidy(heap),
            forall|c: int| 0 <= c < NSCLASSES ==> #[trigger] self.cached(c) == before.cached(c),
        ensures
            self.tidy(heap),
            forall|q: usize| self.holds(q) <==> before.holds(q),
    {
        assert forall|c: int, k: int, q: usize| #[trigger]
            self.cached_at(c, k, q) implies before.cached_at(c, k, q) by {}
        assert forall|c: int, k: int, q: usize| #[trigger] self.cached_at(c, k, q) implies heap.is_live(
            q,
        ) by {
            assert(before.cached_at(c, k, q));
        }
        assert forall|c: int, k: int, d: int, l: int, q: usize|
            #[trigger] self.cached_at(c, k, q) && #[trigger] self.cached_at(d, l, q) implies c == d
            && k == l by {
            assert(before.cached_at(c, k, q));
            assert(before.cached_at(d, l, q));
        }
        assert forall|q: usize| self.holds(q) <==> before.holds(q) by {
            if self.holds(q) {
                let (c, k) = choose|c: int, k: int| #[trigger] self.cached_at(c, k, q);
                assert(before.cached_at(c, k, q));
            }
            if before.holds(q) {
                let (c, k) = choose|c: int, k: int| #[trigger] before.cached_at(c, k, q);
                assert(self.cached_at(c, k, q));
            }
        }
    }

    /// A cache with empty rings is tidy and holds nothing.
    pub proof fn lemma_empty_tidy(&self, heap: Static)
        requires
            forall|c: int| 0 <= c < NSCLASSES ==> #[trigger] self.cached(c) == Seq::<usize>::empty(),
        ensures
            self.tidy(heap),
            forall|q: usize| !self.holds(q),
    {
        assert forall|c: int, k: int, q: usize| !#[trigger] self.cached_at(c, k, q) by {
            if 0 <= c < NSCLASSES {
                assert(self.cached(c) == Seq::<usize>::empty());
            }
        }
    }

    /// What handing regions back leaves of the tidy cache `before`: the
    /// cache is tidy, it holds nothing that it did not hold, every
    /// region that was live and not in the cache is live, and every
    /// region that left the cache is live no longer.
    pub open spec fn tidy_flushed(&self, before: TCache, heap_before: Static, heap_after: Static) -> bool {
        &&& self.tidy(heap_after)
        &&& forall|q: usize| #[trigger] self.holds(q) ==> before.holds(q)
        &&& forall|p: usize|
            (#[trigger] heap_before.is_live(p)) && !before.holds(p) ==> heap_after.is_live(p)
        &&& forall|q: usize| #[trigger] before.holds(q) && !self.holds(q) ==> !heap_after.is_live(q)
    }

    /// What taking back the live region at `ptr`, which the cache did
    /// not hold, leaves of the tidy cache `before`: the cache is tidy,
    /// beside `ptr` it holds nothing that it did not hold, it holds
    /// `ptr` where it `took` it, every region that was live and not in
    /// the cache is live, and every region that left the cache was
    /// handed to its arena and is live no longer.
    pub open spec fn tidy_took(
        &self,
        before: TCache,
        heap_before: Static,
        heap_after: Static,
        ptr: usize,
        took: bool,
    ) -> bool {
        &&& self.tidy(heap_after)
        &&& forall|q: usize| #[trigger] self.holds(q) ==> before.holds(q) || q == ptr
        &&& self.holds(ptr) == took
        &&& forall|p: usize|
            (#[trigger] heap_before.is_live(p)) && !before.holds(p) ==> heap_after.is_live(p)
        &&& forall|q: usize| #[trigger] before.holds(q) && !self.holds(q) ==> !heap_after.is_live(q)
    }

    /// Handing back the oldest address of a ring is one more step of
    /// handing regions back.
    proof fn lemma_flushed_one(
        &self,
        start: TCache,
        held: TCache,
        heap_start: Static,
        mid: Static,
        heap: Static,
        sc: int,
        ptr: usize,
    )
        requires
            held.tidy_flushed(start, heap_start, mid),
            0 <= sc < NSCLASSES,
            held.cached(sc).len() > 0,
            ptr == held.cached(sc)[0],
            self.differs_at(held, sc, held.cached(sc).subrange(1, held.cached(sc).len() as int)),
            mid.is_live(ptr) ==> heap.frees_only(mid, ptr) && !heap.is_live(ptr),
            heap.only_freed(mid),
        ensures
            self.tidy_flushed(start, heap_start, heap),
    {
        self.lemma_tidy_popped(held, mid, sc, ptr);
        assert(held.cached_at(sc, 0, ptr));
        assert(mid.is_live(ptr));
        self.lemma_tidy_freed(mid, heap, ptr);
        assert forall|q: usize| #[trigger] start.holds(q) && !self.holds(q) implies !heap.is_live(
            q,
        ) by {
            if q != ptr {
                assert(!held.holds(q));
                heap.lemma_dead_stays(mid, q);
            }
        }
        assert forall|q: usize| #[trigger] self.holds(q) implies start.holds(q) by {
            assert(held.holds(q));
        }
        assert(start.holds(ptr));
        assert forall|p: usize|
            (#[trigger] heap_start.is_live(p)) && !start.holds(p) implies heap.is_live(p) by {
            assert(mid.is_live(p));
        }
    }

    /// A tidy cache stays tidy when a region that it does not hold is
    /// taken back.
    pub proof fn lemma_tidy_freed(&self, before: Static, after: Static, q: usize)
        requires
            self.tidy(before),
            after.frees_only(before, q),
            !self.holds(q),
        ensures
            self.tidy(after),
    {
        assert forall|c: int, k: int, p: usize| #[trigger] self.cached_at(c, k, p) implies after.is_live(
            p,
        ) by {
            assert(before.is_live(p));
            if p == q {
                assert(self.holds(q));
            }
        }
    }

    /// A tidy cache stays tidy while nothing is taken back.
    pub proof fn lemma_tidy_kept(&self, before: Static, after: Static)
        requires
            self.tidy(before),
            after.keeps_live(before),
        ensures
            self.tidy(after),
    {
        assert forall|c: int, k: int, p: usize| #[trigger] self.cached_at(c, k, p) implies after.is_live(
            p,
        ) by {
            let (id, class) = choose|id: ArenaId, class: SizeClassIndex| #[trigger]
                before.arena_holds(id, p, class);
            assert(after.arena_holds(id, p, class));
        }
    }

    /// Taking the oldest address out of a ring of a tidy cache leaves
    /// the cache tidy, and the address in none of its rings.
    pub proof fn lemma_tidy_popped(&self, before: TCache, heap: Static, sc: int, p: usize)
        requires
            before.tidy(heap),
            0 <= sc < NSCLASSES,
            before.cached(sc).len() > 0,
            p == before.cached(sc)[0],
            self.differs_at(before, sc, before.cached(sc).subrange(1, before.cached(sc).len() as int)),
        ensures
            self.tidy(heap),
            before.holds(p),
            !self.holds(p),
            forall|q: usize| self.holds(q) ==> before.holds(q),
            forall|q: usize| before.holds(q) && q != p ==> self.holds(q),
    {
        assert(before.cached_at(sc, 0, p));
        assert forall|c: int, k: int, q: usize| #[trigger] self.cached_at(c, k, q) implies before.cached_at(
            c,
            if c == sc {
                k + 1
            } else {
                k
            },
            q,
        ) by {}
        assert forall|c: int, k: int, q: usize| #[trigger] self.cached_at(c, k, q) implies heap.is_live(
            q,
        ) by {
            assert(before.cached_at(
                c,
                if c == sc {
                    k + 1
                } else {
                    k
                },
                q,
            ));
        }
        assert forall|c: int, k: int, d: int, l: int, q: usize|
            #[trigger] self.cached_at(c, k, q) && #[trigger] self.cached_at(d, l, q) implies c == d
            && k == l by {
            assert(before.cached_at(
                c,
                if c == sc {
                    k + 1
                } else {
                    k
                },
                q,
            ));
            assert(before.cached_at(
                d,
                if d == sc {
                    l + 1
                } else {
                    l
                },
                q,
            ));
        }
        if self.holds(p) {
            let (c, k) = choose|c: int, k: int| #[trigger] self.cached_at(c, k, p);
            assert(before.cached_at(
                c,
                if c == sc {
                    k + 1
                } else {
                    k
                },
                p,
            ));
        }
        assert forall|q: usize| self.holds(q) implies before.holds(q) by {
            let (c, k) = choose|c: int, k: int| #[trigger] self.cached_at(c, k, q);
            assert(before.cached_at(
                c,
                if c == sc {
                    k + 1
                } else {
                    k
                },
                q,
            ));
        }
        assert forall|q: usize| before.holds(q) && q != p implies self.holds(q) by {
            let (c, k) = choose|c: int, k: int| #[trigger] before.cached_at(c, k, q);
            if c == sc {
                assert(self.cached_at(c, k - 1, q));
            } else {
                assert(self.cached_at(c, k, q));
            }
        }
    }

    /// Putting the start of a live region that the cache does not hold
    /// behind the newest address of a ring of a tidy cache leaves the
    /// cache tidy.
    pub proof fn lemma_tidy_pushed(&self, before: TCache, heap: Static, sc: int, p: usize)
        requires
            before.tidy(heap),
            0 <= sc < NSCLASSES,
            heap.is_live(p),
            !before.holds(p),
            self.differs_at(before, sc, before.cached(sc).push(p)),
        ensures
            self.tidy(heap),
            self.holds(p),
            forall|q: usize| self.holds(q) <==> before.holds(q) || q == p,
    {
        let n = before.cached(sc).len() as int;
        assert(self.cached_at(sc, n, p));
        assert forall|c: int, k: int, q: usize| #[trigger] self.cached_at(c, k, q) implies (c == sc
            && k == n && q == p) || before.cached_at(c, k, q) by {}
        assert forall|c: int, k: int, q: usize| #[trigger] self.cached_at(c, k, q) implies heap.is_live(
            q,
        ) by {
            if !(c == sc && k == n) {
                assert(before.cached_at(c, k, q));
            }
        }
        assert forall|c: int, k: int, d: int, l: int, q: usize|
            #[trigger] self.cached_at(c, k, q) && #[trigger] self.cached_at(d, l, q) implies c == d
            && k == l by {
            if c == sc && k == n {
                if !(d == sc && l == n) {
                    assert(before.cached_at(d, l, q));
                    assert(before.holds(p));
                }
            } else {
                assert(before.cached_at(c, k, q));
                if d == sc && l == n {
                    assert(before.holds(p));
                } else {
                    assert(before.cached_at(d, l, q));
                }
            }
        }
        assert forall|q: usize| self.holds(q) <==> before.holds(q) || q == p by {
            if self.holds(q) {
                let (c, k) = choose|c: int, k: int| #[trigger] self.cached_at(c, k, q);
                if !(c == sc && k == n) {
                    assert(before.cached_at(c, k, q));
                }
            }
            if before.holds(q) {
                let (c, k) = choose|c: int, k: int| #[trigger] before.cached_at(c, k, q);
                assert(self.cached_at(c, k, q));
            }
        }
    }

    pub closed spec fn wf(&self) -> bool {
        &&& self.caches@.len() == NSCLASSES
        &&& forall|c: int|
            0 <= c < NSCLASSES ==> (#[trigger] self.caches@[c]).ring.wf(self.caches@[c].store@.len())
                && self.caches@[c].store@.len() == crate::classes::spec_cache_slots(c)
    }

    pub proof fn lemma_wf(&self, sc: int)
        requires
            self.wf(),
            0 <= sc < NSCLASSES,
        ensures
            self.slots(sc) == crate::classes::spec_cache_slots(sc),
            self.cached(sc).len() <= self.slots(sc),
            8 <= self.slots(sc) <= 200,
    {
        self.caches@[sc].ring.lemma_view_len(self.caches@[sc].store@);
        self.caches@[sc].ring.lemma_len_bound(self.caches@[sc].store@.len());
    }

    /// Maps an extent of `size` bytes, rounded up to whole pages, for the
    /// slots, and sets up an empty ring per class.
    pub fn new<S: System>(sys: &S, size: usize) -> (r: TCacheResult<Self>)
        ensures
            match r {
                Ok(t) => t.wf() && forall|c: int|
                    0 <= c < NSCLASSES ==> #[trigger] t.cached(c) == Seq::<usize>::empty(),
                Err(e) => e is ExtentError || (e == TCacheError::PrimError(PrimError::Overflow)
                    && size + 4096 - 1 > usize::MAX),
            },
    {
        let pga_size: usize = match page_align(size) {
            Ok(v) => v,
            Err(e) => return Err(TCacheError::PrimError(e)),
        };
        let extent: Extent = match Extent::new(sys, pga_size, SysOption::Commit) {
            Ok(v) => v,
            Err(e) => return Err(TCacheError::ExtentError(e)),
        };
        let caches: Vec<CacheBin> = Self::new_caches(&extent);
        Ok(Self { backing: extent, caches })
    }

    fn new_caches(extent: &Extent) -> (r: Vec<CacheBin>)
        ensures
            r@.len() == NSCLASSES,
            forall|c: int|
                0 <= c < NSCLASSES ==> (#[trigger] r@[c]).ring.wf(r@[c].store@.len())
                    && r@[c].store@.len() == crate::classes::spec_cache_slots(c) && r@[c].ring.view(
                    r@[c].store@,
                ) == Seq::<usize>::empty(),
    {
        let mut caches: Vec<CacheBin> = Vec::new();
        let mut offset: usize = 0;
        let mut i: usize = 0;
        while i < NSCLASSES
            invariant
                i <= NSCLASSES,
                offset <= i * 1600,
                caches@.len() == i,
                forall|c: int|
                    0 <= c < i ==> (#[trigger] caches@[c]).ring.wf(caches@[c].store@.len())
                        && caches@[c].store@.len() == crate::classes::spec_cache_slots(c)
                        && caches@[c].ring.view(caches@[c].store@) == Seq::<usize>::empty(),
            decreases NSCLASSES - i,
        {
            let class_idx: SizeClassIndex = SizeClassIndex(i);
            let range: Range<usize> = Self::get_range(offset, class_idx);
            let store: Vec<usize> = Self::construct_store(&range);
            let ring: Ring = Ring::new();
            proof {
                ring.lemma_view_len(store@);
                assert(ring.view(store@) =~= Seq::<usize>::empty());
            }
            offset = range.end;
            caches.push(CacheBin { store, ring });
            i += 1;
        }
        caches
    }

    /// The bytes of the backing extent that the slots of a class take,
    /// from `offset` on.
    fn get_range(offset: usize, class_idx: SizeClassIndex) -> (r: Range<usize>)
        requires
            class_idx.0 < NSCLASSES,
            offset <= 1_000_000,
        ensures
            r.start == offset,
            r.end == offset + crate::classes::spec_cache_slots(class_idx.0 as int) * WORD,
    {
        let csize: CacheSize = cache_for(class_idx);
        let byte_size: usize = csize.0 * WORD;
        offset..offset + byte_size
    }

    fn construct_store(range: &Range<usize>) -> (r: Vec<usize>)
        requires
            range.start <= range.end,
        ensures
            r@.len() == (range.end - range.start) / (WORD as int),
    {
        let byte_size: usize = range.end - range.start;
        let ptr_count: usize = byte_size / WORD;
        let mut store: Vec<usize> = Vec::new();
        let mut i: usize = 0;
        while i < ptr_count
            invariant
                i <= ptr_count,
                store@.len() == i,
            decreases ptr_count - i,
        {
            store.push(0);
            i += 1;
        }
        store
    }

    /// Fills the empty part of the ring of class `sc` with regions from
    /// the arena that `arena` names.
    fn refill_cache<S: System>(&mut self, heap: &mut Static, sys: &S, arena: ArenaId,
        sc: SizeClassIndex) -> (r:
        TCacheResult<()>)
        requires
            old(self).wf(),
            old(heap).wf(),
            sc.0 < NSCLASSES,
        ensures
            final(self).wf(),
            final(heap).wf(),
            old(heap).coherent() ==> final(heap).coherent(),
            forall|c: int|
                0 <= c < NSCLASSES && c != sc.0 ==> #[trigger] final(self).cached(c) == old(self).cached(c),
            match r {
                Ok(()) => final(self).cached(sc.0 as int).len() == final(self).slots(sc.0 as int),
                Err(e) => e is ArenaError,
            },
            old(self).cached(sc.0 as int).len() <= final(self).cached(sc.0 as int).len(),
            old(self).all_live(*old(heap), arena, sc) ==> final(self).all_live(
                *final(heap),
                arena,
                sc,
            ),
            old(self).cached(sc.0 as int).is_prefix_of(final(self).cached(sc.0 as int)),
            old(heap).room(arena, sc) >= old(self).slots(sc.0 as int) - old(self).cached(
                sc.0 as int,
            ).len() ==> r is Ok,
            final(heap).keeps_live(*old(heap)),
            final(heap).keeps_owners(*old(heap)),
            final(heap).keeps_lookups(*old(heap)),
            old(heap).coherent() ==> final(self).fresh_from(
                old(self).cached(sc.0 as int).len() as int,
                *old(heap),
                sc,
            ),
            old(heap).coherent() && old(self).tidy(*old(heap)) ==> final(self).tidy_after(
                *old(self),
                *old(heap),
                *final(heap),
            ),
    {
        proof {
            self.lemma_wf(sc.0 as int);
            self.caches@[sc.0 as int].ring.lemma_view_len(self.caches@[sc.0 as int].store@);
            self.caches@[sc.0 as int].ring.lemma_len_bound(self.caches@[sc.0 as int].store@.len());
        }
        let CacheSize(cache_size) = cache_for(sc);
        let free: usize = self.caches[sc.0].store.len() - self.caches[sc.0].ring.len();
        let refill_count: usize = if cache_size < free {
            cache_size
        } else {
            free
        };
        let mut i: usize = 0;
        while i < refill_count
            invariant
                self.wf(),
                heap.wf(),
                old(heap).coherent() ==> heap.coherent(),
                sc.0 < NSCLASSES,
                i <= refill_count,
                refill_count == old(self).slots(sc.0 as int) - old(self).cached(sc.0 as int).len(),
                self.slots(sc.0 as int) == old(self).slots(sc.0 as int),
                self.cached(sc.0 as int).len() == old(self).cached(sc.0 as int).len() + i,
                forall|c: int|
                    0 <= c < NSCLASSES && c != sc.0 ==> #[trigger] self.cached(c) == old(self).cached(c),
                old(self).all_live(*old(heap), arena, sc) ==> self.all_live(*heap, arena, sc),
                old(self).cached(sc.0 as int).is_prefix_of(self.cached(sc.0 as int)),
                old(heap).room(arena, sc) >= refill_count ==> heap.room(arena, sc) >= refill_count - i,
                heap.keeps_live(*old(heap)),
                heap.keeps_owners(*old(heap)),
                heap.keeps_lookups(*old(heap)),
                old(heap).coherent() ==> self.fresh_from(
                    old(self).cached(sc.0 as int).len() as int,
                    *old(heap),
                    sc,
                ),
                old(heap).coherent() && old(self).tidy(*old(heap)) ==> self.tidy_after(
                    *old(self),
                    *old(heap),
                    *heap,
                ),
            decreases refill_count - i,
        {
            let ghost ring = self.cached(sc.0 as int);
            let ghost heap0 = *heap;
            let ghost held = *self;
            let served = heap.allocate_in(sys, arena, sc);
            proof {
                if old(heap).coherent() && old(self).tidy(*old(heap)) {
                    held.lemma_tidy_kept(heap0, *heap);
                }
                heap.lemma_keeps_live_twice(heap0, *old(heap));
                if old(self).all_live(*old(heap), arena, sc) {
                    assert forall|k: int| 0 <= k < ring.len() implies heap.arena_holds(
                        arena,
                        #[trigger] ring[k],
                        sc,
                    ) by {
                        assert(heap0.arena_holds(arena, ring[k], sc));
                    }
                }
            }
            let ptr: usize = match served {
                Ok(p) => p,
                Err(e) => return Err(TCacheError::ArenaError(e)),
            };
            proof {
                if old(heap).coherent() && old(heap).is_live(ptr) {
                    let (id, c) = choose|id: ArenaId, c: SizeClassIndex| #[trigger]
                        old(heap).arena_holds(id, ptr, c);
                    assert(heap0.arena_holds(id, ptr, c));
                }
            }
            let pushed: bool = self.push_cached(sc, ptr);
            proof {
                if old(heap).coherent() && old(self).tidy(*old(heap)) {
                    assert(heap.arena_holds(arena, ptr, sc));
                    if held.holds(ptr) {
                        let (c, k) = choose|c: int, k: int| #[trigger] held.cached_at(c, k, ptr);
                        assert(heap0.is_live(ptr));
                    }
                    if pushed {
                        assert(self.differs_at(held, sc.0 as int, held.cached(sc.0 as int).push(ptr)));
                        self.lemma_tidy_pushed(held, *heap, sc.0 as int, ptr);
                    } else {
                        self.lemma_tidy_same(held, *heap);
                    }
                    assert forall|q: usize| #[trigger] self.holds(q) implies old(self).holds(q)
                        || !old(heap).is_live(q) by {
                        if q != ptr {
                            assert(held.holds(q));
                        }
                    }
                }
            }
            if !pushed {
                return Ok(());
            }
            i += 1;
        }
        Ok(())
    }

    /// Hands out a region of class `sc`: the oldest cached one, or, with
    /// an empty ring, one of those that the arena refills the ring with.
    pub fn allocate<S: System>(&mut self, heap: &mut Static, sys: &S, arena: ArenaId,
        sc: SizeClassIndex) -> (r:
        TCacheResult<usize>)
        requires
            old(self).wf(),
            old(heap).wf(),
            sc.0 < NSCLASSES,
        ensures
            final(self).wf(),
            final(heap).wf(),
            old(heap).coherent() ==> final(heap).coherent(),
            forall|c: int|
                0 <= c < NSCLASSES && c != sc.0 ==> #[trigger] final(self).cached(c) == old(self).cached(c),
            old(self).cached(sc.0 as int).len() > 0 ==> r == Ok::<usize, TCacheError>(
                old(self).cached(sc.0 as int)[0],
            ) && final(self).cached(sc.0 as int) == old(self).cached(sc.0 as int).subrange(
                1,
                old(self).cached(sc.0 as int).len() as int,
            ) && *final(heap) == *old(heap),
            old(self).cached(sc.0 as int).len() == 0 ==> match r {
                Ok(p) => final(self).cached(sc.0 as int).len() + 1 == final(self).slots(
                    sc.0 as int,
                ) && final(heap).arena_holds(arena, p, sc),
                Err(e) => e is ArenaError,
            } && final(self).all_live(*final(heap), arena, sc),
            final(heap).keeps_live(*old(heap)),
            final(heap).keeps_owners(*old(heap)),
            final(heap).keeps_lookups(*old(heap)),
            old(self).cached(sc.0 as int).len() == 0 && old(heap).coherent() && r is Ok
                ==> !old(heap).is_live(r->Ok_0),
            old(self).cached(sc.0 as int).len() == 0 && old(heap).room(arena, sc) >= old(self).slots(
                sc.0 as int,
            ) ==> r is Ok,
            old(heap).coherent() && old(self).tidy(*old(heap)) ==> final(self).tidy_after(
                *old(self),
                *old(heap),
                *final(heap),
            ) && (r is Ok ==> !final(self).holds(r->Ok_0) && final(heap).is_live(r->Ok_0)
                && (old(self).holds(r->Ok_0) || !old(heap).is_live(r->Ok_0))),
    {
        proof {
            self.lemma_wf(sc.0 as int);
        }
        if let Some(p) = self.pop_cached(sc) {
            proof {
                if old(self).tidy(*old(heap)) {
                    self.lemma_tidy_popped(*old(self), *heap, sc.0 as int, p);
                    assert(old(self).cached_at(sc.0 as int, 0, p));
                }
            }
            return Ok(p);
        }
        let ghost missed = *self;
        proof {
            if old(self).tidy(*old(heap)) {
                missed.lemma_tidy_same(*old(self), *heap);
            }
        }
        let filled = self.refill_cache(heap, sys, arena, sc);
        proof {
            if old(heap).coherent() && old(self).tidy(*old(heap)) {
                assert forall|q: usize| #[trigger] self.holds(q) implies old(self).holds(q)
                    || !old(heap).is_live(q) by {
                    assert(missed.holds(q) ==> old(self).holds(q));
                }
            }
        }
        if let Err(e) = filled {
            return Err(e);
        }
        let ghost full = *self;
        proof {
            self.lemma_wf(sc.0 as int);
        }
        match self.pop_cached(sc) {
            Some(p) => {
                proof {
                    if old(heap).coherent() && old(self).tidy(*old(heap)) {
                        self.lemma_tidy_popped(full, *heap, sc.0 as int, p);
                        assert(full.cached_at(sc.0 as int, 0, p));
                        assert forall|q: usize| #[trigger] self.holds(q) implies old(self).holds(q)
                            || !old(heap).is_live(q) by {
                            assert(full.holds(q));
                        }
                    }
                }
                Ok(p)
            },
            None => {
                proof {
                    assert(false);
                }
                Err(TCacheError::LookupError(LookupError::NotFound))
            },
        }
    }

    /// Takes the oldest address out of the ring of class `sc`.
    fn pop_cached(&mut self, sc: SizeClassIndex) -> (r: Option<usize>)
        requires
            old(self).wf(),
            sc.0 < NSCLASSES,
        ensures
            final(self).wf(),
            final(self).slots(sc.0 as int) == old(self).slots(sc.0 as int),
            forall|c: int|
                0 <= c < NSCLASSES && c != sc.0 ==> #[trigger] final(self).cached(c) == old(self).cached(c),
            match r {
                Some(p) => old(self).cached(sc.0 as int).len() > 0 && p == old(self).cached(
                    sc.0 as int,
                )[0] && final(self).cached(sc.0 as int) == old(self).cached(sc.0 as int).subrange(
                    1,
                    old(self).cached(sc.0 as int).len() as int,
                ),
                None => old(self).cached(sc.0 as int).len() == 0 && final(self).cached(sc.0 as int)
                    == old(self).cached(sc.0 as int),
            },
    {
        let ghost before = self.caches@;
        proof {
            before[sc.0 as int].ring.lemma_view_len(before[sc.0 as int].store@);
        }
        let bin: &mut CacheBin = &mut self.caches[sc.0];
        let r: Option<usize> = bin.ring.pop(&bin.store);
        proof {
            assert forall|c: int| 0 <= c < NSCLASSES implies (#[trigger] self.caches@[c]).ring.wf(
                self.caches@[c].store@.len(),
            ) && self.caches@[c].store@.len() == crate::classes::spec_cache_slots(c) by {
                if c != sc.0 as int {
                    assert(before[c].ring.wf(before[c].store@.len()));
                }
            }
        }
        r
    }

    /// Appends `ptr` to the ring of class `sc`; tells whether there was room.
    fn push_cached(&mut self, sc: SizeClassIndex, ptr: usize) -> (r: bool)
        requires
            old(self).wf(),
            sc.0 < NSCLASSES,
        ensures
            final(self).wf(),
            final(self).slots(sc.0 as int) == old(self).slots(sc.0 as int),
            forall|c: int|
                0 <= c < NSCLASSES && c != sc.0 ==> #[trigger] final(self).cached(c) == old(self).cached(c),
            r == (old(self).cached(sc.0 as int).len() < old(self).slots(sc.0 as int)),
            final(self).cached(sc.0 as int) == if r {
                old(self).cached(sc.0 as int).push(ptr)
            } else {
                old(self).cached(sc.0 as int)
            },
    {
        let ghost before = self.caches@;
        proof {
            before[sc.0 as int].ring.lemma_view_len(before[sc.0 as int].store@);
        }
        let bin: &mut CacheBin = &mut self.caches[sc.0];
        let pushed = bin.ring.push(&mut bin.store, ptr);
        proof {
            assert forall|c: int| 0 <= c < NSCLASSES implies (#[trigger] self.caches@[c]).ring.wf(
                self.caches@[c].store@.len(),
            ) && self.caches@[c].store@.len() == crate::classes::spec_cache_slots(c) by {
                if c != sc.0 as int {
                    assert(before[c].ring.wf(before[c].store@.len()));
                }
            }
        }
        pushed.is_ok()
    }

    /// Whether the ring of class `sc` has no free slot.
    fn is_full(&self, sc: SizeClassIndex) -> (r: bool)
        requires
            self.wf(),
            sc.0 < NSCLASSES,
        ensures
            r == (self.cached(sc.0 as int).len() == self.slots(sc.0 as int)),
    {
        proof {
            self.caches@[sc.0 as int].ring.lemma_view_len(self.caches@[sc.0 as int].store@);
        }
        self.caches[sc.0].ring.is_full(&self.caches[sc.0].store)
    }

    /// What handing `ptr` back does to the directory `before` with
    /// result `r`. Where `ptr` resolves to a region of a size class, the
    /// arena that the entry names takes it back, every other arena is as
    /// it was, and the result is the arena's. Else nothing changes, and
    /// the result is `Ok`.
    pub open spec fn handed_back(before: Static, after: Static, ptr: usize, r: TCacheResult<()>) -> bool {
        if before.spec_lookup(ptr) is Some && before.spec_lookup(ptr)->0 is Class {
            let id = before.spec_lookup(ptr)->0->Class_0.arena;
            &&& after.others_kept(before, id)
            &&& before.spec_arena(id) is Some
            &&& after.spec_arena(id) is Some
            &&& after.spec_arena(id)->0.took_back(
                before.spec_arena(id)->0,
                before.spec_map(),
                after.spec_map(),
                ptr,
                match r {
                    Ok(()) => Ok(()),
                    Err(e) => Err(e->ArenaError_0),
                },
            )
            &&& r is Err ==> r->Err_0 is ArenaError
        } else {
            r is Ok && after == before
        }
    }

    /// Hands `ptr` to the arena that owns it, if it is a region of a size class.
    fn hand_back<S: System>(heap: &mut Static, sys: &S, ptr: usize) -> (r: TCacheResult<()>)
        requires
            old(heap).wf(),
        ensures
            final(heap).wf(),
            old(heap).coherent() ==> final(heap).coherent(),
            Self::handed_back(*old(heap), *final(heap), ptr, r),
            r matches Err(e) ==> e is ArenaError,
            !(old(heap).spec_lookup(ptr) matches Some(Entry::Class(_))) ==> r is Ok && *final(heap)
                == *old(heap),
            final(heap).only_freed(*old(heap)),
            old(heap).coherent() && old(heap).is_live(ptr) ==> final(heap).frees_only(*old(heap), ptr)
                && !final(heap).is_live(ptr),
    {
        proof {
            if old(heap).coherent() && old(heap).is_live(ptr) {
                let (id, c) = choose|id: ArenaId, c: SizeClassIndex| #[trigger]
                    heap.arena_holds(id, ptr, c);
                heap.lemma_live_resolves(id, ptr, c);
            }
        }
        if let Some(Entry::Class(class_entry)) = heap.lookup(ptr) {
            if let Err(e) = heap.deallocate_in(sys, class_entry.arena(), ptr) {
                return Err(TCacheError::ArenaError(e));
            }
        }
        Ok(())
    }

    /// Takes back a region of class `sc`. A full ring first hands the
    /// older half of its addresses to the arenas that own them.
    pub fn deallocate<S: System>(&mut self, heap: &mut Static, sys: &S, ptr: usize, sc: SizeClassIndex) -> (r:
        TCacheResult<()>)
        requires
            old(self).wf(),
            old(heap).wf(),
            sc.0 < NSCLASSES,
        ensures
            final(self).wf(),
            final(heap).wf(),
            old(heap).coherent() ==> final(heap).coherent(),
            forall|c: int|
                0 <= c < NSCLASSES && c != sc.0 ==> #[trigger] final(self).cached(c) == old(self).cached(c),
            old(self).cached(sc.0 as int).len() < old(self).slots(sc.0 as int) ==> r is Ok
                && final(self).cached(sc.0 as int) == old(self).cached(sc.0 as int).push(ptr)
                && *final(heap) == *old(heap),
            old(self).cached(sc.0 as int).len() == old(self).slots(sc.0 as int) ==> match r {
                Ok(()) => final(self).cached(sc.0 as int) == old(self).cached(sc.0 as int).subrange(
                    old(self).cached(sc.0 as int).len() as int / 2,
                    old(self).cached(sc.0 as int).len() as int,
                ).push(ptr),
                Err(e) => e is ArenaError && final(self).left_after(*old(self), sc.0 as int),
            },
            final(heap).only_freed(*old(heap)),
            old(heap).coherent() && old(self).tidy(*old(heap)) && old(heap).is_live(ptr)
                && !old(self).holds(ptr)
                ==> final(self).tidy_took(*old(self), *old(heap), *final(heap), ptr, r is Ok),
    {
        proof {
            self.lemma_wf(sc.0 as int);
        }
        let ghost tidy = old(heap).coherent() && old(self).tidy(*old(heap)) && old(heap).is_live(ptr)
            && !old(self).holds(ptr);
        proof {
            if tidy {
                self.lemma_tidy_same(*old(self), *heap);
            }
        }
        let should_flush: bool = self.is_full(sc);
        if should_flush {
            if let Err(e) = self.flush_cache(heap, sys, sc) {
                return Err(e);
            }
        }
        let ghost mid = *heap;
        let ghost ready = *self;
        proof {
            ready.lemma_wf(sc.0 as int);
        }
        if !self.push_cached(sc, ptr) {
            let r = Self::hand_back(heap, sys, ptr);
            proof {
                heap.lemma_only_freed_twice(mid, *old(heap));
            }
            return r;
        }
        proof {
            if tidy {
                assert(self.differs_at(ready, sc.0 as int, ready.cached(sc.0 as int).push(ptr)));
                self.lemma_tidy_pushed(ready, mid, sc.0 as int, ptr);
                assert forall|q: usize| #[trigger] self.holds(q) implies old(self).holds(q) || q
                    == ptr by {
                    if q != ptr {
                        assert(ready.holds(q));
                    }
                }
            }
        }
        Ok(())
    }

    /// The ring of class `sc` is what a handing back of the older half
    /// of the ring of `before` left when an arena refused a region: the
    /// regions from the refused one on are gone from the ring's front,
    /// and the newer half is still there.
    pub open spec fn left_after(&self, before: TCache, sc: int) -> bool {
        let gone = before.cached(sc).len() - self.cached(sc).len();
        &&& 0 < gone <= before.cached(sc).len() / 2
        &&& self.cached(sc) == before.cached(sc).subrange(gone, before.cached(sc).len() as int)
    }

    /// Hands the older half of the ring of class `sc` to the arenas that
    /// own the regions. Where an arena refuses a region, the error is
    /// the arena's, and the regions behind the refused one stay in the
    /// ring.
    fn flush_cache<S: System>(&mut self, heap: &mut Static, sys: &S, sc: SizeClassIndex) -> (r:
        TCacheResult<()>)
        requires
            old(self).wf(),
            old(heap).wf(),
            sc.0 < NSCLASSES,
        ensures
            final(self).wf(),
            final(heap).wf(),
            old(heap).coherent() ==> final(heap).coherent(),
            forall|c: int|
                0 <= c < NSCLASSES && c != sc.0 ==> #[trigger] final(self).cached(c) == old(self).cached(c),
            match r {
                Ok(()) => final(self).cached(sc.0 as int) == old(self).cached(sc.0 as int).subrange(
                    old(self).cached(sc.0 as int).len() as int / 2,
                    old(self).cached(sc.0 as int).len() as int,
                ),
                Err(e) => e is ArenaError && final(self).left_after(*old(self), sc.0 as int),
            },
            old(self).cached(sc.0 as int).len() < 2 ==> r is Ok && *final(heap) == *old(heap),
            final(heap).only_freed(*old(heap)),
            old(heap).coherent() && old(self).tidy(*old(heap)) ==> final(self).tidy_flushed(
                *old(self),
                *old(heap),
                *final(heap),
            ),
    {
        let ghost start = self.cached(sc.0 as int);
        proof {
            if old(self).tidy(*old(heap)) {
                self.lemma_tidy_same(*old(self), *heap);
            }
        }
        proof {
            self.caches@[sc.0 as int].ring.lemma_view_len(self.caches@[sc.0 as int].store@);
        }
        let flush_count: usize = self.caches[sc.0].ring.len() / 2;
        let mut i: usize = 0;
        while i < flush_count
            invariant
                self.wf(),
                heap.wf(),
                old(heap).coherent() ==> heap.coherent(),
                heap.only_freed(*old(heap)),
                old(heap).coherent() && old(self).tidy(*old(heap)) ==> self.tidy_flushed(
                    *old(self),
                    *old(heap),
                    *heap,
                ),
                sc.0 < NSCLASSES,
                i <= flush_count,
                i == 0 ==> *heap == *old(heap),
                flush_count == start.len() / 2,
                start == old(self).cached(sc.0 as int),
                self.cached(sc.0 as int) == start.subrange(i as int, start.len() as int),
                forall|c: int|
                    0 <= c < NSCLASSES && c != sc.0 ==> #[trigger] self.cached(c) == old(self).cached(c),
            decreases flush_count - i,
        {
            let ghost held = *self;
            match self.pop_cached(sc) {
                Some(ptr) => {
                    proof {
                        assert(start.subrange(i as int, start.len() as int).subrange(
                            1,
                            start.len() - i,
                        ) =~= start.subrange(i + 1, start.len() as int));
                    }
                    let ghost mid = *heap;
                    let handed = Self::hand_back(heap, sys, ptr);
                    proof {
                        heap.lemma_only_freed_twice(mid, *old(heap));
                        if old(heap).coherent() && old(self).tidy(*old(heap)) {
                            self.lemma_flushed_one(
                                *old(self),
                                held,
                                *old(heap),
                                mid,
                                *heap,
                                sc.0 as int,
                                ptr,
                            );
                        }
                    }
                    if let Err(e) = handed {
                        return Err(e);
                    }
                },
                None => {
                    proof {
                        assert(false);
                    }
                },
            }
            i += 1;
        }
        Ok(())
    }

    /// Every ring is empty.
    pub open spec fn holds_nothing(&self) -> bool {
        forall|c: int| 0 <= c < NSCLASSES ==> (#[trigger] self.cached(c)).len() == 0
    }

    /// Hands every cached region to the arena that owns it. Where an
    /// arena refuses a region, the error is the arena's, and the regions
    /// behind the refused one stay cached. With a tidy cache, every
    /// region that left the cache is live no longer.
    pub fn flush_all<S: System>(&mut self, heap: &mut Static, sys: &S) -> (r: TCacheResult<()>)
        requires
            old(self).wf(),
            old(heap).wf(),
        ensures
            final(self).wf(),
            final(heap).wf(),
            old(heap).coherent() ==> final(heap).coherent(),
            match r {
                Ok(()) => forall|c: int|
                    0 <= c < NSCLASSES ==> #[trigger] final(self).cached(c) == Seq::<usize>::empty(),
                Err(e) => e is ArenaError,
            },
            final(heap).only_freed(*old(heap)),
            old(heap).coherent() && old(self).tidy(*old(heap)) ==> final(self).tidy_flushed(
                *old(self),
                *old(heap),
                *final(heap),
            ),
            old(self).holds_nothing() ==> r is Ok && *final(heap) == *old(heap),
    {
        proof {
            if old(self).tidy(*old(heap)) {
                self.lemma_tidy_same(*old(self), *heap);
            }
        }
        let mut i: usize = 0;
        while i < NSCLASSES
            invariant
                self.wf(),
                heap.wf(),
                forall|c: int| i <= c < NSCLASSES ==> #[trigger] self.cached(c) == old(self).cached(c),
                old(self).holds_nothing() ==> *heap == *old(heap),
                old(heap).coherent() ==> heap.coherent(),
                heap.only_freed(*old(heap)),
                old(heap).coherent() && old(self).tidy(*old(heap)) ==> self.tidy_flushed(
                    *old(self),
                    *old(heap),
                    *heap,
                ),
                i <= NSCLASSES,
                forall|c: int| 0 <= c < i ==> #[trigger] self.cached(c) == Seq::<usize>::empty(),
            decreases NSCLASSES - i,
        {
            let sc: SizeClassIndex = SizeClassIndex(i);
            proof {
                self.lemma_wf(i as int);
            }
            let mut left: usize = self.caches[i].ring.len();
            proof {
                self.caches@[i as int].ring.lemma_view_len(self.caches@[i as int].store@);
            }
            while left > 0
                invariant
                    self.wf(),
                    heap.wf(),
                    old(heap).coherent() ==> heap.coherent(),
                    heap.only_freed(*old(heap)),
                    old(heap).coherent() && old(self).tidy(*old(heap)) ==> self.tidy_flushed(
                        *old(self),
                        *old(heap),
                        *heap,
                    ),
                    i < NSCLASSES,
                    sc.0 == i,
                    left == self.cached(i as int).len(),
                    forall|c: int|
                        i < c < NSCLASSES ==> #[trigger] self.cached(c) == old(self).cached(c),
                    old(self).holds_nothing() ==> *heap == *old(heap) && self.cached(i as int)
                        == old(self).cached(i as int),
                    forall|c: int| 0 <= c < i ==> #[trigger] self.cached(c) == Seq::<usize>::empty(),
                decreases left,
            {
                let ghost held = *self;
                match self.pop_cached(sc) {
                    Some(ptr) => {
                        let ghost mid = *heap;
                        let handed = Self::hand_back(heap, sys, ptr);
                        proof {
                            heap.lemma_only_freed_twice(mid, *old(heap));
                            if old(heap).coherent() && old(self).tidy(*old(heap)) {
                                self.lemma_flushed_one(
                                    *old(self),
                                    held,
                                    *old(heap),
                                    mid,
                                    *heap,
                                    sc.0 as int,
                                    ptr,
                                );
                            }
                        }
                        if let Err(e) = handed {
                            return Err(e);
                        }
                    },
                    None => {},
                }
                left = left - 1;
            }
            proof {
                assert(self.cached(i as int) =~= Seq::<usize>::empty());
            }
            i += 1;
        }
        Ok(())
    }

    /// Returns the backing extent to the host.
    pub fn release<S: System>(self, sys: &S) {
        let _ = self.backing.release(sys);
    }
}

} // verus!
