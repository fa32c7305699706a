use vstd::prelude::*;
use crate::arena::{Arena, ArenaError, ArenaResult};
use crate::bitmap::Bitmap;
use crate::classes::{SizeClass, SizeClassIndex, NSCLASSES};
use crate::extent::Extent;
use crate::layout::Layout;
use crate::lookup::{ArenaId, ArenaMap, LookupError, OwnerInfo};
use crate::system::System;
use crate::{ARENA_BMS, CHUNK_SIZE, MAX_ARENAS};

verus! {

/// The index under which the fallback arena files its pages.
pub const FALLBACK_ARENA: usize = usize::MAX;

/// A region of a slab, as a pointer resolves to it.
#[derive(Clone, Copy, Debug, PartialEq, Eq, Structural)]
pub struct ClassEntry {
    pub slab: usize,
    pub class: SizeClass,
    pub arena: ArenaId,
}

impl ClassEntry {
    pub open spec fn view(&self) -> (usize, SizeClass, ArenaId) {
        (self.slab, self.class, self.arena)
    }

    fn new(slab: usize, class: SizeClass, arena: ArenaId) -> (r: Self)
        ensures
            r@ == (slab, class, arena),
    {
        Self { slab, class, arena }
    }

    pub fn slab(&self) -> (r: usize)
        ensures
            r == self@.0,
    {
        self.slab
    }

    pub fn class(&self) -> (r: SizeClass)
        ensures
            r == self@.1,
    {
        self.class
    }

    pub fn arena(&self) -> (r: ArenaId)
        ensures
            r == self@.2,
    {
        self.arena
    }
}

/// What a pointer resolves to: a region of a size class, or a large extent.
#[derive(Clone, Copy, Debug, PartialEq, Eq, Structural)]
pub enum Entry {
    Class(ClassEntry),
    Large(Extent),
}

impl Entry {
    fn new_sc(entry: ClassEntry) -> (r: Self)
        ensures
            r == Entry::Class(entry),
    {
        Entry::Class(entry)
    }

    fn new_large(extent: Extent) -> (r: Self)
        ensures
            r == Entry::Large(extent),
    {
        Entry::Large(extent)
    }
}

/// The process-wide state of the allocator: the directory of arenas with
/// its occupancy flags, the fallback arena, and the map from pages to arenas.
pub struct Static {
    arenas: Vec<Option<Arena>>,
    bitmap: Bitmap,
    last: usize,
    fallback: Option<Arena>,
    arena_map: ArenaMap,
}

impl Static {
    /// The arenas of the directory, by slot.
    pub closed spec fn spec_arenas(&self) -> Seq<Option<Arena>> {
        self.arenas@
    }

    pub closed spec fn spec_fallback(&self) -> Option<Arena> {
        self.fallback
    }

    /// The slot at which the next search for a free slot starts.
    pub closed spec fn spec_last(&self) -> usize {
        self.last
    }

    /// Which slots of the directory are taken.
    pub closed spec fn spec_taken(&self) -> Seq<bool> {
        self.bitmap@
    }

    /// The arena of every page, by the path of the page.
    pub closed spec fn spec_map(&self) -> Map<Seq<usize>, ArenaId> {
        self.arena_map@
    }

    /// The map that holds the arena of every page.
    pub closed spec fn spec_arena_map(&self) -> ArenaMap {
        self.arena_map
    }

    /// The arena that `id` names, if the directory holds it.
    pub open spec fn spec_arena(&self, id: ArenaId) -> Option<Arena> {
        if id.0 == FALLBACK_ARENA {
            self.spec_fallback()
        } else if id.0 < self.spec_arenas().len() {
            self.spec_arenas()[id.0 as int]
        } else {
            None
        }
    }

    pub closed spec fn wf(&self) -> bool {
        &&& self.arenas@.len() == MAX_ARENAS
        &&& self.bitmap.wf()
        &&& self.bitmap@.len() == ARENA_BMS
        &&& self.last < ARENA_BMS
        &&& self.arena_map.wf()
        &&& forall|i: int|
            0 <= i < MAX_ARENAS ==> ((#[trigger] self.arenas@[i]) matches Some(a) ==> a.wf()
                && a.spec_index().0 == i)
        &&& self.fallback matches Some(a) ==> a.wf() && a.spec_index().0 == FALLBACK_ARENA
    }

    /// Every arena of the directory is coherent with the arena map.
    pub open spec fn coherent(&self) -> bool {
        forall|id: ArenaId| #[trigger] self.arena_coherent(id)
    }

    /// The arena that `id` names, if there is one, is coherent with the arena map.
    pub open spec fn arena_coherent(&self, id: ArenaId) -> bool {
        self.spec_arena(id) matches Some(a) ==> a.coherent(self.spec_map())
    }

    pub proof fn lemma_wf(&self)
        requires
            self.wf(),
        ensures
            self.spec_arenas().len() == MAX_ARENAS,
            self.spec_taken().len() == ARENA_BMS,
            forall|id: ArenaId|
                (#[trigger] self.spec_arena(id)) matches Some(a) ==> a.wf() && a.spec_index() == id,
    {
    }

    /// An empty directory over the occupancy flags in `store`.
    pub fn new(store: Vec<u64>) -> (r: Self)
        requires
            store@.len() * 64 >= ARENA_BMS,
        ensures
            r.wf(),
            forall|i: int| 0 <= i < MAX_ARENAS ==> r.spec_arenas()[i] is None,
            r.spec_fallback() is None,
            r.spec_taken() == Seq::new(ARENA_BMS as nat, |g: int| false),
            r.spec_map() == Map::<Seq<usize>, ArenaId>::empty(),
            r.coherent(),
    {
        let bitmap: Bitmap = match Bitmap::zero(store, ARENA_BMS) {
            Ok(b) => b,
            Err(_) => {
                proof {
                    assert(false);
                }
                Bitmap::empty()
            },
        };
        let mut arenas: Vec<Option<Arena>> = Vec::new();
        let mut i: usize = 0;
        while i < MAX_ARENAS
            invariant
                i <= MAX_ARENAS,
                arenas@.len() == i,
                forall|j: int| 0 <= j < i ==> arenas@[j] is None,
            decreases MAX_ARENAS - i,
        {
            arenas.push(None);
            i += 1;
        }
        proof {
            bitmap.lemma_view_len();
        }
        Self { arenas, bitmap, last: 0, fallback: None, arena_map: ArenaMap::new(CHUNK_SIZE) }
    }

    pub fn bitmap(&self) -> (r: &Bitmap)
        ensures
            r@ == self.spec_taken(),
    {
        &self.bitmap
    }

    pub fn arena_map(&self) -> (r: &ArenaMap)
        ensures
            r@ == self.spec_map(),
            self.wf() ==> r.wf(),
    {
        &self.arena_map
    }

    /// Whether the directory holds an arena in slot `at`.
    pub fn has_arena(&self, at: usize) -> (r: bool)
        ensures
            r == (at < self.spec_arenas().len() && self.spec_arenas()[at as int] is Some),
    {
        at < self.arenas.len() && self.arenas[at].is_some()
    }

    /// Creates the arena of slot `at`: an arena without slabs and large
    /// extents, with the slot as its index. Nothing but a refusal of
    /// the host keeps the arena from being created; the directory is
    /// then as it was.
    fn create_arena<S: System>(&mut self, sys: &S, at: usize) -> (r: ArenaResult<ArenaId>)
        requires
            old(self).wf(),
            at < MAX_ARENAS,
        ensures
            final(self).wf(),
            r matches Err(e) ==> e is BumpError && e->BumpError_0 is ExtentError,
            r is Ok ==> final(self).spec_arenas()[at as int]->0.spec_index() == ArenaId(at)
                && final(self).spec_arenas()[at as int]->0.spec_owners() == Map::<
                Seq<usize>,
                OwnerInfo,
            >::empty() && final(self).spec_arenas()[at as int]->0.spec_larges() == Set::<
                crate::system::MemSlice,
            >::empty(),
            final(self).spec_taken() == old(self).spec_taken(),
            final(self).spec_map() == old(self).spec_map(),
            final(self).spec_fallback() == old(self).spec_fallback(),
            old(self).coherent() ==> final(self).coherent(),
            final(self).spec_last() == old(self).spec_last(),
            r is Ok ==> final(self).spec_arenas()[at as int] is Some
                && final(self).spec_arenas()[at as int]->0.spec_slabs().len() == 0,
            match r {
                Ok(id) => id.0 == at && final(self).spec_arenas()[at as int] is Some && forall|
                    i: int,
                |
                    0 <= i < MAX_ARENAS && i != at ==> final(self).spec_arenas()[i]
                        == old(self).spec_arenas()[i],
                Err(_) => final(self).spec_arenas() == old(self).spec_arenas(),
            },
    {
        proof {
            assert(8usize & ((8usize - 1) as usize) == 0) by (bit_vector);
            crate::math::lemma_single_bit_is_pow2(8);
            crate::prim::lemma_page_size_is_pow2();
            crate::math::lemma_align_up_bounds(crate::arena::ARENA_HEADER_SIZE, 8);
        }
        let arena: Arena = match Arena::new(sys, ArenaId(at), CHUNK_SIZE) {
            Ok(a) => a,
            Err(e) => return Err(e),
        };
        self.arenas.set(at, Some(arena));
        proof {
            if old(self).coherent() {
                assert forall|id: ArenaId| #[trigger] self.arena_coherent(id) by {
                    if id.0 != at {
                        assert(self.spec_arena(id) == old(self).spec_arena(id));
                        assert(old(self).arena_coherent(id));
                    }
                }
            }
        }
        Ok(ArenaId(at))
    }

    /// What `acquire_arena` does to the directory `before` with result
    /// `r`. The slot is the first free one at or after the cursor,
    /// wrapping around once. Without a free slot nothing changes. Else
    /// the slot is marked as taken and the cursor moves behind it; the
    /// slot's arena is kept where it has one, and created where it has
    /// none. The result is `None` only where no slot is free or the
    /// arena could not be created.
    pub open spec fn acquired(&self, before: Static, r: Option<ArenaId>) -> bool {
        if self.spec_taken() == before.spec_taken() {
            &&& r is None
            &&& crate::bitmap::is_wrapping_first(
                before.spec_taken(),
                false,
                before.spec_last() as int,
                None,
            )
            &&& self.spec_arenas() == before.spec_arenas()
            &&& self.spec_last() == before.spec_last()
        } else {
            let slot = ((self.spec_last() + ARENA_BMS - 1) % (ARENA_BMS as int)) as usize;
            &&& crate::bitmap::is_wrapping_first(
                before.spec_taken(),
                false,
                before.spec_last() as int,
                Some(slot),
            )
            &&& self.spec_taken() == before.spec_taken().update(slot as int, true)
            &&& forall|i: int|
                0 <= i < MAX_ARENAS && i != slot ==> #[trigger] self.spec_arenas()[i]
                    == before.spec_arenas()[i]
            &&& before.spec_arenas()[slot as int] is Some ==> self.spec_arenas()[slot as int]
                == before.spec_arenas()[slot as int] && r == Some(ArenaId(slot))
            &&& before.spec_arenas()[slot as int] is None ==> match r {
                Some(id) => id == ArenaId(slot) && self.spec_arenas()[slot as int] is Some
                    && self.spec_arenas()[slot as int]->0.spec_slabs().len() == 0,
                None => self.spec_arenas()[slot as int] is None,
            }
        }
    }

    /// Takes a free slot of the directory, searching from the slot after
    /// the one taken last, and creates its arena where it has none.
    pub fn acquire_arena<S: System>(&mut self, sys: &S) -> (r: Option<ArenaId>)
        requires
            old(self).wf(),
        ensures
            final(self).wf(),
            final(self).spec_map() == old(self).spec_map(),
            final(self).spec_fallback() == old(self).spec_fallback(),
            old(self).coherent() ==> final(self).coherent(),
            match r {
                Some(id) => id.0 < MAX_ARENAS && !old(self).spec_taken()[id.0 as int]
                    && final(self).spec_taken() == old(self).spec_taken().update(id.0 as int, true)
                    && final(self).spec_arenas()[id.0 as int] is Some,
                None => true,
            },
            (forall|i: int| 0 <= i < ARENA_BMS ==> old(self).spec_taken()[i]) ==> r is None
                && final(self).spec_taken() == old(self).spec_taken(),
            final(self).acquired(*old(self), r),
            final(self).keeps_live(*old(self)),
            final(self).keeps_lookups(*old(self)),
    {
        proof {
            self.bitmap.lemma_view_len();
        }
        let idx: usize = match self.bitmap.find_fc(Some(self.last)) {
            Some(v) => v,
            None => return None,
        };
        assert(!old(self).spec_taken()[idx as int]);
        if self.bitmap.set(idx).is_err() {
            return None;
        }
        proof {
            self.bitmap.lemma_view_len();
        }
        self.last = (idx + 1) % ARENA_BMS;
        proof {
            if old(self).coherent() {
                assert forall|id: ArenaId| #[trigger] self.arena_coherent(id) by {
                    assert(self.spec_arena(id) == old(self).spec_arena(id));
                    assert(old(self).arena_coherent(id));
                }
            }
        }
        if self.arenas[idx].is_some() {
            return Some(ArenaId(idx));
        }
        match self.create_arena(sys, idx) {
            Ok(id) => Some(id),
            Err(_) => None,
        }
    }

    /// Gives slot `id` back to the directory and ends its arena.
    pub fn release_arena<S: System>(&mut self, sys: &S, id: ArenaId)
        requires
            old(self).wf(),
        ensures
            final(self).wf(),
            final(self).spec_fallback() == old(self).spec_fallback(),
            old(self).coherent() ==> final(self).coherent(),
            id.0 < MAX_ARENAS ==> final(self).spec_taken() == old(self).spec_taken().update(
                id.0 as int,
                false,
            ) && final(self).spec_arenas() == old(self).spec_arenas().update(id.0 as int, None),
            id.0 >= MAX_ARENAS ==> final(self).spec_taken() == old(self).spec_taken()
                && final(self).spec_arenas() == old(self).spec_arenas() && final(self).spec_map()
                == old(self).spec_map(),
    {
        proof {
            self.bitmap.lemma_view_len();
        }
        let idx: usize = id.0;
        if idx >= MAX_ARENAS {
            return ;
        }
        let _ = self.bitmap.clear(idx);
        proof {
            self.bitmap.lemma_view_len();
        }
        let gone: Option<Arena> = self.arenas[idx].take();
        if let Some(arena) = gone {
            arena.release(sys, &mut self.arena_map);
            proof {
                if old(self).coherent() {
                    assert(old(self).spec_arena(id) == Some(arena));
                    assert forall|other: ArenaId| #[trigger] self.arena_coherent(other) by {
                        if self.spec_arena(other) is Some {
                            assert(other != id);
                            assert(old(self).spec_arena(other) == self.spec_arena(other));
                            assert(old(self).arena_coherent(other));
                            assert(old(self).arena_coherent(id));
                            old(self).lemma_wf();
                            let a = self.spec_arena(other)->0;
                            assert(a.coherent(old(self).spec_map()));
                            assert(a.coherent(self.spec_map()));
                        }
                    }
                }
            }
        } else {
            proof {
                if old(self).coherent() {
                    assert forall|other: ArenaId| #[trigger] self.arena_coherent(other) by {
                        assert(old(self).spec_arena(other) == self.spec_arena(other));
                        assert(old(self).arena_coherent(other));
                    }
                }
            }
        }
    }

    /// Makes sure that the fallback arena exists.
    pub fn ensure_fallback<S: System>(&mut self, sys: &S) -> (r: bool)
        requires
            old(self).wf(),
        ensures
            final(self).wf(),
            final(self).spec_map() == old(self).spec_map(),
            final(self).spec_arenas() == old(self).spec_arenas(),
            final(self).spec_taken() == old(self).spec_taken(),
            old(self).coherent() ==> final(self).coherent(),
            r == final(self).spec_fallback() is Some,
            old(self).spec_fallback() is Some ==> r && final(self).spec_fallback()
                == old(self).spec_fallback(),
            final(self).keeps_live(*old(self)),
            final(self).keeps_lookups(*old(self)),
    {
        if self.fallback.is_some() {
            return true;
        }
        match Arena::new(sys, ArenaId(FALLBACK_ARENA), CHUNK_SIZE) {
            Ok(a) => {
                self.fallback = Some(a);
                proof {
                    if old(self).coherent() {
                        assert forall|id: ArenaId| #[trigger] self.arena_coherent(id) by {
                            if id.0 != FALLBACK_ARENA {
                                assert(self.spec_arena(id) == old(self).spec_arena(id));
                                assert(old(self).arena_coherent(id));
                            }
                        }
                    }
                }
                true
            },
            Err(_) => false,
        }
    }

    /// What `at` points into: the arena map names the arena, and the
    /// arena's extent tree names the slab or the extent.
    pub fn lookup(&self, at: usize) -> (r: Option<Entry>)
        requires
            self.wf(),
        ensures
            r == self.spec_lookup(at),
    {
        let id: ArenaId = match self.arena_map.lookup(at) {
            Some(v) => v,
            None => return None,
        };
        if id.0 == FALLBACK_ARENA {
            match &self.fallback {
                Some(arena) => Self::resolve(arena, id, at),
                None => None,
            }
        } else if id.0 < self.arenas.len() {
            match &self.arenas[id.0] {
                Some(arena) => Self::resolve(arena, id, at),
                None => None,
            }
        } else {
            None
        }
    }

    /// The entry that `lookup` owes for `at`.
    pub open spec fn spec_lookup(&self, at: usize) -> Option<Entry> {
        if !self.spec_map().contains_key(crate::lookup::page_path(at)) {
            None
        } else {
            match self.spec_arena(self.spec_map()[crate::lookup::page_path(at)]) {
                Some(arena) => Self::spec_resolve(
                    arena,
                    self.spec_map()[crate::lookup::page_path(at)],
                    at,
                ),
                None => None,
            }
        }
    }

    /// The entry of `at` in the extent tree of `arena`.
    pub open spec fn spec_resolve(arena: Arena, id: ArenaId, at: usize) -> Option<Entry> {
        if !arena.spec_owners().contains_key(crate::lookup::page_path(at)) {
            None
        } else {
            match arena.spec_owners()[crate::lookup::page_path(at)] {
                OwnerInfo::Slab { slab, size_class } => Some(
                    Entry::Class(
                        ClassEntry {
                            slab,
                            class: arena.spec_slabs()[slab as int].spec_class(),
                            arena: id,
                        },
                    ),
                ),
                OwnerInfo::Extent { extent } => Some(Entry::Large(extent)),
            }
        }
    }

    fn resolve(arena: &Arena, id: ArenaId, at: usize) -> (r: Option<Entry>)
        requires
            arena.wf(),
        ensures
            r == Self::spec_resolve(*arena, id, at),
    {
        match arena.owner_of(at) {
            Some(OwnerInfo::Slab { slab, size_class }) => Some(
                Entry::new_sc(ClassEntry::new(slab, arena.slab_class(slab), id)),
            ),
            Some(OwnerInfo::Extent { extent }) => Some(Entry::new_large(extent)),
            None => None,
        }
    }

    /// Takes the arena that `id` names out of the directory.
    fn take_arena(&mut self, id: ArenaId) -> (r: Option<Arena>)
        requires
            old(self).wf(),
        ensures
            r == old(self).spec_arena(id),
            r matches Some(a) ==> a.wf() && a.spec_index() == id,
            final(self).bitmap == old(self).bitmap,
            final(self).last == old(self).last,
            final(self).arena_map == old(self).arena_map,
            final(self).arenas@.len() == old(self).arenas@.len(),
            id.0 == FALLBACK_ARENA ==> final(self).fallback is None && final(self).arenas@
                == old(self).arenas@,
            id.0 != FALLBACK_ARENA ==> final(self).fallback == old(self).fallback && (id.0
                < MAX_ARENAS ==> final(self).arenas@ == old(self).arenas@.update(
                id.0 as int,
                None,
            )) && (id.0 >= MAX_ARENAS ==> final(self).arenas@ == old(self).arenas@),
    {
        if id.0 == FALLBACK_ARENA {
            self.fallback.take()
        } else if id.0 < self.arenas.len() {
            self.arenas[id.0].take()
        } else {
            None
        }
    }

    /// Puts an arena back into the place that its index names.
    fn put_arena(&mut self, arena: Arena)
        requires
            old(self).arenas@.len() == MAX_ARENAS,
            arena.spec_index().0 == FALLBACK_ARENA || arena.spec_index().0 < MAX_ARENAS,
        ensures
            final(self).bitmap == old(self).bitmap,
            final(self).last == old(self).last,
            final(self).arena_map == old(self).arena_map,
            arena.spec_index().0 == FALLBACK_ARENA ==> final(self).fallback == Some(arena)
                && final(self).arenas@ == old(self).arenas@,
            arena.spec_index().0 != FALLBACK_ARENA ==> final(self).fallback == old(self).fallback
                && final(self).arenas@ == old(self).arenas@.update(
                arena.spec_index().0 as int,
                Some(arena),
            ),
    {
        let id: ArenaId = arena.index();
        if id.0 == FALLBACK_ARENA {
            self.fallback = Some(arena);
        } else {
            self.arenas.set(id.0, Some(arena));
        }
    }

    /// A large extent that the arena `id` has just served resolves to
    /// itself, from its base.
    pub proof fn lemma_large_lookup(&self, before: Arena, map_before: Map<Seq<usize>, ArenaId>,
        id: ArenaId, layout: Layout, p: usize)
        requires
            self.wf(),
            self.spec_arena(id) matches Some(after) && after.serves_large(
                before,
                map_before,
                self.spec_map(),
                layout,
                p,
            ),
            layout.spec_size() > 0,
        ensures
            p != 0,
            p % crate::prim::COMMON_PAGE_SIZE == 0,
            self.spec_lookup(p) matches Some(Entry::Large(e)) && e.slice.base == p && e.slice.len
                >= layout.spec_size() && e.slice.len % crate::prim::COMMON_PAGE_SIZE == 0
                && e.slice.len == crate::math::round_up(
                layout.spec_size() as int,
                crate::prim::COMMON_PAGE_SIZE as int,
            ),
            self.owned_by(
                (crate::system::MemSlice {
                    base: p,
                    len: crate::math::round_up(
                        layout.spec_size() as int,
                        crate::prim::COMMON_PAGE_SIZE as int,
                    ) as usize,
                }),
                id,
            ),
    {
        self.lemma_wf();
        let after = self.spec_arena(id)->0;
        crate::math::lemma_round_up_is_least(layout.spec_size() as int, 4096);
        let size = crate::math::round_up(layout.spec_size() as int, 4096) as usize;
        let slice = crate::system::MemSlice { base: p, len: size };
        let extent = Extent { slice, link: crate::list::Link::unlinked(), activated: true };
        crate::lookup::lemma_registered_filed::<ArenaId>(map_before, slice, after.spec_index());
        crate::lookup::lemma_registered_filed::<OwnerInfo>(
            before.spec_owners(),
            slice,
            OwnerInfo::Extent { extent },
        );
        assert(slice.contains(p as int));
    }

    /// After a step of the arena that `id` names, which left that arena
    /// coherent, the directory is coherent.
    proof fn lemma_step_coherent(&self, before: Static, id: ArenaId, stepping: Arena)
        requires
            before.wf(),
            before.coherent(),
            before.spec_arena(id) == Some(stepping),
            self.others_kept(before, id),
            Arena::map_step(stepping, before.spec_map(), self.spec_map()),
            self.arena_coherent(id),
        ensures
            self.coherent(),
    {
        before.lemma_wf();
        assert forall|other: ArenaId| #[trigger] self.arena_coherent(other) by {
            if other != id && self.spec_arena(other) is Some {
                assert(self.spec_arena(other) == before.spec_arena(other));
                assert(before.arena_coherent(other));
                let a = before.spec_arena(other)->0;
                a.lemma_map_step_keeps(stepping, before.spec_map(), self.spec_map());
            }
        }
    }

    /// The address `p` is the start of a live region of class `sc` in
    /// the arena that `id` names.
    pub open spec fn arena_holds(&self, id: ArenaId, p: usize, sc: SizeClassIndex) -> bool {
        self.spec_arena(id) is Some && self.spec_arena(id)->0.holds_live(p, sc)
    }

    /// The regions of class `sc` that the arena `id` can serve without
    /// the host; none where there is no such arena.
    pub open spec fn room(&self, id: ArenaId, sc: SizeClassIndex) -> int {
        if self.spec_arena(id) is Some {
            self.spec_arena(id)->0.room(sc)
        } else {
            0
        }
    }

    /// Some arena holds a live region that starts at `p`.
    pub open spec fn is_live(&self, p: usize) -> bool {
        exists|id: ArenaId, c: SizeClassIndex| #[trigger] self.arena_holds(id, p, c)
    }

    /// Two live regions of a coherent directory that start at different
    /// addresses do not overlap, whichever arenas hold them.
    pub proof fn lemma_live_apart(
        &self,
        a: ArenaId,
        p: usize,
        c: SizeClassIndex,
        b: ArenaId,
        q: usize,
        d: SizeClassIndex,
    )
        requires
            self.wf(),
            self.coherent(),
            self.arena_holds(a, p, c),
            self.arena_holds(b, q, d),
            p != q,
        ensures
            p + crate::classes::class_size(c.0 as int) <= q || q + crate::classes::class_size(
                d.0 as int,
            ) <= p,
    {
        self.lemma_wf();
        let x = self.spec_arena(a)->0;
        let y = self.spec_arena(b)->0;
        assert(self.arena_coherent(a));
        assert(self.arena_coherent(b));
        let (s, i) = choose|s: usize, i: int| #[trigger] x.live_at(s, i, p, c);
        let (t, j) = choose|t: usize, j: int| #[trigger] y.live_at(t, j, q, d);
        x.lemma_region_placed(s, i);
        y.lemma_region_placed(t, j);
        if a == b {
            x.lemma_regions_apart(self.spec_map(), s, i, t, j);
        } else {
            x.lemma_arenas_apart(y, self.spec_map(), s, t);
        }
    }

    /// Some arena holds a live region of class `c` that starts at `p`.
    pub open spec fn live_as(&self, p: usize, c: SizeClassIndex) -> bool {
        exists|id: ArenaId| #[trigger] self.arena_holds(id, p, c)
    }

    /// The size class of the live region that starts at `p`.
    pub open spec fn live_class(&self, p: usize) -> SizeClassIndex {
        choose|c: SizeClassIndex| #[trigger] self.live_as(p, c)
    }

    /// The bytes of the live region that starts at `p`.
    pub open spec fn live_size(&self, p: usize) -> int {
        crate::classes::class_size(self.live_class(p).0 as int)
    }

    /// Two live regions of a coherent directory that start at different
    /// addresses do not overlap, and neither starts at null.
    pub proof fn lemma_live_regions_apart(&self, p: usize, q: usize)
        requires
            self.wf(),
            self.coherent(),
            self.is_live(p),
            self.is_live(q),
            p != q,
        ensures
            p + self.live_size(p) <= q || q + self.live_size(q) <= p,
            p != 0,
            q != 0,
            self.live_size(p) > 0,
            self.live_size(q) > 0,
    {
        let (a0, c0) = choose|id: ArenaId, c: SizeClassIndex| #[trigger] self.arena_holds(id, p, c);
        let (b0, d0) = choose|id: ArenaId, c: SizeClassIndex| #[trigger] self.arena_holds(id, q, c);
        assert(self.live_as(p, c0));
        assert(self.live_as(q, d0));
        let c = self.live_class(p);
        let d = self.live_class(q);
        let a = choose|id: ArenaId| #[trigger] self.arena_holds(id, p, c);
        let b = choose|id: ArenaId| #[trigger] self.arena_holds(id, q, d);
        self.lemma_live_apart(a, p, c, b, q, d);
        self.lemma_wf();
        self.spec_arena(a)->0.lemma_live_placed(p, c);
        self.spec_arena(b)->0.lemma_live_placed(q, d);
        crate::classes::lemma_classes_monotonic(c.0 as int);
        crate::classes::lemma_classes_monotonic(d.0 as int);
    }

    /// The live region that an arena holds at `p` has the class under
    /// which the arena holds it.
    pub proof fn lemma_live_class(&self, id: ArenaId, p: usize, c: SizeClassIndex)
        requires
            self.wf(),
            self.coherent(),
            self.arena_holds(id, p, c),
        ensures
            self.is_live(p),
            self.live_class(p) == c,
            self.live_size(p) == crate::classes::class_size(c.0 as int),
    {
        assert(self.live_as(p, c));
        let d = self.live_class(p);
        let b = choose|b: ArenaId| #[trigger] self.arena_holds(b, p, d);
        self.lemma_live_once(id, c, b, d, p);
    }

    /// Every region that was live in `before`, but for one that starts
    /// at `ptr`, is live.
    pub open spec fn frees_only(&self, before: Static, ptr: usize) -> bool {
        forall|p: usize| p != ptr && (#[trigger] before.is_live(p)) ==> self.is_live(p)
    }

    /// Every address that resolved in `before` resolves to the same entry.
    pub open spec fn keeps_lookups(&self, before: Static) -> bool {
        forall|x: usize|
            (#[trigger] before.spec_lookup(x)) is Some ==> self.spec_lookup(x) == before.spec_lookup(
                x,
            )
    }

    /// Every address that an arena owned in `before` it still owns.
    pub open spec fn keeps_owners(&self, before: Static) -> bool {
        forall|x: usize|
            (#[trigger] before.spec_owner_of(x)) is Some ==> self.spec_owner_of(x)
                == before.spec_owner_of(x)
    }

    /// The arena that `id` names owns every page of `slice`.
    pub open spec fn owned_by(&self, slice: crate::system::MemSlice, id: ArenaId) -> bool {
        forall|x: usize| slice.contains(x as int) ==> (#[trigger] self.spec_owner_of(x)) == Some(id)
    }

    /// No arena owns a page of `slice`.
    pub open spec fn unowned(&self, slice: crate::system::MemSlice) -> bool {
        forall|x: usize| slice.contains(x as int) ==> (#[trigger] self.spec_owner_of(x)) is None
    }

    /// Every address of a live region of a coherent directory lies in a
    /// page of the arena that holds the region.
    pub proof fn lemma_live_owned(&self, id: ArenaId, p: usize, c: SizeClassIndex, x: usize)
        requires
            self.wf(),
            self.coherent(),
            self.arena_holds(id, p, c),
            p <= x < p + crate::classes::class_size(c.0 as int),
        ensures
            self.spec_owner_of(x) == Some(id),
    {
        self.lemma_wf();
        let a = self.spec_arena(id)->0;
        assert(self.arena_coherent(id));
        let (s, i) = choose|s: usize, i: int| #[trigger] a.live_at(s, i, p, c);
        a.lemma_region_placed(s, i);
        assert(a.slab_coherent(self.spec_map(), s));
        assert(a.slab_slice(s as int).contains(x as int));
    }

    /// A range of pages that no arena owns overlaps no range that an
    /// arena owns.
    pub proof fn lemma_unowned_apart(
        &self,
        held: crate::system::MemSlice,
        id: ArenaId,
        fresh: crate::system::MemSlice,
    )
        requires
            self.owned_by(held, id),
            self.unowned(fresh),
            held.len > 0,
            fresh.len > 0,
            held.base + held.len <= usize::MAX,
            fresh.base + fresh.len <= usize::MAX,
        ensures
            held.disjoint(fresh),
    {
        if !held.disjoint(fresh) {
            let x: usize = if held.base < fresh.base {
                fresh.base
            } else {
                held.base
            };
            assert(held.contains(x as int) && fresh.contains(x as int));
            assert(self.spec_owner_of(x) is Some);
        }
    }

    /// A range of pages that no arena owns overlaps no live region of a
    /// coherent directory.
    pub proof fn lemma_live_unowned_apart(
        &self,
        id: ArenaId,
        p: usize,
        c: SizeClassIndex,
        fresh: crate::system::MemSlice,
    )
        requires
            self.wf(),
            self.coherent(),
            self.arena_holds(id, p, c),
            self.unowned(fresh),
            fresh.len > 0,
            fresh.base + fresh.len <= usize::MAX,
        ensures
            p + crate::classes::class_size(c.0 as int) <= fresh.base || fresh.base + fresh.len <= p,
    {
        self.lemma_wf();
        self.spec_arena(id)->0.lemma_live_placed(p, c);
        crate::classes::lemma_classes_monotonic(c.0 as int);
        if !(p + crate::classes::class_size(c.0 as int) <= fresh.base || fresh.base + fresh.len <= p) {
            let x: usize = if p < fresh.base {
                fresh.base
            } else {
                p
            };
            self.lemma_live_owned(id, p, c, x);
            assert(fresh.contains(x as int));
        }
    }

    /// In a coherent directory a large extent to which an address
    /// resolves overlaps no live region.
    pub proof fn lemma_live_large_apart(&self, id: ArenaId, p: usize, c: SizeClassIndex, q: usize)
        requires
            self.wf(),
            self.coherent(),
            self.arena_holds(id, p, c),
            self.spec_lookup(q) is Some,
            self.spec_lookup(q)->0 is Large,
        ensures
            p + crate::classes::class_size(c.0 as int) <= self.spec_lookup(q)->0->Large_0.slice.base
                || self.spec_lookup(q)->0->Large_0.slice.end() <= p,
    {
        self.lemma_wf();
        let e = self.spec_lookup(q)->0->Large_0.slice;
        let b = self.spec_map()[crate::lookup::page_path(q)];
        let x = self.spec_arena(id)->0;
        let y = self.spec_arena(b)->0;
        assert(self.arena_coherent(id));
        assert(self.arena_coherent(b));
        let (s, i) = choose|s: usize, i: int| #[trigger] x.live_at(s, i, p, c);
        x.lemma_region_placed(s, i);
        assert(y.spec_larges().contains(e));
        if b == id {
            x.lemma_large_apart(self.spec_map(), e, s, e);
        } else {
            y.lemma_arenas_large_apart(x, self.spec_map(), e, s, e);
        }
    }

    /// In a coherent directory two large extents to which addresses
    /// resolve are one extent, or do not overlap.
    pub proof fn lemma_larges_apart(&self, p: usize, q: usize)
        requires
            self.wf(),
            self.coherent(),
            self.spec_lookup(p) is Some,
            self.spec_lookup(p)->0 is Large,
            self.spec_lookup(q) is Some,
            self.spec_lookup(q)->0 is Large,
        ensures
            self.spec_lookup(p)->0->Large_0.slice == self.spec_lookup(q)->0->Large_0.slice
                || self.spec_lookup(p)->0->Large_0.slice.disjoint(
                self.spec_lookup(q)->0->Large_0.slice,
            ),
    {
        self.lemma_wf();
        let e = self.spec_lookup(p)->0->Large_0.slice;
        let f = self.spec_lookup(q)->0->Large_0.slice;
        let a = self.spec_map()[crate::lookup::page_path(p)];
        let b = self.spec_map()[crate::lookup::page_path(q)];
        let x = self.spec_arena(a)->0;
        let y = self.spec_arena(b)->0;
        assert(self.arena_coherent(a));
        assert(self.arena_coherent(b));
        assert(x.spec_larges().contains(e));
        assert(y.spec_larges().contains(f));
        if e != f {
            if a == b {
                x.lemma_large_apart(self.spec_map(), e, 0, f);
            } else {
                x.lemma_arenas_large_apart(y, self.spec_map(), e, 0, f);
            }
        }
    }

    /// The start of a live region of a coherent directory resolves to
    /// the slab of the region, under the region's class and the arena
    /// that holds it.
    pub proof fn lemma_live_resolves(&self, id: ArenaId, p: usize, c: SizeClassIndex)
        requires
            self.wf(),
            self.coherent(),
            self.arena_holds(id, p, c),
        ensures
            self.spec_lookup(p) is Some,
            self.spec_lookup(p)->0 is Class,
            self.spec_lookup(p)->0->Class_0.arena == id,
            self.spec_lookup(p)->0->Class_0.class == SizeClass(
                crate::classes::class_size(c.0 as int) as usize,
                c,
            ),
    {
        self.lemma_wf();
        let a = self.spec_arena(id)->0;
        assert(self.arena_coherent(id));
        let (s, i) = choose|s: usize, i: int| #[trigger] a.live_at(s, i, p, c);
        a.lemma_region_placed(s, i);
        a.lemma_region_resolves(self.spec_map(), s, i, p);
    }

    /// In a coherent directory one address is the start of at most one
    /// live region.
    pub proof fn lemma_live_once(
        &self,
        a: ArenaId,
        c: SizeClassIndex,
        b: ArenaId,
        d: SizeClassIndex,
        p: usize,
    )
        requires
            self.wf(),
            self.coherent(),
            self.arena_holds(a, p, c),
            self.arena_holds(b, p, d),
        ensures
            a == b,
            c == d,
    {
        self.lemma_wf();
        let x = self.spec_arena(a)->0;
        let y = self.spec_arena(b)->0;
        assert(self.arena_coherent(a));
        assert(self.arena_coherent(b));
        let (s, i) = choose|s: usize, i: int| #[trigger] x.live_at(s, i, p, c);
        let (t, j) = choose|t: usize, j: int| #[trigger] y.live_at(t, j, p, d);
        x.lemma_region_placed(s, i);
        y.lemma_region_placed(t, j);
        if a != b {
            x.lemma_arenas_apart(y, self.spec_map(), s, t);
        } else if s != t || i != j {
            x.lemma_regions_apart(self.spec_map(), s, i, t, j);
        }
    }

    /// Nothing was taken back since `before`: every region that was
    /// live in `before` is live.
    pub open spec fn keeps_live(&self, before: Static) -> bool {
        forall|id: ArenaId, q: usize, c: SizeClassIndex|
            before.arena_holds(id, q, c) ==> #[trigger] self.arena_holds(id, q, c)
    }

    /// Handing out after handing out is handing out.
    pub proof fn lemma_keeps_live_twice(&self, mid: Static, before: Static)
        requires
            self.keeps_live(mid),
            mid.keeps_live(before),
        ensures
            self.keeps_live(before),
    {
        assert forall|id: ArenaId, q: usize, c: SizeClassIndex|
            before.arena_holds(id, q, c) implies #[trigger] self.arena_holds(id, q, c) by {
            assert(mid.arena_holds(id, q, c));
        }
    }

    /// The start of a live region stays one while nothing is taken back.
    pub proof fn lemma_live_kept(&self, before: Static, p: usize)
        requires
            self.keeps_live(before),
            before.is_live(p),
        ensures
            self.is_live(p),
    {
        let (id, c) = choose|id: ArenaId, c: SizeClassIndex| #[trigger] before.arena_holds(id, p, c);
        assert(self.arena_holds(id, p, c));
    }

    /// An address that starts no live region now started none in
    /// `before`, if nothing was taken back since.
    pub proof fn lemma_free_before(&self, before: Static, p: usize)
        requires
            self.keeps_live(before),
            !self.is_live(p),
        ensures
            !before.is_live(p),
    {
        if before.is_live(p) {
            let (id, c) = choose|id: ArenaId, c: SizeClassIndex| #[trigger]
                before.arena_holds(id, p, c);
            assert(self.arena_holds(id, p, c));
        }
    }

    /// An address that started no live region in `before` starts none,
    /// if no region was handed out since.
    pub proof fn lemma_dead_stays(&self, before: Static, p: usize)
        requires
            self.only_freed(before),
            !before.is_live(p),
        ensures
            !self.is_live(p),
    {
        if self.is_live(p) {
            let (id, c) = choose|id: ArenaId, c: SizeClassIndex| #[trigger]
                self.arena_holds(id, p, c);
            assert(before.arena_holds(id, p, c));
        }
    }

    /// No region was handed out since `before`, and no arena came or
    /// went: the directory's flags are the same, the same arenas exist,
    /// and every region that is live was live in `before`.
    pub open spec fn only_freed(&self, before: Static) -> bool {
        &&& self.spec_taken() == before.spec_taken()
        &&& forall|id: ArenaId|
            #![trigger self.spec_arena(id)]
            #![trigger before.spec_arena(id)]
            self.spec_arena(id) is Some <==> before.spec_arena(id) is Some
        &&& forall|id: ArenaId, q: usize, c: SizeClassIndex| #[trigger]
            self.arena_holds(id, q, c) ==> before.arena_holds(id, q, c)
    }

    /// Taking back after taking back is taking back.
    pub proof fn lemma_only_freed_twice(&self, mid: Static, before: Static)
        requires
            self.only_freed(mid),
            mid.only_freed(before),
        ensures
            self.only_freed(before),
    {
        assert forall|id: ArenaId|
            #![trigger self.spec_arena(id)]
            #![trigger before.spec_arena(id)]
            self.spec_arena(id) is Some <==> before.spec_arena(id) is Some by {
            assert(self.spec_arena(id) is Some <==> mid.spec_arena(id) is Some);
        }
        assert forall|id: ArenaId, q: usize, c: SizeClassIndex| #[trigger]
            self.arena_holds(id, q, c) implies before.arena_holds(id, q, c) by {
            assert(mid.arena_holds(id, q, c));
        }
    }

    /// Every arena but the one that `id` names is as it was in `before`,
    /// and so are the directory's flags.
    pub open spec fn others_kept(&self, before: Static, id: ArenaId) -> bool {
        &&& self.spec_taken() == before.spec_taken()
        &&& forall|other: ArenaId|
            other != id ==> #[trigger] self.spec_arena(other) == before.spec_arena(other)
    }

    /// Hands out a region of class `sc` from the arena that `id` names.
    pub fn allocate_in<S: System>(&mut self, sys: &S, id: ArenaId, sc: SizeClassIndex) -> (r:
        ArenaResult<usize>)
        requires
            old(self).wf(),
            sc.0 < NSCLASSES,
        ensures
            final(self).wf(),
            final(self).others_kept(*old(self), id),
            old(self).coherent() ==> final(self).coherent(),
            match old(self).spec_arena(id) {
                None => r == Err::<usize, ArenaError>(
                    ArenaError::LookupError(LookupError::InvalidArena),
                ) && final(self).spec_arena(id) is None && final(self).spec_map() == old(self).spec_map(),
                Some(before) => final(self).spec_arena(id) matches Some(after) && after.served(
                    before,
                    old(self).spec_map(),
                    final(self).spec_map(),
                    sc,
                    r,
                ),
            },
            r matches Ok(p) ==> final(self).arena_holds(id, p, sc),
            old(self).spec_arena(id) is Some && old(self).spec_arena(id)->0.can_serve(sc) ==> r is Ok
                && final(self).spec_map() == old(self).spec_map(),
            old(self).room(id, sc) > 0 ==> r is Ok && final(self).room(id, sc) == old(self).room(id, sc)
                - 1,
            final(self).keeps_live(*old(self)),
            old(self).coherent() && r is Ok ==> !old(self).is_live(r->Ok_0),
            final(self).keeps_owners(*old(self)),
            final(self).keeps_lookups(*old(self)),
    {
        let mut arena: Arena = match self.take_arena(id) {
            Some(a) => a,
            None => {
                proof {
                    assert(self.arenas@ =~= old(self).arenas@);
                    if old(self).coherent() {
                        assert forall|other: ArenaId| #[trigger] self.arena_coherent(other) by {
                            assert(old(self).arena_coherent(other));
                            assert(self.spec_arena(other) == old(self).spec_arena(other));
                        }
                    }
                }
                return Err(ArenaError::LookupError(LookupError::InvalidArena));
            },
        };
        let ghost before = arena;
        proof {
            old(self).lemma_wf();
            before.lemma_room(sc);
        }
        let r = arena.allocate(sys, &mut self.arena_map, sc);
        let ghost after = arena;
        self.put_arena(arena);
        proof {
            if old(self).coherent() {
                Arena::lemma_served_step(before, after, old(self).spec_map(), self.spec_map(), sc, r);
                assert(old(self).arena_coherent(id));
                self.lemma_step_coherent(*old(self), id, before);
            }
            if r is Ok {
                Arena::lemma_served_live(
                    before,
                    after,
                    old(self).spec_map(),
                    self.spec_map(),
                    sc,
                    r,
                );
            }
            assert forall|other: ArenaId, q: usize, c: SizeClassIndex|
                old(self).arena_holds(other, q, c) implies #[trigger] self.arena_holds(
                other,
                q,
                c,
            ) by {
                if other == id {
                    Arena::lemma_served_keeps_live(
                        before,
                        after,
                        old(self).spec_map(),
                        self.spec_map(),
                        sc,
                        r,
                        q,
                        c,
                    );
                } else {
                    assert(self.spec_arena(other) == old(self).spec_arena(other));
                }
            }
            assert forall|x: usize| (#[trigger] old(self).spec_owner_of(x)) is Some implies self.spec_owner_of(
                x,
            ) == old(self).spec_owner_of(x) by {
                Arena::lemma_served_keeps_pages(
                    before,
                    after,
                    old(self).spec_map(),
                    self.spec_map(),
                    sc,
                    r,
                    crate::lookup::page_path(x),
                );
            }
            assert forall|x: usize| (#[trigger] old(self).spec_lookup(x)) is Some implies self.spec_lookup(
                x,
            ) == old(self).spec_lookup(x) by {
                let k = crate::lookup::page_path(x);
                Arena::lemma_served_keeps_pages(
                    before,
                    after,
                    old(self).spec_map(),
                    self.spec_map(),
                    sc,
                    r,
                    k,
                );
                let owner = old(self).spec_map()[k];
                if owner == id {
                    old(self).lemma_wf();
                    Arena::lemma_served_keeps_entries(
                        before,
                        after,
                        old(self).spec_map(),
                        self.spec_map(),
                        sc,
                        r,
                        k,
                    );
                } else {
                    assert(self.spec_arena(owner) == old(self).spec_arena(owner));
                }
            }
            if old(self).coherent() && r is Ok {
                let p = r->Ok_0;
                assert forall|other: ArenaId, c: SizeClassIndex|
                    !#[trigger] old(self).arena_holds(other, p, c) by {
                    if old(self).arena_holds(other, p, c) {
                        if other == id {
                            self.lemma_wf();
                            assert(self.arena_coherent(id));
                            Arena::lemma_served_fresh(
                                before,
                                after,
                                old(self).spec_map(),
                                self.spec_map(),
                                sc,
                                r,
                                c,
                            );
                        } else {
                            assert(self.arena_holds(other, p, c));
                            self.lemma_live_once(other, c, id, sc, p);
                        }
                    }
                }
            }
        }
        r
    }

    /// Maps an extent for one allocation of `layout` in the arena that `id` names.
    pub fn allocate_large_in<S: System>(&mut self, sys: &S, id: ArenaId, layout: Layout) -> (r:
        ArenaResult<usize>)
        requires
            old(self).wf(),
        ensures
            final(self).wf(),
            final(self).others_kept(*old(self), id),
            old(self).coherent() ==> final(self).coherent(),
            match old(self).spec_arena(id) {
                None => r == Err::<usize, ArenaError>(
                    ArenaError::LookupError(LookupError::InvalidArena),
                ) && final(self).spec_arena(id) is None && final(self).spec_map() == old(self).spec_map(),
                Some(before) => final(self).spec_arena(id) matches Some(after) && after.served_large(
                    before,
                    old(self).spec_map(),
                    final(self).spec_map(),
                    layout,
                    r,
                ),
            },
            final(self).keeps_live(*old(self)),
            final(self).only_freed(*old(self)),
            final(self).keeps_owners(*old(self)),
            r matches Err(e) ==> old(self).spec_arena(id) is Some ==> old(self).spec_arena(
                id,
            )->0.large_refused(old(self).spec_arena_map(), layout, e),
            final(self).keeps_lookups(*old(self)),
    {
        let mut arena: Arena = match self.take_arena(id) {
            Some(a) => a,
            None => {
                proof {
                    assert(self.arenas@ =~= old(self).arenas@);
                    if old(self).coherent() {
                        assert forall|other: ArenaId| #[trigger] self.arena_coherent(other) by {
                            assert(old(self).arena_coherent(other));
                            assert(self.spec_arena(other) == old(self).spec_arena(other));
                        }
                    }
                }
                return Err(ArenaError::LookupError(LookupError::InvalidArena));
            },
        };
        let ghost before = arena;
        let r = arena.allocate_large(sys, &mut self.arena_map, layout);
        let ghost after = arena;
        self.put_arena(arena);
        proof {
            assert forall|other: ArenaId, q: usize, c: SizeClassIndex|
                old(self).arena_holds(other, q, c) implies #[trigger] self.arena_holds(
                other,
                q,
                c,
            ) by {
                if other == id {
                    let (t, j) = choose|t: usize, j: int| #[trigger] before.live_at(t, j, q, c);
                    assert(after.live_at(t, j, q, c));
                }
            }
            assert forall|other: ArenaId, q: usize, c: SizeClassIndex| #[trigger]
                self.arena_holds(other, q, c) implies old(self).arena_holds(other, q, c) by {
                if other == id {
                    let (t, j) = choose|t: usize, j: int| #[trigger] after.live_at(t, j, q, c);
                    assert(before.live_at(t, j, q, c));
                }
            }
            assert forall|x: usize| (#[trigger] old(self).spec_owner_of(x)) is Some implies self.spec_owner_of(
                x,
            ) == old(self).spec_owner_of(x) by {
                Arena::lemma_served_large_keeps_pages(
                    before,
                    after,
                    old(self).spec_map(),
                    self.spec_map(),
                    layout,
                    r,
                    crate::lookup::page_path(x),
                );
            }
            assert forall|x: usize| (#[trigger] old(self).spec_lookup(x)) is Some implies self.spec_lookup(
                x,
            ) == old(self).spec_lookup(x) by {
                let k = crate::lookup::page_path(x);
                Arena::lemma_served_large_keeps_pages(
                    before,
                    after,
                    old(self).spec_map(),
                    self.spec_map(),
                    layout,
                    r,
                    k,
                );
                let owner = old(self).spec_map()[k];
                if owner == id {
                    Arena::lemma_served_large_keeps_entries(
                        before,
                        after,
                        old(self).spec_map(),
                        self.spec_map(),
                        layout,
                        r,
                        k,
                    );
                } else {
                    assert(self.spec_arena(owner) == old(self).spec_arena(owner));
                }
            }
            if old(self).coherent() {
                Arena::lemma_served_large_step(
                    before,
                    after,
                    old(self).spec_map(),
                    self.spec_map(),
                    layout,
                    r,
                );
                assert(old(self).arena_coherent(id));
                self.lemma_step_coherent(*old(self), id, before);
            }
        }
        r
    }

    /// Has the arena that `id` names take back what `ptr` points to.
    pub fn deallocate_in<S: System>(&mut self, sys: &S, id: ArenaId, ptr: usize) -> (r: ArenaResult<()>)
        requires
            old(self).wf(),
        ensures
            final(self).wf(),
            final(self).others_kept(*old(self), id),
            old(self).coherent() ==> final(self).coherent(),
            match old(self).spec_arena(id) {
                None => r == Err::<(), ArenaError>(
                    ArenaError::LookupError(LookupError::InvalidArena),
                ) && final(self).spec_arena(id) is None && final(self).spec_map() == old(self).spec_map(),
                Some(before) => final(self).spec_arena(id) matches Some(after) && after.took_back(
                    before,
                    old(self).spec_map(),
                    final(self).spec_map(),
                    ptr,
                    r,
                ),
            },
            final(self).only_freed(*old(self)),
            old(self).coherent() && old(self).is_live(ptr) && old(self).spec_owner_of(ptr) == Some(id)
                ==> final(self).frees_only(*old(self), ptr) && !final(self).is_live(ptr) && (r
                matches Err(e) ==> e is BinError && !(e->BinError_0 is SlabError)),
            old(self).spec_lookup(ptr) is Some && old(self).spec_lookup(ptr)->0 is Large
                && old(self).spec_owner_of(ptr) == Some(id) ==> final(self).keeps_live(*old(self)),
    {
        let mut arena: Arena = match self.take_arena(id) {
            Some(a) => a,
            None => {
                proof {
                    if old(self).coherent() && old(self).is_live(ptr) {
                        old(self).lemma_wf();
                        let (b, c0) = choose|b: ArenaId, c0: SizeClassIndex| #[trigger]
                            old(self).arena_holds(b, ptr, c0);
                        old(self).spec_arena(b)->0.lemma_live_placed(ptr, c0);
                        crate::classes::lemma_classes_monotonic(c0.0 as int);
                        old(self).lemma_live_owned(b, ptr, c0, ptr);
                    }
                    assert(self.arenas@ =~= old(self).arenas@);
                    if old(self).coherent() {
                        assert forall|other: ArenaId| #[trigger] self.arena_coherent(other) by {
                            assert(old(self).arena_coherent(other));
                            assert(self.spec_arena(other) == old(self).spec_arena(other));
                        }
                    }
                }
                return Err(ArenaError::LookupError(LookupError::InvalidArena));
            },
        };
        let ghost before = arena;
        let r = arena.deallocate(sys, &mut self.arena_map, ptr);
        let ghost after = arena;
        self.put_arena(arena);
        proof {
            if old(self).coherent() && old(self).is_live(ptr) && old(self).spec_owner_of(ptr) == Some(
                id,
            ) {
                old(self).lemma_wf();
                assert(old(self).arena_coherent(id));
                let (b, c0) = choose|b: ArenaId, c0: SizeClassIndex| #[trigger]
                    old(self).arena_holds(b, ptr, c0);
                old(self).spec_arena(b)->0.lemma_live_placed(ptr, c0);
                crate::classes::lemma_classes_monotonic(c0.0 as int);
                old(self).lemma_live_owned(b, ptr, c0, ptr);
                assert forall|p: usize| p != ptr && (#[trigger] old(self).is_live(p)) implies self.is_live(
                    p,
                ) by {
                    let (a, c) = choose|a: ArenaId, c: SizeClassIndex| #[trigger]
                        old(self).arena_holds(a, p, c);
                    if a == id {
                        Arena::lemma_took_back_keeps(
                            before,
                            after,
                            old(self).spec_map(),
                            self.spec_map(),
                            ptr,
                            r,
                            c0,
                            p,
                            c,
                        );
                    } else {
                        assert(self.spec_arena(a) == old(self).spec_arena(a));
                    }
                    assert(self.arena_holds(a, p, c));
                }
                Arena::lemma_took_back_keeps(
                    before,
                    after,
                    old(self).spec_map(),
                    self.spec_map(),
                    ptr,
                    r,
                    c0,
                    ptr,
                    c0,
                );
                if self.is_live(ptr) {
                    let (a, c) = choose|a: ArenaId, c: SizeClassIndex| #[trigger]
                        self.arena_holds(a, ptr, c);
                    if a == id {
                        Arena::lemma_took_back_keeps(
                            before,
                            after,
                            old(self).spec_map(),
                            self.spec_map(),
                            ptr,
                            r,
                            c0,
                            ptr,
                            c,
                        );
                    } else {
                        assert(self.spec_arena(a) == old(self).spec_arena(a));
                        old(self).lemma_live_once(a, c, id, c0, ptr);
                    }
                }
            }
            if old(self).spec_lookup(ptr) is Some && old(self).spec_lookup(ptr)->0 is Large
                && old(self).spec_owner_of(ptr) == Some(id) {
                assert forall|a: ArenaId, q: usize, c: SizeClassIndex|
                    old(self).arena_holds(a, q, c) implies #[trigger] self.arena_holds(a, q, c) by {
                    if a == id {
                        let (t, j) = choose|t: usize, j: int| #[trigger] before.live_at(t, j, q, c);
                        assert(before.live().contains((t as int, j)));
                        assert(after.live().contains((t as int, j)));
                        assert(after.slab_slice(t as int) == before.slab_slice(t as int));
                        assert(after.live_at(t, j, q, c));
                    } else {
                        assert(self.spec_arena(a) == old(self).spec_arena(a));
                    }
                }
            }
            assert forall|other: ArenaId, q: usize, c: SizeClassIndex| #[trigger]
                self.arena_holds(other, q, c) implies old(self).arena_holds(other, q, c) by {
                if other == id {
                    Arena::lemma_took_back_shrinks(
                        before,
                        after,
                        old(self).spec_map(),
                        self.spec_map(),
                        ptr,
                        r,
                        q,
                        c,
                    );
                }
            }
            if old(self).coherent() {
                assert(old(self).arena_coherent(id));
                Arena::lemma_took_back_step(
                    before,
                    after,
                    old(self).spec_map(),
                    self.spec_map(),
                    ptr,
                    r,
                );
                self.lemma_step_coherent(*old(self), id, before);
            }
        }
        r
    }

    /// Has the arena that owns the page of `ptr` take back what `ptr`
    /// points to. A page that no arena owns is refused with `NotFound`.
    pub fn deallocate_at<S: System>(&mut self, sys: &S, ptr: usize) -> (r: ArenaResult<()>)
        requires
            old(self).wf(),
        ensures
            final(self).wf(),
            old(self).coherent() ==> final(self).coherent(),
            match old(self).spec_owner_of(ptr) {
                None => r == Err::<(), ArenaError>(ArenaError::LookupError(LookupError::NotFound))
                    && final(self).spec_map() == old(self).spec_map() && forall|id: ArenaId| #[trigger]
                    final(self).spec_arena(id) == old(self).spec_arena(id),
                Some(id) => final(self).others_kept(*old(self), id) && match old(self).spec_arena(
                    id,
                ) {
                    None => r == Err::<(), ArenaError>(
                        ArenaError::LookupError(LookupError::InvalidArena),
                    ) && final(self).spec_arena(id) is None && final(self).spec_map() == old(self).spec_map(),
                    Some(before) => final(self).spec_arena(id) matches Some(after)
                        && after.took_back(
                        before,
                        old(self).spec_map(),
                        final(self).spec_map(),
                        ptr,
                        r,
                    ),
                },
            },
            final(self).only_freed(*old(self)),
            old(self).coherent() && old(self).is_live(ptr) ==> final(self).frees_only(*old(self), ptr)
                && !final(self).is_live(ptr),
            old(self).spec_lookup(ptr) is Some && old(self).spec_lookup(ptr)->0 is Large
                ==> final(self).keeps_live(*old(self)),
    {
        proof {
            if old(self).coherent() && old(self).is_live(ptr) {
                old(self).lemma_wf();
                let (b, c0) = choose|b: ArenaId, c0: SizeClassIndex| #[trigger]
                    old(self).arena_holds(b, ptr, c0);
                old(self).spec_arena(b)->0.lemma_live_placed(ptr, c0);
                crate::classes::lemma_classes_monotonic(c0.0 as int);
                old(self).lemma_live_owned(b, ptr, c0, ptr);
            }
        }
        let id: ArenaId = match self.arena_map.lookup(ptr) {
            Some(v) => v,
            None => return Err(ArenaError::LookupError(LookupError::NotFound)),
        };
        self.deallocate_in(sys, id, ptr)
    }

    /// The arena that the arena map names for the page of `ptr`.
    pub open spec fn spec_owner_of(&self, ptr: usize) -> Option<ArenaId> {
        if self.spec_map().contains_key(crate::lookup::page_path(ptr)) {
            Some(self.spec_map()[crate::lookup::page_path(ptr)])
        } else {
            None
        }
    }

    /// The arena that owns the page of `ptr`.
    pub fn owner_of(&self, ptr: usize) -> (r: Option<ArenaId>)
        requires
            self.wf(),
        ensures
            r == self.spec_owner_of(ptr),
    {
        self.arena_map.lookup(ptr)
    }
}

} // verus!
