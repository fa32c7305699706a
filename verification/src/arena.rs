use vstd::prelude::*;
use crate::bin::{Bin, BinError};
use crate::bump::{Bump, BumpError};
use crate::classes::{SizeClassIndex, NSCLASSES};
use crate::extent::{Extent, ExtentError};
use crate::layout::Layout;
use crate::lookup::{ArenaId, ArenaMap, ExtentTree, LookupError, OwnerInfo};
use crate::prim::{page_align, PrimError};
use crate::slab::Slab;
use crate::system::{MemSlice, SysOption, System};

verus! {

#[derive(Clone, Copy, Debug, PartialEq, Eq, Structural)]
pub enum ArenaError {
    BumpError(BumpError),
    BinError(BinError),
    LookupError(LookupError),
    ExtentError(ExtentError),
    PrimError(PrimError),
}

pub type ArenaResult<T> = Result<T, ArenaError>;

/// Bytes of metadata that an arena's header takes.
pub const ARENA_HEADER_SIZE: usize = 4096;

/// Bytes of metadata that the record of a large extent takes.
pub const EXTENT_HEADER_SIZE: usize = 64;

/// An independently managed part of the heap: a bin per size class, the
/// table of the slabs that the bins manage, the allocator of its
/// metadata, and the map from its pages to their owners.
pub struct Arena {
    index: ArenaId,
    bins: Vec<Bin>,
    bump: Bump,
    etree: ExtentTree,
    slabs: Vec<Slab>,
    larges: Vec<Extent>,
}

/// The ranges of the extents of a list.
pub open spec fn large_ranges(list: Seq<Extent>) -> Set<MemSlice> {
    Set::new(|e: MemSlice| exists|k: int| 0 <= k < list.len() && (#[trigger] list[k]).slice == e)
}

/// The extent under which a large range is filed.
pub open spec fn large_extent(slice: MemSlice) -> Extent {
    Extent { slice, link: crate::list::Link::unlinked(), activated: true }
}

/// Some address of `slice` lies on the page that is filed under `q`.
pub open spec fn holds_page(slice: MemSlice, q: Seq<usize>) -> bool {
    exists|x: usize| slice.contains(x as int) && #[trigger] crate::lookup::page_path(x) == q
}

/// An entry of the extent tree names a slab of the table, under the class
/// that the slab has.
pub open spec fn owner_ok(info: OwnerInfo, slabs: Seq<Slab>) -> bool {
    info matches OwnerInfo::Slab { slab, size_class } ==> slab < slabs.len() && size_class.0
        < NSCLASSES && slabs[slab as int].spec_class().1 == size_class
}

impl Arena {
    pub closed spec fn spec_index(&self) -> ArenaId {
        self.index
    }

    /// The slabs of the arena, in the order of their creation.
    pub closed spec fn spec_slabs(&self) -> Seq<Slab> {
        self.slabs@
    }

    /// The number of slabs of the arena.
    pub closed spec fn spec_slab_count(&self) -> usize {
        self.slabs.len()
    }

    /// The owners of the arena's pages, by the path of the page.
    pub closed spec fn spec_owners(&self) -> Map<Seq<usize>, OwnerInfo> {
        self.etree@
    }

    /// The ranges of the large extents that the arena serves.
    pub closed spec fn spec_larges(&self) -> Set<MemSlice> {
        large_ranges(self.larges@)
    }

    /// The range of slab `s`.
    pub open spec fn slab_slice(&self, s: int) -> MemSlice {
        self.spec_slabs()[s].spec_extent().slice
    }

    /// Slab `s` is filed with every page, in the arena map under the
    /// arena and in the extent tree under the slab.
    pub open spec fn slab_coherent(&self, map: Map<Seq<usize>, ArenaId>, s: usize) -> bool {
        let slice = self.slab_slice(s as int);
        &&& crate::lookup::range_ok(slice)
        &&& crate::lookup::filed_as(map, slice, self.spec_index())
        &&& crate::lookup::filed_as(
            self.spec_owners(),
            slice,
            OwnerInfo::Slab { slab: s, size_class: self.spec_slabs()[s as int].spec_class().1 },
        )
    }

    /// The large range `e` is filed in both maps and shares no page with a slab.
    pub open spec fn large_coherent(&self, map: Map<Seq<usize>, ArenaId>, e: MemSlice) -> bool {
        &&& crate::lookup::range_ok(e)
        &&& e.wf()
        &&& crate::lookup::filed_as(map, e, self.spec_index())
        &&& crate::lookup::filed_as(
            self.spec_owners(),
            e,
            OwnerInfo::Extent { extent: large_extent(e) },
        )
        &&& forall|s: usize|
            s < self.spec_slabs().len() ==> crate::lookup::path_disjoint(
                e,
                #[trigger] self.slab_slice(s as int),
            )
    }

    /// The arena and the arena map agree: every slab and every large
    /// extent of the arena is filed in the map under the arena, no two
    /// of them share a page, and the extent tree names large extents
    /// and slabs of the arena only, each under its own pages.
    pub open spec fn coherent(&self, map: Map<Seq<usize>, ArenaId>) -> bool {
        &&& forall|s: usize| s < self.spec_slabs().len() ==> #[trigger] self.slab_coherent(map, s)
        &&& forall|s: usize, t: usize|
            s < self.spec_slabs().len() && t < self.spec_slabs().len() && s != t
                ==> crate::lookup::path_disjoint(
                #[trigger] self.slab_slice(s as int),
                #[trigger] self.slab_slice(t as int),
            )
        &&& forall|e: MemSlice| self.spec_larges().contains(e) ==> #[trigger] self.large_coherent(
            map,
            e,
        )
        &&& forall|e: MemSlice, f: MemSlice|
            self.spec_larges().contains(e) && self.spec_larges().contains(f) && e != f
                ==> #[trigger] crate::lookup::path_disjoint(e, f)
        &&& forall|q: Seq<usize>|
            self.spec_owners().contains_key(q) ==> (
            #[trigger] self.spec_owners()[q] matches OwnerInfo::Extent { extent }
                ==> self.spec_larges().contains(extent.slice) && extent == large_extent(
                extent.slice,
            ) && holds_page(extent.slice, q))
        &&& forall|q: Seq<usize>| self.spec_owners().contains_key(q) ==> #[trigger] self.slab_entry_placed(q)
    }

    /// Where the extent tree names a slab under `q`, the slab is one of
    /// the arena's, and a page of its range is filed under `q`.
    pub open spec fn slab_entry_placed(&self, q: Seq<usize>) -> bool {
        self.spec_owners()[q] matches OwnerInfo::Slab { slab, size_class } ==> slab
            < self.spec_slabs().len() && holds_page(self.slab_slice(slab as int), q)
    }

    /// The regions that the arena has handed out.
    pub open spec fn live(&self) -> Set<(int, int)> {
        crate::slab::live_regions(self.spec_slabs())
    }

    pub closed spec fn wf(&self) -> bool {
        &&& self.bump.wf()
        &&& self.etree.wf()
        &&& crate::slab::table_wf(self.slabs@)
        &&& self.bins@.len() == NSCLASSES
        &&& forall|c: int|
            0 <= c < NSCLASSES ==> (#[trigger] self.bins@[c]).wf(self.slabs@) && self.bins@[c].class.1.0
                == c && self.bins@[c].class.0 == crate::classes::class_size(c)
                && self.bins@[c].pages.0 == crate::classes::spec_pages(c)
        &&& forall|s: int|
            0 <= s < self.slabs@.len() ==> (#[trigger] self.slabs@[s]).spec_class().0
                == crate::classes::class_size(self.slabs@[s].spec_class().1.0 as int)
                && self.slabs@[s].spec_class().1.0 < NSCLASSES
        &&& forall|q: Seq<usize>|
            self.etree@.contains_key(q) ==> owner_ok(#[trigger] self.etree@[q], self.slabs@)
    }

    /// Creates an arena with empty bins and an empty extent tree. Its
    /// header is the first block of its own metadata. The arena is
    /// refused where the first chunk of its metadata has no size that
    /// fits a word, and where the host refuses that chunk, and on no
    /// other ground.
    pub fn new<S: System>(sys: &S, index: ArenaId, chunk_size: usize) -> (r: ArenaResult<Self>)
        ensures
            match r {
                Ok(a) => a.wf() && a.spec_index() == index && a.spec_slabs().len() == 0
                    && a.spec_owners() == Map::<Seq<usize>, OwnerInfo>::empty() && a.spec_larges()
                    == Set::<MemSlice>::empty() && forall|m: Map<Seq<usize>, ArenaId>| #[trigger]
                    a.coherent(m),
                Err(e) => e is BumpError && match Bump::spec_chunk_bytes(
                    chunk_size,
                    ARENA_HEADER_SIZE,
                    8,
                ) {
                    Err(x) => e == ArenaError::BumpError(x),
                    Ok(_) => e->BumpError_0 is ExtentError,
                },
            },
    {
        let mut bump: Bump = Bump::new(chunk_size);
        let header: Layout = match Layout::from_size_align(ARENA_HEADER_SIZE, 8) {
            Ok(l) => l,
            Err(_) => return Err(ArenaError::BumpError(crate::bump::ChunkError::Overflow)),
        };
        if let Err(e) = bump.create(sys, header) {
            let _ = bump.release(sys);
            return Err(ArenaError::BumpError(e));
        }
        let mut bins: Vec<Bin> = Vec::new();
        let mut i: usize = 0;
        while i < NSCLASSES
            invariant
                i <= NSCLASSES,
                bins@.len() == i,
                forall|c: int|
                    0 <= c < i ==> (#[trigger] bins@[c]).wf(Seq::<Slab>::empty()) && bins@[c].class.1.0
                        == c && bins@[c].class.0 == crate::classes::class_size(c) && bins@[c].pages.0
                        == crate::classes::spec_pages(c),
            decreases NSCLASSES - i,
        {
            bins.push(Bin::new(SizeClassIndex(i)));
            i += 1;
        }
        let etree: ExtentTree = ExtentTree::new(chunk_size);
        let larges: Vec<Extent> = Vec::new();
        proof {
            assert(large_ranges(larges@) =~= Set::<MemSlice>::empty());
        }
        Ok(Self { index, bins, bump, etree, slabs: Vec::new(), larges })
    }

    pub fn index(&self) -> (r: ArenaId)
        ensures
            r == self.spec_index(),
    {
        self.index
    }

    pub fn etree(&self) -> (r: &ExtentTree)
        ensures
            r@ == self.spec_owners(),
            self.wf() ==> r.wf(),
    {
        &self.etree
    }

    /// The number of slabs that the arena has created.
    pub fn slab_count(&self) -> (r: usize)
        ensures
            r == self.spec_slabs().len(),
            r == self.spec_slab_count(),
    {
        self.slabs.len()
    }

    /// What `allocate` does to the arena `before` when asked for a region
    /// of class `sc` with result `r`: on success a region of a slab of
    /// that class that was free is handed out; on failure the live
    /// regions are as they were. Either the slab table is unchanged,
    /// and with it both maps, or it has grown by one fresh slab whose
    /// pages are filed in both maps.
    pub open spec fn served(
        &self,
        before: Arena,
        map_before: Map<Seq<usize>, ArenaId>,
        map_after: Map<Seq<usize>, ArenaId>,
        sc: SizeClassIndex,
        r: ArenaResult<usize>,
    ) -> bool {
        &&& match r {
            Ok(p) => crate::bin::granted(
                before.spec_slabs(),
                self.spec_slabs(),
                crate::classes::SizeClass(crate::classes::class_size(sc.0 as int) as usize, sc),
                p,
            ),
            Err(e) => e is BinError && self.live() == before.live(),
        }
        &&& self.spec_slabs().len() == before.spec_slabs().len() ==> self.spec_owners()
            == before.spec_owners() && map_after == map_before
        &&& self.spec_slabs().len() != before.spec_slabs().len() ==> self.grew_by_slab(
            before,
            map_before,
            map_after,
            sc,
        )
        &&& self.same_slab_ranges(before)
        &&& self.spec_larges() == before.spec_larges()
    }

    /// The arena has the index of `before`, and the slabs of `before`
    /// have their ranges and classes.
    pub open spec fn same_slab_ranges(&self, before: Arena) -> bool {
        &&& self.spec_index() == before.spec_index()
        &&& before.spec_slabs().len() <= self.spec_slabs().len()
        &&& forall|s: int|
            0 <= s < before.spec_slabs().len() ==> #[trigger] self.slab_slice(s)
                == before.slab_slice(s) && self.spec_slabs()[s].spec_class()
                == before.spec_slabs()[s].spec_class()
    }

    /// The bin of class `sc` can serve a region without the host.
    pub closed spec fn can_serve(&self, sc: SizeClassIndex) -> bool {
        sc.0 < NSCLASSES && self.bins@[sc.0 as int].can_serve(self.slabs@)
    }

    /// The regions of class `sc` that the arena can serve without the host.
    pub closed spec fn room(&self, sc: SizeClassIndex) -> int {
        if sc.0 < NSCLASSES {
            self.bins@[sc.0 as int].room(self.slabs@)
        } else {
            0
        }
    }

    /// An arena can serve exactly where it has room.
    pub proof fn lemma_room(&self, sc: SizeClassIndex)
        requires
            self.wf(),
        ensures
            self.can_serve(sc) == (self.room(sc) > 0),
            self.room(sc) >= 0,
    {
        if sc.0 < NSCLASSES {
            let bin = self.bins@[sc.0 as int];
            assert(bin.wf(self.slabs@));
            if bin.active_head is Some {
                let h = bin.active_head->0;
                assert(self.slabs@[h as int].wf());
                self.slabs@[h as int].lemma_wf();
            }
        }
    }

    /// Hands out a region of class `sc`. The request succeeds where the
    /// bin can serve it without the host; else the host decides.
    pub fn allocate<S: System>(&mut self, sys: &S, arena_map: &mut ArenaMap, sc: SizeClassIndex) -> (r:
        ArenaResult<usize>)
        requires
            old(self).wf(),
            old(arena_map).wf(),
            sc.0 < NSCLASSES,
        ensures
            final(self).wf(),
            final(arena_map).wf(),
            final(self).spec_index() == old(self).spec_index(),
            final(self).served(*old(self), old(arena_map)@, final(arena_map)@, sc, r),
            old(self).can_serve(sc) ==> r is Ok && final(self).spec_slabs().len()
                == old(self).spec_slabs().len(),
            old(self).can_serve(sc) ==> final(self).room(sc) == old(self).room(sc) - 1,
            old(self).coherent(old(arena_map)@) ==> final(self).coherent(final(arena_map)@),
    {
        let mut bin: Bin = self.bins[sc.0];
        let ghost s0 = self.slabs@;
        let ghost e0 = self.etree@;
        let served = bin.allocate(
            &mut self.slabs,
            &mut self.bump,
            sys,
            self.index,
            &mut self.etree,
            arena_map,
        );
        self.bins.set(sc.0, bin);
        proof {
            crate::classes::lemma_classes_monotonic(sc.0 as int);
            if self.slabs@.len() > s0.len() {
                let id = old(self).slabs.len();
                let slice = self.slabs@[id as int].spec_extent().slice;
                let v = OwnerInfo::Slab { slab: id, size_class: bin.class.1 };
                assert forall|q: Seq<usize>| self.etree@.contains_key(q) implies owner_ok(
                    #[trigger] self.etree@[q],
                    self.slabs@,
                ) by {
                    if slice.len > 0 {
                        crate::lookup::lemma_with_pages::<OwnerInfo, 512>(
                            e0,
                            crate::lookup::spec_range(slice).start,
                            crate::lookup::spec_range(slice).count(),
                            v,
                            q,
                        );
                    }
                    if e0.contains_key(q) {
                        assert(owner_ok(e0[q], s0));
                    }
                }
            } else {
                assert forall|q: Seq<usize>| self.etree@.contains_key(q) implies owner_ok(
                    #[trigger] self.etree@[q],
                    self.slabs@,
                ) by {
                    assert(owner_ok(e0[q], s0));
                }
            }
            assert forall|c: int| 0 <= c < NSCLASSES implies (#[trigger] self.bins@[c]).wf(
                self.slabs@,
            ) && self.bins@[c].class.1.0 == c && self.bins@[c].class.0
                == crate::classes::class_size(c) && self.bins@[c].pages.0
                == crate::classes::spec_pages(c) by {
                if c != sc.0 as int {
                    assert(old(self).bins@[c].wf(s0));
                }
            }
            assert forall|s: int| 0 <= s < self.slabs@.len() implies (
            #[trigger] self.slabs@[s]).spec_class().0 == crate::classes::class_size(
                self.slabs@[s].spec_class().1.0 as int,
            ) && self.slabs@[s].spec_class().1.0 < NSCLASSES by {
                if s < s0.len() {
                    assert(s0[s].spec_class() == self.slabs@[s].spec_class());
                }
            }
        }
        let r: ArenaResult<usize> = match served {
            Ok(p) => Ok(p),
            Err(e) => Err(ArenaError::BinError(e)),
        };
        proof {
            if self.slabs@.len() > s0.len() {
                self.slabs@[s0.len() as int].lemma_wf();
            }
            Self::lemma_served_coherent(*old(self), *self, old(arena_map)@, arena_map@, sc, r);
        }
        r
    }

    /// The arena has one slab more than `before`: a slab of class `sc`
    /// over a fresh extent, every page of which is filed in the extent
    /// tree under the slab and in the arena map under the arena.
    pub open spec fn grew_by_slab(
        &self,
        before: Arena,
        map_before: Map<Seq<usize>, ArenaId>,
        map_after: Map<Seq<usize>, ArenaId>,
        sc: SizeClassIndex,
    ) -> bool {
        let id = before.spec_slab_count();
        let slab = self.spec_slabs()[id as int];
        &&& id == before.spec_slabs().len()
        &&& self.spec_slabs().len() == before.spec_slabs().len() + 1
        &&& slab.spec_class().1 == sc
        &&& slab.spec_extent().slice.len == crate::classes::spec_pages(sc.0 as int)
        &&& slab.spec_extent().slice.fresh(slab.spec_extent().slice.len)
        &&& self.spec_owners() == crate::lookup::registered(
            before.spec_owners(),
            slab.spec_extent().slice,
            OwnerInfo::Slab { slab: id, size_class: sc },
        )
        &&& map_after == crate::lookup::registered(
            map_before,
            slab.spec_extent().slice,
            self.spec_index(),
        )
        &&& crate::lookup::unfiled(before.spec_owners(), slab.spec_extent().slice)
        &&& crate::lookup::unfiled(map_before, slab.spec_extent().slice)
        &&& crate::lookup::range_ok(slab.spec_extent().slice)
    }

    /// The allocator that accounts for the arena's metadata.
    pub closed spec fn spec_meta(&self) -> Bump {
        self.bump
    }

    /// The tree that holds the arena's entries.
    pub closed spec fn spec_etree(&self) -> ExtentTree {
        self.etree
    }

    /// What a refusal `e` of a large extent for `layout` tells, each
    /// error with its cause. The metadata allocator refused the extent's
    /// header, which it does not where its newest chunk has room for
    /// it. The host refused the extent. A page of the extent that the
    /// host mapped was taken in one of the maps, or a map was refused a
    /// node, or the extent reaches the last page of the address space.
    /// The size of a layout is always rounded up to pages without
    /// overflow.
    pub open spec fn large_refused(&self, arena_map: ArenaMap, layout: Layout, e: ArenaError) -> bool {
        match e {
            ArenaError::BumpError(x) => self.spec_meta().refused(EXTENT_HEADER_SIZE, 8, x),
            ArenaError::ExtentError(x) => x is SystemError,
            ArenaError::LookupError(x) => exists|slice: MemSlice|
                #[trigger] slice.fresh(
                    crate::math::round_up(
                        layout.spec_size() as int,
                        crate::prim::COMMON_PAGE_SIZE as int,
                    ) as usize,
                ) && crate::lookup::both_refused(
                    self.spec_etree(),
                    arena_map,
                    slice,
                    OwnerInfo::Extent { extent: large_extent(slice) },
                    self.spec_index(),
                    x,
                ),
            _ => false,
        }
    }

    /// Maps an extent for one allocation of `layout` and files its pages
    /// in the extent tree and in the arena map, or in neither.
    pub fn allocate_large<S: System>(&mut self, sys: &S, arena_map: &mut ArenaMap, layout: Layout) -> (r:
        ArenaResult<usize>)
        requires
            old(self).wf(),
            old(arena_map).wf(),
        ensures
            final(self).wf(),
            final(arena_map).wf(),
            final(self).spec_index() == old(self).spec_index(),
            final(self).served_large(*old(self), old(arena_map)@, final(arena_map)@, layout, r),
            old(self).coherent(old(arena_map)@) ==> final(self).coherent(final(arena_map)@),
            r matches Err(e) ==> old(self).large_refused(*old(arena_map), layout, e),
    {
        proof {
            assert(8usize & ((8usize - 1) as usize) == 0) by (bit_vector);
            crate::math::lemma_single_bit_is_pow2(8);
        }
        let header: Layout = match Layout::from_size_align(EXTENT_HEADER_SIZE, 8) {
            Ok(l) => l,
            Err(_) => return Err(ArenaError::BumpError(crate::bump::ChunkError::Overflow)),
        };
        let bumped = self.bump.create(sys, header);
        proof {
            if old(self).coherent(old(arena_map)@) {
                Self::lemma_same_maps_coherent(*old(self), *self, old(arena_map)@);
            }
        }
        if let Err(e) = bumped {
            return Err(ArenaError::BumpError(e));
        }
        proof {
            crate::prim::lemma_page_size_is_pow2();
            crate::math::lemma_align_up_bounds(layout.spec_size(), crate::prim::COMMON_PAGE_SIZE);
        }
        let pga_size: usize = match page_align(layout.size()) {
            Ok(v) => v,
            Err(e) => return Err(ArenaError::PrimError(e)),
        };
        let extent: Extent = match Extent::new(sys, pga_size, SysOption::Commit) {
            Ok(v) => v,
            Err(e) => return Err(ArenaError::ExtentError(e)),
        };
        let ptr: usize = extent.as_ref().as_ptr();
        let info: OwnerInfo = OwnerInfo::new_extent(extent);
        let ghost e0 = self.etree@;
        if let Err(e) = self.etree.register(sys, &extent, info) {
            let _ = extent.release(sys);
            proof {
                if old(self).coherent(old(arena_map)@) {
                    Self::lemma_same_maps_coherent(*old(self), *self, old(arena_map)@);
                }
            }
            return Err(ArenaError::LookupError(e));
        }
        proof {
            assert forall|q: Seq<usize>| self.etree@.contains_key(q) implies owner_ok(
                #[trigger] self.etree@[q],
                self.slabs@,
            ) by {
                if extent.slice.len > 0 {
                    crate::lookup::lemma_with_pages::<OwnerInfo, 512>(
                        e0,
                        crate::lookup::spec_range(extent.slice).start,
                        crate::lookup::spec_range(extent.slice).count(),
                        info,
                        q,
                    );
                }
            }
        }
        if let Err(e) = arena_map.associate(sys, &extent, self.index) {
            proof {
                crate::lookup::lemma_unregister_registered::<OwnerInfo>(e0, extent.slice, info);
            }
            let _ = self.etree.unregister(&extent);
            let _ = extent.release(sys);
            proof {
                if old(self).coherent(old(arena_map)@) {
                    Self::lemma_same_maps_coherent(*old(self), *self, old(arena_map)@);
                }
            }
            return Err(ArenaError::LookupError(e));
        }
        proof {
            if extent.slice.len > 0 {
                crate::lookup::lemma_free_unfiled::<OwnerInfo>(e0, extent.slice, info);
                crate::lookup::lemma_free_unfiled::<ArenaId>(
                    old(arena_map)@,
                    extent.slice,
                    self.index,
                );
            }
        }
        if pga_size > 0 {
            let ghost listed = self.larges@;
            self.larges.push(extent);
            proof {
                assert forall|e: MemSlice|
                    large_ranges(self.larges@).contains(e) == large_ranges(listed).insert(
                        extent.slice,
                    ).contains(e) by {
                    if large_ranges(self.larges@).contains(e) {
                        let k = choose|k: int|
                            0 <= k < self.larges@.len() && (#[trigger] self.larges@[k]).slice == e;
                        if k < listed.len() {
                            assert(listed[k].slice == e);
                        }
                    }
                    if large_ranges(listed).contains(e) {
                        let k = choose|k: int|
                            0 <= k < listed.len() && (#[trigger] listed[k]).slice == e;
                        assert(self.larges@[k].slice == e);
                    }
                    if e == extent.slice {
                        assert(self.larges@[listed.len() as int].slice == e);
                    }
                }
                assert(large_ranges(self.larges@) =~= large_ranges(listed).insert(extent.slice));
            }
        }
        proof {
            Self::lemma_served_large_coherent(
                *old(self),
                *self,
                old(arena_map)@,
                arena_map@,
                layout,
                Ok(ptr),
            );
        }
        Ok(ptr)
    }

    /// What `allocate_large` does to the arena `before` with result `r`:
    /// the slabs are untouched; on success the extent is filed in both
    /// maps, on failure both maps are as they were.
    pub open spec fn served_large(
        &self,
        before: Arena,
        map_before: Map<Seq<usize>, ArenaId>,
        map_after: Map<Seq<usize>, ArenaId>,
        layout: Layout,
        r: ArenaResult<usize>,
    ) -> bool {
        &&& self.spec_slabs() == before.spec_slabs()
        &&& self.spec_index() == before.spec_index()
        &&& match r {
            Ok(p) => self.serves_large(before, map_before, map_after, layout, p),
            Err(_) => self.spec_owners() == before.spec_owners() && map_after == map_before
                && self.spec_larges() == before.spec_larges(),
        }
    }

    /// The arena serves `layout` at `p`: `p` is the base of a fresh
    /// extent of the layout's size rounded up to whole pages, filed in
    /// the extent tree and in the arena map.
    pub open spec fn serves_large(
        &self,
        before: Arena,
        map_before: Map<Seq<usize>, ArenaId>,
        map_after: Map<Seq<usize>, ArenaId>,
        layout: Layout,
        p: usize,
    ) -> bool {
        let size = crate::math::round_up(
            layout.spec_size() as int,
            crate::prim::COMMON_PAGE_SIZE as int,
        ) as usize;
        let slice = crate::system::MemSlice { base: p, len: size };
        let extent = Extent { slice, link: crate::list::Link::unlinked(), activated: true };
        &&& slice.fresh(size)
        &&& size == crate::math::round_up(
            layout.spec_size() as int,
            crate::prim::COMMON_PAGE_SIZE as int,
        )
        &&& self.spec_owners() == crate::lookup::registered(
            before.spec_owners(),
            slice,
            OwnerInfo::Extent { extent },
        )
        &&& map_after == crate::lookup::registered(map_before, slice, self.spec_index())
        &&& size > 0 ==> crate::lookup::range_ok(slice) && crate::lookup::unfiled(
            before.spec_owners(),
            slice,
        ) && crate::lookup::unfiled(map_before, slice)
        &&& self.spec_larges() == if size > 0 {
            before.spec_larges().insert(slice)
        } else {
            before.spec_larges()
        }
    }

    /// What `deallocate_large` does to the arena `before` with result
    /// `r`: on success the pages of `slice` are taken out of both maps;
    /// on failure the arena map is as it was, and either the extent tree
    /// or the arena map did not hold the pages.
    pub open spec fn took_large(
        &self,
        before: Arena,
        map_before: Map<Seq<usize>, ArenaId>,
        map_after: Map<Seq<usize>, ArenaId>,
        slice: MemSlice,
        r: ArenaResult<()>,
    ) -> bool {
        &&& self.spec_slabs() == before.spec_slabs()
        &&& self.spec_index() == before.spec_index()
        &&& match r {
            Ok(()) => self.spec_owners() == crate::lookup::unregistered(
                before.spec_owners(),
                slice,
            ) && map_after == crate::lookup::unregistered(map_before, slice)
                && self.spec_larges() == before.spec_larges().remove(slice),
            Err(e) => e is LookupError && map_after == map_before && self.spec_larges()
                == before.spec_larges() && ((self.spec_owners() == before.spec_owners() && (
            before.spec_owners() == crate::lookup::unregistered(before.spec_owners(), slice)
                || !crate::lookup::range_ok(slice))) || (self.spec_owners()
                == crate::lookup::unregistered(before.spec_owners(), slice) && (map_before
                == crate::lookup::unregistered(map_before, slice) || !crate::lookup::range_ok(
                slice,
            )))),
        }
    }

    /// Takes the range of `extent` off the list of large extents.
    fn forget_large(&mut self, extent: &Extent)
        ensures
            final(self).index == old(self).index,
            final(self).bins == old(self).bins,
            final(self).bump == old(self).bump,
            final(self).etree == old(self).etree,
            final(self).slabs == old(self).slabs,
            final(self).spec_larges() == old(self).spec_larges().remove(extent.slice),
    {
        let ghost listed = self.larges@;
        let mut kept: Vec<Extent> = Vec::new();
        let n: usize = self.larges.len();
        let mut i: usize = 0;
        while i < n
            invariant
                i <= n,
                n == self.larges@.len(),
                self.larges@ == listed,
                forall|k: int| 0 <= k < kept@.len() ==> (#[trigger] kept@[k]).slice != extent.slice,
                forall|k: int|
                    0 <= k < kept@.len() ==> large_ranges(listed).contains((#[trigger] kept@[k]).slice),
                forall|j: int|
                    0 <= j < i && (#[trigger] listed[j]).slice != extent.slice ==> large_ranges(
                        kept@,
                    ).contains(listed[j].slice),
            decreases n - i,
        {
            let e: Extent = self.larges[i];
            let ghost before = kept@;
            if e.slice.base != extent.slice.base || e.slice.len != extent.slice.len {
                kept.push(e);
                proof {
                    assert(kept@[before.len() as int].slice == e.slice);
                    assert(listed[i as int].slice == e.slice);
                    assert forall|j: int|
                        0 <= j < i + 1 && (#[trigger] listed[j]).slice
                            != extent.slice implies large_ranges(kept@).contains(listed[j].slice) by {
                        if j < i {
                            let k = choose|k: int|
                                0 <= k < before.len() && (#[trigger] before[k]).slice
                                    == listed[j].slice;
                            assert(kept@[k].slice == listed[j].slice);
                        }
                    }
                }
            }
            i += 1;
        }
        self.larges = kept;
        proof {
            assert forall|e: MemSlice|
                large_ranges(self.larges@).contains(e) == large_ranges(listed).remove(
                    extent.slice,
                ).contains(e) by {
                if large_ranges(self.larges@).contains(e) {
                    let k = choose|k: int|
                        0 <= k < self.larges@.len() && (#[trigger] self.larges@[k]).slice == e;
                }
                if large_ranges(listed).contains(e) && e != extent.slice {
                    let j = choose|j: int| 0 <= j < listed.len() && (#[trigger] listed[j]).slice == e;
                }
            }
            assert(large_ranges(self.larges@) =~= large_ranges(listed).remove(extent.slice));
        }
    }

    /// Takes the pages of `extent` out of both maps and returns it to the host.
    pub fn deallocate_large<S: System>(&mut self, sys: &S, arena_map: &mut ArenaMap, extent: Extent) -> (r:
        ArenaResult<()>)
        requires
            old(self).wf(),
            old(arena_map).wf(),
        ensures
            final(self).wf(),
            final(arena_map).wf(),
            final(self).took_large(*old(self), old(arena_map)@, final(arena_map)@, extent.slice, r),
            old(self).coherent(old(arena_map)@) && old(self).spec_larges().contains(extent.slice)
                ==> final(self).coherent(final(arena_map)@),
    {
        let ghost e0 = self.etree@;
        let removed = self.etree.unregister(&extent);
        proof {
            assert forall|q: Seq<usize>| self.etree@.contains_key(q) implies owner_ok(
                #[trigger] self.etree@[q],
                self.slabs@,
            ) by {
                if extent.slice.len > 0 {
                    crate::lookup::lemma_without_pages::<OwnerInfo, 512>(
                        e0,
                        crate::lookup::spec_range(extent.slice).start,
                        crate::lookup::spec_range(extent.slice).count(),
                        q,
                    );
                }
                if e0.contains_key(q) {
                    assert(owner_ok(e0[q], self.slabs@));
                }
            }
        }
        if let Err(e) = removed {
            proof {
                Self::lemma_took_large_coherent(
                    *old(self),
                    *self,
                    old(arena_map)@,
                    arena_map@,
                    extent.slice,
                    Err(ArenaError::LookupError(e)),
                );
            }
            return Err(ArenaError::LookupError(e));
        }
        if let Err(e) = arena_map.detach(&extent) {
            proof {
                Self::lemma_took_large_coherent(
                    *old(self),
                    *self,
                    old(arena_map)@,
                    arena_map@,
                    extent.slice,
                    Err(ArenaError::LookupError(e)),
                );
            }
            return Err(ArenaError::LookupError(e));
        }
        self.forget_large(&extent);
        let _ = extent.release(sys);
        proof {
            Self::lemma_took_large_coherent(
                *old(self),
                *self,
                old(arena_map)@,
                arena_map@,
                extent.slice,
                Ok(()),
            );
        }
        Ok(())
    }

    /// What `deallocate` does to the arena `before` when asked to take
    /// back `ptr` with result `r`. A page without an owner is refused
    /// and nothing changes. A region of a slab is taken out of the live
    /// regions unless the slab refuses the pointer. A large extent is
    /// taken out of both maps.
    pub open spec fn took_back(
        &self,
        before: Arena,
        map_before: Map<Seq<usize>, ArenaId>,
        map_after: Map<Seq<usize>, ArenaId>,
        ptr: usize,
        r: ArenaResult<()>,
    ) -> bool {
        &&& self.spec_slabs().len() == before.spec_slabs().len()
        &&& self.same_slab_ranges(before)
        &&& if !before.spec_owners().contains_key(crate::lookup::page_path(ptr)) {
            &&& r == Err::<(), ArenaError>(ArenaError::LookupError(LookupError::NotFound))
            &&& self.live() == before.live()
            &&& self.spec_owners() == before.spec_owners()
            &&& self.spec_larges() == before.spec_larges()
            &&& map_after == map_before
        } else {
            match before.spec_owners()[crate::lookup::page_path(ptr)] {
                OwnerInfo::Slab { slab, size_class } => {
                    &&& map_after == map_before
                    &&& self.spec_larges() == before.spec_larges()
                    &&& self.spec_owners() == before.spec_owners()
                    &&& self.live() == if r matches Err(
                        ArenaError::BinError(BinError::SlabError(_)),
                    ) {
                        before.live()
                    } else {
                        before.live().remove(
                            (slab as int, before.spec_slabs()[slab as int].slot_of(ptr) as int),
                        )
                    }
                    &&& r matches Err(e) ==> e is BinError
                    &&& r matches Err(ArenaError::BinError(BinError::SlabError(_)))
                        ==> !before.spec_slabs()[slab as int].holds_region_of(ptr)
                },
                OwnerInfo::Extent { extent } => {
                    &&& self.live() == before.live()
                    &&& self.took_large(before, map_before, map_after, extent.slice, r)
                },
            }
        }
    }

    /// Takes back what `ptr` points to: a region of one of the arena's
    /// slabs, or a large extent.
    pub fn deallocate<S: System>(&mut self, sys: &S, arena_map: &mut ArenaMap, ptr: usize) -> (r: ArenaResult<
        (),
    >)
        requires
            old(self).wf(),
            old(arena_map).wf(),
        ensures
            final(self).wf(),
            final(arena_map).wf(),
            final(self).spec_index() == old(self).spec_index(),
            final(self).took_back(*old(self), old(arena_map)@, final(arena_map)@, ptr, r),
            old(self).coherent(old(arena_map)@) ==> final(self).coherent(final(arena_map)@),
    {
        let info: OwnerInfo = match self.etree.lookup(ptr) {
            Some(i) => *i,
            None => return Err(ArenaError::LookupError(LookupError::NotFound)),
        };
        proof {
            assert(owner_ok(self.etree@[crate::lookup::page_path(ptr)], self.slabs@));
        }
        match info {
            OwnerInfo::Slab { slab, size_class } => {
                let ghost s0 = self.slabs@;
                let ghost e0 = self.etree@;
                assert(s0[slab as int].wf());
                let mut bin: Bin = self.bins[size_class.0];
                proof {
                    crate::classes::lemma_classes_monotonic(size_class.0 as int);
                }
                let freed = bin.deallocate(&mut self.slabs, sys, ptr, slab);
                self.bins.set(size_class.0, bin);
                proof {
                    assert forall|c: int| 0 <= c < NSCLASSES implies (#[trigger] self.bins@[c]).wf(
                        self.slabs@,
                    ) && self.bins@[c].class.1.0 == c && self.bins@[c].class.0
                        == crate::classes::class_size(c) && self.bins@[c].pages.0
                        == crate::classes::spec_pages(c) by {
                        if c != size_class.0 as int {
                            assert(old(self).bins@[c].wf(s0));
                        }
                    }
                    assert forall|s: int| 0 <= s < self.slabs@.len() implies (
                    #[trigger] self.slabs@[s]).spec_class().0 == crate::classes::class_size(
                        self.slabs@[s].spec_class().1.0 as int,
                    ) && self.slabs@[s].spec_class().1.0 < NSCLASSES by {
                        assert(s0[s].spec_class() == self.slabs@[s].spec_class());
                    }
                    assert forall|q: Seq<usize>| self.etree@.contains_key(q) implies owner_ok(
                        #[trigger] self.etree@[q],
                        self.slabs@,
                    ) by {
                        assert(owner_ok(e0[q], s0));
                    }
                }
                if let Err(e) = freed {
                    proof {
                        Self::lemma_took_back_coherent(
                            *old(self),
                            *self,
                            old(arena_map)@,
                            arena_map@,
                            ptr,
                            Err(ArenaError::BinError(e)),
                        );
                    }
                    return Err(ArenaError::BinError(e));
                }
                proof {
                    s0[slab as int].lemma_wf();
                    Self::lemma_took_back_coherent(
                        *old(self),
                        *self,
                        old(arena_map)@,
                        arena_map@,
                        ptr,
                        Ok(()),
                    );
                }
                Ok(())
            },
            OwnerInfo::Extent { extent } => {
                let r = self.deallocate_large(sys, arena_map, extent);
                proof {
                    if old(self).coherent(old(arena_map)@) {
                        assert(old(self).spec_larges().contains(extent.slice));
                    }
                }
                r
            },
        }
    }

    /// The owner that the extent tree records for the page of `ptr`.
    pub fn owner_of(&self, ptr: usize) -> (r: Option<OwnerInfo>)
        requires
            self.wf(),
        ensures
            r == if self.spec_owners().contains_key(crate::lookup::page_path(ptr)) {
                Some(self.spec_owners()[crate::lookup::page_path(ptr)])
            } else {
                None
            },
            r matches Some(info) ==> owner_ok(info, self.spec_slabs()),
    {
        match self.etree.lookup(ptr) {
            Some(i) => Some(*i),
            None => None,
        }
    }

    /// The class of slab `slab`.
    pub fn slab_class(&self, slab: usize) -> (r: crate::classes::SizeClass)
        requires
            self.wf(),
            slab < self.spec_slabs().len(),
        ensures
            r == self.spec_slabs()[slab as int].spec_class(),
            r.1.0 < NSCLASSES,
            r.0 == crate::classes::class_size(r.1.0 as int),
    {
        self.slabs[slab].class()
    }

    /// Serving a region keeps the arena and the arena map coherent.
    pub proof fn lemma_served_coherent(
        before: Arena,
        after: Arena,
        map_before: Map<Seq<usize>, ArenaId>,
        map_after: Map<Seq<usize>, ArenaId>,
        sc: SizeClassIndex,
        r: ArenaResult<usize>,
    )
        requires
            after.served(before, map_before, map_after, sc, r),
        ensures
            before.coherent(map_before) ==> after.coherent(map_after),
    {
        if before.coherent(map_before) {
            let n = before.spec_slab_count();
            if after.spec_slabs().len() == before.spec_slabs().len() {
                Self::lemma_entries_kept(before, after);
                assert forall|s: usize| s < after.spec_slabs().len() implies #[trigger] after.slab_coherent(
                    map_after,
                    s,
                ) by {
                    assert(before.slab_coherent(map_before, s));
                    assert(after.slab_slice(s as int) == before.slab_slice(s as int));
                }
                assert forall|s: usize, t: usize|
                    s < after.spec_slabs().len() && t < after.spec_slabs().len() && s
                        != t implies crate::lookup::path_disjoint(
                    #[trigger] after.slab_slice(s as int),
                    #[trigger] after.slab_slice(t as int),
                ) by {
                    assert(after.slab_slice(s as int) == before.slab_slice(s as int));
                    assert(after.slab_slice(t as int) == before.slab_slice(t as int));
                }
                assert forall|e: MemSlice| after.spec_larges().contains(e) implies #[trigger] after.large_coherent(
                    map_after,
                    e,
                ) by {
                    assert(before.large_coherent(map_before, e));
                    assert forall|s: usize| s < after.spec_slabs().len() implies crate::lookup::path_disjoint(
                        e,
                        #[trigger] after.slab_slice(s as int),
                    ) by {
                        assert(after.slab_slice(s as int) == before.slab_slice(s as int));
                    }
                }
            } else {
                let b = after.slab_slice(n as int);
                let idx = after.spec_index();
                let v = OwnerInfo::Slab { slab: n, size_class: sc };
                let ob = before.spec_owners();
                crate::lookup::lemma_registered_filed::<ArenaId>(map_before, b, idx);
                crate::lookup::lemma_registered_filed::<OwnerInfo>(ob, b, v);
                assert forall|q: Seq<usize>| after.spec_owners().contains_key(q) implies #[trigger]
                    after.slab_entry_placed(q) by {
                    crate::lookup::lemma_registered_entry::<OwnerInfo>(ob, b, v, q);
                    if ob.contains_key(q) && after.spec_owners()[q] == ob[q] {
                        assert(before.slab_entry_placed(q));
                        if ob[q] is Slab {
                            let slab = ob[q]->slab;
                            assert(after.slab_slice(slab as int) == before.slab_slice(slab as int));
                        }
                    } else {
                        assert(holds_page(b, q));
                    }
                }
                assert forall|s: usize| s < after.spec_slabs().len() implies #[trigger] after.slab_coherent(
                    map_after,
                    s,
                ) by {
                    if s < n {
                        assert(before.slab_coherent(map_before, s));
                        let a = before.slab_slice(s as int);
                        assert(after.slab_slice(s as int) == a);
                        crate::lookup::lemma_filed_unfiled_apart::<ArenaId>(map_before, a, b, idx);
                        crate::lookup::lemma_registered_keeps::<ArenaId>(map_before, b, idx, a);
                        crate::lookup::lemma_registered_keeps::<OwnerInfo>(ob, b, v, a);
                    }
                }
                assert forall|s: usize, t: usize|
                    s < after.spec_slabs().len() && t < after.spec_slabs().len() && s
                        != t implies crate::lookup::path_disjoint(
                    #[trigger] after.slab_slice(s as int),
                    #[trigger] after.slab_slice(t as int),
                ) by {
                    if s < n {
                        assert(before.slab_coherent(map_before, s));
                        assert(after.slab_slice(s as int) == before.slab_slice(s as int));
                        crate::lookup::lemma_filed_unfiled_apart::<ArenaId>(
                            map_before,
                            before.slab_slice(s as int),
                            b,
                            idx,
                        );
                    }
                    if t < n {
                        assert(before.slab_coherent(map_before, t));
                        assert(after.slab_slice(t as int) == before.slab_slice(t as int));
                        crate::lookup::lemma_filed_unfiled_apart::<ArenaId>(
                            map_before,
                            before.slab_slice(t as int),
                            b,
                            idx,
                        );
                    }
                }
                assert forall|e: MemSlice| after.spec_larges().contains(e) implies #[trigger] after.large_coherent(
                    map_after,
                    e,
                ) by {
                    assert(before.large_coherent(map_before, e));
                    crate::lookup::lemma_filed_unfiled_apart::<ArenaId>(map_before, e, b, idx);
                    crate::lookup::lemma_registered_keeps::<ArenaId>(map_before, b, idx, e);
                    crate::lookup::lemma_registered_keeps::<OwnerInfo>(ob, b, v, e);
                    assert forall|s: usize| s < after.spec_slabs().len() implies crate::lookup::path_disjoint(
                        e,
                        #[trigger] after.slab_slice(s as int),
                    ) by {
                        if s < n {
                            assert(after.slab_slice(s as int) == before.slab_slice(s as int));
                        }
                    }
                }
                assert forall|q: Seq<usize>| after.spec_owners().contains_key(q) implies (
                #[trigger] after.spec_owners()[q] matches OwnerInfo::Extent { extent }
                    ==> after.spec_larges().contains(extent.slice) && extent == large_extent(
                    extent.slice,
                ) && holds_page(extent.slice, q)) by {
                    crate::lookup::lemma_with_pages::<OwnerInfo, 512>(
                        ob,
                        crate::lookup::spec_range(b).start,
                        crate::lookup::spec_range(b).count(),
                        v,
                        q,
                    );
                }
            }
        }
    }

    /// Serving a large extent keeps the arena and the arena map coherent.
    pub proof fn lemma_served_large_coherent(
        before: Arena,
        after: Arena,
        map_before: Map<Seq<usize>, ArenaId>,
        map_after: Map<Seq<usize>, ArenaId>,
        layout: Layout,
        r: ArenaResult<usize>,
    )
        requires
            after.served_large(before, map_before, map_after, layout, r),
        ensures
            before.coherent(map_before) ==> after.coherent(map_after),
    {
        if before.coherent(map_before) {
            let size = crate::math::round_up(
                layout.spec_size() as int,
                crate::prim::COMMON_PAGE_SIZE as int,
            ) as usize;
            if r is Ok && size > 0 {
                let b = MemSlice { base: r->Ok_0, len: size };
                let idx = after.spec_index();
                let v = OwnerInfo::Extent { extent: large_extent(b) };
                let ob = before.spec_owners();
                crate::lookup::lemma_registered_filed::<ArenaId>(map_before, b, idx);
                crate::lookup::lemma_registered_filed::<OwnerInfo>(ob, b, v);
                assert forall|q: Seq<usize>| after.spec_owners().contains_key(q) implies #[trigger]
                    after.slab_entry_placed(q) by {
                    crate::lookup::lemma_registered_entry::<OwnerInfo>(ob, b, v, q);
                    if ob.contains_key(q) && after.spec_owners()[q] == ob[q] {
                        assert(before.slab_entry_placed(q));
                    }
                }
                assert forall|s: usize| s < after.spec_slabs().len() implies #[trigger] after.slab_coherent(
                    map_after,
                    s,
                ) by {
                    assert(before.slab_coherent(map_before, s));
                    let a = before.slab_slice(s as int);
                    crate::lookup::lemma_filed_unfiled_apart::<ArenaId>(map_before, a, b, idx);
                    crate::lookup::lemma_registered_keeps::<ArenaId>(map_before, b, idx, a);
                    crate::lookup::lemma_registered_keeps::<OwnerInfo>(ob, b, v, a);
                }
                assert forall|e: MemSlice| after.spec_larges().contains(e) implies #[trigger] after.large_coherent(
                    map_after,
                    e,
                ) by {
                    if e == b {
                        assert forall|s: usize| s < after.spec_slabs().len() implies crate::lookup::path_disjoint(
                            e,
                            #[trigger] after.slab_slice(s as int),
                        ) by {
                            assert(before.slab_coherent(map_before, s));
                            crate::lookup::lemma_filed_unfiled_apart::<ArenaId>(
                                map_before,
                                before.slab_slice(s as int),
                                b,
                                idx,
                            );
                        }
                    } else {
                        assert(before.large_coherent(map_before, e));
                        crate::lookup::lemma_filed_unfiled_apart::<ArenaId>(map_before, e, b, idx);
                        crate::lookup::lemma_registered_keeps::<ArenaId>(map_before, b, idx, e);
                        crate::lookup::lemma_registered_keeps::<OwnerInfo>(ob, b, v, e);
                        assert forall|s: usize| s < after.spec_slabs().len() implies crate::lookup::path_disjoint(
                            e,
                            #[trigger] after.slab_slice(s as int),
                        ) by {
                            assert(after.slab_slice(s as int) == before.slab_slice(s as int));
                        }
                    }
                }
                assert forall|s: usize, t: usize|
                    s < after.spec_slabs().len() && t < after.spec_slabs().len() && s
                        != t implies crate::lookup::path_disjoint(
                    #[trigger] after.slab_slice(s as int),
                    #[trigger] after.slab_slice(t as int),
                ) by {
                    assert(after.slab_slice(s as int) == before.slab_slice(s as int));
                    assert(after.slab_slice(t as int) == before.slab_slice(t as int));
                }
                assert forall|e: MemSlice, f: MemSlice|
                    after.spec_larges().contains(e) && after.spec_larges().contains(f) && e
                        != f implies #[trigger] crate::lookup::path_disjoint(e, f) by {
                    if e == b {
                        assert(before.large_coherent(map_before, f));
                        crate::lookup::lemma_filed_unfiled_apart::<ArenaId>(map_before, f, b, idx);
                    } else if f == b {
                        assert(before.large_coherent(map_before, e));
                        crate::lookup::lemma_filed_unfiled_apart::<ArenaId>(map_before, e, b, idx);
                    }
                }
                assert forall|q: Seq<usize>| after.spec_owners().contains_key(q) implies (
                #[trigger] after.spec_owners()[q] matches OwnerInfo::Extent { extent }
                    ==> after.spec_larges().contains(extent.slice) && extent == large_extent(
                    extent.slice,
                ) && holds_page(extent.slice, q)) by {
                    crate::lookup::lemma_with_pages::<OwnerInfo, 512>(
                        ob,
                        crate::lookup::spec_range(b).start,
                        crate::lookup::spec_range(b).count(),
                        v,
                        q,
                    );
                    if exists|i: int|
                        0 <= i < crate::lookup::spec_range(b).count() && q
                            == crate::rtree::key_path(
                            512,
                            crate::lookup::page_key(crate::lookup::spec_range(b).start, i),
                        ) {
                        let i = choose|i: int|
                            0 <= i < crate::lookup::spec_range(b).count() && q
                                == crate::rtree::key_path(
                                512,
                                crate::lookup::page_key(crate::lookup::spec_range(b).start, i),
                            );
                        let x = crate::lookup::lemma_page_in(b, i);
                        assert(holds_page(b, q));
                    }
                }
            } else {
                Self::lemma_same_maps_coherent(before, after, map_before);
            }
        }
    }

    /// Taking back a large extent of the arena keeps the arena and the
    /// arena map coherent.
    pub proof fn lemma_took_large_coherent(
        before: Arena,
        after: Arena,
        map_before: Map<Seq<usize>, ArenaId>,
        map_after: Map<Seq<usize>, ArenaId>,
        slice: MemSlice,
        r: ArenaResult<()>,
    )
        requires
            after.took_large(before, map_before, map_after, slice, r),
        ensures
            before.coherent(map_before) && before.spec_larges().contains(slice) ==> after.coherent(
                map_after,
            ),
    {
        if before.coherent(map_before) && before.spec_larges().contains(slice) {
            let ob = before.spec_owners();
            assert(before.large_coherent(map_before, slice));
            crate::lookup::lemma_unregistered_unfiled::<ArenaId>(map_before, slice);
            crate::lookup::lemma_unregistered_unfiled::<OwnerInfo>(ob, slice);
            assert(slice.contains(slice.base as int));
            assert(map_before.contains_key(crate::lookup::page_path(slice.base)));
            if r is Ok {
                assert forall|q: Seq<usize>| #[trigger]
                    after.spec_owners().contains_key(q) implies ob.contains_key(q)
                    && after.spec_owners()[q] == ob[q] by {
                    crate::lookup::lemma_unregistered_entry::<OwnerInfo>(ob, slice, q);
                }
                Self::lemma_entries_kept(before, after);
                assert forall|s: usize| s < after.spec_slabs().len() implies #[trigger] after.slab_coherent(
                    map_after,
                    s,
                ) by {
                    assert(before.slab_coherent(map_before, s));
                    let a = before.slab_slice(s as int);
                    crate::lookup::lemma_path_disjoint_sym(slice, a);
                    crate::lookup::lemma_unregistered_keeps::<ArenaId>(map_before, slice, a);
                    crate::lookup::lemma_unregistered_keeps::<OwnerInfo>(ob, slice, a);
                }
                assert forall|e: MemSlice| after.spec_larges().contains(e) implies #[trigger] after.large_coherent(
                    map_after,
                    e,
                ) by {
                    assert(before.large_coherent(map_before, e));
                    assert(crate::lookup::path_disjoint(e, slice));
                    crate::lookup::lemma_unregistered_keeps::<ArenaId>(map_before, slice, e);
                    crate::lookup::lemma_unregistered_keeps::<OwnerInfo>(ob, slice, e);
                    assert forall|s: usize| s < after.spec_slabs().len() implies crate::lookup::path_disjoint(
                        e,
                        #[trigger] after.slab_slice(s as int),
                    ) by {
                        assert(after.slab_slice(s as int) == before.slab_slice(s as int));
                    }
                }
                assert forall|s: usize, t: usize|
                    s < after.spec_slabs().len() && t < after.spec_slabs().len() && s
                        != t implies crate::lookup::path_disjoint(
                    #[trigger] after.slab_slice(s as int),
                    #[trigger] after.slab_slice(t as int),
                ) by {
                    assert(after.slab_slice(s as int) == before.slab_slice(s as int));
                    assert(after.slab_slice(t as int) == before.slab_slice(t as int));
                }
                assert forall|q: Seq<usize>| after.spec_owners().contains_key(q) implies (
                #[trigger] after.spec_owners()[q] matches OwnerInfo::Extent { extent }
                    ==> after.spec_larges().contains(extent.slice) && extent == large_extent(
                    extent.slice,
                ) && holds_page(extent.slice, q)) by {
                    crate::lookup::lemma_without_pages::<OwnerInfo, 512>(
                        ob,
                        crate::lookup::spec_range(slice).start,
                        crate::lookup::spec_range(slice).count(),
                        q,
                    );
                    assert(ob.contains_key(q) && ob[q] == after.spec_owners()[q]);
                    if let OwnerInfo::Extent { extent } = ob[q] {
                        if extent.slice == slice {
                            let x = choose|x: usize|
                                slice.contains(x as int) && #[trigger] crate::lookup::page_path(x)
                                    == q;
                            assert(!after.spec_owners().contains_key(crate::lookup::page_path(x)));
                        }
                    }
                }
            } else {
                assert(ob.contains_key(crate::lookup::page_path(slice.base)));
                if after.spec_owners() == ob && ob != crate::lookup::unregistered(ob, slice) {
                    Self::lemma_same_maps_coherent(before, after, map_before);
                } else if after.spec_owners() == ob {
                    assert(!ob.contains_key(crate::lookup::page_path(slice.base)));
                } else {
                    assert(!map_before.contains_key(crate::lookup::page_path(slice.base)));
                }
            }
        }
    }

    /// Taking back what a pointer points to keeps the arena and the
    /// arena map coherent.
    pub proof fn lemma_took_back_coherent(
        before: Arena,
        after: Arena,
        map_before: Map<Seq<usize>, ArenaId>,
        map_after: Map<Seq<usize>, ArenaId>,
        ptr: usize,
        r: ArenaResult<()>,
    )
        requires
            before.wf(),
            after.took_back(before, map_before, map_after, ptr, r),
        ensures
            before.coherent(map_before) ==> after.coherent(map_after),
    {
        if before.coherent(map_before) {
            let ob = before.spec_owners();
            let q0 = crate::lookup::page_path(ptr);
            if !ob.contains_key(q0) {
                Self::lemma_same_maps_coherent(before, after, map_before);
            } else {
                match ob[q0] {
                    OwnerInfo::Slab { slab, size_class } => {
                        if after.spec_owners() == ob {
                            Self::lemma_same_maps_coherent(before, after, map_before);
                        } else {
                            assert(owner_ok(ob[q0], before.spec_slabs()));
                            let c = before.slab_slice(slab as int);
                            assert(before.slab_coherent(map_before, slab));
                            crate::lookup::lemma_unregistered_unfiled::<OwnerInfo>(ob, c);
                            assert forall|q: Seq<usize>| #[trigger]
                                after.spec_owners().contains_key(q) implies ob.contains_key(q)
                                && after.spec_owners()[q] == ob[q] by {
                                crate::lookup::lemma_unregistered_entry::<OwnerInfo>(ob, c, q);
                            }
                            Self::lemma_entries_kept(before, after);
                            assert forall|s: usize| s < after.spec_slabs().len() implies #[trigger] after.slab_coherent(
                                map_after,
                                s,
                            ) by {
                                assert(before.slab_coherent(map_before, s));
                                assert(after.slab_slice(s as int) == before.slab_slice(s as int));
                                if s != slab {
                                    let a = before.slab_slice(s as int);
                                    assert(crate::lookup::path_disjoint(a, c));
                                    crate::lookup::lemma_unregistered_keeps::<OwnerInfo>(ob, c, a);
                                }
                            }
                            assert forall|s: usize, t: usize|
                                s < after.spec_slabs().len() && t < after.spec_slabs().len() && s
                                    != t implies crate::lookup::path_disjoint(
                                #[trigger] after.slab_slice(s as int),
                                #[trigger] after.slab_slice(t as int),
                            ) by {
                                assert(after.slab_slice(s as int) == before.slab_slice(s as int));
                                assert(after.slab_slice(t as int) == before.slab_slice(t as int));
                            }
                            assert forall|e: MemSlice| after.spec_larges().contains(e) implies #[trigger] after.large_coherent(
                                map_after,
                                e,
                            ) by {
                                assert(before.large_coherent(map_before, e));
                                assert(crate::lookup::path_disjoint(e, before.slab_slice(slab as int)));
                                crate::lookup::lemma_unregistered_keeps::<OwnerInfo>(ob, c, e);
                                assert forall|s: usize| s < after.spec_slabs().len() implies crate::lookup::path_disjoint(
                                    e,
                                    #[trigger] after.slab_slice(s as int),
                                ) by {
                                    assert(after.slab_slice(s as int) == before.slab_slice(s as int));
                                }
                            }
                            assert forall|q: Seq<usize>| after.spec_owners().contains_key(q) implies (
                            #[trigger] after.spec_owners()[q] matches OwnerInfo::Extent { extent }
                                ==> after.spec_larges().contains(extent.slice) && extent
                                == large_extent(extent.slice) && holds_page(extent.slice, q)) by {
                                crate::lookup::lemma_without_pages::<OwnerInfo, 512>(
                                    ob,
                                    crate::lookup::spec_range(c).start,
                                    crate::lookup::spec_range(c).count(),
                                    q,
                                );
                            }
                        }
                    },
                    OwnerInfo::Extent { extent } => {
                        assert(before.spec_larges().contains(extent.slice));
                        Self::lemma_took_large_coherent(
                            before,
                            after,
                            map_before,
                            map_after,
                            extent.slice,
                            r,
                        );
                    },
                }
            }
        }
    }

    /// The entries that the extent tree kept name slabs at their
    /// pages, while the slabs keep their ranges.
    proof fn lemma_entries_kept(before: Arena, after: Arena)
        requires
            forall|q: Seq<usize>|
                before.spec_owners().contains_key(q) ==> #[trigger] before.slab_entry_placed(q),
            after.same_slab_ranges(before),
            forall|q: Seq<usize>| #[trigger]
                after.spec_owners().contains_key(q) ==> before.spec_owners().contains_key(q)
                    && after.spec_owners()[q] == before.spec_owners()[q],
        ensures
            forall|q: Seq<usize>|
                after.spec_owners().contains_key(q) ==> #[trigger] after.slab_entry_placed(q),
    {
        assert forall|q: Seq<usize>| after.spec_owners().contains_key(q) implies #[trigger]
            after.slab_entry_placed(q) by {
            assert(before.slab_entry_placed(q));
            if before.spec_owners()[q] is Slab {
                let slab = before.spec_owners()[q]->slab;
                assert(after.slab_slice(slab as int) == before.slab_slice(slab as int));
            }
        }
    }

    /// An arena whose slab ranges, large extents and extent tree are
    /// those of a coherent arena is coherent with the same map.
    pub proof fn lemma_same_maps_coherent(before: Arena, after: Arena, map: Map<Seq<usize>, ArenaId>)
        requires
            before.coherent(map),
            after.same_slab_ranges(before),
            after.spec_slabs().len() == before.spec_slabs().len(),
            after.spec_owners() == before.spec_owners(),
            after.spec_larges() == before.spec_larges(),
        ensures
            after.coherent(map),
    {
        Self::lemma_entries_kept(before, after);
        assert forall|s: usize| s < after.spec_slabs().len() implies #[trigger] after.slab_coherent(
            map,
            s,
        ) by {
            assert(before.slab_coherent(map, s));
            assert(after.slab_slice(s as int) == before.slab_slice(s as int));
        }
        assert forall|s: usize, t: usize|
            s < after.spec_slabs().len() && t < after.spec_slabs().len() && s
                != t implies crate::lookup::path_disjoint(
            #[trigger] after.slab_slice(s as int),
            #[trigger] after.slab_slice(t as int),
        ) by {
            assert(after.slab_slice(s as int) == before.slab_slice(s as int));
            assert(after.slab_slice(t as int) == before.slab_slice(t as int));
        }
        assert forall|e: MemSlice| after.spec_larges().contains(e) implies #[trigger] after.large_coherent(
            map,
            e,
        ) by {
            assert(before.large_coherent(map, e));
            assert forall|s: usize| s < after.spec_slabs().len() implies crate::lookup::path_disjoint(
                e,
                #[trigger] after.slab_slice(s as int),
            ) by {
                assert(after.slab_slice(s as int) == before.slab_slice(s as int));
            }
        }
    }

    /// The bytes of region `i` of slab `s`.
    pub open spec fn region(&self, s: usize, i: int) -> MemSlice {
        MemSlice {
            base: self.spec_slabs()[s as int].region_addr(i) as usize,
            len: self.spec_slabs()[s as int].spec_class().0,
        }
    }

    /// Region `i` of slab `s` is one of the arena's regions.
    pub open spec fn is_region(&self, s: usize, i: int) -> bool {
        s < self.spec_slabs().len() && 0 <= i < self.spec_slabs()[s as int]@.len()
    }

    /// A region lies inside its slab, at an address that is not null and
    /// a multiple of the quantum, and holds the size of its class.
    pub proof fn lemma_region_placed(&self, s: usize, i: int)
        requires
            self.wf(),
            self.is_region(s, i),
        ensures
            self.region(s, i).base == self.spec_slabs()[s as int].region_addr(i),
            self.region(s, i).base != 0,
            self.region(s, i).base % crate::classes::QUANTUM == 0,
            self.slab_slice(s as int).base <= self.region(s, i).base,
            self.region(s, i).base + self.region(s, i).len <= self.slab_slice(s as int).base
                + self.slab_slice(s as int).len,
            self.region(s, i).len == crate::classes::class_size(
                self.spec_slabs()[s as int].spec_class().1.0 as int,
            ),
            self.region(s, i).len > 0,
    {
        let slab = self.spec_slabs()[s as int];
        assert(slab.wf());
        slab.lemma_wf();
        crate::classes::lemma_classes_monotonic(slab.spec_class().1.0 as int);
        let size = slab.spec_class().0 as int;
        let base = slab.spec_extent().slice.base as int;
        let n = slab@.len() as int;
        assert(i * size >= 0 && (i + 1) * size <= n * size && (i + 1) * size == i * size + size)
            by (nonlinear_arith)
            requires
                0 <= i < n,
                size > 0,
        ;
        let k = base / 4096;
        let m = size / 16;
        vstd::arithmetic::div_mod::lemma_fundamental_div_mod(base, 4096);
        vstd::arithmetic::div_mod::lemma_fundamental_div_mod(size, 16);
        assert(base + i * size == 16 * (256 * k + i * m)) by (nonlinear_arith)
            requires
                base == 4096 * k,
                size == 16 * m,
        ;
        vstd::arithmetic::div_mod::lemma_mod_multiples_basic(256 * k + i * m, 16);
        assert(16 * (256 * k + i * m) == (256 * k + i * m) * 16) by (nonlinear_arith);
    }

    /// No two regions of a coherent arena overlap.
    pub proof fn lemma_regions_apart(
        &self,
        map: Map<Seq<usize>, ArenaId>,
        s: usize,
        i: int,
        t: usize,
        j: int,
    )
        requires
            self.wf(),
            self.coherent(map),
            self.is_region(s, i),
            self.is_region(t, j),
            s != t || i != j,
        ensures
            self.region(s, i).disjoint(self.region(t, j)),
    {
        self.lemma_region_placed(s, i);
        self.lemma_region_placed(t, j);
        if s == t {
            let size = self.spec_slabs()[s as int].spec_class().0 as int;
            assert(i < j ==> (i + 1) * size <= j * size) by (nonlinear_arith)
                requires
                    size > 0,
            ;
            assert(j < i ==> (j + 1) * size <= i * size) by (nonlinear_arith)
                requires
                    size > 0,
            ;
            assert((i + 1) * size == i * size + size && (j + 1) * size == j * size + size)
                by (nonlinear_arith);
        } else {
            let a = self.slab_slice(s as int);
            let b = self.slab_slice(t as int);
            assert(self.spec_slabs()[s as int].wf());
            assert(self.spec_slabs()[t as int].wf());
            self.spec_slabs()[s as int].lemma_wf();
            self.spec_slabs()[t as int].lemma_wf();
            assert(crate::lookup::path_disjoint(a, b));
            crate::lookup::lemma_path_disjoint_apart(a, b);
        }
    }

    /// A large extent of a coherent arena overlaps no slab and no other
    /// large extent of the arena.
    pub proof fn lemma_large_apart(&self, map: Map<Seq<usize>, ArenaId>, e: MemSlice, s: usize, f: MemSlice)
        requires
            self.wf(),
            self.coherent(map),
            self.spec_larges().contains(e),
        ensures
            s < self.spec_slabs().len() ==> e.disjoint(self.slab_slice(s as int)),
            self.spec_larges().contains(f) && f != e ==> e.disjoint(f),
    {
        assert(self.large_coherent(map, e));
        if s < self.spec_slabs().len() {
            assert(self.spec_slabs()[s as int].wf());
            self.spec_slabs()[s as int].lemma_wf();
            assert(crate::lookup::path_disjoint(e, self.slab_slice(s as int)));
            crate::lookup::lemma_path_disjoint_apart(e, self.slab_slice(s as int));
        }
        if self.spec_larges().contains(f) && f != e {
            assert(self.large_coherent(map, f));
            assert(crate::lookup::path_disjoint(e, f));
            crate::lookup::lemma_path_disjoint_apart(e, f);
        }
    }

    /// Slab `s` is filed in the extent tree.
    pub open spec fn slab_filed(&self, s: usize) -> bool {
        crate::lookup::filed_as(
            self.spec_owners(),
            self.slab_slice(s as int),
            OwnerInfo::Slab { slab: s, size_class: self.spec_slabs()[s as int].spec_class().1 },
        )
    }

    /// Every slab of a coherent arena is filed in the extent tree, from
    /// its creation on, whether it holds live regions or none.
    pub proof fn lemma_slab_filed(&self, map: Map<Seq<usize>, ArenaId>, s: usize)
        requires
            self.coherent(map),
            s < self.spec_slabs().len(),
        ensures
            self.slab_filed(s),
    {
        assert(self.slab_coherent(map, s));
    }

    /// A pointer into a region of a coherent arena resolves: the arena
    /// map names the arena, and the extent tree names the slab, whose
    /// range holds the pointer.
    pub proof fn lemma_region_resolves(&self, map: Map<Seq<usize>, ArenaId>, s: usize, i: int, p: usize)
        requires
            self.wf(),
            self.coherent(map),
            self.is_region(s, i),
            self.region(s, i).contains(p as int),
        ensures
            map.contains_key(crate::lookup::page_path(p)),
            map[crate::lookup::page_path(p)] == self.spec_index(),
            self.spec_owners().contains_key(crate::lookup::page_path(p)),
            self.spec_owners()[crate::lookup::page_path(p)] == (OwnerInfo::Slab {
                slab: s,
                size_class: self.spec_slabs()[s as int].spec_class().1,
            }),
            self.slab_slice(s as int).contains(p as int),
    {
        self.lemma_region_placed(s, i);
        assert(self.slab_coherent(map, s));
    }

    /// Taking back a pointer into a region takes that region, and no
    /// other, out of the live regions, and leaves the arena map as it is.
    pub proof fn lemma_region_freed(
        before: Arena,
        after: Arena,
        map_before: Map<Seq<usize>, ArenaId>,
        map_after: Map<Seq<usize>, ArenaId>,
        s: usize,
        i: int,
        ptr: usize,
        r: ArenaResult<()>,
    )
        requires
            before.wf(),
            before.coherent(map_before),
            before.is_region(s, i),
            before.region(s, i).contains(ptr as int),
            after.took_back(before, map_before, map_after, ptr, r),
        ensures
            !(r matches Err(ArenaError::BinError(BinError::SlabError(_)))),
            after.live() == before.live().remove((s as int, i)),
            map_after == map_before,
    {
        before.lemma_region_resolves(map_before, s, i, ptr);
        before.lemma_region_placed(s, i);
        let slab = before.spec_slabs()[s as int];
        slab.lemma_wf();
        let size = slab.spec_class().0 as int;
        let base = slab.spec_extent().slice.base as int;
        let off = ptr - base;
        let rem = off - i * size;
        assert(i * size == size * i) by (nonlinear_arith);
        vstd::arithmetic::div_mod::lemma_fundamental_div_mod_converse(off, size, i, rem);
        assert(slab.slot_of(ptr) == i);
        assert(slab.holds_region_of(ptr));
    }

    /// Taking back a pointer into a large extent that a coherent arena
    /// has filed succeeds, and afterwards the pointer resolves in
    /// neither map.
    pub proof fn lemma_large_freed(
        before: Arena,
        after: Arena,
        map_before: Map<Seq<usize>, ArenaId>,
        map_after: Map<Seq<usize>, ArenaId>,
        ptr: usize,
        r: ArenaResult<()>,
    )
        requires
            before.coherent(map_before),
            before.spec_owners().contains_key(crate::lookup::page_path(ptr)),
            before.spec_owners()[crate::lookup::page_path(ptr)] is Extent,
            after.took_back(before, map_before, map_after, ptr, r),
        ensures
            r is Ok,
            !map_after.contains_key(crate::lookup::page_path(ptr)),
            !after.spec_owners().contains_key(crate::lookup::page_path(ptr)),
    {
        let q = crate::lookup::page_path(ptr);
        let ob = before.spec_owners();
        let extent = ob[q]->extent;
        let e = extent.slice;
        assert(before.spec_larges().contains(e) && holds_page(e, q));
        assert(before.large_coherent(map_before, e));
        crate::lookup::lemma_unregistered_unfiled::<ArenaId>(map_before, e);
        crate::lookup::lemma_unregistered_unfiled::<OwnerInfo>(ob, e);
        assert(e.contains(e.base as int));
        assert(map_before.contains_key(crate::lookup::page_path(e.base)));
        assert(ob.contains_key(crate::lookup::page_path(e.base)));
        let x = choose|x: usize| e.contains(x as int) && #[trigger] crate::lookup::page_path(x) == q;
        assert(!crate::lookup::unregistered(map_before, e).contains_key(crate::lookup::page_path(x)));
        assert(!crate::lookup::unregistered(ob, e).contains_key(crate::lookup::page_path(x)));
    }

    /// The slab table has as many slabs as a word can count.
    pub proof fn lemma_slab_count(&self)
        ensures
            self.spec_slab_count() == self.spec_slabs().len(),
    {
        vstd::std_specs::vec::axiom_spec_len(&self.slabs);
    }

    /// Region `i` of slab `s` is live, starts at `p`, and its slab is of class `sc`.
    pub open spec fn live_at(&self, s: usize, i: int, p: usize, sc: SizeClassIndex) -> bool {
        &&& self.is_region(s, i)
        &&& self.spec_slabs()[s as int]@[i]
        &&& p == self.spec_slabs()[s as int].region_addr(i)
        &&& self.spec_slabs()[s as int].spec_class().1 == sc
    }

    /// The address `p` is the start of a live region of a slab of class `sc`.
    pub open spec fn holds_live(&self, p: usize, sc: SizeClassIndex) -> bool {
        exists|s: usize, i: int| #[trigger] self.live_at(s, i, p, sc)
    }

    /// What a live region's start address is like: not null, a multiple
    /// of the quantum, and the start of as many bytes as its class holds.
    pub proof fn lemma_live_placed(&self, p: usize, sc: SizeClassIndex)
        requires
            self.wf(),
            self.holds_live(p, sc),
        ensures
            p != 0,
            p % crate::classes::QUANTUM == 0,
            sc.0 < NSCLASSES,
            p + crate::classes::class_size(sc.0 as int) <= usize::MAX,
    {
        let (s, i) = choose|s: usize, i: int| #[trigger] self.live_at(s, i, p, sc);
        self.lemma_region_placed(s, i);
        assert(self.spec_slabs()[s as int].wf());
        self.spec_slabs()[s as int].lemma_wf();
    }

    /// The region that was just served is live.
    pub proof fn lemma_served_live(
        before: Arena,
        after: Arena,
        map_before: Map<Seq<usize>, ArenaId>,
        map_after: Map<Seq<usize>, ArenaId>,
        sc: SizeClassIndex,
        r: ArenaResult<usize>,
    )
        requires
            after.served(before, map_before, map_after, sc, r),
            r is Ok,
        ensures
            after.holds_live(r->Ok_0, sc),
    {
        let p = r->Ok_0;
        let class = crate::classes::SizeClass(crate::classes::class_size(sc.0 as int) as usize, sc);
        let (s, i) = choose|s: int, i: int| #[trigger]
            crate::bin::grants(before.spec_slabs(), after.spec_slabs(), class, p, s, i);
        assert(crate::slab::live_regions(after.spec_slabs()).contains((s, i)));
        after.lemma_slab_count();
        assert(after.live_at(s as usize, i, p, sc));
    }

    /// Serving a region leaves the live regions live.
    pub proof fn lemma_served_keeps_live(
        before: Arena,
        after: Arena,
        map_before: Map<Seq<usize>, ArenaId>,
        map_after: Map<Seq<usize>, ArenaId>,
        sc: SizeClassIndex,
        r: ArenaResult<usize>,
        q: usize,
        c: SizeClassIndex,
    )
        requires
            after.served(before, map_before, map_after, sc, r),
            before.holds_live(q, c),
        ensures
            after.holds_live(q, c),
    {
        let (s, i) = choose|s: usize, i: int| #[trigger] before.live_at(s, i, q, c);
        assert(crate::slab::live_regions(before.spec_slabs()).contains((s as int, i)));
        if r is Ok {
            let class = crate::classes::SizeClass(
                crate::classes::class_size(sc.0 as int) as usize,
                sc,
            );
            let (t, j) = choose|t: int, j: int| #[trigger]
                crate::bin::grants(before.spec_slabs(), after.spec_slabs(), class, r->Ok_0, t, j);
            assert(crate::slab::live_regions(after.spec_slabs()).contains((s as int, i)));
        } else {
            assert(crate::slab::live_regions(after.spec_slabs()).contains((s as int, i)));
        }
        assert(after.slab_slice(s as int) == before.slab_slice(s as int));
        assert(after.live_at(s, i, q, c));
    }

    /// A region that is served was free: no live region of the arena
    /// started at its address.
    pub proof fn lemma_served_fresh(
        before: Arena,
        after: Arena,
        map_before: Map<Seq<usize>, ArenaId>,
        map_after: Map<Seq<usize>, ArenaId>,
        sc: SizeClassIndex,
        r: ArenaResult<usize>,
        c: SizeClassIndex,
    )
        requires
            after.wf(),
            after.coherent(map_after),
            after.served(before, map_before, map_after, sc, r),
            r is Ok,
        ensures
            !before.holds_live(r->Ok_0, c),
    {
        let p = r->Ok_0;
        if before.holds_live(p, c) {
            let (t, j) = choose|t: usize, j: int| #[trigger] before.live_at(t, j, p, c);
            let class = crate::classes::SizeClass(
                crate::classes::class_size(sc.0 as int) as usize,
                sc,
            );
            let (s, i) = choose|s: int, i: int| #[trigger]
                crate::bin::grants(before.spec_slabs(), after.spec_slabs(), class, p, s, i);
            assert(before.live().contains((t as int, j)));
            assert(after.live().contains((t as int, j)));
            assert(after.slab_slice(t as int) == before.slab_slice(t as int));
            after.lemma_slab_count();
            let su = s as usize;
            assert(after.is_region(t, j));
            assert(after.is_region(su, i));
            after.lemma_regions_apart(map_after, t, j, su, i);
            after.lemma_region_placed(t, j);
            after.lemma_region_placed(su, i);
            assert(false);
        }
    }

    /// Serving a region leaves every page that the arena map held with
    /// its arena.
    pub proof fn lemma_served_keeps_pages(
        before: Arena,
        after: Arena,
        map_before: Map<Seq<usize>, ArenaId>,
        map_after: Map<Seq<usize>, ArenaId>,
        sc: SizeClassIndex,
        r: ArenaResult<usize>,
        k: Seq<usize>,
    )
        requires
            after.served(before, map_before, map_after, sc, r),
            map_before.contains_key(k),
        ensures
            map_after.contains_key(k),
            map_after[k] == map_before[k],
    {
        if after.spec_slabs().len() != before.spec_slabs().len() {
            let slab = after.spec_slabs()[before.spec_slab_count() as int];
            crate::lookup::lemma_registered_extends::<ArenaId>(
                map_before,
                slab.spec_extent().slice,
                after.spec_index(),
                k,
            );
        }
    }

    /// Serving a large extent leaves every page that the arena map held
    /// with its arena.
    pub proof fn lemma_served_large_keeps_pages(
        before: Arena,
        after: Arena,
        map_before: Map<Seq<usize>, ArenaId>,
        map_after: Map<Seq<usize>, ArenaId>,
        layout: Layout,
        r: ArenaResult<usize>,
        k: Seq<usize>,
    )
        requires
            after.served_large(before, map_before, map_after, layout, r),
            map_before.contains_key(k),
        ensures
            map_after.contains_key(k),
            map_after[k] == map_before[k],
    {
        if r is Ok {
            let size = crate::math::round_up(
                layout.spec_size() as int,
                crate::prim::COMMON_PAGE_SIZE as int,
            ) as usize;
            let slice = MemSlice { base: r->Ok_0, len: size };
            if size > 0 {
                crate::lookup::lemma_registered_extends::<ArenaId>(
                    map_before,
                    slice,
                    after.spec_index(),
                    k,
                );
            }
        }
    }

    /// Serving a region leaves every entry of the extent tree as it
    /// was, and the slab that an entry names with its class.
    pub proof fn lemma_served_keeps_entries(
        before: Arena,
        after: Arena,
        map_before: Map<Seq<usize>, ArenaId>,
        map_after: Map<Seq<usize>, ArenaId>,
        sc: SizeClassIndex,
        r: ArenaResult<usize>,
        k: Seq<usize>,
    )
        requires
            before.wf(),
            after.served(before, map_before, map_after, sc, r),
            before.spec_owners().contains_key(k),
        ensures
            after.spec_owners().contains_key(k),
            after.spec_owners()[k] == before.spec_owners()[k],
            before.spec_owners()[k] matches OwnerInfo::Slab { slab, size_class } ==> slab
                < before.spec_slabs().len() && after.spec_slabs()[slab as int].spec_class()
                == before.spec_slabs()[slab as int].spec_class(),
    {
        assert(owner_ok(before.spec_owners()[k], before.spec_slabs()));
        if after.spec_slabs().len() != before.spec_slabs().len() {
            let id = before.spec_slab_count();
            let slab = after.spec_slabs()[id as int];
            crate::lookup::lemma_registered_extends::<OwnerInfo>(
                before.spec_owners(),
                slab.spec_extent().slice,
                OwnerInfo::Slab { slab: id, size_class: sc },
                k,
            );
        }
        if before.spec_owners()[k] is Slab {
            let slab = before.spec_owners()[k]->slab;
            assert(after.slab_slice(slab as int) == before.slab_slice(slab as int));
        }
    }

    /// Serving a large extent leaves every entry of the extent tree as
    /// it was.
    pub proof fn lemma_served_large_keeps_entries(
        before: Arena,
        after: Arena,
        map_before: Map<Seq<usize>, ArenaId>,
        map_after: Map<Seq<usize>, ArenaId>,
        layout: Layout,
        r: ArenaResult<usize>,
        k: Seq<usize>,
    )
        requires
            after.served_large(before, map_before, map_after, layout, r),
            before.spec_owners().contains_key(k),
        ensures
            after.spec_owners().contains_key(k),
            after.spec_owners()[k] == before.spec_owners()[k],
    {
        if r is Ok {
            let size = crate::math::round_up(
                layout.spec_size() as int,
                crate::prim::COMMON_PAGE_SIZE as int,
            ) as usize;
            let slice = MemSlice { base: r->Ok_0, len: size };
            if size > 0 {
                crate::lookup::lemma_registered_extends::<OwnerInfo>(
                    before.spec_owners(),
                    slice,
                    OwnerInfo::Extent {
                        extent: Extent { slice, link: crate::list::Link::unlinked(), activated: true },
                    },
                    k,
                );
            }
        }
    }

    /// The start of a live region of a coherent arena resolves to the
    /// slab of the region, if it resolves at all.
    pub proof fn lemma_live_resolves(&self, map: Map<Seq<usize>, ArenaId>, s: usize, i: int,
        p: usize, c: SizeClassIndex)
        requires
            self.wf(),
            self.coherent(map),
            self.live_at(s, i, p, c),
            self.spec_owners().contains_key(crate::lookup::page_path(p)),
        ensures
            self.spec_owners()[crate::lookup::page_path(p)] is Slab,
            self.spec_owners()[crate::lookup::page_path(p)]->slab == s,
            self.spec_slabs()[s as int].slot_of(p) == i,
            self.spec_slabs()[s as int].holds_region_of(p),
    {
        let q = crate::lookup::page_path(p);
        self.lemma_region_placed(s, i);
        let slab = self.spec_slabs()[s as int];
        slab.lemma_wf();
        assert(self.slab_slice(s as int).contains(p as int));
        assert(self.slab_entry_placed(q));
        match self.spec_owners()[q] {
            OwnerInfo::Slab { slab: t, size_class } => {
                if t != s {
                    let x = choose|x: usize|
                        self.slab_slice(t as int).contains(x as int) && #[trigger]
                        crate::lookup::page_path(x) == q;
                    assert(crate::lookup::path_disjoint(
                        self.slab_slice(t as int),
                        self.slab_slice(s as int),
                    ));
                    assert(crate::lookup::same_page(x, p));
                }
            },
            OwnerInfo::Extent { extent } => {
                let e = extent.slice;
                assert(self.spec_larges().contains(e) && holds_page(e, q));
                let x = choose|x: usize|
                    e.contains(x as int) && #[trigger] crate::lookup::page_path(x) == q;
                assert(self.large_coherent(map, e));
                assert(crate::lookup::path_disjoint(e, self.slab_slice(s as int)));
                assert(crate::lookup::same_page(x, p));
            },
        }
        let size = slab.spec_class().0 as int;
        let base = slab.spec_extent().slice.base as int;
        assert(i * size == size * i) by (nonlinear_arith);
        vstd::arithmetic::div_mod::lemma_fundamental_div_mod_converse(p - base, size, i, 0);
    }

    /// Taking back the start of a live region of a coherent arena
    /// leaves every other live region live, and the region itself is
    /// live no longer, whatever the host made of the slab's pages.
    pub proof fn lemma_took_back_keeps(
        before: Arena,
        after: Arena,
        map_before: Map<Seq<usize>, ArenaId>,
        map_after: Map<Seq<usize>, ArenaId>,
        ptr: usize,
        r: ArenaResult<()>,
        c0: SizeClassIndex,
        p: usize,
        c: SizeClassIndex,
    )
        requires
            before.wf(),
            before.coherent(map_before),
            after.took_back(before, map_before, map_after, ptr, r),
            before.holds_live(ptr, c0),
        ensures
            before.holds_live(p, c) && p != ptr ==> after.holds_live(p, c),
            !after.holds_live(ptr, c),
            !(r matches Err(ArenaError::LookupError(_))),
            !(r matches Err(ArenaError::BinError(BinError::SlabError(_)))),
    {
        let (t, j) = choose|t: usize, j: int| #[trigger] before.live_at(t, j, ptr, c0);
        let q = crate::lookup::page_path(ptr);
        before.lemma_region_placed(t, j);
        before.lemma_region_resolves(map_before, t, j, ptr);
        before.lemma_live_resolves(map_before, t, j, ptr, c0);
        if before.holds_live(p, c) && p != ptr {
            let (s, i) = choose|s: usize, i: int| #[trigger] before.live_at(s, i, p, c);
            assert(before.live().contains((s as int, i)));
            assert(s != t || i != j);
            assert(after.live().contains((s as int, i)));
            assert(after.slab_slice(s as int) == before.slab_slice(s as int));
            assert(after.live_at(s, i, p, c));
        }
        if after.holds_live(ptr, c) {
            let (s, i) = choose|s: usize, i: int| #[trigger] after.live_at(s, i, ptr, c);
            assert(after.live().contains((s as int, i)));
            assert(before.live().contains((s as int, i)));
            assert(after.slab_slice(s as int) == before.slab_slice(s as int));
            assert(before.live_at(s, i, ptr, c));
            before.lemma_region_placed(s, i);
            before.lemma_region_placed(t, j);
            if s != t || i != j {
                before.lemma_regions_apart(map_before, s, i, t, j);
            }
        }
    }

    /// A large extent is served at the start of a page.
    pub proof fn lemma_large_placed(
        before: Arena,
        after: Arena,
        map_before: Map<Seq<usize>, ArenaId>,
        map_after: Map<Seq<usize>, ArenaId>,
        layout: Layout,
        p: usize,
    )
        requires
            after.serves_large(before, map_before, map_after, layout, p),
        ensures
            p % crate::prim::COMMON_PAGE_SIZE == 0,
    {
    }

    /// Taking a pointer back makes no region live: what is live
    /// afterwards was live before.
    pub proof fn lemma_took_back_shrinks(
        before: Arena,
        after: Arena,
        map_before: Map<Seq<usize>, ArenaId>,
        map_after: Map<Seq<usize>, ArenaId>,
        ptr: usize,
        r: ArenaResult<()>,
        q: usize,
        c: SizeClassIndex,
    )
        requires
            after.took_back(before, map_before, map_after, ptr, r),
            after.holds_live(q, c),
        ensures
            before.holds_live(q, c),
    {
        let (s, i) = choose|s: usize, i: int| #[trigger] after.live_at(s, i, q, c);
        assert(after.live().contains((s as int, i)));
        assert(before.live().contains((s as int, i)));
        assert(after.slab_slice(s as int) == before.slab_slice(s as int));
        assert(before.live_at(s, i, q, c));
    }

    /// A pointer into a large extent of a coherent arena resolves: the
    /// arena map names the arena, and the extent tree names the extent.
    pub proof fn lemma_large_resolves(&self, map: Map<Seq<usize>, ArenaId>, e: MemSlice, p: usize)
        requires
            self.coherent(map),
            self.spec_larges().contains(e),
            e.contains(p as int),
        ensures
            map.contains_key(crate::lookup::page_path(p)),
            map[crate::lookup::page_path(p)] == self.spec_index(),
            self.spec_owners().contains_key(crate::lookup::page_path(p)),
            self.spec_owners()[crate::lookup::page_path(p)] == (OwnerInfo::Extent {
                extent: large_extent(e),
            }),
    {
        assert(self.large_coherent(map, e));
    }

    /// A new slab is filed in the extent tree.
    pub proof fn lemma_new_slab_filed(
        &self,
        before: Arena,
        map_before: Map<Seq<usize>, ArenaId>,
        map_after: Map<Seq<usize>, ArenaId>,
        sc: SizeClassIndex,
    )
        requires
            self.grew_by_slab(before, map_before, map_after, sc),
        ensures
            self.slab_filed(before.spec_slab_count()),
    {
        let n = before.spec_slab_count();
        crate::lookup::lemma_registered_filed::<OwnerInfo>(
            before.spec_owners(),
            self.slab_slice(n as int),
            OwnerInfo::Slab { slab: n, size_class: sc },
        );
    }

    /// A coherent arena stays coherent when pages that did not resolve
    /// are filed in the arena map.
    pub proof fn lemma_coherent_registered(&self, map: Map<Seq<usize>, ArenaId>, b: MemSlice, v: ArenaId)
        requires
            self.coherent(map),
            crate::lookup::range_ok(b),
            crate::lookup::unfiled(map, b),
        ensures
            self.coherent(crate::lookup::registered(map, b, v)),
    {
        let after = crate::lookup::registered(map, b, v);
        let idx = self.spec_index();
        assert forall|s: usize| s < self.spec_slabs().len() implies #[trigger] self.slab_coherent(
            after,
            s,
        ) by {
            assert(self.slab_coherent(map, s));
            let a = self.slab_slice(s as int);
            crate::lookup::lemma_filed_unfiled_apart::<ArenaId>(map, a, b, idx);
            crate::lookup::lemma_registered_keeps::<ArenaId>(map, b, v, a);
        }
        assert forall|e: MemSlice| self.spec_larges().contains(e) implies #[trigger] self.large_coherent(
            after,
            e,
        ) by {
            assert(self.large_coherent(map, e));
            crate::lookup::lemma_filed_unfiled_apart::<ArenaId>(map, e, b, idx);
            crate::lookup::lemma_registered_keeps::<ArenaId>(map, b, v, e);
        }
    }

    /// A coherent arena stays coherent when the pages of a range that is
    /// filed under another arena are taken out of the arena map.
    pub proof fn lemma_coherent_unregistered(
        &self,
        map: Map<Seq<usize>, ArenaId>,
        b: MemSlice,
        other: ArenaId,
    )
        requires
            self.coherent(map),
            crate::lookup::range_ok(b),
            crate::lookup::filed_as(map, b, other),
            other != self.spec_index(),
        ensures
            self.coherent(crate::lookup::unregistered(map, b)),
    {
        let after = crate::lookup::unregistered(map, b);
        let idx = self.spec_index();
        assert forall|s: usize| s < self.spec_slabs().len() implies #[trigger] self.slab_coherent(
            after,
            s,
        ) by {
            assert(self.slab_coherent(map, s));
            let a = self.slab_slice(s as int);
            crate::lookup::lemma_filed_differently_apart::<ArenaId>(map, a, idx, b, other);
            crate::lookup::lemma_unregistered_keeps::<ArenaId>(map, b, a);
        }
        assert forall|e: MemSlice| self.spec_larges().contains(e) implies #[trigger] self.large_coherent(
            after,
            e,
        ) by {
            assert(self.large_coherent(map, e));
            crate::lookup::lemma_filed_differently_apart::<ArenaId>(map, e, idx, b, other);
            crate::lookup::lemma_unregistered_keeps::<ArenaId>(map, b, e);
        }
    }

    /// A large extent of a coherent arena overlaps no slab and no large
    /// extent of a coherent arena with another index.
    pub proof fn lemma_arenas_large_apart(
        &self,
        other: Arena,
        map: Map<Seq<usize>, ArenaId>,
        e: MemSlice,
        t: usize,
        f: MemSlice,
    )
        requires
            self.wf(),
            other.wf(),
            self.coherent(map),
            other.coherent(map),
            self.spec_index() != other.spec_index(),
            self.spec_larges().contains(e),
        ensures
            t < other.spec_slabs().len() ==> e.disjoint(other.slab_slice(t as int)),
            other.spec_larges().contains(f) ==> e.disjoint(f),
    {
        assert(self.large_coherent(map, e));
        if t < other.spec_slabs().len() {
            let b = other.slab_slice(t as int);
            assert(other.slab_coherent(map, t));
            assert(other.spec_slabs()[t as int].wf());
            other.spec_slabs()[t as int].lemma_wf();
            crate::lookup::lemma_filed_differently_apart::<ArenaId>(
                map,
                e,
                self.spec_index(),
                b,
                other.spec_index(),
            );
            crate::lookup::lemma_path_disjoint_apart(e, b);
        }
        if other.spec_larges().contains(f) {
            assert(other.large_coherent(map, f));
            crate::lookup::lemma_filed_differently_apart::<ArenaId>(
                map,
                e,
                self.spec_index(),
                f,
                other.spec_index(),
            );
            crate::lookup::lemma_path_disjoint_apart(e, f);
        }
    }

    /// The slabs of two coherent arenas with different indices do not
    /// overlap.
    pub proof fn lemma_arenas_apart(&self, other: Arena, map: Map<Seq<usize>, ArenaId>, s: usize, t: usize)
        requires
            self.wf(),
            other.wf(),
            self.coherent(map),
            other.coherent(map),
            self.spec_index() != other.spec_index(),
            s < self.spec_slabs().len(),
            t < other.spec_slabs().len(),
        ensures
            self.slab_slice(s as int).disjoint(other.slab_slice(t as int)),
    {
        assert(self.slab_coherent(map, s));
        assert(other.slab_coherent(map, t));
        assert(self.spec_slabs()[s as int].wf());
        assert(other.spec_slabs()[t as int].wf());
        self.spec_slabs()[s as int].lemma_wf();
        other.spec_slabs()[t as int].lemma_wf();
        crate::lookup::lemma_filed_differently_apart::<ArenaId>(
            map,
            self.slab_slice(s as int),
            self.spec_index(),
            other.slab_slice(t as int),
            other.spec_index(),
        );
        crate::lookup::lemma_path_disjoint_apart(
            self.slab_slice(s as int),
            other.slab_slice(t as int),
        );
    }

    /// What an operation of the arena `before` did to the arena map:
    /// nothing, or it filed pages that did not resolve, or it took out the
    /// pages of a range that was filed under the arena.
    pub open spec fn map_step(
        before: Arena,
        map_before: Map<Seq<usize>, ArenaId>,
        map_after: Map<Seq<usize>, ArenaId>,
    ) -> bool {
        ||| map_after == map_before
        ||| exists|b: MemSlice| #[trigger]
            crate::lookup::range_ok(b) && crate::lookup::unfiled(map_before, b) && map_after
                == crate::lookup::registered(map_before, b, before.spec_index())
        ||| exists|b: MemSlice| #[trigger]
            crate::lookup::range_ok(b) && crate::lookup::filed_as(
                map_before,
                b,
                before.spec_index(),
            ) && map_after == crate::lookup::unregistered(map_before, b)
    }

    /// A step of one arena on the arena map keeps every arena with
    /// another index coherent.
    pub proof fn lemma_map_step_keeps(
        &self,
        stepping: Arena,
        map_before: Map<Seq<usize>, ArenaId>,
        map_after: Map<Seq<usize>, ArenaId>,
    )
        requires
            self.coherent(map_before),
            Self::map_step(stepping, map_before, map_after),
            stepping.spec_index() != self.spec_index(),
        ensures
            self.coherent(map_after),
    {
        if map_after == map_before {
        } else if exists|b: MemSlice| #[trigger]
            crate::lookup::range_ok(b) && crate::lookup::unfiled(map_before, b) && map_after
                == crate::lookup::registered(map_before, b, stepping.spec_index()) {
            let b = choose|b: MemSlice| #[trigger]
                crate::lookup::range_ok(b) && crate::lookup::unfiled(map_before, b) && map_after
                    == crate::lookup::registered(map_before, b, stepping.spec_index());
            self.lemma_coherent_registered(map_before, b, stepping.spec_index());
        } else {
            let b = choose|b: MemSlice| #[trigger]
                crate::lookup::range_ok(b) && crate::lookup::filed_as(
                    map_before,
                    b,
                    stepping.spec_index(),
                ) && map_after == crate::lookup::unregistered(map_before, b);
            self.lemma_coherent_unregistered(map_before, b, stepping.spec_index());
        }
    }

    /// Serving a region is a step on the arena map.
    pub proof fn lemma_served_step(
        before: Arena,
        after: Arena,
        map_before: Map<Seq<usize>, ArenaId>,
        map_after: Map<Seq<usize>, ArenaId>,
        sc: SizeClassIndex,
        r: ArenaResult<usize>,
    )
        requires
            after.served(before, map_before, map_after, sc, r),
        ensures
            Self::map_step(before, map_before, map_after),
    {
        if after.spec_slabs().len() != before.spec_slabs().len() {
            let b = after.slab_slice(before.spec_slab_count() as int);
            assert(crate::lookup::range_ok(b) && crate::lookup::unfiled(map_before, b) && map_after
                == crate::lookup::registered(map_before, b, before.spec_index()));
        }
    }

    /// Serving a large extent is a step on the arena map.
    pub proof fn lemma_served_large_step(
        before: Arena,
        after: Arena,
        map_before: Map<Seq<usize>, ArenaId>,
        map_after: Map<Seq<usize>, ArenaId>,
        layout: Layout,
        r: ArenaResult<usize>,
    )
        requires
            after.served_large(before, map_before, map_after, layout, r),
        ensures
            Self::map_step(before, map_before, map_after),
    {
        let size = crate::math::round_up(
            layout.spec_size() as int,
            crate::prim::COMMON_PAGE_SIZE as int,
        ) as usize;
        if r is Ok && size > 0 {
            let b = MemSlice { base: r->Ok_0, len: size };
            assert(crate::lookup::range_ok(b) && crate::lookup::unfiled(map_before, b) && map_after
                == crate::lookup::registered(map_before, b, before.spec_index()));
        }
    }

    /// Taking back what a pointer points to is a step of a coherent
    /// arena on the arena map.
    pub proof fn lemma_took_back_step(
        before: Arena,
        after: Arena,
        map_before: Map<Seq<usize>, ArenaId>,
        map_after: Map<Seq<usize>, ArenaId>,
        ptr: usize,
        r: ArenaResult<()>,
    )
        requires
            before.coherent(map_before),
            after.took_back(before, map_before, map_after, ptr, r),
        ensures
            Self::map_step(before, map_before, map_after),
    {
        let ob = before.spec_owners();
        let q0 = crate::lookup::page_path(ptr);
        if ob.contains_key(q0) {
            if let OwnerInfo::Extent { extent } = ob[q0] {
                if r is Ok {
                    let b = extent.slice;
                    assert(before.spec_larges().contains(b));
                    assert(before.large_coherent(map_before, b));
                    assert(crate::lookup::range_ok(b) && crate::lookup::filed_as(
                        map_before,
                        b,
                        before.spec_index(),
                    ) && map_after == crate::lookup::unregistered(map_before, b));
                }
            }
        }
    }

    /// Whether the page of `ptr` is filed in the arena's extent tree.
    pub fn owns(&self, ptr: usize) -> (r: bool)
        requires
            self.wf(),
        ensures
            r == self.spec_owners().contains_key(crate::lookup::page_path(ptr)),
    {
        self.etree.lookup(ptr).is_some()
    }

    /// One of the first `upto` slabs has an address on the page that
    /// is filed under `q`.
    pub open spec fn slab_page(&self, upto: int, q: Seq<usize>) -> bool {
        exists|k: usize|
            k < upto && k < self.spec_slabs().len() && holds_page(#[trigger] self.slab_slice(k as int), q)
    }

    /// One of the first `upto` large extents of the list has an address
    /// on the page that is filed under `q`.
    spec fn large_page(&self, upto: int, q: Seq<usize>) -> bool {
        exists|k: int|
            0 <= k < upto && k < self.larges@.len() && holds_page((#[trigger] self.larges@[k]).slice, q)
    }

    /// A slab or a large extent of the arena has an address on the page
    /// that is filed under `q`.
    pub open spec fn own_page(&self, q: Seq<usize>) -> bool {
        self.slab_page(self.spec_slabs().len() as int, q) || exists|e: MemSlice|
            #[trigger] self.spec_larges().contains(e) && holds_page(e, q)
    }

    /// What `release` has done to the arena map once the first slabs
    /// and the first large extents are through.
    spec fn released_upto(
        &self,
        slabs_upto: int,
        larges_upto: int,
        map_before: Map<Seq<usize>, ArenaId>,
        map_after: Map<Seq<usize>, ArenaId>,
    ) -> bool {
        &&& forall|k: usize|
            k < slabs_upto && k < self.spec_slabs().len() ==> crate::lookup::unfiled(
                map_after,
                #[trigger] self.slab_slice(k as int),
            )
        &&& forall|k: int|
            0 <= k < larges_upto && k < self.larges@.len() && crate::lookup::range_ok(
                (#[trigger] self.larges@[k]).slice,
            ) ==> crate::lookup::unfiled(map_after, self.larges@[k].slice)
        &&& forall|q: Seq<usize>| #[trigger]
            map_after.contains_key(q) ==> map_before.contains_key(q) && map_after[q] == map_before[q]
        &&& forall|q: Seq<usize>|
            map_before.contains_key(q) && !map_after.contains_key(q) ==> #[trigger] self.slab_page(
                slabs_upto,
                q,
            ) || self.large_page(larges_upto, q)
    }

    /// What `release` does to the arena map: the pages of the arena's
    /// slabs and of its large extents are taken out, and nothing else
    /// is filed, changed or taken out.
    pub open spec fn released(
        &self,
        map_before: Map<Seq<usize>, ArenaId>,
        map_after: Map<Seq<usize>, ArenaId>,
    ) -> bool {
        &&& forall|k: usize|
            k < self.spec_slabs().len() ==> crate::lookup::unfiled(
                map_after,
                #[trigger] self.slab_slice(k as int),
            )
        &&& forall|e: MemSlice|
            #[trigger] self.spec_larges().contains(e) && crate::lookup::range_ok(e)
                ==> crate::lookup::unfiled(map_after, e)
        &&& forall|q: Seq<usize>| #[trigger]
            map_after.contains_key(q) ==> map_before.contains_key(q) && map_after[q] == map_before[q]
        &&& forall|q: Seq<usize>|
            map_before.contains_key(q) && !map_after.contains_key(q) ==> #[trigger] self.own_page(q)
    }

    /// Taking the pages of a range out of the map is one more step of
    /// the release: what was taken out before stays out, nothing is
    /// filed or changed, and what left lay on a page of the range.
    proof fn lemma_release_step(
        start: Map<Seq<usize>, ArenaId>,
        before: Map<Seq<usize>, ArenaId>,
        after: Map<Seq<usize>, ArenaId>,
        c: MemSlice,
    )
        requires
            after == before || after == crate::lookup::unregistered(before, c),
            after != before ==> crate::lookup::range_ok(c),
            forall|q: Seq<usize>| #[trigger]
                before.contains_key(q) ==> start.contains_key(q) && before[q] == start[q],
        ensures
            forall|q: Seq<usize>| #[trigger]
                after.contains_key(q) ==> start.contains_key(q) && after[q] == start[q]
                    && before.contains_key(q) && after[q] == before[q],
            forall|a: MemSlice| crate::lookup::unfiled(before, a) ==> #[trigger] crate::lookup::unfiled(
                after,
                a,
            ),
            forall|q: Seq<usize>|
                #![trigger after.contains_key(q)]
                #![trigger before.contains_key(q)]
                before.contains_key(q) && !after.contains_key(q) ==> holds_page(c, q),
            after == crate::lookup::unregistered(before, c) && crate::lookup::range_ok(c)
                ==> crate::lookup::unfiled(after, c),
    {
        if after == crate::lookup::unregistered(before, c) {
            assert forall|q: Seq<usize>| #[trigger] after.contains_key(q) implies before.contains_key(
                q,
            ) && after[q] == before[q] by {
                crate::lookup::lemma_unregistered_entry::<ArenaId>(before, c, q);
            }
            if crate::lookup::range_ok(c) {
                crate::lookup::lemma_unregistered_unfiled::<ArenaId>(before, c);
                assert forall|q: Seq<usize>|
                    #![trigger after.contains_key(q)]
                    #![trigger before.contains_key(q)]
                    before.contains_key(q) && !after.contains_key(q) implies holds_page(c, q) by {
                    crate::lookup::lemma_unregistered_gone::<ArenaId>(before, c, q);
                }
            }
        }
        assert forall|a: MemSlice| crate::lookup::unfiled(before, a) implies #[trigger]
            crate::lookup::unfiled(after, a) by {
            assert forall|x: usize| a.contains(x as int) implies !after.contains_key(
                #[trigger] crate::lookup::page_path(x),
            ) by {
                assert(!before.contains_key(crate::lookup::page_path(x)));
            }
        }
    }

    /// Ends the arena: the pages of its slabs and of its large extents
    /// leave the arena map, and the extents and the arena's metadata go
    /// back to the host.
    pub fn release<S: System>(self, sys: &S, arena_map: &mut ArenaMap)
        requires
            self.wf(),
            old(arena_map).wf(),
        ensures
            final(arena_map).wf(),
            self.released(old(arena_map)@, final(arena_map)@),
            self.coherent(old(arena_map)@) ==> forall|b: Arena|
                b.spec_index() != self.spec_index() && b.coherent(old(arena_map)@)
                    ==> #[trigger] b.coherent(final(arena_map)@),
    {
        let n: usize = self.slabs.len();
        let m: usize = self.larges.len();
        let ghost coherent = self.coherent(arena_map@);
        let mut i: usize = 0;
        proof {
            if coherent {
                assert forall|k: usize| k < n implies crate::lookup::filed_as(
                    arena_map@,
                    #[trigger] self.slab_slice(k as int),
                    self.spec_index(),
                ) by {
                    assert(self.slab_coherent(arena_map@, k));
                }
                assert forall|k: int| 0 <= k < m implies self.large_left(arena_map@, k) by {
                    assert(self.spec_larges().contains(self.larges@[k].slice));
                    assert(self.large_coherent(arena_map@, self.larges@[k].slice));
                }
            }
            assert(self.released_upto(0, 0, arena_map@, arena_map@));
        }
        while i < n
            invariant
                i <= n,
                n == self.slabs@.len(),
                m == self.larges@.len(),
                self.wf(),
                arena_map.wf(),
                coherent == self.coherent(old(arena_map)@),
                self.released_upto(i as int, 0, old(arena_map)@, arena_map@),
                coherent ==> forall|k: usize|
                    i <= k < n ==> crate::lookup::filed_as(
                        arena_map@,
                        #[trigger] self.slab_slice(k as int),
                        self.spec_index(),
                    ),
                coherent ==> forall|k: int| 0 <= k < m ==> #[trigger] self.large_left(arena_map@, k),
                coherent ==> forall|b: Arena|
                    b.spec_index() != self.spec_index() && b.coherent(old(arena_map)@)
                        ==> #[trigger] b.coherent(arena_map@),
            decreases n - i,
        {
            let extent: Extent = *self.slabs[i].extent();
            let ghost before = arena_map@;
            proof {
                assert(self.slabs@[i as int].wf());
                self.slabs@[i as int].lemma_wf();
            }
            let _ = arena_map.detach(&extent);
            let _ = extent.release(sys);
            proof {
                let c = self.slab_slice(i as int);
                assert(arena_map@ == crate::lookup::unregistered(before, c));
                Self::lemma_release_step(old(arena_map)@, before, arena_map@, c);
                assert forall|k: usize| k < i + 1 implies crate::lookup::unfiled(
                    arena_map@,
                    #[trigger] self.slab_slice(k as int),
                ) by {
                    if k < i {
                        assert(crate::lookup::unfiled(before, self.slab_slice(k as int)));
                    }
                }
                assert forall|q: Seq<usize>|
                    old(arena_map)@.contains_key(q) && !arena_map@.contains_key(
                        q,
                    ) implies #[trigger] self.slab_page(i + 1, q) || self.large_page(0, q) by {
                    if before.contains_key(q) {
                        assert(holds_page(self.slab_slice(i as int), q));
                    } else {
                        assert(self.slab_page(i as int, q) || self.large_page(0, q));
                        let k = choose|k: usize|
                            k < i && k < self.spec_slabs().len() && holds_page(
                                #[trigger] self.slab_slice(k as int),
                                q,
                            );
                        assert(holds_page(self.slab_slice(k as int), q));
                    }
                }
                assert(self.released_upto(i + 1, 0, old(arena_map)@, arena_map@));
                if coherent {
                    assert(self.slab_coherent(old(arena_map)@, i));
                    assert forall|k: usize| i + 1 <= k < n implies crate::lookup::filed_as(
                        arena_map@,
                        #[trigger] self.slab_slice(k as int),
                        self.spec_index(),
                    ) by {
                        assert(crate::lookup::path_disjoint(
                            self.slab_slice(k as int),
                            self.slab_slice(i as int),
                        ));
                        crate::lookup::lemma_unregistered_keeps::<ArenaId>(
                            before,
                            c,
                            self.slab_slice(k as int),
                        );
                    }
                    assert forall|k: int| 0 <= k < m implies #[trigger] self.large_left(
                        arena_map@,
                        k,
                    ) by {
                        let e = self.larges@[k].slice;
                        assert(self.large_left(before, k));
                        assert(self.spec_larges().contains(e));
                        assert(self.large_coherent(old(arena_map)@, e));
                        assert(crate::lookup::path_disjoint(e, self.slab_slice(i as int)));
                        crate::lookup::lemma_unregistered_keeps::<ArenaId>(before, c, e);
                    }
                    assert forall|b: Arena|
                        b.spec_index() != self.spec_index() && b.coherent(
                            old(arena_map)@,
                        ) implies #[trigger] b.coherent(arena_map@) by {
                        assert(b.coherent(before));
                        b.lemma_coherent_unregistered(before, c, self.spec_index());
                    }
                }
            }
            i += 1;
        }
        let mut j: usize = 0;
        while j < m
            invariant
                j <= m,
                n == self.slabs@.len(),
                m == self.larges@.len(),
                self.wf(),
                arena_map.wf(),
                coherent == self.coherent(old(arena_map)@),
                self.released_upto(n as int, j as int, old(arena_map)@, arena_map@),
                coherent ==> forall|k: int| 0 <= k < m ==> #[trigger] self.large_left(arena_map@, k),
                coherent ==> forall|b: Arena|
                    b.spec_index() != self.spec_index() && b.coherent(old(arena_map)@)
                        ==> #[trigger] b.coherent(arena_map@),
            decreases m - j,
        {
            let extent: Extent = self.larges[j];
            let ghost before = arena_map@;
            let _ = arena_map.detach(&extent);
            let _ = extent.release(sys);
            proof {
                let c = extent.slice;
                Self::lemma_release_step(old(arena_map)@, before, arena_map@, c);
                assert forall|k: usize| k < n implies crate::lookup::unfiled(
                    arena_map@,
                    #[trigger] self.slab_slice(k as int),
                ) by {
                    assert(crate::lookup::unfiled(before, self.slab_slice(k as int)));
                }
                assert forall|k: int|
                    0 <= k < j + 1 && k < self.larges@.len() && crate::lookup::range_ok(
                        (#[trigger] self.larges@[k]).slice,
                    ) implies crate::lookup::unfiled(arena_map@, self.larges@[k].slice) by {
                    if k < j {
                        assert(crate::lookup::unfiled(before, self.larges@[k].slice));
                    }
                }
                assert forall|q: Seq<usize>|
                    old(arena_map)@.contains_key(q) && !arena_map@.contains_key(
                        q,
                    ) implies #[trigger] self.slab_page(n as int, q) || self.large_page(
                    j + 1,
                    q,
                ) by {
                    if before.contains_key(q) {
                        assert(holds_page(self.larges@[j as int].slice, q));
                    } else {
                        assert(self.slab_page(n as int, q) || self.large_page(j as int, q));
                        if self.large_page(j as int, q) {
                            let k = choose|k: int|
                                0 <= k < j && k < self.larges@.len() && holds_page(
                                    (#[trigger] self.larges@[k]).slice,
                                    q,
                                );
                            assert(holds_page(self.larges@[k].slice, q));
                        }
                    }
                }
                assert(self.released_upto(n as int, j + 1, old(arena_map)@, arena_map@));
                if coherent && arena_map@ != before {
                    assert(self.large_left(before, j as int));
                    assert(self.spec_larges().contains(c));
                    assert(self.large_coherent(old(arena_map)@, c));
                    if crate::lookup::unfiled(before, c) {
                        assert forall|q: Seq<usize>|
                            before.contains_key(q) == arena_map@.contains_key(q) by {
                            if before.contains_key(q) && !arena_map@.contains_key(q) {
                                assert(holds_page(c, q));
                                let x = choose|x: usize|
                                    c.contains(x as int) && #[trigger] crate::lookup::page_path(x)
                                        == q;
                                assert(!before.contains_key(crate::lookup::page_path(x)));
                            }
                        }
                        assert(arena_map@ =~= before);
                    }
                    assert(crate::lookup::filed_as(before, c, self.spec_index()));
                    assert forall|k: int| 0 <= k < m implies #[trigger] self.large_left(
                        arena_map@,
                        k,
                    ) by {
                        let e = self.larges@[k].slice;
                        assert(self.large_left(before, k));
                        assert(self.spec_larges().contains(e));
                        if e != c {
                            assert(crate::lookup::path_disjoint(e, c));
                            crate::lookup::lemma_unregistered_keeps::<ArenaId>(before, c, e);
                        }
                    }
                    assert forall|b: Arena|
                        b.spec_index() != self.spec_index() && b.coherent(
                            old(arena_map)@,
                        ) implies #[trigger] b.coherent(arena_map@) by {
                        assert(b.coherent(before));
                        b.lemma_coherent_unregistered(before, c, self.spec_index());
                    }
                }
            }
            j += 1;
        }
        proof {
            assert forall|e: MemSlice|
                #[trigger] self.spec_larges().contains(e) && crate::lookup::range_ok(
                    e,
                ) implies crate::lookup::unfiled(arena_map@, e) by {
                let k = choose|k: int| 0 <= k < self.larges@.len() && (#[trigger] self.larges@[k]).slice == e;
                assert(crate::lookup::range_ok(self.larges@[k].slice));
            }
            assert forall|q: Seq<usize>|
                old(arena_map)@.contains_key(q) && !arena_map@.contains_key(
                    q,
                ) implies #[trigger] self.own_page(q) by {
                assert(self.slab_page(n as int, q) || self.large_page(m as int, q));
                if self.large_page(m as int, q) {
                    let k = choose|k: int|
                        0 <= k < m && k < self.larges@.len() && holds_page(
                            (#[trigger] self.larges@[k]).slice,
                            q,
                        );
                    assert(self.spec_larges().contains(self.larges@[k].slice));
                }
            }
        }
        let Arena { index: _, bins: _, bump, etree, slabs: _, larges: _ } = self;
        etree.release(sys);
        let _ = bump.release(sys);
    }

    /// Large extent `k` of the list is filed in `map` under the arena
    /// with every page, or with none.
    spec fn large_left(&self, map: Map<Seq<usize>, ArenaId>, k: int) -> bool {
        crate::lookup::filed_as(map, self.larges@[k].slice, self.spec_index())
            || crate::lookup::unfiled(map, self.larges@[k].slice)
    }
}

} // verus!
