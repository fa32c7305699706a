use vstd::prelude::*;
use crate::bitmap::{Bitmap, BitmapError};
use crate::bump::{Bump, BumpError};
use crate::classes::SizeClass;
use crate::extent::{Extent, ExtentError};
use crate::layout::{Layout, LayoutError};
use crate::list::{HasLink, Link};
use crate::lookup::{ArenaId, ArenaMap, ExtentTree, LookupError, OwnerInfo};
use crate::system::{SysOption, System};

verus! {

#[derive(Clone, Copy, Debug, PartialEq, Eq, Structural)]
pub enum SlabError {
    BumpError(BumpError),
    ExtentError(ExtentError),
    LayoutError(LayoutError),
    BitmapError(BitmapError),
    LookupError(LookupError),
    OutOfMemory,
    InvalidPointer,
}

pub type SlabResult<T> = Result<T, SlabError>;

/// Bytes of metadata that a slab's header takes.
pub const SLAB_HEADER_SIZE: usize = 96;

/// One extent carved into regions of one size, with a flag per region
/// that tells whether it is handed out.
#[derive(Debug)]
pub struct Slab {
    class: SizeClass,
    extent: Extent,
    link: Link,
    bitmap: Bitmap,
    last: usize,
}

/// Regions in use after `requests` further requests to a slab of
/// `capacity` regions of which `used` are in use, with no region given back.
pub open spec fn used_after(capacity: nat, used: nat, requests: nat) -> nat
    decreases requests,
{
    if requests == 0 {
        used
    } else {
        let u = used_after(capacity, used, (requests - 1) as nat);
        if u < capacity {
            u + 1
        } else {
            u
        }
    }
}

/// Of `requests` requests to a fresh slab exactly the first `capacity`
/// are served: afterwards the slab is full and serves no more.
pub proof fn lemma_fresh_slab_exhaustion(capacity: nat, requests: nat)
    ensures
        used_after(capacity, 0, requests) == if requests <= capacity {
            requests
        } else {
            capacity
        },
        requests >= capacity ==> used_after(capacity, 0, requests + 1) == capacity,
    decreases requests,
{
    if requests > 0 {
        lemma_fresh_slab_exhaustion(capacity, (requests - 1) as nat);
    }
    assert(used_after(capacity, 0, requests + 1) == if used_after(capacity, 0, requests)
        < capacity {
        used_after(capacity, 0, requests) + 1
    } else {
        used_after(capacity, 0, requests)
    });
}

impl Slab {
    /// Which regions are handed out.
    pub closed spec fn view(&self) -> Seq<bool> {
        self.bitmap@
    }

    pub closed spec fn spec_class(&self) -> SizeClass {
        self.class
    }

    pub closed spec fn spec_extent(&self) -> Extent {
        self.extent
    }

    pub closed spec fn spec_last(&self) -> usize {
        self.last
    }

    /// The number of regions handed out.
    pub closed spec fn spec_used(&self) -> nat {
        self.bitmap.spec_used()
    }

    /// The address of region `i`.
    pub open spec fn region_addr(&self, i: int) -> int {
        self.spec_extent().slice.base + i * self.spec_class().0
    }

    /// The regions lie inside the extent, the flags are counted, and the
    /// search cursor points at a region.
    pub closed spec fn wf(&self) -> bool {
        &&& self.class.0 > 0
        &&& self.extent.slice.wf()
        &&& self.extent.slice.base != 0
        &&& self.extent.slice.base % crate::prim::COMMON_PAGE_SIZE == 0
        &&& crate::lookup::range_ok(self.extent.slice)
        &&& self.bitmap.wf()
        &&& self.bitmap@.len() * self.class.0 <= self.extent.slice.len
        &&& self.bitmap@.len() == self.extent.slice.len / self.class.0
        &&& self.last < self.bitmap@.len() || (self.bitmap@.len() == 0 && self.last == 0)
    }

    pub proof fn lemma_wf(&self)
        requires
            self.wf(),
        ensures
            self.spec_class().0 > 0,
            self.spec_extent().slice.wf(),
            self.spec_extent().slice.base != 0,
            self.spec_extent().slice.base % crate::prim::COMMON_PAGE_SIZE == 0,
            crate::lookup::range_ok(self.spec_extent().slice),
            self@.len() * self.spec_class().0 <= self.spec_extent().slice.len,
            self@.len() == self.spec_extent().slice.len / self.spec_class().0,
            self.spec_used() == crate::bitmap::count_set(self@),
            self.spec_used() <= self@.len(),
    {
        self.bitmap.lemma_used();
    }

    /// The bytes that the flags of `regions` regions take.
    pub open spec fn spec_flag_bytes(regions: usize) -> usize {
        (((regions + 63) / 64) * 8) as usize
    }

    fn new_bitmap<S: System>(bump: &mut Bump, sys: &S, regions: usize) -> (r: SlabResult<Bitmap>)
        requires
            old(bump).wf(),
        ensures
            final(bump).wf(),
            final(bump).spec_chunk_size() == old(bump).spec_chunk_size(),
            match r {
                Ok(bm) => bm.wf() && bm@ == Seq::new(regions as nat, |g: int| false)
                    && bm.spec_used() == 0,
                Err(e) => match e {
                    SlabError::LayoutError(_) => !crate::layout::layout_ok(
                        Self::spec_flag_bytes(regions),
                        8,
                    ),
                    SlabError::BumpError(x) => old(bump).refused(Self::spec_flag_bytes(regions), 8, x),
                    _ => false,
                },
            },
    {
        let bm_needed: usize = Bitmap::bytes(regions);
        let bm_layout: Layout = match Layout::from_size_align(bm_needed, 8) {
            Ok(l) => l,
            Err(e) => return Err(SlabError::LayoutError(e)),
        };
        if let Err(e) = bump.allocate(sys, bm_layout) {
            return Err(SlabError::BumpError(e));
        }
        let words: usize = Bitmap::words(regions);
        let mut store: Vec<u64> = Vec::new();
        let mut i: usize = 0;
        while i < words
            invariant
                i <= words,
                store@.len() == i,
            decreases words - i,
        {
            store.push(0);
            i += 1;
        }
        match Bitmap::zero(store, regions) {
            Ok(bm) => Ok(bm),
            Err(e) => Err(SlabError::BitmapError(e)),
        }
    }

    /// What a refusal `e` of a slab of `size` bytes for regions of
    /// `class` tells, each error with its cause. The metadata allocator
    /// refused the header or the flags. There are no bytes to reserve.
    /// The host refused the extent. The flags have no layout. A page of
    /// the extent that the host mapped was taken in one of the maps, or
    /// a map was refused a node, or the extent reaches the last page of
    /// the address space.
    pub open spec fn refused(
        bump: Bump,
        etree: ExtentTree,
        arena_map: ArenaMap,
        class: SizeClass,
        size: usize,
        arena: ArenaId,
        id: usize,
        e: SlabError,
    ) -> bool {
        match e {
            SlabError::BumpError(x) => bump.refused(SLAB_HEADER_SIZE, 8, x) || (size > 0
                && Bump::chunk_refused(
                bump.spec_chunk_size(),
                Self::spec_flag_bytes((size / class.0) as usize),
                8,
                x,
            )),
            SlabError::OutOfMemory => size == 0,
            SlabError::ExtentError(x) => size > 0 && x is SystemError,
            SlabError::LayoutError(_) => size > 0 && !crate::layout::layout_ok(
                Self::spec_flag_bytes((size / class.0) as usize),
                8,
            ),
            SlabError::LookupError(x) => size > 0 && exists|slice: crate::system::MemSlice|
                #[trigger] slice.fresh(size) && crate::lookup::both_refused(
                    etree,
                    arena_map,
                    slice,
                    OwnerInfo::Slab { slab: id, size_class: class.1 },
                    arena,
                    x,
                ),
            _ => false,
        }
    }

    /// Reserves an extent of `size` bytes for regions of `class`, files
    /// every page of it in the arena's extent tree under slab `id` and in
    /// the arena map under `arena`. On failure neither map is changed.
    pub fn new<S: System>(
        bump: &mut Bump,
        sys: &S,
        class: SizeClass,
        size: usize,
        arena: ArenaId,
        etree: &mut ExtentTree,
        arena_map: &mut ArenaMap,
        id: usize,
    ) -> (r: SlabResult<Slab>)
        requires
            old(bump).wf(),
            old(etree).wf(),
            old(arena_map).wf(),
            class.0 > 0,
        ensures
            final(bump).wf(),
            final(bump).spec_chunk_size() == old(bump).spec_chunk_size(),
            final(etree).wf(),
            final(arena_map).wf(),
            match r {
                Ok(slab) => {
                    &&& slab.wf()
                    &&& size > 0
                    &&& slab.spec_class() == class
                    &&& slab.spec_extent().slice.fresh(size)
                    &&& !slab.spec_extent().activated
                    &&& slab.spec_link() == Link::unlinked()
                    &&& slab@ == Seq::new((size / class.0) as nat, |g: int| false)
                    &&& slab.spec_used() == 0
                    &&& slab.spec_last() == 0
                    &&& final(etree)@ == crate::lookup::registered(
                        old(etree)@,
                        slab.spec_extent().slice,
                        OwnerInfo::Slab { slab: id, size_class: class.1 },
                    )
                    &&& final(arena_map)@ == crate::lookup::registered(
                        old(arena_map)@,
                        slab.spec_extent().slice,
                        arena,
                    )
                    &&& crate::lookup::unfiled(old(etree)@, slab.spec_extent().slice)
                    &&& crate::lookup::unfiled(old(arena_map)@, slab.spec_extent().slice)
                },
                Err(e) => final(etree)@ == old(etree)@ && final(arena_map)@ == old(arena_map)@
                    && Self::refused(
                    *old(bump),
                    *old(etree),
                    *old(arena_map),
                    class,
                    size,
                    arena,
                    id,
                    e,
                ),
            },
            size == 0 && old(bump).tail_fits(SLAB_HEADER_SIZE, 8) ==> r == Err::<Slab, SlabError>(
                SlabError::OutOfMemory,
            ),
    {
        proof {
            assert(8usize & ((8usize - 1) as usize) == 0) by (bit_vector);
            crate::math::lemma_single_bit_is_pow2(8);
        }
        let header: Layout = match Layout::from_size_align(SLAB_HEADER_SIZE, 8) {
            Ok(l) => l,
            Err(e) => return Err(SlabError::LayoutError(e)),
        };
        if let Err(e) = bump.create(sys, header) {
            return Err(SlabError::BumpError(e));
        }
        if size == 0 {
            return Err(SlabError::OutOfMemory);
        }
        let extent: Extent = match Extent::new(sys, size, SysOption::Reserve) {
            Ok(v) => v,
            Err(e) => return Err(SlabError::ExtentError(e)),
        };
        let region_size: usize = class.0;
        let regions: usize = size / region_size;
        let bitmap: Bitmap = match Self::new_bitmap(bump, sys, regions) {
            Ok(v) => v,
            Err(e) => {
                let _ = extent.release(sys);
                return Err(e);
            },
        };
        proof {
            vstd::arithmetic::div_mod::lemma_fundamental_div_mod(size as int, region_size as int);
            assert(regions * region_size <= size) by (nonlinear_arith)
                requires
                    size as int == region_size * regions + (size as int % region_size as int),
                    0 <= size as int % region_size as int,
            ;
        }
        if let Err(e) = Self::register(&extent, class, sys, id, arena, etree, arena_map) {
            let _ = extent.release(sys);
            return Err(e);
        }
        Ok(Self { class, extent, link: Link::default(), bitmap, last: 0 })
    }

    /// Files the pages of a slab's extent in both maps, or in neither.
    fn register<S: System>(
        extent: &Extent,
        class: SizeClass,
        sys: &S,
        id: usize,
        arena: ArenaId,
        etree: &mut ExtentTree,
        arena_map: &mut ArenaMap,
    ) -> (r: SlabResult<()>)
        requires
            old(etree).wf(),
            old(arena_map).wf(),
            extent.slice.len > 0,
        ensures
            final(etree).wf(),
            final(arena_map).wf(),
            match r {
                Ok(()) => {
                    &&& crate::lookup::range_ok(extent.slice)
                    &&& final(etree)@ == crate::lookup::registered(
                        old(etree)@,
                        extent.slice,
                        OwnerInfo::Slab { slab: id, size_class: class.1 },
                    )
                    &&& final(arena_map)@ == crate::lookup::registered(
                        old(arena_map)@,
                        extent.slice,
                        arena,
                    )
                    &&& crate::lookup::unfiled(old(etree)@, extent.slice)
                    &&& crate::lookup::unfiled(old(arena_map)@, extent.slice)
                },
                Err(e) => e is LookupError && final(etree)@ == old(etree)@ && final(arena_map)@
                    == old(arena_map)@ && crate::lookup::both_refused(
                    *old(etree),
                    *old(arena_map),
                    extent.slice,
                    OwnerInfo::Slab { slab: id, size_class: class.1 },
                    arena,
                    e->LookupError_0,
                ),
            },
    {
        let info: OwnerInfo = OwnerInfo::new_slab(id, class.1);
        if let Err(e) = etree.register(sys, extent, info) {
            return Err(SlabError::LookupError(e));
        }
        if let Err(e) = arena_map.associate(sys, extent, arena) {
            proof {
                crate::lookup::lemma_unregister_registered::<OwnerInfo>(
                    old(etree)@,
                    extent.slice,
                    info,
                );
            }
            let _ = etree.unregister(extent);
            return Err(SlabError::LookupError(e));
        }
        proof {
            crate::lookup::lemma_free_unfiled::<OwnerInfo>(old(etree)@, extent.slice, info);
            crate::lookup::lemma_free_unfiled::<ArenaId>(old(arena_map)@, extent.slice, arena);
        }
        Ok(())
    }

    fn update_last(&mut self, found: usize)
        requires
            old(self).wf(),
            old(self)@.len() > 0,
        ensures
            final(self).wf(),
            final(self)@ == old(self)@,
            final(self).spec_class() == old(self).spec_class(),
            final(self).spec_extent() == old(self).spec_extent(),
            final(self).spec_link() == old(self).spec_link(),
            final(self).spec_used() == old(self).spec_used(),
            final(self).spec_last() == found as int % old(self)@.len() as int,
    {
        proof {
            self.bitmap.lemma_view_len();
        }
        self.last = found % self.bitmap.bits();
    }

    fn ptr_at(&self, index: usize) -> (r: usize)
        requires
            self.wf(),
            index < self@.len(),
        ensures
            r == self.region_addr(index as int),
            r != 0,
            self.spec_extent().slice.base <= r,
            r + self.spec_class().0 <= self.spec_extent().slice.base + self.spec_extent().slice.len,
    {
        assert((index + 1) * self.class.0 <= self.bitmap@.len() * self.class.0 && index
            * self.class.0 >= 0 && (index + 1) * self.class.0 == index * self.class.0
            + self.class.0) by (nonlinear_arith)
            requires
                index + 1 <= self.bitmap@.len(),
        ;
        let offset: usize = index * self.class.0;
        self.extent.slice.base + offset
    }

    fn has_ptr(&self, ptr: usize) -> (r: bool)
        requires
            self.wf(),
        ensures
            r == self.spec_extent().slice.contains(ptr as int),
    {
        let base_ptr: usize = self.extent.slice.base;
        let end_ptr: usize = base_ptr + self.extent.slice.len;
        ptr >= base_ptr && ptr < end_ptr
    }

    fn index_for(&self, ptr: usize) -> (r: Option<usize>)
        requires
            self.wf(),
        ensures
            r == if self.spec_extent().slice.contains(ptr as int) {
                Some(((ptr - self.spec_extent().slice.base) / (self.spec_class().0 as int)) as usize)
            } else {
                None
            },
    {
        if !self.has_ptr(ptr) {
            return None;
        }
        let offset: usize = ptr - self.extent.slice.base;
        Some(offset / self.class.0)
    }

    /// The index of the region that holds the address `p`.
    pub open spec fn slot_of(&self, p: usize) -> usize {
        ((p - self.spec_extent().slice.base) / (self.spec_class().0 as int)) as usize
    }

    /// The address `p` lies in one of the slab's regions.
    pub open spec fn holds_region_of(&self, p: usize) -> bool {
        self.spec_extent().slice.contains(p as int) && (p - self.spec_extent().slice.base) / (
        self.spec_class().0 as int) < self@.len()
    }

    /// This slab is the slab `before` with region `slot`, found by the
    /// wrapping search from the cursor, handed out at address `p`.
    pub open spec fn served(&self, before: Slab, p: usize, slot: usize) -> bool {
        &&& crate::bitmap::is_wrapping_first(before@, false, before.spec_last() as int, Some(slot))
        &&& slot < before@.len()
        &&& p == before.region_addr(slot as int)
        &&& self@ == before@.update(slot as int, true)
        &&& self.spec_last() == slot
        &&& self.spec_extent().activated
    }

    /// Hands out the first free region at or after the cursor, wrapping
    /// around once, and moves the cursor to it. The extent is committed
    /// on the first request.
    pub fn allocate<S: System>(&mut self, sys: &S) -> (r: SlabResult<usize>)
        requires
            old(self).wf(),
        ensures
            final(self).wf(),
            final(self).spec_class() == old(self).spec_class(),
            final(self).spec_extent().slice == old(self).spec_extent().slice,
            final(self).spec_link() == old(self).spec_link(),
            final(self)@.len() == old(self)@.len(),
            r matches Ok(p) ==> final(self).served(*old(self), p, old(self).slot_of(p)),
            r is Ok ==> final(self).spec_used() == old(self).spec_used() + 1 && final(self).spec_extent().activated,
            r matches Err(e) ==> e == SlabError::OutOfMemory || e is ExtentError,
            r matches Err(e) ==> final(self)@ == old(self)@ && final(self).spec_last()
                == old(self).spec_last(),
            r matches Err(SlabError::OutOfMemory) ==> old(self).spec_used() == old(self)@.len(),
            r matches Err(SlabError::ExtentError(_)) ==> !old(self).spec_extent().activated,
            !(r matches Err(SlabError::ExtentError(_))) ==> (r is Ok <==> old(self).spec_used()
                < old(self)@.len()) && final(self).spec_used() == used_after(
                old(self)@.len(),
                old(self).spec_used(),
                1,
            ),
    {
        proof {
            self.bitmap.lemma_used();
            self.bitmap.lemma_view_len();
            crate::bitmap::lemma_count_bounds(self.bitmap@);
            assert(used_after(self@.len(), self.spec_used(), 1) == if used_after(
                self@.len(),
                self.spec_used(),
                0,
            ) < self@.len() {
                self.spec_used() + 1
            } else {
                self.spec_used()
            });
        }
        if !self.extent.is_activated() {
            if let Err(e) = self.extent.activate(sys) {
                return Err(SlabError::ExtentError(e));
            }
        }
        let slot: usize = match self.bitmap.find_fc(Some(self.last)) {
            Some(v) => v,
            None => {
                return Err(SlabError::OutOfMemory);
            },
        };
        proof {
            crate::bitmap::lemma_count_update(self.bitmap@, slot as int, true);
        }
        if let Err(e) = self.bitmap.set(slot) {
            return Err(SlabError::BitmapError(e));
        }
        proof {
            self.bitmap.lemma_used();
            self.bitmap.lemma_view_len();
        }
        self.update_last(slot);
        let p: usize = self.ptr_at(slot);
        proof {
            assert(crate::bitmap::is_wrapping_first(
                old(self)@,
                false,
                old(self).spec_last() as int,
                Some(slot),
            ));
            vstd::arithmetic::div_mod::lemma_small_mod(slot as nat, old(self)@.len());
            vstd::arithmetic::div_mod::lemma_div_by_multiple(slot as int, self.class.0 as int);
            assert(slot * self.class.0 == self.class.0 * slot) by (nonlinear_arith);
            assert(old(self).slot_of(p) == slot);
            assert(self.served(*old(self), p, slot));
        }
        Ok(p)
    }

    /// Takes back the region that holds `ptr` and moves the cursor to it.
    pub fn deallocate(&mut self, ptr: usize) -> (r: SlabResult<()>)
        requires
            old(self).wf(),
        ensures
            final(self).wf(),
            final(self).spec_class() == old(self).spec_class(),
            final(self).spec_extent() == old(self).spec_extent(),
            final(self).spec_link() == old(self).spec_link(),
            final(self)@.len() == old(self)@.len(),
            match r {
                Ok(()) => {
                    let index = (ptr - old(self).spec_extent().slice.base) / (
                    old(self).spec_class().0 as int);
                    &&& old(self).spec_extent().slice.contains(ptr as int)
                    &&& 0 <= index < old(self)@.len()
                    &&& final(self)@ == old(self)@.update(index, false)
                    &&& final(self).spec_last() == index
                },
                Err(SlabError::InvalidPointer) => !old(self).spec_extent().slice.contains(
                    ptr as int,
                ) && final(self)@ == old(self)@ && final(self).spec_last() == old(self).spec_last(),
                Err(SlabError::BitmapError(_)) => old(self).spec_extent().slice.contains(
                    ptr as int,
                ) && (ptr - old(self).spec_extent().slice.base) / (old(self).spec_class().0 as int)
                    >= old(self)@.len() && final(self)@ == old(self)@ && final(self).spec_last()
                    == old(self).spec_last(),
                Err(_) => false,
            },
    {
        proof {
            self.bitmap.lemma_view_len();
        }
        if !self.has_ptr(ptr) {
            return Err(SlabError::InvalidPointer);
        }
        let index: usize = match self.index_for(ptr) {
            Some(v) => v,
            None => return Err(SlabError::InvalidPointer),
        };
        if let Err(e) = self.bitmap.clear(index) {
            return Err(SlabError::BitmapError(e));
        }
        proof {
            self.bitmap.lemma_view_len();
        }
        self.update_last(index);
        proof {
            vstd::arithmetic::div_mod::lemma_small_mod(index as nat, old(self)@.len());
        }
        Ok(())
    }

    /// Whether no region is handed out.
    pub fn is_empty(&self) -> (r: bool)
        requires
            self.wf(),
        ensures
            r == (self.spec_used() == 0),
            r == forall|i: int| 0 <= i < self@.len() ==> !self@[i],
    {
        let r: bool = self.bitmap.is_clear();
        proof {
            assert(self@ == self.bitmap@);
        }
        r
    }

    pub fn extent(&self) -> (r: &Extent)
        ensures
            *r == self.spec_extent(),
    {
        &self.extent
    }

    pub fn class(&self) -> (r: SizeClass)
        ensures
            r == self.spec_class(),
    {
        self.class
    }

    /// Gives the physical pages back to the host; the range stays reserved.
    pub fn deactivate<S: System>(&mut self, sys: &S) -> (r: Result<(), ExtentError>)
        requires
            old(self).wf(),
        ensures
            final(self).wf(),
            final(self)@ == old(self)@,
            final(self).spec_class() == old(self).spec_class(),
            final(self).spec_extent().slice == old(self).spec_extent().slice,
            final(self).spec_link() == old(self).spec_link(),
            final(self).spec_last() == old(self).spec_last(),
            final(self).spec_used() == old(self).spec_used(),
            final(self).spec_extent().link == old(self).spec_extent().link,
            match r {
                Ok(()) => !final(self).spec_extent().activated,
                Err(e) => e is SystemError && final(self).spec_extent() == old(self).spec_extent(),
            },
    {
        self.extent.deactivate(sys)
    }
}

/// A search for a free region that starts at a free region finds it:
/// the region that was given back last is the one handed out next.
pub proof fn lemma_freed_region_is_next(flags: Seq<bool>, last: usize, r: Option<usize>)
    requires
        last < flags.len(),
        !flags[last as int],
        crate::bitmap::is_wrapping_first(flags, false, last as int, r),
    ensures
        r == Some(last),
{
    assert(flags[last as int] == false);
}

/// The regions of a table of slabs that are handed out, each named by
/// the place of its slab in the table and its index in the slab.
pub open spec fn live_regions(slabs: Seq<Slab>) -> Set<(int, int)> {
    Set::new(
        |r: (int, int)| 0 <= r.0 < slabs.len() && 0 <= r.1 < slabs[r.0]@.len() && slabs[r.0]@[r.1],
    )
}

/// Links join slabs of one class only.
pub open spec fn class_linked(slabs: Seq<Slab>) -> bool {
    forall|i: int|
        0 <= i < slabs.len() ==> {
            &&& (#[trigger] slabs[i]).spec_link().next matches Some(j) ==> j < slabs.len()
                && slabs[j as int].spec_class() == slabs[i].spec_class()
            &&& slabs[i].spec_link().prev matches Some(j) ==> j < slabs.len()
                && slabs[j as int].spec_class() == slabs[i].spec_class()
        }
}

/// Every slab of the table is well formed and linked to slabs of its
/// class in the table only.
pub open spec fn table_wf(slabs: Seq<Slab>) -> bool {
    &&& forall|i: int| 0 <= i < slabs.len() ==> (#[trigger] slabs[i]).wf()
    &&& class_linked(slabs)
}

/// The links of a well-formed table stay inside it.
pub proof fn lemma_table_links(slabs: Seq<Slab>)
    requires
        class_linked(slabs),
    ensures
        crate::list::links_within(crate::list::links_of(slabs)),
{
    assert forall|i: int| 0 <= i < slabs.len() implies (#[trigger] crate::list::links_of(
        slabs,
    )[i]).within(slabs.len() as int) by {
        assert(slabs[i].spec_link() == crate::list::links_of(slabs)[i]);
    }
}

/// A slab with another link is the same slab in every other respect.
pub proof fn lemma_relink_keeps(slab: Slab, link: Link)
    ensures
        slab.with_link(link)@ == slab@,
        slab.with_link(link).wf() == slab.wf(),
        slab.with_link(link).spec_class() == slab.spec_class(),
        slab.with_link(link).spec_extent() == slab.spec_extent(),
        slab.with_link(link).spec_last() == slab.spec_last(),
        slab.with_link(link).spec_used() == slab.spec_used(),
        slab.with_link(link).spec_link() == link,
{
}

/// Relinking a table changes neither which regions are live nor whether
/// its slabs are well formed.
pub proof fn lemma_relinked_table(before: Seq<Slab>, after: Seq<Slab>, links: Seq<Link>)
    requires
        crate::list::relinked(before, after, links),
    ensures
        live_regions(after) == live_regions(before),
        forall|i: int|
            0 <= i < before.len() ==> (#[trigger] after[i]).wf() == before[i].wf() && after[i]@
                == before[i]@ && after[i].spec_class() == before[i].spec_class()
                && after[i].spec_extent() == before[i].spec_extent() && after[i].spec_used()
                == before[i].spec_used() && after[i].spec_last() == before[i].spec_last(),
        after.len() == before.len(),
{
    assert forall|i: int| 0 <= i < before.len() implies (#[trigger] after[i]).wf() == before[i].wf()
        && after[i]@ == before[i]@ && after[i].spec_class() == before[i].spec_class()
        && after[i].spec_extent() == before[i].spec_extent() && after[i].spec_used()
        == before[i].spec_used() && after[i].spec_last() == before[i].spec_last() by {
        lemma_relink_keeps(before[i], links[i]);
    }
    assert(live_regions(after) =~= live_regions(before));
}

impl HasLink for Slab {
    closed spec fn spec_link(&self) -> Link {
        self.link
    }

    closed spec fn with_link(&self, link: Link) -> Self {
        Slab { class: self.class, extent: self.extent, link, bitmap: self.bitmap, last: self.last }
    }

    proof fn lemma_with_link(&self, a: Link, b: Link) {
    }

    fn link(&self) -> (r: &Link) {
        &self.link
    }

    fn link_mut(&mut self) -> (r: &mut Link) {
        &mut self.link
    }
}

} // verus!
