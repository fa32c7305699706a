use vstd::prelude::*;
use crate::heap::{BaseAlloc, ThreadState, SENTINEL};
use crate::layout::Layout;
use crate::system::System;

verus! {

/// What `realloc` decided. Where `old` is not null, the caller copies
/// `copy` bytes from `old` to `new` and then frees `old`.
#[derive(Clone, Copy, Debug, PartialEq, Eq, Structural)]
pub struct Moved {
    pub new: usize,
    pub copy: usize,
    pub old: usize,
}

/// What `allocate` owes for a request of `size` bytes at `align` that
/// is handed on to it. The request is served where the thread's arena
/// has room for what the empty ring takes in. Nothing is taken back:
/// what was live stays live, and what was lent to a thread with a tidy cache stays lent. A
/// request that the thread's cache can serve is
/// served by the oldest cached region of its class, and the allocator
/// is untouched. A request for a size class that the cache cannot
/// serve, if it is served, is served by a region of that class in the
/// arena that serves the thread, at a multiple of the quantum: the
/// region is live afterwards, was not before, and resolves to the size
/// of its class. The alignment that is asked for is kept up to the
/// quantum for a size class, and up to a page beyond. A request beyond the
/// size classes, if it is served, is served by whole pages that no
/// arena owned before, that the arena that serves the thread owns now,
/// and that resolve to an extent of the rounded size. What an arena
/// owned it still owns, and what resolved resolves as before.
pub open spec fn handed_on(
    before: BaseAlloc,
    after: BaseAlloc,
    local_before: ThreadState,
    local_after: ThreadState,
    size: usize,
    align: usize,
    r: usize,
) -> bool {
    &&& after.spec_globals().keeps_live(before.spec_globals())
    &&& local_before.served_without_host(before, size) ==> r != 0
    &&& after.spec_globals().keeps_owners(before.spec_globals())
    &&& after.spec_globals().keeps_lookups(before.spec_globals())
    &&& before.coherent() && local_before.tidy(before) ==> after.lends(
        before,
        local_before,
        local_after,
        size,
        r,
    )
    &&& local_before.spec_arena() is Some && local_before.spec_tcache() is Some && (
    crate::classes::spec_class_for(size as int) matches Some(c)
        && local_before.spec_tcache()->0.cached(c).len() > 0) ==> after == before && r
        == local_before.spec_tcache()->0.cached(crate::classes::spec_class_for(size as int)->0)[0]
    &&& local_before.misses_cache(size) && r != 0 ==> after.spec_globals().arena_holds(
        local_after.serving(),
        r,
        crate::classes::SizeClassIndex(crate::classes::spec_class_for(size as int)->0 as usize),
    ) && r % crate::classes::QUANTUM == 0 && (before.coherent()
        ==> !before.spec_globals().is_live(r) && after.spec_sizeof(r) == Some(
        crate::classes::class_size(crate::classes::spec_class_for(size as int)->0) as usize,
    ))
    &&& r != 0 && (local_before.misses_cache(size) && align <= crate::classes::QUANTUM || size
        >= crate::classes::SCLASS_CUTOFF && align <= crate::prim::COMMON_PAGE_SIZE) ==> r % align
        == 0
    &&& size >= crate::classes::SCLASS_CUTOFF && r != 0 ==> r % crate::prim::COMMON_PAGE_SIZE == 0
        && before.spec_globals().unowned(
        (crate::system::MemSlice {
            base: r,
            len: crate::math::round_up(size as int, crate::prim::COMMON_PAGE_SIZE as int) as usize,
        }),
    ) && after.spec_globals().owned_by(
        (crate::system::MemSlice {
            base: r,
            len: crate::math::round_up(size as int, crate::prim::COMMON_PAGE_SIZE as int) as usize,
        }),
        local_after.serving(),
    ) && after.spec_sizeof(r) == Some(
        crate::math::round_up(size as int, crate::prim::COMMON_PAGE_SIZE as int) as usize,
    )
}

/// What `deallocate` owes for a pointer that is handed on to it.
/// Nothing is handed out: what is live afterwards was live before. A
/// thread with a tidy cache that gives back a lent region keeps every
/// other region that was lent. Null,
/// the sentinel and a pointer that resolves to nothing change nothing.
/// A large extent no longer resolves afterwards. A region of a size
/// class for which the thread's cache has room becomes the newest
/// region of the cache, and the allocator is untouched.
pub open spec fn taken_back(
    before: BaseAlloc,
    after: BaseAlloc,
    local_before: ThreadState,
    local_after: ThreadState,
    ptr: usize,
) -> bool {
    &&& after.spec_globals().only_freed(before.spec_globals())
    &&& before.coherent() && local_before.tidy(before) && (before.spec_class_of(ptr) is Some
        ==> before.lent(local_before, ptr)) ==> after.keeps_lent(
        before,
        local_before,
        local_after,
        ptr,
    )
    &&& local_before.tidy(before) && before.lent(local_before, ptr) && before.spec_class_of(ptr)
        is Some && local_before.has_room(before.spec_class_of(ptr)->0) ==> after.takes_back(
        before,
        local_before,
        local_after,
        ptr,
    )
    &&& before.spec_sizeof(ptr) is None ==> after == before && local_after == local_before
    &&& before.coherent() && before.spec_names_large(ptr) ==> after.spec_globals().spec_lookup(ptr)
        is None && local_after == local_before
    &&& before.spec_class_of(ptr) is Some && local_before.has_room(before.spec_class_of(ptr)->0)
        ==> after == before && local_after.put_in_cache(
        local_before,
        before.spec_class_of(ptr)->0,
        ptr,
    )
}

/// A block of `size` bytes. No bytes are served by the sentinel; a size
/// that no layout holds is refused with null.
pub fn malloc<S: System>(heap: &mut BaseAlloc, sys: &S, local: &mut ThreadState, size: usize) -> (r: usize)
    requires
        old(heap).wf(),
        old(local).wf(),
    ensures
        final(heap).wf(),
        old(heap).coherent() ==> final(heap).coherent(),
        final(local).wf(),
        size == 0 ==> r == SENTINEL && *final(heap) == *old(heap) && *final(local) == *old(local),
        size != 0 && !crate::layout::layout_ok(size, 1) ==> r == 0 && *final(heap) == *old(heap)
            && *final(local) == *old(local),
        size != 0 && crate::layout::layout_ok(size, 1) ==> handed_on(
            *old(heap),
            *final(heap),
            *old(local),
            *final(local),
            size,
            1,
            r,
        ),
{
    if size == 0 {
        return BaseAlloc::sentinel();
    }
    proof {
        assert(1usize & ((1usize - 1) as usize) == 0) by (bit_vector);
        crate::math::lemma_single_bit_is_pow2(1);
    }
    let layout: Layout = match Layout::from_size_align(size, 1) {
        Ok(l) => l,
        Err(_) => return 0,
    };
    heap.allocate(sys, local, layout)
}

/// Takes back the block at `ptr`. Null, the sentinel and a pointer that
/// the allocator does not know are ignored.
pub fn free<S: System>(heap: &mut BaseAlloc, sys: &S, local: &mut ThreadState, ptr: usize)
    requires
        old(heap).wf(),
        old(local).wf(),
    ensures
        final(heap).wf(),
        old(heap).coherent() ==> final(heap).coherent(),
        final(local).wf(),
        taken_back(*old(heap), *final(heap), *old(local), *final(local), ptr),
{
    proof {
        if heap.coherent() && heap.spec_globals().is_live(ptr) {
            heap.lemma_live_resolves(ptr);
        }
    }
    if BaseAlloc::is_invalid(ptr) {
        return ;
    }
    let size: usize = match heap.sizeof(ptr) {
        Some(s) => s,
        None => return ,
    };
    proof {
        assert(1usize & ((1usize - 1) as usize) == 0) by (bit_vector);
        crate::math::lemma_single_bit_is_pow2(1);
    }
    let layout: Layout = match Layout::from_size_align(size, 1) {
        Ok(l) => l,
        Err(_) => match Layout::from_size_align(0, 1) {
            Ok(l) => l,
            Err(_) => return ,
        },
    };
    heap.deallocate(sys, local, ptr, layout);
}

/// The bytes of `num` elements of `size` bytes each, where that fits a word.
pub open spec fn spec_total(num: usize, size: usize) -> Option<usize> {
    if num * size <= usize::MAX {
        Some((num * size) as usize)
    } else {
        None
    }
}

/// A block for `num` elements of `size` bytes each, which the caller
/// fills with zeros. A product that overflows is refused with null; a
/// product of zero is served by the sentinel.
pub fn calloc<S: System>(
    heap: &mut BaseAlloc,
    sys: &S,
    local: &mut ThreadState,
    num: usize,
    size: usize,
) -> (r: usize)
    requires
        old(heap).wf(),
        old(local).wf(),
    ensures
        final(heap).wf(),
        old(heap).coherent() ==> final(heap).coherent(),
        final(local).wf(),
        spec_total(num, size) is None ==> r == 0 && *final(heap) == *old(heap) && *final(local)
            == *old(local),
        spec_total(num, size) == Some(0usize) ==> r == SENTINEL && *final(heap) == *old(heap)
            && *final(local) == *old(local),
        spec_total(num, size) matches Some(t) && t != 0 && !crate::layout::layout_ok(t, 1) ==> r
            == 0 && *final(heap) == *old(heap) && *final(local) == *old(local),
        spec_total(num, size) is Some && spec_total(num, size)->0 != 0 && crate::layout::layout_ok(
            spec_total(num, size)->0,
            1,
        ) ==> handed_on(
            *old(heap),
            *final(heap),
            *old(local),
            *final(local),
            spec_total(num, size)->0,
            1,
            r,
        ),
{
    let total_size: usize = match num.checked_mul(size) {
        Some(t) => t,
        None => return 0,
    };
    if total_size == 0 {
        return BaseAlloc::sentinel();
    }
    let layout: Layout = match Layout::from_size_align(total_size, 1) {
        Ok(l) => l,
        Err(_) => return 0,
    };
    heap.allocate(sys, local, layout)
}

/// Decides a `realloc`. Null and the sentinel are grown by `malloc`. A
/// size of zero frees the block and is served by the sentinel. A
/// pointer that the allocator does not know is refused with null. Else a
/// block of the new size is handed out; the old block stays in place
/// until the caller has copied from it and frees it.
pub fn realloc<S: System>(
    heap: &mut BaseAlloc,
    sys: &S,
    local: &mut ThreadState,
    ptr: usize,
    size: usize,
) -> (r: Moved)
    requires
        old(heap).wf(),
        old(local).wf(),
    ensures
        final(heap).wf(),
        old(heap).coherent() ==> final(heap).coherent(),
        final(local).wf(),
        (ptr == 0 || ptr == SENTINEL) ==> r.copy == 0 && r.old == 0 && (size == 0 ==> r.new
            == SENTINEL && *final(heap) == *old(heap) && *final(local) == *old(local)),
        size != 0 && crate::layout::layout_ok(size, 1) && ((ptr == 0 || ptr == SENTINEL)
            || old(heap).spec_sizeof(ptr) is Some) ==> handed_on(
            *old(heap),
            *final(heap),
            *old(local),
            *final(local),
            size,
            1,
            r.new,
        ),
        size != 0 && !crate::layout::layout_ok(size, 1) ==> r.new == 0 && *final(heap) == *old(heap)
            && *final(local) == *old(local),
        !(ptr == 0 || ptr == SENTINEL) && size == 0 ==> r == (Moved {
            new: SENTINEL,
            copy: 0,
            old: 0,
        }) && taken_back(*old(heap), *final(heap), *old(local), *final(local), ptr),
        !(ptr == 0 || ptr == SENTINEL) && size != 0 ==> match old(heap).spec_sizeof(ptr) {
            None => r == (Moved { new: 0, copy: 0, old: 0 }) && *final(heap) == *old(heap)
                && *final(local) == *old(local),
            Some(old_size) => if r.new == 0 {
                r.copy == 0 && r.old == 0
            } else {
                r.old == ptr && r.copy == if old_size < size {
                    old_size
                } else {
                    size
                }
            },
        },
{
    if BaseAlloc::is_invalid(ptr) {
        return Moved { new: malloc(heap, sys, local, size), copy: 0, old: 0 };
    }
    if size == 0 {
        free(heap, sys, local, ptr);
        return Moved { new: BaseAlloc::sentinel(), copy: 0, old: 0 };
    }
    let old_size: usize = match heap.sizeof(ptr) {
        Some(s) => s,
        None => return Moved { new: 0, copy: 0, old: 0 },
    };
    let new_layout: Layout = match Layout::from_size_align(size, 1) {
        Ok(l) => l,
        Err(_) => return Moved { new: 0, copy: 0, old: 0 },
    };
    let new_ptr: usize = heap.allocate(sys, local, new_layout);
    if new_ptr == 0 {
        return Moved { new: 0, copy: 0, old: 0 };
    }
    let copy_size: usize = if old_size < size {
        old_size
    } else {
        size
    };
    Moved { new: new_ptr, copy: copy_size, old: ptr }
}

/// A block of `size` bytes for the alignment `align`. No bytes are
/// served by the sentinel; an alignment that is no power of two is
/// refused with null.
pub fn aligned_alloc<S: System>(
    heap: &mut BaseAlloc,
    sys: &S,
    local: &mut ThreadState,
    align: usize,
    size: usize,
) -> (r: usize)
    requires
        old(heap).wf(),
        old(local).wf(),
    ensures
        final(heap).wf(),
        old(heap).coherent() ==> final(heap).coherent(),
        final(local).wf(),
        size == 0 ==> r == SENTINEL && *final(heap) == *old(heap) && *final(local) == *old(local),
        size != 0 && !crate::layout::layout_ok(size, align) ==> r == 0 && *final(heap) == *old(heap)
            && *final(local) == *old(local),
        size != 0 && crate::layout::layout_ok(size, align) ==> handed_on(
            *old(heap),
            *final(heap),
            *old(local),
            *final(local),
            size,
            align,
            r,
        ),
{
    if size == 0 {
        return BaseAlloc::sentinel();
    }
    let layout: Layout = match Layout::from_size_align(size, align) {
        Ok(l) => l,
        Err(_) => return 0,
    };
    heap.allocate(sys, local, layout)
}

/// The bytes that the block at `ptr` can hold; zero for null, the
/// sentinel and a pointer that the allocator does not know.
pub fn malloc_usable_size(heap: &BaseAlloc, ptr: usize) -> (r: usize)
    requires
        heap.wf(),
    ensures
        r == match heap.spec_sizeof(ptr) {
            Some(s) => s,
            None => 0,
        },
{
    if BaseAlloc::is_invalid(ptr) {
        return 0;
    }
    match heap.sizeof(ptr) {
        Some(s) => s,
        None => 0,
    }
}

} // verus!
