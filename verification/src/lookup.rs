use vstd::prelude::*;
use crate::extent::Extent;
use crate::prim::{page_align, page_align_down, page_size, PrimError, COMMON_PAGE_SIZE};
use crate::rtree::{RTree, RTreeError};
use crate::system::System;
use crate::FANOUT;

verus! {

/// Stable index of an arena.
#[derive(Clone, Copy, Debug, PartialEq, Eq, Structural)]
pub struct ArenaId(pub usize);

/// Index of a size class, as the ownership trees record it.
pub type ClassIndex = crate::classes::SizeClassIndex;

/// Who owns a page: a slab of a class, named by its place in the arena's
/// slab table, or an extent that serves one large allocation.
#[derive(Clone, Copy, Debug, PartialEq, Eq, Structural)]
pub enum OwnerInfo {
    Slab { slab: usize, size_class: ClassIndex },
    Extent { extent: Extent },
}

impl OwnerInfo {
    pub fn new_slab(slab: usize, size_class: ClassIndex) -> (r: Self)
        ensures
            r == (OwnerInfo::Slab { slab, size_class }),
    {
        Self::Slab { slab, size_class }
    }

    pub fn new_extent(extent: Extent) -> (r: Self)
        ensures
            r == (OwnerInfo::Extent { extent }),
    {
        Self::Extent { extent }
    }
}

#[derive(Clone, Copy, Debug, PartialEq, Eq, Structural)]
pub enum LookupError {
    Tree(RTreeError),
    Align(PrimError),
    RangeOverflow,
    NotFound,
    InvalidArena,
}

/// The pages `start`, `start + step`, and so on below `end`.
#[derive(Clone, Copy, Debug, PartialEq, Eq, Structural)]
pub struct LookupRange {
    pub start: usize,
    pub end: usize,
    pub step: usize,
}

impl LookupRange {
    /// Both ends lie on page boundaries and the step is one page.
    pub open spec fn wf(&self) -> bool {
        &&& self.step == COMMON_PAGE_SIZE
        &&& self.start % COMMON_PAGE_SIZE == 0
        &&& self.end % COMMON_PAGE_SIZE == 0
        &&& self.start <= self.end
    }

    /// The number of pages in the range.
    pub open spec fn count(&self) -> nat {
        ((self.end - self.start) / (COMMON_PAGE_SIZE as int)) as nat
    }

    pub fn next_addr(&self, current: usize) -> (r: Result<usize, LookupError>)
        ensures
            r == if current + self.step <= usize::MAX {
                Ok::<usize, LookupError>((current + self.step) as usize)
            } else {
                Err(LookupError::RangeOverflow)
            },
    {
        match current.checked_add(self.step) {
            Some(v) => Ok(v),
            None => Err(LookupError::RangeOverflow),
        }
    }
}

/// The address of page `i` of a range that starts at `start`.
pub open spec fn page_key(start: usize, i: int) -> usize {
    (start + i * COMMON_PAGE_SIZE) as usize
}

/// The map `m` with the first `count` pages from `start` filed under `v`.
pub open spec fn with_pages<T: Copy, const F: usize>(
    m: Map<Seq<usize>, T>,
    start: usize,
    count: nat,
    v: T,
) -> Map<Seq<usize>, T>
    decreases count,
{
    if count == 0 {
        m
    } else {
        with_pages::<T, F>(m, start, (count - 1) as nat, v).insert(
            crate::rtree::key_path(F, page_key(start, count - 1)),
            v,
        )
    }
}

/// The map `m` without the first `count` pages from `start`.
pub open spec fn without_pages<T: Copy, const F: usize>(
    m: Map<Seq<usize>, T>,
    start: usize,
    count: nat,
) -> Map<Seq<usize>, T>
    decreases count,
{
    if count == 0 {
        m
    } else {
        without_pages::<T, F>(m, start, (count - 1) as nat).remove(
            crate::rtree::key_path(F, page_key(start, count - 1)),
        )
    }
}

/// None of the first `count` pages from `start` is filed in `m`, and no
/// two of them share a path.
pub open spec fn pages_free<T: Copy, const F: usize>(
    m: Map<Seq<usize>, T>,
    start: usize,
    count: nat,
    v: T,
) -> bool
    decreases count,
{
    count == 0 || (pages_free::<T, F>(m, start, (count - 1) as nat, v) && !with_pages::<T, F>(
        m,
        start,
        (count - 1) as nat,
        v,
    ).contains_key(crate::rtree::key_path(F, page_key(start, count - 1))))
}

/// What `with_pages` holds: `v` under every page of the range, and under
/// every other path what `m` holds.
pub proof fn lemma_with_pages<T: Copy, const F: usize>(
    m: Map<Seq<usize>, T>,
    start: usize,
    count: nat,
    v: T,
    p: Seq<usize>,
)
    ensures
        (exists|i: int| 0 <= i < count && p == crate::rtree::key_path(F, page_key(start, i)))
            ==> with_pages::<T, F>(m, start, count, v).contains_key(p) && with_pages::<T, F>(
            m,
            start,
            count,
            v,
        )[p] == v,
        !(exists|i: int| 0 <= i < count && p == crate::rtree::key_path(F, page_key(start, i)))
            ==> (with_pages::<T, F>(m, start, count, v).contains_key(p) == m.contains_key(p))
            && (m.contains_key(p) ==> with_pages::<T, F>(m, start, count, v)[p] == m[p]),
    decreases count,
{
    if count > 0 {
        lemma_with_pages::<T, F>(m, start, (count - 1) as nat, v, p);
    }
}

/// What `without_pages` holds: nothing under a page of the range, and
/// under every other path what `m` holds.
pub proof fn lemma_without_pages<T: Copy, const F: usize>(
    m: Map<Seq<usize>, T>,
    start: usize,
    count: nat,
    p: Seq<usize>,
)
    ensures
        (exists|i: int| 0 <= i < count && p == crate::rtree::key_path(F, page_key(start, i)))
            ==> !without_pages::<T, F>(m, start, count).contains_key(p),
        !(exists|i: int| 0 <= i < count && p == crate::rtree::key_path(F, page_key(start, i)))
            ==> (without_pages::<T, F>(m, start, count).contains_key(p) == m.contains_key(p))
            && (m.contains_key(p) ==> without_pages::<T, F>(m, start, count)[p] == m[p]),
    decreases count,
{
    if count > 0 {
        lemma_without_pages::<T, F>(m, start, (count - 1) as nat, p);
    }
}

/// Taking out pages that were filed into free places gives back the map
/// as it was.
pub proof fn lemma_rollback<T: Copy, const F: usize>(
    m: Map<Seq<usize>, T>,
    start: usize,
    count: nat,
    v: T,
)
    requires
        count > 0,
        pages_free::<T, F>(m, start, count, v),
    ensures
        with_pages::<T, F>(m, start, count, v).remove(
            crate::rtree::key_path(F, page_key(start, count - 1)),
        ) == with_pages::<T, F>(m, start, (count - 1) as nat, v),
{
    let prev = with_pages::<T, F>(m, start, (count - 1) as nat, v);
    let p = crate::rtree::key_path(F, page_key(start, count - 1));
    assert(prev.insert(p, v).remove(p) =~= prev);
}

/// The pages that the range of `extent` touches; `None` for an empty extent.
pub fn extent_range(extent: &Extent) -> (r: Result<Option<LookupRange>, LookupError>)
    ensures
        match r {
            Ok(None) => extent.slice.len == 0,
            Ok(Some(range)) => range_ok(extent.slice) && range == spec_range(extent.slice)
                && range.wf() && range.start < range.end,
            Err(e) => extent.slice.len > 0 && (e == LookupError::RangeOverflow || e
                == LookupError::Align(PrimError::Overflow)) && !range_ok(extent.slice),
        },
{
    let base: usize = extent.slice.base;
    let len: usize = extent.slice.len;
    if len == 0 {
        return Ok(None);
    }
    let start: usize = match page_align_down(base) {
        Ok(v) => v,
        Err(e) => return Err(LookupError::Align(e)),
    };
    let end_addr: usize = match base.checked_add(len) {
        Some(v) => v,
        None => return Err(LookupError::RangeOverflow),
    };
    proof {
        crate::prim::lemma_page_size_is_pow2();
        crate::math::lemma_align_up_bounds(end_addr, COMMON_PAGE_SIZE);
    }
    let end: usize = match page_align(end_addr) {
        Ok(v) => v,
        Err(e) => return Err(LookupError::Align(e)),
    };
    let step: usize = page_size();
    Ok(Some(LookupRange { start, end, step }))
}

/// Takes the first `count` pages of `range` out of `tree` again, last first.
fn rollback_range<T: Copy, const F: usize>(
    tree: &mut RTree<T, F>,
    range: &LookupRange,
    upto: usize,
    Ghost(base): Ghost<Map<Seq<usize>, T>>,
    Ghost(count): Ghost<nat>,
    Ghost(v): Ghost<T>,
)
    requires
        old(tree).wf(),
        range.wf(),
        upto == range.start + count * COMMON_PAGE_SIZE,
        upto <= range.end,
        old(tree)@ == with_pages::<T, F>(base, range.start, count, v),
        pages_free::<T, F>(base, range.start, count, v),
    ensures
        final(tree).wf(),
        final(tree)@ == base,
        final(tree).spec_bump() == old(tree).spec_bump(),
{
    let mut addr: usize = upto;
    let ghost mut k: nat = count;
    while addr > range.start
        invariant
            tree.wf(),
            range.wf(),
            addr == range.start + k * COMMON_PAGE_SIZE,
            addr <= upto,
            k <= count,
            tree@ == with_pages::<T, F>(base, range.start, k, v),
            pages_free::<T, F>(base, range.start, k, v),
            tree.spec_bump() == old(tree).spec_bump(),
        decreases addr,
    {
        addr = addr - range.step;
        proof {
            assert(k > 0);
            lemma_rollback::<T, F>(base, range.start, k, v);
            assert(page_key(range.start, k - 1) == addr);
            k = (k - 1) as nat;
        }
        let _ = tree.remove(addr);
    }
}

/// What a refusal `e` of filing `value` under `count` pages from
/// `start` in `tree` tells: one of the pages was taken, or the tree's
/// allocator refused a node.
pub open spec fn entries_refused<T: Copy, const F: usize>(
    tree: RTree<T, F>,
    start: usize,
    count: nat,
    value: T,
    e: LookupError,
) -> bool {
    e is Tree && match e->Tree_0 {
        RTreeError::AlreadyPresent => !pages_free::<T, F>(tree@, start, count, value),
        RTreeError::Bump(x) => tree.node_refused(x),
    }
}

/// What a refusal `e` of filing `value` under every page of `slice`
/// tells: the range reaches the last page of the address space, so
/// that its pages cannot be counted, or one of its pages was taken, or
/// the tree's allocator refused a node.
pub open spec fn filing_refused<T: Copy>(
    tree: RTree<T, FANOUT>,
    slice: crate::system::MemSlice,
    value: T,
    e: LookupError,
) -> bool {
    slice.len > 0 && if range_ok(slice) {
        entries_refused::<T, FANOUT>(
            tree,
            spec_range(slice).start,
            spec_range(slice).count(),
            value,
            e,
        )
    } else {
        e == LookupError::RangeOverflow || e == LookupError::Align(PrimError::Overflow)
    }
}

/// What a refusal `e` of filing `slice` in an arena's extent tree
/// under `info`, and then in the arena map under `arena`, tells: one
/// of the two refused it.
pub open spec fn both_refused(
    etree: ExtentTree,
    arena_map: ArenaMap,
    slice: crate::system::MemSlice,
    info: OwnerInfo,
    arena: ArenaId,
    e: LookupError,
) -> bool {
    filing_refused::<OwnerInfo>(etree.spec_tree(), slice, info, e) || filing_refused::<ArenaId>(
        arena_map.spec_tree(),
        slice,
        arena,
        e,
    )
}

/// Files `value` under every page of `range`. If one of the pages is
/// taken, or a node cannot be had, the tree is left as it was.
pub fn register_entries<T: Copy, const F: usize, S: System>(
    tree: &mut RTree<T, F>,
    sys: &S,
    range: &LookupRange,
    value: T,
) -> (r: Result<(), LookupError>)
    requires
        old(tree).wf(),
        range.wf(),
    ensures
        final(tree).wf(),
        match r {
            Ok(()) => final(tree)@ == with_pages::<T, F>(
                old(tree)@,
                range.start,
                range.count(),
                value,
            ) && pages_free::<T, F>(old(tree)@, range.start, range.count(), value),
            Err(e) => final(tree)@ == old(tree)@ && entries_refused::<T, F>(
                *old(tree),
                range.start,
                range.count(),
                value,
                e,
            ),
        },
        range.start >= range.end ==> r is Ok,
        range.start < range.end && old(tree)@.contains_key(crate::rtree::key_path(F, range.start)) ==> r
            == Err::<(), LookupError>(LookupError::Tree(RTreeError::AlreadyPresent)),
        final(tree).spec_bump().spec_chunk_size() == old(tree).spec_bump().spec_chunk_size(),
{
    let mut addr: usize = range.start;
    let ghost mut k: nat = 0;
    let ghost base = tree@;
    while addr < range.end
        invariant
            tree.wf(),
            range.wf(),
            base == old(tree)@,
            addr == range.start + k * COMMON_PAGE_SIZE,
            addr <= range.end,
            tree@ == with_pages::<T, F>(base, range.start, k, value),
            pages_free::<T, F>(base, range.start, k, value),
            tree.spec_bump().spec_chunk_size() == old(tree).spec_bump().spec_chunk_size(),
            base.contains_key(crate::rtree::key_path(F, range.start)) ==> k == 0,
        decreases range.end - addr,
    {
        proof {
            assert(page_key(range.start, k as int) == addr);
        }
        match tree.insert(sys, addr, value) {
            Ok(()) => {
                proof {
                    k = k + 1;
                }
                addr = addr + range.step;
            },
            Err(err) => {
                proof {
                    if err == RTreeError::AlreadyPresent && pages_free::<T, F>(
                        base,
                        range.start,
                        range.count(),
                        value,
                    ) {
                        lemma_pages_free_prefix::<T, F>(
                            base,
                            range.start,
                            k + 1,
                            range.count(),
                            value,
                        );
                    }
                }
                rollback_range(tree, range, addr, Ghost(base), Ghost(k), Ghost(value));
                return Err(LookupError::Tree(err));
            },
        }
    }
    Ok(())
}

/// If the first `n` pages are free, so are the first `k` of them.
pub proof fn lemma_pages_free_prefix<T: Copy, const F: usize>(
    m: Map<Seq<usize>, T>,
    start: usize,
    k: nat,
    n: nat,
    v: T,
)
    requires
        k <= n,
        pages_free::<T, F>(m, start, n, v),
    ensures
        pages_free::<T, F>(m, start, k, v),
    decreases n,
{
    if k < n {
        lemma_pages_free_prefix::<T, F>(m, start, k, (n - 1) as nat, v);
    }
}

/// Takes every page of `range` out of `tree`. Fails with `NotFound`
/// where none of them was filed.
pub fn unregister_entries<T: Copy, const F: usize>(tree: &mut RTree<T, F>, range: &LookupRange) -> (r:
    Result<(), LookupError>)
    requires
        old(tree).wf(),
        range.wf(),
    ensures
        final(tree).wf(),
        final(tree)@ == without_pages::<T, F>(old(tree)@, range.start, range.count()),
        r is Ok <==> exists|i: int|
            0 <= i < range.count() && old(tree)@.contains_key(
                crate::rtree::key_path(F, page_key(range.start, i)),
            ),
        r matches Err(e) ==> e == LookupError::NotFound,
{
    let mut removed_any: bool = false;
    let mut addr: usize = range.start;
    let ghost mut k: nat = 0;
    while addr < range.end
        invariant
            tree.wf(),
            range.wf(),
            addr == range.start + k * COMMON_PAGE_SIZE,
            addr <= range.end,
            tree@ == without_pages::<T, F>(old(tree)@, range.start, k),
            removed_any <==> exists|i: int|
                0 <= i < k && old(tree)@.contains_key(
                    crate::rtree::key_path(F, page_key(range.start, i)),
                ),
        decreases range.end - addr,
    {
        proof {
            assert(page_key(range.start, k as int) == addr);
            lemma_without_pages::<T, F>(
                old(tree)@,
                range.start,
                k,
                crate::rtree::key_path(F, addr),
            );
        }
        if tree.remove(addr).is_some() {
            removed_any = true;
        }
        proof {
            k = k + 1;
        }
        addr = addr + range.step;
    }
    if removed_any {
        Ok(())
    } else {
        Err(LookupError::NotFound)
    }
}

/// The fan-out of the ownership trees is one that a tree can be built with.
pub proof fn lemma_fanout_ok()
    ensures
        crate::rtree::fanout_ok(FANOUT),
{
    assert(512usize & ((512usize - 1) as usize) == 0) by (bit_vector);
    crate::math::lemma_single_bit_is_pow2(512);
}

/// The path of the page that holds `addr`.
pub open spec fn page_path(addr: usize) -> Seq<usize> {
    crate::rtree::key_path(
        FANOUT,
        crate::math::round_down(addr as int, COMMON_PAGE_SIZE as int) as usize,
    )
}

/// The pages that a non-empty range of addresses touches.
pub open spec fn spec_range(slice: crate::system::MemSlice) -> LookupRange {
    LookupRange {
        start: crate::math::round_down(slice.base as int, COMMON_PAGE_SIZE as int) as usize,
        end: crate::math::round_up(slice.base + slice.len, COMMON_PAGE_SIZE as int) as usize,
        step: COMMON_PAGE_SIZE,
    }
}

/// The map `m` with every page of `slice` filed under `v`.
pub open spec fn registered<T: Copy>(m: Map<Seq<usize>, T>, slice: crate::system::MemSlice, v: T) -> Map<
    Seq<usize>,
    T,
> {
    if slice.len == 0 {
        m
    } else {
        with_pages::<T, FANOUT>(m, spec_range(slice).start, spec_range(slice).count(), v)
    }
}

/// The map `m` without the pages of `slice`.
pub open spec fn unregistered<T: Copy>(m: Map<Seq<usize>, T>, slice: crate::system::MemSlice) -> Map<
    Seq<usize>,
    T,
> {
    if slice.len == 0 {
        m
    } else {
        without_pages::<T, FANOUT>(m, spec_range(slice).start, spec_range(slice).count())
    }
}

/// Taking the pages of `slice` out of a map into which they were filed
/// at free places gives back the map as it was.
pub proof fn lemma_unregister_registered<T: Copy>(
    m: Map<Seq<usize>, T>,
    slice: crate::system::MemSlice,
    v: T,
)
    requires
        slice.len > 0 ==> pages_free::<T, FANOUT>(
            m,
            spec_range(slice).start,
            spec_range(slice).count(),
            v,
        ),
    ensures
        unregistered(registered(m, slice, v), slice) == m,
{
    if slice.len > 0 {
        let start = spec_range(slice).start;
        let count = spec_range(slice).count();
        let full = with_pages::<T, FANOUT>(m, start, count, v);
        lemma_pages_absent::<T, FANOUT>(m, start, count, v);
        assert forall|p: Seq<usize>| #[trigger]
            without_pages::<T, FANOUT>(full, start, count).contains_key(p) == m.contains_key(p) && (
            m.contains_key(p) ==> without_pages::<T, FANOUT>(full, start, count)[p] == m[p]) by {
            lemma_without_pages::<T, FANOUT>(full, start, count, p);
            lemma_with_pages::<T, FANOUT>(m, start, count, v, p);
        }
        assert(without_pages::<T, FANOUT>(full, start, count) =~= m);
    }
}

/// Pages filed at free places were not in the map before.
pub proof fn lemma_pages_absent<T: Copy, const F: usize>(
    m: Map<Seq<usize>, T>,
    start: usize,
    count: nat,
    v: T,
)
    requires
        pages_free::<T, F>(m, start, count, v),
    ensures
        forall|i: int|
            0 <= i < count ==> !m.contains_key(
                #[trigger] crate::rtree::key_path(F, page_key(start, i)),
            ),
    decreases count,
{
    if count > 0 {
        lemma_pages_absent::<T, F>(m, start, (count - 1) as nat, v);
        let p = crate::rtree::key_path(F, page_key(start, count - 1));
        lemma_with_pages::<T, F>(m, start, (count - 1) as nat, v, p);
    }
}

/// The range of `slice` does not reach the last page of the address
/// space, so that its pages can be counted.
pub open spec fn range_ok(slice: crate::system::MemSlice) -> bool {
    slice.len > 0 && slice.base + slice.len + COMMON_PAGE_SIZE - 1 <= usize::MAX
}

/// Every address of `slice` resolves to `v` in `m`.
pub open spec fn filed_as<T: Copy>(m: Map<Seq<usize>, T>, slice: crate::system::MemSlice, v: T) -> bool {
    forall|x: usize|
        slice.contains(x as int) ==> m.contains_key(#[trigger] page_path(x)) && m[page_path(x)]
            == v
}

/// No address of `slice` resolves in `m`.
pub open spec fn unfiled<T: Copy>(m: Map<Seq<usize>, T>, slice: crate::system::MemSlice) -> bool {
    forall|x: usize| slice.contains(x as int) ==> !m.contains_key(#[trigger] page_path(x))
}

/// The pages of `x` and `y` are filed under one path.
pub open spec fn same_page(x: usize, y: usize) -> bool {
    page_path(x) == page_path(y)
}

/// No address of `a` shares the path of its page with an address of `b`.
pub open spec fn path_disjoint(a: crate::system::MemSlice, b: crate::system::MemSlice) -> bool {
    forall|x: usize, y: usize|
        a.contains(x as int) && b.contains(y as int) ==> !#[trigger] same_page(x, y)
}

/// The page of an address of `slice` is one of the pages of its range.
pub proof fn lemma_page_of(slice: crate::system::MemSlice, x: usize) -> (i: int)
    requires
        range_ok(slice),
        slice.contains(x as int),
    ensures
        0 <= i < spec_range(slice).count(),
        page_path(x) == crate::rtree::key_path(FANOUT, page_key(spec_range(slice).start, i)),
{
    let start = spec_range(slice).start as int;
    let page = crate::math::round_down(x as int, 4096);
    let i = (page - start) / 4096;
    assert(page_key(spec_range(slice).start, i) == page);
    i
}

/// Every page of the range of `slice` holds an address of `slice`.
pub proof fn lemma_page_in(slice: crate::system::MemSlice, i: int) -> (x: usize)
    requires
        range_ok(slice),
        0 <= i < spec_range(slice).count(),
    ensures
        slice.contains(x as int),
        page_path(x) == crate::rtree::key_path(FANOUT, page_key(spec_range(slice).start, i)),
{
    let start = spec_range(slice).start as int;
    let page = start + i * 4096;
    let x: usize = if page < slice.base {
        slice.base
    } else {
        page as usize
    };
    assert(crate::math::round_down(x as int, 4096) == page);
    x
}

/// After its pages were filed under `v`, every address of `slice` resolves to `v`.
pub proof fn lemma_registered_filed<T: Copy>(m: Map<Seq<usize>, T>, slice: crate::system::MemSlice, v: T)
    requires
        range_ok(slice),
    ensures
        filed_as(registered(m, slice, v), slice, v),
{
    assert forall|x: usize| slice.contains(x as int) implies registered(m, slice, v).contains_key(
        #[trigger] page_path(x),
    ) && registered(m, slice, v)[page_path(x)] == v by {
        let i = lemma_page_of(slice, x);
        lemma_with_pages::<T, FANOUT>(
            m,
            spec_range(slice).start,
            spec_range(slice).count(),
            v,
            page_path(x),
        );
    }
}

/// Pages that were free are the pages of addresses that did not resolve.
pub proof fn lemma_free_unfiled<T: Copy>(m: Map<Seq<usize>, T>, slice: crate::system::MemSlice, v: T)
    requires
        range_ok(slice),
        pages_free::<T, FANOUT>(m, spec_range(slice).start, spec_range(slice).count(), v),
    ensures
        unfiled(m, slice),
{
    lemma_pages_absent::<T, FANOUT>(m, spec_range(slice).start, spec_range(slice).count(), v);
    assert forall|x: usize| slice.contains(x as int) implies !m.contains_key(
        #[trigger] page_path(x),
    ) by {
        let i = lemma_page_of(slice, x);
    }
}

/// A range whose addresses resolve shares no page with a range whose
/// addresses do not, and the two do not overlap.
pub proof fn lemma_filed_unfiled_apart<T: Copy>(
    m: Map<Seq<usize>, T>,
    a: crate::system::MemSlice,
    b: crate::system::MemSlice,
    v: T,
)
    requires
        filed_as(m, a, v),
        unfiled(m, b),
    ensures
        path_disjoint(a, b),
        path_disjoint(b, a),
{
    assert forall|x: usize, y: usize| a.contains(x as int)
        && b.contains(y as int) implies !#[trigger] same_page(
        x,
        y,
    ) by {
        assert(m.contains_key(page_path(x)));
        assert(!m.contains_key(page_path(y)));
    }
    assert forall|x: usize, y: usize| b.contains(x as int)
        && a.contains(y as int) implies !#[trigger] same_page(
        x,
        y,
    ) by {
        assert(m.contains_key(page_path(y)));
        assert(!m.contains_key(page_path(x)));
    }
}

/// What resolves after the pages of `slice` were filed under `v`
/// resolved before, to the same value, or lies on a page of `slice`
/// and resolves to `v`.
pub proof fn lemma_registered_entry<T: Copy>(
    m: Map<Seq<usize>, T>,
    slice: crate::system::MemSlice,
    v: T,
    k: Seq<usize>,
)
    requires
        range_ok(slice),
        registered(m, slice, v).contains_key(k),
    ensures
        (m.contains_key(k) && registered(m, slice, v)[k] == m[k]) || (registered(m, slice, v)[k] == v
            && exists|x: usize| slice.contains(x as int) && #[trigger] page_path(x) == k),
{
    if slice.len != 0 {
        let start = spec_range(slice).start;
        let count = spec_range(slice).count();
        lemma_with_pages::<T, FANOUT>(m, start, count, v, k);
        if exists|i: int| 0 <= i < count && k == crate::rtree::key_path(FANOUT, page_key(start, i)) {
            let i = choose|i: int|
                0 <= i < count && k == crate::rtree::key_path(FANOUT, page_key(start, i));
            let x = lemma_page_in(slice, i);
            assert(slice.contains(x as int) && page_path(x) == k);
        }
    }
}

/// What resolves after the pages of `slice` were taken out resolved
/// before, to the same value.
pub proof fn lemma_unregistered_entry<T: Copy>(
    m: Map<Seq<usize>, T>,
    slice: crate::system::MemSlice,
    k: Seq<usize>,
)
    requires
        unregistered(m, slice).contains_key(k),
    ensures
        m.contains_key(k),
        unregistered(m, slice)[k] == m[k],
{
    if slice.len != 0 {
        lemma_without_pages::<T, FANOUT>(m, spec_range(slice).start, spec_range(slice).count(), k);
    }
}

/// What no longer resolves after the pages of `slice` were taken out
/// lay on a page of `slice`.
pub proof fn lemma_unregistered_gone<T: Copy>(
    m: Map<Seq<usize>, T>,
    slice: crate::system::MemSlice,
    k: Seq<usize>,
)
    requires
        range_ok(slice),
        m.contains_key(k),
        !unregistered(m, slice).contains_key(k),
    ensures
        exists|x: usize| slice.contains(x as int) && #[trigger] page_path(x) == k,
{
    if slice.len != 0 {
        let start = spec_range(slice).start;
        let count = spec_range(slice).count();
        lemma_without_pages::<T, FANOUT>(m, start, count, k);
        let i = choose|i: int|
            0 <= i < count && k == crate::rtree::key_path(FANOUT, page_key(start, i));
        let x = lemma_page_in(slice, i);
        assert(slice.contains(x as int) && page_path(x) == k);
    }
}

/// Filing pages that did not resolve leaves what resolved as it was.
pub proof fn lemma_registered_extends<T: Copy>(
    m: Map<Seq<usize>, T>,
    slice: crate::system::MemSlice,
    v: T,
    k: Seq<usize>,
)
    requires
        range_ok(slice),
        unfiled(m, slice),
        m.contains_key(k),
    ensures
        registered(m, slice, v).contains_key(k),
        registered(m, slice, v)[k] == m[k],
{
    if slice.len != 0 {
        let start = spec_range(slice).start;
        let count = spec_range(slice).count();
        lemma_with_pages::<T, FANOUT>(m, start, count, v, k);
        if exists|i: int| 0 <= i < count && k == crate::rtree::key_path(FANOUT, page_key(start, i)) {
            let i = choose|i: int|
                0 <= i < count && k == crate::rtree::key_path(FANOUT, page_key(start, i));
            let x = lemma_page_in(slice, i);
            assert(!m.contains_key(page_path(x)));
        }
    }
}

/// Ranges whose addresses resolve to different values share no page.
pub proof fn lemma_filed_differently_apart<T: Copy>(
    m: Map<Seq<usize>, T>,
    a: crate::system::MemSlice,
    va: T,
    b: crate::system::MemSlice,
    vb: T,
)
    requires
        filed_as(m, a, va),
        filed_as(m, b, vb),
        va != vb,
    ensures
        path_disjoint(a, b),
{
    assert forall|x: usize, y: usize| a.contains(x as int)
        && b.contains(y as int) implies !#[trigger] same_page(
        x,
        y,
    ) by {
        assert(m[page_path(x)] == va);
        assert(m[page_path(y)] == vb);
    }
}

/// Sharing no page is mutual.
pub proof fn lemma_path_disjoint_sym(a: crate::system::MemSlice, b: crate::system::MemSlice)
    requires
        path_disjoint(a, b),
    ensures
        path_disjoint(b, a),
{
    assert forall|x: usize, y: usize| b.contains(x as int)
        && a.contains(y as int) implies !#[trigger] same_page(
        x,
        y,
    ) by {
        assert(!same_page(y, x));
    }
}

/// Ranges that share no page do not overlap.
pub proof fn lemma_path_disjoint_apart(a: crate::system::MemSlice, b: crate::system::MemSlice)
    requires
        path_disjoint(a, b),
        a.wf(),
        b.wf(),
    ensures
        a.len == 0 || b.len == 0 || a.disjoint(b),
{
    if a.len > 0 && b.len > 0 && !a.disjoint(b) {
        let x: usize = if a.base < b.base {
            b.base
        } else {
            a.base
        };
        assert(a.contains(x as int) && b.contains(x as int));
        assert(!same_page(x, x));
    }
}

/// Filing the pages of `b` leaves what the addresses of `a` resolve to,
/// where the two share no page.
pub proof fn lemma_registered_keeps<T: Copy>(
    m: Map<Seq<usize>, T>,
    b: crate::system::MemSlice,
    w: T,
    a: crate::system::MemSlice,
)
    requires
        range_ok(b),
        path_disjoint(a, b),
    ensures
        forall|v: T| filed_as(m, a, v) ==> #[trigger] filed_as(registered(m, b, w), a, v),
        unfiled(m, a) ==> unfiled(registered(m, b, w), a),
{
    assert forall|x: usize| a.contains(x as int) implies registered(m, b, w).contains_key(
        #[trigger] page_path(x),
    ) == m.contains_key(page_path(x)) && (m.contains_key(page_path(x)) ==> registered(
        m,
        b,
        w,
    )[page_path(x)] == m[page_path(x)]) by {
        let p = page_path(x);
        lemma_with_pages::<T, FANOUT>(m, spec_range(b).start, spec_range(b).count(), w, p);
        if exists|i: int|
            0 <= i < spec_range(b).count() && p == crate::rtree::key_path(
                FANOUT,
                page_key(spec_range(b).start, i),
            ) {
            let i = choose|i: int|
                0 <= i < spec_range(b).count() && p == crate::rtree::key_path(
                    FANOUT,
                    page_key(spec_range(b).start, i),
                );
            let y = lemma_page_in(b, i);
            assert(!same_page(x, y));
        }
    }
}

/// Taking out the pages of `b` leaves what the addresses of `a` resolve
/// to, where the two share no page.
pub proof fn lemma_unregistered_keeps<T: Copy>(
    m: Map<Seq<usize>, T>,
    b: crate::system::MemSlice,
    a: crate::system::MemSlice,
)
    requires
        range_ok(b),
        path_disjoint(a, b),
    ensures
        forall|v: T| filed_as(m, a, v) ==> #[trigger] filed_as(unregistered(m, b), a, v),
        unfiled(m, a) ==> unfiled(unregistered(m, b), a),
{
    assert forall|x: usize| a.contains(x as int) implies unregistered(m, b).contains_key(
        #[trigger] page_path(x),
    ) == m.contains_key(page_path(x)) && (m.contains_key(page_path(x)) ==> unregistered(
        m,
        b,
    )[page_path(x)] == m[page_path(x)]) by {
        let p = page_path(x);
        lemma_without_pages::<T, FANOUT>(m, spec_range(b).start, spec_range(b).count(), p);
        if exists|i: int|
            0 <= i < spec_range(b).count() && p == crate::rtree::key_path(
                FANOUT,
                page_key(spec_range(b).start, i),
            ) {
            let i = choose|i: int|
                0 <= i < spec_range(b).count() && p == crate::rtree::key_path(
                    FANOUT,
                    page_key(spec_range(b).start, i),
                );
            let y = lemma_page_in(b, i);
            assert(!same_page(x, y));
        }
    }
}

/// After its pages were taken out, no address of `slice` resolves.
pub proof fn lemma_unregistered_unfiled<T: Copy>(m: Map<Seq<usize>, T>, slice: crate::system::MemSlice)
    requires
        range_ok(slice),
    ensures
        unfiled(unregistered(m, slice), slice),
{
    assert forall|x: usize| slice.contains(x as int) implies !unregistered(m, slice).contains_key(
        #[trigger] page_path(x),
    ) by {
        let i = lemma_page_of(slice, x);
        lemma_without_pages::<T, FANOUT>(
            m,
            spec_range(slice).start,
            spec_range(slice).count(),
            page_path(x),
        );
    }
}

/// The process-wide map from pages to the arena that owns them.
pub struct ArenaMap {
    tree: RTree<ArenaId, FANOUT>,
}

impl ArenaMap {
    pub closed spec fn wf(&self) -> bool {
        self.tree.wf()
    }

    /// The entries, by the path of their page.
    pub closed spec fn view(&self) -> Map<Seq<usize>, ArenaId> {
        self.tree@
    }

    /// The tree that holds the entries.
    pub closed spec fn spec_tree(&self) -> RTree<ArenaId, FANOUT> {
        self.tree
    }

    pub fn new(chunk_size: usize) -> (r: Self)
        ensures
            r.wf(),
            r@ == Map::<Seq<usize>, ArenaId>::empty(),
    {
        proof {
            lemma_fanout_ok();
        }
        Self { tree: RTree::new(chunk_size) }
    }

    /// Returns the memory of the map's nodes to the host.
    pub fn release<S: System>(self, sys: &S)
        requires
            self.wf(),
    {
        let _ = self.tree.release(sys);
    }

    pub fn tree(&self) -> (r: &RTree<ArenaId, FANOUT>)
        ensures
            r@ == self@,
            r.wf() == self.wf(),
    {
        &self.tree
    }

    /// Files `value` under every page of `extent`, or under none of them.
    pub fn associate<S: System>(&mut self, sys: &S, extent: &Extent, value: ArenaId) -> (r: Result<
        (),
        LookupError,
    >)
        requires
            old(self).wf(),
        ensures
            final(self).wf(),
            match r {
                Ok(()) => final(self)@ == registered(old(self)@, extent.slice, value) && (
                extent.slice.len > 0 ==> pages_free::<ArenaId, FANOUT>(
                    old(self)@,
                    spec_range(extent.slice).start,
                    spec_range(extent.slice).count(),
                    value,
                )),
                Err(e) => final(self)@ == old(self)@ && filing_refused::<ArenaId>(
                    old(self).spec_tree(),
                    extent.slice,
                    value,
                    e,
                ),
            },
            r is Ok && extent.slice.len > 0 ==> range_ok(extent.slice),
            extent.slice.len > 0 && !range_ok(extent.slice) ==> r is Err,
            extent.slice.len == 0 ==> r is Ok,
            range_ok(extent.slice) && old(self)@.contains_key(page_path(extent.slice.base)) ==> r
                == Err::<(), LookupError>(LookupError::Tree(RTreeError::AlreadyPresent)),
            final(self).spec_tree().spec_bump().spec_chunk_size()
                == old(self).spec_tree().spec_bump().spec_chunk_size(),
    {
        let range: LookupRange = match extent_range(extent) {
            Ok(Some(range)) => range,
            Ok(None) => return Ok(()),
            Err(e) => return Err(e),
        };
        register_entries(&mut self.tree, sys, &range, value)
    }

    /// Takes every page of `extent` out. Fails with `NotFound` where none was filed.
    pub fn detach(&mut self, extent: &Extent) -> (r: Result<(), LookupError>)
        requires
            old(self).wf(),
        ensures
            final(self).wf(),
            match r {
                Ok(()) => final(self)@ == unregistered(old(self)@, extent.slice),
                Err(LookupError::NotFound) => final(self)@ == unregistered(
                    old(self)@,
                    extent.slice,
                ) && final(self)@ == old(self)@,
                Err(_) => final(self)@ == old(self)@,
            },
            extent.slice.len == 0 ==> r is Ok,
            r matches Err(e) && e != LookupError::NotFound ==> extent.slice.len > 0 && !range_ok(
                extent.slice,
            ),
            r is Ok || r == Err::<(), LookupError>(LookupError::NotFound) ==> extent.slice.len == 0
                || range_ok(extent.slice),
    {
        let range: LookupRange = match extent_range(extent) {
            Ok(Some(range)) => range,
            Ok(None) => return Ok(()),
            Err(e) => return Err(e),
        };
        let r = unregister_entries(&mut self.tree, &range);
        proof {
            if r is Err {
                assert forall|p: Seq<usize>| #[trigger]
                    self@.contains_key(p) == old(self)@.contains_key(p) && (self@.contains_key(p)
                        ==> self@[p] == old(self)@[p]) by {
                    lemma_without_pages::<ArenaId, FANOUT>(
                        old(self)@,
                        range.start,
                        range.count(),
                        p,
                    );
                }
                assert(self@ =~= old(self)@);
            }
        }
        r
    }

    /// The entry of the page that holds `addr`.
    pub fn lookup(&self, addr: usize) -> (r: Option<ArenaId>)
        requires
            self.wf(),
        ensures
            r == if self@.contains_key(page_path(addr)) {
                Some(self@[page_path(addr)])
            } else {
                None
            },
    {
        proof {
            lemma_fanout_ok();
        }
        let aligned_addr: usize = match page_align_down(addr) {
            Ok(v) => v,
            Err(_) => return None,
        };
        match self.tree.lookup(aligned_addr) {
            Some(id) => Some(*id),
            None => None,
        }
    }
}

/// An arena's map from the pages of its extents to their owners.
pub struct ExtentTree {
    tree: RTree<OwnerInfo, FANOUT>,
}

impl ExtentTree {
    pub closed spec fn wf(&self) -> bool {
        self.tree.wf()
    }

    /// The entries, by the path of their page.
    pub closed spec fn view(&self) -> Map<Seq<usize>, OwnerInfo> {
        self.tree@
    }

    /// The tree that holds the entries.
    pub closed spec fn spec_tree(&self) -> RTree<OwnerInfo, FANOUT> {
        self.tree
    }

    pub fn new(chunk_size: usize) -> (r: Self)
        ensures
            r.wf(),
            r@ == Map::<Seq<usize>, OwnerInfo>::empty(),
    {
        proof {
            lemma_fanout_ok();
        }
        Self { tree: RTree::new(chunk_size) }
    }

    /// Returns the memory of the map's nodes to the host.
    pub fn release<S: System>(self, sys: &S)
        requires
            self.wf(),
    {
        let _ = self.tree.release(sys);
    }

    pub fn tree(&self) -> (r: &RTree<OwnerInfo, FANOUT>)
        ensures
            r@ == self@,
            r.wf() == self.wf(),
    {
        &self.tree
    }

    /// Files `value` under every page of `extent`, or under none of them.
    pub fn register<S: System>(&mut self, sys: &S, extent: &Extent, value: OwnerInfo) -> (r: Result<
        (),
        LookupError,
    >)
        requires
            old(self).wf(),
        ensures
            final(self).wf(),
            match r {
                Ok(()) => final(self)@ == registered(old(self)@, extent.slice, value) && (
                extent.slice.len > 0 ==> pages_free::<OwnerInfo, FANOUT>(
                    old(self)@,
                    spec_range(extent.slice).start,
                    spec_range(extent.slice).count(),
                    value,
                )),
                Err(e) => final(self)@ == old(self)@ && filing_refused::<OwnerInfo>(
                    old(self).spec_tree(),
                    extent.slice,
                    value,
                    e,
                ),
            },
            r is Ok && extent.slice.len > 0 ==> range_ok(extent.slice),
            extent.slice.len > 0 && !range_ok(extent.slice) ==> r is Err,
            extent.slice.len == 0 ==> r is Ok,
            range_ok(extent.slice) && old(self)@.contains_key(page_path(extent.slice.base)) ==> r
                == Err::<(), LookupError>(LookupError::Tree(RTreeError::AlreadyPresent)),
            final(self).spec_tree().spec_bump().spec_chunk_size()
                == old(self).spec_tree().spec_bump().spec_chunk_size(),
    {
        let range: LookupRange = match extent_range(extent) {
            Ok(Some(range)) => range,
            Ok(None) => return Ok(()),
            Err(e) => return Err(e),
        };
        register_entries(&mut self.tree, sys, &range, value)
    }

    /// Takes every page of `extent` out. Fails with `NotFound` where none was filed.
    pub fn unregister(&mut self, extent: &Extent) -> (r: Result<(), LookupError>)
        requires
            old(self).wf(),
        ensures
            final(self).wf(),
            match r {
                Ok(()) => final(self)@ == unregistered(old(self)@, extent.slice),
                Err(LookupError::NotFound) => final(self)@ == unregistered(
                    old(self)@,
                    extent.slice,
                ) && final(self)@ == old(self)@,
                Err(_) => final(self)@ == old(self)@,
            },
            extent.slice.len == 0 ==> r is Ok,
            r matches Err(e) && e != LookupError::NotFound ==> extent.slice.len > 0 && !range_ok(
                extent.slice,
            ),
            r is Ok || r == Err::<(), LookupError>(LookupError::NotFound) ==> extent.slice.len == 0
                || range_ok(extent.slice),
    {
        let range: LookupRange = match extent_range(extent) {
            Ok(Some(range)) => range,
            Ok(None) => return Ok(()),
            Err(e) => return Err(e),
        };
        let r = unregister_entries(&mut self.tree, &range);
        proof {
            if r is Err {
                assert forall|p: Seq<usize>| #[trigger]
                    self@.contains_key(p) == old(self)@.contains_key(p) && (self@.contains_key(p)
                        ==> self@[p] == old(self)@[p]) by {
                    lemma_without_pages::<OwnerInfo, FANOUT>(
                        old(self)@,
                        range.start,
                        range.count(),
                        p,
                    );
                }
                assert(self@ =~= old(self)@);
            }
        }
        r
    }

    /// The entry of the page that holds `addr`.
    pub fn lookup(&self, addr: usize) -> (r: Option<&OwnerInfo>)
        requires
            self.wf(),
        ensures
            match r {
                Some(info) => self@.contains_key(page_path(addr)) && *info == self@[page_path(addr)],
                None => !self@.contains_key(page_path(addr)),
            },
    {
        proof {
            lemma_fanout_ok();
        }
        let aligned_addr: usize = match page_align_down(addr) {
            Ok(v) => v,
            Err(_) => return None,
        };
        self.tree.lookup(aligned_addr)
    }
}

/// What a pointer resolves to: the arena, and the owner within it.
#[derive(Clone, Copy, Debug, PartialEq, Eq, Structural)]
pub struct LookupResult {
    pub arena_id: ArenaId,
    pub owner_info: OwnerInfo,
}

impl LookupResult {
    pub fn new(arena_id: ArenaId, owner_info: OwnerInfo) -> (r: Self)
        ensures
            r == (LookupResult { arena_id, owner_info }),
    {
        Self { arena_id, owner_info }
    }
}

} // verus!
