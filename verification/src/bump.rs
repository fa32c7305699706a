use vstd::prelude::*;
use crate::extent::{Extent, ExtentError};
use crate::fixed::{Fixed, FixedError};
use crate::layout::{Layout, LayoutError};
use crate::list::{HasLink, Link, List};
use crate::math::align_up;
use crate::prim::{page_align, PrimError, COMMON_PAGE_SIZE};
use crate::system::{MemSlice, SysOption, System};

verus! {

#[derive(Clone, Copy, Debug, PartialEq, Eq, Structural)]
pub enum ChunkError {
    ExtentError(ExtentError),
    PrimError(PrimError),
    FixedError(FixedError),
    Overflow,
}

pub type ChunkResult<T> = Result<T, ChunkError>;

/// Bytes that a chunk keeps for its own header at the start of its extent.
pub const CHUNK_HEADER_SIZE: usize = 64;

/// Alignment of a chunk's header.
pub const CHUNK_HEADER_ALIGN: usize = 8;

/// One extent of the metadata allocator: a header, then blocks handed out
/// front to back.
#[derive(Clone, Copy, Debug, PartialEq, Eq, Structural)]
pub struct Chunk {
    pub link: Link,
    pub fixed: Fixed,
    pub extent: Extent,
}

impl Chunk {
    /// The bump pointer spans the extent and has not run past its end.
    pub open spec fn wf(&self) -> bool {
        &&& self.extent.slice.wf()
        &&& self.fixed.max == self.extent.slice.len
        &&& self.fixed.offset <= self.fixed.max
    }

    /// The layout of the header.
    fn self_layout() -> (r: Result<Layout, LayoutError>)
        ensures
            r matches Ok(l) && l.spec_size() == CHUNK_HEADER_SIZE && l.spec_align()
                == CHUNK_HEADER_ALIGN,
    {
        proof {
            assert(8usize & ((8usize - 1) as usize) == 0) by (bit_vector);
            crate::math::lemma_single_bit_is_pow2(8);
        }
        Layout::from_size_align(CHUNK_HEADER_SIZE, CHUNK_HEADER_ALIGN)
    }

    /// The offset of the first page behind the header.
    fn data_offset() -> (r: ChunkResult<usize>)
        ensures
            r == Ok::<usize, ChunkError>(COMMON_PAGE_SIZE),
    {
        let layout: Layout = match Self::self_layout() {
            Ok(l) => l,
            Err(_) => return Err(ChunkError::Overflow),
        };
        let size: usize = layout.size();
        let align: usize = layout.align();
        proof {
            crate::math::lemma_align_up_bounds(size, align);
            crate::prim::lemma_page_size_is_pow2();
        }
        let aligned: usize = match align_up(size, align) {
            Some(v) => v,
            None => return Err(ChunkError::PrimError(PrimError::Overflow)),
        };
        proof {
            crate::math::lemma_align_up_bounds(aligned, COMMON_PAGE_SIZE);
        }
        match page_align(aligned) {
            Ok(v) => Ok(v),
            Err(e) => Err(ChunkError::PrimError(e)),
        }
    }

    /// Maps a committed extent of `size` bytes and places the header at its start.
    pub fn new<S: System>(sys: &S, size: usize) -> (r: ChunkResult<Chunk>)
        ensures
            match r {
                Ok(c) => c.wf() && c.extent.slice.fresh(size) && c.extent.activated && c.fixed.offset
                    == CHUNK_HEADER_SIZE && c.link == Link::unlinked() && size
                    >= CHUNK_HEADER_SIZE,
                Err(e) => (e is ExtentError && e->ExtentError_0 is SystemError) || (e
                    == ChunkError::FixedError(FixedError::OutOfMemory) && size < CHUNK_HEADER_SIZE),
            },
    {
        let extent: Extent = match Extent::new(sys, size, SysOption::Commit) {
            Ok(v) => v,
            Err(e) => return Err(ChunkError::ExtentError(e)),
        };
        let mut fixed: Fixed = Fixed::new(extent.as_ref());
        proof {
            assert(extent.slice.base % 8 == 0) by {
                assert(extent.slice.base % 4096 == 0);
            }
            assert(8usize & ((8usize - 1) as usize) == 0) by (bit_vector);
            crate::math::lemma_single_bit_is_pow2(8);
            crate::math::lemma_align_up_bounds(extent.slice.base, 8);
        }
        let created: Result<usize, FixedError> = match Self::self_layout() {
            Ok(layout) => fixed.create(extent.as_ref(), layout),
            Err(_) => Err(FixedError::Invalid),
        };
        match created {
            Ok(_) => Ok(Chunk { link: Link::default(), fixed, extent }),
            Err(e) => {
                let _ = extent.release(sys);
                Err(ChunkError::FixedError(e))
            },
        }
    }

    /// Reserves room for one value of the given layout and returns its address.
    pub fn create(&mut self, layout: Layout) -> (r: ChunkResult<usize>)
        requires
            old(self).wf(),
        ensures
            final(self).wf(),
            final(self).extent == old(self).extent,
            final(self).link == old(self).link,
            final(self).fixed.offset == crate::fixed::spec_allocate(
                old(self).fixed.max,
                old(self).fixed.offset,
                old(self).extent.slice,
                layout.spec_size(),
                layout.spec_align(),
            ).1,
            r == match crate::fixed::spec_allocate(
                old(self).fixed.max,
                old(self).fixed.offset,
                old(self).extent.slice,
                layout.spec_size(),
                layout.spec_align(),
            ).0 {
                Ok(s) => Ok::<usize, ChunkError>(s.base),
                Err(e) => Err(ChunkError::FixedError(e)),
            },
    {
        match self.allocate(layout) {
            Ok(slot) => Ok(slot.as_ptr()),
            Err(e) => Err(e),
        }
    }

    /// Hands out the next block of the given layout.
    pub fn allocate(&mut self, layout: Layout) -> (r: ChunkResult<MemSlice>)
        requires
            old(self).wf(),
        ensures
            final(self).wf(),
            final(self).extent == old(self).extent,
            final(self).link == old(self).link,
            final(self).fixed.offset >= old(self).fixed.offset,
            final(self).fixed.offset == crate::fixed::spec_allocate(
                old(self).fixed.max,
                old(self).fixed.offset,
                old(self).extent.slice,
                layout.spec_size(),
                layout.spec_align(),
            ).1,
            r == match crate::fixed::spec_allocate(
                old(self).fixed.max,
                old(self).fixed.offset,
                old(self).extent.slice,
                layout.spec_size(),
                layout.spec_align(),
            ).0 {
                Ok(s) => Ok::<MemSlice, ChunkError>(s),
                Err(e) => Err(ChunkError::FixedError(e)),
            },
            r matches Ok(s) ==> {
                &&& s.len == layout.spec_size()
                &&& s.base % layout.spec_align() == 0
                &&& s.base >= old(self).extent.slice.base + old(self).fixed.offset
                &&& s.base + s.len == old(self).extent.slice.base + final(self).fixed.offset
            },
            r is Err ==> *final(self) == *old(self),
    {
        let extent_slice: MemSlice = self.extent.slice;
        proof {
            crate::fixed::lemma_failure_keeps_offset(
                self.fixed.max,
                self.fixed.offset,
                extent_slice,
                layout.spec_size(),
                layout.spec_align(),
            );
        }
        match self.fixed.allocate(&extent_slice, layout) {
            Ok(s) => Ok(s),
            Err(e) => Err(ChunkError::FixedError(e)),
        }
    }
}

impl HasLink for Chunk {
    open spec fn spec_link(&self) -> Link {
        self.link
    }

    open spec fn with_link(&self, link: Link) -> Self {
        Chunk { link, fixed: self.fixed, extent: self.extent }
    }

    proof fn lemma_with_link(&self, a: Link, b: Link) {
    }

    fn link(&self) -> (r: &Link) {
        &self.link
    }

    fn link_mut(&mut self) -> (r: &mut Link) {
        &mut self.link
    }
}

pub type BumpError = ChunkError;

pub type BumpResult<T> = Result<T, BumpError>;

/// The metadata allocator: a chain of chunks, the last of which serves
/// requests until it is full.
#[derive(Debug)]
pub struct Bump {
    chunks: Vec<Chunk>,
    head: Option<usize>,
    tail: Option<usize>,
    chunk_size: usize,
}

/// The link of the `i`-th chunk in a chain of `len` chunks.
pub open spec fn chain_link(i: int, len: int) -> Link {
    Link {
        next: if i + 1 < len {
            Some((i + 1) as usize)
        } else {
            None
        },
        prev: if i > 0 {
            Some((i - 1) as usize)
        } else {
            None
        },
    }
}

impl Bump {
    /// The chunks, oldest first.
    pub closed spec fn view(&self) -> Seq<Chunk> {
        self.chunks@
    }

    pub closed spec fn spec_chunk_size(&self) -> usize {
        self.chunk_size
    }

    /// The chunks form one chain in the order in which they were mapped,
    /// and head and tail name its ends.
    pub closed spec fn wf(&self) -> bool {
        &&& self.chunks@.len() == 0 ==> self.head is None && self.tail is None
        &&& self.chunks@.len() > 0 ==> self.head == Some(0usize) && self.tail is Some
        &&& self.tail matches Some(t) ==> t + 1 == self.chunks@.len()
        &&& forall|i: int|
            0 <= i < self.chunks@.len() ==> (#[trigger] self.chunks@[i]).wf() && self.chunks@[i].link
                == chain_link(i, self.chunks@.len() as int)
    }

    /// A chunk that was mapped for a block serves it from behind its
    /// header, where the block's alignment is at most a page.
    pub proof fn lemma_fresh_chunk_serves(c: Chunk, size: usize, align: usize)
        requires
            c.wf(),
            c.fixed.offset == CHUNK_HEADER_SIZE,
            c.extent.slice.base % COMMON_PAGE_SIZE == 0,
            c.extent.slice.len % COMMON_PAGE_SIZE == 0,
            c.extent.slice.len >= COMMON_PAGE_SIZE + size,
            vstd::arithmetic::power2::is_pow2(align as int),
            align <= COMMON_PAGE_SIZE,
        ensures
            crate::fixed::spec_allocate(c.fixed.max, c.fixed.offset, c.extent.slice, size, align).0
                is Ok,
    {
        let base = c.extent.slice.base;
        let len = c.extent.slice.len;
        crate::math::lemma_single_bit_is_pow2(align);
        assert(4096usize % align == 0) by (bit_vector)
            requires
                align != 0,
                align & ((align - 1) as usize) == 0,
                align <= 4096,
        ;
        let page = (base + 4096) as int;
        assert(page % 4096 == 0);
        assert(base + len <= usize::MAX - 4095) by {
            assert((base + len) % 4096 == 0);
        }
        let times: int = 4096int / (align as int);
        vstd::arithmetic::div_mod::lemma_fundamental_div_mod(4096int, align as int);
        assert(4096int == (align as int) * times);
        assert(times > 0) by (nonlinear_arith)
            requires
                4096int == (align as int) * times,
                align > 0,
        ;
        vstd::arithmetic::div_mod::lemma_mod_mod(page, align as int, times);
        assert(page % (align as int) == 0);
        let value = (base + CHUNK_HEADER_SIZE) as usize;
        crate::math::lemma_align_up_bounds(value, align);
        crate::math::lemma_round_up_is_least(value as int, align as int);
        let aligned = crate::math::round_up(value as int, align as int);
        assert(aligned <= (page % (align as int)) + page);
    }

    /// What a refusal `e` of a block of `size` bytes at `align` tells: the newest chunk
    /// could not serve it, and either the chunk to map for it has no
    /// size that fits a word, which is the error, or the host refused
    /// the chunk, or mapped it where a block that is aligned to more
    /// than a page does not fit.
    pub open spec fn refused(&self, size: usize, align: usize, e: ChunkError) -> bool {
        !self.tail_fits(size, align) && Self::chunk_refused(self.spec_chunk_size(), size, align, e)
    }

    /// What a refusal `e` of a chunk for a block of `size` bytes at
    /// `align` tells, whatever the chain holds: the chunk has no size
    /// that fits a word, which is the error, or the host refused it, or
    /// mapped it where a block that is aligned to more than a page does
    /// not fit.
    pub open spec fn chunk_refused(chunk_size: usize, size: usize, align: usize, e: ChunkError) -> bool {
        match Self::spec_chunk_bytes(chunk_size, size, align) {
            Err(x) => e == x,
            Ok(_) => (e is ExtentError && e->ExtentError_0 is SystemError) || (e is FixedError && align
                > COMMON_PAGE_SIZE),
        }
    }

    /// The chain is as long as it was in `before`, or the newest chunk
    /// of `before` could not serve `size` bytes at `align` and the chain
    /// has one chunk more: a committed extent of exactly the bytes of
    /// `spec_chunk_bytes`. A chain whose newest chunk can serve does
    /// not grow.
    pub open spec fn grew_for(&self, before: Bump, size: usize, align: usize) -> bool {
        self@.len() == before@.len() || {
            &&& self@.len() == before@.len() + 1
            &&& !before.tail_fits(size, align)
            &&& Self::spec_chunk_bytes(before.spec_chunk_size(), size, align) is Ok
            &&& self@.last().extent.slice.fresh(
                Self::spec_chunk_bytes(before.spec_chunk_size(), size, align)->Ok_0,
            )
            &&& self@.last().extent.activated
        }
    }

    /// Whether the newest chunk can serve `layout` as it stands.
    pub open spec fn tail_serves(&self, layout: Layout) -> bool {
        self.tail_fits(layout.spec_size(), layout.spec_align())
    }

    /// Whether the newest chunk can serve `size` bytes at `align` as it stands.
    pub open spec fn tail_fits(&self, size: usize, align: usize) -> bool {
        self@.len() > 0 && crate::fixed::spec_allocate(
            self@.last().fixed.max,
            self@.last().fixed.offset,
            self@.last().extent.slice,
            size,
            align,
        ).0 is Ok
    }

    pub fn new(chunk_size: usize) -> (r: Self)
        ensures
            r.wf(),
            r@.len() == 0,
            r.spec_chunk_size() == chunk_size,
    {
        Self { chunks: Vec::new(), head: None, tail: None, chunk_size }
    }

    pub fn chunk_size(&self) -> (r: usize)
        ensures
            r == self.spec_chunk_size(),
    {
        self.chunk_size
    }

    /// The number of chunks mapped so far.
    pub fn chunk_count(&self) -> (r: usize)
        ensures
            r == self@.len(),
    {
        self.chunks.len()
    }

    /// The bytes of the chunk that is mapped for a block of `size`
    /// bytes at `align` by an allocator with chunks of `chunk_size`
    /// bytes: the larger of `chunk_size` and the page of the header with
    /// the block behind it, the block's size rounded up to its
    /// alignment, in whole pages.
    /// Where a sum does not fit a word the answer is `Overflow`, and
    /// where the whole pages do not, the `Overflow` of the page rounding.
    pub open spec fn spec_chunk_bytes(chunk_size: usize, size: usize, align: usize) -> ChunkResult<
        usize,
    > {
        match crate::math::spec_align_up(size, align) {
            None => Err(ChunkError::Overflow),
            Some(aligned) => if COMMON_PAGE_SIZE + aligned > usize::MAX {
                Err(ChunkError::Overflow)
            } else {
                let required = (COMMON_PAGE_SIZE + aligned) as usize;
                let wanted = if chunk_size > required {
                    chunk_size
                } else {
                    required
                };
                match crate::math::spec_align_up(wanted, COMMON_PAGE_SIZE) {
                    Some(bytes) => Ok(bytes),
                    None => Err(ChunkError::PrimError(crate::prim::PrimError::Overflow)),
                }
            },
        }
    }

    /// The bytes of the chunk to map for a block of `layout`.
    fn chunk_bytes(&self, layout: Layout) -> (r: BumpResult<usize>)
        ensures
            r == Self::spec_chunk_bytes(
                self.spec_chunk_size(),
                layout.spec_size(),
                layout.spec_align(),
            ),
            r matches Ok(bytes) ==> bytes >= self.spec_chunk_size() && bytes >= COMMON_PAGE_SIZE
                + layout.spec_size() && bytes % COMMON_PAGE_SIZE == 0,
    {
        let header: usize = match Chunk::data_offset() {
            Ok(v) => v,
            Err(e) => return Err(e),
        };
        let aligned: usize = match align_up(layout.size(), layout.align()) {
            Some(v) => v,
            None => return Err(ChunkError::Overflow),
        };
        let required: usize = match header.checked_add(aligned) {
            Some(v) => v,
            None => return Err(ChunkError::Overflow),
        };
        let chunk_size: usize = if self.chunk_size > required {
            self.chunk_size
        } else {
            required
        };
        match page_align(chunk_size) {
            Ok(v) => Ok(v),
            Err(e) => Err(ChunkError::PrimError(e)),
        }
    }

    /// Maps a chunk large enough for its header and one block of
    /// `layout`. A size that does not fit a word is refused before the
    /// host is asked; else the host decides, and what it maps has
    /// exactly the bytes of `spec_chunk_bytes`, with the header placed.
    fn obtain_chunk<S: System>(&self, sys: &S, layout: Layout) -> (r: BumpResult<Chunk>)
        ensures
            r matches Ok(c) ==> c.wf() && c.fixed.offset == CHUNK_HEADER_SIZE && c.link
                == Link::unlinked() && c.extent.slice.len >= self.spec_chunk_size()
                && c.extent.slice.len >= COMMON_PAGE_SIZE + layout.spec_size()
                && c.extent.slice.len % COMMON_PAGE_SIZE == 0 && c.extent.slice.base
                % COMMON_PAGE_SIZE == 0,
            match Self::spec_chunk_bytes(
                self.spec_chunk_size(),
                layout.spec_size(),
                layout.spec_align(),
            ) {
                Err(e) => r == Err::<Chunk, ChunkError>(e),
                Ok(bytes) => match r {
                    Ok(c) => c.extent.slice.fresh(bytes) && c.extent.activated,
                    Err(e) => e is ExtentError && e->ExtentError_0 is SystemError,
                },
            },
    {
        let bytes: usize = match self.chunk_bytes(layout) {
            Ok(v) => v,
            Err(e) => return Err(e),
        };
        Chunk::new(sys, bytes)
    }

    /// Reserves room for one value of the given layout and returns its address.
    pub fn create<S: System>(&mut self, sys: &S, layout: Layout) -> (r: BumpResult<usize>)
        requires
            old(self).wf(),
        ensures
            final(self).wf(),
            final(self).spec_chunk_size() == old(self).spec_chunk_size(),
            old(self).tail_serves(layout) ==> r is Ok,
            r matches Ok(p) ==> p % layout.spec_align() == 0 && final(self).serves_from_tail(
                *old(self),
                MemSlice { base: p, len: layout.spec_size() },
            ),
            r is Err ==> final(self)@.len() == old(self)@.len(),
            r matches Err(e) ==> old(self).refused(
                layout.spec_size(),
                layout.spec_align(),
                e,
            ) && final(self)@ == old(self)@,
            final(self).grew_for(*old(self), layout.spec_size(), layout.spec_align()),
    {
        match self.allocate(sys, layout) {
            Ok(bytes) => Ok(bytes.as_ptr()),
            Err(e) => Err(e),
        }
    }

    /// What it means that the block `s` was just served: it lies in the
    /// newest chunk, behind everything that chunk had handed out before,
    /// and the older chunks are as they were.
    pub open spec fn serves_from_tail(&self, before: Bump, s: MemSlice) -> bool {
        let t = self@.last();
        &&& self@.len() > 0
        &&& s.base + s.len == t.extent.slice.base + t.fixed.offset
        &&& t.extent.slice.base + t.fixed.offset <= t.extent.slice.base + t.extent.slice.len
        &&& if self@.len() == before@.len() {
            &&& t.extent == before@.last().extent
            &&& s.base >= t.extent.slice.base + before@.last().fixed.offset
            &&& self@.drop_last() == before@.drop_last()
        } else {
            &&& self@.len() == before@.len() + 1
            &&& s.base >= t.extent.slice.base + CHUNK_HEADER_SIZE
            &&& forall|i: int|
                0 <= i < before@.len() ==> (#[trigger] self@[i]).extent == before@[i].extent
                    && self@[i].fixed == before@[i].fixed
        }
    }

    /// Hands out a block of the given layout: from the newest chunk where
    /// it fits, else from a chunk mapped for the purpose.
    pub fn allocate<S: System>(&mut self, sys: &S, layout: Layout) -> (r: BumpResult<MemSlice>)
        requires
            old(self).wf(),
        ensures
            final(self).wf(),
            final(self).spec_chunk_size() == old(self).spec_chunk_size(),
            old(self).tail_serves(layout) ==> r is Ok,
            r matches Ok(s) ==> s.len == layout.spec_size() && s.base % layout.spec_align() == 0
                && final(self).serves_from_tail(*old(self), s),
            r is Err ==> final(self)@.len() == old(self)@.len(),
            r matches Err(e) ==> old(self).refused(
                layout.spec_size(),
                layout.spec_align(),
                e,
            ) && final(self)@ == old(self)@,
            final(self).grew_for(*old(self), layout.spec_size(), layout.spec_align()),
    {
        if let Some(tail) = self.tail {
            assert(self.chunks@[tail as int].wf());
            let served: ChunkResult<MemSlice> = self.chunks[tail].allocate(layout);
            if let Ok(slice) = served {
                proof {
                    assert(self@.drop_last() =~= old(self)@.drop_last());
                }
                return Ok(slice);
            }
            proof {
                assert(self@ =~= old(self)@);
            }
        }
        let mut new_chunk: Chunk = match self.obtain_chunk(sys, layout) {
            Ok(v) => v,
            Err(e) => return Err(e),
        };
        let align: usize = layout.align();
        proof {
            if align <= COMMON_PAGE_SIZE {
                Self::lemma_fresh_chunk_serves(new_chunk, layout.spec_size(), align);
            }
        }
        let slice: MemSlice = match new_chunk.allocate(layout) {
            Ok(v) => v,
            Err(e) => {
                let _ = new_chunk.extent.release(sys);
                return Err(e);
            },
        };
        let ghost before = self.chunks@;
        self.chunks.push(new_chunk);
        let id: usize = self.chunks.len() - 1;
        if let Some(tail) = self.tail {
            proof {
                assert forall|i: int| 0 <= i < self.chunks@.len() implies (
                #[trigger] crate::list::links_of(self.chunks@)[i]).within(
                    self.chunks@.len() as int,
                ) by {
                    if i < before.len() {
                        assert(before[i].wf());
                    }
                }
            }
            let ghost pushed = self.chunks@;
            List::insert_after(&mut self.chunks, id, tail);
            proof {
                let links = crate::list::links_of(self.chunks@);
                assert forall|i: int| 0 <= i < self.chunks@.len() implies (
                #[trigger] self.chunks@[i]).wf() && self.chunks@[i].link == chain_link(
                    i,
                    self.chunks@.len() as int,
                ) by {
                    assert(self.chunks@[i] == pushed[i].with_link(links[i]));
                    if i < before.len() {
                        assert(before[i].wf());
                    }
                }
            }
        } else {
            self.head = Some(id);
        }
        self.tail = Some(id);
        proof {
            assert forall|i: int| 0 <= i < old(self)@.len() implies (#[trigger] self@[i]).extent
                == old(self)@[i].extent && self@[i].fixed == old(self)@[i].fixed by {
                assert(before[i].wf());
            }
        }
        Ok(slice)
    }

    /// Returns every chunk to the host, oldest first. Returns how many the
    /// host took back.
    pub fn release<S: System>(self, sys: &S) -> (r: usize)
        requires
            self.wf(),
        ensures
            r <= self@.len(),
    {
        let mut released: usize = 0;
        let mut current: Option<usize> = self.head;
        let mut steps: usize = 0;
        let n: usize = self.chunks.len();
        while current.is_some() && steps < n
            invariant
                n == self.chunks@.len(),
                released <= steps <= n,
                current matches Some(i) ==> i < n,
                self.wf(),
            decreases n - steps,
        {
            let i: usize = current.unwrap();
            let chunk: Chunk = self.chunks[i];
            assert(self.chunks@[i as int].wf());
            current = chunk.link.next();
            if chunk.extent.release(sys).is_ok() {
                released = released + 1;
            }
            steps = steps + 1;
        }
        released
    }
}

} // verus!
