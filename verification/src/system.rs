use vstd::prelude::*;
use crate::prim::COMMON_PAGE_SIZE;

verus! {

#[derive(Clone, Copy, Debug, PartialEq, Eq, Structural)]
pub enum SysError {
    Unsupported,
    OutOfMemory,
    InvalidArgument,
}

/// What the caller wants of a mapping: usable memory, address space only,
/// or its physical pages returned while the range stays reserved.
#[derive(Clone, Copy, Debug, PartialEq, Eq, Structural)]
pub enum SysOption {
    Commit,
    Reserve,
    Reclaim,
}

pub type SysResult<T> = Result<T, SysError>;

/// A contiguous range of addresses handed out by a `System`.
#[derive(Clone, Copy, Debug, PartialEq, Eq, Structural)]
pub struct MemSlice {
    pub base: usize,
    pub len: usize,
}

impl MemSlice {
    /// One past the last address of the range.
    pub open spec fn end(self) -> int {
        self.base + self.len
    }

    /// The range lies inside the address space.
    pub open spec fn wf(self) -> bool {
        self.base + self.len <= usize::MAX
    }

    pub open spec fn contains(self, addr: int) -> bool {
        self.base <= addr < self.base + self.len
    }

    pub open spec fn disjoint(self, other: MemSlice) -> bool {
        self.end() <= other.base || other.end() <= self.base
    }

    /// What a fresh mapping of `size` bytes looks like.
    pub open spec fn fresh(self, size: usize) -> bool {
        &&& self.len == size
        &&& self.wf()
        &&& self.base % COMMON_PAGE_SIZE == 0
        &&& size > 0 ==> self.base != 0
    }

    pub fn empty() -> (r: MemSlice)
        ensures
            r == (MemSlice { base: 0, len: 0 }),
    {
        MemSlice { base: 0, len: 0 }
    }

    /// The address of the first byte.
    pub fn as_ptr(&self) -> (r: usize)
        ensures
            r == self.base,
    {
        self.base
    }

    pub fn len(&self) -> (r: usize)
        ensures
            r == self.len,
    {
        self.len
    }

    pub fn is_empty(&self) -> (r: bool)
        ensures
            r == (self.len == 0),
    {
        self.len == 0
    }
}

/// The memory primitive of the host. Implementations map, change and
/// release page-granular ranges; the allocator is written against this
/// contract alone.
pub trait System {
    /// Maps `size` bytes. On success the range has the requested length,
    /// starts on a page boundary and does not wrap around the address space.
    fn allocate(&self, size: usize, options: SysOption) -> (r: SysResult<MemSlice>)
        ensures
            r matches Ok(s) ==> s.fresh(size),
    ;

    /// Changes the disposition of an existing mapping.
    fn modify(&self, slice: MemSlice, options: SysOption) -> (r: SysResult<()>);

    /// Releases a mapping.
    fn dealloc(&self, slice: MemSlice) -> (r: SysResult<()>);
}

/// A host without a memory primitive: every request is refused.
pub struct UnsupportedSystem {}

impl System for UnsupportedSystem {
    fn allocate(&self, size: usize, options: SysOption) -> (r: SysResult<MemSlice>)
        ensures
            r == Err::<MemSlice, SysError>(SysError::Unsupported),
    {
        Err(SysError::Unsupported)
    }

    fn modify(&self, slice: MemSlice, options: SysOption) -> (r: SysResult<()>)
        ensures
            r == Err::<(), SysError>(SysError::Unsupported),
    {
        Err(SysError::Unsupported)
    }

    fn dealloc(&self, slice: MemSlice) -> (r: SysResult<()>)
        ensures
            r == Err::<(), SysError>(SysError::Unsupported),
    {
        Err(SysError::Unsupported)
    }
}

} // verus!
