use vstd::prelude::*;
use crate::layout::Layout;
use crate::math::align_up;
use crate::system::MemSlice;

verus! {

#[derive(Clone, Copy, Debug, PartialEq, Eq, Structural)]
pub enum FixedError {
    OutOfMemory,
    Invalid,
}

pub type FixedResult<T> = Result<T, FixedError>;

/// A bump pointer over a buffer of `max` bytes: allocations advance an
/// offset and are never taken back.
#[derive(Clone, Copy, Debug, PartialEq, Eq, Structural)]
pub struct Fixed {
    pub max: usize,
    pub offset: usize,
}

/// What a reservation of `required` bytes at `align` yields in a buffer at
/// address `slice_ptr`: the start offset or the error, and the offset afterwards.
pub open spec fn spec_reserve(
    max: usize,
    offset: usize,
    slice_ptr: usize,
    required: usize,
    align: usize,
) -> (FixedResult<usize>, usize) {
    if slice_ptr + offset > usize::MAX {
        (Err(FixedError::Invalid), offset)
    } else {
        match crate::math::spec_align_up((slice_ptr + offset) as usize, align) {
            None => (Err(FixedError::Invalid), offset),
            Some(aligned) => {
                let start = aligned - slice_ptr;
                if start + required > usize::MAX {
                    (Err(FixedError::Invalid), offset)
                } else if start + required > max {
                    (Err(FixedError::OutOfMemory), offset)
                } else {
                    (Ok(start as usize), (start + required) as usize)
                }
            },
        }
    }
}

/// What an allocation of `size` bytes at `align` from the buffer `slice`
/// yields: the block or the error, and the offset afterwards.
pub open spec fn spec_allocate(max: usize, offset: usize, slice: MemSlice, size: usize, align: usize) -> (
    FixedResult<MemSlice>,
    usize,
) {
    if max < size || offset > max - size {
        (Err(FixedError::OutOfMemory), offset)
    } else {
        match spec_reserve(max, offset, slice.base, size, align) {
            (Err(e), o) => (Err(e), o),
            (Ok(start), o) => if start + size > slice.len {
                (Err(FixedError::OutOfMemory), o)
            } else {
                (Ok(MemSlice { base: (slice.base + start) as usize, len: size }), o)
            },
        }
    }
}

/// A failed allocation leaves the offset where it was, when the bump
/// pointer spans the buffer it is used with.
pub proof fn lemma_failure_keeps_offset(
    max: usize,
    offset: usize,
    slice: MemSlice,
    size: usize,
    align: usize,
)
    requires
        max == slice.len,
    ensures
        spec_allocate(max, offset, slice, size, align).0 is Err ==> spec_allocate(
            max,
            offset,
            slice,
            size,
            align,
        ).1 == offset,
{
    if !(max < size || offset > max - size) {
        if slice.base + offset <= usize::MAX {
            crate::math::lemma_align_up_bounds((slice.base + offset) as usize, align);
        }
    }
}

impl Fixed {
    /// A bump pointer over the whole of `slice`.
    pub fn new(slice: &MemSlice) -> (r: Self)
        ensures
            r == (Fixed { max: slice.len, offset: 0 }),
    {
        Self { max: slice.len, offset: 0 }
    }

    fn has(&self, needed: usize) -> (r: bool)
        ensures
            r == (self.max >= needed && self.offset <= self.max - needed),
    {
        let cur: usize = self.offset;
        if self.max < needed {
            return false;
        }
        cur <= self.max - needed
    }

    fn required(&self, layout: Layout) -> (r: FixedResult<usize>)
        ensures
            r == Ok::<usize, FixedError>(layout.spec_size()),
    {
        Ok(layout.size())
    }

    fn start_offset(&self, slice_ptr: usize, current: usize, align: usize) -> (r: FixedResult<usize>)
        ensures
            r == if slice_ptr + current > usize::MAX {
                Err::<usize, FixedError>(FixedError::Invalid)
            } else {
                match crate::math::spec_align_up((slice_ptr + current) as usize, align) {
                    None => Err(FixedError::Invalid),
                    Some(aligned) => Ok((aligned - slice_ptr) as usize),
                }
            },
            r matches Ok(start) ==> start >= current,
    {
        proof {
            if slice_ptr + current <= usize::MAX {
                crate::math::lemma_align_up_bounds((slice_ptr + current) as usize, align);
            }
        }
        let base_plus: usize = match slice_ptr.checked_add(current) {
            Some(v) => v,
            None => return Err(FixedError::Invalid),
        };
        let aligned: usize = match align_up(base_plus, align) {
            Some(v) => v,
            None => return Err(FixedError::Invalid),
        };
        match aligned.checked_sub(slice_ptr) {
            Some(start) => Ok(start),
            None => Err(FixedError::Invalid),
        }
    }

    fn end_range(&self, start: usize, required: usize) -> (r: FixedResult<usize>)
        ensures
            r == if start + required > usize::MAX {
                Err::<usize, FixedError>(FixedError::Invalid)
            } else {
                Ok((start + required) as usize)
            },
    {
        match start.checked_add(required) {
            Some(end) => Ok(end),
            None => Err(FixedError::Invalid),
        }
    }

    fn reserve(&mut self, slice_ptr: usize, required: usize, align: usize) -> (r: FixedResult<usize>)
        ensures
            final(self).max == old(self).max,
            r == spec_reserve(old(self).max, old(self).offset, slice_ptr, required, align).0,
            final(self).offset == spec_reserve(
                old(self).max,
                old(self).offset,
                slice_ptr,
                required,
                align,
            ).1,
            final(self).offset >= old(self).offset,
            old(self).offset <= old(self).max ==> final(self).offset <= old(self).max,
    {
        proof {
            if slice_ptr + self.offset <= usize::MAX {
                crate::math::lemma_align_up_bounds((slice_ptr + self.offset) as usize, align);
            }
        }
        let current: usize = self.offset;
        let start: usize = match self.start_offset(slice_ptr, current, align) {
            Ok(v) => v,
            Err(e) => return Err(e),
        };
        let end: usize = match self.end_range(start, required) {
            Ok(v) => v,
            Err(e) => return Err(e),
        };
        if end > self.max {
            return Err(FixedError::OutOfMemory);
        }
        self.offset = end;
        Ok(start)
    }

    /// Carves a block of the layout's size out of `slice`, at an address
    /// that meets the layout's alignment.
    pub fn allocate(&mut self, slice: &MemSlice, layout: Layout) -> (r: FixedResult<MemSlice>)
        ensures
            final(self).max == old(self).max,
            r == spec_allocate(
                old(self).max,
                old(self).offset,
                *slice,
                layout.spec_size(),
                layout.spec_align(),
            ).0,
            final(self).offset == spec_allocate(
                old(self).max,
                old(self).offset,
                *slice,
                layout.spec_size(),
                layout.spec_align(),
            ).1,
            final(self).offset >= old(self).offset,
            old(self).offset <= old(self).max ==> final(self).offset <= old(self).max,
            r matches Ok(s) ==> {
                &&& s.len == layout.spec_size()
                &&& s.base % layout.spec_align() == 0
                &&& s.base >= slice.base + old(self).offset
                &&& s.base + s.len == slice.base + final(self).offset
                &&& final(self).offset <= old(self).max
                &&& final(self).offset <= slice.len
            },
    {
        proof {
            if slice.base + self.offset <= usize::MAX {
                crate::math::lemma_align_up_bounds(
                    (slice.base + self.offset) as usize,
                    layout.spec_align(),
                );
            }
        }
        let required: usize = match self.required(layout) {
            Ok(v) => v,
            Err(e) => return Err(e),
        };
        if !self.has(required) {
            return Err(FixedError::OutOfMemory);
        }
        let slice_ptr: usize = slice.as_ptr();
        let start: usize = match self.reserve(slice_ptr, required, layout.align()) {
            Ok(v) => v,
            Err(e) => return Err(e),
        };
        let end: usize = match start.checked_add(required) {
            Some(v) => v,
            None => return Err(FixedError::Invalid),
        };
        if end > slice.len() {
            return Err(FixedError::OutOfMemory);
        }
        Ok(MemSlice { base: slice_ptr + start, len: required })
    }

    /// Carves out room for one value of the given layout and returns its address.
    pub fn create(&mut self, slice: &MemSlice, layout: Layout) -> (r: FixedResult<usize>)
        ensures
            final(self).max == old(self).max,
            final(self).offset == spec_allocate(
                old(self).max,
                old(self).offset,
                *slice,
                layout.spec_size(),
                layout.spec_align(),
            ).1,
            r == match spec_allocate(
                old(self).max,
                old(self).offset,
                *slice,
                layout.spec_size(),
                layout.spec_align(),
            ).0 {
                Ok(s) => Ok::<usize, FixedError>(s.base),
                Err(e) => Err(e),
            },
    {
        let bytes: MemSlice = match self.allocate(slice, layout) {
            Ok(v) => v,
            Err(e) => return Err(e),
        };
        if bytes.len() < layout.size() {
            return Err(FixedError::Invalid);
        }
        Ok(bytes.as_ptr())
    }
}

} // verus!
