use vstd::prelude::*;
use crate::math::is_power_of_two;

verus! {

/// The reason a size and an alignment do not make a layout.
#[derive(Clone, Copy, Debug, PartialEq, Eq, Structural)]
pub struct LayoutError;

/// The size and the alignment of a block of memory.
#[derive(Clone, Copy, Debug, PartialEq, Eq, Structural)]
pub struct Layout {
    size: usize,
    align: usize,
}

/// Whether `size` and `align` make a layout: the alignment is a power of
/// two, and the size rounded up to it does not exceed the largest offset.
pub open spec fn layout_ok(size: usize, align: usize) -> bool {
    vstd::arithmetic::power2::is_pow2(align as int) && size + align - 1 <= isize::MAX
}

impl Layout {
    #[verifier::type_invariant]
    spec fn inv(self) -> bool {
        layout_ok(self.size, self.align)
    }

    pub closed spec fn spec_size(self) -> usize {
        self.size
    }

    pub closed spec fn spec_align(self) -> usize {
        self.align
    }

    pub fn from_size_align(size: usize, align: usize) -> (r: Result<Layout, LayoutError>)
        ensures
            r is Ok <==> layout_ok(size, align),
            r matches Ok(l) ==> l.spec_size() == size && l.spec_align() == align,
    {
        if !is_power_of_two(align) {
            return Err(LayoutError);
        }
        let limit: usize = isize::MAX as usize;
        if align - 1 > limit || size > limit - (align - 1) {
            return Err(LayoutError);
        }
        Ok(Layout { size, align })
    }

    pub fn size(&self) -> (r: usize)
        ensures
            r == self.spec_size(),
            layout_ok(self.spec_size(), self.spec_align()),
    {
        proof {
            use_type_invariant(self);
        }
        self.size
    }

    pub fn align(&self) -> (r: usize)
        ensures
            r == self.spec_align(),
            layout_ok(self.spec_size(), self.spec_align()),
    {
        proof {
            use_type_invariant(self);
        }
        self.align
    }
}

} // verus!
