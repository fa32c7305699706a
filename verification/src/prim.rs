use vstd::prelude::*;
use crate::math::{align_down, align_up, is_aligned};

verus! {

#[derive(Clone, Copy, Debug, PartialEq, Eq, Structural)]
pub enum PrimError {
    InvalidAlignment,
    Overflow,
}

pub type PrimResult<T> = Result<T, PrimError>;

/// Bytes in a machine word. The allocator's geometry is laid out for 64-bit targets.
pub const WORD: usize = 8;

/// The strictest alignment of a primitive type.
pub const MIN_ALIGN: usize = 16;

/// The page size that the allocator's geometry is built on.
pub const COMMON_PAGE_SIZE: usize = 4096;

/// Bits of a virtual address that carry information.
pub const VA_BITS: usize = 48;

pub proof fn lemma_page_size_is_pow2()
    ensures
        vstd::arithmetic::power2::is_pow2(COMMON_PAGE_SIZE as int),
{
    assert(4096usize & ((4096usize - 1) as usize) == 0) by (bit_vector);
    crate::math::lemma_single_bit_is_pow2(COMMON_PAGE_SIZE);
}

pub fn word_width() -> (r: usize)
    ensures
        r == WORD,
{
    WORD
}

pub fn min_align() -> (r: usize)
    ensures
        r == MIN_ALIGN,
{
    MIN_ALIGN
}

fn page_size_helper() -> (r: usize)
    ensures
        r == COMMON_PAGE_SIZE,
{
    COMMON_PAGE_SIZE
}

pub fn page_size() -> (r: usize)
    ensures
        r == COMMON_PAGE_SIZE,
        vstd::arithmetic::power2::is_pow2(r as int),
{
    proof {
        lemma_page_size_is_pow2();
    }
    page_size_helper()
}

pub fn va_size() -> (r: usize)
    ensures
        r == VA_BITS,
{
    VA_BITS
}

/// Rounds `value` up to a page boundary; `Overflow` when that boundary does not fit a word.
pub fn page_align(value: usize) -> (r: PrimResult<usize>)
    ensures
        r == match crate::math::spec_align_up(value, COMMON_PAGE_SIZE) {
            Some(a) => Ok::<usize, PrimError>(a),
            None => Err(PrimError::Overflow),
        },
        r is Ok <==> value + COMMON_PAGE_SIZE - 1 <= usize::MAX,
        r matches Ok(a) ==> a % COMMON_PAGE_SIZE == 0 && value <= a < value + COMMON_PAGE_SIZE,
{
    match align_up(value, page_size()) {
        Some(a) => Ok(a),
        None => Err(PrimError::Overflow),
    }
}

/// Rounds `value` down to a page boundary.
pub fn page_align_down(value: usize) -> (r: PrimResult<usize>)
    ensures
        r == Ok::<usize, PrimError>(crate::math::round_down(value as int, COMMON_PAGE_SIZE as int) as usize),
        r matches Ok(a) ==> a % COMMON_PAGE_SIZE == 0 && a <= value < a + COMMON_PAGE_SIZE,
{
    match align_down(value, page_size()) {
        Some(a) => Ok(a),
        None => Err(PrimError::InvalidAlignment),
    }
}

/// Whether `value` lies on a page boundary.
pub fn is_page_aligned(value: usize) -> (r: PrimResult<bool>)
    ensures
        r == Ok::<bool, PrimError>(value % COMMON_PAGE_SIZE == 0),
{
    match is_aligned(value, page_size()) {
        Some(b) => Ok(b),
        None => Err(PrimError::InvalidAlignment),
    }
}

} // verus!
