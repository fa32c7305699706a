use vstd::prelude::*;

verus! {

/// The greatest multiple of `align` that is not above `value`.
pub open spec fn round_down(value: int, align: int) -> int {
    (value / align) * align
}

/// The least multiple of `align` that is not below `value`.
pub open spec fn round_up(value: int, align: int) -> int {
    round_down(value + align - 1, align)
}

/// A word passes the single-bit test exactly when it is a power of two.
pub proof fn lemma_single_bit_is_pow2(x: usize)
    ensures
        (x != 0 && x & ((x - 1) as usize) == 0) <==> vstd::arithmetic::power2::is_pow2(x as int),
    decreases x,
{
    reveal(vstd::arithmetic::power2::is_pow2);
    if x == 0 {
    } else if x == 1 {
        assert(1usize & ((1usize - 1) as usize) == 0) by (bit_vector);
    } else {
        let h: usize = x / 2;
        lemma_single_bit_is_pow2(h);
        assert(x >= 2 && h == x / 2 ==> ((x & ((x - 1) as usize) == 0) <==> (x % 2 == 0 && h & ((h
            - 1) as usize) == 0))) by (bit_vector);
    }
}

/// For a power of two, masking with `align - 1` is the remainder, and
/// masking with its complement removes the remainder.
pub proof fn lemma_mask_is_mod(value: usize, align: usize)
    requires
        vstd::arithmetic::power2::is_pow2(align as int),
    ensures
        value & ((align - 1) as usize) == value % align,
        value & !((align - 1) as usize) == round_down(value as int, align as int),
    decreases align,
{
    reveal(vstd::arithmetic::power2::is_pow2);
    let m: usize = (align - 1) as usize;
    if align == 1 {
        assert(value & 0usize == 0) by (bit_vector);
    } else {
        let h: usize = align / 2;
        let hm: usize = (h - 1) as usize;
        let v2: usize = value / 2;
        lemma_mask_is_mod(v2, h);
        assert(align >= 2 && align % 2 == 0 && h == align / 2 && hm == (h - 1) as usize && m == (
        align - 1) as usize && v2 == value / 2 ==> value & m == 2 * (v2 & hm) + value % 2)
            by (bit_vector);
        // value = 2 * v2 + value % 2, and v2 = h * (v2 / h) + v2 % h
        vstd::arithmetic::div_mod::lemma_fundamental_div_mod(v2 as int, h as int);
        let q: int = v2 as int / h as int;
        let r: int = 2 * (v2 as int % h as int) + value as int % 2;
        assert(value as int == q * (2 * h) + r) by (nonlinear_arith)
            requires
                value as int == 2 * v2 + value as int % 2,
                v2 as int == h * q + v2 as int % h as int,
                r == 2 * (v2 as int % h as int) + value as int % 2,
        ;
        assert(0 <= r < align);
        vstd::arithmetic::div_mod::lemma_fundamental_div_mod_converse(value as int, align as int, q, r);
    }
    assert(value & !m == value - (value & m)) by (bit_vector);
    vstd::arithmetic::div_mod::lemma_fundamental_div_mod(value as int, align as int);
    assert((value as int / align as int) * align == align * (value as int / align as int))
        by (nonlinear_arith);
}

/// `round_up` yields the least multiple of a positive `align` at or above `value`.
pub proof fn lemma_round_up_is_least(value: int, align: int)
    requires
        value >= 0,
        align > 0,
    ensures
        round_up(value, align) % align == 0,
        value <= round_up(value, align) < value + align,
        forall|m: int| m % align == 0 && value <= m ==> round_up(value, align) <= #[trigger] (m
            % align) + m,
{
    let x: int = value + align - 1;
    vstd::arithmetic::div_mod::lemma_fundamental_div_mod(x, align);
    let q: int = x / align;
    assert((q * align) % align == 0) by (nonlinear_arith)
        requires
            align > 0,
    ;
    assert(q * align == align * q) by (nonlinear_arith);
    assert forall|m: int| m % align == 0 && value <= m implies round_up(value, align) <= #[trigger] (
    m % align) + m by {
        vstd::arithmetic::div_mod::lemma_fundamental_div_mod(m, align);
        let k: int = m / align;
        // m = align * k >= value > align * (q - 1), hence k >= q
        assert(k >= q) by (nonlinear_arith)
            requires
                align > 0,
                align * k >= value,
                value + align - 1 >= align * q,
                value + align - 1 - align * q < align,
        ;
        assert(align * k >= align * q) by (nonlinear_arith)
            requires
                align > 0,
                k >= q,
        ;
    }
}

/// Whether `x` is a power of two.
pub fn is_power_of_two(x: usize) -> (r: bool)
    ensures
        r == vstd::arithmetic::power2::is_pow2(x as int),
        r ==> x > 0,
{
    proof {
        lemma_single_bit_is_pow2(x);
    }
    x != 0 && x & (x - 1) == 0
}

/// Whether `value` is a multiple of `align`; `None` unless `align` is a power of two.
pub fn is_aligned(value: usize, align: usize) -> (r: Option<bool>)
    ensures
        r == if vstd::arithmetic::power2::is_pow2(align as int) {
            Some(value as int % align as int == 0)
        } else {
            None
        },
{
    if !is_power_of_two(align) {
        return None;
    }
    proof {
        lemma_mask_is_mod(value, align);
    }
    Some((value & (align - 1)) == 0)
}

/// The value that `align_up` owes: the least multiple of `align` at or above
/// `value`, when `align` is a power of two and that multiple fits a word.
pub open spec fn spec_align_up(value: usize, align: usize) -> Option<usize> {
    if vstd::arithmetic::power2::is_pow2(align as int) && value + align - 1 <= usize::MAX {
        Some(round_up(value as int, align as int) as usize)
    } else {
        None
    }
}

/// Where `spec_align_up` yields an address, it is a multiple of `align` in
/// the window of `align` addresses that starts at `value`.
pub proof fn lemma_align_up_bounds(value: usize, align: usize)
    ensures
        spec_align_up(value, align) matches Some(a) ==> a % align == 0 && value <= a < value + align
            && a == round_up(value as int, align as int),
{
    if vstd::arithmetic::power2::is_pow2(align as int) && value + align - 1 <= usize::MAX {
        reveal(vstd::arithmetic::power2::is_pow2);
        lemma_round_up_is_least(value as int, align as int);
    }
}

/// Rounds `value` up to the next multiple of `align`.
pub fn align_up(value: usize, align: usize) -> (r: Option<usize>)
    ensures
        r == spec_align_up(value, align),
        r matches Some(a) ==> a == round_up(value as int, align as int) && a % align == 0 && value
            <= a < value + align,
{
    if !is_power_of_two(align) {
        return None;
    }
    let mask: usize = align - 1;
    if let Some(sum) = value.checked_add(mask) {
        proof {
            lemma_mask_is_mod(sum, align);
            lemma_round_up_is_least(value as int, align as int);
        }
        return Some(sum & !mask);
    }
    None
}

/// Rounds `value` down to a multiple of `align`; `None` unless `align` is a power of two.
pub fn align_down(value: usize, align: usize) -> (r: Option<usize>)
    ensures
        r == if vstd::arithmetic::power2::is_pow2(align as int) {
            Some(round_down(value as int, align as int) as usize)
        } else {
            None::<usize>
        },
        r matches Some(a) ==> a == round_down(value as int, align as int) && a % align == 0 && a
            <= value < a + align,
{
    if !is_power_of_two(align) {
        return None;
    }
    proof {
        lemma_mask_is_mod(value, align);
        vstd::arithmetic::div_mod::lemma_fundamental_div_mod(value as int, align as int);
        assert(((value as int / align as int) * align) % (align as int) == 0) by (nonlinear_arith)
            requires
                align > 0,
        ;
        assert((value as int / align as int) * align == align * (value as int / align as int))
            by (nonlinear_arith);
    }
    Some(value & !(align - 1))
}

/// Aligns the address `ptr` upward. The result is `None` when `align` is no
/// power of two, when the aligned address does not fit, or when it is null.
pub fn align_ptr(ptr: usize, align: usize) -> (r: Option<usize>)
    ensures
        r == match spec_align_up(ptr, align) {
            Some(a) => if a != 0 {
                Some(a)
            } else {
                None
            },
            None => None,
        },
{
    match align_up(ptr, align) {
        Some(aligned_addr) => if aligned_addr != 0 {
            Some(aligned_addr)
        } else {
            None
        },
        None => None,
    }
}

/// Aligns the address `ptr` of writable memory upward, as `align_ptr` does.
pub fn align_mut_ptr(ptr: usize, align: usize) -> (r: Option<usize>)
    ensures
        r == match spec_align_up(ptr, align) {
            Some(a) => if a != 0 {
                Some(a)
            } else {
                None
            },
            None => None,
        },
{
    align_ptr(ptr, align)
}

/// The distance from `addr` up to the next multiple of `align`.
pub fn align_offset(addr: usize, align: usize) -> (r: Option<usize>)
    ensures
        r == match spec_align_up(addr, align) {
            Some(a) => Some((a - addr) as usize),
            None => None,
        },
        r matches Some(d) ==> d < align && (addr + d) % (align as int) == 0,
{
    if !is_power_of_two(align) {
        return None;
    }
    match align_up(addr, align) {
        Some(aligned_addr) => Some(aligned_addr - addr),
        None => None,
    }
}

/// An address that is a multiple of a power of two up to a page is a
/// multiple of every smaller power of two.
pub proof fn lemma_aligned_to_less(addr: usize, big: usize, align: usize)
    requires
        vstd::arithmetic::power2::is_pow2(big as int),
        vstd::arithmetic::power2::is_pow2(align as int),
        align <= big <= 4096,
        addr % big == 0,
    ensures
        addr % align == 0,
{
    lemma_single_bit_is_pow2(big);
    lemma_single_bit_is_pow2(align);
    assert(big % align == 0) by (bit_vector)
        requires
            align != 0,
            align & ((align - 1) as usize) == 0,
            big != 0,
            big & ((big - 1) as usize) == 0,
            align <= big,
            big <= 4096,
    ;
    let times: int = (big as int) / (align as int);
    vstd::arithmetic::div_mod::lemma_fundamental_div_mod(big as int, align as int);
    assert(big as int == (align as int) * times);
    assert(align > 0 && big > 0);
    assert(times > 0) by (nonlinear_arith)
        requires
            big as int == (align as int) * times,
            align > 0,
            big > 0,
    ;
    vstd::arithmetic::div_mod::lemma_mod_mod(addr as int, align as int, times);
}

} // verus!
