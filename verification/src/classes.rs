use vstd::prelude::*;
use crate::prim::{page_size, COMMON_PAGE_SIZE, WORD};

verus! {

/// The spacing of the tiny classes: two machine words.
pub const QUANTUM: usize = 16;

pub const NGROUPSEX: usize = 2;

/// Classes per power-of-two group.
pub const NGROUPS: usize = 4;

/// The number of tiny classes.
pub const NTINY: usize = 64;

/// The largest size served by a tiny class.
pub const TINY_CUTOFF: usize = 1024;

/// The exponent of the first regular group.
pub const FIRST_REGULAR: usize = 10;

/// The exponent at which size classes end.
pub const MAX_REGULAR: usize = 21;

pub const NREGULAR: usize = 44;

pub const NSCLASSES: usize = 108;

/// Sizes from here on are served as extents of their own.
pub const SCLASS_CUTOFF: usize = 2097152;

pub const LOOKUP_SHIFT: usize = 4;

/// The least and the greatest depth of a thread cache's ring.
pub const CACHE_MIN: usize = 8;

pub const CACHE_MAX: usize = 200;

#[derive(Clone, Copy, Debug, PartialEq, Eq, Structural)]
pub struct SizeClassIndex(pub usize);

/// A size class: the size of its regions, and its place in the table.
#[derive(Clone, Copy, Debug, PartialEq, Eq, Structural)]
pub struct SizeClass(pub usize, pub SizeClassIndex);

/// The bytes of one slab of a class.
#[derive(Clone, Copy, Debug, PartialEq, Eq, Structural)]
pub struct SlabSize(pub usize);

/// The depth, in slots, of the ring that caches regions of a class.
#[derive(Clone, Copy, Debug, PartialEq, Eq, Structural)]
pub struct CacheSize(pub usize);

/// The region size of class `i`. Tiny classes step by the quantum; each
/// regular group splits one power of two into four equal steps.
pub open spec fn class_size(i: int) -> int {
    if i < 64 {
        (i + 1) * 16
    } else {
        let g = (i - 64) / 4;
        let k = (i - 64) % 4;
        vstd::arithmetic::power2::pow2((10 + g) as nat) + (vstd::arithmetic::power2::pow2(
            (10 + g) as nat,
        ) / 4) * (k + 1)
    }
}

/// The exponent of the greatest power of two that is not above `n`.
pub open spec fn log2_floor(n: int) -> int
    decreases n,
{
    if n <= 1 {
        0
    } else {
        1 + log2_floor(n / 2)
    }
}

/// The class that serves a request of `size` bytes, if any does: the
/// least class whose regions hold `size` bytes. Above the tiny cutoff
/// the group is that of the greatest power of two below `size`, and the
/// step within it the number of whole quarters of that power that lie
/// between the power and the last byte of the request.
pub open spec fn spec_class_for(size: int) -> Option<int> {
    if size <= 0 || size >= SCLASS_CUTOFF {
        None
    } else if size <= TINY_CUTOFF {
        Some((size - 1) / 16)
    } else {
        let log = log2_floor(size - 1);
        let base = vstd::arithmetic::power2::pow2(log as nat) as int;
        Some(64 + (log - 10) * 4 + (size - 1 - base) / (base / 4))
    }
}

/// The greatest common divisor, by Euclid's rule.
pub open spec fn spec_gcd(a: nat, b: nat) -> nat
    decreases b,
{
    if b == 0 {
        a
    } else {
        spec_gcd(b, a % b)
    }
}

/// The bytes of a slab of class `i`: the least whole number of pages that
/// is also a whole number of regions.
pub open spec fn spec_pages(i: int) -> int {
    (class_size(i) / (spec_gcd(COMMON_PAGE_SIZE as nat, class_size(i) as nat) as int))
        * COMMON_PAGE_SIZE
}

/// The ring depth of class `i`.
pub open spec fn spec_cache_slots(i: int) -> int {
    let scale = SCLASS_CUTOFF as int / class_size(i);
    if scale < CACHE_MIN {
        CACHE_MIN as int
    } else if scale > CACHE_MAX {
        CACHE_MAX as int
    } else {
        scale
    }
}

/// The bytes that the rings of the first `n` classes take together.
pub open spec fn spec_total_cache(n: int) -> int
    decreases n,
{
    if n <= 0 {
        0
    } else {
        spec_total_cache(n - 1) + spec_cache_slots(n - 1) * WORD
    }
}

/// The powers of two that the regular groups are built on.
pub proof fn lemma_group_powers()
    ensures
        vstd::arithmetic::power2::pow2(10) == 1024,
        vstd::arithmetic::power2::pow2(11) == 2048,
        vstd::arithmetic::power2::pow2(12) == 4096,
        vstd::arithmetic::power2::pow2(13) == 8192,
        vstd::arithmetic::power2::pow2(14) == 16384,
        vstd::arithmetic::power2::pow2(15) == 32768,
        vstd::arithmetic::power2::pow2(16) == 65536,
        vstd::arithmetic::power2::pow2(17) == 131072,
        vstd::arithmetic::power2::pow2(18) == 262144,
        vstd::arithmetic::power2::pow2(19) == 524288,
        vstd::arithmetic::power2::pow2(20) == 1048576,
        vstd::arithmetic::power2::pow2(21) == 2097152,
{
    vstd::arithmetic::power2::lemma2_to64();
}

/// The region size of a regular group `g` and step `k`, spelled out.
pub proof fn lemma_class_size_regular(i: int)
    requires
        64 <= i < NSCLASSES,
    ensures
        ({
            let g = (i - 64) / 4;
            let k = (i - 64) % 4;
            let base = vstd::arithmetic::power2::pow2((10 + g) as nat) as int;
            &&& 0 <= g <= 10
            &&& 0 <= k <= 3
            &&& 1024 <= base <= 1048576
            &&& base % 1024 == 0
            &&& class_size(i) == base + (base / 4) * (k + 1)
            &&& base < class_size(i) <= 2 * base
            &&& class_size(i) % 256 == 0
            &&& k == 3 ==> class_size(i) == 2 * base
            &&& g > 0 ==> base == 2 * vstd::arithmetic::power2::pow2((10 + g - 1) as nat)
        }),
{
    lemma_group_powers();
    let g = (i - 64) / 4;
    let k = (i - 64) % 4;
    let base = vstd::arithmetic::power2::pow2((10 + g) as nat) as int;
    if g == 0 {
    } else if g == 1 {
    } else if g == 2 {
    } else if g == 3 {
    } else if g == 4 {
    } else if g == 5 {
    } else if g == 6 {
    } else if g == 7 {
    } else if g == 8 {
    } else if g == 9 {
    } else {
        assert(g == 10);
    }
    let m = base / 1024;
    assert(base == 1024 * m && base / 4 == 256 * m);
    assert((256 * m) * (k + 1) == 256 * (m * (k + 1)) && m * (k + 1) >= m && m * (k + 1) <= 4 * m)
        by (nonlinear_arith)
        requires
            0 <= k <= 3,
            m >= 1,
    ;
    assert(class_size(i) == 256 * (4 * m + m * (k + 1)));
    assert((256 * (4 * m + m * (k + 1))) % 256 == 0) by (nonlinear_arith);
}

/// Classes grow strictly with their index, and the last one ends at the cutoff.
pub proof fn lemma_classes_monotonic(i: int)
    requires
        0 <= i < NSCLASSES,
    ensures
        class_size(i) >= 16,
        class_size(i) % 16 == 0,
        class_size(i) <= SCLASS_CUTOFF,
        i + 1 < NSCLASSES ==> class_size(i) < class_size(i + 1),
        i == NSCLASSES - 1 ==> class_size(i) == SCLASS_CUTOFF,
{
    if i >= 64 {
        lemma_class_size_regular(i);
    }
    if i + 1 < NSCLASSES && i + 1 >= 64 {
        lemma_class_size_regular(i + 1);
    }
    lemma_group_powers();
    if i >= 64 && i + 1 < NSCLASSES {
        let base = vstd::arithmetic::power2::pow2((10 + (i - 64) / 4) as nat) as int;
        let k = (i - 64) % 4;
        if k < 3 {
            assert((base / 4) * (k + 1) < (base / 4) * (k + 2)) by (nonlinear_arith)
                requires
                    base / 4 > 0,
            ;
        }
    }
}

/// `log2_floor` brackets its argument between two neighbouring powers of two.
pub proof fn lemma_log2_floor(n: int)
    requires
        n >= 1,
    ensures
        log2_floor(n) >= 0,
        vstd::arithmetic::power2::pow2(log2_floor(n) as nat) <= n,
        n < 2 * vstd::arithmetic::power2::pow2(log2_floor(n) as nat),
    decreases n,
{
    vstd::arithmetic::power2::lemma2_to64();
    if n > 1 {
        lemma_log2_floor(n / 2);
        vstd::arithmetic::power2::lemma_pow2_unfold((1 + log2_floor(n / 2)) as nat);
    }
}

/// An argument between `pow2(e)` and `pow2(e + 1)` has `log2_floor` equal to `e`.
pub proof fn lemma_log2_floor_unique(n: int, e: nat)
    requires
        vstd::arithmetic::power2::pow2(e) <= n < 2 * vstd::arithmetic::power2::pow2(e),
    ensures
        log2_floor(n) == e,
    decreases e,
{
    vstd::arithmetic::power2::lemma2_to64();
    if e == 0 {
    } else {
        vstd::arithmetic::power2::lemma_pow2_unfold(e);
        lemma_log2_floor_unique(n / 2, (e - 1) as nat);
    }
}

/// A size served by a regular class has its `log2_floor` among the regular exponents.
pub proof fn lemma_log2_regular(size: int)
    requires
        TINY_CUTOFF <= size < SCLASS_CUTOFF,
    ensures
        10 <= log2_floor(size) <= 20,
{
    lemma_group_powers();
    if size < 2048 {
        lemma_log2_floor_unique(size, 10);
    } else if size < 4096 {
        lemma_log2_floor_unique(size, 11);
    } else if size < 8192 {
        lemma_log2_floor_unique(size, 12);
    } else if size < 16384 {
        lemma_log2_floor_unique(size, 13);
    } else if size < 32768 {
        lemma_log2_floor_unique(size, 14);
    } else if size < 65536 {
        lemma_log2_floor_unique(size, 15);
    } else if size < 131072 {
        lemma_log2_floor_unique(size, 16);
    } else if size < 262144 {
        lemma_log2_floor_unique(size, 17);
    } else if size < 524288 {
        lemma_log2_floor_unique(size, 18);
    } else if size < 1048576 {
        lemma_log2_floor_unique(size, 19);
    } else {
        lemma_log2_floor_unique(size, 20);
    }
}

/// The powers of two of the regular exponents, for an exponent held in a variable.
pub proof fn lemma_regular_power(e: nat)
    requires
        10 <= e <= 21,
    ensures
        1024 <= vstd::arithmetic::power2::pow2(e) <= 2097152,
        vstd::arithmetic::power2::pow2(e) % 1024 == 0,
{
    lemma_group_powers();
    if e == 10 {
    } else if e == 11 {
    } else if e == 12 {
    } else if e == 13 {
    } else if e == 14 {
    } else if e == 15 {
    } else if e == 16 {
    } else if e == 17 {
    } else if e == 18 {
    } else if e == 19 {
    } else if e == 20 {
    } else {
        assert(e == 21);
    }
}

/// Counting leading zeros of a word finds `log2_floor`.
pub proof fn lemma_leading_zeros_is_log2(i: u64)
    requires
        i > 0,
    ensures
        63 - vstd::std_specs::bits::u64_leading_zeros(i) == log2_floor(i as int),
    decreases i,
{
    reveal_with_fuel(vstd::std_specs::bits::u64_leading_zeros, 3);
    if i > 1 {
        lemma_leading_zeros_is_log2(i / 2);
    }
}

/// The number of halvings that bring `x` to zero.
pub open spec fn bit_length(x: int) -> int
    decreases x,
{
    if x <= 0 {
        0
    } else {
        1 + bit_length(x / 2)
    }
}

/// The least exponent whose power of two is not below `x`, for `x` of at least one.
pub fn log2c(x: usize) -> (r: usize)
    requires
        x >= 1,
    ensures
        r == bit_length(x - 1),
{
    let mut log: usize = 0;
    let mut rest: usize = x - 1;
    while rest > 0
        invariant
            log + bit_length(rest as int) == bit_length(x - 1),
            log + rest <= usize::MAX,
        decreases rest,
    {
        assert(rest >> 1 == rest / 2) by (bit_vector);
        rest >>= 1;
        log += 1;
    }
    log
}

/// The greatest common divisor divides both arguments.
pub proof fn lemma_gcd_divides(a: nat, b: nat)
    requires
        a > 0 || b > 0,
    ensures
        spec_gcd(a, b) > 0,
        a % spec_gcd(a, b) == 0,
        b % spec_gcd(a, b) == 0,
    decreases b,
{
    if b == 0 {
        vstd::arithmetic::div_mod::lemma_mod_self_0(a as int);
    } else {
        lemma_gcd_divides(b, a % b);
        let g = spec_gcd(a, b) as int;
        vstd::arithmetic::div_mod::lemma_fundamental_div_mod(a as int, b as int);
        vstd::arithmetic::div_mod::lemma_fundamental_div_mod(b as int, g);
        vstd::arithmetic::div_mod::lemma_fundamental_div_mod((a % b) as int, g);
        let k1 = b as int / g;
        let k2 = (a % b) as int / g;
        let q = a as int / b as int;
        assert(a as int == (k1 * q + k2) * g) by (nonlinear_arith)
            requires
                a as int == b as int * q + (a % b) as int,
                b as int == g * k1,
                (a % b) as int == g * k2,
        ;
        vstd::arithmetic::div_mod::lemma_mod_multiples_basic(k1 * q + k2, g);
    }
}

/// Every common divisor divides the greatest one.
pub proof fn lemma_gcd_greatest(a: nat, b: nat, d: nat)
    requires
        d > 0,
        a % d == 0,
        b % d == 0,
    ensures
        spec_gcd(a, b) % d == 0,
    decreases b,
{
    if b != 0 {
        vstd::arithmetic::div_mod::lemma_fundamental_div_mod(a as int, b as int);
        vstd::arithmetic::div_mod::lemma_fundamental_div_mod(a as int, d as int);
        vstd::arithmetic::div_mod::lemma_fundamental_div_mod(b as int, d as int);
        let k1 = a as int / d as int;
        let k2 = b as int / d as int;
        let q = a as int / b as int;
        assert((a % b) as int == (k1 - k2 * q) * d) by (nonlinear_arith)
            requires
                a as int == b as int * q + (a % b) as int,
                a as int == d as int * k1,
                b as int == d as int * k2,
        ;
        vstd::arithmetic::div_mod::lemma_mod_multiples_basic(k1 - k2 * q, d as int);
        lemma_gcd_greatest(b, a % b, d);
    }
}

/// The greatest common divisor of `a` and `b`.
pub fn gcd(a: usize, b: usize) -> (r: usize)
    ensures
        r == spec_gcd(a as nat, b as nat),
{
    let mut x: usize = a;
    let mut y: usize = b;
    while y != 0
        invariant
            spec_gcd(x as nat, y as nat) == spec_gcd(a as nat, b as nat),
        decreases y,
    {
        let t: usize = y;
        y = x % y;
        x = t;
    }
    x
}

/// A slab is a whole number of pages and a whole number of regions, and
/// holds at least one region.
pub proof fn lemma_pages(i: int)
    requires
        0 <= i < NSCLASSES,
    ensures
        spec_pages(i) % (COMMON_PAGE_SIZE as int) == 0,
        spec_pages(i) >= class_size(i),
        spec_pages(i) / class_size(i) >= 1,
        spec_pages(i) % class_size(i) == 0,
        spec_pages(i) % class_size(i) < class_size(i),
        spec_pages(i) <= 536870912,
        spec_gcd(COMMON_PAGE_SIZE as nat, class_size(i) as nat) >= 16,
{
    lemma_classes_monotonic(i);
    let size = class_size(i);
    let g = spec_gcd(4096, size as nat) as int;
    lemma_gcd_divides(4096, size as nat);
    lemma_gcd_greatest(4096, size as nat, 16);
    vstd::arithmetic::div_mod::lemma_fundamental_div_mod(size, g);
    vstd::arithmetic::div_mod::lemma_fundamental_div_mod(4096, g);
    vstd::arithmetic::div_mod::lemma_fundamental_div_mod(g, 16);
    let n = size / g;
    let c = 4096int / g;
    assert(g >= 16);
    assert(g <= 4096) by (nonlinear_arith)
        requires
            4096 == g * c,
            g > 0,
    ;
    assert(n * 4096 == size * c && n * 4096 >= size && n * 16 <= size && n >= 1 && c >= 1)
        by (nonlinear_arith)
        requires
            size == g * n,
            4096 == g * c,
            16 <= g <= 4096,
            size >= 16,
    ;
    vstd::arithmetic::div_mod::lemma_mod_multiples_basic(n, 4096);
    vstd::arithmetic::div_mod::lemma_mod_multiples_basic(c, size);
    assert(size * c == c * size) by (nonlinear_arith);
    vstd::arithmetic::div_mod::lemma_div_is_ordered(size, n * 4096, size);
    vstd::arithmetic::div_mod::lemma_div_by_self(size);
}

/// The class at `idx`.
#[inline(always)]
pub fn class_at(idx: SizeClassIndex) -> (r: SizeClass)
    requires
        idx.0 < NSCLASSES,
    ensures
        r.0 == class_size(idx.0 as int),
        r.1 == idx,
{
    let i: usize = idx.0;
    if i < NTINY {
        return SizeClass((i + 1) * QUANTUM, idx);
    }
    let group: usize = (i - NTINY) / NGROUPS;
    let step: usize = (i - NTINY) % NGROUPS;
    let shift: usize = FIRST_REGULAR + group;
    proof {
        lemma_class_size_regular(i as int);
        lemma_regular_power(shift as nat);
        vstd::bits::lemma_usize_shl_is_mul(1, shift);
    }
    let base: usize = 1usize << shift;
    proof {
        vstd::arithmetic::power2::lemma2_to64();
        vstd::bits::lemma_usize_shr_is_div(base, 2);
    }
    let delta: usize = base >> NGROUPSEX;
    assert(delta * (step + 1) <= base) by (nonlinear_arith)
        requires
            delta == base / 4,
            step <= 3,
    ;
    SizeClass(base + delta * (step + 1), idx)
}

/// The table of all classes, smallest first.
pub fn generate_classes() -> (r: Vec<SizeClass>)
    ensures
        r@.len() == NSCLASSES,
        forall|i: int|
            0 <= i < NSCLASSES ==> (#[trigger] r@[i]).0 == class_size(i) && r@[i].1.0 == i,
{
    let mut classes: Vec<SizeClass> = Vec::new();
    let mut idx: usize = 0;
    while idx < NTINY
        invariant
            idx <= NTINY,
            classes@.len() == idx,
            forall|i: int|
                0 <= i < idx ==> (#[trigger] classes@[i]).0 == class_size(i) && classes@[i].1.0 == i,
        decreases NTINY - idx,
    {
        classes.push(SizeClass((idx + 1) * QUANTUM, SizeClassIndex(idx)));
        idx += 1;
    }
    let mut group: usize = FIRST_REGULAR;
    while group < MAX_REGULAR && idx < NSCLASSES
        invariant
            FIRST_REGULAR <= group <= MAX_REGULAR,
            idx == NTINY + (group - FIRST_REGULAR) * NGROUPS,
            classes@.len() == idx,
            forall|i: int|
                0 <= i < idx ==> (#[trigger] classes@[i]).0 == class_size(i) && classes@[i].1.0 == i,
        decreases MAX_REGULAR - group,
    {
        proof {
            lemma_regular_power(group as nat);
            vstd::bits::lemma_usize_shl_is_mul(1, group);
        }
        let base: usize = 1usize << group;
        proof {
            vstd::arithmetic::power2::lemma2_to64();
            vstd::bits::lemma_usize_shr_is_div(base, 2);
        }
        let delta: usize = base >> NGROUPSEX;
        let mut i: usize = 0;
        while i < NGROUPS && idx < NSCLASSES
            invariant
                i <= NGROUPS,
                FIRST_REGULAR <= group < MAX_REGULAR,
                idx == NTINY + (group - FIRST_REGULAR) * NGROUPS + i,
                base == vstd::arithmetic::power2::pow2(group as nat),
                delta == base / 4,
                classes@.len() == idx,
                forall|j: int|
                    0 <= j < idx ==> (#[trigger] classes@[j]).0 == class_size(j) && classes@[j].1.0
                        == j,
            decreases NGROUPS - i,
        {
            proof {
                lemma_class_size_regular(idx as int);
            }
            assert(delta * (i + 1) <= base) by (nonlinear_arith)
                requires
                    delta == base / 4,
                    i <= 3,
            ;
            classes.push(SizeClass(base + delta * (i + 1), SizeClassIndex(idx)));
            idx += 1;
            i += 1;
        }
        group += 1;
    }
    classes
}

/// The table that maps `(size - 1) >> LOOKUP_SHIFT` to the tiny class of `size`.
pub fn generate_tiny_lookup() -> (r: Vec<u8>)
    ensures
        r@.len() == TINY_CUTOFF / 16,
        forall|i: int| 0 <= i < r@.len() ==> #[trigger] r@[i] == i,
        forall|size: int|
            0 < size <= TINY_CUTOFF ==> spec_class_for(size) == Some(
                r@[(size - 1) / 16] as int,
            ),
{
    let n: usize = TINY_CUTOFF >> LOOKUP_SHIFT;
    assert(1024usize >> 4usize == 64usize) by (bit_vector);
    let mut table: Vec<u8> = Vec::new();
    let mut i: usize = 0;
    while i < n
        invariant
            n == 64,
            i <= n,
            table@.len() == i,
            forall|j: int| 0 <= j < i ==> #[trigger] table@[j] == j,
        decreases n - i,
    {
        assert(i < 64 ==> ((i + 1) as usize) << 4usize == ((i + 1) * 16) as usize) by (bit_vector);
        let size: usize = (i + 1) << LOOKUP_SHIFT;
        let idx: usize = (size + (QUANTUM - 1)) / QUANTUM - 1;
        table.push(idx as u8);
        i += 1;
    }
    table
}

/// The slab size of every class.
pub fn generate_pages() -> (r: Vec<SlabSize>)
    ensures
        r@.len() == NSCLASSES,
        forall|i: int| 0 <= i < NSCLASSES ==> (#[trigger] r@[i]).0 == spec_pages(i),
{
    let classes: Vec<SizeClass> = generate_classes();
    let mut pages: Vec<SlabSize> = Vec::new();
    let ps: usize = page_size();
    let mut i: usize = 0;
    while i < NSCLASSES
        invariant
            i <= NSCLASSES,
            ps == COMMON_PAGE_SIZE,
            classes@.len() == NSCLASSES,
            forall|j: int|
                0 <= j < NSCLASSES ==> (#[trigger] classes@[j]).0 == class_size(j),
            pages@.len() == i,
            forall|j: int| 0 <= j < i ==> (#[trigger] pages@[j]).0 == spec_pages(j),
        decreases NSCLASSES - i,
    {
        let SizeClass(size, _) = classes[i];
        proof {
            lemma_pages(i as int);
        }
        let g: usize = gcd(ps, size);
        let num_pages: usize = size / g;
        pages.push(SlabSize(num_pages * ps));
        i += 1;
    }
    pages
}

/// The ring depth of every class.
pub fn generate_cache_sizes() -> (r: Vec<CacheSize>)
    ensures
        r@.len() == NSCLASSES,
        forall|i: int| 0 <= i < NSCLASSES ==> (#[trigger] r@[i]).0 == spec_cache_slots(i),
{
    let mut caches: Vec<CacheSize> = Vec::new();
    let mut i: usize = 0;
    while i < NSCLASSES
        invariant
            i <= NSCLASSES,
            caches@.len() == i,
            forall|j: int| 0 <= j < i ==> (#[trigger] caches@[j]).0 == spec_cache_slots(j),
        decreases NSCLASSES - i,
    {
        caches.push(cache_for(SizeClassIndex(i)));
        i += 1;
    }
    caches
}

pub proof fn lemma_total_cache_bound(n: int)
    requires
        0 <= n,
    ensures
        0 <= spec_total_cache(n) <= n * 1600,
    decreases n,
{
    if n > 0 {
        lemma_total_cache_bound(n - 1);
    }
}

/// The bytes that the rings of all classes take together.
pub fn total_cache_size() -> (r: usize)
    ensures
        r == spec_total_cache(NSCLASSES as int),
{
    let mut total: usize = 0;
    let mut i: usize = 0;
    while i < NSCLASSES
        invariant
            i <= NSCLASSES,
            total == spec_total_cache(i as int),
        decreases NSCLASSES - i,
    {
        proof {
            lemma_total_cache_bound(i as int);
        }
        let CacheSize(slots) = cache_for(SizeClassIndex(i));
        total = total + slots * WORD;
        i += 1;
    }
    total
}

/// The ring depth of `class`.
pub fn cache_for(class: SizeClassIndex) -> (r: CacheSize)
    requires
        class.0 < NSCLASSES,
    ensures
        r.0 == spec_cache_slots(class.0 as int),
        CACHE_MIN <= r.0 <= CACHE_MAX,
{
    proof {
        lemma_classes_monotonic(class.0 as int);
    }
    let SizeClass(size, _) = class_at(class);
    let scale: usize = SCLASS_CUTOFF / size;
    let nslots: usize = if scale < CACHE_MIN {
        CACHE_MIN
    } else if scale > CACHE_MAX {
        CACHE_MAX
    } else {
        scale
    };
    CacheSize(nslots)
}

#[inline]
fn class_for_regular(size: usize) -> (r: SizeClassIndex)
    requires
        TINY_CUTOFF < size < SCLASS_CUTOFF,
    ensures
        spec_class_for(size as int) == Some(r.0 as int),
        NTINY <= r.0 < NSCLASSES,
{
    let last: usize = size - 1;
    proof {
        lemma_leading_zeros_is_log2(last as u64);
        lemma_log2_floor(last as int);
        lemma_log2_regular(last as int);
        lemma_regular_power(log2_floor(last as int) as nat);
    }
    let log: usize = (63 - (last as u64).leading_zeros()) as usize;
    let group_idx: usize = log - FIRST_REGULAR;
    proof {
        lemma_class_size_regular((64 + group_idx * 4) as int);
        vstd::bits::lemma_usize_shl_is_mul(1, log);
    }
    let base: usize = 1usize << log;
    proof {
        vstd::bits::lemma_usize_shr_is_div(base, 2);
        vstd::arithmetic::power2::lemma2_to64();
    }
    let delta: usize = base >> NGROUPSEX;
    let offset: usize = (last - base) / delta;
    proof {
        vstd::arithmetic::div_mod::lemma_fundamental_div_mod((last - base) as int, delta as int);
        assert(offset <= 3) by (nonlinear_arith)
            requires
                (last - base) as int == delta * offset + ((last - base) as int % (delta as int)),
                0 <= ((last - base) as int % (delta as int)),
                last - base < 4 * delta,
                delta > 0,
        ;
    }
    SizeClassIndex(NTINY + group_idx * NGROUPS + offset)
}

/// The class that serves a request of `size` bytes.
#[inline(always)]
pub fn class_for(size: usize) -> (r: Option<SizeClassIndex>)
    ensures
        r is Some <==> 0 < size < SCLASS_CUTOFF,
        r is Some <==> spec_class_for(size as int) is Some,
        r matches Some(c) ==> spec_class_for(size as int) == Some(c.0 as int) && c.0 < NSCLASSES,
{
    if size == 0 || size >= SCLASS_CUTOFF {
        return None;
    }
    if size <= TINY_CUTOFF {
        assert(((size - 1) as usize) >> 4usize == (size - 1) / 16) by (bit_vector)
            requires
                size >= 1,
        ;
        let idx: usize = (size - 1) >> LOOKUP_SHIFT;
        return Some(SizeClassIndex(idx));
    }
    Some(class_for_regular(size))
}

/// The slab size of `class`.
#[inline(always)]
pub fn pages_for(class: SizeClassIndex) -> (r: SlabSize)
    requires
        class.0 < NSCLASSES,
    ensures
        r.0 == spec_pages(class.0 as int),
{
    proof {
        lemma_pages(class.0 as int);
    }
    let SizeClass(size, _) = class_at(class);
    let ps: usize = page_size();
    let g: usize = gcd(ps, size);
    let num_pages: usize = size / g;
    SlabSize(num_pages * ps)
}

/// A request is served by the least class that holds it.
pub proof fn lemma_class_for_fits(size: int)
    requires
        0 < size < SCLASS_CUTOFF,
    ensures
        spec_class_for(size) matches Some(c) && 0 <= c < NSCLASSES && class_size(c) >= size && (c
            == 0 || class_size(c - 1) < size),
{
    if size > TINY_CUTOFF {
        let last = size - 1;
        lemma_log2_floor(last);
        lemma_log2_regular(last);
        let l = log2_floor(last);
        lemma_regular_power(l as nat);
        let g = l - 10;
        let base = vstd::arithmetic::power2::pow2(l as nat) as int;
        let delta = base / 4;
        lemma_class_size_regular(64 + g * 4);
        let offset = (last - base) / delta;
        vstd::arithmetic::div_mod::lemma_fundamental_div_mod(last - base, delta);
        assert(0 <= offset <= 3 && delta * (offset + 1) > last - base && delta * offset <= last
            - base) by (nonlinear_arith)
            requires
                last - base == delta * offset + ((last - base) % delta),
                0 <= ((last - base) % delta) < delta,
                0 <= last - base < 4 * delta,
                delta > 0,
        ;
        let c = 64 + g * 4 + offset;
        lemma_class_size_regular(c);
        assert((base / 4) * (offset + 1) == delta * (offset + 1));
        lemma_group_powers();
        if offset > 0 {
            lemma_class_size_regular(c - 1);
            assert((base / 4) * offset == delta * offset);
        } else if g > 0 {
            lemma_class_size_regular(c - 1);
            assert((c - 1 - 64) / 4 == g - 1 && (c - 1 - 64) % 4 == 3);
            assert(class_size(c - 1) == 2 * vstd::arithmetic::power2::pow2((10 + g - 1) as nat));
            assert(class_size(c - 1) == base);
        }
    }
}

/// Nothing is served for an empty request, nor at the cutoff and beyond.
pub proof fn lemma_class_for_bounds(size: int)
    ensures
        spec_class_for(0) is None,
        spec_class_for(SCLASS_CUTOFF as int) is None,
        spec_class_for(size) is Some <==> 0 < size < SCLASS_CUTOFF,
{
}

} // verus!
