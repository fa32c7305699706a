use vstd::prelude::*;

verus! {

#[derive(Clone, Copy, Debug, PartialEq, Eq, Structural)]
pub enum BitmapError {
    InsufficientSize { have: usize, need: usize },
    OutOfBounds { index: usize, size: usize },
}

pub type BitmapWord = u64;

/// Bits held by one word of storage.
pub const WORD_BITS: usize = 64;

/// Bit `b` of the word `w`.
pub open spec fn bit_of(w: u64, b: u64) -> bool {
    (w >> b) & 1u64 == 1u64
}

/// Bit `g` of a sequence of words, counted from the low bit of the first word.
pub open spec fn bit_at(words: Seq<u64>, g: int) -> bool {
    bit_of(words[g / 64], (g % 64) as u64)
}

/// How many entries of `s` are set.
pub open spec fn count_set(s: Seq<bool>) -> nat
    decreases s.len(),
{
    if s.len() == 0 {
        0
    } else {
        count_set(s.drop_last()) + if s.last() {
            1nat
        } else {
            0nat
        }
    }
}

pub proof fn lemma_count_bounds(s: Seq<bool>)
    ensures
        count_set(s) <= s.len(),
        count_set(s) == 0 <==> forall|i: int| 0 <= i < s.len() ==> !s[i],
        count_set(s) == s.len() <==> forall|i: int| 0 <= i < s.len() ==> s[i],
    decreases s.len(),
{
    if s.len() > 0 {
        let t = s.drop_last();
        lemma_count_bounds(t);
        if count_set(s) == 0 {
            assert forall|i: int| 0 <= i < s.len() implies !s[i] by {
                if i < t.len() {
                    assert(t[i] == s[i]);
                }
            }
        }
        if forall|i: int| 0 <= i < s.len() ==> !s[i] {
            assert forall|i: int| 0 <= i < t.len() implies !t[i] by {
                assert(t[i] == s[i]);
            }
        }
        if count_set(s) == s.len() {
            assert forall|i: int| 0 <= i < s.len() implies s[i] by {
                if i < t.len() {
                    assert(t[i] == s[i]);
                }
            }
        }
        if forall|i: int| 0 <= i < s.len() ==> s[i] {
            assert forall|i: int| 0 <= i < t.len() implies t[i] by {
                assert(t[i] == s[i]);
            }
        }
    }
}

pub proof fn lemma_count_update(s: Seq<bool>, i: int, v: bool)
    requires
        0 <= i < s.len(),
    ensures
        count_set(s.update(i, v)) == count_set(s) + (if v {
            1int
        } else {
            0int
        }) - (if s[i] {
            1int
        } else {
            0int
        }),
    decreases s.len(),
{
    let u = s.update(i, v);
    if i == s.len() - 1 {
        assert(u.drop_last() =~= s.drop_last());
    } else {
        assert(u.drop_last() =~= s.drop_last().update(i, v));
        lemma_count_update(s.drop_last(), i, v);
    }
}

proof fn lemma_bit_set(w: u64, b: u64, c: u64)
    requires
        b < 64,
        c < 64,
    ensures
        bit_of(w | (1u64 << b), c) == (bit_of(w, c) || c == b),
        bit_of(w & !(1u64 << b), c) == (bit_of(w, c) && c != b),
{
    assert(b < 64 && c < 64 ==> (((w | (1u64 << b)) >> c) & 1u64 == 1u64) == (((w >> c) & 1u64
        == 1u64) || c == b)) by (bit_vector);
    assert(b < 64 && c < 64 ==> (((w & !(1u64 << b)) >> c) & 1u64 == 1u64) == (((w >> c) & 1u64
        == 1u64) && c != b)) by (bit_vector);
}

proof fn lemma_bit_masks(w: u64, m: u64, o: u64, c: u64)
    requires
        o < 64,
        c < 64,
    ensures
        bit_of(w ^ 0xffff_ffff_ffff_ffffu64, c) == !bit_of(w, c),
        bit_of(w & m, c) == (bit_of(w, c) && bit_of(m, c)),
        bit_of(0xffff_ffff_ffff_ffffu64, c),
        !bit_of(0u64, c),
        bit_of(0xffff_ffff_ffff_ffffu64 << o, c) == (c >= o),
        bit_of((((1u64 << o) - 1) as u64), c) == (c < o),
        o > 0 ==> bit_of(0xffff_ffff_ffff_ffffu64 >> ((64 - o) as u64), c) == (c < o),
{
    assert(c < 64 ==> (((w ^ 0xffff_ffff_ffff_ffffu64) >> c) & 1u64 == 1u64) == !((w >> c) & 1u64
        == 1u64)) by (bit_vector);
    assert(c < 64 ==> (((w & m) >> c) & 1u64 == 1u64) == (((w >> c) & 1u64 == 1u64) && ((m >> c)
        & 1u64 == 1u64))) by (bit_vector);
    assert(c < 64 ==> (0xffff_ffff_ffff_ffffu64 >> c) & 1u64 == 1u64) by (bit_vector);
    assert(c < 64 ==> (0u64 >> c) & 1u64 != 1u64) by (bit_vector);
    assert(c < 64 && o < 64 ==> ((((0xffff_ffff_ffff_ffffu64 << o) >> c) & 1u64 == 1u64) == (c
        >= o))) by (bit_vector);
    assert(c < 64 && o < 64 ==> ((((((1u64 << o) - 1) as u64) >> c) & 1u64 == 1u64) == (c < o)))
        by (bit_vector);
    assert(c < 64 && 0 < o < 64 ==> ((((0xffff_ffff_ffff_ffffu64 >> ((64 - o) as u64)) >> c)
        & 1u64 == 1u64) == (c < o))) by (bit_vector);
}

#[inline(always)]
fn word_index(bit: usize) -> (r: usize)
    ensures
        r == bit / 64,
{
    bit / WORD_BITS
}

#[inline(always)]
fn bit_index(bit: usize) -> (r: usize)
    ensures
        r == bit % 64,
{
    bit % WORD_BITS
}

#[inline(always)]
fn bit_mask(bit: usize) -> (r: u64)
    ensures
        r == 1u64 << ((bit % 64) as u64),
{
    1u64 << (bit_index(bit) as u64)
}

#[inline(always)]
fn mask_from(start_bit: usize) -> (r: u64)
    requires
        start_bit < 64,
    ensures
        r == 0xffff_ffff_ffff_ffffu64 << (start_bit as u64),
{
    u64::MAX << (start_bit as u64)
}

/// The words that back a bitmap.
#[derive(Debug)]
pub struct BmStore {
    words: Vec<u64>,
}

impl BmStore {
    pub closed spec fn view(&self) -> Seq<u64> {
        self.words@
    }

    pub fn from(words: Vec<u64>) -> (r: BmStore)
        ensures
            r.view() == words@,
    {
        BmStore { words }
    }

    #[inline(always)]
    pub fn as_slice(&self) -> (r: &Vec<u64>)
        ensures
            r@ == self.view(),
    {
        &self.words
    }
}

/// A set of `bits` flags over caller-supplied words, with a count of the
/// flags that are set.
#[derive(Debug)]
pub struct Bitmap {
    store: BmStore,
    bits: usize,
    used: usize,
}

/// The mask that a scan from word `from` to word `to` applies to word `w`.
pub open spec fn range_mask(w: int, from: int, to: int, start_mask: u64, end_mask: u64) -> u64 {
    if w == from {
        start_mask
    } else if w == to {
        end_mask
    } else {
        0xffff_ffff_ffff_ffffu64
    }
}

/// Whether `r` is the first index in `[lo, hi)` at which `s` holds `want`,
/// or `None` where there is no such index.
pub open spec fn is_first(s: Seq<bool>, want: bool, lo: int, hi: int, r: Option<usize>) -> bool {
    match r {
        Some(i) => lo <= i < hi && s[i as int] == want && forall|j: int|
            lo <= j < i ==> s[j] != want,
        None => forall|j: int| lo <= j < hi ==> s[j] != want,
    }
}

/// The result of a search for `want` that starts at `start` and wraps
/// around once: the first hit in `[start, len)`, else the first in `[0, start)`.
pub open spec fn is_wrapping_first(s: Seq<bool>, want: bool, start: int, r: Option<usize>) -> bool {
    if start >= s.len() {
        r is None
    } else if exists|j: int| start <= j < s.len() && s[j] == want {
        r is Some && is_first(s, want, start, s.len() as int, r)
    } else {
        is_first(s, want, 0, start, r)
    }
}

impl Bitmap {
    /// The flags, one per index below `bits`.
    pub closed spec fn view(&self) -> Seq<bool> {
        Seq::new(self.bits as nat, |g: int| bit_at(self.store.words@, g))
    }

    /// The count of set flags that the bitmap keeps.
    pub closed spec fn spec_used(&self) -> nat {
        self.used as nat
    }

    /// The number of backing words.
    pub closed spec fn spec_words(&self) -> nat {
        self.store.words@.len()
    }

    /// The backing words hold every flag, and the count is that of the set flags.
    pub closed spec fn wf(&self) -> bool {
        &&& self.bits <= self.store.words@.len() * 64
        &&& self.used == count_set(self.view())
    }

    pub proof fn lemma_view_len(&self)
        ensures
            self.view().len() == self.spec_bits(),
    {
    }

    pub proof fn lemma_used(&self)
        requires
            self.wf(),
        ensures
            self.spec_used() == count_set(self.view()),
            self.spec_used() <= self.view().len(),
            self.spec_bits() <= self.spec_words() * 64,
    {
        lemma_count_bounds(self.view());
    }

    pub closed spec fn spec_bits(&self) -> nat {
        self.bits as nat
    }

    /// Words needed for `fields` flags.
    #[inline(always)]
    pub fn words(fields: usize) -> (r: usize)
        ensures
            r == (fields + 63) / 64,
    {
        let q: usize = fields / WORD_BITS;
        if fields % WORD_BITS != 0 {
            q + 1
        } else {
            q
        }
    }

    /// Bytes needed for `fields` flags.
    #[inline(always)]
    pub fn bytes(fields: usize) -> (r: usize)
        ensures
            r == ((fields + 63) / 64) * 8,
    {
        Self::words(fields) * 8
    }

    /// Flags that the backing words could hold, saturating at the largest word.
    #[inline(always)]
    pub fn available(&self) -> (r: usize)
        ensures
            r == if self.spec_words() * 64 <= usize::MAX {
                (self.spec_words() * 64) as usize
            } else {
                usize::MAX
            },
    {
        Self::capacity_of(&self.store.words)
    }

    fn capacity_of(words: &Vec<u64>) -> (r: usize)
        ensures
            r == if words@.len() * 64 <= usize::MAX {
                (words@.len() * 64) as usize
            } else {
                usize::MAX
            },
    {
        match words.len().checked_mul(WORD_BITS) {
            Some(a) => a,
            None => usize::MAX,
        }
    }

    #[inline(always)]
    pub fn store(&self) -> (r: &Vec<u64>)
        ensures
            r@.len() == self.spec_words(),
    {
        self.store.as_slice()
    }

    #[inline(always)]
    pub fn bits(&self) -> (r: usize)
        ensures
            r == self.spec_bits(),
            r == self.view().len(),
    {
        self.bits
    }

    fn position(&self, index: usize) -> (r: Result<(usize, usize), BitmapError>)
        ensures
            r == if index < self.spec_bits() {
                Ok::<(usize, usize), BitmapError>(((index / 64) as usize, (index % 64) as usize))
            } else {
                Err(BitmapError::OutOfBounds { index, size: self.spec_bits() as usize })
            },
    {
        if index >= self.bits {
            return Err(BitmapError::OutOfBounds { index, size: self.bits });
        }
        Ok((word_index(index), bit_index(index)))
    }

    /// A bitmap without flags.
    pub fn empty() -> (r: Self)
        ensures
            r.wf(),
            r@ == Seq::<bool>::empty(),
            r.spec_used() == 0,
    {
        let r = Self { store: BmStore::from(Vec::new()), bits: 0, used: 0 };
        proof {
            assert(r@ =~= Seq::<bool>::empty());
        }
        r
    }

    /// A bitmap of `bits` flags over `store`, all clear.
    pub fn zero(store: Vec<u64>, bits: usize) -> (r: Result<Self, BitmapError>)
        ensures
            match r {
                Ok(bm) => bits <= store@.len() * 64 && bm.wf() && bm@ == Seq::new(
                    bits as nat,
                    |g: int| false,
                ) && bm.spec_used() == 0 && bm.spec_words() == store@.len(),
                Err(e) => bits > store@.len() * 64 && e == (BitmapError::InsufficientSize {
                    have: (store@.len() * 64) as usize,
                    need: bits,
                }),
            },
    {
        let available: usize = Self::capacity_of(&store);
        if bits > available {
            return Err(BitmapError::InsufficientSize { have: available, need: bits });
        }
        let mut bitmap = Self { store: BmStore::from(store), bits, used: 0 };
        bitmap.clear_all();
        Ok(bitmap)
    }

    /// A bitmap of `bits` flags over `store`, all set.
    pub fn one(store: Vec<u64>, bits: usize) -> (r: Result<Self, BitmapError>)
        ensures
            match r {
                Ok(bm) => bits <= store@.len() * 64 && bm.wf() && bm@ == Seq::new(
                    bits as nat,
                    |g: int| true,
                ) && bm.spec_used() == bits && bm.spec_words() == store@.len(),
                Err(e) => bits > store@.len() * 64 && e == (BitmapError::InsufficientSize {
                    have: (store@.len() * 64) as usize,
                    need: bits,
                }),
            },
    {
        let available: usize = Self::capacity_of(&store);
        if bits > available {
            return Err(BitmapError::InsufficientSize { have: available, need: bits });
        }
        let mut bitmap = Self { store: BmStore::from(store), bits, used: 0 };
        bitmap.set_all();
        Ok(bitmap)
    }

    /// Whether the backing words could hold `fields` flags.
    pub fn check(&self, fields: usize) -> (r: Result<(), BitmapError>)
        ensures
            r == if fields <= self.spec_words() * 64 {
                Ok::<(), BitmapError>(())
            } else {
                Err(
                    BitmapError::InsufficientSize {
                        have: (self.spec_words() * 64) as usize,
                        need: fields,
                    },
                )
            },
    {
        let total_bits: usize = self.available();
        if fields > total_bits {
            return Err(BitmapError::InsufficientSize { have: total_bits, need: fields });
        }
        Ok(())
    }

    /// The backing words can hold every flag.
    pub closed spec fn fits(&self) -> bool {
        self.bits <= self.store.words@.len() * 64
    }

    /// A bitmap that counts its flags rightly has words for all of them.
    pub proof fn lemma_fits(&self)
        requires
            self.wf(),
        ensures
            self.fits(),
    {
    }

    proof fn lemma_test_bit(w: u64, b: u64)
        requires
            b < 64,
        ensures
            ((w & (1u64 << b)) != 0) == bit_of(w, b),
    {
        assert(b < 64 ==> (((w & (1u64 << b)) != 0) == ((w >> b) & 1u64 == 1u64))) by (bit_vector);
    }

    /// Sets flag `index`; the count grows when the flag was clear.
    #[inline]
    pub fn set(&mut self, index: usize) -> (r: Result<(), BitmapError>)
        requires
            old(self).wf(),
        ensures
            final(self).wf(),
            final(self).spec_bits() == old(self).spec_bits(),
            final(self).spec_words() == old(self).spec_words(),
            match r {
                Ok(()) => index < old(self).spec_bits() && final(self)@ == old(self)@.update(
                    index as int,
                    true,
                ),
                Err(e) => index >= old(self).spec_bits() && *final(self) == *old(self) && e == (
                BitmapError::OutOfBounds { index, size: old(self).spec_bits() as usize }),
            },
    {
        if let Err(e) = self.position(index) {
            return Err(e);
        }
        let w: usize = word_index(index);
        let mask: u64 = bit_mask(index);
        let word: u64 = self.store.words[w];
        let was: bool = (word & mask) != 0;
        proof {
            Self::lemma_test_bit(word, (index % 64) as u64);
            lemma_count_bounds(self@);
            lemma_count_update(self@, index as int, true);
        }
        self.store.words.set(w, word | mask);
        if !was {
            self.used = self.used + 1;
        }
        proof {
            assert forall|g: int| 0 <= g < self.bits implies #[trigger] bit_at(
                self.store.words@,
                g,
            ) == old(self)@.update(index as int, true)[g] by {
                if g / 64 == w as int {
                    lemma_bit_set(word, (index % 64) as u64, (g % 64) as u64);
                }
            }
            assert(self@ =~= old(self)@.update(index as int, true));
        }
        Ok(())
    }

    /// Clears flag `index`; the count shrinks when the flag was set.
    #[inline]
    pub fn clear(&mut self, index: usize) -> (r: Result<(), BitmapError>)
        requires
            old(self).wf(),
        ensures
            final(self).wf(),
            final(self).spec_bits() == old(self).spec_bits(),
            final(self).spec_words() == old(self).spec_words(),
            match r {
                Ok(()) => index < old(self).spec_bits() && final(self)@ == old(self)@.update(
                    index as int,
                    false,
                ),
                Err(e) => index >= old(self).spec_bits() && *final(self) == *old(self) && e == (
                BitmapError::OutOfBounds { index, size: old(self).spec_bits() as usize }),
            },
    {
        if let Err(e) = self.position(index) {
            return Err(e);
        }
        let w: usize = word_index(index);
        let mask: u64 = bit_mask(index);
        let word: u64 = self.store.words[w];
        let was: bool = (word & mask) != 0;
        proof {
            Self::lemma_test_bit(word, (index % 64) as u64);
            lemma_count_bounds(self@);
            lemma_count_update(self@, index as int, false);
        }
        self.store.words.set(w, word & !mask);
        if was {
            self.used = self.used - 1;
        }
        proof {
            assert forall|g: int| 0 <= g < self.bits implies #[trigger] bit_at(
                self.store.words@,
                g,
            ) == old(self)@.update(index as int, false)[g] by {
                if g / 64 == w as int {
                    lemma_bit_set(word, (index % 64) as u64, (g % 64) as u64);
                }
            }
            assert(self@ =~= old(self)@.update(index as int, false));
        }
        Ok(())
    }

    /// Reads flag `index`.
    #[inline]
    pub fn get(&self, index: usize) -> (r: Result<bool, BitmapError>)
        requires
            self.wf(),
        ensures
            r == if index < self.spec_bits() {
                Ok::<bool, BitmapError>(self@[index as int])
            } else {
                Err(BitmapError::OutOfBounds { index, size: self.spec_bits() as usize })
            },
    {
        if let Err(e) = self.position(index) {
            return Err(e);
        }
        let value: u64 = self.store.words[word_index(index)];
        proof {
            Self::lemma_test_bit(value, (index % 64) as u64);
        }
        Ok((value & bit_mask(index)) != 0)
    }

    /// Clears every flag.
    pub fn clear_all(&mut self)
        requires
            old(self).fits(),
        ensures
            final(self).wf(),
            final(self).spec_bits() == old(self).spec_bits(),
            final(self).spec_words() == old(self).spec_words(),
            final(self)@ == Seq::new(old(self).spec_bits(), |g: int| false),
            final(self).spec_used() == 0,
    {
        let n: usize = self.store.words.len();
        let mut i: usize = 0;
        while i < n
            invariant
                i <= n,
                n == self.store.words@.len(),
                self.bits == old(self).bits,
                forall|k: int| 0 <= k < i ==> self.store.words@[k] == 0u64,
            decreases n - i,
        {
            self.store.words.set(i, 0);
            i = i + 1;
        }
        self.used = 0;
        proof {
            assert forall|g: int| 0 <= g < self.bits implies !#[trigger] bit_at(
                self.store.words@,
                g,
            ) by {
                lemma_bit_masks(0, 0, 0, (g % 64) as u64);
            }
            assert(self@ =~= Seq::new(old(self).spec_bits(), |g: int| false));
            lemma_count_bounds(self@);
        }
    }

    /// Sets every flag.
    pub fn set_all(&mut self)
        requires
            old(self).fits(),
        ensures
            final(self).wf(),
            final(self).spec_bits() == old(self).spec_bits(),
            final(self).spec_words() == old(self).spec_words(),
            final(self)@ == Seq::new(old(self).spec_bits(), |g: int| true),
            final(self).spec_used() == old(self).spec_bits(),
    {
        let n: usize = self.store.words.len();
        let full_words: usize = self.bits / WORD_BITS;
        let mut i: usize = 0;
        while i < full_words
            invariant
                i <= full_words <= n,
                n == self.store.words@.len(),
                self.bits == old(self).bits,
                forall|k: int| 0 <= k < i ==> self.store.words@[k] == 0xffff_ffff_ffff_ffffu64,
            decreases full_words - i,
        {
            self.store.words.set(i, u64::MAX);
            i = i + 1;
        }
        let remaining_bits: usize = self.bits % WORD_BITS;
        if remaining_bits > 0 && full_words < n {
            let mask: u64 = u64::MAX >> ((WORD_BITS - remaining_bits) as u64);
            self.store.words.set(full_words, mask);
        }
        self.used = self.bits;
        proof {
            assert forall|g: int| 0 <= g < self.bits implies #[trigger] bit_at(
                self.store.words@,
                g,
            ) by {
                lemma_bit_masks(0, 0, remaining_bits as u64, (g % 64) as u64);
            }
            assert(self@ =~= Seq::new(old(self).spec_bits(), |g: int| true));
            lemma_count_bounds(self@);
        }
    }

    /// Whether flag `g` is met by a scan of the words `from..=to` for flags
    /// that differ from `invert`, under `start_mask` on the first word and
    /// `end_mask` on the last.
    pub closed spec fn hit(
        &self,
        invert: bool,
        from: int,
        to: int,
        start_mask: u64,
        end_mask: u64,
        g: int,
    ) -> bool {
        &&& 0 <= g < self.bits
        &&& from <= g / 64 <= to
        &&& bit_of(range_mask(g / 64, from, to, start_mask, end_mask), (g % 64) as u64)
        &&& bit_at(self.store.words@, g) != invert
    }

    /// Scans the words `from_word..=to_word` and returns the lowest flag
    /// that a mask admits and that differs from `invert`.
    fn iter_range(
        &self,
        from_word: usize,
        to_word: usize,
        start_mask: u64,
        end_mask: u64,
        invert: bool,
    ) -> (r: Option<usize>)
        requires
            self.fits(),
        ensures
            match r {
                Some(g) => self.hit(
                    invert,
                    from_word as int,
                    to_word as int,
                    start_mask,
                    end_mask,
                    g as int,
                ) && forall|j: int|
                    0 <= j < g ==> !self.hit(
                        invert,
                        from_word as int,
                        to_word as int,
                        start_mask,
                        end_mask,
                        j,
                    ),
                None => forall|j: int|
                    !self.hit(invert, from_word as int, to_word as int, start_mask, end_mask, j),
            },
    {
        broadcast use vstd::std_specs::bits::axiom_u64_trailing_zeros;

        let n: usize = self.store.words.len();
        let mut idx: usize = from_word;
        while idx <= to_word && idx < n
            invariant
                from_word <= idx,
                n == self.store.words@.len(),
                self.fits(),
                forall|j: int|
                    self.hit(invert, from_word as int, to_word as int, start_mask, end_mask, j)
                        ==> j / 64 >= idx,
            decreases n - idx,
        {
            let word: u64 = self.store.words[idx];
            let value: u64 = if invert {
                word ^ u64::MAX
            } else {
                word
            };
            let mask: u64 = if idx == from_word {
                start_mask
            } else if idx == to_word {
                end_mask
            } else {
                u64::MAX
            };
            let masked: u64 = value & mask;
            proof {
                assert forall|c: u64| c < 64 implies #[trigger] bit_of(masked, c) == ((bit_of(
                    word,
                    c,
                ) != invert) && bit_of(mask, c)) by {
                    lemma_bit_masks(word, mask, 0, c);
                    lemma_bit_masks(value, mask, 0, c);
                }
            }
            if masked != 0 {
                let bit_offset: usize = masked.trailing_zeros() as usize;
                assert(bit_offset < 64);
                assert(bit_of(masked, bit_offset as u64));
                assert(forall|c: u64| c < bit_offset ==> !bit_of(masked, c));
                let found: Option<usize> = match idx.checked_mul(WORD_BITS) {
                    Some(base) => base.checked_add(bit_offset),
                    None => None,
                };
                if let Some(global_index) = found {
                    if global_index < self.bits {
                        proof {
                            assert(global_index as int / 64 == idx as int);
                            assert(global_index as int % 64 == bit_offset as int);
                            assert forall|j: int| 0 <= j < global_index implies !self.hit(
                                invert,
                                from_word as int,
                                to_word as int,
                                start_mask,
                                end_mask,
                                j,
                            ) by {
                                if j / 64 == idx as int {
                                    assert(!bit_of(masked, (j % 64) as u64));
                                }
                            }
                        }
                        return Some(global_index);
                    }
                }
                proof {
                    assert forall|j: int|
                        self.hit(
                            invert,
                            from_word as int,
                            to_word as int,
                            start_mask,
                            end_mask,
                            j,
                        ) implies j / 64 >= idx + 1 by {
                        if j / 64 == idx as int {
                            assert(bit_of(masked, (j % 64) as u64));
                            assert(j % 64 >= bit_offset);
                        }
                    }
                }
            } else {
                proof {
                    assert forall|j: int|
                        self.hit(
                            invert,
                            from_word as int,
                            to_word as int,
                            start_mask,
                            end_mask,
                            j,
                        ) implies j / 64 >= idx + 1 by {
                        if j / 64 == idx as int {
                            lemma_bit_masks(0, 0, 0, (j % 64) as u64);
                            assert(bit_of(masked, (j % 64) as u64));
                        }
                    }
                }
            }
            idx = idx + 1;
        }
        None
    }

    /// The first set flag at or after `start`, wrapping around once.
    pub fn find_fs(&self, start: Option<usize>) -> (r: Option<usize>)
        requires
            self.wf(),
        ensures
            is_wrapping_first(
                self@,
                true,
                match start {
                    Some(s) => s as int,
                    None => 0,
                },
                r,
            ),
    {
        self.find_bit(start, false)
    }

    /// The first clear flag at or after `start`, wrapping around once.
    pub fn find_fc(&self, start: Option<usize>) -> (r: Option<usize>)
        requires
            self.wf(),
        ensures
            is_wrapping_first(
                self@,
                false,
                match start {
                    Some(s) => s as int,
                    None => 0,
                },
                r,
            ),
    {
        self.find_bit(start, true)
    }

    fn find_bit(&self, start: Option<usize>, invert: bool) -> (r: Option<usize>)
        requires
            self.fits(),
        ensures
            is_wrapping_first(
                self@,
                !invert,
                match start {
                    Some(s) => s as int,
                    None => 0,
                },
                r,
            ),
    {
        let start_bit: usize = match start {
            Some(s) => s,
            None => 0,
        };
        if start_bit >= self.bits {
            return None;
        }
        let start_word: usize = word_index(start_bit);
        let start_offset: usize = bit_index(start_bit);
        let last_word: usize = word_index(self.bits - 1);
        let first: Option<usize> = self.iter_range(
            start_word,
            last_word,
            mask_from(start_offset),
            u64::MAX,
            invert,
        );
        proof {
            let sm: u64 = 0xffff_ffff_ffff_ffffu64 << (start_offset as u64);
            assert forall|j: int|
                self.hit(
                    invert,
                    start_word as int,
                    last_word as int,
                    sm,
                    0xffff_ffff_ffff_ffffu64,
                    j,
                ) == (start_bit <= j < self.bits && self@[j] == !invert) by {
                if 0 <= j < self.bits {
                    lemma_bit_masks(0, 0, start_offset as u64, (j % 64) as u64);
                }
            }
        }
        proof {
            let sm: u64 = 0xffff_ffff_ffff_ffffu64 << (start_offset as u64);
            let all: u64 = 0xffff_ffff_ffff_ffffu64;
            assert forall|j: int| start_bit <= j < self.bits implies (#[trigger] self@[j] == !invert)
                == self.hit(invert, start_word as int, last_word as int, sm, all, j) by {}
            if let Some(i) = first {
                assert(self.hit(invert, start_word as int, last_word as int, sm, all, i as int));
                assert(self@[i as int] == !invert);
            }
        }
        match first {
            Some(i) => Some(i),
            None => self.wrap_search(start_bit, start_word, start_offset, invert),
        }
    }

    fn wrap_search(&self, start_bit: usize, start_word: usize, start_offset: usize, invert: bool) -> (r:
        Option<usize>)
        requires
            self.fits(),
            start_bit < self.bits,
            start_word == start_bit / 64,
            start_offset == start_bit % 64,
        ensures
            is_first(self@, !invert, 0, start_bit as int, r),
    {
        if start_bit == 0 {
            return None;
        }
        let wrap_end_mask: u64 = (1u64 << (start_offset as u64)).wrapping_sub(1);
        let wrap_to_word: usize = start_word;
        let wrap_start_mask: u64 = if wrap_to_word == 0 {
            wrap_end_mask
        } else {
            u64::MAX
        };
        proof {
            assert(start_offset < 64 ==> (1u64 << (start_offset as u64)) >= 1) by (bit_vector);
            assert forall|j: int|
                self.hit(invert, 0, wrap_to_word as int, wrap_start_mask, wrap_end_mask, j) == (0
                    <= j < start_bit && self@[j] == !invert) by {
                if 0 <= j < self.bits {
                    lemma_bit_masks(0, 0, start_offset as u64, (j % 64) as u64);
                }
            }
        }
        let r: Option<usize> = self.iter_range(
            0,
            wrap_to_word,
            wrap_start_mask,
            wrap_end_mask,
            invert,
        );
        proof {
            assert forall|j: int| 0 <= j < start_bit implies (#[trigger] self@[j] == !invert)
                == self.hit(invert, 0, wrap_to_word as int, wrap_start_mask, wrap_end_mask, j) by {}
            if let Some(i) = r {
                assert(self.hit(
                    invert,
                    0,
                    wrap_to_word as int,
                    wrap_start_mask,
                    wrap_end_mask,
                    i as int,
                ));
                assert(self@[i as int] == !invert ==> i < start_bit);
                assert(i < start_bit && self@[i as int] == !invert);
            }
        }
        r
    }

    /// Whether no flag is set.
    #[inline]
    pub fn is_clear(&self) -> (r: bool)
        requires
            self.wf(),
        ensures
            r == (self.spec_used() == 0),
            r == forall|i: int| 0 <= i < self@.len() ==> !self@[i],
    {
        proof {
            lemma_count_bounds(self@);
        }
        self.used == 0
    }

    /// Whether every flag is set.
    #[inline]
    pub fn is_full(&self) -> (r: bool)
        requires
            self.wf(),
        ensures
            r == (self.spec_used() == self.spec_bits()),
            r == forall|i: int| 0 <= i < self@.len() ==> self@[i],
    {
        proof {
            lemma_count_bounds(self@);
        }
        self.used >= self.bits
    }

    /// Whether at least one flag is clear.
    #[inline]
    pub fn one_clear(&self) -> (r: bool)
        requires
            self.wf(),
        ensures
            r == (self.spec_used() < self.spec_bits()),
            r == exists|i: int| 0 <= i < self@.len() && !self@[i],
    {
        proof {
            lemma_count_bounds(self@);
        }
        self.used < self.bits
    }
}

} // verus!
