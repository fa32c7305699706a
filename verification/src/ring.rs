use vstd::prelude::*;

verus! {

#[derive(Debug, PartialEq, Eq)]
pub enum RingError<T> {
    Full(T),
}

/// The slot `x` of a buffer of `cap` slots, for `x` below twice `cap`.
pub open spec fn wrap(x: int, cap: int) -> int {
    if x >= cap {
        x - cap
    } else {
        x
    }
}

/// The cursor state of a circular queue. The slots live in a buffer that
/// the caller supplies with every call; its length is the capacity.
#[derive(Clone, Copy, Debug)]
pub struct Ring {
    head: usize,
    tail: usize,
    len: usize,
}

impl Ring {
    /// The cursors fit a buffer of `cap` slots.
    pub closed spec fn wf(&self, cap: nat) -> bool {
        &&& self.len <= cap
        &&& cap == 0 ==> self.head == 0 && self.tail == 0
        &&& cap > 0 ==> self.head < cap && self.tail < cap && self.head == wrap(
            self.tail + self.len,
            cap as int,
        )
    }

    /// The queued values, oldest first, as they lie in `buf`.
    pub closed spec fn view<T>(&self, buf: Seq<T>) -> Seq<T> {
        Seq::new(self.len as nat, |i: int| buf[wrap(self.tail + i, buf.len() as int)])
    }

    pub closed spec fn spec_len(&self) -> nat {
        self.len as nat
    }

    pub proof fn lemma_view_len<T>(&self, buf: Seq<T>)
        ensures
            self.view(buf).len() == self.spec_len(),
    {
    }

    pub proof fn lemma_len_bound(&self, cap: nat)
        requires
            self.wf(cap),
        ensures
            self.spec_len() <= cap,
    {
    }

    pub fn new() -> (r: Self)
        ensures
            r.spec_len() == 0,
            forall|cap: nat| r.wf(cap),
    {
        Self { head: 0, tail: 0, len: 0 }
    }

    pub fn capacity<T>(&self, buf: &Vec<T>) -> (r: usize)
        ensures
            r == buf@.len(),
    {
        buf.len()
    }

    pub fn len(&self) -> (r: usize)
        ensures
            r == self.spec_len(),
    {
        self.len
    }

    pub fn is_empty(&self) -> (r: bool)
        ensures
            r == (self.spec_len() == 0),
    {
        self.len() == 0
    }

    pub fn is_full<T>(&self, buf: &Vec<T>) -> (r: bool)
        ensures
            r == (self.spec_len() == buf@.len()),
    {
        self.len() == buf.len()
    }

    fn next_idx(current: usize, cap: usize) -> (r: usize)
        requires
            current < cap,
        ensures
            r == wrap(current + 1, cap as int),
    {
        proof {
            if current + 1 == cap {
                vstd::arithmetic::div_mod::lemma_mod_self_0(cap as int);
            } else {
                vstd::arithmetic::div_mod::lemma_small_mod((current + 1) as nat, cap as nat);
            }
        }
        (current + 1) % cap
    }

    /// Appends `val`, or hands it back when every slot is taken.
    pub fn push<T: Copy>(&mut self, buf: &mut Vec<T>, val: T) -> (r: Result<(), RingError<T>>)
        requires
            old(self).wf(old(buf)@.len()),
        ensures
            final(buf)@.len() == old(buf)@.len(),
            final(self).wf(final(buf)@.len()),
            match r {
                Ok(()) => old(self).spec_len() < old(buf)@.len() && final(self).view(final(buf)@)
                    == old(self).view(old(buf)@).push(val),
                Err(e) => old(self).spec_len() == old(buf)@.len() && e == RingError::Full(val)
                    && *final(self) == *old(self) && final(buf)@ == old(buf)@,
            },
            final(self).spec_len() == old(self).spec_len() + if r is Ok {
                1int
            } else {
                0int
            },
    {
        if self.is_full(buf) {
            return Err(RingError::Full(val));
        }
        let head: usize = self.head;
        buf.set(head, val);
        self.head = Self::next_idx(head, buf.len());
        self.len = self.len + 1;
        proof {
            assert(self.view(buf@) =~= old(self).view(old(buf)@).push(val));
        }
        Ok(())
    }

    /// Removes and returns the oldest value.
    pub fn pop<T: Copy>(&mut self, buf: &Vec<T>) -> (r: Option<T>)
        requires
            old(self).wf(buf@.len()),
        ensures
            final(self).wf(buf@.len()),
            match r {
                Some(v) => old(self).spec_len() > 0 && v == old(self).view(buf@)[0]
                    && final(self).view(buf@) == old(self).view(buf@).subrange(
                    1,
                    old(self).spec_len() as int,
                ),
                None => old(self).spec_len() == 0 && *final(self) == *old(self),
            },
            final(self).spec_len() == old(self).spec_len() - if r is Some {
                1int
            } else {
                0int
            },
    {
        if self.is_empty() {
            return None;
        }
        let tail: usize = self.tail;
        let val: T = buf[tail];
        self.tail = Self::next_idx(tail, buf.len());
        self.len = self.len - 1;
        proof {
            assert(self.view(buf@) =~= old(self).view(buf@).subrange(
                1,
                old(self).spec_len() as int,
            ));
        }
        Some(val)
    }
}

} // verus!
