use vstd::prelude::*;
use core::cmp::Ordering;
use core::ops::Range;
use crate::list::{HasLink, Link};
use crate::system::{MemSlice, SysError, SysOption, System};

verus! {

#[derive(Clone, Copy, Debug, PartialEq, Eq, Structural)]
pub enum ExtentError {
    SystemError(SysError),
    OutOfBounds,
}

pub type ExtentResult<T> = Result<T, ExtentError>;

/// A range of addresses obtained from the host, with the link that lets
/// its owner keep it on a list and a note of whether it is committed.
#[derive(Clone, Copy, Debug, PartialEq, Eq, Structural)]
pub struct Extent {
    pub slice: MemSlice,
    pub link: Link,
    pub activated: bool,
}

impl Extent {
    pub open spec fn wf(&self) -> bool {
        self.slice.wf()
    }

    /// Maps `size` bytes with the given disposition.
    pub fn new<S: System>(sys: &S, size: usize, options: SysOption) -> (r: ExtentResult<Extent>)
        ensures
            match r {
                Ok(e) => e.slice.fresh(size) && e.link == Link::unlinked() && e.activated == (
                options == SysOption::Commit),
                Err(e) => e is SystemError,
            },
    {
        Self::from_mapping(sys.allocate(size, options), options)
    }

    /// What `new` makes of the host's answer to a request with the
    /// disposition `options`: an unlinked extent over the range that the
    /// host mapped, committed if that was asked for, or the host's error.
    pub fn from_mapping(outcome: Result<MemSlice, SysError>, options: SysOption) -> (r: ExtentResult<
        Extent,
    >)
        ensures
            r == match outcome {
                Ok(slice) => Ok::<Extent, ExtentError>(
                    Extent {
                        slice,
                        link: Link::unlinked(),
                        activated: options == SysOption::Commit,
                    },
                ),
                Err(e) => Err::<Extent, ExtentError>(ExtentError::SystemError(e)),
            },
    {
        match outcome {
            Ok(slice) => Ok(
                Extent {
                    slice,
                    link: Link::default(),
                    activated: match options {
                        SysOption::Commit => true,
                        _ => false,
                    },
                },
            ),
            Err(e) => Err(ExtentError::SystemError(e)),
        }
    }

    /// Hands the range on to a new owner.
    pub fn giveup(self) -> (r: Extent)
        ensures
            r == self,
    {
        self
    }

    /// Whether `range` is well ordered and lies inside the extent.
    pub fn check(&self, range: Range<usize>) -> (r: ExtentResult<()>)
        ensures
            r == if range.start <= range.end && range.end <= self.slice.len {
                Ok::<(), ExtentError>(())
            } else {
                Err(ExtentError::OutOfBounds)
            },
    {
        if range.start > range.end || range.end > self.slice.len {
            return Err(ExtentError::OutOfBounds);
        }
        Ok(())
    }

    /// Orders extents by length.
    #[inline(always)]
    pub fn ord(one: &Extent, other: &Extent) -> (r: Ordering)
        ensures
            r == if one.slice.len < other.slice.len {
                Ordering::Less
            } else if one.slice.len == other.slice.len {
                Ordering::Equal
            } else {
                Ordering::Greater
            },
    {
        let one_len: usize = one.slice.len;
        let other_len: usize = other.slice.len;
        if one_len < other_len {
            Ordering::Less
        } else if one_len == other_len {
            Ordering::Equal
        } else {
            Ordering::Greater
        }
    }

    pub fn as_ref(&self) -> (r: &MemSlice)
        ensures
            *r == self.slice,
    {
        &self.slice
    }

    pub fn as_mut(&mut self) -> (r: &mut MemSlice)
        ensures
            *r == old(self).slice,
            final(self).slice == *final(r),
            final(self).link == old(self).link,
            final(self).activated == old(self).activated,
    {
        &mut self.slice
    }

    pub fn size(&self) -> (r: usize)
        ensures
            r == self.slice.len,
    {
        self.slice.len
    }

    pub fn is_activated(&self) -> (r: bool)
        ensures
            r == self.activated,
    {
        self.activated
    }

    /// Commits the range. The extent counts as activated once the host agrees.
    pub fn activate<S: System>(&mut self, sys: &S) -> (r: ExtentResult<()>)
        ensures
            final(self).slice == old(self).slice,
            final(self).link == old(self).link,
            match r {
                Ok(()) => final(self).activated,
                Err(e) => e is SystemError && final(self).activated == old(self).activated,
            },
    {
        match sys.modify(self.slice, SysOption::Commit) {
            Ok(()) => {
                self.activated = true;
                Ok(())
            },
            Err(e) => Err(ExtentError::SystemError(e)),
        }
    }

    /// Asks the host to take back the physical pages; the address range stays reserved.
    pub fn deactivate<S: System>(&mut self, sys: &S) -> (r: ExtentResult<()>)
        ensures
            final(self).slice == old(self).slice,
            final(self).link == old(self).link,
            match r {
                Ok(()) => !final(self).activated,
                Err(e) => e is SystemError && final(self).activated == old(self).activated,
            },
    {
        let outcome = sys.modify(self.slice, SysOption::Reclaim);
        self.after_reclaim(outcome)
    }

    /// What `deactivate` makes of the host's answer: the extent is no
    /// longer committed where the host agreed, and as it was, with the
    /// host's error, where it did not.
    pub fn after_reclaim(&mut self, outcome: Result<(), SysError>) -> (r: ExtentResult<()>)
        ensures
            *final(self) == (Extent { activated: outcome is Err && old(self).activated, ..*old(self) }),
            r == match outcome {
                Ok(()) => Ok::<(), ExtentError>(()),
                Err(e) => Err::<(), ExtentError>(ExtentError::SystemError(e)),
            },
    {
        match outcome {
            Ok(()) => {
                self.activated = false;
                Ok(())
            },
            Err(e) => Err(ExtentError::SystemError(e)),
        }
    }

    /// Returns the range to the host.
    pub fn release<S: System>(self, sys: &S) -> (r: ExtentResult<()>)
        ensures
            r matches Err(e) ==> e is SystemError,
    {
        Self::after_release(sys.dealloc(self.slice))
    }

    /// What `release` makes of the host's answer: the host's error, or none.
    pub fn after_release(outcome: Result<(), SysError>) -> (r: ExtentResult<()>)
        ensures
            r == match outcome {
                Ok(()) => Ok::<(), ExtentError>(()),
                Err(e) => Err::<(), ExtentError>(ExtentError::SystemError(e)),
            },
    {
        match outcome {
            Ok(()) => Ok(()),
            Err(e) => Err(ExtentError::SystemError(e)),
        }
    }
}

impl HasLink for Extent {
    open spec fn spec_link(&self) -> Link {
        self.link
    }

    open spec fn with_link(&self, link: Link) -> Self {
        Extent { slice: self.slice, link, activated: self.activated }
    }

    proof fn lemma_with_link(&self, a: Link, b: Link) {
    }

    fn link(&self) -> (r: &Link) {
        &self.link
    }

    fn link_mut(&mut self) -> (r: &mut Link) {
        &mut self.link
    }
}

impl crate::misc::Giveup for Extent {
    type Failure = ();

    open spec fn spec_giveup(self) -> Result<Self, ()> {
        Ok(self)
    }

    /// Hands the range on to a new owner; this never fails.
    fn giveup(self) -> (r: Result<Self, ()>) {
        Ok(self)
    }
}

} // verus!
