use vstd::prelude::*;

verus! {

/// A value whose owner can hand it on: the value that comes back stands
/// for what was handed over, and the one that went in is spent.
pub trait Giveup: Sized {
    type Failure: Default;

    /// What `giveup` returns.
    spec fn spec_giveup(self) -> Result<Self, Self::Failure>;

    fn giveup(self) -> (r: Result<Self, Self::Failure>)
        ensures
            r == self.spec_giveup(),
    ;
}

} // verus!
