//! An adapter that holds a stream of another kind.

use vstd::prelude::*;

verus! {

/// A stream held for adaptation.
pub struct Io<I> {
    io: I,
}

impl<I> Io<I> {
    /// The stream that is held.
    pub closed spec fn inner(self) -> I {
        self.io
    }

    pub fn new(io: I) -> (a: Self)
        ensures
            a.inner() == io,
    {
        Io { io }
    }

    pub fn into_inner(self) -> (io: I)
        ensures
            io == self.inner(),
    {
        self.io
    }
}

} // verus!
