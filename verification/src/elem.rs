//! What can be stored in a set: values that name a position.
use vstd::prelude::*;

verus! {

/// A value that stands for one position of a set.
pub trait SetElem: Sized {
    /// The position that the value stands for.
    spec fn position(self) -> usize;

    fn index(self) -> (r: usize)
        ensures
            r == self.position(),
    ;
}

impl SetElem for usize {
    open spec fn position(self) -> usize {
        self
    }

    fn index(self) -> (r: usize)
        ensures
            r == self,
    {
        self
    }
}

/// A `usize` element stands for its own value: it is stored at position `i` itself.
pub proof fn lemma_usize_stands_for_itself(i: usize)
    ensures
        i.position() == i,
{
}

} // verus!
