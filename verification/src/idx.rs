use vstd::prelude::*;

verus! {

/// A position in one of the arenas of a tree (node or element storage).
#[derive(Clone, Copy, Debug, PartialEq, Eq, Structural)]
pub struct Idx {
    value: usize,
}

impl Idx {
    /// The arena position this index stands for.
    pub closed spec fn id(self) -> nat {
        self.value as nat
    }

    /// Indexes with the same position are the same index.
    pub proof fn lemma_id_injective(self, other: Idx)
        ensures
            self.id() == other.id() <==> self == other,
    {
    }

    /// Makes an index for arena position `i`.
    pub fn new(i: usize) -> (r: Idx)
        requires
            i < usize::MAX,
        ensures
            r.id() == i,
    {
        Idx { value: i }
    }

    /// The arena position of this index.
    pub fn get(self) -> (r: usize)
        ensures
            r == self.id(),
    {
        self.value
    }
}

} // verus!
