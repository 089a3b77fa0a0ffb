//! Plain numbers as the elements of a `BTree`, summarized by their sum, and
//! the measure that searches a tree of them by running sum.
use crate::info::{BTreeInfo, BTreeItem, BTreeMeasure};
use crate::large_text::wrap_add;
use vstd::prelude::*;

verus! {

/// A number kept in a tree.
#[derive(Clone, Copy, Debug, PartialEq, Eq, Structural)]
pub struct Number(pub usize);

/// The sum of some numbers: the sum itself, and the value it takes in a
/// `usize`, which wraps around once the sum does not fit.
#[derive(Clone, Copy)]
pub struct Total {
    value: usize,
    exact: Ghost<nat>,
}

/// `a + b`, wrapping around at the size of `usize`.
fn add_wrapping(a: usize, b: usize) -> (r: usize)
    ensures
        r == wrap_add(a, b),
{
    if a <= usize::MAX - b {
        a + b
    } else {
        a - (usize::MAX - b) - 1
    }
}

impl Total {
    /// A sum that fits is held exactly.
    #[verifier::type_invariant]
    spec fn fits(self) -> bool {
        self.exact@ <= usize::MAX ==> self.value == self.exact@
    }

    /// The sum.
    pub closed spec fn sum(self) -> nat {
        self.exact@
    }

    /// The sum, when it fits in a `usize`.
    pub fn value(&self) -> (r: usize)
        ensures
            self.sum() <= usize::MAX ==> r == self.sum(),
    {
        proof {
            use_type_invariant(self);
        }
        self.value
    }
}

impl BTreeInfo for Total {
    closed spec fn spec_add(self, other: Self) -> Self {
        Total { value: wrap_add(self.value, other.value), exact: Ghost(self.exact@ + other.exact@) }
    }

    closed spec fn spec_zero() -> Self {
        Total { value: 0, exact: Ghost(0) }
    }

    proof fn lemma_add_assoc(a: Self, b: Self, c: Self) {
    }

    proof fn lemma_add_comm(a: Self, b: Self) {
    }

    proof fn lemma_add_zero(a: Self) {
    }

    fn add(self, other: Self) -> (r: Self) {
        proof {
            use_type_invariant(&self);
            use_type_invariant(&other);
        }
        Total {
            value: add_wrapping(self.value, other.value),
            exact: Ghost(self.exact@ + other.exact@),
        }
    }

    fn zero() -> (r: Self) {
        Total { value: 0, exact: Ghost(0) }
    }
}

impl BTreeItem for Number {
    type Info = Total;

    closed spec fn spec_info(&self) -> Total {
        Total { value: self.0, exact: Ghost(self.0 as nat) }
    }

    fn get_info(&self) -> (r: Total) {
        Total { value: self.0, exact: Ghost(self.0 as nat) }
    }
}

/// Weighs a subtree of numbers by their sum.
pub struct ByValue;

impl BTreeMeasure<Total> for ByValue {
    closed spec fn spec_weight(&self, count: nat, info: Total) -> nat {
        info.exact@
    }

    proof fn lemma_weight_additive(&self, c1: nat, i1: Total, c2: nat, i2: Total) {
    }

    proof fn lemma_weight_zero(&self) {
    }

    fn weight(&self, count: usize, info: Total) -> (r: usize) {
        proof {
            use_type_invariant(&info);
        }
        info.value
    }
}

/// A number weighs what it is, and a sum weighs the sum of the weights.
pub proof fn lemma_number_weight(n: Number, a: Total, b: Total)
    ensures
        ByValue.spec_weight(1, n.spec_info()) == n.0,
        n.spec_info().sum() == n.0,
        a.spec_add(b).sum() == a.sum() + b.sum(),
        Total::spec_zero().sum() == 0,
{
}

} // verus!
