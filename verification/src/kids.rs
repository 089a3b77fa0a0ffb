use crate::idx::Idx;
use vstd::prelude::*;

verus! {

/// Most children a node of a `BTree` can hold.
pub const B: usize = 6;

/// Children a node keeps after a split; the rest move to a new node.
pub const SPLIT_POINT: usize = 4;

/// The children of a tree node: a filled prefix of at most `B` slots.
#[derive(Clone, Copy)]
pub struct Kids {
    value: [Option<Idx>; 6],
}

impl Kids {
    /// The number of filled slots before the first empty one.
    pub closed spec fn len(self) -> nat {
        let v = self.value@;
        if v[0] is None {
            0
        } else if v[1] is None {
            1
        } else if v[2] is None {
            2
        } else if v[3] is None {
            3
        } else if v[4] is None {
            4
        } else if v[5] is None {
            5
        } else {
            6
        }
    }

    /// Filled slots form a prefix.
    pub closed spec fn wf(self) -> bool {
        forall|i: int| #![trigger self.value@[i]] self.len() <= i < 6 ==> self.value@[i] is None
    }

    /// The children, in order.
    pub closed spec fn ids(self) -> Seq<Idx> {
        Seq::new(self.len(), |i: int| self.value@[i]->0)
    }

    pub proof fn lemma_len_bound(self)
        ensures
            self.len() <= B,
            self.ids().len() == self.len(),
    {
    }

    /// An empty set of children.
    pub fn new() -> (r: Kids)
        ensures
            r.wf(),
            r.ids() == Seq::<Idx>::empty(),
    {
        let r = Kids { value: [None;6] };
        assert(r.ids() =~= Seq::<Idx>::empty());
        r
    }

    /// Two children, in the given order.
    pub fn from_pair(a: Idx, b: Idx) -> (r: Kids)
        ensures
            r.wf(),
            r.ids() == seq![a, b],
    {
        let mut r = Kids::new();
        assert(r.ids().len() == 0);
        assert(r.len() == 0);
        assert(r.value@[3] is None);
        assert(forall|i: int| 0 <= i < 6 ==> r.value@[i] is None);
        r.value[0] = Some(a);
        r.value[1] = Some(b);
        assert(r.value@[2] is None && r.value@[3] is None && r.value@[4] is None && r.value@[5] is None);
        assert(r.len() == 2);
        assert(r.ids() =~= seq![a, b]);
        r
    }

    /// The number of children.
    pub fn count(&self) -> (r: usize)
        requires
            self.wf(),
        ensures
            r == self.ids().len(),
    {
        let mut i: usize = 0;
        while i < B
            invariant
                i <= self.len(),
                self.len() <= B,
            decreases B - i,
        {
            if self.value[i].is_none() {
                return i;
            }
            i += 1;
        }
        i
    }

    /// The child in slot `i`, or nothing past the last child.
    pub fn slot(&self, i: usize) -> (r: Option<Idx>)
        requires
            self.wf(),
        ensures
            i < self.ids().len() ==> r == Some(self.ids()[i as int]),
            i >= self.ids().len() ==> r is None,
    {
        if i < B {
            self.value[i]
        } else {
            None
        }
    }

    /// The child in slot `index`.
    pub fn get(&self, index: usize) -> (r: Idx)
        requires
            self.wf(),
            index < self.ids().len(),
        ensures
            r == self.ids()[index as int],
    {
        match self.value[index] {
            Some(i) => i,
            None => {
                assert(false);
                Idx::new(0)
            },
        }
    }

    /// The slot holding `kid`, the first one if it occurs more than once.
    pub fn position(&self, kid: Idx) -> (r: Option<usize>)
        requires
            self.wf(),
        ensures
            match r {
                Some(p) => p < self.ids().len() && self.ids()[p as int] == kid && forall|q: int|
                    0 <= q < p ==> self.ids()[q] != kid,
                None => !self.ids().contains(kid),
            },
    {
        let mut i: usize = 0;
        while i < B
            invariant
                self.wf(),
                i <= B,
                forall|q: int| 0 <= q < i && q < self.len() ==> self.ids()[q] != kid,
                i <= self.len(),
            decreases B - i,
        {
            match self.value[i] {
                None => {
                    return None;
                },
                Some(k) => {
                    if k == kid {
                        return Some(i);
                    }
                },
            }
            i += 1;
        }
        None
    }

    /// Inserts `value` in slot `index`, moving later children one slot up.
    /// When all slots were taken, the first `SPLIT_POINT` of the seven
    /// children stay and the other three are handed back as new children.
    pub fn insert(&mut self, index: usize, value: Idx) -> (r: Option<Kids>)
        requires
            old(self).wf(),
            index <= old(self).ids().len(),
        ensures
            final(self).wf(),
            old(self).ids().len() < B ==> r is None && final(self).ids() == old(self).ids().insert(
                index as int,
                value,
            ),
            old(self).ids().len() == B ==> r is Some && r->0.wf() && final(self).ids() == old(
                self,
            ).ids().insert(index as int, value).take(SPLIT_POINT as int) && r->0.ids() == old(
                self,
            ).ids().insert(index as int, value).skip(SPLIT_POINT as int),
    {
        let ghost old_len = self.len();
        let ghost full = self.ids().insert(index as int, value);
        let ghost v0 = self.value@;
        let ghost start = index as int;
        assert(forall|k: int| 0 <= k < old_len ==> v0[k] == Some(self.ids()[k]));
        assert(forall|k: int| #![trigger v0[k]] old_len <= k < 6 ==> v0[k] is None);
        let mut i = index;
        let mut carry = value;
        while i < B
            invariant
                start <= i <= B,
                start == index,
                old(self).ids().len() == old_len,
                old(self).ids().insert(index as int, value) == full,
                i <= old_len + 1,
                old_len <= B,
                full.len() == old_len + 1,
                i <= old_len,
                carry == full[i as int],
                v0.len() == 6,
                forall|k: int| #![trigger self.value@[k]] 0 <= k < i ==> self.value@[k] == Some(full[k]),
                forall|k: int| #![trigger self.value@[k]] i <= k < 6 ==> self.value@[k] == v0[k],
                forall|k: int| #![trigger v0[k]] 0 <= k < start ==> v0[k] == Some(full[k]),
                forall|k: int| #![trigger v0[k]] start <= k < old_len ==> v0[k] == Some(full[k + 1]),
                forall|k: int| #![trigger v0[k]] old_len <= k < 6 ==> v0[k] is None,
            decreases B - i,
        {
            let slot = self.value[i];
            self.value[i] = Some(carry);
            match slot {
                None => {
                    assert(i == old_len);
                    assert(forall|k: int| 0 <= k <= i ==> self.value@[k] is Some);
                    assert(forall|k: int| i < k < 6 ==> self.value@[k] is None);
                    assert(self.len() == old_len + 1);
                    assert(self.ids() =~= full);
                    return None;
                },
                Some(v) => {
                    carry = v;
                },
            }
            i += 1;
        }
        assert(old_len == 6);
        let mut other = Kids::new();
        assert(other.ids().len() == 0);
        assert(other.len() == 0);
        assert(forall|i: int| 0 <= i < 6 ==> other.value@[i] is None);
        other.value[0] = self.value[4];
        other.value[1] = self.value[5];
        other.value[2] = Some(carry);
        self.value[4] = None;
        self.value[5] = None;
        assert(self.ids() =~= full.take(SPLIT_POINT as int));
        assert(other.value@[3] is None && other.value@[4] is None && other.value@[5] is None);
        assert(other.len() == 3);
        assert(other.ids() =~= full.skip(SPLIT_POINT as int));
        Some(other)
    }

    /// The children, last first.
    pub fn rev(self) -> (r: Vec<Idx>)
        requires
            self.wf(),
        ensures
            r@ == self.ids().reverse(),
    {
        let n = self.count();
        let mut r: Vec<Idx> = Vec::new();
        let mut i = n;
        while i > 0
            invariant
                i <= n,
                n == self.ids().len(),
                self.wf(),
                r@.len() == n - i,
                forall|k: int| 0 <= k < n - i ==> r@[k] == self.ids()[n - 1 - k],
            decreases i,
        {
            i -= 1;
            r.push(self.get(i));
        }
        assert(r@ =~= self.ids().reverse());
        r
    }
}

impl From<[Idx; 2]> for Kids {
    /// Two children, in the given order.
    fn from(value: [Idx; 2]) -> (r: Kids) {
        Kids { value: [Some(value[0]), Some(value[1]), None, None, None, None] }
    }
}

impl vstd::std_specs::convert::FromSpecImpl<[Idx; 2]> for Kids {
    open spec fn obeys_from_spec() -> bool {
        true
    }

    closed spec fn from_spec(v: [Idx; 2]) -> Kids {
        Kids { value: [Some(v@[0]), Some(v@[1]), None, None, None, None] }
    }
}

/// The children made from an array are its two indices, in order.
pub proof fn lemma_from_array(v: [Idx; 2])
    ensures
        <Kids as vstd::std_specs::convert::FromSpec<[Idx; 2]>>::from_spec(v).wf(),
        <Kids as vstd::std_specs::convert::FromSpec<[Idx; 2]>>::from_spec(v).ids() == seq![v@[0], v@[1]],
{
    let k = <Kids as vstd::std_specs::convert::FromSpec<[Idx; 2]>>::from_spec(v);
    assert(k.ids() =~= seq![v@[0], v@[1]]);
}

} // verus!
