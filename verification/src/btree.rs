//! A B-tree of elements kept in order by position, where every subtree
//! carries the number of its elements and the sum of their summaries.
//!
//! Nodes and elements live in arenas and refer to one another by `Idx`, so
//! the handle that `insert` returns for an element stays valid as the tree
//! grows.
use crate::idx::Idx;
use crate::info::{
    infos_of, lemma_sum_infos_concat, lemma_sum_infos_insert, lemma_sum_infos_single,
    lemma_sum_nats_concat, lemma_weight_of_sum, sum_infos, sum_nats, BTreeInfo, BTreeItem,
    BTreeMeasure,
};
use crate::kids::{Kids, B};
use vstd::prelude::*;

pub mod query;
pub mod insert;
mod edit;
pub mod laws;
mod split;

pub use query::BTreeIdx;

verus! {

/// A node of a `BTree`: the children, and the count and summary of all the
/// elements below it.
#[derive(Clone, Copy)]
pub struct Node<Info: BTreeInfo> {
    pub is_leaf: bool,
    pub info: Info,
    pub count: usize,
    pub parent: Option<Idx>,
    pub kids: Kids,
}

impl<Info: BTreeInfo> Node<Info> {
    /// Checks that this node is an inner node; every caller proves it.
    pub fn assert_not_leaf(&self)
        requires
            !self.is_leaf,
    {
    }

    /// Checks that this node is a leaf; every caller proves it.
    pub fn assert_is_leaf(&self)
        requires
            self.is_leaf,
    {
    }

    /// A node with no children and no parent.
    pub fn empty(is_leaf: bool) -> (r: Self)
        ensures
            r.is_leaf == is_leaf,
            r.count == 0,
            r.info == Info::spec_zero(),
            r.parent is None,
            r.kids.wf(),
            r.kids.ids() == Seq::<Idx>::empty(),
    {
        Node { is_leaf, count: 0, info: Info::zero(), parent: None, kids: Kids::new() }
    }
}

/// A handle to an element of a `BTree`, valid for as long as the tree.
#[derive(Clone, Copy)]
pub struct ElemIdx(pub(crate) Idx);

impl ElemIdx {
    /// The arena index of the element this handle names.
    pub closed spec fn handle(self) -> Idx {
        self.0
    }

    pub(crate) fn from_idx(i: Idx) -> (r: ElemIdx)
        ensures
            r.handle() == i,
    {
        ElemIdx(i)
    }

    pub(crate) fn idx(self) -> (r: Idx)
        ensures
            r == self.handle(),
    {
        self.0
    }
}

#[derive(Clone, Copy)]
pub(crate) struct ElementInfo {
    pub(crate) parent: Idx,
    pub(crate) next_free: Option<Idx>,
}

/// A sequence of elements stored in a B-tree.
pub struct BTree<T: BTreeItem> {
    pub(crate) elements: Vec<T>,
    pub(crate) element_info: Vec<ElementInfo>,
    pub(crate) nodes: Vec<Node<T::Info>>,
    pub(crate) first_free: Option<Idx>,
    pub(crate) root: Idx,
    pub(crate) levels: usize,
    /// For every node, the handles of the elements below it, in order.
    pub(crate) flats: Ghost<Seq<Seq<Idx>>>,
    /// For every node, its distance from the leaves.
    pub(crate) heights: Ghost<Seq<nat>>,
}

/// The handles of the elements below a list of nodes, in order.
pub open spec fn concat_flats(fl: Seq<Seq<Idx>>, ks: Seq<Idx>) -> Seq<Idx>
    decreases ks.len(),
{
    if ks.len() == 0 {
        Seq::empty()
    } else {
        concat_flats(fl, ks.drop_last()) + fl[ks.last().id() as int]
    }
}

impl<T: BTreeItem> BTree<T> {
    /// The elements, in order.
    pub closed spec fn view(&self) -> Seq<T> {
        self.ids().map_values(|x: Idx| self.elements@[x.id() as int])
    }

    /// The handles of the elements, in order.
    pub closed spec fn ids(&self) -> Seq<Idx> {
        self.flats@[self.root.id() as int]
    }

    /// How many levels of inner nodes stand above the leaves.
    pub closed spec fn depth(&self) -> nat {
        self.levels as nat
    }

    /// How many nodes the tree has allocated.
    pub closed spec fn node_count(&self) -> nat {
        self.nodes@.len()
    }

    /// What `depth` and `node_count` are.
    pub(crate) proof fn lemma_depth(&self)
        ensures
            self.depth() == self.levels,
            self.node_count() == self.nodes@.len(),
    {
    }

    /// Whether the root is a leaf.
    pub closed spec fn root_is_leaf(&self) -> bool {
        self.nodes@[self.root.id() as int].is_leaf
    }

    /// The summaries of the elements below a list of handles.
    pub(crate) open spec fn elem_infos(&self, s: Seq<Idx>) -> Seq<T::Info> {
        s.map_values(|x: Idx| self.elements@[x.id() as int].spec_info())
    }

    pub(crate) open spec fn kid_ids(&self, n: int) -> Seq<Idx> {
        self.nodes@[n].kids.ids()
    }

    /// What holds of one node of a well-formed tree.
    #[verifier::opaque]
    pub(crate) open spec fn node_wf(&self, n: int) -> bool {
        self.node_core(n) && self.node_up(n)
    }

    /// What holds of a node and its children.
    pub(crate) open spec fn node_core(&self, n: int) -> bool {
        let nd = self.nodes@[n];
        let ks = nd.kids.ids();
        let h = self.heights@[n];
        let f = self.flats@[n];
        &&& nd.kids.wf()
        &&& ks.no_duplicates()
        &&& nd.count == f.len()
        &&& nd.info == sum_infos(self.elem_infos(f))
        &&& nd.is_leaf == (h == 0)
        &&& h <= self.levels
        &&& f.no_duplicates()
        &&& forall|i: int| 0 <= i < f.len() ==> (#[trigger] f[i]).id() < self.elements@.len()
        &&& h == 0 ==> {
            &&& f == ks
            &&& forall|j: int|
                0 <= j < ks.len() ==> (#[trigger] self.element_info@[ks[j].id() as int]).parent.id()
                    == n
        }
        &&& h > 0 ==> {
            &&& ks.len() >= 1
            &&& f == concat_flats(self.flats@, ks)
            &&& forall|j: int|
                #![trigger ks[j]]
                0 <= j < ks.len() ==> {
                    &&& ks[j].id() < self.nodes@.len()
                    &&& self.heights@[ks[j].id() as int] == h - 1
                    &&& self.nodes@[ks[j].id() as int].parent matches Some(p) && p.id() == n
                }
        }
    }

    /// What holds of a node and its parent.
    pub(crate) open spec fn node_up(&self, n: int) -> bool {
        let nd = self.nodes@[n];
        let h = self.heights@[n];
        &&& h < self.levels ==> {
            &&& self.flats@[n].len() > 0
            &&& nd.parent matches Some(p) && {
                &&& p.id() < self.nodes@.len()
                &&& self.heights@[p.id() as int] == h + 1
                &&& exists|x: Idx| x.id() == n && #[trigger] self.kid_ids(p.id() as int).contains(x)
            }
        }
        &&& h == self.levels ==> n == self.root.id()
    }

    /// The tree's invariant.
    #[verifier::opaque]
    pub closed spec fn wf(&self) -> bool {
        &&& self.nodes@.len() == self.flats@.len()
        &&& self.nodes@.len() == self.heights@.len()
        &&& self.root.id() < self.nodes@.len()
        &&& self.heights@[self.root.id() as int] == self.levels
        &&& self.elements@.len() == self.element_info@.len()
        &&& self.first_free is None
        &&& self.flats@[self.root.id() as int].len() == self.elements@.len()
        &&& self.nodes@.len() < usize::MAX
        &&& self.elements@.len() < usize::MAX
        &&& forall|n: int| 0 <= n < self.nodes@.len() ==> #[trigger] self.node_wf(n)
        &&& forall|i: int|
            #![trigger self.ids()[i]]
            0 <= i < self.ids().len() ==> {
                let x = self.ids()[i];
                let leaf = self.element_info@[x.id() as int].parent.id();
                &&& leaf < self.nodes@.len()
                &&& self.heights@[leaf as int] == 0
                &&& self.kid_ids(leaf as int).contains(x)
            }
        &&& forall|a: int, b: int|
            #![trigger self.flats@[a], self.flats@[b]]
            0 <= a < self.nodes@.len() && 0 <= b < self.nodes@.len() && a != b
                && self.heights@[a] == self.heights@[b] ==> self.flats@[a].disjoint(
                self.flats@[b],
            )
    }

    /// The number of elements.
    pub open spec fn spec_len(&self) -> nat {
        self.view().len()
    }

    /// Whether `h` names an element of this tree.
    pub open spec fn has_handle(&self, h: ElemIdx) -> bool {
        self.ids().contains(h.handle())
    }

    /// The position of the element that `h` names.
    pub open spec fn position_of(&self, h: ElemIdx) -> int {
        self.ids().index_of(h.handle())
    }

    /// The weight of each element under a measure, in order.
    pub open spec fn weights<M: BTreeMeasure<T::Info>>(&self, m: &M) -> Seq<nat> {
        infos_of(self.view()).map_values(|i: T::Info| m.spec_weight(1, i))
    }

    /// The weight of the whole tree under a measure.
    pub open spec fn total_weight<M: BTreeMeasure<T::Info>>(&self, m: &M) -> nat {
        m.spec_weight(self.spec_len(), sum_infos(infos_of(self.view())))
    }

    pub(crate) open spec fn flat_weights<M: BTreeMeasure<T::Info>>(&self, m: &M, s: Seq<Idx>) -> Seq<
        nat,
    > {
        s.map_values(|x: Idx| m.spec_weight(1, self.elements@[x.id() as int].spec_info()))
    }

    pub(crate) proof fn lemma_weights_flat<M: BTreeMeasure<T::Info>>(&self, m: &M)
        ensures
            self.weights(m) == self.flat_weights(m, self.ids()),
            infos_of(self.view()) == self.elem_infos(self.ids()),
            self.view().len() == self.ids().len(),
    {
        assert(infos_of(self.view()) =~= self.elem_infos(self.ids()));
        assert(self.weights(m) =~= self.flat_weights(m, self.ids()));
    }

    pub(crate) proof fn lemma_flat_weights_concat<M: BTreeMeasure<T::Info>>(
        &self,
        m: &M,
        a: Seq<Idx>,
        b: Seq<Idx>,
    )
        ensures
            self.flat_weights(m, a + b) == self.flat_weights(m, a) + self.flat_weights(m, b),
            sum_nats(self.flat_weights(m, a + b)) == sum_nats(self.flat_weights(m, a)) + sum_nats(
                self.flat_weights(m, b),
            ),
    {
        assert(self.flat_weights(m, a + b) =~= self.flat_weights(m, a) + self.flat_weights(m, b));
        lemma_sum_nats_concat(self.flat_weights(m, a), self.flat_weights(m, b));
    }

    /// The weight a measure gives a node is the sum of its elements' weights.
    pub(crate) proof fn lemma_node_weight<M: BTreeMeasure<T::Info>>(&self, m: &M, n: int)
        requires
            self.wf(),
            0 <= n < self.nodes@.len(),
        ensures
            m.spec_weight(self.nodes@[n].count as nat, self.nodes@[n].info) == sum_nats(
                self.flat_weights(m, self.flats@[n]),
            ),
    {
        reveal(BTree::node_wf);
        reveal(BTree::wf);
        assert(self.node_wf(n));
        let f = self.flats@[n];
        lemma_weight_of_sum(m, self.elem_infos(f));
        assert(self.elem_infos(f).map_values(|x: T::Info| m.spec_weight(1, x))
            =~= self.flat_weights(m, f));
    }

    /// The ancestor `d` levels above node `n`.
    pub(crate) open spec fn anc(&self, n: int, d: nat) -> int
        decreases d,
    {
        if d == 0 {
            n
        } else {
            self.nodes@[self.anc(n, (d - 1) as nat)].parent->0.id() as int
        }
    }

    /// The slot in which node `p` holds node `n`.
    pub(crate) open spec fn kid_slot(&self, p: int, n: int) -> int {
        choose|j: int| 0 <= j < self.kid_ids(p).len() && (#[trigger] self.kid_ids(p)[j]).id() == n
    }

    /// Where the handles below node `n` start among those below its
    /// ancestor `k` levels up.
    pub(crate) open spec fn up_offset(&self, n: int, k: nat) -> int
        decreases k,
    {
        if k == 0 {
            0
        } else {
            let p = self.nodes@[n].parent->0.id() as int;
            concat_flats(self.flats@, self.kid_ids(p).take(self.kid_slot(p, n))).len()
                + self.up_offset(p, (k - 1) as nat)
        }
    }

    /// Where a handle's element sits: in a leaf that holds it.
    pub(crate) open spec fn elem_placed(&self, x: Idx) -> bool {
        let leaf = self.element_info@[x.id() as int].parent.id();
        &&& x.id() < self.element_info@.len()
        &&& leaf < self.nodes@.len()
        &&& self.heights@[leaf as int] == 0
        &&& self.kid_ids(leaf as int).contains(x)
    }

    /// The ancestors of a leaf are nodes of the heights one would expect.
    pub(crate) proof fn lemma_anc(&self, l: int, d: nat)
        requires
            self.wf(),
            0 <= l < self.nodes@.len(),
            self.heights@[l] == 0,
            d <= self.levels,
        ensures
            0 <= self.anc(l, d) < self.nodes@.len(),
            self.heights@[self.anc(l, d)] == d,
            d < self.levels ==> (self.nodes@[self.anc(l, d)].parent matches Some(p) && p.id() as int
                == self.anc(l, d + 1)),
            d == self.levels ==> self.anc(l, d) == self.root.id(),
        decreases d,
    {
        reveal(BTree::wf);
        reveal(BTree::node_wf);
        if d > 0 {
            self.lemma_anc(l, (d - 1) as nat);
            let b = self.anc(l, (d - 1) as nat);
            assert(self.node_wf(b));
            assert(self.anc(l, d) == self.nodes@[b].parent->0.id() as int);
        }
        let a = self.anc(l, d);
        assert(self.node_wf(a));
        if d < self.levels {
            let p = self.nodes@[a].parent->0;
            assert(self.anc(l, d + 1) == p.id() as int);
        }
    }

    /// Where a node's handles sit among all handles.
    pub(crate) proof fn lemma_up_offset(&self, n: int)
        requires
            self.wf(),
            0 <= n < self.nodes@.len(),
        ensures
            ({
                let o = self.up_offset(n, (self.levels - self.heights@[n]) as nat);
                &&& 0 <= o
                &&& o + self.flats@[n].len() <= self.ids().len()
                &&& self.ids().subrange(o, o + self.flats@[n].len()) == self.flats@[n]
            }),
        decreases self.levels - self.heights@[n],
    {
        reveal(BTree::wf);
        reveal(BTree::node_wf);
        assert(self.node_wf(n));
        let h = self.heights@[n];
        if h == self.levels {
            assert(self.ids().subrange(0, self.flats@[n].len() as int) =~= self.flats@[n]);
        } else {
            let p = self.nodes@[n].parent->0.id() as int;
            assert(self.node_wf(p));
            let x = choose|x: Idx| x.id() == n && #[trigger] self.kid_ids(p).contains(x);
            let j = self.kid_slot(p, n);
            let ks = self.kid_ids(p);
            assert(0 <= j < ks.len() && ks[j].id() == n);
            lemma_concat_flats_offset(self.flats@, ks, j);
            self.lemma_up_offset(p);
            let op = self.up_offset(p, (self.levels - self.heights@[p]) as nat);
            assert((self.levels - h) as nat - 1 == (self.levels - self.heights@[p]) as nat);
            let off = concat_flats(self.flats@, ks.take(j)).len();
            let o = self.up_offset(n, (self.levels - h) as nat);
            assert(o == off + op);
            assert(self.ids().subrange(o, o + self.flats@[n].len()) =~= self.flats@[n]) by {
                assert forall|i: int| 0 <= i < self.flats@[n].len() implies self.ids().subrange(
                    o,
                    o + self.flats@[n].len(),
                )[i] == self.flats@[n][i] by {
                    assert(self.ids()[o + i] == self.flats@[p][off + i]);
                    assert(self.flats@[p].subrange(off as int, (off + self.flats@[n].len()) as int)[i]
                        == self.flats@[p][off + i]);
                }
            }
        }
    }

    /// The summaries below a list of handles do not change when elements are
    /// only added.
    pub(crate) proof fn lemma_elem_infos_frame(s1: &Self, s2: &Self, f: Seq<Idx>)
        requires
            s1.elements@.len() <= s2.elements@.len(),
            forall|x: int| 0 <= x < s1.elements@.len() ==> s2.elements@[x] == s1.elements@[x],
            forall|i: int| 0 <= i < f.len() ==> (#[trigger] f[i]).id() < s1.elements@.len(),
        ensures
            s2.elem_infos(f) == s1.elem_infos(f),
    {
        assert(s2.elem_infos(f) =~= s1.elem_infos(f));
    }

    /// A node's own invariant carries over to a state that agrees on what it
    /// depends on.
    pub(crate) proof fn lemma_core_frame(s1: &Self, s2: &Self, n: int)
        requires
            s1.node_core(n),
            0 <= n < s1.nodes@.len(),
            0 <= n < s2.nodes@.len(),
            s2.nodes@[n].kids == s1.nodes@[n].kids,
            s2.nodes@[n].count == s1.nodes@[n].count,
            s2.nodes@[n].info == s1.nodes@[n].info,
            s2.nodes@[n].is_leaf == s1.nodes@[n].is_leaf,
            s2.heights@[n] == s1.heights@[n],
            s2.flats@[n] == s1.flats@[n],
            s2.levels >= s1.levels,
            s1.elements@.len() <= s2.elements@.len(),
            forall|x: int| 0 <= x < s1.elements@.len() ==> s2.elements@[x] == s1.elements@[x],
            s1.heights@[n] == 0 ==> forall|j: int|
                0 <= j < s1.kid_ids(n).len() ==> #[trigger] s2.element_info@[s1.kid_ids(n)[j].id() as int].parent
                    == s1.element_info@[s1.kid_ids(n)[j].id() as int].parent,
            s1.heights@[n] > 0 ==> forall|j: int|
                0 <= j < s1.kid_ids(n).len() ==> {
                    let k = (#[trigger] s1.kid_ids(n)[j]).id() as int;
                    &&& k < s2.nodes@.len()
                    &&& s2.nodes@[k].parent == s1.nodes@[k].parent
                    &&& s2.heights@[k] == s1.heights@[k]
                    &&& s2.flats@[k] == s1.flats@[k]
                },
        ensures
            s2.node_core(n),
    {
        let f = s1.flats@[n];
        Self::lemma_elem_infos_frame(s1, s2, f);
        let ks = s1.kid_ids(n);
        if s1.heights@[n] > 0 {
            assert forall|j: int| 0 <= j < ks.len() implies s1.flats@[ks[j].id() as int]
                == s2.flats@[ks[j].id() as int] by {
                assert(s1.kid_ids(n)[j] == ks[j]);
            }
            lemma_concat_flats_frame(s1.flats@, s2.flats@, ks);
        }
        if s1.heights@[n] == 0 {
            assert forall|j: int| 0 <= j < ks.len() implies (#[trigger] s2.element_info@[ks[j].id() as int]).parent.id()
                == n by {
                assert(s1.kid_ids(n)[j] == ks[j]);
            }
        }
    }

    /// A node's link to its parent carries over to a state that agrees on
    /// what it depends on.
    pub(crate) proof fn lemma_up_frame(s1: &Self, s2: &Self, n: int)
        requires
            s1.node_up(n),
            0 <= n < s1.nodes@.len(),
            s1.nodes@.len() <= s2.nodes@.len(),
            s2.nodes@[n].parent == s1.nodes@[n].parent,
            s2.heights@[n] == s1.heights@[n],
            s2.flats@[n].len() >= s1.flats@[n].len() || s2.flats@[n].len() > 0,
            s2.levels == s1.levels,
            s2.root == s1.root,
            s1.heights@[n] < s1.levels && s1.nodes@[n].parent is Some ==> ({
                let p = s1.nodes@[n].parent->0.id() as int;
                p < s1.nodes@.len() ==> s2.heights@[p] == s1.heights@[p] && s2.kid_ids(p) == s1.kid_ids(p)
            }),
        ensures
            s2.node_up(n),
    {
        if s1.heights@[n] < s1.levels {
            let p = s1.nodes@[n].parent->0;
            let x = choose|x: Idx| x.id() == n && #[trigger] s1.kid_ids(p.id() as int).contains(x);
            assert(s2.kid_ids(p.id() as int).contains(x));
        }
    }

    /// Adding up the counts and summaries of nodes that agree with their
    /// handles gives the count and summary of all their handles.
    pub(crate) proof fn lemma_sum_counts_concat(&self, ks: Seq<Idx>)
        requires
            forall|j: int|
                0 <= j < ks.len() ==> {
                    let k = (#[trigger] ks[j]).id() as int;
                    &&& 0 <= k < self.nodes@.len()
                    &&& self.nodes@[k].count == self.flats@[k].len()
                    &&& self.nodes@[k].info == sum_infos(self.elem_infos(self.flats@[k]))
                },
        ensures
            sum_counts(self.nodes@, ks) == concat_flats(self.flats@, ks).len(),
            sum_node_infos(self.nodes@, ks) == sum_infos(self.elem_infos(concat_flats(self.flats@, ks))),
        decreases ks.len(),
    {
        if ks.len() == 0 {
            assert(self.elem_infos(Seq::<Idx>::empty()) =~= Seq::<T::Info>::empty());
        } else {
            let pre = ks.drop_last();
            assert forall|j: int| 0 <= j < pre.len() implies {
                let k = (#[trigger] pre[j]).id() as int;
                &&& 0 <= k < self.nodes@.len()
                &&& self.nodes@[k].count == self.flats@[k].len()
                &&& self.nodes@[k].info == sum_infos(self.elem_infos(self.flats@[k]))
            } by {
                assert(pre[j] == ks[j]);
            }
            self.lemma_sum_counts_concat(pre);
            let k = ks.last().id() as int;
            assert(ks.last() == ks[ks.len() - 1]);
            let a = concat_flats(self.flats@, pre);
            assert(self.elem_infos(a + self.flats@[k]) =~= self.elem_infos(a) + self.elem_infos(self.flats@[k]));
            lemma_sum_infos_concat(self.elem_infos(a), self.elem_infos(self.flats@[k]));
        }
    }

    /// No element is named twice among the handles.
    pub proof fn lemma_ids_distinct(&self)
        requires
            self.wf(),
        ensures
            self.ids().no_duplicates(),
    {
        reveal(BTree::node_wf);
        reveal(BTree::wf);
        assert(self.node_wf(self.root.id() as int));
    }

    /// The handles below a node are no more than the elements.
    pub(crate) proof fn lemma_flat_len(&self, n: int)
        requires
            self.wf(),
            0 <= n < self.nodes@.len(),
        ensures
            self.flats@[n].len() <= self.elements@.len(),
            self.elements@.len() < usize::MAX,
            self.element_info@.len() == self.elements@.len(),
    {
        reveal(BTree::node_wf);
        reveal(BTree::wf);
        assert(self.node_wf(n));
        lemma_distinct_handles_bound(self.flats@[n], self.elements@.len());
    }

    /// An empty tree.
    pub fn new() -> (r: Self)
        ensures
            r.wf(),
            r.view() == Seq::<T>::empty(),
            r.ids() == Seq::<Idx>::empty(),
            r.has_room(),
            r.compact(),
            r.depth() == 0,
            r.node_count() == 1,
            r.root_is_leaf(),
    {
        let root_node = Node::empty(true);
        let ghost fl = seq![Seq::<Idx>::empty()];
        let ghost hs = seq![0nat];
        let r = BTree {
            elements: Vec::new(),
            element_info: Vec::new(),
            nodes: vec![root_node],
            first_free: None,
            root: Idx::new(0),
            levels: 0,
            flats: Ghost(fl),
            heights: Ghost(hs),
        };
        proof {
            assert(r.elem_infos(Seq::<Idx>::empty()) =~= Seq::<T::Info>::empty());
            reveal(BTree::node_wf);
            reveal(BTree::wf);
            assert(r.node_wf(0));
            assert(r.view() =~= Seq::<T>::empty());
            r.lemma_has_room();
            r.lemma_compact();
            assert(r.elements@.len() == 0 && r.nodes@.len() == 1);
            let n = r.elements@.len();
            assert((n + 1) * (n + 1) == 1) by (nonlinear_arith)
                requires
                    n == 0,
            ;
            assert(r.compact());
        }
        r
    }

    /// The number of elements.
    pub fn len(&self) -> (r: usize)
        requires
            self.wf(),
        ensures
            r == self.spec_len(),
    {
        proof {
            reveal(BTree::node_wf);
            reveal(BTree::wf);
            assert(self.node_wf(self.root.id() as int));
        }
        self.nodes[self.root.get()].count
    }

    /// The sum of the summaries of all elements.
    pub fn info(&self) -> (r: T::Info)
        requires
            self.wf(),
        ensures
            r == sum_infos(infos_of(self.view())),
    {
        proof {
            reveal(BTree::node_wf);
            reveal(BTree::wf);
            assert(self.node_wf(self.root.id() as int));
            assert(infos_of(self.view()) =~= self.elem_infos(self.ids()));
        }
        self.nodes[self.root.get()].info
    }
}

/// The counts of a list of nodes, added up.
pub open spec fn sum_counts<I: BTreeInfo>(nodes: Seq<Node<I>>, ks: Seq<Idx>) -> int
    decreases ks.len(),
{
    if ks.len() == 0 {
        0
    } else {
        sum_counts(nodes, ks.drop_last()) + nodes[ks.last().id() as int].count
    }
}

/// The summaries of a list of nodes, added up from the left.
pub open spec fn sum_node_infos<I: BTreeInfo>(nodes: Seq<Node<I>>, ks: Seq<Idx>) -> I
    decreases ks.len(),
{
    if ks.len() == 0 {
        I::spec_zero()
    } else {
        sum_node_infos(nodes, ks.drop_last()).spec_add(nodes[ks.last().id() as int].info)
    }
}

/// The counts and summaries of a list of nodes added up depend only on
/// those nodes' counts and summaries.
pub proof fn lemma_sum_counts_frame<I: BTreeInfo>(n1: Seq<Node<I>>, n2: Seq<Node<I>>, ks: Seq<Idx>)
    requires
        forall|q: int|
            0 <= q < ks.len() ==> #[trigger] n1[ks[q].id() as int].count == n2[ks[q].id() as int].count
                && n1[ks[q].id() as int].info == n2[ks[q].id() as int].info,
    ensures
        sum_counts(n1, ks) == sum_counts(n2, ks),
        sum_node_infos(n1, ks) == sum_node_infos(n2, ks),
    decreases ks.len(),
{
    if ks.len() > 0 {
        assert forall|q: int| 0 <= q < ks.drop_last().len() implies #[trigger] n1[ks.drop_last()[q].id() as int].count
            == n2[ks.drop_last()[q].id() as int].count && n1[ks.drop_last()[q].id() as int].info
            == n2[ks.drop_last()[q].id() as int].info by {
            assert(ks.drop_last()[q] == ks[q]);
        }
        lemma_sum_counts_frame(n1, n2, ks.drop_last());
        assert(ks.last() == ks[ks.len() - 1]);
    }
}

/// Whether some handle in `ks` names position `i`.
pub open spec fn names(ks: Seq<Idx>, i: int) -> bool {
    exists|j: int| 0 <= j < ks.len() && (#[trigger] ks[j]).id() == i
}

/// Distinct handles below a bound are no more than the bound.
pub proof fn lemma_distinct_handles_bound(s: Seq<Idx>, n: nat)
    requires
        s.no_duplicates(),
        forall|i: int| 0 <= i < s.len() ==> (#[trigger] s[i]).id() < n,
    ensures
        s.len() <= n,
{
    let ids = s.map_values(|x: Idx| x.id() as int);
    assert forall|i: int, j: int| 0 <= i < ids.len() && 0 <= j < ids.len() && i != j implies ids[i]
        != ids[j] by {
        s[i].lemma_id_injective(s[j]);
    }
    assert(ids.no_duplicates());
    ids.unique_seq_to_set();
    vstd::set_lib::lemma_int_range(0, n as int);
    assert forall|x: int| ids.to_set().contains(x) implies vstd::set_lib::set_int_range(
        0,
        n as int,
    ).contains(x) by {
        let i = choose|i: int| 0 <= i < ids.len() && ids[i] == x;
        assert(s[i].id() < n);
    }
    vstd::set_lib::lemma_len_subset(ids.to_set(), vstd::set_lib::set_int_range(0, n as int));
}

/// Splitting a list of nodes splits the handles below them.
pub proof fn lemma_concat_flats_split(fl: Seq<Seq<Idx>>, ks: Seq<Idx>, j: int)
    requires
        0 <= j <= ks.len(),
    ensures
        concat_flats(fl, ks) == concat_flats(fl, ks.take(j)) + concat_flats(fl, ks.skip(j)),
    decreases ks.len(),
{
    if j == ks.len() {
        assert(ks.take(j) =~= ks);
        assert(ks.skip(j) =~= Seq::<Idx>::empty());
        assert(concat_flats(fl, ks) + Seq::<Idx>::empty() =~= concat_flats(fl, ks));
    } else {
        lemma_concat_flats_split(fl, ks.drop_last(), j);
        assert(ks.drop_last().take(j) =~= ks.take(j));
        assert(ks.skip(j).drop_last() =~= ks.drop_last().skip(j));
        assert(ks.skip(j).last() == ks.last());
    }
}

/// The handles below one node of a list.
pub proof fn lemma_concat_flats_single(fl: Seq<Seq<Idx>>, k: Idx)
    ensures
        concat_flats(fl, seq![k]) == fl[k.id() as int],
{
    assert(seq![k].drop_last() =~= Seq::<Idx>::empty());
    assert(seq![k].last() == k);
    assert(concat_flats(fl, Seq::<Idx>::empty()) == Seq::<Idx>::empty());
    assert(Seq::<Idx>::empty() + fl[k.id() as int] =~= fl[k.id() as int]);
}

/// Handles below a list of nodes depend only on those nodes' entries.
pub proof fn lemma_concat_flats_frame(f1: Seq<Seq<Idx>>, f2: Seq<Seq<Idx>>, ks: Seq<Idx>)
    requires
        forall|j: int| 0 <= j < ks.len() ==> f1[ks[j].id() as int] == f2[ks[j].id() as int],
    ensures
        concat_flats(f1, ks) == concat_flats(f2, ks),
    decreases ks.len(),
{
    if ks.len() > 0 {
        lemma_concat_flats_frame(f1, f2, ks.drop_last());
        assert(f1[ks.last().id() as int] == f2[ks.last().id() as int]);
    }
}

/// A list of nodes with one more inserted after slot `j`.
pub proof fn lemma_concat_flats_insert(fl: Seq<Seq<Idx>>, ks: Seq<Idx>, j: int, r: Idx)
    requires
        0 <= j <= ks.len(),
    ensures
        concat_flats(fl, ks.insert(j, r)) == concat_flats(fl, ks.take(j)) + fl[r.id() as int]
            + concat_flats(fl, ks.skip(j)),
{
    let ks2 = ks.insert(j, r);
    lemma_concat_flats_split(fl, ks2, j);
    assert(ks2.take(j) =~= ks.take(j));
    lemma_concat_flats_split(fl, ks2.skip(j), 1);
    assert(ks2.skip(j).take(1) =~= seq![r]);
    lemma_concat_flats_single(fl, r);
    assert(ks2.skip(j).skip(1) =~= ks.skip(j));
}

/// The handles below a list of nodes when one node's handles change.
pub proof fn lemma_concat_flats_replace(fl: Seq<Seq<Idx>>, ks: Seq<Idx>, j: int, x: Seq<Idx>)
    requires
        0 <= j < ks.len(),
        forall|q: int| 0 <= q < ks.len() && q != j ==> ks[q].id() != ks[j].id(),
        forall|q: int| 0 <= q < ks.len() ==> (#[trigger] ks[q]).id() < fl.len(),
    ensures
        concat_flats(fl.update(ks[j].id() as int, x), ks) == concat_flats(fl, ks.take(j)) + x
            + concat_flats(fl, ks.skip(j + 1)),
{
    let fl2 = fl.update(ks[j].id() as int, x);
    lemma_concat_flats_split(fl2, ks, j);
    lemma_concat_flats_split(fl2, ks.skip(j), 1);
    assert(ks.skip(j).take(1) =~= seq![ks[j]]);
    lemma_concat_flats_single(fl2, ks[j]);
    assert(ks.skip(j).skip(1) =~= ks.skip(j + 1));
    assert forall|q: int| 0 <= q < ks.take(j).len() implies #[trigger] fl2[ks.take(j)[q].id() as int]
        == fl[ks.take(j)[q].id() as int] by {
        assert(ks.take(j)[q] == ks[q]);
    }
    assert forall|q: int| 0 <= q < ks.skip(j + 1).len() implies #[trigger] fl2[ks.skip(j + 1)[q].id() as int]
        == fl[ks.skip(j + 1)[q].id() as int] by {
        assert(ks.skip(j + 1)[q] == ks[q + j + 1]);
    }
    lemma_concat_flats_frame(fl2, fl, ks.take(j));
    lemma_concat_flats_frame(fl2, fl, ks.skip(j + 1));
}

/// Where one node's handles sit among those of a list of nodes.
pub proof fn lemma_concat_flats_offset(fl: Seq<Seq<Idx>>, ks: Seq<Idx>, j: int)
    requires
        0 <= j < ks.len(),
    ensures
        ({
            let off = concat_flats(fl, ks.take(j)).len();
            let c = fl[ks[j].id() as int];
            &&& off + c.len() <= concat_flats(fl, ks).len()
            &&& concat_flats(fl, ks).subrange(off as int, (off + c.len()) as int) == c
            &&& concat_flats(fl, ks.take(j + 1)) == concat_flats(fl, ks.take(j)) + c
        }),
{
    lemma_concat_flats_split(fl, ks, j);
    lemma_concat_flats_split(fl, ks.skip(j), 1);
    assert(ks.skip(j).take(1) =~= seq![ks[j]]);
    lemma_concat_flats_single(fl, ks[j]);
    assert(ks.skip(j).skip(1) =~= ks.skip(j + 1));
    assert(ks.take(j + 1).drop_last() =~= ks.take(j));
    let off = concat_flats(fl, ks.take(j)).len();
    let c = fl[ks[j].id() as int];
    let all = concat_flats(fl, ks);
    assert(all =~= concat_flats(fl, ks.take(j)) + (c + concat_flats(fl, ks.skip(j + 1))));
    assert(all.subrange(off as int, (off + c.len()) as int) =~= c);
}

/// Every handle below a list of nodes is below one of them.
pub proof fn lemma_concat_flats_member(fl: Seq<Seq<Idx>>, ks: Seq<Idx>, i: int)
    requires
        0 <= i < concat_flats(fl, ks).len(),
    ensures
        exists|j: int|
            0 <= j < ks.len() && #[trigger] fl[ks[j].id() as int].contains(
                concat_flats(fl, ks)[i],
            ),
    decreases ks.len(),
{
    let pre = concat_flats(fl, ks.drop_last());
    let last = fl[ks.last().id() as int];
    if i < pre.len() {
        lemma_concat_flats_member(fl, ks.drop_last(), i);
        let j = choose|j: int|
            0 <= j < ks.drop_last().len() && #[trigger] fl[ks.drop_last()[j].id() as int].contains(
                pre[i],
            );
        assert(ks.drop_last()[j] == ks[j]);
        assert(fl[ks[j].id() as int].contains(concat_flats(fl, ks)[i]));
    } else {
        assert(concat_flats(fl, ks)[i] == last[i - pre.len()]);
        assert(last.contains(concat_flats(fl, ks)[i]));
        assert(ks[ks.len() - 1] == ks.last());
    }
}

} // verus!
