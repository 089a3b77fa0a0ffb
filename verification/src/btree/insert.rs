use super::{
    concat_flats, lemma_concat_flats_frame, lemma_concat_flats_offset, lemma_sum_counts_frame, lemma_concat_flats_insert, lemma_concat_flats_replace,
    lemma_concat_flats_single, lemma_concat_flats_split, names, sum_counts, sum_node_infos, BTree,
    ElementInfo, ElemIdx, Node,
};
use crate::idx::Idx;
use crate::info::{sum_infos, BTreeInfo, BTreeItem};
use crate::kids::{Kids, B, SPLIT_POINT};
use vstd::prelude::*;

verus! {

impl<T: BTreeItem> BTree<T> {
    /// Stores `elem` in a free slot of the element arena, with `parent` as
    /// its leaf.
    fn allocate_elem(&mut self, parent: Idx, elem: T) -> (r: Idx)
        requires
            parent.id() < old(self).nodes@.len(),
            old(self).nodes@[parent.id() as int].is_leaf,
            old(self).first_free is None,
            old(self).elements@.len() == old(self).element_info@.len(),
            old(self).elements@.len() + 1 < usize::MAX,
        ensures
            r.id() == old(self).elements@.len(),
            final(self).elements@ == old(self).elements@.push(elem),
            final(self).element_info@ == old(self).element_info@.push(
                ElementInfo { parent, next_free: None },
            ),
            final(self).nodes@ == old(self).nodes@,
            final(self).first_free == old(self).first_free,
            final(self).root == old(self).root,
            final(self).levels == old(self).levels,
            final(self).flats == old(self).flats,
            final(self).heights == old(self).heights,
    {
        self.nodes[parent.get()].assert_is_leaf();
        match self.first_free {
            Some(idx) => {
                proof {
                    assert(false);
                }
                idx
            },
            None => {
                let idx = self.elements.len();
                self.elements.push(elem);
                self.element_info.push(ElementInfo { parent, next_free: None });
                Idx::new(idx)
            },
        }
    }

    /// Inserts `child` among the children of `node` at slot `at`. When the
    /// node has room, its count and summary take in one more element of
    /// summary `info`; when it is full, the children past the split point
    /// are handed back and the count and summary are left as they were.
    fn add_child(&mut self, node: Idx, at: usize, child: Idx, info: T::Info) -> (r: Option<Kids>)
        requires
            node.id() < old(self).nodes@.len(),
            old(self).nodes@[node.id() as int].kids.wf(),
            at <= old(self).nodes@[node.id() as int].kids.ids().len(),
            old(self).nodes@[node.id() as int].count + 1 < usize::MAX,
        ensures
            ({
                let o = old(self).nodes@[node.id() as int];
                let n = final(self).nodes@[node.id() as int];
                let full = o.kids.ids().insert(at as int, child);
                &&& final(self).nodes@ == old(self).nodes@.update(node.id() as int, n)
                &&& n.kids.wf()
                &&& n.is_leaf == o.is_leaf
                &&& n.parent == o.parent
                &&& (o.kids.ids().len() < B ==> {
                    &&& r is None
                    &&& n.kids.ids() == full
                    &&& n.count == o.count + 1
                    &&& n.info == o.info.spec_add(info)
                })
                &&& (o.kids.ids().len() == B ==> {
                    &&& r matches Some(k) && k.wf() && k.ids() == full.skip(SPLIT_POINT as int)
                    &&& n.kids.ids() == full.take(SPLIT_POINT as int)
                    &&& n.count == o.count
                    &&& n.info == o.info
                })
            }),
            final(self).elements@ == old(self).elements@,
            final(self).element_info@ == old(self).element_info@,
            final(self).first_free == old(self).first_free,
            final(self).root == old(self).root,
            final(self).levels == old(self).levels,
            final(self).flats == old(self).flats,
            final(self).heights == old(self).heights,
    {
        proof {
            old(self).nodes@[node.id() as int].kids.lemma_len_bound();
        }
        let mut nd = self.nodes[node.get()];
        let kids = nd.kids.insert(at, child);
        if kids.is_none() {
            nd.info = nd.info.add(info);
            nd.count = nd.count + 1;
        }
        self.nodes.set(node.get(), nd);
        kids
    }

    /// Recomputes the count and summary of `node` from its children.
    pub(crate) fn update_node(&mut self, is_leaf: bool, node: Idx)
        requires
            node.id() < old(self).nodes@.len(),
            old(self).nodes@[node.id() as int].kids.wf(),
            old(self).elements@.len() == old(self).element_info@.len(),
            is_leaf ==> forall|j: int|
                0 <= j < old(self).kid_ids(node.id() as int).len() ==> {
                    let k = #[trigger] old(self).kid_ids(node.id() as int)[j];
                    &&& k.id() < old(self).elements@.len()
                    &&& old(self).element_info@[k.id() as int].parent == node
                },
            !is_leaf ==> forall|j: int|
                0 <= j < old(self).kid_ids(node.id() as int).len() ==> {
                    let k = #[trigger] old(self).kid_ids(node.id() as int)[j];
                    &&& k.id() < old(self).nodes@.len()
                    &&& old(self).nodes@[k.id() as int].parent == Some(node)
                },
            !is_leaf ==> sum_counts(old(self).nodes@, old(self).kid_ids(node.id() as int))
                < usize::MAX,
        ensures
            ({
                let o = old(self).nodes@[node.id() as int];
                let ks = o.kids.ids();
                let n = final(self).nodes@[node.id() as int];
                &&& final(self).nodes@ == old(self).nodes@.update(node.id() as int, n)
                &&& n.kids == o.kids
                &&& n.is_leaf == o.is_leaf
                &&& n.parent == o.parent
                &&& is_leaf ==> n.count == ks.len() && n.info == sum_infos(old(self).elem_infos(ks))
                &&& !is_leaf ==> n.count == sum_counts(old(self).nodes@, ks) && n.info
                    == sum_node_infos(old(self).nodes@, ks)
            }),
            final(self).elements@ == old(self).elements@,
            final(self).element_info@ == old(self).element_info@,
            final(self).first_free == old(self).first_free,
            final(self).root == old(self).root,
            final(self).levels == old(self).levels,
            final(self).flats == old(self).flats,
            final(self).heights == old(self).heights,
    {
        let kids = self.nodes[node.get()].kids;
        let ghost ks = kids.ids();
        let n = kids.count();
        proof {
            kids.lemma_len_bound();
            assert(ks == old(self).kid_ids(node.id() as int));
        }
        let mut count: usize = 0;
        let mut info = T::Info::zero();
        let mut j: usize = 0;
        proof {
            assert(ks.take(0) =~= Seq::<Idx>::empty());
            assert(self.elem_infos(Seq::<Idx>::empty()) =~= Seq::<T::Info>::empty());
        }
        while j < n
            invariant
                self == old(self),
                kids == self.nodes@[node.id() as int].kids,
                kids.wf(),
                ks == kids.ids(),
                n == ks.len(),
                n <= B,
                j <= n,
                node.id() < self.nodes@.len(),
                self.elements@.len() == self.element_info@.len(),
                is_leaf ==> forall|q: int|
                    0 <= q < ks.len() ==> {
                        let k = #[trigger] ks[q];
                        &&& k.id() < self.elements@.len()
                        &&& self.element_info@[k.id() as int].parent == node
                    },
                !is_leaf ==> forall|q: int|
                    0 <= q < ks.len() ==> {
                        let k = #[trigger] ks[q];
                        &&& k.id() < self.nodes@.len()
                        &&& self.nodes@[k.id() as int].parent == Some(node)
                    },
                !is_leaf ==> sum_counts(self.nodes@, ks) < usize::MAX,
                is_leaf ==> count == j && info == sum_infos(self.elem_infos(ks.take(j as int))),
                !is_leaf ==> count == sum_counts(self.nodes@, ks.take(j as int)) && info
                    == sum_node_infos(self.nodes@, ks.take(j as int)),
            decreases n - j,
        {
            let kid = kids.get(j);
            proof {
                assert(ks.take(j as int + 1).drop_last() =~= ks.take(j as int));
                assert(ks.take(j as int + 1).last() == kid);
                assert(self.elem_infos(ks.take(j as int + 1)).drop_last() =~= self.elem_infos(
                    ks.take(j as int),
                ));
                if !is_leaf {
                    self.lemma_sum_counts_prefix(ks, j as int + 1);
                }
            }
            let (kid_info, kid_count) = if is_leaf {
                (self.elements[kid.get()].get_info(), 1)
            } else {
                let k = self.nodes[kid.get()];
                (k.info, k.count)
            };
            info = info.add(kid_info);
            count = count + kid_count;
            j += 1;
        }
        proof {
            assert(ks.take(n as int) =~= ks);
        }
        let mut nd = self.nodes[node.get()];
        nd.info = info;
        nd.count = count;
        self.nodes.set(node.get(), nd);
    }

    pub(crate) proof fn lemma_sum_counts_prefix(&self, ks: Seq<Idx>, j: int)
        requires
            0 <= j <= ks.len(),
        ensures
            sum_counts(self.nodes@, ks.take(j)) <= sum_counts(self.nodes@, ks),
        decreases ks.len(),
    {
        if j < ks.len() {
            assert(ks.drop_last().take(j) =~= ks.take(j));
            self.lemma_sum_counts_prefix(ks.drop_last(), j);
        } else {
            assert(ks.take(j) =~= ks);
        }
    }

    /// Makes a new node holding `kids`, and makes it the parent of each of
    /// them.
    fn new_node(&mut self, is_leaf: bool, kids: Kids) -> (r: Idx)
        requires
            kids.wf(),
            kids.ids().no_duplicates(),
            old(self).nodes@.len() + 1 < usize::MAX,
            old(self).elements@.len() == old(self).element_info@.len(),
            is_leaf ==> forall|j: int|
                0 <= j < kids.ids().len() ==> (#[trigger] kids.ids()[j]).id() < old(self).elements@.len(),
            !is_leaf ==> forall|j: int|
                0 <= j < kids.ids().len() ==> (#[trigger] kids.ids()[j]).id() < old(self).nodes@.len(),
            !is_leaf ==> sum_counts(old(self).nodes@, kids.ids()) < usize::MAX,
        ensures
            r.id() == old(self).nodes@.len(),
            final(self).nodes@.len() == old(self).nodes@.len() + 1,
            ({
                let n = final(self).nodes@[r.id() as int];
                let ks = kids.ids();
                &&& n.kids == kids
                &&& n.is_leaf == is_leaf
                &&& n.parent is None
                &&& is_leaf ==> n.count == ks.len() && n.info == sum_infos(old(self).elem_infos(ks))
                &&& !is_leaf ==> n.count == sum_counts(old(self).nodes@, ks) && n.info
                    == sum_node_infos(old(self).nodes@, ks)
            }),
            forall|i: int|
                0 <= i < old(self).nodes@.len() ==> {
                    let o = #[trigger] old(self).nodes@[i];
                    let n = final(self).nodes@[i];
                    &&& n.kids == o.kids
                    &&& n.count == o.count
                    &&& n.info == o.info
                    &&& n.is_leaf == o.is_leaf
                    &&& n.parent == (if !is_leaf && names(kids.ids(), i) {
                        Some(r)
                    } else {
                        o.parent
                    })
                },
            final(self).element_info@.len() == old(self).element_info@.len(),
            !is_leaf ==> final(self).element_info@ == old(self).element_info@,
            forall|i: int|
                0 <= i < old(self).element_info@.len() ==> (#[trigger] final(self).element_info@[i]).parent == (
                if is_leaf && names(kids.ids(), i) {
                    r
                } else {
                    old(self).element_info@[i].parent
                }),
            final(self).elements@ == old(self).elements@,
            final(self).first_free == old(self).first_free,
            final(self).root == old(self).root,
            final(self).levels == old(self).levels,
            final(self).flats == old(self).flats,
            final(self).heights == old(self).heights,
    {
        let idx = Idx::new(self.nodes.len());
        let ghost ks = kids.ids();
        let ghost nodes0 = self.nodes@;
        let n = kids.count();
        proof {
            kids.lemma_len_bound();
        }
        let mut count: usize = 0;
        let mut info = T::Info::zero();
        let mut j: usize = 0;
        proof {
            assert(ks.take(0) =~= Seq::<Idx>::empty());
            assert(self.elem_infos(Seq::<Idx>::empty()) =~= Seq::<T::Info>::empty());
        }
        while j < n
            invariant
                kids.wf(),
                ks == kids.ids(),
                ks.no_duplicates(),
                n == ks.len(),
                n <= B,
                j <= n,
                idx.id() == nodes0.len(),
                self.nodes@.len() == nodes0.len(),
                nodes0 == old(self).nodes@,
                self.elements@ == old(self).elements@,
                self.element_info@.len() == old(self).element_info@.len(),
                !is_leaf ==> self.element_info@ == old(self).element_info@,
                self.elements@.len() == self.element_info@.len(),
                self.first_free == old(self).first_free,
                self.root == old(self).root,
                self.levels == old(self).levels,
                self.flats == old(self).flats,
                self.heights == old(self).heights,
                is_leaf ==> forall|q: int|
                    0 <= q < ks.len() ==> (#[trigger] ks[q]).id() < self.elements@.len(),
                !is_leaf ==> forall|q: int|
                    0 <= q < ks.len() ==> (#[trigger] ks[q]).id() < nodes0.len(),
                !is_leaf ==> sum_counts(nodes0, ks) < usize::MAX,
                forall|i: int|
                    0 <= i < nodes0.len() ==> {
                        let o = #[trigger] nodes0[i];
                        let m = self.nodes@[i];
                        &&& m.kids == o.kids
                        &&& m.count == o.count
                        &&& m.info == o.info
                        &&& m.is_leaf == o.is_leaf
                        &&& m.parent == (if !is_leaf && names(ks.take(j as int), i) {
                            Some(idx)
                        } else {
                            o.parent
                        })
                    },
                forall|i: int|
                    0 <= i < old(self).element_info@.len() ==> (#[trigger] self.element_info@[i]).parent
                        == (if is_leaf && names(ks.take(j as int), i) {
                        idx
                    } else {
                        old(self).element_info@[i].parent
                    }),
                is_leaf ==> count == j && info == sum_infos(old(self).elem_infos(ks.take(j as int))),
                !is_leaf ==> count == sum_counts(nodes0, ks.take(j as int)) && info
                    == sum_node_infos(nodes0, ks.take(j as int)),
            decreases n - j,
        {
            let kid = kids.get(j);
            proof {
                assert(ks.take(j as int + 1).drop_last() =~= ks.take(j as int));
                assert(ks.take(j as int + 1).last() == kid);
                assert(old(self).elem_infos(ks.take(j as int + 1)).drop_last() =~= old(self).elem_infos(
                    ks.take(j as int),
                ));
                if !is_leaf {
                    self.lemma_sum_counts_prefix_of(nodes0, ks, j as int + 1);
                }
                assert forall|i: int| #![trigger names(ks.take(j as int + 1), i)]
                    names(ks.take(j as int + 1), i) <==> (names(ks.take(j as int), i) || kid.id() == i) by {
                    if names(ks.take(j as int + 1), i) {
                        let q = choose|q: int| #![trigger ks.take(j as int + 1)[q]] 0 <= q < ks.take(j as int + 1).len() && ks.take(j as int + 1)[q].id() == i;
                        if q < j {
                            assert(ks.take(j as int)[q] == ks.take(j as int + 1)[q]);
                        }
                    }
                    if names(ks.take(j as int), i) {
                        let q = choose|q: int| #![trigger ks.take(j as int)[q]] 0 <= q < ks.take(j as int).len() && ks.take(j as int)[q].id() == i;
                        assert(ks.take(j as int + 1)[q] == ks.take(j as int)[q]);
                    }
                    if kid.id() == i {
                        assert(ks.take(j as int + 1)[j as int] == kid);
                    }
                }
            }
            let (kid_info, kid_count) = if is_leaf {
                let mut ei = self.element_info[kid.get()];
                ei.parent = idx;
                self.element_info.set(kid.get(), ei);
                (self.elements[kid.get()].get_info(), 1)
            } else {
                let mut k = self.nodes[kid.get()];
                k.parent = Some(idx);
                self.nodes.set(kid.get(), k);
                (k.info, k.count)
            };
            info = info.add(kid_info);
            count = count + kid_count;
            j += 1;
        }
        proof {
            assert(ks.take(n as int) =~= ks);
        }
        let mut right_node = Node::empty(is_leaf);
        right_node.kids = kids;
        right_node.info = info;
        right_node.count = count;
        self.nodes.push(right_node);
        idx
    }

    pub(crate) proof fn lemma_sum_counts_prefix_of(&self, nodes: Seq<Node<T::Info>>, ks: Seq<Idx>, j: int)
        requires
            0 <= j <= ks.len(),
        ensures
            sum_counts(nodes, ks.take(j)) <= sum_counts(nodes, ks),
        decreases ks.len(),
    {
        if j < ks.len() {
            assert(ks.drop_last().take(j) =~= ks.take(j));
            self.lemma_sum_counts_prefix_of(nodes, ks.drop_last(), j);
        } else {
            assert(ks.take(j) =~= ks);
        }
    }
}

} // verus!


verus! {

impl<T: BTreeItem> BTree<T> {
    /// Whether node `i` is `l` or one of its ancestors.
    pub(crate) open spec fn on_chain(&self, l: int, i: int) -> bool {
        0 <= i < self.nodes@.len() && i == self.anc(l, self.heights@[i])
    }

    /// Whether node `i` is an ancestor of `l` more than `t` levels up.
    pub(crate) open spec fn stale(&self, l: int, t: nat, i: int) -> bool {
        self.on_chain(l, i) && self.heights@[i] > t
    }

    /// `self` is `s0` with the element `e` added at position `index` of leaf
    /// `l`, accounted for up to the ancestor `t` levels up, which holds it at
    /// position `pos`; `right` is a node split off that ancestor and not yet
    /// linked to a parent.
    #[verifier::opaque]
    pub(crate) open spec fn pending(
        &self,
        s0: BTree<T>,
        l: int,
        t: nat,
        right: Option<Idx>,
        e: Idx,
        pos: int,
        index: int,
    ) -> bool {
        let node = s0.anc(l, t);
        &&& s0.wf()
        &&& 0 <= l < s0.nodes@.len()
        &&& s0.heights@[l] == 0
        &&& t <= s0.levels
        &&& 0 <= index <= s0.flats@[l].len()
        &&& self.levels == s0.levels
        &&& self.root == s0.root
        &&& self.first_free is None
        &&& e.id() == s0.elements@.len()
        &&& self.elements@.len() == s0.elements@.len() + 1
        &&& forall|i: int|
            0 <= i < s0.elements@.len() ==> #[trigger] self.elements@[i] == s0.elements@[i]
        &&& self.element_info@.len() == self.elements@.len()
        &&& self.nodes@.len() == self.flats@.len()
        &&& self.nodes@.len() == self.heights@.len()
        &&& s0.nodes@.len() <= self.nodes@.len()
        &&& self.nodes@.len() + (s0.levels - t) + 3 < usize::MAX
        &&& s0.levels + 2 < usize::MAX
        &&& self.elements@.len() + 1 < usize::MAX
        &&& forall|i: int|
            0 <= i < s0.nodes@.len() ==> #[trigger] self.heights@[i] == s0.heights@[i]
        &&& forall|i: int|
            s0.nodes@.len() <= i < self.nodes@.len() ==> #[trigger] self.heights@[i] <= t
        &&& forall|i: int|
            #[trigger] s0.stale(l, t, i) ==> self.nodes@[i] == s0.nodes@[i] && self.flats@[i]
                == s0.flats@[i]
        &&& forall|i: int|
            0 <= i < s0.nodes@.len() && !s0.on_chain(l, i) ==> #[trigger] self.flats@[i]
                == s0.flats@[i]
        &&& forall|i: int|
            0 <= i < s0.nodes@.len() && s0.nodes@[i].parent is Some && s0.stale(
                l,
                t,
                s0.nodes@[i].parent->0.id() as int,
            ) ==> #[trigger] self.nodes@[i].parent == s0.nodes@[i].parent
        &&& forall|i: int|
            0 <= i < self.nodes@.len() && !s0.stale(l, t, i) ==> #[trigger] self.node_core(i)
        &&& forall|i: int|
            0 <= i < self.nodes@.len() && !s0.stale(l, t, i) && !(right matches Some(r) && r.id()
                == i) ==> #[trigger] self.node_up(i)
        &&& self.nodes@[node].parent == s0.nodes@[node].parent
        &&& match right {
            None => self.flats@[node] == s0.flats@[node].insert(pos, e),
            Some(r) => {
                &&& s0.nodes@.len() <= r.id() < self.nodes@.len()
                &&& self.heights@[r.id() as int] == t
                &&& self.nodes@[r.id() as int].parent is None
                &&& self.flats@[r.id() as int].len() > 0
                &&& self.flats@[node].len() > 0
                &&& self.flats@[node] + self.flats@[r.id() as int] == s0.flats@[node].insert(pos, e)
            },
        }
        &&& 0 <= pos <= s0.flats@[node].len()
        &&& pos + s0.up_offset(node, (s0.levels - t) as nat) == s0.up_offset(l, s0.levels as nat) + index
        &&& forall|i: int| 0 <= i < s0.ids().len() ==> self.elem_placed(#[trigger] s0.ids()[i])
        &&& self.elem_placed(e)
        &&& forall|a: int, b: int|
            #![trigger self.flats@[a], self.flats@[b]]
            0 <= a < self.nodes@.len() && 0 <= b < self.nodes@.len() && a != b && self.heights@[a]
                == self.heights@[b] ==> self.flats@[a].disjoint(self.flats@[b])
    }
}

impl<T: BTreeItem> BTree<T> {
    /// Stores `elem` and adds it at slot `index` of leaf `leaf`, splitting
    /// the leaf when it is full.
    #[verifier::rlimit(80)]
    #[verifier::spinoff_prover]
    fn start_insert(&mut self, leaf: Idx, index: usize, elem: T) -> (r: (Idx, Option<Idx>))
        requires
            old(self).wf(),
            leaf.id() < old(self).nodes@.len(),
            old(self).heights@[leaf.id() as int] == 0,
            index <= old(self).flats@[leaf.id() as int].len(),
            old(self).elements@.len() + 2 < usize::MAX,
            old(self).nodes@.len() + old(self).levels + 4 < usize::MAX,
        ensures
            final(self).pending(*old(self), leaf.id() as int, 0, r.1, r.0, index as int, index as int),
            final(self).elements@[r.0.id() as int] == elem,
            final(self).levels == old(self).levels,
            final(self).nodes@.len() <= old(self).nodes@.len() + 1,
    {
        let ghost s0: BTree<T> = *self;
        let ghost l = leaf.id() as int;
        proof {
            reveal(BTree::wf);
            reveal(BTree::node_wf);
            assert(s0.node_wf(l));
            s0.lemma_flat_len(l);
            s0.nodes@[l].kids.lemma_len_bound();
        }
        let info = elem.get_info();
        let e = self.allocate_elem(leaf, elem);
        let kids = self.add_child(leaf, index, e, info);
        let ghost full = s0.flats@[l].insert(index as int, e);
        proof {
            assert(full.no_duplicates()) by {
                assert forall|i: int, j: int| 0 <= i < full.len() && 0 <= j < full.len() && i != j implies full[i] != full[j] by {
                    if full[i] == full[j] {
                        if i == index as int || j == index as int {
                            let o = if i == index as int { j } else { i };
                            let oo = if o < index { o } else { o - 1 };
                            assert(s0.flats@[l][oo].id() < s0.elements@.len());
                        }
                    }
                }
            }
            assert(forall|i: int| 0 <= i < full.len() ==> (#[trigger] full[i]).id() < self.elements@.len()) by {
                assert forall|i: int| 0 <= i < full.len() implies (#[trigger] full[i]).id() < self.elements@.len() by {
                    if i != index as int {
                        let oo = if i < index { i } else { i - 1 };
                        assert(full[i] == s0.flats@[l][oo]);
                    }
                }
            }
            assert(self.elem_infos(full) =~= s0.elem_infos(s0.flats@[l]).insert(index as int, info));
            crate::info::lemma_sum_infos_insert(s0.elem_infos(s0.flats@[l]), index as int, info);
        }
        match kids {
            None => {
                self.flats = Ghost(self.flats@.update(l, full));
                proof {
                    reveal(BTree::pending);
                    reveal(BTree::wf);
                    reveal(BTree::node_wf);
                    assert(s0.anc(l, 0) == l);
                    let nd = self.nodes@[l];
                    assert(nd.kids.ids() == full);
                    assert(nd.count == full.len());
                    assert(nd.info == sum_infos(self.elem_infos(full)));
                    assert(self.flats@[l] == full);
                    assert forall|j: int| 0 <= j < full.len() implies (#[trigger] self.element_info@[full[j].id() as int]).parent.id() == l by {
                        if j != index as int {
                            let oo = if j < index { j } else { j - 1 };
                            assert(full[j] == s0.flats@[l][oo]);
                            assert(s0.kid_ids(l)[oo] == full[j]);
                        }
                    }
                    assert(self.node_core(l));
                    assert forall|i: int| 0 <= i < self.nodes@.len() && !s0.stale(l, 0, i) implies #[trigger] self.node_core(i) by {
                        if i != l {
                            assert(s0.node_wf(i));
                            if s0.heights@[i] > 0 {
                                assert forall|j: int| 0 <= j < s0.kid_ids(i).len() implies (#[trigger] s0.kid_ids(i)[j]).id() != l by {
                                    if s0.kid_ids(i)[j].id() == l {
                                        assert(s0.anc(l, 1) == i);
                                    }
                                }
                            }
                            BTree::lemma_core_frame(&s0, self, i);
                        }
                    }
                    assert forall|i: int| 0 <= i < self.nodes@.len() && !s0.stale(l, 0, i) implies #[trigger] self.node_up(i) by {
                        assert(s0.node_wf(i));
                        BTree::lemma_up_frame(&s0, self, i);
                    }
                    assert forall|i: int| 0 <= i < s0.ids().len() implies self.elem_placed(#[trigger] s0.ids()[i]) by {
                        let x = s0.ids()[i];
                        assert(s0.node_wf(s0.root.id() as int));
                        let lf = s0.element_info@[x.id() as int].parent.id() as int;
                        if lf == l {
                            let q = choose|q: int| 0 <= q < s0.kid_ids(l).len() && s0.kid_ids(l)[q] == x;
                            let q2 = if q < index { q } else { q + 1 };
                            assert(self.kid_ids(l)[q2] == x);
                        }
                    }
                    assert(self.kid_ids(l)[index as int] == e);
                    assert forall|a: int, b: int|
                        #![trigger self.flats@[a], self.flats@[b]]
                        0 <= a < self.nodes@.len() && 0 <= b < self.nodes@.len() && a != b && self.heights@[a]
                            == self.heights@[b] implies self.flats@[a].disjoint(self.flats@[b]) by {
                        assert(s0.flats@[a].disjoint(s0.flats@[b]));
                        assert(s0.node_wf(a));
                        assert(s0.node_wf(b));
                    }
                }
                (e, None)
            },
            Some(k) => {
                proof {
                    assert(s0.nodes@[l].kids.ids().len() == B);
                    assert(self.kid_ids(l) == full.take(SPLIT_POINT as int));
                    assert forall|j: int| 0 <= j < self.kid_ids(l).len() implies {
                        let kk = #[trigger] self.kid_ids(l)[j];
                        &&& kk.id() < self.elements@.len()
                        &&& self.element_info@[kk.id() as int].parent == leaf
                    } by {
                        let kk = self.kid_ids(l)[j];
                        assert(kk == full[j]);
                        if j != index as int {
                            let oo = if j < index { j } else { j - 1 };
                            assert(full[j] == s0.flats@[l][oo]);
                            assert(s0.kid_ids(l)[oo] == full[j]);
                            assert(self.element_info@[kk.id() as int].parent.id() == l);
                            self.element_info@[kk.id() as int].parent.lemma_id_injective(leaf);
                        }
                    }
                }
                let ghost sa: BTree<T> = *self;
                self.update_node(true, leaf);
                let ghost sb: BTree<T> = *self;
                proof {
                    assert(k.ids() == full.skip(SPLIT_POINT as int));
                    assert(full.skip(SPLIT_POINT as int).no_duplicates());
                    assert forall|j: int| 0 <= j < k.ids().len() implies (#[trigger] k.ids()[j]).id() < sb.elements@.len() by {
                        assert(k.ids()[j] == full[j + 4]);
                    }
                }
                let r = self.new_node(true, k);
                let ghost lo = full.take(SPLIT_POINT as int);
                let ghost hi = full.skip(SPLIT_POINT as int);
                self.flats = Ghost(self.flats@.update(l, lo).push(hi));
                self.heights = Ghost(self.heights@.push(0nat));
                proof {
                    reveal(BTree::pending);
                    reveal(BTree::wf);
                    reveal(BTree::node_wf);
                    let ri = r.id() as int;
                    assert(s0.anc(l, 0) == l);
                    assert(ri == s0.nodes@.len());
                    assert(full =~= lo + hi);
                    assert forall|i: int| 0 <= i < s0.nodes@.len() && i != l implies #[trigger] sb.nodes@[i] == s0.nodes@[i] by {}
                    assert forall|i: int| 0 <= i < sb.nodes@.len() implies #[trigger] self.nodes@[i] == sb.nodes@[i] by {
                        assert(self.nodes@[i].parent == sb.nodes@[i].parent);
                    }
                    assert(lo.no_duplicates());
                    assert(hi.no_duplicates());
                    assert(lo.disjoint(hi));
                    // which elements moved
                    assert forall|x: int| #![trigger names(hi, x)] names(hi, x) <==> exists|j: int| 4 <= j < 7 && (#[trigger] full[j]).id() == x by {
                        if names(hi, x) {
                            let j = choose|j: int| 0 <= j < hi.len() && (#[trigger] hi[j]).id() == x;
                            assert(full[j + 4] == hi[j]);
                        }
                        if exists|j: int| 4 <= j < 7 && (#[trigger] full[j]).id() == x {
                            let j = choose|j: int| 4 <= j < 7 && (#[trigger] full[j]).id() == x;
                            assert(hi[j - 4] == full[j]);
                        }
                    }
                    assert forall|j: int| 0 <= j < lo.len() implies !names(hi, (#[trigger] lo[j]).id() as int) by {
                        if names(hi, lo[j].id() as int) {
                            let q = choose|q: int| 0 <= q < hi.len() && (#[trigger] hi[q]).id() == lo[j].id();
                            hi[q].lemma_id_injective(lo[j]);
                            assert(full[j] == full[q + 4]);
                        }
                    }
                    // the leaf
                    assert(self.nodes@[l].kids.ids() == lo);
                    assert(self.flats@[l] == lo);
                    assert forall|j: int| 0 <= j < lo.len() implies (#[trigger] self.element_info@[lo[j].id() as int]).parent.id() == l by {
                        assert(sb.element_info@[lo[j].id() as int].parent == leaf);
                    }
                    assert(self.node_core(l));
                    // the new node
                    assert(self.nodes@[ri].kids.ids() == hi);
                    assert(self.flats@[ri] == hi);
                    assert forall|j: int| 0 <= j < hi.len() implies (#[trigger] self.element_info@[hi[j].id() as int]).parent.id() == ri by {
                        assert(names(hi, hi[j].id() as int));
                    }
                    assert(sb.elem_infos(hi) == self.elem_infos(hi));
                    assert(self.node_core(ri));
                    assert forall|i: int| 0 <= i < self.nodes@.len() && !s0.stale(l, 0, i) implies #[trigger] self.node_core(i) by {
                        if i != l && i != ri {
                            assert(s0.node_wf(i));
                            assert(sb.nodes@[i] == s0.nodes@[i]);
                            assert(self.nodes@[i].kids == sb.nodes@[i].kids);
                            if s0.heights@[i] > 0 {
                                assert forall|j: int| 0 <= j < s0.kid_ids(i).len() implies (#[trigger] s0.kid_ids(i)[j]).id() != l by {
                                    if s0.kid_ids(i)[j].id() == l {
                                        assert(s0.anc(l, 1) == i);
                                    }
                                }
                            } else {
                                assert forall|j: int| 0 <= j < s0.kid_ids(i).len() implies #[trigger] self.element_info@[s0.kid_ids(i)[j].id() as int].parent
                                    == s0.element_info@[s0.kid_ids(i)[j].id() as int].parent by {
                                    let x = s0.kid_ids(i)[j];
                                    assert(s0.flats@[i][j] == x);
                                    if names(hi, x.id() as int) {
                                        let q = choose|q: int| 4 <= q < 7 && (#[trigger] full[q]).id() == x.id();
                                        full[q].lemma_id_injective(x);
                                        if q == index as int {
                                            assert(x.id() < s0.elements@.len());
                                        } else {
                                            let oo = if q < index { q } else { q - 1 };
                                            assert(full[q] == s0.flats@[l][oo]);
                                            assert(s0.flats@[l].contains(x));
                                            assert(s0.flats@[i].contains(x));
                                            assert(s0.flats@[l].disjoint(s0.flats@[i]));
                                        }
                                    }
                                }
                            }
                            BTree::lemma_core_frame(&s0, self, i);
                        }
                    }
                    assert forall|i: int| 0 <= i < self.nodes@.len() && !s0.stale(l, 0, i) && i != ri implies #[trigger] self.node_up(i) by {
                        assert(s0.node_wf(i));
                        if i == l {
                            if s0.heights@[l] < s0.levels {
                                let p = s0.nodes@[l].parent->0;
                                let x = choose|x: Idx| x.id() == l && #[trigger] s0.kid_ids(p.id() as int).contains(x);
                                assert(self.kid_ids(p.id() as int) == s0.kid_ids(p.id() as int));
                                assert(self.kid_ids(p.id() as int).contains(x));
                            }
                        } else {
                        assert(sb.nodes@[i].parent == s0.nodes@[i].parent);
                        assert(self.nodes@[i].parent == sb.nodes@[i].parent);
                        if s0.heights@[i] < s0.levels {
                            let p = s0.nodes@[i].parent->0.id() as int;
                            assert(sb.nodes@[p] == s0.nodes@[p]);
                            assert(self.nodes@[p].kids == sb.nodes@[p].kids);
                        }
                        BTree::lemma_up_frame(&s0, self, i);
                        }
                    }
                    assert forall|i: int| 0 <= i < s0.ids().len() implies self.elem_placed(#[trigger] s0.ids()[i]) by {
                        let x = s0.ids()[i];
                        assert(s0.node_wf(s0.root.id() as int));
                        let lf = s0.element_info@[x.id() as int].parent.id() as int;
                        if lf == l {
                            let q = choose|q: int| 0 <= q < s0.kid_ids(l).len() && s0.kid_ids(l)[q] == x;
                            let q2 = if q < index { q } else { q + 1 };
                            assert(full[q2] == x);
                            if q2 < 4 {
                                assert(lo[q2] == x);
                                assert(!names(hi, x.id() as int));
                            } else {
                                assert(hi[q2 - 4] == x);
                                assert(names(hi, x.id() as int));
                            }
                        } else {
                            if names(hi, x.id() as int) {
                                let q = choose|q: int| 4 <= q < 7 && (#[trigger] full[q]).id() == x.id();
                                full[q].lemma_id_injective(x);
                                if q == index as int {
                                    assert(x.id() < s0.elements@.len());
                                } else {
                                    let oo = if q < index { q } else { q - 1 };
                                    assert(full[q] == s0.flats@[l][oo]);
                                    assert(s0.element_info@[x.id() as int].parent.id() == l);
                                }
                            }
                        }
                    }
                    if (index as int) < 4 {
                        assert(lo[index as int] == e);
                        assert(!names(hi, e.id() as int));
                    } else {
                        assert(hi[index as int - 4] == e);
                        assert(names(hi, e.id() as int));
                    }
                    assert forall|a: int, b: int|
                        #![trigger self.flats@[a], self.flats@[b]]
                        0 <= a < self.nodes@.len() && 0 <= b < self.nodes@.len() && a != b && self.heights@[a]
                            == self.heights@[b] implies self.flats@[a].disjoint(self.flats@[b]) by {
                        if a < s0.nodes@.len() && b < s0.nodes@.len() {
                            assert(s0.flats@[a].disjoint(s0.flats@[b]));
                        }
                        if a == l || a == ri || b == l || b == ri {
                            let o = if a == l || a == ri { b } else { a };
                            if o != l && o != ri {
                                assert(s0.node_wf(o));
                                assert(s0.flats@[l].disjoint(s0.flats@[o]));
                                assert forall|u: int, v: int| 0 <= u < full.len() && 0 <= v < s0.flats@[o].len() implies full[u] != s0.flats@[o][v] by {
                                    if u != index as int {
                                        let oo = if u < index { u } else { u - 1 };
                                        assert(full[u] == s0.flats@[l][oo]);
                                    }
                                }
                            }
                        }
                    }
                }
                (e, Some(r))
            },
        }
    }
}

impl<T: BTreeItem> BTree<T> {
    /// Facts about the ancestor chain of the leaf an insertion started in.
    pub(crate) proof fn lemma_chain(s0: &BTree<T>, l: int, t: nat)
        requires
            s0.wf(),
            0 <= l < s0.nodes@.len(),
            s0.heights@[l] == 0,
            t < s0.levels,
        ensures
            ({
                let node = s0.anc(l, t);
                let p = s0.anc(l, t + 1);
                let ks = s0.kid_ids(p);
                let j = s0.kid_slot(p, node);
                &&& 0 <= node < s0.nodes@.len()
                &&& 0 <= p < s0.nodes@.len()
                &&& s0.heights@[node] == t
                &&& s0.heights@[p] == t + 1
                &&& s0.nodes@[node].parent matches Some(pp) && pp.id() == p
                &&& 0 <= j < ks.len()
                &&& ks[j].id() == node
                &&& forall|q: int| 0 <= q < ks.len() && q != j ==> ks[q].id() != node
                &&& forall|q: int| 0 <= q < ks.len() ==> (#[trigger] ks[q]).id() < s0.nodes@.len()
                &&& s0.flats@[p] == concat_flats(s0.flats@, ks.take(j)) + s0.flats@[node] + concat_flats(
                    s0.flats@,
                    ks.skip(j + 1),
                )
                &&& s0.up_offset(node, (s0.levels - t) as nat) == concat_flats(s0.flats@, ks.take(j)).len()
                    + s0.up_offset(p, (s0.levels - (t + 1)) as nat)
                &&& s0.on_chain(l, p)
                &&& s0.on_chain(l, node)
                &&& forall|i: int| 0 <= i < s0.nodes@.len() && s0.on_chain(l, i) && s0.heights@[i] == t ==> i == node
                &&& forall|i: int| 0 <= i < s0.nodes@.len() && s0.on_chain(l, i) && s0.heights@[i] == t + 1 ==> i == p
            }),
    {
        reveal(BTree::wf);
        reveal(BTree::node_wf);
        s0.lemma_anc(l, t);
        s0.lemma_anc(l, t + 1);
        let node = s0.anc(l, t);
        let p = s0.anc(l, t + 1);
        assert(s0.node_wf(node));
        assert(s0.node_wf(p));
        let ks = s0.kid_ids(p);
        let x = choose|x: Idx| x.id() == node && #[trigger] s0.kid_ids(p).contains(x);
        let j = s0.kid_slot(p, node);
        assert(0 <= j < ks.len() && ks[j].id() == node);
        assert forall|q: int| 0 <= q < ks.len() && q != j implies ks[q].id() != node by {
            if ks[q].id() == node {
                ks[q].lemma_id_injective(ks[j]);
            }
        }
        lemma_concat_flats_split(s0.flats@, ks, j);
        lemma_concat_flats_split(s0.flats@, ks.skip(j), 1);
        assert(ks.skip(j).take(1) =~= seq![ks[j]]);
        lemma_concat_flats_single(s0.flats@, ks[j]);
        assert(ks.skip(j).skip(1) =~= ks.skip(j + 1));
        assert((s0.levels - t) as nat - 1 == (s0.levels - (t + 1)) as nat);
    }

    /// Tells the parent of the node the new element went into about the
    /// element, and about the node split off, if there is one.
    #[verifier::rlimit(80)]
    #[verifier::spinoff_prover]
    fn bubble(
        &mut self,
        node: Idx,
        right: Option<Idx>,
        info: T::Info,
        Ghost(s0): Ghost<BTree<T>>,
        Ghost(l): Ghost<int>,
        Ghost(t): Ghost<nat>,
        Ghost(e): Ghost<Idx>,
        Ghost(pos): Ghost<int>,
        Ghost(index): Ghost<int>,
    ) -> (r: (Idx, Option<Idx>, Ghost<int>))
        requires
            old(self).pending(s0, l, t, right, e, pos, index),
            t < s0.levels,
            node.id() == s0.anc(l, t),
            info == old(self).elements@[e.id() as int].spec_info(),
        ensures
            r.0.id() == s0.anc(l, t + 1),
            final(self).pending(s0, l, t + 1, r.1, e, r.2@, index),
            final(self).elements@ == old(self).elements@,
            final(self).levels == old(self).levels,
            final(self).nodes@.len() <= old(self).nodes@.len() + 1,
    {
        let ghost b: BTree<T> = *self;
        proof {
            reveal(BTree::pending);
            BTree::lemma_chain(&s0, l, t);
        }
        let parent = match self.nodes[node.get()].parent {
            Some(pp) => pp,
            None => {
                proof {
                    assert(false);
                }
                node
            },
        };
        let ghost p = parent.id() as int;
        let ghost ks = s0.kid_ids(p);
        let ghost j = s0.kid_slot(p, node.id() as int);
        let ghost off = concat_flats(s0.flats@, ks.take(j)).len() as int;
        let ghost npos = off + pos;
        let ghost nf = s0.flats@[p].insert(npos, e);
        proof {
            reveal(BTree::wf);
            reveal(BTree::node_wf);
            assert(s0.stale(l, t, p));
            assert(b.nodes@[p] == s0.nodes@[p]);
            assert(s0.node_wf(p));
            s0.lemma_flat_len(p);
        }
        self.nodes[parent.get()].assert_not_leaf();
        match right {
            None => {
                let mut pn = self.nodes[parent.get()];
                pn.count = pn.count + 1;
                pn.info = pn.info.add(info);
                self.nodes.set(parent.get(), pn);
                self.flats = Ghost(self.flats@.update(p, nf));
                proof {
                    self.lemma_bubble_plain(b, s0, l, t, e, pos, index, p, j);
                }
                (parent, None, Ghost(npos))
            },
            Some(r) => {
                let slot = match self.nodes[parent.get()].kids.position(node) {
                    Some(q) => q,
                    None => {
                        proof {
                            assert(ks[j] == node) by {
                                ks[j].lemma_id_injective(node);
                            }
                            assert(false);
                        }
                        0
                    },
                };
                proof {
                    ks[j].lemma_id_injective(node);
                    if slot != j {
                        ks[slot as int].lemma_id_injective(node);
                    }
                    assert(slot == j);
                    reveal(BTree::pending);
                }
                let mut rn = self.nodes[r.get()];
                rn.parent = Some(parent);
                self.nodes.set(r.get(), rn);
                let ghost c: BTree<T> = *self;
                proof {
                    BTree::lemma_join_facts(&c, b, s0, l, t, r, e, pos, index, parent);
                    c.nodes@[p].kids.lemma_len_bound();
                }
                let ghost full = ks.insert(j + 1, r);
                let split = self.add_child(parent, slot + 1, r, info);
                match split {
                    None => {
                        self.flats = Ghost(self.flats@.update(p, nf));
                        proof {
                            self.lemma_bubble_join(c, b, s0, l, t, r, e, pos, index, parent);
                        }
                        (parent, None, Ghost(npos))
                    },
                    Some(k2) => {
                        let ghost lo = full.take(SPLIT_POINT as int);
                        let ghost hi = full.skip(SPLIT_POINT as int);
                        let ghost d: BTree<T> = *self;
                        proof {
                            assert(d.kid_ids(p) == lo);
                            assert forall|q: int| 0 <= q < lo.len() implies #[trigger] lo[q] == full[q] by {}
                            assert forall|q: int| 0 <= q < hi.len() implies #[trigger] hi[q] == full[q + 4] by {}
                            assert forall|q: int| 0 <= q < full.len() implies #[trigger] d.nodes@[full[q].id() as int]
                                == c.nodes@[full[q].id() as int] by {}
                            assert forall|q: int| 0 <= q < lo.len() implies {
                                let k = (#[trigger] lo[q]).id() as int;
                                &&& 0 <= k < c.nodes@.len()
                                &&& c.nodes@[k].count == c.flats@[k].len()
                                &&& c.nodes@[k].info == sum_infos(c.elem_infos(c.flats@[k]))
                            } by {
                                assert(lo[q] == full[q]);
                            }
                            assert forall|q: int| 0 <= q < hi.len() implies {
                                let k = (#[trigger] hi[q]).id() as int;
                                &&& 0 <= k < c.nodes@.len()
                                &&& c.nodes@[k].count == c.flats@[k].len()
                                &&& c.nodes@[k].info == sum_infos(c.elem_infos(c.flats@[k]))
                            } by {
                                assert(hi[q] == full[q + 4]);
                            }
                            c.lemma_sum_counts_concat(lo);
                            c.lemma_sum_counts_concat(hi);
                            lemma_sum_counts_frame(d.nodes@, c.nodes@, lo);
                            lemma_concat_flats_split(c.flats@, full, SPLIT_POINT as int);
                            assert(full.skip(SPLIT_POINT as int) == hi);
                            assert(concat_flats(c.flats@, full) == nf);
                            assert(nf.len() == s0.flats@[p].len() + 1);
                            assert(nf.len() < usize::MAX);
                            assert(concat_flats(c.flats@, lo).len() <= nf.len());
                            assert(sum_counts(c.nodes@, lo) == concat_flats(c.flats@, lo).len());
                            assert(sum_counts(d.nodes@, lo) < usize::MAX);
                            assert(full.no_duplicates());
                            assert(hi.no_duplicates());
                        }
                        self.update_node(false, parent);
                        let ghost d2: BTree<T> = *self;
                        proof {
                            assert forall|q: int| 0 <= q < hi.len() implies #[trigger] d2.nodes@[hi[q].id() as int]
                                == c.nodes@[hi[q].id() as int] by {
                                assert(hi[q] == full[q + 4]);
                                assert(full[q + 4].id() != p);
                            }
                            lemma_sum_counts_frame(d2.nodes@, c.nodes@, hi);
                            assert(sum_counts(d2.nodes@, hi) < usize::MAX);
                        }
                        let r2 = self.new_node(false, k2);
                        self.flats = Ghost(
                            c.flats@.update(p, concat_flats(c.flats@, lo)).push(concat_flats(c.flats@, hi)),
                        );
                        self.heights = Ghost(self.heights@.push((t + 1) as nat));
                        proof {
                            let ri2 = r2.id() as int;
                            assert(ks.len() == B);
                            assert(ri2 == c.nodes@.len());
                            assert(self.nodes@.len() == c.nodes@.len() + 1);
                            assert forall|i: int| 0 <= i < c.nodes@.len() && i != p implies #[trigger] d2.nodes@[i] == c.nodes@[i] by {}
                            assert forall|i: int|
                                0 <= i < c.nodes@.len() && i != p implies {
                                    let o = #[trigger] c.nodes@[i];
                                    let n = self.nodes@[i];
                                    &&& n.kids == o.kids
                                    &&& n.count == o.count
                                    &&& n.info == o.info
                                    &&& n.is_leaf == o.is_leaf
                                    &&& n.parent == (if names(hi, i) {
                                        Some(r2)
                                    } else {
                                        o.parent
                                    })
                                } by {
                                assert(d2.nodes@[i] == c.nodes@[i]);
                                assert(k2.ids() == hi);
                            }
                            assert(self.nodes@[p].kids.wf());
                            assert(self.kid_ids(p) == lo);
                            assert(self.nodes@[p].parent == c.nodes@[p].parent);
                            assert(self.nodes@[p].is_leaf == c.nodes@[p].is_leaf);
                            assert(self.nodes@[p].count == sum_counts(c.nodes@, lo));
                            assert(self.nodes@[p].info == sum_node_infos(c.nodes@, lo));
                            assert(self.nodes@[ri2].kids.wf());
                            assert(self.kid_ids(ri2) == hi);
                            assert(!self.nodes@[ri2].is_leaf);
                            assert(self.nodes@[ri2].parent is None);
                            assert(self.nodes@[ri2].count == sum_counts(c.nodes@, hi));
                            assert(self.nodes@[ri2].info == sum_node_infos(c.nodes@, hi));
                            self.lemma_bubble_split(c, b, s0, l, t, r, e, pos, index, parent, r2);
                        }
                        (parent, Some(r2), Ghost(npos))
                    },
                }
            },
        }
    }

    #[verifier::rlimit(100)]
    #[verifier::spinoff_prover]
    proof fn lemma_bubble_plain(
        &self,
        b: BTree<T>,
        s0: BTree<T>,
        l: int,
        t: nat,
        e: Idx,
        pos: int,
        index: int,
        p: int,
        j: int,
    )
        requires
            b.pending(s0, l, t, None, e, pos, index),
            t < s0.levels,
            p == s0.anc(l, t + 1),
            j == s0.kid_slot(p, s0.anc(l, t)),
            self.nodes@.len() == b.nodes@.len(),
            forall|i: int| 0 <= i < b.nodes@.len() && i != p ==> #[trigger] self.nodes@[i] == b.nodes@[i],
            self.nodes@[p].kids == b.nodes@[p].kids,
            self.nodes@[p].parent == b.nodes@[p].parent,
            self.nodes@[p].is_leaf == b.nodes@[p].is_leaf,
            self.nodes@[p].count == b.nodes@[p].count + 1,
            self.nodes@[p].info == b.nodes@[p].info.spec_add(b.elements@[e.id() as int].spec_info()),
            self.flats@ == b.flats@.update(
                p,
                s0.flats@[p].insert(concat_flats(s0.flats@, s0.kid_ids(p).take(j)).len() + pos, e),
            ),
            self.heights == b.heights,
            self.elements == b.elements,
            self.element_info == b.element_info,
            self.levels == b.levels,
            self.root == b.root,
            self.first_free == b.first_free,
        ensures
            self.pending(
                s0,
                l,
                t + 1,
                None,
                e,
                concat_flats(s0.flats@, s0.kid_ids(p).take(j)).len() + pos,
                index,
            ),
    {
        reveal(BTree::pending);
        reveal(BTree::wf);
        reveal(BTree::node_wf);
        BTree::lemma_chain(&s0, l, t);
        let node = s0.anc(l, t);
        let ks = s0.kid_ids(p);
        let off = concat_flats(s0.flats@, ks.take(j)).len() as int;
        let npos = off + pos;
        let nfl = s0.flats@[node].insert(pos, e);
        let nf = s0.flats@[p].insert(npos, e);
        assert(s0.stale(l, t, p));
        assert(b.nodes@[p] == s0.nodes@[p]);
        assert(b.flats@[p] == s0.flats@[p]);
        assert(s0.node_wf(p));
        s0.lemma_flat_len(p);
        assert(self.node_core(p)) by {
            // the parent's handles
            assert forall|q: int| 0 <= q < ks.len() implies #[trigger] self.flats@[ks[q].id() as int] == s0.flats@.update(
                node,
                nfl,
            )[ks[q].id() as int] by {
                let k = ks[q].id() as int;
                if k != node {
                    assert(s0.node_wf(k));
                    assert(!s0.on_chain(l, k));
                }
            }
            lemma_concat_flats_frame(self.flats@, s0.flats@.update(node, nfl), ks);
            lemma_concat_flats_replace(s0.flats@, ks, j, nfl);
            assert(concat_flats(self.flats@, ks) =~= nf);
            // summary and count
            assert(self.elem_infos(nf) =~= s0.elem_infos(s0.flats@[p]).insert(
                npos,
                self.elements@[e.id() as int].spec_info(),
            ));
            crate::info::lemma_sum_infos_insert(
                s0.elem_infos(s0.flats@[p]),
                npos,
                self.elements@[e.id() as int].spec_info(),
            );
            assert(nf.no_duplicates()) by {
                assert forall|x: int, y: int| 0 <= x < nf.len() && 0 <= y < nf.len() && x != y implies nf[x] != nf[y] by {
                    if nf[x] == nf[y] {
                        if x == npos || y == npos {
                            let o = if x == npos { y } else { x };
                            let oo = if o < npos { o } else { o - 1 };
                            assert(s0.flats@[p][oo].id() < s0.elements@.len());
                        }
                    }
                }
            }
            assert forall|x: int| 0 <= x < nf.len() implies (#[trigger] nf[x]).id() < self.elements@.len() by {
                if x != npos {
                    let oo = if x < npos { x } else { x - 1 };
                    assert(nf[x] == s0.flats@[p][oo]);
                }
            }
            assert forall|q: int| #![trigger ks[q]] 0 <= q < ks.len() implies {
                &&& ks[q].id() < self.nodes@.len()
                &&& self.heights@[ks[q].id() as int] == t
                &&& self.nodes@[ks[q].id() as int].parent matches Some(pp) && pp.id() == p
            } by {
                let k = ks[q].id() as int;
                assert(s0.nodes@[k].parent matches Some(pp) && pp.id() == p);
                assert(b.nodes@[k].parent == s0.nodes@[k].parent);
            }
        }
        assert forall|i: int| 0 <= i < self.nodes@.len() && !s0.stale(l, t + 1, i) implies #[trigger] self.node_core(i) by {
            if i != p {
                assert(b.node_core(i));
                if b.heights@[i] > 0 {
                    assert forall|q: int| 0 <= q < b.kid_ids(i).len() implies (#[trigger] b.kid_ids(i)[q]).id() != p by {
                        if b.kid_ids(i)[q].id() == p {
                            if i < s0.nodes@.len() {
                                assert(s0.nodes@[p].parent matches Some(pp) && pp.id() == i);
                                s0.lemma_anc(l, t + 2);
                                assert(s0.anc(l, t + 2) == i);
                                assert(s0.on_chain(l, i));
                            }
                        }
                    }
                }
                BTree::lemma_core_frame(&b, self, i);
            }
        }
        assert forall|i: int| 0 <= i < self.nodes@.len() && !s0.stale(l, t + 1, i) implies #[trigger] self.node_up(i) by {
            if i == p {
                assert(s0.node_wf(p));
                if s0.heights@[p] < s0.levels {
                    let g = s0.nodes@[p].parent->0.id() as int;
                    s0.lemma_anc(l, t + 2);
                    assert(s0.stale(l, t, g));
                    assert(b.nodes@[g] == s0.nodes@[g]);
                }
                BTree::lemma_up_frame(&s0, self, i);
            } else {
                assert(b.node_up(i));
                BTree::lemma_up_frame(&b, self, i);
            }
        }
        assert forall|i: int| 0 <= i < s0.ids().len() implies self.elem_placed(#[trigger] s0.ids()[i]) by {
            assert(b.elem_placed(s0.ids()[i]));
        }
        assert forall|x: int, y: int|
            #![trigger self.flats@[x], self.flats@[y]]
            0 <= x < self.nodes@.len() && 0 <= y < self.nodes@.len() && x != y && self.heights@[x]
                == self.heights@[y] implies self.flats@[x].disjoint(self.flats@[y]) by {
            assert(b.flats@[x].disjoint(b.flats@[y]));
            if x == p || y == p {
                let o = if x == p { y } else { x };
                assert(o < s0.nodes@.len());
                assert(!s0.on_chain(l, o));
                assert(s0.flats@[p].disjoint(s0.flats@[o]));
                assert(s0.node_wf(o));
                assert forall|u: int, v: int| 0 <= u < nf.len() && 0 <= v < s0.flats@[o].len() implies nf[u] != s0.flats@[o][v] by {
                    if u != npos {
                        let oo = if u < npos { u } else { u - 1 };
                        assert(nf[u] == s0.flats@[p][oo]);
                    }
                }
            }
        }
        assert forall|i: int| #[trigger] s0.stale(l, t + 1, i) implies self.nodes@[i] == s0.nodes@[i] && self.flats@[i] == s0.flats@[i] by {
            assert(i != p);
            assert(s0.stale(l, t, i));
            assert(b.nodes@[i] == s0.nodes@[i]);
            assert(self.nodes@[i] == b.nodes@[i]);
        }
        assert(forall|i: int| 0 <= i < s0.nodes@.len() && !s0.on_chain(l, i) ==> #[trigger] self.flats@[i] == s0.flats@[i]);
        assert(forall|i: int|
            0 <= i < s0.nodes@.len() && s0.nodes@[i].parent is Some && s0.stale(
                l,
                t + 1,
                s0.nodes@[i].parent->0.id() as int,
            ) ==> #[trigger] self.nodes@[i].parent == s0.nodes@[i].parent);
        assert(self.nodes@[p].parent == s0.nodes@[p].parent);
        assert(self.flats@[p] == s0.flats@[p].insert(npos, e));
        assert(npos + s0.up_offset(p, (s0.levels - (t + 1)) as nat) == s0.up_offset(l, s0.levels as nat) + index);
        assert(self.elem_placed(e));
        assert(0 <= npos <= s0.flats@[p].len());
    }
}

impl<T: BTreeItem> BTree<T> {
    /// Whether the arenas have room for one more element and the nodes it
    /// may take.
    pub closed spec fn has_room(&self) -> bool {
        &&& self.elements@.len() + 2 < usize::MAX
        &&& self.nodes@.len() + self.levels + 4 < usize::MAX
    }

    /// Whether the arenas are no larger than insertions alone make them: no
    /// more levels than elements, and no more nodes than the square of one
    /// more than the number of elements.
    pub closed spec fn compact(&self) -> bool {
        &&& self.levels <= self.elements@.len()
        &&& self.nodes@.len() <= (self.elements@.len() + 1) * (self.elements@.len() + 1)
    }

    /// What `compact` asks of the arenas.
    pub(crate) proof fn lemma_compact(&self)
        ensures
            self.compact() <==> (self.levels <= self.elements@.len() && self.nodes@.len() <= (
            self.elements@.len() + 1) * (self.elements@.len() + 1)),
    {
    }

    /// A compact tree of fewer than 32768 elements has room for one more, on
    /// a machine whose `usize` has 32 bits or more.
    pub proof fn lemma_compact_has_room(&self)
        requires
            self.wf(),
            self.compact(),
            self.spec_len() < 32768,
        ensures
            self.has_room(),
    {
        reveal(BTree::wf);
        assert(self.view().len() == self.ids().len());
        let n = self.elements@.len();
        assert((n + 1) * (n + 1) <= 32768 * 32768) by (nonlinear_arith)
            requires
                n < 32768,
        ;
    }

    /// What `has_room` asks of the arenas.
    pub(crate) proof fn lemma_has_room(&self)
        ensures
            self.has_room() <==> (self.elements@.len() + 2 < usize::MAX && self.nodes@.len()
                + self.levels + 4 < usize::MAX),
    {
    }

    /// Whether the arenas have room for one more element and the nodes it
    /// may take, so that `insert`, `insert_before`, `insert_after` and `add`
    /// can be called.
    pub fn can_insert(&self) -> (r: bool)
        ensures
            r == self.has_room(),
    {
        let e = self.elements.len();
        let n = self.nodes.len();
        let l = self.levels;
        e < usize::MAX - 2 && l < usize::MAX - 4 && n < usize::MAX - 4 - l
    }

    /// Adds `elem` at slot `index` of leaf `leaf` and accounts for it in
    /// every node above, splitting nodes that are full.
    fn insert_into_leaf(&mut self, leaf: Idx, index: usize, elem: T) -> (r: ElemIdx)
        requires
            old(self).wf(),
            old(self).has_room(),
            leaf.id() < old(self).nodes@.len(),
            old(self).heights@[leaf.id() as int] == 0,
            index <= old(self).flats@[leaf.id() as int].len(),
        ensures
            final(self).wf(),
            final(self).ids() == old(self).ids().insert(
                old(self).up_offset(leaf.id() as int, old(self).levels as nat) + index,
                r.handle(),
            ),
            final(self).elements@ == old(self).elements@.push(elem),
            r.handle().id() == old(self).elements@.len(),
            final(self).levels == old(self).levels || final(self).levels == old(self).levels + 1,
            final(self).levels == old(self).levels + 1 <==> final(self).root != old(self).root,
            final(self).nodes@.len() <= old(self).nodes@.len() + old(self).levels + 2,
    {
        let ghost s0: BTree<T> = *self;
        let ghost l = leaf.id() as int;
        let info = elem.get_info();
        let (e, first_right) = self.start_insert(leaf, index, elem);
        let mut node = leaf;
        let mut right = first_right;
        let mut t: usize = 0;
        let ghost mut pos: int = index as int;
        proof {
            reveal(BTree::pending);
        }
        while t < self.levels
            invariant
                self.pending(s0, l, t as nat, right, e, pos, index as int),
                t <= s0.levels,
                self.levels == s0.levels,
                node.id() == s0.anc(l, t as nat),
                info == self.elements@[e.id() as int].spec_info(),
                self.elements@[e.id() as int] == elem,
                self.nodes@.len() <= s0.nodes@.len() + t + 1,
            decreases s0.levels - t,
        {
            let (p, rr, Ghost(np)) = self.bubble(
                node,
                right,
                info,
                Ghost(s0),
                Ghost(l),
                Ghost(t as nat),
                Ghost(e),
                Ghost(pos),
                Ghost(index as int),
            );
            node = p;
            right = rr;
            proof {
                pos = np;
            }
            t = t + 1;
        }
        proof {
            reveal(BTree::pending);
            s0.lemma_anc(l, s0.levels as nat);
        }
        match right {
            None => {
                proof {
                    self.lemma_finish_plain(s0, l, e, pos, index as int);
                }
            },
            Some(r) => {
                let ghost b: BTree<T> = *self;
                proof {
                    BTree::lemma_root_split_pre(&b, s0, l, r, e, pos, index as int);
                    node.lemma_id_injective(s0.root);
                }
                let kids = Kids::from_pair(node, r);
                let nr = self.new_node(false, kids);
                proof {
                    reveal(BTree::wf);
                    assert(s0.root.id() < s0.nodes@.len());
                    assert(nr.id() != s0.root.id());
                }
                self.root = nr;
                self.levels = self.levels + 1;
                let ghost ro = s0.root.id() as int;
                let ghost ri = r.id() as int;
                self.flats = Ghost(b.flats@.push(b.flats@[ro] + b.flats@[ri]));
                self.heights = Ghost(b.heights@.push((s0.levels + 1) as nat));
                proof {
                    let pair = seq![node, r];
                    assert(kids.ids() == pair);
                    assert forall|i: int| #![trigger names(pair, i)] names(pair, i) <==> (i == ro || i == ri) by {
                        if i == ro {
                            assert(pair[0].id() == i);
                        }
                        if i == ri {
                            assert(pair[1].id() == i);
                        }
                    }
                    self.lemma_finish_root(b, s0, l, r, e, pos, index as int);
                }
            },
        }
        proof {
            assert(self.elements@ =~= s0.elements@.push(elem));
        }
        ElemIdx::from_idx(e)
    }
}

impl<T: BTreeItem> BTree<T> {
    /// Finds the child of inner node `node` in which position `local` of
    /// the node falls, taking the first child it can go at the end of.
    fn pick_child(&self, node: usize, local: usize) -> (r: (usize, usize, Ghost<int>))
        requires
            self.wf(),
            node < self.nodes@.len(),
            self.heights@[node as int] > 0,
            local <= self.flats@[node as int].len(),
        ensures
            ({
                let (c, rest, off) = r;
                let fc = self.flats@[c as int];
                let f = self.flats@[node as int];
                &&& c < self.nodes@.len()
                &&& self.heights@[c as int] == self.heights@[node as int] - 1
                &&& 0 <= off@ && off@ + fc.len() <= f.len()
                &&& f.subrange(off@, off@ + fc.len()) == fc
                &&& rest <= fc.len()
                &&& off@ + rest == local
            }),
    {
        proof {
            reveal(BTree::node_wf);
            reveal(BTree::wf);
            assert(self.node_wf(node as int));
        }
        let ghost fl = self.flats@;
        let ghost f = fl[node as int];
        let ghost ks = self.kid_ids(node as int);
        let kids = self.nodes[node].kids;
        let nk = kids.count();
        let mut j: usize = 0;
        let mut k: usize = local;
        let ghost mut off: int = 0;
        proof {
            assert(ks.take(0) =~= Seq::<Idx>::empty());
            lemma_concat_flats_split(fl, ks, 0);
            assert(ks.skip(0) =~= ks);
        }
        while j < nk
            invariant
                self.wf(),
                kids == self.nodes@[node as int].kids,
                kids.wf(),
                ks == kids.ids(),
                nk == ks.len(),
                node < self.nodes@.len(),
                self.node_wf(node as int),
                self.heights@[node as int] > 0,
                fl == self.flats@,
                f == fl[node as int],
                f == concat_flats(fl, ks),
                j <= nk,
                off == concat_flats(fl, ks.take(j as int)).len(),
                off + k == local,
                k <= concat_flats(fl, ks.skip(j as int)).len(),
                j > 0 ==> k > 0,
            decreases nk - j,
        {
            let c = kids.get(j);
            let ci = c.get();
            proof {
                reveal(BTree::node_wf);
                reveal(BTree::wf);
                assert(ks[j as int] == c);
                assert(self.node_wf(ci as int));
                lemma_concat_flats_offset(fl, ks, j as int);
                lemma_concat_flats_split(fl, ks, j as int);
                lemma_concat_flats_split(fl, ks, j as int + 1);
                lemma_concat_flats_split(fl, ks.skip(j as int), 1);
                assert(ks.skip(j as int).take(1) =~= seq![c]);
                assert(ks.skip(j as int).skip(1) =~= ks.skip(j as int + 1));
                lemma_concat_flats_single(fl, c);
            }
            let count = self.nodes[ci].count;
            if k <= count {
                return (ci, k, Ghost(off));
            }
            k = k - count;
            proof {
                off = off + fl[ci as int].len();
            }
            j += 1;
        }
        proof {
            assert(ks.skip(nk as int) =~= Seq::<Idx>::empty());
            assert(false);
        }
        (0, 0, Ghost(0))
    }

    /// Where the handles below a node start among all handles is the one
    /// place they occur, when there are any.
    proof fn lemma_offset_unique(&self, n: int, o: int)
        requires
            self.wf(),
            0 <= n < self.nodes@.len(),
            self.flats@[n].len() > 0,
            0 <= o,
            o + self.flats@[n].len() <= self.ids().len(),
            self.ids().subrange(o, o + self.flats@[n].len()) == self.flats@[n],
        ensures
            o == self.up_offset(n, (self.levels - self.heights@[n]) as nat),
    {
        reveal(BTree::node_wf);
        reveal(BTree::wf);
        assert(self.node_wf(self.root.id() as int));
        self.lemma_up_offset(n);
        let u = self.up_offset(n, (self.levels - self.heights@[n]) as nat);
        assert(self.ids()[o] == self.flats@[n][0]);
        assert(self.ids()[u] == self.flats@[n][0]);
    }

    /// The elements after a new element is stored and its handle put in at
    /// position `k`.
    proof fn lemma_view_insert(s0: &Self, s1: &Self, k: int, e: Idx, elem: T)
        requires
            s0.wf(),
            0 <= k <= s0.ids().len(),
            s1.ids() == s0.ids().insert(k, e),
            s1.elements@ == s0.elements@.push(elem),
            e.id() == s0.elements@.len(),
        ensures
            s1.view() == s0.view().insert(k, elem),
            !s0.ids().contains(e),
    {
        reveal(BTree::node_wf);
        reveal(BTree::wf);
        assert(s0.node_wf(s0.root.id() as int));
        assert(s1.view() =~= s0.view().insert(k, elem)) by {
            assert forall|i: int| 0 <= i < s1.view().len() implies s1.view()[i] == s0.view().insert(k, elem)[i] by {
                if i < k {
                    assert(s1.ids()[i] == s0.ids()[i]);
                } else if i > k {
                    assert(s1.ids()[i] == s0.ids()[i - 1]);
                }
            }
        }
        if s0.ids().contains(e) {
            let i = choose|i: int| 0 <= i < s0.ids().len() && s0.ids()[i] == e;
            assert(s0.ids()[i].id() < s0.elements@.len());
        }
    }

    /// Inserts `elem` so that it has position `index`, and returns a handle
    /// to it.
    pub fn insert(&mut self, index: usize, elem: T) -> (r: ElemIdx)
        requires
            old(self).wf(),
            old(self).has_room(),
            index <= old(self).spec_len(),
        ensures
            final(self).wf(),
            final(self)@ == old(self)@.insert(index as int, elem),
            final(self).ids() == old(self).ids().insert(index as int, r.handle()),
            !old(self).has_handle(r),
            old(self).compact() ==> final(self).compact(),
            final(self).depth() == old(self).depth() || final(self).depth() == old(self).depth() + 1,
    {
        let ghost s0: BTree<T> = *self;
        let mut node = self.root.get();
        let mut local = index;
        let mut h = self.levels;
        let ghost mut off: int = 0;
        proof {
            reveal(BTree::node_wf);
            reveal(BTree::wf);
            assert(s0.node_wf(s0.root.id() as int));
            assert(s0.ids().subrange(0, s0.ids().len() as int) =~= s0.ids());
            assert(s0.view().len() == s0.ids().len());
        }
        while h > 0
            invariant
                *self == s0,
                self.wf(),
                node < self.nodes@.len(),
                self.heights@[node as int] == h,
                h <= self.levels,
                h == self.levels ==> node == self.root.id() && off == 0,
                local <= self.flats@[node as int].len(),
                0 <= off,
                off + self.flats@[node as int].len() <= self.ids().len(),
                self.ids().subrange(off, off + self.flats@[node as int].len()) == self.flats@[node as int],
                off + local == index,
            decreases h,
        {
            let ghost f = self.flats@[node as int];
            let (c, rest, Ghost(o)) = self.pick_child(node, local);
            proof {
                let fc = self.flats@[c as int];
                assert(self.ids().subrange(off + o, off + o + fc.len()) =~= fc) by {
                    assert forall|i: int| 0 <= i < fc.len() implies self.ids().subrange(off + o, off + o + fc.len())[i] == fc[i] by {
                        assert(self.ids()[off + o + i] == f[o + i]);
                        assert(f.subrange(o, o + fc.len())[i] == f[o + i]);
                    }
                }
                off = off + o;
            }
            node = c;
            local = rest;
            h = h - 1;
        }
        proof {
            reveal(BTree::node_wf);
            reveal(BTree::wf);
            let n = node as int;
            assert(self.node_wf(n));
            if self.flats@[n].len() > 0 {
                self.lemma_offset_unique(n, off);
            } else {
                assert(self.levels == 0);
            }
        }
        let r = self.insert_into_leaf(Idx::new(node), local, elem);
        proof {
            BTree::lemma_view_insert(&s0, self, index as int, r.handle(), elem);
            s0.lemma_depth();
            self.lemma_depth();
            if s0.compact() {
                lemma_compact_step(
                    s0.elements@.len(),
                    s0.levels as nat,
                    s0.nodes@.len(),
                    self.levels as nat,
                    self.nodes@.len(),
                );
            }
        }
        r
    }

    /// Inserts `elem` just before the element that `at` names, and returns a
    /// handle to it.
    pub fn insert_before(&mut self, at: ElemIdx, elem: T) -> (r: ElemIdx)
        requires
            old(self).wf(),
            old(self).has_room(),
            old(self).has_handle(at),
        ensures
            final(self).wf(),
            final(self)@ == old(self)@.insert(old(self).position_of(at), elem),
            final(self).ids() == old(self).ids().insert(old(self).position_of(at), r.handle()),
            !old(self).has_handle(r),
            old(self).compact() ==> final(self).compact(),
            final(self).depth() == old(self).depth() || final(self).depth() == old(self).depth() + 1,
    {
        let ghost s0: BTree<T> = *self;
        let (leaf, slot) = self.slot_of(at);
        let r = self.insert_into_leaf(leaf, slot, elem);
        proof {
            BTree::lemma_view_insert(&s0, self, s0.position_of(at), r.handle(), elem);
            s0.lemma_depth();
            self.lemma_depth();
            if s0.compact() {
                lemma_compact_step(
                    s0.elements@.len(),
                    s0.levels as nat,
                    s0.nodes@.len(),
                    self.levels as nat,
                    self.nodes@.len(),
                );
            }
        }
        r
    }

    /// Inserts `elem` just after the element that `at` names, and returns a
    /// handle to it.
    pub fn insert_after(&mut self, at: ElemIdx, elem: T) -> (r: ElemIdx)
        requires
            old(self).wf(),
            old(self).has_room(),
            old(self).has_handle(at),
        ensures
            final(self).wf(),
            final(self)@ == old(self)@.insert(old(self).position_of(at) + 1, elem),
            final(self).ids() == old(self).ids().insert(old(self).position_of(at) + 1, r.handle()),
            !old(self).has_handle(r),
            old(self).compact() ==> final(self).compact(),
            final(self).depth() == old(self).depth() || final(self).depth() == old(self).depth() + 1,
    {
        let ghost s0: BTree<T> = *self;
        let (leaf, slot) = self.slot_of(at);
        let r = self.insert_into_leaf(leaf, slot + 1, elem);
        proof {
            BTree::lemma_view_insert(&s0, self, s0.position_of(at) + 1, r.handle(), elem);
            s0.lemma_depth();
            self.lemma_depth();
            if s0.compact() {
                lemma_compact_step(
                    s0.elements@.len(),
                    s0.levels as nat,
                    s0.nodes@.len(),
                    self.levels as nat,
                    self.nodes@.len(),
                );
            }
        }
        r
    }

    /// The leaf that holds the element `at` names, and its slot there.
    fn slot_of(&self, at: ElemIdx) -> (r: (Idx, usize))
        requires
            self.wf(),
            self.has_handle(at),
        ensures
            r.0.id() < self.nodes@.len(),
            self.heights@[r.0.id() as int] == 0,
            r.1 < self.flats@[r.0.id() as int].len(),
            self.flats@[r.0.id() as int].len() < usize::MAX,
            self.up_offset(r.0.id() as int, self.levels as nat) + r.1 == self.position_of(at),
            0 <= self.position_of(at) < self.ids().len(),
            self.ids()[self.position_of(at)] == at.handle(),
    {
        let h = at.idx();
        let ghost p = self.position_of(at);
        proof {
            reveal(BTree::node_wf);
            reveal(BTree::wf);
            assert(self.node_wf(self.root.id() as int));
            assert(self.ids()[p] == h);
            self.lemma_leaf_of(h, p);
        }
        let leaf = self.element_info[h.get()].parent;
        let slot = match self.nodes[leaf.get()].kids.position(h) {
            Some(q) => q,
            None => {
                proof {
                    assert(false);
                }
                0
            },
        };
        proof {
            let l = leaf.id() as int;
            self.lemma_up_offset(l);
            let o = self.up_offset(l, self.levels as nat);
            assert(self.ids()[o + slot] == self.flats@[l][slot as int]);
            assert(self.ids()[o + slot] == h);
        }
        (leaf, slot)
    }
}

/// One insertion keeps a tree compact: it adds one element, at most one
/// level, and at most one node per level and two more.
proof fn lemma_compact_step(n: nat, levels: nat, nodes: nat, levels2: nat, nodes2: nat)
    requires
        levels <= n,
        nodes <= (n + 1) * (n + 1),
        levels2 <= levels + 1,
        nodes2 <= nodes + levels + 2,
    ensures
        levels2 <= n + 1,
        nodes2 <= (n + 2) * (n + 2),
{
    assert((n + 1) * (n + 1) + n + 2 <= (n + 2) * (n + 2)) by (nonlinear_arith);
}

} // verus!

