//! Changing an element in place, and bringing the summaries above it up to
//! date.
use super::{concat_flats, lemma_concat_flats_offset, sum_counts, sum_node_infos, BTree};
use super::query::BTreeIdx;
use crate::idx::Idx;
use crate::info::{sum_infos, BTreeInfo, BTreeItem};
use vstd::prelude::*;

verus! {

impl<T: BTreeItem> BTree<T> {
    /// The leaf `lf` holds `x`, and so does every ancestor of it.
    pub(crate) proof fn lemma_chain_holds(&self, lf: int, x: Idx, d: nat)
        requires
            self.wf(),
            0 <= lf < self.nodes@.len(),
            self.heights@[lf] == 0,
            self.kid_ids(lf).contains(x),
            d <= self.levels,
        ensures
            self.flats@[self.anc(lf, d)].contains(x),
        decreases d,
    {
        reveal(BTree::wf);
        reveal(BTree::node_wf);
        if d == 0 {
            assert(self.node_wf(lf));
        } else {
            self.lemma_chain_holds(lf, x, (d - 1) as nat);
            self.lemma_anc(lf, (d - 1) as nat);
            self.lemma_anc(lf, d);
            let c = self.anc(lf, (d - 1) as nat);
            let p = self.anc(lf, d);
            assert(self.node_wf(c));
            assert(self.node_wf(p));
            let y = choose|y: Idx| y.id() == c && #[trigger] self.kid_ids(p).contains(y);
            let ks = self.kid_ids(p);
            let j = choose|j: int| 0 <= j < ks.len() && ks[j] == y;
            lemma_concat_flats_offset(self.flats@, ks, j);
            let off = concat_flats(self.flats@, ks.take(j)).len();
            let q = choose|q: int| 0 <= q < self.flats@[c].len() && self.flats@[c][q] == x;
            assert(self.flats@[p][off + q] == self.flats@[c][q]);
        }
    }

    /// A node whose handles include `x`, held by the leaf `lf`, is an
    /// ancestor of that leaf.
    pub(crate) proof fn lemma_holder_on_chain(&self, lf: int, x: Idx, i: int)
        requires
            self.wf(),
            0 <= lf < self.nodes@.len(),
            self.heights@[lf] == 0,
            self.kid_ids(lf).contains(x),
            0 <= i < self.nodes@.len(),
            self.flats@[i].contains(x),
        ensures
            i == self.anc(lf, self.heights@[i]),
            self.heights@[i] <= self.levels,
    {
        reveal(BTree::wf);
        reveal(BTree::node_wf);
        assert(self.node_wf(i));
        let h = self.heights@[i];
        self.lemma_anc(lf, h);
        self.lemma_chain_holds(lf, x, h);
        let a = self.anc(lf, h);
        if a != i {
            assert(self.flats@[a].disjoint(self.flats@[i]));
        }
    }

    /// `self` is `s0` with element `x` of leaf `lf` changed, and with the
    /// counts and summaries brought up to date below height `d` of the leaf's
    /// ancestors.
    pub(crate) open spec fn fixing(&self, s0: BTree<T>, lf: int, x: Idx, d: nat) -> bool {
        &&& s0.wf()
        &&& 0 <= lf < s0.nodes@.len()
        &&& s0.heights@[lf] == 0
        &&& s0.kid_ids(lf).contains(x)
        &&& x.id() < s0.elements@.len()
        &&& d <= s0.levels + 1
        &&& self.elements@.len() == s0.elements@.len()
        &&& forall|k: int| 0 <= k < s0.elements@.len() && k != x.id() ==> #[trigger] self.elements@[k] == s0.elements@[k]
        &&& self.element_info@ == s0.element_info@
        &&& self.flats == s0.flats
        &&& self.heights == s0.heights
        &&& self.levels == s0.levels
        &&& self.root == s0.root
        &&& self.first_free == s0.first_free
        &&& self.nodes@.len() == s0.nodes@.len()
        &&& forall|i: int|
            0 <= i < s0.nodes@.len() ==> {
                let a = #[trigger] self.nodes@[i];
                let b = s0.nodes@[i];
                &&& a.kids == b.kids
                &&& a.count == b.count
                &&& a.parent == b.parent
                &&& a.is_leaf == b.is_leaf
            }
        &&& forall|i: int|
            0 <= i < s0.nodes@.len() && !(s0.on_chain(lf, i) && s0.heights@[i] >= d) ==> #[trigger] self.node_core(i)
        &&& forall|i: int|
            0 <= i < s0.nodes@.len() && !(s0.on_chain(lf, i) && s0.heights@[i] < d) ==> #[trigger] self.nodes@[i]
                == s0.nodes@[i]
    }

    /// Changing one element leaves every node that does not hold it as it
    /// was.
    #[verifier::rlimit(40)]
    pub(crate) proof fn lemma_fixing_start(&self, s0: BTree<T>, lf: int, x: Idx)
        requires
            s0.wf(),
            0 <= lf < s0.nodes@.len(),
            s0.heights@[lf] == 0,
            s0.kid_ids(lf).contains(x),
            x.id() < s0.elements@.len(),
            self.elements@.len() == s0.elements@.len(),
            forall|k: int| 0 <= k < s0.elements@.len() && k != x.id() ==> #[trigger] self.elements@[k] == s0.elements@[k],
            self.element_info@ == s0.element_info@,
            self.flats == s0.flats,
            self.heights == s0.heights,
            self.levels == s0.levels,
            self.root == s0.root,
            self.first_free == s0.first_free,
            self.nodes == s0.nodes,
        ensures
            self.fixing(s0, lf, x, 0),
    {
        reveal(BTree::wf);
        reveal(BTree::node_wf);
        assert forall|i: int| 0 <= i < s0.nodes@.len() && !(s0.on_chain(lf, i) && s0.heights@[i] >= 0) implies #[trigger] self.node_core(i) by {
            assert(s0.node_wf(i));
            let f = s0.flats@[i];
            if f.contains(x) {
                s0.lemma_holder_on_chain(lf, x, i);
            }
            assert forall|q: int| 0 <= q < f.len() implies #[trigger] self.elements@[f[q].id() as int] == s0.elements@[f[q].id() as int] by {
                if f[q].id() == x.id() {
                    f[q].lemma_id_injective(x);
                }
            }
            assert(self.elem_infos(f) =~= s0.elem_infos(f));
        }
    }

    /// Once the summaries are up to date at every ancestor, the tree is well
    /// formed again, with the same handles.
    pub(crate) proof fn lemma_fixing_done(&self, s0: BTree<T>, lf: int, x: Idx)
        requires
            self.fixing(s0, lf, x, (s0.levels + 1) as nat),
        ensures
            self.wf(),
            self.ids() == s0.ids(),
    {
        reveal(BTree::wf);
        reveal(BTree::node_wf);
        assert forall|n: int| 0 <= n < self.nodes@.len() implies #[trigger] self.node_wf(n) by {
            assert(s0.node_wf(n));
            assert(self.node_core(n));
            BTree::lemma_up_frame(&s0, self, n);
        }
    }

    /// What bringing the ancestor `d` levels up to date needs.
    pub(crate) proof fn lemma_fixing_pre(&self, s0: BTree<T>, lf: int, x: Idx, d: nat, c: Idx)
        requires
            self.fixing(s0, lf, x, d),
            d <= s0.levels,
            c.id() == s0.anc(lf, d),
        ensures
            c.id() < self.nodes@.len(),
            self.nodes@[c.id() as int].kids.wf(),
            self.elements@.len() == self.element_info@.len(),
            self.nodes@[c.id() as int].is_leaf == (d == 0),
            d == 0 ==> forall|j: int|
                0 <= j < self.kid_ids(c.id() as int).len() ==> {
                    let k = #[trigger] self.kid_ids(c.id() as int)[j];
                    &&& k.id() < self.elements@.len()
                    &&& self.element_info@[k.id() as int].parent == c
                },
            d > 0 ==> forall|j: int|
                0 <= j < self.kid_ids(c.id() as int).len() ==> {
                    let k = #[trigger] self.kid_ids(c.id() as int)[j];
                    &&& k.id() < self.nodes@.len()
                    &&& self.nodes@[k.id() as int].parent == Some(c)
                },
            d > 0 ==> sum_counts(self.nodes@, self.kid_ids(c.id() as int)) < usize::MAX,
            d < s0.levels ==> (self.nodes@[c.id() as int].parent matches Some(p) && p.id()
                == s0.anc(lf, d + 1)),
    {
        reveal(BTree::wf);
        reveal(BTree::node_wf);
        s0.lemma_anc(lf, d);
        let ci = c.id() as int;
        assert(s0.node_wf(ci));
        s0.lemma_flat_len(ci);
        let ks = s0.kid_ids(ci);
        assert(self.nodes@[ci].kids == s0.nodes@[ci].kids);
        if d == 0 {
            assert forall|j: int| 0 <= j < ks.len() implies (#[trigger] self.element_info@[ks[j].id() as int]).parent == c by {
                self.element_info@[ks[j].id() as int].parent.lemma_id_injective(c);
            }
        } else {
            assert forall|j: int| 0 <= j < ks.len() implies {
                let k = #[trigger] ks[j];
                &&& k.id() < self.nodes@.len()
                &&& self.nodes@[k.id() as int].parent == Some(c)
            } by {
                let k = ks[j].id() as int;
                assert(self.nodes@[k].parent == s0.nodes@[k].parent);
                s0.nodes@[k].parent->0.lemma_id_injective(c);
            }
            assert forall|j: int| 0 <= j < ks.len() implies {
                let k = (#[trigger] ks[j]).id() as int;
                &&& 0 <= k < self.nodes@.len()
                &&& self.nodes@[k].count == self.flats@[k].len()
                &&& self.nodes@[k].info == sum_infos(self.elem_infos(self.flats@[k]))
            } by {
                let k = ks[j].id() as int;
                assert(s0.heights@[k] == d - 1);
                if s0.on_chain(lf, k) {
                    s0.lemma_anc(lf, (d - 1) as nat);
                    assert(k == s0.anc(lf, (d - 1) as nat));
                }
                assert(self.node_core(k));
            }
            self.lemma_sum_counts_concat(ks);
        }
    }

    /// Bringing the ancestor `d` levels up to date extends what is up to
    /// date by one level.
    #[verifier::rlimit(60)]
    pub(crate) proof fn lemma_fixing_step(&self, before: BTree<T>, s0: BTree<T>, lf: int, x: Idx, d: nat, c: Idx)
        requires
            before.fixing(s0, lf, x, d),
            d <= s0.levels,
            c.id() == s0.anc(lf, d),
            ({
                let ci = c.id() as int;
                let o = before.nodes@[ci];
                let n = self.nodes@[ci];
                let ks = o.kids.ids();
                &&& self.nodes@ == before.nodes@.update(ci, n)
                &&& n.kids == o.kids
                &&& n.is_leaf == o.is_leaf
                &&& n.parent == o.parent
                &&& d == 0 ==> n.count == ks.len() && n.info == sum_infos(before.elem_infos(ks))
                &&& d > 0 ==> n.count == sum_counts(before.nodes@, ks) && n.info == sum_node_infos(
                    before.nodes@,
                    ks,
                )
            }),
            self.elements@ == before.elements@,
            self.element_info@ == before.element_info@,
            self.flats == before.flats,
            self.heights == before.heights,
            self.levels == before.levels,
            self.root == before.root,
            self.first_free == before.first_free,
        ensures
            self.fixing(s0, lf, x, d + 1),
    {
        reveal(BTree::wf);
        reveal(BTree::node_wf);
        before.lemma_fixing_pre(s0, lf, x, d, c);
        s0.lemma_anc(lf, d);
        let ci = c.id() as int;
        assert(s0.node_wf(ci));
        let ks = s0.kid_ids(ci);
        if d > 0 {
            assert forall|j: int| 0 <= j < ks.len() implies {
                let k = (#[trigger] ks[j]).id() as int;
                &&& 0 <= k < before.nodes@.len()
                &&& before.nodes@[k].count == before.flats@[k].len()
                &&& before.nodes@[k].info == sum_infos(before.elem_infos(before.flats@[k]))
            } by {
                let k = ks[j].id() as int;
                assert(s0.heights@[k] == d - 1);
                if s0.on_chain(lf, k) {
                    s0.lemma_anc(lf, (d - 1) as nat);
                    assert(k == s0.anc(lf, (d - 1) as nat));
                }
                assert(before.node_core(k));
            }
            before.lemma_sum_counts_concat(ks);
        }
        assert(before.nodes@[ci].count == s0.nodes@[ci].count);
        assert(self.node_core(ci));
        assert forall|i: int| 0 <= i < s0.nodes@.len() && !(s0.on_chain(lf, i) && s0.heights@[i] >= d + 1) implies #[trigger] self.node_core(i) by {
            if i != ci {
                assert(s0.node_wf(i));
                if s0.on_chain(lf, i) && s0.heights@[i] == d {
                    s0.lemma_anc(lf, d);
                }
                assert(before.node_core(i));
                BTree::lemma_core_frame(&before, self, i);
            }
        }
        assert forall|i: int| 0 <= i < s0.nodes@.len() && !(s0.on_chain(lf, i) && s0.heights@[i] < d + 1) implies #[trigger] self.nodes@[i]
            == s0.nodes@[i] by {
            assert(i != ci);
            assert(before.nodes@[i] == s0.nodes@[i]);
        }
    }
}

impl<T: BTreeItem> BTree<T> {
    /// Replaces the element that `index` names with what `f` makes of it,
    /// brings the counts and summaries above it up to date, and returns what
    /// else `f` gives back; `None` when `index` names no element.
    pub fn get_mut<I: BTreeIdx<T>, E, F: Fn(&T) -> (T, E)>(&mut self, index: I, f: F) -> (r: Option<E>)
        requires
            old(self).wf(),
            index.spec_usable(old(self)),
            index.spec_position(old(self)) matches Some(p) ==> f.requires((&old(self)@[p],)),
        ensures
            final(self).wf(),
            final(self).ids() == old(self).ids(),
            match index.spec_position(old(self)) {
                None => r is None && final(self)@ == old(self)@,
                Some(p) => {
                    &&& r is Some
                    &&& f.ensures((&old(self)@[p],), (final(self)@[p], r->0))
                    &&& final(self)@ == old(self)@.update(p, final(self)@[p])
                },
            },
    {
        let idx = match index.get(self) {
            Some(i) => i,
            None => {
                return None;
            },
        };
        let ghost s0: BTree<T> = *self;
        let ghost p = index.spec_position(&s0)->0;
        let ghost x = idx;
        proof {
            s0.lemma_leaf_of(idx, p);
            s0.lemma_view_len();
        }
        let ghost lf = s0.element_info@[idx.id() as int].parent.id() as int;
        proof {
            assert(self.elements@[idx.id() as int] == s0@[p]);
        }
        let (new_elem, result) = f(&self.elements[idx.get()]);
        let ghost made = new_elem;
        let ghost res = result;
        proof {
            assert(f.ensures((&s0@[p],), (made, res)));
        }
        self.elements.set(idx.get(), new_elem);
        proof {
            self.lemma_fixing_start(s0, lf, x);
        }
        let mut node = self.element_info[idx.get()].parent;
        let ghost b0: BTree<T> = *self;
        proof {
            self.lemma_fixing_pre(s0, lf, x, 0, node);
        }
        self.update_node(true, node);
        proof {
            self.lemma_fixing_step(b0, s0, lf, x, 0, node);
        }
        let mut d: usize = 0;
        while d < self.levels
            invariant
                self.fixing(s0, lf, x, (d + 1) as nat),
                node.id() == s0.anc(lf, d as nat),
                d <= s0.levels,
                self.levels == s0.levels,
                self.elements@[x.id() as int] == made,
            decreases s0.levels - d,
        {
            proof {
                reveal(BTree::wf);
                s0.lemma_anc(lf, d as nat);
                assert(self.nodes@[node.id() as int].parent == s0.nodes@[node.id() as int].parent);
            }
            node = match self.nodes[node.get()].parent {
                Some(p) => p,
                None => {
                    proof {
                        assert(false);
                    }
                    node
                },
            };
            proof {
                self.lemma_fixing_pre(s0, lf, x, (d + 1) as nat, node);
            }
            let ghost b: BTree<T> = *self;
            self.update_node(false, node);
            proof {
                self.lemma_fixing_step(b, s0, lf, x, (d + 1) as nat, node);
            }
            d += 1;
        }
        proof {
            self.lemma_fixing_done(s0, lf, x);
            self.lemma_view_len();
            assert(self@[p] == made);
            reveal(BTree::wf);
            reveal(BTree::node_wf);
            assert(s0.node_wf(s0.root.id() as int));
            let ids = s0.ids();
            assert(self@ =~= s0@.update(p, self@[p])) by {
                assert forall|q: int| 0 <= q < ids.len() implies #[trigger] self@[q] == s0@.update(p, self@[p])[q] by {
                    if q != p {
                        assert(ids[q] != ids[p]);
                        if ids[q].id() == x.id() {
                            ids[q].lemma_id_injective(x);
                        }
                    }
                }
            }
        }
        Some(result)
    }
}

} // verus!
