//! Proofs about linking a node split off a child into its parent.
use super::{
    concat_flats, lemma_concat_flats_frame, lemma_concat_flats_insert, lemma_concat_flats_split,
    names, sum_counts, sum_node_infos, BTree,
};
use crate::info::sum_infos;
use crate::kids::{B, SPLIT_POINT};
use crate::idx::Idx;
use crate::info::{BTreeInfo, BTreeItem};
use vstd::prelude::*;

verus! {

impl<T: BTreeItem> BTree<T> {
    /// Once the node `r` split off the ancestor `t` levels up is given that
    /// ancestor's parent as its own, the parent's children with `r` put in
    /// right after that ancestor hold, in order, the parent's old handles
    /// with the new one added.
    #[verifier::rlimit(80)]
    #[verifier::spinoff_prover]
    pub(crate) proof fn lemma_join_facts(
        c: &BTree<T>,
        b: BTree<T>,
        s0: BTree<T>,
        l: int,
        t: nat,
        r: Idx,
        e: Idx,
        pos: int,
        index: int,
        pi: Idx,
    )
        requires
            b.pending(s0, l, t, Some(r), e, pos, index),
            t < s0.levels,
            pi.id() == s0.anc(l, t + 1),
            c.nodes@.len() == b.nodes@.len(),
            forall|i: int|
                0 <= i < b.nodes@.len() && i != r.id() ==> #[trigger] c.nodes@[i] == b.nodes@[i],
            c.nodes@[r.id() as int].parent == Some(pi),
            c.nodes@[r.id() as int].kids == b.nodes@[r.id() as int].kids,
            c.nodes@[r.id() as int].count == b.nodes@[r.id() as int].count,
            c.nodes@[r.id() as int].info == b.nodes@[r.id() as int].info,
            c.nodes@[r.id() as int].is_leaf == b.nodes@[r.id() as int].is_leaf,
            c.flats == b.flats,
            c.heights == b.heights,
            c.elements == b.elements,
            c.element_info == b.element_info,
            c.levels == b.levels,
            c.root == b.root,
            c.first_free == b.first_free,
        ensures
            ({
                let p = pi.id() as int;
                let node = s0.anc(l, t);
                let ks = s0.kid_ids(p);
                let j = s0.kid_slot(p, node);
                let full = ks.insert(j + 1, r);
                let npos = concat_flats(s0.flats@, ks.take(j)).len() + pos;
                &&& 0 <= p < s0.nodes@.len()
                &&& 0 <= j < ks.len()
                &&& ks[j].id() == node
                &&& c.kid_ids(p) == ks
                &&& c.nodes@[p] == s0.nodes@[p]
                &&& c.flats@[p] == s0.flats@[p]
                &&& s0.heights@[p] == t + 1
                &&& full.no_duplicates()
                &&& concat_flats(c.flats@, full) == s0.flats@[p].insert(npos, e)
                &&& 0 <= npos <= s0.flats@[p].len()
                &&& npos + s0.up_offset(p, (s0.levels - (t + 1)) as nat) == s0.up_offset(
                    l,
                    s0.levels as nat,
                ) + index
                &&& forall|q: int|
                    #![trigger full[q]]
                    0 <= q < full.len() ==> {
                        let k = full[q].id() as int;
                        &&& 0 <= k < c.nodes@.len()
                        &&& k != p
                        &&& c.heights@[k] == t
                        &&& c.nodes@[k].parent == Some(pi)
                        &&& c.node_core(k)
                        &&& c.flats@[k].len() > 0
                    }
                &&& s0.flats@[p].len() < c.elements@.len()
                &&& c.elements@.len() < usize::MAX
            }),
    {
        reveal(BTree::pending);
        reveal(BTree::wf);
        reveal(BTree::node_wf);
        BTree::lemma_chain(&s0, l, t);
        let p = pi.id() as int;
        let node = s0.anc(l, t);
        let ks = s0.kid_ids(p);
        let j = s0.kid_slot(p, node);
        let full = ks.insert(j + 1, r);
        let ri = r.id() as int;
        let off = concat_flats(s0.flats@, ks.take(j)).len() as int;
        let npos = off + pos;
        assert(s0.stale(l, t, p));
        assert(b.nodes@[p] == s0.nodes@[p]);
        assert(ri != p);
        assert(s0.node_wf(p));
        s0.lemma_flat_len(p);
        // the handles below the new children
        let fb = b.flats@;
        assert(fb[node] + fb[ri] == s0.flats@[node].insert(pos, e));
        assert forall|q: int| 0 <= q < ks.len() && q != j implies #[trigger] fb[ks[q].id() as int]
            == s0.flats@[ks[q].id() as int] by {
            let k = ks[q].id() as int;
            assert(s0.node_wf(k));
            assert(!s0.on_chain(l, k));
        }
        lemma_concat_flats_insert(fb, ks, j + 1, r);
        lemma_concat_flats_split(fb, ks.take(j + 1), j);
        assert(ks.take(j + 1).take(j) =~= ks.take(j));
        assert(ks.take(j + 1).skip(j) =~= seq![ks[j]]);
        crate::btree::lemma_concat_flats_single(fb, ks[j]);
        assert forall|q: int| 0 <= q < ks.take(j).len() implies #[trigger] fb[ks.take(j)[q].id() as int]
            == s0.flats@[ks.take(j)[q].id() as int] by {
            assert(ks.take(j)[q] == ks[q]);
        }
        assert forall|q: int| 0 <= q < ks.skip(j + 1).len() implies #[trigger] fb[ks.skip(j + 1)[q].id() as int]
            == s0.flats@[ks.skip(j + 1)[q].id() as int] by {
            assert(ks.skip(j + 1)[q] == ks[q + j + 1]);
        }
        lemma_concat_flats_frame(fb, s0.flats@, ks.take(j));
        lemma_concat_flats_frame(fb, s0.flats@, ks.skip(j + 1));
        let pre = concat_flats(s0.flats@, ks.take(j));
        let post = concat_flats(s0.flats@, ks.skip(j + 1));
        assert(concat_flats(fb, full) == pre + (fb[node] + fb[ri]) + post);
        assert(concat_flats(fb, full) =~= s0.flats@[p].insert(npos, e));
        // the new children
        assert forall|q: int| 0 <= q < ks.len() implies (#[trigger] ks[q]).id() != ri by {}
        assert(full.no_duplicates()) by {
            assert forall|x: int, y: int| 0 <= x < full.len() && 0 <= y < full.len() && x != y implies full[x] != full[y] by {
                if full[x] == full[y] {
                    if x == j + 1 || y == j + 1 {
                        let o = if x == j + 1 { y } else { x };
                        let oo = if o < j + 1 { o } else { o - 1 };
                        assert(full[o] == ks[oo]);
                    } else {
                        let xx = if x < j + 1 { x } else { x - 1 };
                        let yy = if y < j + 1 { y } else { y - 1 };
                        assert(full[x] == ks[xx]);
                        assert(full[y] == ks[yy]);
                    }
                }
            }
        }
        assert forall|q: int| #![trigger full[q]] 0 <= q < full.len() implies {
            let k = full[q].id() as int;
            &&& 0 <= k < c.nodes@.len()
            &&& k != p
            &&& c.heights@[k] == t
            &&& c.nodes@[k].parent == Some(pi)
            &&& c.node_core(k)
            &&& c.flats@[k].len() > 0
        } by {
            let k = full[q].id() as int;
            if q == j + 1 {
                assert(k == ri);
                assert(!s0.stale(l, t, ri));
                assert(b.node_core(ri));
            } else {
                let qq = if q < j + 1 { q } else { q - 1 };
                assert(full[q] == ks[qq]);
                assert(s0.nodes@[k].parent matches Some(pp) && pp.id() == p);
                assert(s0.node_wf(k));
                assert(s0.heights@[k] == t);
                assert(!s0.stale(l, t, k));
                assert(b.node_core(k));
                assert(b.nodes@[k].parent == s0.nodes@[k].parent);
                s0.nodes@[k].parent->0.lemma_id_injective(pi);
                if k == node {
                    assert(b.flats@[node].len() > 0);
                } else {
                    assert(!s0.on_chain(l, k));
                }
            }
            assert(b.node_core(k));
            if t > 0 {
                assert forall|jj: int| 0 <= jj < b.kid_ids(k).len() implies (#[trigger] b.kid_ids(k)[jj]).id() != ri by {
                    let kk = b.kid_ids(k)[jj].id() as int;
                    assert(b.heights@[kk] == t - 1);
                }
            }
            BTree::lemma_core_frame(&b, c, k);
        }
    }

    /// After the split-off node `r` is linked into the parent `pi` of the
    /// ancestor `t` levels up, and the parent had room for it, the insertion
    /// is accounted for one level higher.
    #[verifier::rlimit(100)]
    #[verifier::spinoff_prover]
    pub(crate) proof fn lemma_bubble_join(
        &self,
        c: BTree<T>,
        b: BTree<T>,
        s0: BTree<T>,
        l: int,
        t: nat,
        r: Idx,
        e: Idx,
        pos: int,
        index: int,
        pi: Idx,
    )
        requires
            b.pending(s0, l, t, Some(r), e, pos, index),
            t < s0.levels,
            pi.id() == s0.anc(l, t + 1),
            c.nodes@.len() == b.nodes@.len(),
            forall|i: int|
                0 <= i < b.nodes@.len() && i != r.id() ==> #[trigger] c.nodes@[i] == b.nodes@[i],
            c.nodes@[r.id() as int].parent == Some(pi),
            c.nodes@[r.id() as int].kids == b.nodes@[r.id() as int].kids,
            c.nodes@[r.id() as int].count == b.nodes@[r.id() as int].count,
            c.nodes@[r.id() as int].info == b.nodes@[r.id() as int].info,
            c.nodes@[r.id() as int].is_leaf == b.nodes@[r.id() as int].is_leaf,
            c.flats == b.flats,
            c.heights == b.heights,
            c.elements == b.elements,
            c.element_info == b.element_info,
            c.levels == b.levels,
            c.root == b.root,
            c.first_free == b.first_free,
            ({
                let p = pi.id() as int;
                let ks = s0.kid_ids(p);
                let j = s0.kid_slot(p, s0.anc(l, t));
                let npos = concat_flats(s0.flats@, ks.take(j)).len() + pos;
                &&& self.nodes@.len() == c.nodes@.len()
                &&& forall|i: int| 0 <= i < c.nodes@.len() && i != p ==> #[trigger] self.nodes@[i] == c.nodes@[i]
                &&& self.nodes@[p].kids.wf()
                &&& self.kid_ids(p) == ks.insert(j + 1, r)
                &&& self.nodes@[p].parent == c.nodes@[p].parent
                &&& self.nodes@[p].is_leaf == c.nodes@[p].is_leaf
                &&& self.nodes@[p].count == c.nodes@[p].count + 1
                &&& self.nodes@[p].info == c.nodes@[p].info.spec_add(c.elements@[e.id() as int].spec_info())
                &&& self.flats@ == c.flats@.update(p, s0.flats@[p].insert(npos, e))
            }),
            self.heights == c.heights,
            self.elements@ == c.elements@,
            self.element_info@ == c.element_info@,
            self.levels == c.levels,
            self.root == c.root,
            self.first_free == c.first_free,
        ensures
            self.pending(
                s0,
                l,
                t + 1,
                None,
                e,
                concat_flats(s0.flats@, s0.kid_ids(pi.id() as int).take(s0.kid_slot(pi.id() as int, s0.anc(l, t)))).len() + pos,
                index,
            ),
    {
        BTree::lemma_join_facts(&c, b, s0, l, t, r, e, pos, index, pi);
        reveal(BTree::pending);
        reveal(BTree::wf);
        reveal(BTree::node_wf);
        BTree::lemma_chain(&s0, l, t);
        let p = pi.id() as int;
        let node = s0.anc(l, t);
        let ks = s0.kid_ids(p);
        let j = s0.kid_slot(p, node);
        let full = ks.insert(j + 1, r);
        let ri = r.id() as int;
        let npos = concat_flats(s0.flats@, ks.take(j)).len() + pos;
        let nf = s0.flats@[p].insert(npos, e);
        assert(s0.node_wf(p));
        // the parent
        assert forall|q: int| 0 <= q < full.len() implies #[trigger] self.flats@[full[q].id() as int]
            == c.flats@[full[q].id() as int] by {
            assert(full[q].id() != p);
        }
        lemma_concat_flats_frame(self.flats@, c.flats@, full);
        assert(self.elem_infos(nf) =~= s0.elem_infos(s0.flats@[p]).insert(
            npos,
            self.elements@[e.id() as int].spec_info(),
        ));
        crate::info::lemma_sum_infos_insert(
            s0.elem_infos(s0.flats@[p]),
            npos,
            self.elements@[e.id() as int].spec_info(),
        );
        assert(nf.no_duplicates()) by {
            assert forall|x: int, y: int| 0 <= x < nf.len() && 0 <= y < nf.len() && x != y implies nf[x] != nf[y] by {
                if nf[x] == nf[y] {
                    if x == npos || y == npos {
                        let o = if x == npos { y } else { x };
                        let oo = if o < npos { o } else { o - 1 };
                        assert(s0.flats@[p][oo].id() < s0.elements@.len());
                    }
                }
            }
        }
        assert forall|x: int| 0 <= x < nf.len() implies (#[trigger] nf[x]).id() < self.elements@.len() by {
            if x != npos {
                let oo = if x < npos { x } else { x - 1 };
                assert(nf[x] == s0.flats@[p][oo]);
            }
        }
        assert forall|q: int| #![trigger full[q]] 0 <= q < full.len() implies {
            &&& full[q].id() < self.nodes@.len()
            &&& self.heights@[full[q].id() as int] == t
            &&& self.nodes@[full[q].id() as int].parent matches Some(pp) && pp.id() == p
        } by {
            assert(full[q].id() != p);
        }
        assert(self.kid_ids(p) == full);
        assert(self.node_core(p));
        // every other node's own invariant
        assert forall|i: int| 0 <= i < self.nodes@.len() && !s0.stale(l, t + 1, i) implies #[trigger] self.node_core(i) by {
            if i == ri {
                assert(full[j + 1] == r);
                assert(c.node_core(ri));
                if t > 0 {
                    assert forall|q: int| 0 <= q < c.kid_ids(ri).len() implies (#[trigger] c.kid_ids(ri)[q]).id() != p by {
                        let kk = c.kid_ids(ri)[q].id() as int;
                        assert(c.heights@[kk] == t - 1);
                    }
                }
                BTree::lemma_core_frame(&c, self, ri);
            } else if i != p {
                assert(!s0.stale(l, t, i));
                assert(b.node_core(i));
                if b.heights@[i] > 0 {
                    assert forall|q: int| 0 <= q < b.kid_ids(i).len() implies {
                        let k = (#[trigger] b.kid_ids(i)[q]).id() as int;
                        k != p && k != ri
                    } by {
                        let k = b.kid_ids(i)[q].id() as int;
                        if k == p {
                            if i < s0.nodes@.len() {
                                assert(s0.nodes@[p].parent matches Some(pp) && pp.id() == i);
                                s0.lemma_anc(l, t + 2);
                                assert(s0.anc(l, t + 2) == i);
                                assert(s0.on_chain(l, i));
                            }
                        }
                    }
                }
                BTree::lemma_core_frame(&b, self, i);
            }
        }
        // every node's link to its parent
        assert forall|i: int| 0 <= i < self.nodes@.len() && !s0.stale(l, t + 1, i) implies #[trigger] self.node_up(i) by {
            if i == ri {
                assert(full[j + 1] == r);
                assert(self.kid_ids(p).contains(r));
            } else if i == p {
                if s0.heights@[p] < s0.levels {
                    let g = s0.nodes@[p].parent->0.id() as int;
                    s0.lemma_anc(l, t + 2);
                    assert(s0.stale(l, t, g));
                    assert(b.nodes@[g] == s0.nodes@[g]);
                }
                BTree::lemma_up_frame(&s0, self, i);
            } else {
                assert(!s0.stale(l, t, i));
                assert(b.node_up(i));
                if b.heights@[i] < b.levels && b.nodes@[i].parent->0.id() == p {
                    let x = choose|x: Idx| x.id() == i && #[trigger] b.kid_ids(p).contains(x);
                    let q = choose|q: int| 0 <= q < ks.len() && ks[q] == x;
                    let q2 = if q <= j { q } else { q + 1 };
                    assert(full[q2] == x);
                    assert(self.kid_ids(p).contains(x));
                } else {
                    BTree::lemma_up_frame(&b, self, i);
                }
            }
        }
        assert forall|i: int| #[trigger] s0.stale(l, t + 1, i) implies self.nodes@[i] == s0.nodes@[i] && self.flats@[i] == s0.flats@[i] by {
            assert(i != p);
            assert(s0.stale(l, t, i));
            assert(b.nodes@[i] == s0.nodes@[i]);
        }
        assert forall|i: int| 0 <= i < s0.ids().len() implies self.elem_placed(#[trigger] s0.ids()[i]) by {
            assert(b.elem_placed(s0.ids()[i]));
        }
        assert forall|x: int, y: int|
            #![trigger self.flats@[x], self.flats@[y]]
            0 <= x < self.nodes@.len() && 0 <= y < self.nodes@.len() && x != y && self.heights@[x]
                == self.heights@[y] implies self.flats@[x].disjoint(self.flats@[y]) by {
            assert(b.flats@[x].disjoint(b.flats@[y]));
            if x == p || y == p {
                let o = if x == p { y } else { x };
                if o < s0.nodes@.len() {
                    assert(!s0.on_chain(l, o));
                    assert(s0.flats@[p].disjoint(s0.flats@[o]));
                    assert(s0.node_wf(o));
                    assert forall|u: int, v: int| 0 <= u < nf.len() && 0 <= v < s0.flats@[o].len() implies nf[u] != s0.flats@[o][v] by {
                        if u != npos {
                            let oo = if u < npos { u } else { u - 1 };
                            assert(nf[u] == s0.flats@[p][oo]);
                        }
                    }
                }
            }
        }
    }

    /// After the split-off node `r` is linked into the parent `pi` of the
    /// ancestor `t` levels up, and the parent, being full, was split in turn
    /// into itself and `r2`, the insertion is accounted for one level higher
    /// with `r2` left to link.
    #[verifier::rlimit(100)]
    #[verifier::spinoff_prover]
    pub(crate) proof fn lemma_bubble_split(
        &self,
        c: BTree<T>,
        b: BTree<T>,
        s0: BTree<T>,
        l: int,
        t: nat,
        r: Idx,
        e: Idx,
        pos: int,
        index: int,
        pi: Idx,
        r2: Idx,
    )
        requires
            b.pending(s0, l, t, Some(r), e, pos, index),
            t < s0.levels,
            pi.id() == s0.anc(l, t + 1),
            c.nodes@.len() == b.nodes@.len(),
            forall|i: int|
                0 <= i < b.nodes@.len() && i != r.id() ==> #[trigger] c.nodes@[i] == b.nodes@[i],
            c.nodes@[r.id() as int].parent == Some(pi),
            c.nodes@[r.id() as int].kids == b.nodes@[r.id() as int].kids,
            c.nodes@[r.id() as int].count == b.nodes@[r.id() as int].count,
            c.nodes@[r.id() as int].info == b.nodes@[r.id() as int].info,
            c.nodes@[r.id() as int].is_leaf == b.nodes@[r.id() as int].is_leaf,
            c.flats == b.flats,
            c.heights == b.heights,
            c.elements == b.elements,
            c.element_info == b.element_info,
            c.levels == b.levels,
            c.root == b.root,
            c.first_free == b.first_free,
            ({
                let p = pi.id() as int;
                let ks = s0.kid_ids(p);
                let j = s0.kid_slot(p, s0.anc(l, t));
                let full = ks.insert(j + 1, r);
                let lo = full.take(SPLIT_POINT as int);
                let hi = full.skip(SPLIT_POINT as int);
                let ri2 = r2.id() as int;
                &&& ks.len() == B
                &&& ri2 == c.nodes@.len()
                &&& self.nodes@.len() == c.nodes@.len() + 1
                &&& forall|i: int|
                    0 <= i < c.nodes@.len() && i != p ==> {
                        let o = #[trigger] c.nodes@[i];
                        let n = self.nodes@[i];
                        &&& n.kids == o.kids
                        &&& n.count == o.count
                        &&& n.info == o.info
                        &&& n.is_leaf == o.is_leaf
                        &&& n.parent == (if names(hi, i) {
                            Some(r2)
                        } else {
                            o.parent
                        })
                    }
                &&& self.nodes@[p].kids.wf()
                &&& self.kid_ids(p) == lo
                &&& self.nodes@[p].parent == c.nodes@[p].parent
                &&& self.nodes@[p].is_leaf == c.nodes@[p].is_leaf
                &&& self.nodes@[p].count == sum_counts(c.nodes@, lo)
                &&& self.nodes@[p].info == sum_node_infos(c.nodes@, lo)
                &&& self.nodes@[ri2].kids.wf()
                &&& self.kid_ids(ri2) == hi
                &&& !self.nodes@[ri2].is_leaf
                &&& self.nodes@[ri2].parent is None
                &&& self.nodes@[ri2].count == sum_counts(c.nodes@, hi)
                &&& self.nodes@[ri2].info == sum_node_infos(c.nodes@, hi)
                &&& self.flats@ == c.flats@.update(p, concat_flats(c.flats@, lo)).push(
                    concat_flats(c.flats@, hi),
                )
                &&& self.heights@ == c.heights@.push((t + 1) as nat)
            }),
            self.elements@ == c.elements@,
            self.element_info@ == c.element_info@,
            self.levels == c.levels,
            self.root == c.root,
            self.first_free == c.first_free,
        ensures
            self.pending(
                s0,
                l,
                t + 1,
                Some(r2),
                e,
                concat_flats(s0.flats@, s0.kid_ids(pi.id() as int).take(s0.kid_slot(pi.id() as int, s0.anc(l, t)))).len() + pos,
                index,
            ),
    {
        BTree::lemma_join_facts(&c, b, s0, l, t, r, e, pos, index, pi);
        reveal(BTree::pending);
        reveal(BTree::wf);
        reveal(BTree::node_wf);
        BTree::lemma_chain(&s0, l, t);
        let p = pi.id() as int;
        let node = s0.anc(l, t);
        let ks = s0.kid_ids(p);
        let j = s0.kid_slot(p, node);
        let full = ks.insert(j + 1, r);
        let lo = full.take(SPLIT_POINT as int);
        let hi = full.skip(SPLIT_POINT as int);
        let ri = r.id() as int;
        let ri2 = r2.id() as int;
        let npos = concat_flats(s0.flats@, ks.take(j)).len() + pos;
        let nf = s0.flats@[p].insert(npos, e);
        let flo = concat_flats(c.flats@, lo);
        let fhi = concat_flats(c.flats@, hi);
        assert(s0.node_wf(p));
        assert(full.len() == 7);
        assert forall|q: int| 0 <= q < lo.len() implies #[trigger] lo[q] == full[q] by {}
        assert forall|q: int| 0 <= q < hi.len() implies #[trigger] hi[q] == full[q + 4] by {}
        lemma_concat_flats_split(c.flats@, full, SPLIT_POINT as int);
        assert(flo + fhi == nf);
        // the handles of the two halves
        assert(nf.no_duplicates()) by {
            assert forall|x: int, y: int| 0 <= x < nf.len() && 0 <= y < nf.len() && x != y implies nf[x] != nf[y] by {
                if nf[x] == nf[y] {
                    if x == npos || y == npos {
                        let o = if x == npos { y } else { x };
                        let oo = if o < npos { o } else { o - 1 };
                        assert(s0.flats@[p][oo].id() < s0.elements@.len());
                    }
                }
            }
        }
        assert forall|x: int| 0 <= x < nf.len() implies (#[trigger] nf[x]).id() < self.elements@.len() by {
            if x != npos {
                let oo = if x < npos { x } else { x - 1 };
                assert(nf[x] == s0.flats@[p][oo]);
            }
        }
        assert forall|x: int| 0 <= x < flo.len() implies #[trigger] flo[x] == nf[x] by {}
        assert forall|x: int| 0 <= x < fhi.len() implies #[trigger] fhi[x] == nf[x + flo.len()] by {}
        assert(flo.no_duplicates());
        assert(fhi.no_duplicates());
        assert(flo.disjoint(fhi));
        assert(flo.len() > 0) by {
            assert(lo.last() == full[3]);
            assert(c.flats@[full[3].id() as int].len() > 0);
        }
        assert(fhi.len() > 0) by {
            assert(hi.last() == full[6]);
            assert(c.flats@[full[6].id() as int].len() > 0);
        }
        // the kids that moved
        assert forall|i: int| #![trigger names(hi, i)] names(hi, i) ==> exists|q: int| 4 <= q < 7 && (#[trigger] full[q]).id() == i by {
            if names(hi, i) {
                let q = choose|q: int| 0 <= q < hi.len() && (#[trigger] hi[q]).id() == i;
                assert(full[q + 4] == hi[q]);
            }
        }
        assert forall|q: int| 0 <= q < lo.len() implies !names(hi, (#[trigger] lo[q]).id() as int) by {
            if names(hi, lo[q].id() as int) {
                let q2 = choose|q2: int| 0 <= q2 < hi.len() && (#[trigger] hi[q2]).id() == lo[q].id();
                hi[q2].lemma_id_injective(lo[q]);
                assert(full[q] == full[q2 + 4]);
            }
        }
        assert(!names(hi, p)) by {
            if names(hi, p) {
                let q = choose|q: int| 4 <= q < 7 && (#[trigger] full[q]).id() == p;
            }
        }
        // the handles below the children do not change
        assert forall|q: int| 0 <= q < full.len() implies #[trigger] self.flats@[full[q].id() as int]
            == c.flats@[full[q].id() as int] by {
            assert(full[q].id() != p);
        }
        assert forall|q: int| 0 <= q < lo.len() implies #[trigger] self.flats@[lo[q].id() as int]
            == c.flats@[lo[q].id() as int] by {
            assert(lo[q] == full[q]);
        }
        assert forall|q: int| 0 <= q < hi.len() implies #[trigger] self.flats@[hi[q].id() as int]
            == c.flats@[hi[q].id() as int] by {
            assert(hi[q] == full[q + 4]);
        }
        lemma_concat_flats_frame(self.flats@, c.flats@, lo);
        lemma_concat_flats_frame(self.flats@, c.flats@, hi);
        // counts and summaries
        assert forall|q: int| 0 <= q < lo.len() implies {
            let k = (#[trigger] lo[q]).id() as int;
            &&& 0 <= k < c.nodes@.len()
            &&& c.nodes@[k].count == c.flats@[k].len()
            &&& c.nodes@[k].info == sum_infos(c.elem_infos(c.flats@[k]))
        } by {
            assert(lo[q] == full[q]);
        }
        assert forall|q: int| 0 <= q < hi.len() implies {
            let k = (#[trigger] hi[q]).id() as int;
            &&& 0 <= k < c.nodes@.len()
            &&& c.nodes@[k].count == c.flats@[k].len()
            &&& c.nodes@[k].info == sum_infos(c.elem_infos(c.flats@[k]))
        } by {
            assert(hi[q] == full[q + 4]);
        }
        c.lemma_sum_counts_concat(lo);
        c.lemma_sum_counts_concat(hi);
        assert(self.elem_infos(flo) == c.elem_infos(flo));
        assert(self.elem_infos(fhi) == c.elem_infos(fhi));
        // the two halves
        assert forall|q: int| #![trigger lo[q]] 0 <= q < lo.len() implies {
            &&& lo[q].id() < self.nodes@.len()
            &&& self.heights@[lo[q].id() as int] == t
            &&& self.nodes@[lo[q].id() as int].parent matches Some(pp) && pp.id() == p
        } by {
            assert(lo[q] == full[q]);
            assert(full[q].id() != p);
        }
        assert forall|q: int| #![trigger hi[q]] 0 <= q < hi.len() implies {
            &&& hi[q].id() < self.nodes@.len()
            &&& self.heights@[hi[q].id() as int] == t
            &&& self.nodes@[hi[q].id() as int].parent matches Some(pp) && pp.id() == ri2
        } by {
            assert(hi[q] == full[q + 4]);
            assert(full[q + 4].id() != p);
            assert(names(hi, hi[q].id() as int));
        }
        assert(lo.no_duplicates());
        assert(hi.no_duplicates());
        assert forall|x: int| 0 <= x < flo.len() implies (#[trigger] flo[x]).id() < self.elements@.len() by {
            assert(flo[x] == nf[x]);
        }
        assert forall|x: int| 0 <= x < fhi.len() implies (#[trigger] fhi[x]).id() < self.elements@.len() by {
            assert(fhi[x] == nf[x + flo.len()]);
        }
        assert(self.node_core(p));
        assert(self.node_core(ri2));
        // every other node's own invariant
        assert forall|i: int| 0 <= i < self.nodes@.len() && !s0.stale(l, t + 1, i) implies #[trigger] self.node_core(i) by {
            if i == ri {
                assert(full[j + 1] == r);
                assert(c.node_core(ri));
                if t > 0 {
                    assert forall|q: int| 0 <= q < c.kid_ids(ri).len() implies {
                        let k = (#[trigger] c.kid_ids(ri)[q]).id() as int;
                        k != p && !names(hi, k)
                    } by {
                        let kk = c.kid_ids(ri)[q].id() as int;
                        assert(c.heights@[kk] == t - 1);
                        if names(hi, kk) {
                            let q2 = choose|q2: int| 4 <= q2 < 7 && (#[trigger] full[q2]).id() == kk;
                        }
                    }
                }
                BTree::lemma_core_frame(&c, self, ri);
            } else if i != p && i != ri2 {
                assert(!s0.stale(l, t, i));
                assert(b.node_core(i));
                if b.heights@[i] > 0 {
                    assert forall|q: int| 0 <= q < b.kid_ids(i).len() implies {
                        let k = (#[trigger] b.kid_ids(i)[q]).id() as int;
                        k != p && k != ri && !names(hi, k)
                    } by {
                        let k = b.kid_ids(i)[q].id() as int;
                        if k == p {
                            if i < s0.nodes@.len() {
                                assert(s0.nodes@[p].parent matches Some(pp) && pp.id() == i);
                                s0.lemma_anc(l, t + 2);
                                assert(s0.anc(l, t + 2) == i);
                                assert(s0.on_chain(l, i));
                            }
                        }
                        if names(hi, k) && k != ri {
                            let q2 = choose|q2: int| 4 <= q2 < 7 && (#[trigger] full[q2]).id() == k;
                            assert(c.nodes@[k].parent == Some(pi));
                            assert(b.nodes@[k] == c.nodes@[k]);
                        }
                        if k != ri && k != p && !names(hi, k) {
                            assert(b.nodes@[k] == c.nodes@[k]);
                            assert(self.nodes@[k].parent == c.nodes@[k].parent);
                        }
                    }
                }
                assert(i != ri);
                assert(c.nodes@[i] == b.nodes@[i]);
                assert(self.nodes@[i].kids == c.nodes@[i].kids);
                if b.heights@[i] > 0 {
                    assert forall|q: int| 0 <= q < b.kid_ids(i).len() implies {
                        let k = (#[trigger] b.kid_ids(i)[q]).id() as int;
                        &&& k < self.nodes@.len()
                        &&& self.nodes@[k].parent == b.nodes@[k].parent
                        &&& self.heights@[k] == b.heights@[k]
                        &&& self.flats@[k] == b.flats@[k]
                    } by {
                        let k = b.kid_ids(i)[q].id() as int;
                        assert(k != p && k != ri && !names(hi, k));
                        assert(b.nodes@[k] == c.nodes@[k]);
                        assert(self.nodes@[k].parent == c.nodes@[k].parent);
                    }
                }
                BTree::lemma_core_frame(&b, self, i);
            }
        }
        assert forall|i: int| #[trigger] s0.stale(l, t + 1, i) implies self.nodes@[i] == s0.nodes@[i] && self.flats@[i] == s0.flats@[i] by {
            assert(i != p);
            assert(s0.stale(l, t, i));
            assert(b.nodes@[i] == s0.nodes@[i]);
            assert(i != ri);
            assert(c.nodes@[i] == b.nodes@[i]);
            if names(hi, i) {
                let q = choose|q: int| 4 <= q < 7 && (#[trigger] full[q]).id() == i;
                assert(c.heights@[full[q].id() as int] == t);
            }
            assert(self.nodes@[i] == c.nodes@[i]);
        }
        // every node's link to its parent
        assert forall|i: int| 0 <= i < self.nodes@.len() && !s0.stale(l, t + 1, i) && i != ri2 implies #[trigger] self.node_up(i) by {
            if i == p {
                assert(self.nodes@[p].parent == s0.nodes@[p].parent);
                if s0.heights@[p] < s0.levels {
                    let g = s0.nodes@[p].parent->0.id() as int;
                    s0.lemma_anc(l, t + 2);
                    assert(s0.stale(l, t + 1, g));
                    assert(self.nodes@[g] == s0.nodes@[g]);
                }
                BTree::lemma_up_frame(&s0, self, i);
            } else if names(hi, i) {
                let q = choose|q: int| 4 <= q < 7 && (#[trigger] full[q]).id() == i;
                assert(hi[q - 4] == full[q]);
                assert(self.kid_ids(ri2).contains(full[q]));
            } else if i == ri {
                assert(full[j + 1] == r);
                if j + 1 >= 4 {
                    assert(hi[j + 1 - 4] == r);
                    assert(names(hi, ri));
                }
                assert(lo[j + 1] == r);
                assert(self.kid_ids(p).contains(r));
            } else {
                assert(!s0.stale(l, t, i));
                assert(b.node_up(i));
                if b.heights@[i] < b.levels && b.nodes@[i].parent->0.id() == p {
                    let x = choose|x: Idx| x.id() == i && #[trigger] b.kid_ids(p).contains(x);
                    let q = choose|q: int| 0 <= q < ks.len() && ks[q] == x;
                    let q2 = if q <= j { q } else { q + 1 };
                    assert(full[q2] == x);
                    if q2 >= 4 {
                        assert(names(hi, i)) by {
                            assert(hi[q2 - 4] == x);
                        }
                    }
                    assert(lo[q2] == x);
                    assert(self.kid_ids(p).contains(x));
                } else {
                    assert(i != ri);
                    assert(c.nodes@[i] == b.nodes@[i]);
                    assert(self.nodes@[i].parent == c.nodes@[i].parent);
                    if b.heights@[i] < b.levels {
                        let g = b.nodes@[i].parent->0.id() as int;
                        if g < b.nodes@.len() {
                            assert(g != p);
                            assert(self.nodes@[g].kids == c.nodes@[g].kids);
                            if g != ri {
                                assert(c.nodes@[g] == b.nodes@[g]);
                            }
                        }
                    }
                    BTree::lemma_up_frame(&b, self, i);
                }
            }
        }
        assert forall|i: int|
            0 <= i < s0.nodes@.len() && s0.nodes@[i].parent is Some && s0.stale(
                l,
                t + 1,
                s0.nodes@[i].parent->0.id() as int,
            ) implies #[trigger] self.nodes@[i].parent == s0.nodes@[i].parent by {
            let g = s0.nodes@[i].parent->0.id() as int;
            assert(s0.stale(l, t, g));
            if names(hi, i) {
                let q = choose|q: int| 4 <= q < 7 && (#[trigger] full[q]).id() == i;
                if i != ri {
                    assert(c.nodes@[i].parent == Some(pi));
                    assert(b.nodes@[i] == c.nodes@[i]);
                }
            }
        }
        assert forall|x: Idx| b.elem_placed(x) implies #[trigger] self.elem_placed(x) by {
            let lf = b.element_info@[x.id() as int].parent.id() as int;
            assert(lf != p);
            assert(self.nodes@[lf].kids == c.nodes@[lf].kids);
            if lf != ri {
                assert(c.nodes@[lf] == b.nodes@[lf]);
            }
        }
        assert forall|i: int| 0 <= i < s0.ids().len() implies self.elem_placed(#[trigger] s0.ids()[i]) by {
            assert(b.elem_placed(s0.ids()[i]));
        }
        assert(self.elem_placed(e)) by {
            assert(b.elem_placed(e));
        }
        assert forall|x: int, y: int|
            #![trigger self.flats@[x], self.flats@[y]]
            0 <= x < self.nodes@.len() && 0 <= y < self.nodes@.len() && x != y && self.heights@[x]
                == self.heights@[y] implies self.flats@[x].disjoint(self.flats@[y]) by {
            if x < c.nodes@.len() && y < c.nodes@.len() {
                assert(b.flats@[x].disjoint(b.flats@[y]));
            }
            if x == p || y == p || x == ri2 || y == ri2 {
                let o = if x == p || x == ri2 { y } else { x };
                if o != p && o != ri2 {
                    assert(o < s0.nodes@.len());
                    assert(!s0.on_chain(l, o));
                    assert(s0.flats@[p].disjoint(s0.flats@[o]));
                    assert(s0.node_wf(o));
                    assert forall|u: int, v: int| 0 <= u < nf.len() && 0 <= v < s0.flats@[o].len() implies nf[u] != s0.flats@[o][v] by {
                        if u != npos {
                            let oo = if u < npos { u } else { u - 1 };
                            assert(nf[u] == s0.flats@[p][oo]);
                        }
                    }
                }
            }
        }
        assert(self.flats@[p] + self.flats@[ri2] == nf);
    }

    /// Once an insertion has been accounted for up to the root with nothing
    /// split off, the tree is well formed again and holds the new handle at
    /// the position asked for.
    #[verifier::rlimit(80)]
    #[verifier::spinoff_prover]
    pub(crate) proof fn lemma_finish_plain(&self, s0: BTree<T>, l: int, e: Idx, pos: int, index: int)
        requires
            self.pending(s0, l, s0.levels as nat, None, e, pos, index),
        ensures
            self.wf(),
            self.ids() == s0.ids().insert(s0.up_offset(l, s0.levels as nat) + index, e),
            self.elements@.len() == s0.elements@.len() + 1,
            self.levels == s0.levels,
    {
        reveal(BTree::pending);
        reveal(BTree::wf);
        reveal(BTree::node_wf);
        s0.lemma_anc(l, s0.levels as nat);
        let ro = s0.root.id() as int;
        assert(s0.node_wf(ro));
        assert(s0.up_offset(ro, 0) == 0);
        assert(self.ids() == s0.ids().insert(pos, e));
        assert forall|i: int| 0 <= i < self.nodes@.len() implies !s0.stale(l, s0.levels as nat, i) by {
            if s0.stale(l, s0.levels as nat, i) {
                assert(s0.node_wf(i));
            }
        }
        assert forall|n: int| 0 <= n < self.nodes@.len() implies #[trigger] self.node_wf(n) by {
            assert(!s0.stale(l, s0.levels as nat, n));
        }
        let ids = self.ids();
        assert forall|i: int| #![trigger ids[i]] 0 <= i < ids.len() implies self.elem_placed(ids[i]) by {
            if i != pos {
                let oo = if i < pos { i } else { i - 1 };
                assert(ids[i] == s0.ids()[oo]);
            }
        }
    }

    /// Once an insertion has been accounted for up to the root and the root
    /// was split, a new root above the old one and the node split off it
    /// makes the tree well formed again, one level higher, holding the new
    /// handle at the position asked for.
    #[verifier::rlimit(100)]
    #[verifier::spinoff_prover]
    pub(crate) proof fn lemma_finish_root(
        &self,
        b: BTree<T>,
        s0: BTree<T>,
        l: int,
        r: Idx,
        e: Idx,
        pos: int,
        index: int,
    )
        requires
            b.pending(s0, l, s0.levels as nat, Some(r), e, pos, index),
            ({
                let ro = s0.root.id() as int;
                let ri = r.id() as int;
                let nr = self.root.id() as int;
                &&& nr == b.nodes@.len()
                &&& self.nodes@.len() == b.nodes@.len() + 1
                &&& forall|i: int|
                    0 <= i < b.nodes@.len() ==> {
                        let o = #[trigger] b.nodes@[i];
                        let n = self.nodes@[i];
                        &&& n.kids == o.kids
                        &&& n.count == o.count
                        &&& n.info == o.info
                        &&& n.is_leaf == o.is_leaf
                        &&& n.parent == (if i == ro || i == ri {
                            Some(self.root)
                        } else {
                            o.parent
                        })
                    }
                &&& self.nodes@[nr].kids.wf()
                &&& self.kid_ids(nr) == seq![s0.root, r]
                &&& !self.nodes@[nr].is_leaf
                &&& self.nodes@[nr].count == sum_counts(b.nodes@, seq![s0.root, r])
                &&& self.nodes@[nr].info == sum_node_infos(b.nodes@, seq![s0.root, r])
                &&& self.flats@ == b.flats@.push(b.flats@[ro] + b.flats@[ri])
                &&& self.heights@ == b.heights@.push((s0.levels + 1) as nat)
                &&& self.levels == s0.levels + 1
            }),
            self.elements@ == b.elements@,
            self.element_info@ == b.element_info@,
            self.first_free == b.first_free,
        ensures
            self.wf(),
            self.ids() == s0.ids().insert(s0.up_offset(l, s0.levels as nat) + index, e),
            self.elements@.len() == s0.elements@.len() + 1,
    {
        reveal(BTree::pending);
        reveal(BTree::wf);
        reveal(BTree::node_wf);
        s0.lemma_anc(l, s0.levels as nat);
        let ro = s0.root.id() as int;
        let ri = r.id() as int;
        let nr = self.root.id() as int;
        let ks = seq![s0.root, r];
        let nf = s0.flats@[ro].insert(pos, e);
        assert(s0.node_wf(ro));
        assert(s0.up_offset(ro, 0) == 0);
        assert(b.flats@[ro] + b.flats@[ri] == nf);
        assert(self.ids() == nf);
        assert forall|i: int| 0 <= i < b.nodes@.len() implies !s0.stale(l, s0.levels as nat, i) by {
            if s0.stale(l, s0.levels as nat, i) {
                assert(s0.node_wf(i));
            }
        }
        assert(b.node_core(ro));
        assert(b.node_core(ri));
        // the handles below the new root
        assert(nf.no_duplicates()) by {
            assert forall|x: int, y: int| 0 <= x < nf.len() && 0 <= y < nf.len() && x != y implies nf[x] != nf[y] by {
                if nf[x] == nf[y] {
                    if x == pos || y == pos {
                        let o = if x == pos { y } else { x };
                        let oo = if o < pos { o } else { o - 1 };
                        assert(s0.flats@[ro][oo].id() < s0.elements@.len());
                    }
                }
            }
        }
        assert forall|x: int| 0 <= x < nf.len() implies (#[trigger] nf[x]).id() < self.elements@.len() by {
            if x != pos {
                let oo = if x < pos { x } else { x - 1 };
                assert(nf[x] == s0.flats@[ro][oo]);
            }
        }
        assert(ks.drop_last() =~= seq![s0.root]);
        assert(seq![s0.root].drop_last() =~= Seq::<Idx>::empty());
        crate::btree::lemma_concat_flats_single(self.flats@, s0.root);
        assert(ks.last() == r);
        assert(concat_flats(self.flats@, ks) =~= self.flats@[ro] + self.flats@[ri]);
        assert forall|q: int| 0 <= q < ks.len() implies #[trigger] b.nodes@[ks[q].id() as int].count
            == self.nodes@[ks[q].id() as int].count && b.nodes@[ks[q].id() as int].info
            == self.nodes@[ks[q].id() as int].info by {}
        crate::btree::lemma_sum_counts_frame(b.nodes@, self.nodes@, ks);
        assert forall|q: int| 0 <= q < ks.len() implies {
            let k = (#[trigger] ks[q]).id() as int;
            &&& 0 <= k < self.nodes@.len()
            &&& self.nodes@[k].count == self.flats@[k].len()
            &&& self.nodes@[k].info == sum_infos(self.elem_infos(self.flats@[k]))
        } by {
            let k = ks[q].id() as int;
            assert(b.node_core(k));
            assert(self.elem_infos(self.flats@[k]) == b.elem_infos(b.flats@[k]));
        }
        self.lemma_sum_counts_concat(ks);
        assert(ks.no_duplicates());
        assert forall|q: int| #![trigger ks[q]] 0 <= q < ks.len() implies {
            &&& ks[q].id() < self.nodes@.len()
            &&& self.heights@[ks[q].id() as int] == self.heights@[nr] - 1
            &&& self.nodes@[ks[q].id() as int].parent matches Some(pp) && pp.id() == nr
        } by {}
        assert(self.node_core(nr));
        assert(self.node_up(nr));
        // the old root and the node split off it
        assert(self.kid_ids(nr).contains(s0.root)) by {
            assert(ks[0] == s0.root);
        }
        assert(self.kid_ids(nr).contains(r)) by {
            assert(ks[1] == r);
        }
        // every node's own invariant
        assert forall|i: int| 0 <= i < b.nodes@.len() implies #[trigger] self.node_core(i) by {
            assert(b.node_core(i));
            if b.heights@[i] > 0 {
                assert forall|q: int| 0 <= q < b.kid_ids(i).len() implies {
                    let k = (#[trigger] b.kid_ids(i)[q]).id() as int;
                    &&& k < self.nodes@.len()
                    &&& self.nodes@[k].parent == b.nodes@[k].parent
                    &&& self.heights@[k] == b.heights@[k]
                    &&& self.flats@[k] == b.flats@[k]
                } by {
                    let k = b.kid_ids(i)[q].id() as int;
                    assert(k != ro);
                    assert(k != ri);
                }
            }
            BTree::lemma_core_frame(&b, self, i);
        }
        // every node's link to its parent
        assert forall|i: int| 0 <= i < b.nodes@.len() implies #[trigger] self.node_up(i) by {
            if i == ro {
                let x = s0.root;
                assert(self.kid_ids(nr).contains(x));
            } else if i == ri {
                assert(self.kid_ids(nr).contains(r));
            } else {
                assert(b.node_up(i));
                assert(b.node_core(i));
                if b.heights@[i] < b.levels {
                    let g = b.nodes@[i].parent->0.id() as int;
                    let x = choose|x: Idx| x.id() == i && #[trigger] b.kid_ids(g).contains(x);
                    assert(self.kid_ids(g) == b.kid_ids(g));
                    assert(self.kid_ids(g).contains(x));
                }
            }
        }
        assert forall|n: int| 0 <= n < self.nodes@.len() implies #[trigger] self.node_wf(n) by {
            if n < b.nodes@.len() {
                assert(self.node_core(n));
                assert(self.node_up(n));
            }
        }
        let ids = self.ids();
        assert forall|x: Idx| b.elem_placed(x) implies #[trigger] self.elem_placed(x) by {
            let lf = b.element_info@[x.id() as int].parent.id() as int;
            assert(self.nodes@[lf].kids == b.nodes@[lf].kids);
        }
        assert forall|i: int| #![trigger ids[i]] 0 <= i < ids.len() implies self.elem_placed(ids[i]) by {
            if i != pos {
                let oo = if i < pos { i } else { i - 1 };
                assert(ids[i] == s0.ids()[oo]);
                assert(b.elem_placed(s0.ids()[oo]));
            } else {
                assert(b.elem_placed(e));
            }
        }
        assert forall|x: int, y: int|
            #![trigger self.flats@[x], self.flats@[y]]
            0 <= x < self.nodes@.len() && 0 <= y < self.nodes@.len() && x != y && self.heights@[x]
                == self.heights@[y] implies self.flats@[x].disjoint(self.flats@[y]) by {
            if x == nr || y == nr {
                let o = if x == nr { y } else { x };
                assert(b.node_core(o));
            } else {
                assert(b.flats@[x].disjoint(b.flats@[y]));
            }
        }
    }

    /// What a new root above the old root and the node split off it needs.
    pub(crate) proof fn lemma_root_split_pre(
        b: &BTree<T>,
        s0: BTree<T>,
        l: int,
        r: Idx,
        e: Idx,
        pos: int,
        index: int,
    )
        requires
            b.pending(s0, l, s0.levels as nat, Some(r), e, pos, index),
        ensures
            s0.root.id() < b.nodes@.len(),
            r.id() < b.nodes@.len(),
            r.id() != s0.root.id(),
            b.nodes@.len() + 1 < usize::MAX,
            b.elements@.len() == b.element_info@.len(),
            b.levels == s0.levels,
            b.levels + 1 < usize::MAX,
            sum_counts(b.nodes@, seq![s0.root, r]) < usize::MAX,
    {
        reveal(BTree::pending);
        reveal(BTree::wf);
        reveal(BTree::node_wf);
        s0.lemma_anc(l, s0.levels as nat);
        let ro = s0.root.id() as int;
        let ri = r.id() as int;
        let ks = seq![s0.root, r];
        assert(s0.node_wf(ro));
        s0.lemma_flat_len(ro);
        assert(!s0.stale(l, s0.levels as nat, ro));
        assert(!s0.stale(l, s0.levels as nat, ri));
        assert(b.node_core(ro));
        assert(b.node_core(ri));
        assert(ks[0] == s0.root && ks[1] == r);
        b.lemma_sum_counts_concat(ks);
        crate::btree::lemma_concat_flats_single(b.flats@, s0.root);
        assert(ks.drop_last() =~= seq![s0.root]);
        assert(ks.last() == r);
        assert(concat_flats(b.flats@, ks) =~= b.flats@[ro] + b.flats@[ri]);
        assert(b.flats@[ro] + b.flats@[ri] == s0.flats@[ro].insert(pos, e));
        assert(s0.flats@[ro].len() == s0.elements@.len());
    }
}

} // verus!
