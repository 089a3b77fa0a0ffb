use super::{concat_flats, lemma_concat_flats_offset, lemma_concat_flats_split, BTree, ElemIdx};
use crate::idx::Idx;
use crate::info::{
    infos_of, lemma_sum_infos_concat, lemma_locate_concat, lemma_locate_ones, lemma_locate_some, lemma_sum_nats_member,
    locate, sum_infos, sum_nats, BTreeInfo, BTreeItem, BTreeMeasure, CountMeasure,
};
use vstd::prelude::*;

verus! {

/// `locate`'s answer for a part, moved to where the part starts.
pub open spec fn shift(r: Option<(int, int)>, by: int) -> Option<(int, int)> {
    match r {
        Some((j, k)) => Some((j + by, k)),
        None => None,
    }
}

/// A way of naming an element of a `BTree`: by position, or by handle.
pub trait BTreeIdx<T: BTreeItem>: Sized {
    /// Whether this index can be looked up in `tree` at all.
    spec fn spec_usable(self, tree: &BTree<T>) -> bool;

    /// The position this index names in `tree`, if it names one.
    spec fn spec_position(self, tree: &BTree<T>) -> Option<int>;

    /// The handle of the element this index names, if it names one.
    fn get(self, tree: &BTree<T>) -> (r: Option<Idx>)
        requires
            tree.wf(),
            self.spec_usable(tree),
        ensures
            match self.spec_position(tree) {
                Some(p) => 0 <= p < tree.spec_len() && r == Some(tree.ids()[p]),
                None => r is None,
            },
    ;
}

impl<T: BTreeItem> BTreeIdx<T> for usize {
    open spec fn spec_usable(self, tree: &BTree<T>) -> bool {
        true
    }

    open spec fn spec_position(self, tree: &BTree<T>) -> Option<int> {
        if self < tree.spec_len() {
            Some(self as int)
        } else {
            None
        }
    }

    fn get(self, tree: &BTree<T>) -> (r: Option<Idx>) {
        proof {
            tree.lemma_count_weights();
            lemma_locate_ones(tree.spec_len(), self as int, false);
        }
        match tree.find(false, self, &CountMeasure) {
            Some((idx, _)) => Some(idx),
            None => None,
        }
    }
}

impl<T: BTreeItem> BTreeIdx<T> for ElemIdx {
    open spec fn spec_usable(self, tree: &BTree<T>) -> bool {
        tree.has_handle(self)
    }

    open spec fn spec_position(self, tree: &BTree<T>) -> Option<int> {
        Some(tree.position_of(self))
    }

    fn get(self, tree: &BTree<T>) -> (r: Option<Idx>) {
        proof {
            tree.lemma_view_len();
        }
        Some(self.idx())
    }
}

impl<T: BTreeItem> BTree<T> {
    pub(crate) proof fn lemma_view_len(&self)
        ensures
            self.view().len() == self.ids().len(),
            forall|i: int|
                0 <= i < self.ids().len() ==> #[trigger] self.view()[i] == self.elements@[self.ids()[i].id() as int],
    {
    }

    /// Weighing by count gives every element weight one.
    pub proof fn lemma_count_weights(&self)
        requires
            self.wf(),
        ensures
            self.weights(&CountMeasure) == Seq::new(self.spec_len(), |i: int| 1nat),
            self.total_weight(&CountMeasure) == self.spec_len(),
            self.spec_len() < usize::MAX,
    {
        reveal(BTree::wf);
        assert(self.weights(&CountMeasure) =~= Seq::new(self.spec_len(), |i: int| 1nat));
    }

    /// Picks the child of inner node `node` that holds the element `key`
    /// falls on, and what is left of `key` below it.
    fn descend<M: BTreeMeasure<T::Info>>(
        &self,
        node: usize,
        key: usize,
        inclusive: bool,
        get: &M,
    ) -> (r: (usize, usize, Ghost<int>))
        requires
            self.wf(),
            node < self.nodes@.len(),
            self.heights@[node as int] > 0,
            sum_nats(self.flat_weights(get, self.flats@[node as int])) <= usize::MAX,
            locate(self.flat_weights(get, self.flats@[node as int]), key as int, inclusive) is Some,
        ensures
            ({
                let (c, k, off) = r;
                let fc = self.flats@[c as int];
                let f = self.flats@[node as int];
                &&& c < self.nodes@.len()
                &&& self.heights@[c as int] == self.heights@[node as int] - 1
                &&& 0 <= off@ && off@ + fc.len() <= f.len()
                &&& f.subrange(off@, off@ + fc.len()) == fc
                &&& sum_nats(self.flat_weights(get, fc)) <= sum_nats(self.flat_weights(get, f))
                &&& locate(self.flat_weights(get, fc), k as int, inclusive) is Some
                &&& locate(self.flat_weights(get, f), key as int, inclusive) == shift(
                    locate(self.flat_weights(get, fc), k as int, inclusive),
                    off@,
                )
            }),
    {
        proof {
            reveal(BTree::node_wf);
            reveal(BTree::wf);
            assert(self.node_wf(node as int));
        }
        let ghost fl = self.flats@;
        let ghost f = fl[node as int];
        let ghost ks = self.kid_ids(node as int);
        let ghost wf_all = sum_nats(self.flat_weights(get, f));
        let kids = self.nodes[node].kids;
        let nk = kids.count();
        let mut j: usize = 0;
        let mut k: usize = key;
        let ghost mut off: int = 0;
        proof {
            assert(ks.take(0) =~= Seq::<Idx>::empty());
            assert(ks.skip(0) =~= ks);
        }
        while j < nk
            invariant
                self.wf(),
                kids == self.nodes@[node as int].kids,
                kids.wf(),
                ks == kids.ids(),
                nk == ks.len(),
                node < self.nodes@.len(),
                self.node_wf(node as int),
                self.heights@[node as int] > 0,
                fl == self.flats@,
                f == fl[node as int],
                f == concat_flats(fl, ks),
                wf_all == sum_nats(self.flat_weights(get, f)),
                wf_all <= usize::MAX,
                j <= nk,
                off == concat_flats(fl, ks.take(j as int)).len(),
                k as int == key as int - sum_nats(self.flat_weights(get, concat_flats(fl, ks.take(j as int)))),
                locate(self.flat_weights(get, f), key as int, inclusive) == shift(
                    locate(self.flat_weights(get, concat_flats(fl, ks.skip(j as int))), k as int, inclusive),
                    off,
                ),
                locate(self.flat_weights(get, f), key as int, inclusive) is Some,
            decreases nk - j,
        {
            let c = kids.get(j);
            let ci = c.get();
            proof {
                reveal(BTree::node_wf);
            reveal(BTree::wf);
                assert(ks[j as int] == c);
                assert(ci < self.nodes@.len());
                assert(self.node_wf(ci as int));
                lemma_concat_flats_offset(fl, ks, j as int);
                lemma_concat_flats_split(fl, ks, j as int);
                lemma_concat_flats_split(fl, ks, j as int + 1);
                let fc = fl[ci as int];
                let pre = concat_flats(fl, ks.take(j as int));
                let rest = concat_flats(fl, ks.skip(j as int + 1));
                assert(concat_flats(fl, ks.skip(j as int)) =~= fc + rest) by {
                    lemma_concat_flats_split(fl, ks.skip(j as int), 1);
                    assert(ks.skip(j as int).take(1) =~= seq![c]);
                    assert(ks.skip(j as int).skip(1) =~= ks.skip(j as int + 1));
                    super::lemma_concat_flats_single(fl, c);
                }
                self.lemma_flat_weights_concat(get, pre + fc, rest);
                self.lemma_flat_weights_concat(get, pre, fc);
                self.lemma_flat_weights_concat(get, fc, rest);
                self.lemma_node_weight(get, ci as int);
                assert(f =~= (pre + fc) + rest);
            }
            let child = self.nodes[ci];
            let val = get.weight(child.count, child.info);
            proof {
                let fc = fl[ci as int];
                let rest = concat_flats(fl, ks.skip(j as int + 1));
                lemma_locate_concat(
                    self.flat_weights(get, fc),
                    self.flat_weights(get, rest),
                    k as int,
                    inclusive,
                );
                lemma_locate_some(self.flat_weights(get, fc), k as int, inclusive);
            }
            if k < val || (inclusive && k == val) {
                return (ci, k, Ghost(off));
            }
            k = k - val;
            proof {
                off = off + fl[ci as int].len();
            }
            j += 1;
        }
        proof {
            assert(ks.skip(nk as int) =~= Seq::<Idx>::empty());
            assert(self.flat_weights(get, Seq::<Idx>::empty()) =~= Seq::<nat>::empty());
        }
        (0, 0, Ghost(0))
    }

    /// Finds the element of leaf `leaf` that `key` falls on, and what is left
    /// of `key` there.
    fn scan_leaf<M: BTreeMeasure<T::Info>>(
        &self,
        leaf: usize,
        key: usize,
        inclusive: bool,
        get: &M,
    ) -> (r: Option<(Idx, usize)>)
        requires
            self.wf(),
            leaf < self.nodes@.len(),
            self.heights@[leaf as int] == 0,
            sum_nats(self.flat_weights(get, self.flats@[leaf as int])) <= usize::MAX,
        ensures
            match locate(self.flat_weights(get, self.flats@[leaf as int]), key as int, inclusive) {
                Some((j, k)) => r == Some((self.flats@[leaf as int][j], k as usize)),
                None => r is None,
            },
    {
        proof {
            reveal(BTree::node_wf);
            reveal(BTree::wf);
            assert(self.node_wf(leaf as int));
        }
        let ghost f = self.flats@[leaf as int];
        let ghost ws = self.flat_weights(get, f);
        let kids = self.nodes[leaf].kids;
        let nk = kids.count();
        let mut j: usize = 0;
        let mut k: usize = key;
        proof {
            assert(ws.skip(0) =~= ws);
        }
        while j < nk
            invariant
                self.wf(),
                kids == self.nodes@[leaf as int].kids,
                kids.wf(),
                f == kids.ids(),
                f == self.flats@[leaf as int],
                ws == self.flat_weights(get, f),
                nk == f.len(),
                sum_nats(ws) <= usize::MAX,
                j <= nk,
                locate(ws, key as int, inclusive) == shift(locate(ws.skip(j as int), k as int, inclusive), j as int),
                forall|i: int| 0 <= i < f.len() ==> (#[trigger] f[i]).id() < self.elements@.len(),
            decreases nk - j,
        {
            let e = kids.get(j);
            let info = self.elements[e.get()].get_info();
            proof {
                lemma_sum_nats_member(ws, j as int);
                assert(ws.skip(j as int) =~= seq![ws[j as int]] + ws.skip(j as int + 1));
                lemma_locate_concat(seq![ws[j as int]], ws.skip(j as int + 1), k as int, inclusive);
                assert(seq![ws[j as int]].drop_first() =~= Seq::<nat>::empty());
                crate::info::lemma_sum_nats_single(ws[j as int]);
                assert(ws.skip(j as int).drop_first() =~= ws.skip(j as int + 1));
            }
            let val = get.weight(1, info);
            if k < val || (inclusive && k == val) {
                return Some((e, k));
            }
            k = k - val;
            j += 1;
        }
        proof {
            assert(ws.skip(nk as int) =~= Seq::<nat>::empty());
        }
        None
    }

    /// Finds the element at which the running total of `get`'s weights
    /// passes `key` (or reaches it, when `inclusive`), with what is left of
    /// `key` at that element.
    pub fn find<M: BTreeMeasure<T::Info>>(&self, inclusive: bool, key: usize, get: &M) -> (r: Option<
        (Idx, usize),
    >)
        requires
            self.wf(),
            self.total_weight(get) <= usize::MAX,
        ensures
            match locate(self.weights(get), key as int, inclusive) {
                Some((j, k)) => r == Some((self.ids()[j], k as usize)),
                None => r is None,
            },
    {
        let root = self.root.get();
        proof {
            reveal(BTree::node_wf);
            reveal(BTree::wf);
            assert(self.node_wf(root as int));
            self.lemma_weights_flat(get);
            self.lemma_node_weight(get, root as int);
        }
        let rnode = self.nodes[root];
        let total = get.weight(rnode.count, rnode.info);
        let ghost ws = self.flat_weights(get, self.flats@[root as int]);
        if key > total {
            proof {
                if ws.len() > 0 {
                    lemma_locate_some(ws, key as int, inclusive);
                }
            }
            return None;
        }
        if !inclusive && key == total {
            proof {
                if ws.len() > 0 {
                    lemma_locate_some(ws, key as int, inclusive);
                }
            }
            return None;
        }
        proof {
            if self.levels > 0 {
                assert(self.kid_ids(root as int).len() >= 1);
                let k0 = self.kid_ids(root as int)[0];
                assert(self.node_wf(k0.id() as int));
                lemma_concat_flats_offset(self.flats@, self.kid_ids(root as int), 0);
                assert(ws.len() > 0);
                lemma_locate_some(ws, key as int, inclusive);
            }
            assert(self.ids().subrange(0, self.ids().len() as int) =~= self.ids());
            assert(shift(locate(ws, key as int, inclusive), 0) == locate(ws, key as int, inclusive));
        }
        let mut node = root;
        let mut k = key;
        let ghost mut base: int = 0;
        let mut level: usize = 0;
        while level < self.levels
            invariant
                self.wf(),
                root == self.root.id(),
                ws == self.flat_weights(get, self.ids()),
                node < self.nodes@.len(),
                level <= self.levels,
                self.heights@[node as int] == self.levels - level,
                0 <= base,
                base + self.flats@[node as int].len() <= self.ids().len(),
                self.ids().subrange(base, base + self.flats@[node as int].len()) == self.flats@[node as int],
                sum_nats(self.flat_weights(get, self.flats@[node as int])) <= usize::MAX,
                locate(ws, key as int, inclusive) == shift(
                    locate(self.flat_weights(get, self.flats@[node as int]), k as int, inclusive),
                    base,
                ),
                self.levels > 0 ==> locate(self.flat_weights(get, self.flats@[node as int]), k as int, inclusive) is Some,
            decreases self.levels - level,
        {
            let (c, k2, off) = self.descend(node, k, inclusive, get);
            proof {
                let f = self.flats@[node as int];
                let fc = self.flats@[c as int];
                assert(self.ids().subrange(base + off@, base + off@ + fc.len()) =~= fc) by {
                    assert(self.ids().subrange(base + off@, base + off@ + fc.len())
                        =~= f.subrange(off@, off@ + fc.len()));
                }
                base = base + off@;
            }
            node = c;
            k = k2;
            level += 1;
        }
        let res = self.scan_leaf(node, k, inclusive, get);
        proof {
            let f = self.flats@[node as int];
            match locate(self.flat_weights(get, f), k as int, inclusive) {
                Some((j, kk)) => {
                    crate::info::lemma_locate_result(self.flat_weights(get, f), k as int, inclusive);
                    assert(self.ids()[base + j] == self.ids().subrange(base, base + f.len())[j]);
                },
                None => {},
            }
        }
        res
    }
}

impl<T: BTreeItem> BTree<T> {
    /// The number of elements below the children of inner node `p` that come
    /// before its child `target`, with the slot of `target`.
    fn count_before(&self, p: usize, target: Idx) -> (r: (usize, Ghost<int>))
        requires
            self.wf(),
            p < self.nodes@.len(),
            self.heights@[p as int] > 0,
            self.kid_ids(p as int).contains(target),
        ensures
            ({
                let (c, jj) = r;
                let ks = self.kid_ids(p as int);
                &&& 0 <= jj@ < ks.len()
                &&& ks[jj@] == target
                &&& forall|q: int| 0 <= q < jj@ ==> ks[q] != target
                &&& c == concat_flats(self.flats@, ks.take(jj@)).len()
            }),
    {
        proof {
            reveal(BTree::node_wf);
            reveal(BTree::wf);
            assert(self.node_wf(p as int));
        }
        let ghost fl = self.flats@;
        let ghost ks = self.kid_ids(p as int);
        proof {
            self.lemma_flat_len(p as int);
        }
        let kids = self.nodes[p].kids;
        let np = kids.count();
        let mut j: usize = 0;
        let mut acc: usize = 0;
        proof {
            assert(ks.take(0) =~= Seq::<Idx>::empty());
        }
        while j < np
            invariant
                self.wf(),
                p < self.nodes@.len(),
                self.node_wf(p as int),
                self.heights@[p as int] > 0,
                kids == self.nodes@[p as int].kids,
                kids.wf(),
                ks == kids.ids(),
                np == ks.len(),
                ks.contains(target),
                fl == self.flats@,
                j <= np,
                forall|q: int| 0 <= q < j ==> ks[q] != target,
                acc == concat_flats(fl, ks.take(j as int)).len(),
                concat_flats(fl, ks).len() == fl[p as int].len(),
                fl[p as int].len() <= self.elements@.len(),
                self.elements@.len() < usize::MAX,
            decreases np - j,
        {
            let kid = kids.get(j);
            if kid == target {
                return (acc, Ghost(j as int));
            }
            proof {
                reveal(BTree::node_wf);
                reveal(BTree::wf);
                assert(ks[j as int] == kid);
                assert(self.node_wf(kid.id() as int));
                lemma_concat_flats_offset(fl, ks, j as int);
                lemma_concat_flats_split(fl, ks, j as int + 1);
            }
            acc = acc + self.nodes[kid.get()].count;
            j += 1;
        }
        proof {
            let q = choose|q: int| 0 <= q < ks.len() && ks[q] == target;
            assert(ks[q] != target);
        }
        (0, Ghost(0))
    }

    /// `start` with the summaries of the elements below the children of
    /// inner node `p` that come before its child `target` added on.
    fn add_infos_before(&self, p: usize, target: Idx, start: T::Info) -> (r: (T::Info, Ghost<int>))
        requires
            self.wf(),
            p < self.nodes@.len(),
            self.heights@[p as int] > 0,
            self.kid_ids(p as int).contains(target),
        ensures
            ({
                let (s, jj) = r;
                let ks = self.kid_ids(p as int);
                &&& 0 <= jj@ < ks.len()
                &&& ks[jj@] == target
                &&& forall|q: int| 0 <= q < jj@ ==> ks[q] != target
                &&& s == start.spec_add(sum_infos(self.elem_infos(concat_flats(self.flats@, ks.take(jj@)))))
            }),
    {
        proof {
            reveal(BTree::node_wf);
            reveal(BTree::wf);
            assert(self.node_wf(p as int));
        }
        let ghost fl = self.flats@;
        let ghost ks = self.kid_ids(p as int);
        let kids = self.nodes[p].kids;
        let np = kids.count();
        let mut j: usize = 0;
        let mut acc = start;
        proof {
            assert(ks.take(0) =~= Seq::<Idx>::empty());
            assert(self.elem_infos(Seq::<Idx>::empty()) =~= Seq::<T::Info>::empty());
            T::Info::lemma_add_zero(start);
        }
        while j < np
            invariant
                self.wf(),
                p < self.nodes@.len(),
                self.node_wf(p as int),
                self.heights@[p as int] > 0,
                kids == self.nodes@[p as int].kids,
                kids.wf(),
                ks == kids.ids(),
                np == ks.len(),
                ks.contains(target),
                fl == self.flats@,
                j <= np,
                forall|q: int| 0 <= q < j ==> ks[q] != target,
                acc == start.spec_add(sum_infos(self.elem_infos(concat_flats(fl, ks.take(j as int))))),
            decreases np - j,
        {
            let kid = kids.get(j);
            if kid == target {
                return (acc, Ghost(j as int));
            }
            proof {
                reveal(BTree::node_wf);
                reveal(BTree::wf);
                assert(ks[j as int] == kid);
                assert(self.node_wf(kid.id() as int));
                lemma_concat_flats_offset(fl, ks, j as int);
                let pre = concat_flats(fl, ks.take(j as int));
                let fc = fl[kid.id() as int];
                assert(self.elem_infos(pre + fc) =~= self.elem_infos(pre) + self.elem_infos(fc));
                lemma_sum_infos_concat(self.elem_infos(pre), self.elem_infos(fc));
                T::Info::lemma_add_assoc(
                    start,
                    sum_infos(self.elem_infos(pre)),
                    sum_infos(self.elem_infos(fc)),
                );
            }
            acc = acc.add(self.nodes[kid.get()].info);
            j += 1;
        }
        proof {
            let q = choose|q: int| 0 <= q < ks.len() && ks[q] == target;
            assert(ks[q] != target);
        }
        (start, Ghost(0))
    }

    /// Facts about the leaf holding the element with handle `e`.
    pub(crate) proof fn lemma_leaf_of(&self, e: Idx, p: int)
        requires
            self.wf(),
            0 <= p < self.ids().len(),
            self.ids()[p] == e,
        ensures
            ({
                let leaf = self.element_info@[e.id() as int].parent.id();
                &&& e.id() < self.elements@.len()
                &&& leaf < self.nodes@.len()
                &&& self.heights@[leaf as int] == 0
                &&& self.kid_ids(leaf as int).contains(e)
                &&& self.flats@[leaf as int] == self.kid_ids(leaf as int)
                &&& self.nodes@[leaf as int].kids.wf()
                &&& self.element_info@.len() == self.elements@.len()
                &&& self.flats@[leaf as int].len() <= self.elements@.len()
                &&& self.elements@.len() < usize::MAX
                &&& forall|i: int| 0 <= i < self.flats@[leaf as int].len() ==> (#[trigger] self.flats@[leaf as int][i]).id() < self.elements@.len()
            }),
    {
        reveal(BTree::node_wf);
        reveal(BTree::wf);
        let leaf = self.element_info@[e.id() as int].parent.id();
        assert(self.ids()[p] == e);
        assert(self.node_wf(self.root.id() as int));
        assert(self.node_wf(leaf as int));
        self.lemma_flat_len(leaf as int);
    }

    /// Where the element at position `p` of a node's children's handles sits
    /// in its parent, one level up.
    proof fn lemma_step_up(&self, node: Idx, parent: Idx, jj: int, pos: int)
        requires
            self.wf(),
            node.id() < self.nodes@.len(),
            self.heights@[node.id() as int] < self.levels,
            self.nodes@[node.id() as int].parent == Some(parent),
            0 <= jj < self.kid_ids(parent.id() as int).len(),
            self.kid_ids(parent.id() as int)[jj] == node,
            0 <= pos < self.flats@[node.id() as int].len(),
        ensures
            ({
                let fl = self.flats@;
                let ks = self.kid_ids(parent.id() as int);
                let off = concat_flats(fl, ks.take(jj)).len();
                &&& parent.id() < self.nodes@.len()
                &&& self.heights@[parent.id() as int] == self.heights@[node.id() as int] + 1
                &&& off + pos < fl[parent.id() as int].len()
                &&& fl[parent.id() as int][off + pos] == fl[node.id() as int][pos]
                &&& fl[parent.id() as int].take(off + pos) == concat_flats(fl, ks.take(jj)) + fl[node.id() as int].take(pos)
            }),
    {
        reveal(BTree::node_wf);
        reveal(BTree::wf);
        assert(self.node_wf(node.id() as int));
        let p = parent.id() as int;
        assert(self.node_wf(p));
        let fl = self.flats@;
        let ks = self.kid_ids(p);
        lemma_concat_flats_offset(fl, ks, jj);
        let off = concat_flats(fl, ks.take(jj)).len();
        let fc = fl[node.id() as int];
        let sub = fl[p].subrange(off as int, (off + fc.len()) as int);
        assert(sub == fc);
        assert(fl[p][off + pos] == sub[pos]);
        assert(fl[p].take(off + pos) =~= concat_flats(fl, ks.take(jj)) + fc.take(pos)) by {
            lemma_concat_flats_split(fl, ks, jj);
            assert forall|i: int| 0 <= i < off + pos implies fl[p].take(off + pos)[i] == (
            concat_flats(fl, ks.take(jj)) + fc.take(pos))[i] by {
                if i >= off {
                    assert(fl[p][i] == sub[i - off]);
                }
            }
        }
    }

    /// The number of elements before the one that `index` names.
    pub fn count_until<I: BTreeIdx<T>>(&self, index: I) -> (r: Option<usize>)
        requires
            self.wf(),
            index.spec_usable(self),
        ensures
            match index.spec_position(self) {
                Some(p) => r == Some(p as usize),
                None => r is None,
            },
    {
        let elem_idx = match index.get(self) {
            Some(e) => e,
            None => {
                return None;
            },
        };
        let ghost p = index.spec_position(self)->0;
        proof {
            self.lemma_leaf_of(elem_idx, p);
        }
        let mut node = self.element_info[elem_idx.get()].parent;
        let kids = self.nodes[node.get()].kids;
        let mut count: usize = match kids.position(elem_idx) {
            Some(c) => c,
            None => {
                return None;
            },
        };
        let mut level: usize = 0;
        while level < self.levels
            invariant
                self.wf(),
                node.id() < self.nodes@.len(),
                level <= self.levels,
                self.heights@[node.id() as int] == level,
                count < self.flats@[node.id() as int].len(),
                self.flats@[node.id() as int][count as int] == elem_idx,
                self.flats@[node.id() as int].len() <= self.elements@.len(),
                self.elements@.len() < usize::MAX,
            decreases self.levels - level,
        {
            proof {
                reveal(BTree::node_wf);
                reveal(BTree::wf);
                assert(self.node_wf(node.id() as int));
            }
            let parent = match self.nodes[node.get()].parent {
                Some(pp) => pp,
                None => {
                    return None;
                },
            };
            proof {
                let x = choose|x: Idx| x.id() == node.id() && #[trigger] self.kid_ids(parent.id() as int).contains(x);
                x.lemma_id_injective(node);
            }
            let (before, jj) = self.count_before(parent.get(), node);
            proof {
                self.lemma_step_up(node, parent, jj@, count as int);
                self.lemma_flat_len(parent.id() as int);
                reveal(BTree::node_wf);
                reveal(BTree::wf);
                assert(self.node_wf(parent.id() as int));
            }
            count = before + count;
            node = parent;
            level += 1;
        }
        proof {
            reveal(BTree::node_wf);
            reveal(BTree::wf);
            assert(self.node_wf(node.id() as int));
            assert(self.node_wf(self.root.id() as int));
            assert(self.ids()[count as int] == self.ids()[p]);
        }
        Some(count)
    }

    /// The sum of the summaries of the elements before the one that `index`
    /// names.
    pub fn sum_until<I: BTreeIdx<T>>(&self, index: I) -> (r: Option<T::Info>)
        requires
            self.wf(),
            index.spec_usable(self),
        ensures
            match index.spec_position(self) {
                Some(p) => r == Some(sum_infos(infos_of(self.view().take(p)))),
                None => r is None,
            },
    {
        let elem_idx = match index.get(self) {
            Some(e) => e,
            None => {
                return None;
            },
        };
        let ghost p = index.spec_position(self)->0;
        proof {
            self.lemma_leaf_of(elem_idx, p);
        }
        let mut node = self.element_info[elem_idx.get()].parent;
        let ghost leaf = node.id() as int;
        let kids = self.nodes[node.get()].kids;
        let before = match kids.position(elem_idx) {
            Some(c) => c,
            None => {
                return None;
            },
        };
        let mut sum = T::Info::zero();
        let mut j: usize = 0;
        let ghost fleaf = self.flats@[leaf];
        proof {
            assert(self.elem_infos(fleaf.take(0)) =~= Seq::<T::Info>::empty());
        }
        while j < before
            invariant
                self.wf(),
                kids == self.nodes@[leaf].kids,
                kids.wf(),
                fleaf == kids.ids(),
                fleaf == self.flats@[leaf],
                before < fleaf.len(),
                fleaf[before as int] == elem_idx,
                forall|i: int| 0 <= i < fleaf.len() ==> (#[trigger] fleaf[i]).id() < self.elements@.len(),
                j <= before,
                sum == sum_infos(self.elem_infos(fleaf.take(j as int))),
            decreases before - j,
        {
            let kid = kids.get(j);
            proof {
                assert(self.elem_infos(fleaf.take(j as int + 1)) =~= self.elem_infos(fleaf.take(j as int)).push(
                    self.elements@[kid.id() as int].spec_info()));
                assert(self.elem_infos(fleaf.take(j as int)).push(self.elements@[kid.id() as int].spec_info()).drop_last()
                    =~= self.elem_infos(fleaf.take(j as int)));
            }
            sum = sum.add(self.elements[kid.get()].get_info());
            j += 1;
        }
        let mut count: usize = j;
        let mut level: usize = 0;
        while level < self.levels
            invariant
                self.wf(),
                node.id() < self.nodes@.len(),
                level <= self.levels,
                self.heights@[node.id() as int] == level,
                count < self.flats@[node.id() as int].len(),
                self.flats@[node.id() as int][count as int] == elem_idx,
                sum == sum_infos(self.elem_infos(self.flats@[node.id() as int].take(count as int))),
                self.flats@[node.id() as int].len() <= self.elements@.len(),
                self.elements@.len() < usize::MAX,
            decreases self.levels - level,
        {
            proof {
                reveal(BTree::node_wf);
                reveal(BTree::wf);
                assert(self.node_wf(node.id() as int));
            }
            let parent = match self.nodes[node.get()].parent {
                Some(pp) => pp,
                None => {
                    return None;
                },
            };
            proof {
                let x = choose|x: Idx| x.id() == node.id() && #[trigger] self.kid_ids(parent.id() as int).contains(x);
                x.lemma_id_injective(node);
            }
            let (new_sum, jj) = self.add_infos_before(parent.get(), node, sum);
            let (before, jj2) = self.count_before(parent.get(), node);
            proof {
                let ks = self.kid_ids(parent.id() as int);
                if jj@ != jj2@ {
                    if jj@ < jj2@ {
                        assert(ks[jj@] == node);
                    } else {
                        assert(ks[jj2@] == node);
                    }
                    assert(false);
                }
                self.lemma_step_up(node, parent, jj@, count as int);
                self.lemma_flat_len(parent.id() as int);
                let fl = self.flats@;
                let a = self.elem_infos(concat_flats(fl, ks.take(jj@)));
                let b = self.elem_infos(fl[node.id() as int].take(count as int));
                assert(self.elem_infos(fl[parent.id() as int].take(before + count)) =~= a + b);
                lemma_sum_infos_concat(a, b);
                T::Info::lemma_add_comm(sum_infos(a), sum_infos(b));
                reveal(BTree::node_wf);
                reveal(BTree::wf);
                assert(self.node_wf(parent.id() as int));
            }
            sum = new_sum;
            count = before + count;
            node = parent;
            level += 1;
        }
        proof {
            reveal(BTree::node_wf);
            reveal(BTree::wf);
            assert(self.node_wf(node.id() as int));
            assert(self.node_wf(self.root.id() as int));
            assert(self.ids()[count as int] == self.ids()[p]);
            assert(count as int == p);
            assert(infos_of(self.view().take(p)) =~= self.elem_infos(self.ids().take(p)));
        }
        Some(sum)
    }

    /// The element that `index` names.
    pub fn get<I: BTreeIdx<T>>(&self, index: I) -> (r: Option<&T>)
        requires
            self.wf(),
            index.spec_usable(self),
        ensures
            match index.spec_position(self) {
                Some(p) => r == Some(&self.view()[p]),
                None => r is None,
            },
    {
        let idx = index.get(self);
        match idx {
            Some(i) => {
                proof {
                    reveal(BTree::wf);
                    reveal(BTree::node_wf);
                    assert(self.node_wf(self.root.id() as int));
                    let p = index.spec_position(self)->0;
                    assert(self.ids()[p] == self.flats@[self.root.id() as int][p]);
                    self.lemma_view_len();
                }
                Some(&self.elements[i.get()])
            },
            None => None,
        }
    }

    /// The element on which the running total of `get`'s weights passes
    /// `index`, and what is left of `index` there.
    pub fn key<M: BTreeMeasure<T::Info>>(&self, index: usize, get: &M) -> (r: Option<(&T, usize)>)
        requires
            self.wf(),
            self.total_weight(get) <= usize::MAX,
        ensures
            match locate(self.weights(get), index as int, false) {
                Some((j, k)) => r == Some((&self.view()[j], k as usize)),
                None => r is None,
            },
    {
        match self.find(false, index, get) {
            Some((idx, remainder)) => {
                proof {
                    self.lemma_found(get, index as int, false);
                }
                Some((&self.elements[idx.get()], remainder))
            },
            None => None,
        }
    }

    /// Like `key`, but an element whose running total reaches `index`
    /// exactly is taken.
    pub fn key_leq<M: BTreeMeasure<T::Info>>(&self, index: usize, get: &M) -> (r: Option<(&T, usize)>)
        requires
            self.wf(),
            self.total_weight(get) <= usize::MAX,
        ensures
            match locate(self.weights(get), index as int, true) {
                Some((j, k)) => r == Some((&self.view()[j], k as usize)),
                None => r is None,
            },
    {
        match self.find(true, index, get) {
            Some((idx, remainder)) => {
                proof {
                    self.lemma_found(get, index as int, true);
                }
                Some((&self.elements[idx.get()], remainder))
            },
            None => None,
        }
    }

    pub(crate) proof fn lemma_found<M: BTreeMeasure<T::Info>>(&self, get: &M, key: int, inclusive: bool)
        requires
            self.wf(),
            key >= 0,
            locate(self.weights(get), key, inclusive) is Some,
        ensures
            ({
                let (j, k) = locate(self.weights(get), key, inclusive)->0;
                &&& 0 <= j < self.spec_len()
                &&& 0 <= k <= key
                &&& self.ids()[j].id() < self.elements@.len()
                &&& self.view()[j] == self.elements@[self.ids()[j].id() as int]
            }),
    {
        reveal(BTree::wf);
        reveal(BTree::node_wf);
        crate::info::lemma_locate_result(self.weights(get), key, inclusive);
        let (j, k) = locate(self.weights(get), key, inclusive)->0;
        assert(self.weights(get).len() == self.view().len());
        self.lemma_view_len();
        assert(0 <= j < self.spec_len());
        assert(self.node_wf(self.root.id() as int));
        assert(self.ids()[j] == self.flats@[self.root.id() as int][j]);
        assert(self.ids()[j].id() < self.elements@.len());
        assert(0 <= k <= key);
    }

    /// The handle of the element at position `index`.
    pub fn get_idx(&self, index: usize) -> (r: Option<ElemIdx>)
        requires
            self.wf(),
        ensures
            index < self.spec_len() ==> (r matches Some(h) && h.handle() == self.ids()[index as int]),
            index >= self.spec_len() ==> r is None,
    {
        proof {
            self.lemma_count_weights();
            lemma_locate_ones(self.spec_len(), index as int, false);
        }
        match self.find(false, index, &CountMeasure) {
            Some((idx, _)) => Some(ElemIdx::from_idx(idx)),
            None => None,
        }
    }

    /// Like `key`, giving the element's handle.
    pub fn key_idx<M: BTreeMeasure<T::Info>>(&self, index: usize, get: &M) -> (r: Option<(ElemIdx, usize)>)
        requires
            self.wf(),
            self.total_weight(get) <= usize::MAX,
        ensures
            match locate(self.weights(get), index as int, false) {
                Some((j, k)) => r matches Some((h, rem)) && h.handle() == self.ids()[j] && rem == k,
                None => r is None,
            },
    {
        match self.find(false, index, get) {
            Some((idx, remainder)) => {
                proof {
                    self.lemma_found(get, index as int, false);
                }
                Some((ElemIdx::from_idx(idx), remainder))
            },
            None => None,
        }
    }

    /// Like `key_leq`, giving the element's handle.
    pub fn key_leq_idx<M: BTreeMeasure<T::Info>>(&self, index: usize, get: &M) -> (r: Option<(ElemIdx, usize)>)
        requires
            self.wf(),
            self.total_weight(get) <= usize::MAX,
        ensures
            match locate(self.weights(get), index as int, true) {
                Some((j, k)) => r matches Some((h, rem)) && h.handle() == self.ids()[j] && rem == k,
                None => r is None,
            },
    {
        match self.find(true, index, get) {
            Some((idx, remainder)) => {
                proof {
                    self.lemma_found(get, index as int, true);
                }
                Some((ElemIdx::from_idx(idx), remainder))
            },
            None => None,
        }
    }

    /// The handle of the last element, if there is one.
    pub fn last_idx(&self) -> (r: Option<ElemIdx>)
        requires
            self.wf(),
        ensures
            self.spec_len() > 0 ==> (r matches Some(h) && h.handle() == self.ids()[self.spec_len() - 1]),
            self.spec_len() == 0 ==> r is None,
    {
        proof {
            self.lemma_count_weights();
        }
        let len = self.len();
        proof {
            lemma_locate_ones(self.spec_len(), len as int, true);
        }
        match self.find(true, len, &CountMeasure) {
            Some((idx, _)) => Some(ElemIdx::from_idx(idx)),
            None => None,
        }
    }
}

} // verus!
