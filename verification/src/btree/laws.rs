//! What holds across the operations of a `BTree`.
use super::{BTree, ElemIdx};
use crate::info::{
    infos_of, lemma_locate_least, lemma_locate_result, lemma_locate_some, locate, sum_infos, sum_nats, BTreeInfo, BTreeItem,
    BTreeMeasure,
};
use vstd::prelude::*;

verus! {

impl<T: BTreeItem> BTree<T> {
    /// Adds `element` at the end, and returns a handle to it.
    pub fn add(&mut self, element: T) -> (r: ElemIdx)
        requires
            old(self).wf(),
            old(self).has_room(),
        ensures
            final(self).wf(),
            final(self)@ == old(self)@.push(element),
            final(self).ids() == old(self).ids().push(r.handle()),
            !old(self).has_handle(r),
            old(self).compact() ==> final(self).compact(),
            final(self).has_handle(r),
            final(self).position_of(r) == old(self).spec_len(),
    {
        let n = self.len();
        let r = self.insert(n, element);
        proof {
            lemma_handle_at(*self, n as int, r);
            assert(old(self)@.insert(n as int, element) =~= old(self)@.push(element));
            assert(old(self).ids().insert(n as int, r.handle()) =~= old(self).ids().push(r.handle()));
        }
        r
    }
}

/// Reading back an insertion: the element inserted at position `i` is found
/// there, the elements before it stay where they were, and those after it
/// move up one.
pub proof fn lemma_insert_then_get<T: BTreeItem>(before: BTree<T>, after: BTree<T>, i: int, e: T)
    requires
        0 <= i <= before.spec_len(),
        after@ == before@.insert(i, e),
    ensures
        after.spec_len() == before.spec_len() + 1,
        after@[i] == e,
        forall|j: int| 0 <= j < i ==> #[trigger] after@[j] == before@[j],
        forall|j: int| i < j < after.spec_len() ==> #[trigger] after@[j] == before@[j - 1],
{
}

/// Handles stay valid across an insertion: the new handle names the new
/// element, at the position it was inserted at, and every handle of before
/// names the same element after, one place further on if it came at or
/// after that position.
pub proof fn lemma_insert_keeps_handles<T: BTreeItem>(
    before: BTree<T>,
    after: BTree<T>,
    i: int,
    h: ElemIdx,
    other: ElemIdx,
)
    requires
        after.wf(),
        0 <= i <= before.ids().len(),
        after.ids() == before.ids().insert(i, h.handle()),
        !before.has_handle(h),
        before.has_handle(other),
    ensures
        after.has_handle(h),
        after.position_of(h) == i,
        after.has_handle(other),
        after.position_of(other) == if before.position_of(other) < i {
            before.position_of(other)
        } else {
            before.position_of(other) + 1
        },
{
    after.lemma_ids_distinct();
    let ids = after.ids();
    assert(ids[i] == h.handle());
    let p = before.position_of(other);
    assert(before.ids()[p] == other.handle());
    let q = if p < i {
        p
    } else {
        p + 1
    };
    assert(ids[q] == other.handle());
}

/// What `key` and `find` return: an element exactly when `key` is less
/// than the total weight, or equal to it when the search is inclusive and
/// there is an element; that element is the one at which the running total
/// of the weights passes `key` (or reaches it, when inclusive), and `key`
/// lies past the elements before it by less than its weight, or by its
/// weight when the search is inclusive. It is the first such element: the
/// running total after each element before it has not passed `key` (nor
/// reached it, when inclusive).
pub proof fn lemma_found_position<T: BTreeItem, M: BTreeMeasure<T::Info>>(
    t: BTree<T>,
    m: &M,
    key: int,
    inclusive: bool,
)
    requires
        key >= 0,
    ensures
        locate(t.weights(m), key, inclusive) is Some <==> t.spec_len() > 0 && (key < sum_nats(
            t.weights(m),
        ) || (inclusive && key == sum_nats(t.weights(m)))),
        locate(t.weights(m), key, inclusive) matches Some((j, r)) ==> {
            &&& 0 <= j < t.spec_len()
            &&& 0 <= r <= key
            &&& sum_nats(t.weights(m).take(j)) + r == key
            &&& (r < t.weights(m)[j] || (inclusive && r == t.weights(m)[j]))
            &&& forall|k: int|
                0 <= k < j ==> {
                    &&& #[trigger] sum_nats(t.weights(m).take(k + 1)) <= key
                    &&& (inclusive ==> sum_nats(t.weights(m).take(k + 1)) < key)
                }
        },
{
    let ws = t.weights(m);
    if ws.len() > 0 {
        lemma_locate_some(ws, key, inclusive);
    }
    if locate(ws, key, inclusive) is Some {
        lemma_locate_result(ws, key, inclusive);
        lemma_locate_least(ws, key, inclusive);
    }
}

/// The sums before successive positions: the sum before position `p + 1`
/// is the sum before `p` with the summary of element `p` added.
pub proof fn lemma_sum_until_step<T: BTreeItem>(t: BTree<T>, p: int)
    requires
        0 <= p < t.spec_len(),
    ensures
        sum_infos(infos_of(t@.take(p + 1))) == sum_infos(infos_of(t@.take(p))).spec_add(
            t@[p].spec_info(),
        ),
{
    assert(infos_of(t@.take(p + 1)).drop_last() =~= infos_of(t@.take(p)));
}

/// The handle at position `j` names the element at position `j`: it is a
/// handle of the tree, and its position is `j`.
pub proof fn lemma_handle_at<T: BTreeItem>(t: BTree<T>, j: int, h: ElemIdx)
    requires
        t.wf(),
        0 <= j < t.ids().len(),
        h.handle() == t.ids()[j],
    ensures
        t.has_handle(h),
        t.position_of(h) == j,
{
    t.lemma_ids_distinct();
    let ids = t.ids();
    assert(ids.contains(h.handle()));
    let i = ids.index_of(h.handle());
    assert(0 <= i < ids.len() && ids[i] == h.handle());
}

/// Searching for a handle agrees with searching for the element: the handle
/// that `key_idx` (or `key_leq_idx`, when `inclusive`) gives is a handle of
/// the tree, at the position of the element that `key` (or `key_leq`)
/// gives, so that `get` with it gives that element; the remainders are the
/// same.
pub proof fn lemma_key_idx_names_key<T: BTreeItem, M: BTreeMeasure<T::Info>>(
    t: BTree<T>,
    m: &M,
    key: int,
    inclusive: bool,
    h: ElemIdx,
)
    requires
        t.wf(),
        locate(t.weights(m), key, inclusive) matches Some((j, _r)) && h.handle() == t.ids()[j],
    ensures
        ({
            let (j, _r) = locate(t.weights(m), key, inclusive)->0;
            &&& t.has_handle(h)
            &&& t.position_of(h) == j
            &&& t@[t.position_of(h)] == t@[j]
        }),
{
    lemma_locate_result(t.weights(m), key, inclusive);
    t.lemma_view_len();
    let (j, _r) = locate(t.weights(m), key, inclusive)->0;
    lemma_handle_at(t, j, h);
}

} // verus!
