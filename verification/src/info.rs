use vstd::prelude::*;

verus! {

/// Summary data kept for every subtree of a `BTree`.
///
/// Summaries are combined with `add`, which must form a commutative monoid
/// with `zero` as its unit: the tree adds the summary of a new element to
/// every node above it, whatever the element's position.
pub trait BTreeInfo: Sized + Copy {
    spec fn spec_add(self, other: Self) -> Self;

    spec fn spec_zero() -> Self;

    proof fn lemma_add_assoc(a: Self, b: Self, c: Self)
        ensures
            a.spec_add(b).spec_add(c) == a.spec_add(b.spec_add(c)),
    ;

    proof fn lemma_add_comm(a: Self, b: Self)
        ensures
            a.spec_add(b) == b.spec_add(a),
    ;

    proof fn lemma_add_zero(a: Self)
        ensures
            a.spec_add(Self::spec_zero()) == a,
    ;

    fn add(self, other: Self) -> (r: Self)
        ensures
            r == self.spec_add(other),
    ;

    fn zero() -> (r: Self)
        ensures
            r == Self::spec_zero(),
    ;
}

/// An element that can be stored in a `BTree`.
pub trait BTreeItem: Sized {
    type Info: BTreeInfo;

    spec fn spec_info(&self) -> Self::Info;

    fn get_info(&self) -> (r: Self::Info)
        ensures
            r == self.spec_info(),
    ;
}

/// A way of weighing subtrees by their element count and summary, used to
/// search a tree by a running total. The weight must be additive.
pub trait BTreeMeasure<I: BTreeInfo> {
    spec fn spec_weight(&self, count: nat, info: I) -> nat;

    proof fn lemma_weight_additive(&self, c1: nat, i1: I, c2: nat, i2: I)
        ensures
            self.spec_weight(c1 + c2, i1.spec_add(i2)) == self.spec_weight(c1, i1)
                + self.spec_weight(c2, i2),
    ;

    proof fn lemma_weight_zero(&self)
        ensures
            self.spec_weight(0, I::spec_zero()) == 0,
    ;

    fn weight(&self, count: usize, info: I) -> (r: usize)
        requires
            self.spec_weight(count as nat, info) <= usize::MAX,
        ensures
            r == self.spec_weight(count as nat, info),
    ;
}

/// Weighs a subtree by the number of elements in it.
pub struct CountMeasure;

impl<I: BTreeInfo> BTreeMeasure<I> for CountMeasure {
    open spec fn spec_weight(&self, count: nat, info: I) -> nat {
        count
    }

    proof fn lemma_weight_additive(&self, c1: nat, i1: I, c2: nat, i2: I) {
    }

    proof fn lemma_weight_zero(&self) {
    }

    fn weight(&self, count: usize, info: I) -> (r: usize) {
        count
    }
}

/// The left fold of `add` over a sequence of summaries, starting from zero.
pub open spec fn sum_infos<I: BTreeInfo>(s: Seq<I>) -> I
    decreases s.len(),
{
    if s.len() == 0 {
        I::spec_zero()
    } else {
        sum_infos(s.drop_last()).spec_add(s.last())
    }
}

/// The summaries of a sequence of items.
pub open spec fn infos_of<T: BTreeItem>(s: Seq<T>) -> Seq<T::Info> {
    s.map_values(|x: T| x.spec_info())
}

/// The sum of a sequence of weights.
pub open spec fn sum_nats(s: Seq<nat>) -> nat
    decreases s.len(),
{
    if s.len() == 0 {
        0
    } else {
        sum_nats(s.drop_last()) + s.last()
    }
}

pub proof fn lemma_zero_add<I: BTreeInfo>(a: I)
    ensures
        I::spec_zero().spec_add(a) == a,
{
    I::lemma_add_comm(I::spec_zero(), a);
    I::lemma_add_zero(a);
}

/// Summing a concatenation is adding the two sums.
pub proof fn lemma_sum_infos_concat<I: BTreeInfo>(a: Seq<I>, b: Seq<I>)
    ensures
        sum_infos(a + b) == sum_infos(a).spec_add(sum_infos(b)),
    decreases b.len(),
{
    if b.len() == 0 {
        assert(a + b =~= a);
        I::lemma_add_zero(sum_infos(a));
    } else {
        assert((a + b).drop_last() =~= a + b.drop_last());
        lemma_sum_infos_concat(a, b.drop_last());
        I::lemma_add_assoc(sum_infos(a), sum_infos(b.drop_last()), b.last());
    }
}

pub proof fn lemma_sum_infos_single<I: BTreeInfo>(x: I)
    ensures
        sum_infos(seq![x]) == x,
{
    assert(seq![x].drop_last() =~= Seq::<I>::empty());
    assert(sum_infos(Seq::<I>::empty()) == I::spec_zero());
    assert(seq![x].last() == x);
    lemma_zero_add(x);
}

/// Inserting one summary anywhere adds it to the sum.
pub proof fn lemma_sum_infos_insert<I: BTreeInfo>(s: Seq<I>, i: int, x: I)
    requires
        0 <= i <= s.len(),
    ensures
        sum_infos(s.insert(i, x)) == sum_infos(s).spec_add(x),
{
    let a = s.take(i);
    let b = s.skip(i);
    assert(s =~= a + b);
    assert(s.insert(i, x) =~= a + (seq![x] + b));
    lemma_sum_infos_concat(a, seq![x] + b);
    lemma_sum_infos_concat(seq![x], b);
    lemma_sum_infos_single(x);
    lemma_sum_infos_concat(a, b);
    I::lemma_add_comm(x, sum_infos(b));
    I::lemma_add_assoc(sum_infos(a), sum_infos(b), x);
}

pub proof fn lemma_sum_nats_concat(a: Seq<nat>, b: Seq<nat>)
    ensures
        sum_nats(a + b) == sum_nats(a) + sum_nats(b),
    decreases b.len(),
{
    if b.len() == 0 {
        assert(a + b =~= a);
    } else {
        assert((a + b).drop_last() =~= a + b.drop_last());
        lemma_sum_nats_concat(a, b.drop_last());
    }
}

/// The weight a measure gives a summed sequence is the sum of the weights of
/// its parts.
pub proof fn lemma_weight_of_sum<I: BTreeInfo, M: BTreeMeasure<I>>(m: &M, s: Seq<I>)
    ensures
        m.spec_weight(s.len(), sum_infos(s)) == sum_nats(
            s.map_values(|x: I| m.spec_weight(1, x)),
        ),
    decreases s.len(),
{
    let ws = s.map_values(|x: I| m.spec_weight(1, x));
    if s.len() == 0 {
        m.lemma_weight_zero();
    } else {
        let t = s.drop_last();
        lemma_weight_of_sum(m, t);
        assert(ws.drop_last() =~= t.map_values(|x: I| m.spec_weight(1, x)));
        m.lemma_weight_additive(t.len(), sum_infos(t), 1, s.last());
    }
}

/// Walks the weights from the left and stops at the first element whose
/// running total passes `key`, or reaches it when `inclusive`. Gives that
/// element's position and how far into it `key` falls.
pub open spec fn locate(ws: Seq<nat>, key: int, inclusive: bool) -> Option<(int, int)>
    decreases ws.len(),
{
    if ws.len() == 0 {
        None
    } else if key < ws[0] || (inclusive && key == ws[0]) {
        Some((0, key))
    } else {
        match locate(ws.drop_first(), key - ws[0], inclusive) {
            Some((j, r)) => Some((j + 1, r)),
            None => None,
        }
    }
}

pub proof fn lemma_sum_nats_single(x: nat)
    ensures
        sum_nats(seq![x]) == x,
{
    assert(seq![x].drop_last() =~= Seq::<nat>::empty());
    assert(seq![x].last() == x);
    assert(sum_nats(Seq::<nat>::empty()) == 0);
}

pub proof fn lemma_sum_nats_first(a: Seq<nat>)
    requires
        a.len() > 0,
    ensures
        sum_nats(a) == a[0] + sum_nats(a.drop_first()),
{
    assert(a =~= seq![a[0]] + a.drop_first());
    lemma_sum_nats_concat(seq![a[0]], a.drop_first());
    assert(seq![a[0]].drop_last() =~= Seq::<nat>::empty());
    assert(sum_nats(Seq::<nat>::empty()) == 0);
    assert(sum_nats(seq![a[0]]) == a[0]);
}

/// A weight is at most the sum it is part of.
pub proof fn lemma_sum_nats_member(a: Seq<nat>, i: int)
    requires
        0 <= i < a.len(),
    ensures
        a[i] <= sum_nats(a),
    decreases a.len(),
{
    if i < a.len() - 1 {
        lemma_sum_nats_member(a.drop_last(), i);
    }
}

/// Locating in a concatenation locates in the first part, or failing that,
/// in the second with what the first part weighs taken off.
pub proof fn lemma_locate_concat(a: Seq<nat>, b: Seq<nat>, key: int, inclusive: bool)
    ensures
        locate(a + b, key, inclusive) == match locate(a, key, inclusive) {
            Some(x) => Some(x),
            None => match locate(b, key - sum_nats(a), inclusive) {
                Some((j, r)) => Some((j + a.len(), r)),
                None => None,
            },
        },
    decreases a.len(),
{
    if a.len() == 0 {
        assert(a + b =~= b);
    } else {
        assert((a + b).drop_first() =~= a.drop_first() + b);
        assert((a + b)[0] == a[0]);
        lemma_locate_concat(a.drop_first(), b, key - a[0], inclusive);
        lemma_sum_nats_first(a);
    }
}

/// A non-empty list of weights locates `key` exactly when `key` falls short
/// of their sum, or reaches it when `inclusive`.
pub proof fn lemma_locate_some(a: Seq<nat>, key: int, inclusive: bool)
    requires
        a.len() > 0,
        key >= 0,
    ensures
        locate(a, key, inclusive) is Some <==> (key < sum_nats(a) || (inclusive && key
            == sum_nats(a))),
    decreases a.len(),
{
    lemma_sum_nats_first(a);
    if key < a[0] || (inclusive && key == a[0]) {
    } else if a.len() == 1 {
        assert(a.drop_first().len() == 0);
    } else {
        lemma_locate_some(a.drop_first(), key - a[0], inclusive);
    }
}

/// What a located position and remainder are: the remainder is `key` less
/// the weights before the position, and it falls within the weight there.
pub proof fn lemma_locate_result(a: Seq<nat>, key: int, inclusive: bool)
    requires
        locate(a, key, inclusive) is Some,
    ensures
        ({
            let (j, r) = locate(a, key, inclusive)->0;
            &&& 0 <= j < a.len()
            &&& (key >= 0 ==> 0 <= r <= key)
            &&& r == key - sum_nats(a.take(j))
            &&& (r < a[j] || (inclusive && r == a[j]))
        }),
    decreases a.len(),
{
    if key < a[0] || (inclusive && key == a[0]) {
        assert(a.take(0) =~= Seq::<nat>::empty());
        assert(sum_nats(Seq::<nat>::empty()) == 0);
    } else {
        lemma_locate_result(a.drop_first(), key - a[0], inclusive);
        assert(sum_nats(Seq::<nat>::empty()) == 0);
        assert(seq![a[0]].drop_last() =~= Seq::<nat>::empty());
        assert(seq![a[0]].last() == a[0]);
        assert(sum_nats(seq![a[0]]) == a[0]);
        let (j, r) = locate(a.drop_first(), key - a[0], inclusive)->0;
        assert(a.take(j + 1) =~= seq![a[0]] + a.drop_first().take(j));
        lemma_sum_nats_concat(seq![a[0]], a.drop_first().take(j));
        assert(seq![a[0]].drop_last() =~= Seq::<nat>::empty());
    }
}

/// The located position is the first that can hold `key`: the running
/// total after each earlier position has not passed `key` (nor reached it,
/// when `inclusive`).
pub proof fn lemma_locate_least(a: Seq<nat>, key: int, inclusive: bool)
    requires
        locate(a, key, inclusive) is Some,
    ensures
        ({
            let (j, _r) = locate(a, key, inclusive)->0;
            forall|k: int|
                0 <= k < j ==> {
                    &&& #[trigger] sum_nats(a.take(k + 1)) <= key
                    &&& (inclusive ==> sum_nats(a.take(k + 1)) < key)
                }
        }),
    decreases a.len(),
{
    if key < a[0] || (inclusive && key == a[0]) {
    } else {
        let b = a.drop_first();
        lemma_locate_result(a, key, inclusive);
        lemma_locate_least(b, key - a[0], inclusive);
        lemma_sum_nats_single(a[0]);
        let (j, _r) = locate(a, key, inclusive)->0;
        assert forall|k: int| 0 <= k < j implies {
            &&& #[trigger] sum_nats(a.take(k + 1)) <= key
            &&& (inclusive ==> sum_nats(a.take(k + 1)) < key)
        } by {
            assert(a.take(k + 1) =~= seq![a[0]] + b.take(k));
            lemma_sum_nats_concat(seq![a[0]], b.take(k));
            if k > 0 {
                assert(sum_nats(b.take((k - 1) + 1)) <= key - a[0]);
            } else {
                assert(b.take(0) =~= Seq::<nat>::empty());
                assert(sum_nats(Seq::<nat>::empty()) == 0);
            }
        }
    }
}

/// Locating among weights that are all one: past `key` lands on position
/// `key`; reaching it lands one before.
pub proof fn lemma_locate_ones(n: nat, key: int, inclusive: bool)
    requires
        key >= 0,
    ensures
        !inclusive ==> locate(Seq::new(n, |i: int| 1nat), key, inclusive) == (if key < n {
            Some((key, 0int))
        } else {
            None
        }),
        inclusive ==> locate(Seq::new(n, |i: int| 1nat), key, inclusive) == (if n == 0 || key > n {
            None
        } else if key == 0 {
            Some((0int, 0int))
        } else {
            Some((key - 1, 1int))
        }),
    decreases n,
{
    let ones = Seq::new(n, |i: int| 1nat);
    if n > 0 {
        assert(ones.drop_first() =~= Seq::new((n - 1) as nat, |i: int| 1nat));
        if key >= 1 {
            lemma_locate_ones((n - 1) as nat, key - 1, inclusive);
        }
    }
}

} // verus!
