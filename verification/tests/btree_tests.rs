use ted::btree::BTree;
use ted::info::CountMeasure;
use ted::number::{ByValue, Number as TestData};

fn validate(tree: &BTree<TestData>, size: usize) {
    for i in 0..size {
        assert_eq!(i, tree.get(i).unwrap().0);
    }

    let mut total = 0;
    for i in 0..size {
        let next = total + i;
        if next == total {
            continue;
        }

        let test_cases = [
            total,
            (3 * total + next) / 4,
            (total + next) / 2,
            (total + 3 * next) / 4,
            next - 1,
        ];
        for key in test_cases.into_iter() {
            let (value, remainder) = tree.key(key, &ByValue).unwrap();
            assert_eq!(i, value.0);
            assert_eq!(key - total, remainder);

            let sum = tree.sum_until(i).unwrap().value();
            assert_eq!(total, sum);
        }

        total = next;
    }
}

const LIB_TREE_SIZE: usize = 10;
const TREE_SIZE: usize = 100000;

#[test]
fn lib_forward_insert() {
    let mut tree = BTree::new();
    for i in 0..LIB_TREE_SIZE {
        tree.insert(i, TestData(i));
    }
    validate(&tree, LIB_TREE_SIZE);
}

#[test]
fn lib_reverse_insert() {
    let mut tree = BTree::new();
    for i in 0..LIB_TREE_SIZE {
        tree.insert(0, TestData(LIB_TREE_SIZE - 1 - i));
    }
    validate(&tree, LIB_TREE_SIZE);
}

#[test]
fn btree_forward_insert() {
    let mut tree = BTree::new();
    for i in 0..TREE_SIZE {
        tree.insert(i, TestData(i));
    }
    validate(&tree, TREE_SIZE);
}

#[test]
fn btree_reverse_insert() {
    let mut tree = BTree::new();
    for i in 0..TREE_SIZE {
        tree.insert(0, TestData(TREE_SIZE - 1 - i));
    }
    validate(&tree, TREE_SIZE);
}

#[test]
fn insert_then_get_gives_back_the_element() {
    let mut tree = BTree::new();
    tree.insert(0, TestData(5));
    tree.insert(0, TestData(3));
    tree.insert(1, TestData(4));
    assert_eq!(tree.len(), 3);
    assert_eq!(tree.get(0usize).unwrap().0, 3);
    assert_eq!(tree.get(1usize).unwrap().0, 4);
    assert_eq!(tree.get(2usize).unwrap().0, 5);
    assert!(tree.get(3usize).is_none());
    assert_eq!(tree.info().value(), 12);
}

#[test]
fn handles_survive_later_inserts() {
    let mut tree = BTree::new();
    let a = tree.add(TestData(1));
    let b = tree.add(TestData(2));
    for i in 0..200 {
        tree.insert(0, TestData(100 + i));
    }
    assert_eq!(tree.get(a).unwrap().0, 1);
    assert_eq!(tree.get(b).unwrap().0, 2);
    assert_eq!(tree.count_until(a), Some(200));
    assert_eq!(tree.count_until(b), Some(201));
    let c = tree.insert_before(b, TestData(7));
    assert_eq!(tree.count_until(c), Some(201));
    assert_eq!(tree.count_until(b), Some(202));
    let d = tree.insert_after(a, TestData(8));
    assert_eq!(tree.count_until(d), Some(201));
    assert_eq!(tree.get(d).unwrap().0, 8);
}

#[test]
fn key_and_key_leq_at_boundaries() {
    let mut tree = BTree::new();
    tree.add(TestData(2));
    tree.add(TestData(0));
    tree.add(TestData(3));
    // weights 2, 0, 3: key 2 falls in the third element, key_leq in the first
    let (v, rem) = tree.key(2, &ByValue).unwrap();
    assert_eq!((v.0, rem), (3, 0));
    let (v, rem) = tree.key_leq(2, &ByValue).unwrap();
    assert_eq!((v.0, rem), (2, 2));
    let (v, rem) = tree.key_leq(4, &ByValue).unwrap();
    assert_eq!((v.0, rem), (3, 2));
    // at the total weight only the inclusive search finds the last element
    assert!(tree.key(5, &ByValue).is_none());
    let (v, rem) = tree.key_leq(5, &ByValue).unwrap();
    assert_eq!((v.0, rem), (3, 3));
    assert!(tree.key_leq(6, &ByValue).is_none());
}

#[test]
fn index_lookups_by_count() {
    let mut tree = BTree::new();
    for i in 0..50 {
        tree.add(TestData(i));
    }
    let h = tree.get_idx(10).unwrap();
    assert_eq!(tree.get(h).unwrap().0, 10);
    assert!(tree.get_idx(50).is_none());
    let last = tree.last_idx().unwrap();
    assert_eq!(tree.get(last).unwrap().0, 49);
    let (h, rem) = tree.key_idx(7, &CountMeasure).unwrap();
    assert_eq!((tree.get(h).unwrap().0, rem), (7, 0));
    let (h, rem) = tree.key_leq_idx(8, &CountMeasure).unwrap();
    assert_eq!((tree.get(h).unwrap().0, rem), (7, 1));
    let (h, rem) = tree.key_leq_idx(50, &CountMeasure).unwrap();
    assert_eq!((tree.get(h).unwrap().0, rem), (49, 1));
    assert!(tree.key_leq_idx(51, &CountMeasure).is_none());
    assert_eq!(tree.sum_until(4usize).unwrap().value(), 6);
    assert!(tree.sum_until(50usize).is_none());
}

#[test]
fn empty_tree_has_nothing() {
    let tree: BTree<TestData> = BTree::new();
    assert_eq!(tree.len(), 0);
    assert!(tree.last_idx().is_none());
    assert!(tree.get(0usize).is_none());
    assert!(tree.key_leq(0, &CountMeasure).is_none());
    assert!(tree.key(0, &CountMeasure).is_none());
    assert_eq!(tree.info().value(), 0);
}

#[test]
fn get_mut_replaces_the_element() {
    let mut tree = BTree::new();
    for i in 0..40 {
        tree.add(TestData(i));
    }
    let out = tree.get_mut(5usize, |x: &TestData| (TestData(x.0 * 10), x.0));
    assert_eq!(out, Some(5));
    assert_eq!(tree.get(5usize).unwrap().0, 50);
    assert_eq!(tree.info().value(), (0..40).sum::<usize>() + 45);
    assert_eq!(tree.get_mut(40usize, |x: &TestData| (*x, 0)), None);
}

#[test]
fn a_new_tree_has_room() {
    let mut tree: BTree<TestData> = BTree::new();
    assert!(tree.can_insert());
    let h = tree.add(TestData(3));
    assert!(tree.can_insert());
    let last = tree.last_idx().unwrap();
    assert_eq!(tree.count_until(last), tree.count_until(h));
}
