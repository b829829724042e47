use immutable_seq::digit::Digit;
use immutable_seq::finger_tree::{deep, empty, single, LazyTree};
use immutable_seq::iter::{iter, Iter};
use immutable_seq::node::{leaf, node2, node3, Node};
use immutable_seq::{finger_tree, node};
use std::rc::Rc;

fn drain(mut it: Iter<u32>) -> Vec<u32> {
    let mut out = Vec::new();
    while let Some(x) = it.next() {
        out.push(*x);
    }
    out
}

fn sample_node() -> Rc<Node<u32>> {
    node2(node3(leaf(0), leaf(1), leaf(2)), node2(leaf(3), leaf(4)))
}

#[test]
fn test_digit_iter() {
    let digit: Digit<u32> = Digit::Four(leaf(0), leaf(1), leaf(2), leaf(3));
    let result: Vec<u32> = drain(digit.iter());
    let expected: Vec<u32> = vec![0, 1, 2, 3];
    assert_eq!(result, expected);
}

#[test]
fn test_node_iter() {
    let tree = sample_node();
    let result: Vec<u32> = drain(tree.iter());
    let expected: Vec<u32> = vec![0, 1, 2, 3, 4];
    assert_eq!(result, expected);
}

#[test]
fn node_test_tree23_measure() {
    let tree = sample_node();
    assert_eq!(tree.measure(), 5);
}

#[test]
fn finger_tree_test_iter_empty() {
    let tree: LazyTree<u32> = empty();
    let result: Vec<u32> = drain(iter(&tree));
    let expected: Vec<u32> = vec![];
    assert_eq!(result, expected);
}

#[test]
fn test_iter_single() {
    let tree: LazyTree<u32> = single(leaf(0));
    let result: Vec<u32> = drain(iter(&tree));
    let expected: Vec<u32> = vec![0];
    assert_eq!(result, expected);
}

#[test]
fn test_iter_inner_empty() {
    let tree: LazyTree<u32> = deep(
        Digit::One(node2(leaf(0), leaf(1))),
        deep(
            Digit::One(node2(node3(leaf(2), leaf(3), leaf(4)), node2(leaf(5), leaf(6)))),
            empty(),
            Digit::One(node2(node2(leaf(7), leaf(8)), node2(leaf(9), leaf(10)))),
        ),
        Digit::Two(node2(leaf(11), leaf(12)), node2(leaf(13), leaf(14))),
    );
    let result: Vec<u32> = drain(iter(&tree));
    let expected: Vec<u32> = (0..15).collect();
    assert_eq!(result, expected);
}

#[test]
fn test_iter_inner_single() {
    let tree: LazyTree<u32> = deep(
        Digit::One(node2(leaf(0), leaf(1))),
        deep(
            Digit::One(node2(node3(leaf(2), leaf(3), leaf(4)), node2(leaf(5), leaf(6)))),
            single(node2(node2(leaf(7), leaf(8)), node2(leaf(9), leaf(10)))),
            Digit::One(node2(node2(leaf(11), leaf(12)), node2(leaf(13), leaf(14)))),
        ),
        Digit::Two(node2(leaf(15), leaf(16)), node2(leaf(17), leaf(18))),
    );
    let result: Vec<u32> = drain(iter(&tree));
    let expected: Vec<u32> = (0..19).collect();
    assert_eq!(result, expected);
}

#[test]
fn node_lookup_adjust_and_split_once() {
    let n = sample_node();
    for i in 0..5usize {
        assert_eq!(*node::lookup(i, &n), i as u32);
    }
    let m = node::adjust(Rc::new(40), 4, &n);
    assert_eq!(drain(m.iter()), vec![0, 1, 2, 3, 40]);
    assert_eq!(drain(n.iter()), vec![0, 1, 2, 3, 4]);
    let (before, x, after) = node::split_once(3, &n);
    assert!(before.is_some());
    assert_eq!(drain(x.iter()), vec![3, 4]);
    assert!(after.is_none());
}

#[test]
fn finger_tree_ends_split_and_adjust() {
    let mut t: LazyTree<u32> = empty();
    for i in 0..30 {
        t = finger_tree::snoc_node(t, leaf(i));
    }
    assert_eq!(drain(iter(&finger_tree::pop_front(&t))), (1..30).collect::<Vec<u32>>());
    assert_eq!(drain(iter(&finger_tree::pop_back(&t))), (0..29).collect::<Vec<u32>>());
    let (b, x, a) = finger_tree::split(17, &t);
    assert_eq!(drain(iter(&b)), (0..17).collect::<Vec<u32>>());
    assert_eq!(drain(x.iter()), vec![17]);
    assert_eq!(drain(iter(&a)), (18..30).collect::<Vec<u32>>());
    assert_eq!(*finger_tree::lookup(29, &t), 29);
    let u = finger_tree::adjust(Rc::new(100), 0, &t);
    assert_eq!(*finger_tree::lookup(0, &u), 100);
    assert_eq!(*finger_tree::lookup(0, &t), 0);
}
