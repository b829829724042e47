use immutable_seq::finger_tree::{cons_node, empty, force, tree_tree, FingerTree};
use immutable_seq::lazy::{Produces, Thunk};
use immutable_seq::node::{leaf, Node};
use std::sync::{Arc, Mutex};

#[test]
fn lazy_test_thunk_should_evaluate_when_accessed() {
    let val = Thunk::deferred(|| 7);
    assert_eq!(*val.force(), 7);
}

#[test]
fn lazy_test_thunk_should_evaluate_through_redirect() {
    // Joining an empty tree with a pending one redirects to the pending one.
    let target = cons_node(leaf(7), empty());
    let val = tree_tree(empty(), target.share());
    match &*force(&val) {
        FingerTree::Single(n) => match &**n {
            Node::Leaf(x) => assert_eq!(**x, 7),
            _ => panic!("a single leaf was expected"),
        },
        _ => panic!("a single leaf was expected"),
    }
    assert!(std::rc::Rc::ptr_eq(&force(&val), &force(&target)));
}

#[test]
fn lazy_test_thunk_should_evaluate_just_once() {
    let counter = Arc::new(Mutex::new(0));
    let counter_clone = counter.clone();
    let val = Thunk::deferred(move || {
        let mut data = counter.lock().unwrap();
        *data += 1;
    });
    val.force();
    val.force();
    assert_eq!(*counter_clone.lock().unwrap(), 1);
}

#[test]
fn lazy_test_thunk_should_not_evaluate_if_not_accessed() {
    let counter = Arc::new(Mutex::new(0));
    let counter_clone = counter.clone();
    let _val: Thunk<(), _, Produces<_>> = Thunk::deferred(move || {
        let mut data = counter.lock().unwrap();
        *data += 1;
    });
    assert_eq!(*counter_clone.lock().unwrap(), 0);
}

#[test]
fn lazy_test_strict_should_produce_already_evaluated_thunk() {
    let x: Thunk<i32, fn() -> i32, Produces<fn() -> i32>> = Thunk::ready(10);
    assert_eq!(*x.force(), 10);
}

#[test]
fn clones_share_one_memo() {
    let counter = Arc::new(Mutex::new(0));
    let counter_clone = counter.clone();
    let val = Thunk::deferred(move || {
        let mut data = counter.lock().unwrap();
        *data += 1;
        *data * 10
    });
    let other = val.share();
    let a = other.force();
    let b = val.force();
    assert_eq!((*a, *b), (10, 10));
    assert!(std::rc::Rc::ptr_eq(&a, &b));
    assert_eq!(*counter_clone.lock().unwrap(), 1);
}
