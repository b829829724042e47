use immutable_seq::digit::{add_2_digits, add_3_digits, split_once, Digit};
use immutable_seq::finger_tree::{
    cons_node, empty, force, measure, snoc_node, tree_tree, FingerTree,
};
use immutable_seq::node::{leaf, node2};
use immutable_seq::seq::Sequence;
use std::rc::Rc;

fn items<T: Copy>(s: &Sequence<T>) -> Vec<T> {
    let mut it = s.iter();
    let mut out = Vec::new();
    while let Some(x) = it.next() {
        out.push(*x);
    }
    out
}

fn upto(n: u64) -> Sequence<u64> {
    Sequence::from_vec((0..n).collect())
}

#[test]
fn ten_elements_front_back_and_drain() {
    let s = upto(10);
    assert_eq!(s.front().map(|x| *x), Some(0));
    assert_eq!(s.back().map(|x| *x), Some(9));
    let mut s = s;
    let mut seen = Vec::new();
    for _ in 0..10 {
        seen.push(*s.front().unwrap());
        s = s.pop_front();
    }
    assert_eq!(seen, (0..10).collect::<Vec<u64>>());
    assert!(s.is_empty());
    assert!(s.front().is_none());
}

#[test]
fn split_five_of_ten() {
    let (a, b) = upto(10).split(5);
    assert_eq!(items(&a), vec![0, 1, 2, 3, 4]);
    assert_eq!(items(&b), vec![5, 6, 7, 8, 9]);
}

#[test]
fn insert_ninety_nine_at_three() {
    let s = upto(10).insert(3, 99);
    assert_eq!(items(&s), vec![0, 1, 2, 99, 3, 4, 5, 6, 7, 8, 9]);
}

#[test]
fn append_twenty_and_twenty() {
    let a = upto(20);
    let b = Sequence::from_vec((20..40).collect());
    assert_eq!(items(&a.append(&b)), (0..40).collect::<Vec<u64>>());
}

#[test]
fn split_reassembles_at_every_point() {
    for len in [0u64, 1, 2, 7, 33, 100] {
        let s = upto(len);
        for n in 0..=len as usize {
            let (a, b) = s.split(n);
            assert_eq!(a.len(), n);
            let mut joined = items(&a);
            joined.extend(items(&b));
            assert_eq!(joined, items(&s));
            assert_eq!(items(&a.append(&b)), items(&s));
        }
    }
}

#[test]
fn split_past_the_end_keeps_everything() {
    let s = upto(5);
    let (a, b) = s.split(9);
    assert_eq!(items(&a), vec![0, 1, 2, 3, 4]);
    assert!(b.is_empty());
    assert_eq!(items(&s.truncate(9)), vec![0, 1, 2, 3, 4]);
    assert!(s.skip(5).is_empty());
}

#[test]
fn len_counts_the_elements_iterated() {
    let mut s: Sequence<u64> = Sequence::empty();
    for i in 0..300u64 {
        s = if i % 3 == 0 { s.push_front(i) } else { s.push_back(i) };
        assert_eq!(s.len(), items(&s).len());
        assert_eq!(s.to_vec().len(), s.len());
    }
}

#[test]
fn out_of_range_edits_change_nothing() {
    let s = upto(4);
    assert_eq!(items(&s.update(4, 7)), vec![0, 1, 2, 3]);
    assert_eq!(items(&s.adjust(9, |x| x + 1)), vec![0, 1, 2, 3]);
    assert_eq!(items(&s.remove(4)), vec![0, 1, 2, 3]);
    assert_eq!(items(&s.insert(4, 7)), vec![0, 1, 2, 3, 7]);
    let e: Sequence<u64> = Sequence::empty();
    assert!(e.pop_front().is_empty());
    assert!(e.pop_back().is_empty());
}

#[test]
fn old_versions_stay_valid() {
    let a = upto(50);
    let b = a.push_back(50).update(0, 100).remove(10);
    assert_eq!(items(&a), (0..50).collect::<Vec<u64>>());
    assert_eq!(b.len(), 50);
    assert_eq!(b.get(0).map(|x| *x), Some(100));
    assert_eq!(b.get(10).map(|x| *x), Some(11));
}

#[test]
fn large_sequence_lookup_and_concat() {
    let a = upto(1000);
    for i in (0..1000).step_by(37) {
        assert_eq!(a.get(i as usize).map(|x| *x), Some(i));
    }
    let b = a.append(&a).append(&a);
    assert_eq!(b.len(), 3000);
    assert_eq!(b.get(2500).map(|x| *x), Some(500));
    assert_eq!(items(&b.skip(2990)), (990..1000).collect::<Vec<u64>>());
}

struct Lcg(u64);

impl Lcg {
    fn next(&mut self, bound: u64) -> u64 {
        self.0 = self.0.wrapping_mul(6364136223846793005).wrapping_add(1442695040888963407);
        (self.0 >> 33) % bound
    }
}

#[test]
fn matches_a_vector_on_a_long_trace() {
    let mut rng = Lcg(12345);
    let mut s: Sequence<u64> = Sequence::empty();
    let mut v: Vec<u64> = Vec::new();
    for step in 0..3000u64 {
        let n = v.len() as u64;
        match rng.next(12) {
            0 => {
                s = s.push_front(step);
                v.insert(0, step);
            }
            1 => {
                s = s.push_back(step);
                v.push(step);
            }
            2 => {
                s = s.pop_front();
                if !v.is_empty() {
                    v.remove(0);
                }
            }
            3 => {
                s = s.pop_back();
                v.pop();
            }
            4 => {
                let k = rng.next(n + 2) as usize;
                let (a, b) = s.split(k);
                s = b.append(&a);
                let k = k.min(v.len());
                let tail = v.split_off(k);
                v = [tail, v].concat();
            }
            5 => {
                let k = rng.next(n + 2) as usize;
                s = s.remove(k);
                if k < v.len() {
                    v.remove(k);
                }
            }
            6 => {
                let k = rng.next(n + 2) as usize;
                s = s.insert(k, step);
                if k < v.len() {
                    v.insert(k, step);
                } else {
                    v.push(step);
                }
            }
            7 => {
                let k = rng.next(n + 2) as usize;
                s = s.update(k, step);
                if k < v.len() {
                    v[k] = step;
                }
            }
            8 => {
                let k = rng.next(n + 2) as usize;
                s = s.adjust(k, |x| x * 2);
                if k < v.len() {
                    v[k] *= 2;
                }
            }
            9 => {
                let k = rng.next(n + 2) as usize;
                s = s.truncate(k);
                v.truncate(k);
            }
            10 => {
                let k = rng.next(n / 4 + 2) as usize;
                s = s.skip(k);
                v = v.split_off(k.min(v.len()));
            }
            _ => {
                let t = s.share();
                s = s.append(&t);
                let w = v.clone();
                v.extend(w);
                if v.len() > 400 {
                    s = s.truncate(200);
                    v.truncate(200);
                }
            }
        }
        assert_eq!(s.len(), v.len());
        assert_eq!(s.is_empty(), v.is_empty());
        assert_eq!(s.front().map(|x| *x), v.first().copied());
        assert_eq!(s.back().map(|x| *x), v.last().copied());
        let k = rng.next(n + 2) as usize;
        assert_eq!(s.get(k).map(|x| *x), v.get(k).copied());
        if step % 50 == 0 {
            assert_eq!(items(&s), v);
        }
    }
    assert_eq!(items(&s), v);
}

#[test]
fn forcing_twice_gives_the_memoized_value() {
    let t = cons_node(leaf(1u32), snoc_node(empty(), leaf(2u32)));
    let a = force(&t);
    let b = force(&t);
    assert!(Rc::ptr_eq(&a, &b));
    let c = t.share();
    assert!(Rc::ptr_eq(&a, &force(&c)));
}

#[test]
fn redirect_collapses_to_the_target_value() {
    let x = cons_node(leaf(1u32), empty());
    let j = tree_tree(empty(), x.share());
    let a = force(&j);
    let b = force(&x);
    assert!(Rc::ptr_eq(&a, &b));
    assert!(Rc::ptr_eq(&a, &force(&j)));
}

#[test]
fn lazy_measure_needs_no_forcing() {
    let mut t = empty();
    for i in 0..100u32 {
        t = cons_node(leaf(i), t);
    }
    assert_eq!(measure(&t), 100);
    match &*force(&t) {
        FingerTree::Deep(n, _, _, _) => assert_eq!(*n, 100),
        _ => panic!("a hundred leaves make a deep tree"),
    }
}

fn leaves(d: &Digit<u32>) -> Vec<u32> {
    let mut it = d.iter();
    let mut out = Vec::new();
    while let Some(x) = it.next() {
        out.push(*x);
    }
    out
}

#[test]
fn two_digits_regroup_into_pairs_and_triples() {
    let d = add_2_digits(Digit::One(leaf(0)), Digit::One(leaf(1)));
    match &d {
        Digit::One(a) => assert_eq!(a.measure(), 2),
        _ => panic!("two trees make one pair"),
    }
    let d = add_2_digits(
        Digit::Four(leaf(0), leaf(1), leaf(2), leaf(3)),
        Digit::Three(leaf(4), leaf(5), leaf(6)),
    );
    match &d {
        Digit::Three(a, b, c) => {
            assert_eq!((a.measure(), b.measure(), c.measure()), (2, 2, 3));
        }
        _ => panic!("seven trees make two pairs and a triple"),
    }
    assert_eq!(leaves(&d), (0..7).collect::<Vec<u32>>());
}

#[test]
fn three_digits_regroup_into_triples() {
    let d = add_3_digits(
        Digit::Four(leaf(0), leaf(1), leaf(2), leaf(3)),
        Digit::Four(leaf(4), leaf(5), leaf(6), leaf(7)),
        Digit::Four(leaf(8), leaf(9), leaf(10), leaf(11)),
    );
    match &d {
        Digit::Four(a, b, c, e) => {
            assert_eq!((a.measure(), b.measure(), c.measure(), e.measure()), (3, 3, 3, 3));
        }
        _ => panic!("twelve trees make four triples"),
    }
    assert_eq!(leaves(&d), (0..12).collect::<Vec<u32>>());
}

#[test]
fn digit_split_once_around_a_leaf() {
    let d = Digit::Three(node2(leaf(0), leaf(1)), node2(leaf(2), leaf(3)), node2(leaf(4), leaf(5)));
    let (before, x, after) = split_once(3, &d);
    assert_eq!(before.map(|b| leaves(&b)), Some(vec![0, 1]));
    assert_eq!(x.measure(), 2);
    assert_eq!(after.map(|a| leaves(&a)), Some(vec![4, 5]));
    let (before, _, after) = split_once(0, &d);
    assert!(before.is_none());
    assert_eq!(after.map(|a| leaves(&a)), Some(vec![2, 3, 4, 5]));
}
