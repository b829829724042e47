use immutable_seq::seq::Sequence;

fn items<T: Copy>(s: &Sequence<T>) -> Vec<T> {
    let mut it = s.iter();
    let mut out = Vec::new();
    while let Some(x) = it.next() {
        out.push(*x);
    }
    out
}

fn ten() -> Sequence<u32> {
    Sequence::from_vec(vec![0, 1, 2, 3, 4, 5, 6, 7, 8, 9])
}

fn upto(n: usize) -> Sequence<usize> {
    Sequence::from_vec((0..n).collect())
}

#[test]
fn seq_test_iter_empty() {
    let result: Vec<u32> = items(&Sequence::empty());
    let expected: Vec<u32> = vec![];
    assert_eq!(result, expected);
}

#[test]
fn test_empty_is_empty() {
    assert!(Sequence::<u32>::empty().is_empty());
}

#[test]
fn test_empty_len() {
    assert_eq!(Sequence::<u32>::empty().len(), 0);
}

#[test]
fn test_iter_singleton() {
    let result: Vec<u32> = items(&Sequence::singleton(42));
    let expected: Vec<u32> = vec![42];
    assert_eq!(result, expected);
}

#[test]
fn test_singleton_not_is_empty() {
    assert!(!Sequence::singleton(7u32).is_empty());
}

#[test]
fn test_singleton_len() {
    assert_eq!(Sequence::singleton(7u32).len(), 1);
}

#[test]
fn test_iter_push_front() {
    let mut seq: Sequence<u32> = Sequence::empty();
    for i in 0..20 {
        seq = seq.push_front(i);
    }
    let result: Vec<u32> = items(&seq);
    let mut expected: Vec<u32> = (0..20).collect();
    expected.reverse();
    assert_eq!(result, expected);
}

#[test]
fn test_iter_push_back() {
    let mut seq: Sequence<u32> = Sequence::empty();
    for i in 0..20 {
        seq = seq.push_back(i);
    }
    let result: Vec<u32> = items(&seq);
    let expected: Vec<u32> = (0..20).collect();
    assert_eq!(result, expected);
}

#[test]
fn test_vec_macro() {
    let seq: Sequence<u32> = ten();
    let result: Vec<u32> = items(&seq);
    let expected: Vec<u32> = vec![0, 1, 2, 3, 4, 5, 6, 7, 8, 9];
    assert_eq!(result, expected);
}

#[test]
fn test_iter_append() {
    let mut xs: Sequence<u32> = Sequence::empty();
    let mut ys: Sequence<u32> = Sequence::empty();
    for i in 0..20 {
        xs = xs.push_back(i);
        ys = ys.push_back(20 + i);
    }
    let seq = xs.append(&ys);
    let result: Vec<u32> = items(&seq);
    let expected: Vec<u32> = (0..40).collect();
    assert_eq!(result, expected);
}

#[test]
fn test_front_empty() {
    assert!(Sequence::<u32>::empty().front().is_none());
}

#[test]
fn test_front_nonempty() {
    let seq = ten();
    assert_eq!(seq.front().map(|x| *x), Some(0));
}

#[test]
fn test_front_pop_front() {
    let mut seq = ten();
    let mut vec: Vec<u32> = vec![];
    loop {
        if let Some(front) = seq.front() {
            vec.push(*front);
        } else {
            break;
        }
        seq = seq.pop_front();
    }
    assert_eq!(vec, vec![0, 1, 2, 3, 4, 5, 6, 7, 8, 9]);
}

#[test]
fn test_back_empty() {
    assert!(Sequence::<u32>::empty().back().is_none());
}

#[test]
fn test_back_nonempty() {
    let seq = ten();
    assert_eq!(seq.back().map(|x| *x), Some(9));
}

#[test]
fn test_back_pop_back() {
    let mut seq = ten();
    let mut vec: Vec<u32> = vec![];
    loop {
        if let Some(back) = seq.back() {
            vec.push(*back);
        } else {
            break;
        }
        seq = seq.pop_back();
    }
    assert_eq!(vec, vec![9, 8, 7, 6, 5, 4, 3, 2, 1, 0]);
}

#[test]
fn test_get_empty() {
    let seq: Sequence<u32> = Sequence::empty();
    assert!(seq.get(0).is_none());
    assert!(seq.get(1).is_none());
}

#[test]
fn test_get_nonempty() {
    let seq = upto(10);
    for i in 0..seq.len() {
        assert_eq!(seq.get(i).map(|x| *x), Some(i))
    }
}

#[test]
fn test_get_out_of_bounds() {
    let seq = ten();
    assert!(seq.get(10).is_none())
}

#[test]
fn test_index() {
    let seq = upto(10);
    for i in 0..seq.len() {
        assert_eq!(*seq.index(i), i)
    }
}

#[test]
fn test_split_empty() {
    let seq: Sequence<usize> = Sequence::empty();
    assert!(seq.split(0).0.is_empty());
    assert!(seq.split(0).1.is_empty());
    assert!(seq.split(1).0.is_empty());
    assert!(seq.split(1).1.is_empty());
}

#[test]
fn test_split_singleton() {
    let seq: Sequence<usize> = Sequence::singleton(42);
    assert_eq!(seq.split(0).0.len(), 0);
    assert_eq!(seq.split(0).1.len(), 1);
    assert_eq!(seq.split(1).0.len(), 1);
    assert_eq!(seq.split(1).1.len(), 0);
}

#[test]
fn test_split() {
    let n = 10;
    let seq = upto(n);
    for i in 0..n {
        let (before, after) = seq.split(i);
        let before: Vec<usize> = items(&before);
        let before_expected: Vec<usize> = (0..i).collect();
        let after: Vec<usize> = items(&after);
        let after_expected: Vec<usize> = (i..n).collect();
        assert_eq!(before, before_expected);
        assert_eq!(after, after_expected);
    }
}

#[test]
fn test_truncate() {
    let n = 10;
    let seq = upto(n);
    for i in 0..n {
        let res: Vec<usize> = items(&seq.truncate(i));
        let expected: Vec<usize> = (0..i).collect();
        assert_eq!(res, expected);
    }
}

#[test]
fn test_skip() {
    let n = 10;
    let seq = upto(n);
    for i in 0..n {
        let res: Vec<usize> = items(&seq.skip(i));
        let expected: Vec<usize> = (i..n).collect();
        assert_eq!(res, expected);
    }
}

#[test]
fn test_remove() {
    let n = 10;
    let seq = upto(n);
    for i in 0..n {
        let res: Vec<usize> = items(&seq.remove(i));
        let expected: Vec<usize> = (0..n).filter(|&j| j != i).collect();
        assert_eq!(res, expected);
    }
}

#[test]
fn test_insert() {
    let n = 10;
    let seq = upto(n);
    for i in 0..n {
        let res: Vec<usize> = items(&seq.insert(i, n));
        let mut expected: Vec<usize> = (0..n).collect();
        expected.insert(i, n);
        assert_eq!(res, expected);
    }
}

#[test]
fn test_adjust() {
    let n = 10;
    let seq = upto(n);
    for i in 0..n {
        let res: Vec<usize> = items(&seq.adjust(i, |x| x + 1));
        let mut expected: Vec<usize> = (0..n).collect();
        expected[i] += 1;
        assert_eq!(res, expected);
    }
}

#[test]
fn test_update() {
    let n = 10;
    let seq = upto(n);
    for i in 0..n {
        let res: Vec<usize> = items(&seq.update(i, n));
        let mut expected: Vec<usize> = (0..n).collect();
        expected[i] = n;
        assert_eq!(res, expected);
    }
}

#[test]
fn test_check_temp() {
    // Singleton(48), Singleton(0), PopBack(1), Insert(2, 1, 0), Back(3),
    // replayed on sequences and on vectors side by side.
    let s0 = Sequence::singleton(48u32);
    let v0 = vec![48u32];
    let s1 = Sequence::singleton(0u32);
    let v1 = vec![0u32];
    let s2 = s1.pop_back();
    let mut v2 = v1.clone();
    v2.pop();
    let s3 = s2.insert(1, 0);
    let mut v3 = v2.clone();
    if 1 < v3.len() {
        v3.insert(1, 0);
    } else {
        v3.push(0);
    }
    assert_eq!(s3.back().map(|x| *x), v3.last().copied());
    assert_eq!(items(&s0), v0);
    assert_eq!(items(&s1), v1);
    assert_eq!(items(&s2), v2);
    assert_eq!(items(&s3), v3);
}
