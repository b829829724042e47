//! A persistent sequence: a finger tree whose leaves are the elements, each
//! measuring one.
use vstd::prelude::*;
use std::rc::Rc;
use crate::finger_tree::{self, LazyTree, lazy_ok, lemma_lazy_wf, lemma_leaf};
use crate::node;
use crate::iter::{self, Iter};

verus! {

/// An immutable sequence. Every operation returns a new sequence that shares
/// structure with the old one, which stays valid.
pub struct Sequence<T> {
    tree: LazyTree<T>,
}

impl<T> View for Sequence<T> {
    type V = Seq<T>;

    closed spec fn view(&self) -> Seq<T> {
        self.tree.key().view
    }
}

impl<T> Sequence<T> {
    #[verifier::type_invariant]
    closed spec fn wf(&self) -> bool {
        lazy_ok(self.tree, 0)
    }

    fn from_tree(tree: LazyTree<T>) -> (r: Self)
        requires
            lazy_ok(tree, 0),
        ensures
            r@ == tree.key().view,
    {
        Sequence { tree }
    }

    /// The empty sequence.
    pub fn empty() -> (r: Self)
        ensures
            r@ == Seq::<T>::empty(),
    {
        Sequence::from_tree(finger_tree::empty())
    }

    /// The sequence holding `x` alone.
    pub fn singleton(x: T) -> (r: Self)
        ensures
            r@ == seq![x],
    {
        Sequence::from_tree(finger_tree::single(node::leaf(x)))
    }

    /// The number of elements.
    pub fn len(&self) -> (r: usize)
        ensures
            r == self@.len(),
    {
        proof {
            use_type_invariant(self);
            lemma_lazy_wf(self.tree, 0);
        }
        finger_tree::measure(&self.tree)
    }

    /// Whether the sequence has no elements.
    pub fn is_empty(&self) -> (r: bool)
        ensures
            r == (self@.len() == 0),
    {
        self.len() == 0
    }

    /// The sequence with `x` added at the front.
    pub fn push_front(&self, x: T) -> (r: Self)
        requires
            self@.len() < usize::MAX,
        ensures
            r@ == seq![x] + self@,
    {
        proof {
            use_type_invariant(self);
        }
        Sequence::from_tree(finger_tree::cons_node(node::leaf(x), self.tree.share()))
    }

    /// The sequence with `x` added at the back.
    pub fn push_back(&self, x: T) -> (r: Self)
        requires
            self@.len() < usize::MAX,
        ensures
            r@ == self@.push(x),
    {
        proof {
            use_type_invariant(self);
        }
        let leaf = node::leaf(x);
        let r = Sequence::from_tree(finger_tree::snoc_node(self.tree.share(), leaf));
        assert(r@ =~= self@.push(x));
        r
    }

    /// The concatenation of `self` and `other`.
    pub fn append(&self, other: &Sequence<T>) -> (r: Self)
        requires
            self@.len() + other@.len() <= usize::MAX,
        ensures
            r@ == self@ + other@,
    {
        proof {
            use_type_invariant(self);
            use_type_invariant(other);
        }
        Sequence::from_tree(finger_tree::tree_tree(self.tree.share(), other.tree.share()))
    }

    /// The element at position `i`, if there is one.
    pub fn get(&self, i: usize) -> (r: Option<Rc<T>>)
        ensures
            r is Some <==> i < self@.len(),
            r matches Some(x) ==> *x == self@[i as int],
    {
        proof {
            use_type_invariant(self);
            lemma_lazy_wf(self.tree, 0);
        }
        if i >= self.len() {
            return None;
        }
        Some(finger_tree::lookup(i, &self.tree))
    }

    /// The element at position `i`, which must exist.
    pub fn index(&self, i: usize) -> (r: Rc<T>)
        requires
            i < self@.len(),
        ensures
            *r == self@[i as int],
    {
        proof {
            use_type_invariant(self);
            lemma_lazy_wf(self.tree, 0);
        }
        finger_tree::lookup(i, &self.tree)
    }

    /// The first element, if there is one.
    pub fn front(&self) -> (r: Option<Rc<T>>)
        ensures
            r is Some <==> self@.len() > 0,
            r matches Some(x) ==> *x == self@[0],
    {
        self.get(0)
    }

    /// The last element, if there is one.
    pub fn back(&self) -> (r: Option<Rc<T>>)
        ensures
            r is Some <==> self@.len() > 0,
            r matches Some(x) ==> *x == self@.last(),
    {
        let n = self.len();
        if n == 0 {
            None
        } else {
            self.get(n - 1)
        }
    }

    /// The sequence without its first element; empty stays empty.
    pub fn pop_front(&self) -> (r: Self)
        ensures
            r@ == if self@.len() == 0 {
                self@
            } else {
                self@.drop_first()
            },
    {
        proof {
            use_type_invariant(self);
        }
        let t = finger_tree::pop_front(&self.tree);
        proof {
            if self@.len() == 0 {
                assert(t.key().view =~= self@);
            }
        }
        Sequence::from_tree(t)
    }

    /// The sequence without its last element; empty stays empty.
    pub fn pop_back(&self) -> (r: Self)
        ensures
            r@ == if self@.len() == 0 {
                self@
            } else {
                self@.drop_last()
            },
    {
        proof {
            use_type_invariant(self);
        }
        let t = finger_tree::pop_back(&self.tree);
        proof {
            if self@.len() == 0 {
                assert(t.key().view =~= self@);
            }
        }
        Sequence::from_tree(t)
    }

    /// A copy sharing all structure.
    pub fn share(&self) -> (r: Self)
        ensures
            r@ == self@,
    {
        proof {
            use_type_invariant(self);
        }
        Sequence::from_tree(self.tree.share())
    }

    /// The sequence with element `i` replaced by `x`; unchanged when `i` is
    /// out of range.
    pub fn update(&self, i: usize, x: T) -> (r: Self)
        ensures
            r@ == if i < self@.len() {
                self@.update(i as int, x)
            } else {
                self@
            },
    {
        proof {
            use_type_invariant(self);
            lemma_lazy_wf(self.tree, 0);
        }
        if i >= self.len() {
            return self.share();
        }
        Sequence::from_tree(finger_tree::adjust(Rc::new(x), i, &self.tree))
    }

    /// The sequence with element `i` replaced by `f` of it; unchanged when
    /// `i` is out of range.
    pub fn adjust<F: FnOnce(&T) -> T>(&self, i: usize, f: F) -> (r: Self)
        requires
            i < self@.len() ==> f.requires((&self@[i as int],)),
        ensures
            i >= self@.len() ==> r@ == self@,
            i < self@.len() ==> exists|y: T|
                f.ensures((&self@[i as int],), y) && r@ == self@.update(i as int, y),
    {
        match self.get(i) {
            None => self.share(),
            Some(x) => {
                let y = f(&*x);
                self.update(i, y)
            },
        }
    }

    /// The first `count` elements, or all of them.
    pub fn truncate(&self, count: usize) -> (r: Self)
        ensures
            r@ == if count < self@.len() {
                self@.subrange(0, count as int)
            } else {
                self@
            },
    {
        let (before, _) = self.split(count);
        before
    }

    /// All but the first `count` elements; empty when `count` reaches the
    /// length.
    pub fn skip(&self, count: usize) -> (r: Self)
        ensures
            r@ == if count < self@.len() {
                self@.subrange(count as int, self@.len() as int)
            } else {
                Seq::<T>::empty()
            },
    {
        let (_, after) = self.split(count);
        after
    }

    /// The first `n` elements and the rest; when `n` reaches the length, the
    /// whole sequence and an empty one.
    pub fn split(&self, n: usize) -> (r: (Self, Self))
        ensures
            (r.0@, r.1@) == split_at(self@, n as int),
    {
        proof {
            use_type_invariant(self);
            lemma_lazy_wf(self.tree, 0);
        }
        if n >= self.len() {
            let e = Sequence::empty();
            assert(e@ =~= Seq::<T>::empty());
            return (self.share(), e);
        }
        let (before, x, after) = finger_tree::split(n, &self.tree);
        proof {
            lemma_leaf(&*x);
        }
        let a = finger_tree::cons_node(x, after);
        proof {
            assert(before.key().view =~= self@.subrange(0, n as int));
            assert(a.key().view =~= self@.subrange(n as int, self@.len() as int));
        }
        (Sequence::from_tree(before), Sequence::from_tree(a))
    }

    /// The sequence without element `i`; unchanged when `i` is out of range.
    pub fn remove(&self, i: usize) -> (r: Self)
        ensures
            r@ == if i < self@.len() {
                self@.remove(i as int)
            } else {
                self@
            },
    {
        proof {
            use_type_invariant(self);
            lemma_lazy_wf(self.tree, 0);
        }
        if i >= self.len() {
            return self.share();
        }
        let (before, x, after) = finger_tree::split(i, &self.tree);
        proof {
            lemma_leaf(&*x);
        }
        let t = finger_tree::tree_tree(before, after);
        proof {
            assert(t.key().view =~= self@.remove(i as int));
        }
        Sequence::from_tree(t)
    }

    /// The sequence with `x` inserted before element `i`, or at the back when
    /// `i` is out of range.
    pub fn insert(&self, i: usize, x: T) -> (r: Self)
        requires
            self@.len() < usize::MAX,
        ensures
            r@ == if i < self@.len() {
                self@.insert(i as int, x)
            } else {
                self@.push(x)
            },
    {
        proof {
            use_type_invariant(self);
            lemma_lazy_wf(self.tree, 0);
        }
        if i >= self.len() {
            return self.push_back(x);
        }
        let (before, y, after) = finger_tree::split(i, &self.tree);
        proof {
            lemma_leaf(&*y);
        }
        let leaf = node::leaf(x);
        let b = finger_tree::snoc_node(before, leaf);
        let a = finger_tree::cons_node(y, after);
        let t = finger_tree::tree_tree(b, a);
        proof {
            assert(t.key().view =~= self@.insert(i as int, x));
        }
        Sequence::from_tree(t)
    }
}

impl<T> Sequence<T> {
    /// A traversal of the elements, front to back.
    pub fn iter(&self) -> (r: Iter<T>)
        ensures
            r.wf(),
            r@ == self@,
    {
        proof {
            use_type_invariant(self);
            lemma_lazy_wf(self.tree, 0);
        }
        iter::iter(&self.tree)
    }

    /// The elements in a vector, collected by a traversal; as many as `len`
    /// counts.
    pub fn to_vec(&self) -> (r: Vec<Rc<T>>)
        ensures
            r.len() == self@.len(),
            forall|i: int| 0 <= i < r.len() ==> *#[trigger] r@[i] == self@[i],
    {
        let mut it = self.iter();
        let mut out: Vec<Rc<T>> = Vec::new();
        let n = self.len();
        while out.len() < n
            invariant
                it.wf(),
                n == self@.len(),
                out.len() <= n,
                it@ == self@.subrange(out.len() as int, n as int),
                forall|i: int| 0 <= i < out.len() ==> *#[trigger] out@[i] == self@[i],
            decreases n - out.len(),
        {
            let x = it.next();
            match x {
                Some(x) => {
                    out.push(x);
                },
                None => {
                    proof {
                        assert(false);
                    }
                },
            }
        }
        out
    }

    /// The sequence of the elements of `v`, in order.
    pub fn from_vec(v: Vec<T>) -> (r: Self)
        ensures
            r@ == v@,
    {
        let ghost all = v@;
        let _n = v.len();
        let mut v = v;
        let mut acc = Sequence::empty();
        while v.len() > 0
            invariant
                v@ + acc@ == all,
                all.len() <= usize::MAX,
            decreases v.len(),
        {
            let x = v.pop().unwrap();
            acc = acc.push_front(x);
            assert(v@ + acc@ =~= all);
        }
        assert(acc@ =~= all);
        acc
    }
}

impl<T> Clone for Sequence<T> {
    /// Another handle to the same sequence; nothing is copied.
    fn clone(&self) -> (r: Self)
        ensures
            r@ == self@,
    {
        self.share()
    }
}

/// The two parts of `s` split before position `n`: the first `n` elements
/// and the rest, or all of `s` and nothing when `n` reaches its length.
pub open spec fn split_at<T>(s: Seq<T>, n: int) -> (Seq<T>, Seq<T>) {
    if n < s.len() {
        (s.subrange(0, n), s.subrange(n, s.len() as int))
    } else {
        (s, Seq::empty())
    }
}

/// Splitting at any `n` up to the length gives a first part of length `n`,
/// and the two parts in order are the whole sequence again.
pub proof fn law_split_reassembles<T>(s: Seq<T>, n: int)
    requires
        0 <= n <= s.len(),
    ensures
        split_at(s, n).0 + split_at(s, n).1 == s,
        split_at(s, n).0.len() == n,
{
    assert(split_at(s, n).0 + split_at(s, n).1 =~= s);
}

} // verus!
