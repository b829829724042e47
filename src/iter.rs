//! Left-to-right traversal with an explicit stack, so that the traversal
//! uses no call stack in proportion to the height of the tree.
use vstd::prelude::*;
use std::rc::Rc;
use crate::node::{Node, lemma_view_nonempty};
use crate::digit::{Digit, lemma_flat_small};
use crate::finger_tree::{
    FingerTree, LazyTree, lazy_wf, force, lemma_lazy_wf, lemma_no_leaves, lemma_height_hint,
};

verus! {

/// Pending work of a traversal: one element, the leaves of a 2-3 tree, or
/// the leaves of a lazy finger tree.
pub enum IterFrame<T> {
    Element(Rc<T>),
    NodeFrame(Rc<Node<T>>),
    FingerTreeFrame(LazyTree<T>),
}

impl<T> IterFrame<T> {
    pub open spec fn view(&self) -> Seq<T> {
        match self {
            IterFrame::Element(x) => seq![**x],
            IterFrame::NodeFrame(n) => n.view(),
            IterFrame::FingerTreeFrame(t) => t.key().view,
        }
    }

    pub open spec fn ok(&self) -> bool {
        match self {
            IterFrame::Element(_) => true,
            IterFrame::NodeFrame(n) => n.wf(),
            IterFrame::FingerTreeFrame(t) => lazy_wf(*t),
        }
    }

    /// A bound on the steps needed to reach the frame's first element.
    pub open spec fn potential(&self) -> nat {
        match self {
            IterFrame::Element(_) => 1,
            IterFrame::NodeFrame(n) => (3 * n.view().len() - 1) as nat,
            IterFrame::FingerTreeFrame(t) => 3 * t.key().view.len() + t.key().rank + 2,
        }
    }
}

/// The leaves of a stack of frames, the top (last) first.
pub open spec fn frames_view<T>(s: Seq<IterFrame<T>>) -> Seq<T>
    decreases s.len(),
{
    if s.len() == 0 {
        Seq::empty()
    } else {
        s.last().view() + frames_view(s.drop_last())
    }
}

pub open spec fn frames_potential<T>(s: Seq<IterFrame<T>>) -> nat
    decreases s.len(),
{
    if s.len() == 0 {
        0
    } else {
        s.last().potential() + frames_potential(s.drop_last())
    }
}

pub open spec fn frames_ok<T>(s: Seq<IterFrame<T>>) -> bool {
    forall|k: int| 0 <= k < s.len() ==> (#[trigger] s[k]).ok()
}

proof fn lemma_push<T>(s: Seq<IterFrame<T>>, f: IterFrame<T>)
    ensures
        frames_view(s.push(f)) == f.view() + frames_view(s),
        frames_potential(s.push(f)) == f.potential() + frames_potential(s),
{
    assert(s.push(f).drop_last() =~= s);
}

/// A traversal of the leaves of a tree, left to right.
pub struct Iter<T> {
    stack: Vec<IterFrame<T>>,
}

impl<T> View for Iter<T> {
    type V = Seq<T>;

    /// The elements still to come.
    closed spec fn view(&self) -> Seq<T> {
        frames_view(self.stack@)
    }
}

impl<T> Iter<T> {
    /// The frames are well formed.
    pub closed spec fn wf(&self) -> bool {
        frames_ok(self.stack@)
    }

    /// A traversal that yields nothing.
    pub fn empty() -> (r: Self)
        ensures
            r.wf(),
            r@ == Seq::<T>::empty(),
    {
        Iter { stack: Vec::new() }
    }

    /// A traversal of the leaves of a lazy finger tree.
    pub fn of_tree(t: LazyTree<T>) -> (r: Self)
        requires
            lazy_wf(t),
        ensures
            r.wf(),
            r@ == t.key().view,
    {
        let mut r = Iter::empty();
        r.push_frame(IterFrame::FingerTreeFrame(t));
        r
    }

    /// A traversal of the leaves of the trees of a digit.
    pub fn of_digit(d: &Digit<T>) -> (r: Self)
        requires
            d.wf(d.nodes()[0].height()),
        ensures
            r.wf(),
            r@ == d.view(),
    {
        let mut r = Iter::empty();
        r.push_digit(d);
        assert(r@ =~= d.view());
        r
    }

    fn push_frame(&mut self, f: IterFrame<T>)
        requires
            old(self).wf(),
            f.ok(),
        ensures
            final(self).wf(),
            final(self)@ == f.view() + old(self)@,
            frames_potential(final(self).stack@) == f.potential() + frames_potential(
                old(self).stack@,
            ),
    {
        proof {
            lemma_push(self.stack@, f);
        }
        self.stack.push(f);
    }

    /// Schedules the trees of `d`, the first on top.
    fn push_digit(&mut self, d: &Digit<T>)
        requires
            old(self).wf(),
            d.wf(d.nodes()[0].height()),
        ensures
            final(self).wf(),
            final(self)@ == d.view() + old(self)@,
            frames_potential(final(self).stack@) + d.nodes().len() == 3 * d.view().len()
                + frames_potential(old(self).stack@),
    {
        proof {
            lemma_flat_small(d.nodes());
            lemma_view_nonempty(&*d.nodes()[0]);
            if d.nodes().len() > 1 {
                lemma_view_nonempty(&*d.nodes()[1]);
            }
            if d.nodes().len() > 2 {
                lemma_view_nonempty(&*d.nodes()[2]);
            }
            if d.nodes().len() > 3 {
                lemma_view_nonempty(&*d.nodes()[3]);
            }
        }
        match d {
            Digit::One(a) => {
                self.push_frame(IterFrame::NodeFrame(a.clone()));
            },
            Digit::Two(a, b) => {
                self.push_frame(IterFrame::NodeFrame(b.clone()));
                self.push_frame(IterFrame::NodeFrame(a.clone()));
            },
            Digit::Three(a, b, c) => {
                self.push_frame(IterFrame::NodeFrame(c.clone()));
                self.push_frame(IterFrame::NodeFrame(b.clone()));
                self.push_frame(IterFrame::NodeFrame(a.clone()));
            },
            Digit::Four(a, b, c, e) => {
                self.push_frame(IterFrame::NodeFrame(e.clone()));
                self.push_frame(IterFrame::NodeFrame(c.clone()));
                self.push_frame(IterFrame::NodeFrame(b.clone()));
                self.push_frame(IterFrame::NodeFrame(a.clone()));
            },
        }
        assert(self@ =~= d.view() + old(self)@);
    }

    /// The next element, or `None` when the traversal is done.
    pub fn next(&mut self) -> (r: Option<Rc<T>>)
        requires
            old(self).wf(),
        ensures
            final(self).wf(),
            old(self)@.len() == 0 ==> r is None && final(self)@ == old(self)@,
            old(self)@.len() > 0 ==> (r matches Some(x) && *x == old(self)@[0] && final(self)@
                == old(self)@.drop_first()),
    {
        let ghost target = self@;
        loop
            invariant
                self.wf(),
                self@ == target,
                target == old(self)@,
            decreases frames_potential(self.stack@),
        {
            let ghost before = self.stack@;
            match self.stack.pop() {
                None => {
                    assert(before.len() == 0);
                    assert(self.stack@ == before);
                    assert(target =~= Seq::<T>::empty());
                    return None;
                },
                Some(f) => {
                    proof {
                        assert(before =~= self.stack@.push(f));
                        lemma_push(self.stack@, f);
                        assert(f == before[before.len() - 1]);
                        assert forall|k: int| 0 <= k < self.stack@.len() implies (
                        #[trigger] self.stack@[k]).ok() by {
                            assert(self.stack@[k] == before[k]);
                        }
                    }
                    match f {
                        IterFrame::Element(x) => {
                            assert(target == seq![*x] + self@);
                            assert(target[0] == *x);
                            assert(self@ =~= target.drop_first());
                            return Some(x);
                        },
                        IterFrame::NodeFrame(n) => self.expand_node(n),
                        IterFrame::FingerTreeFrame(t) => self.expand_tree(t),
                    }
                },
            }
        }
    }

    /// Schedules the children of `n`, or its element when it is a leaf.
    fn expand_node(&mut self, n: Rc<Node<T>>)
        requires
            old(self).wf(),
            n.wf(),
        ensures
            final(self).wf(),
            final(self)@ == n.view() + old(self)@,
            frames_potential(final(self).stack@) < (3 * n.view().len() - 1) + frames_potential(
                old(self).stack@,
            ),
    {
        match &*n {
            Node::Leaf(x) => {
                self.push_frame(IterFrame::Element(x.clone()));
            },
            Node::Node2(_, a, b) => {
                proof {
                    lemma_view_nonempty(&**a);
                    lemma_view_nonempty(&**b);
                }
                self.push_frame(IterFrame::NodeFrame(b.clone()));
                self.push_frame(IterFrame::NodeFrame(a.clone()));
                assert(self@ =~= n.view() + old(self)@);
            },
            Node::Node3(_, a, b, c) => {
                proof {
                    lemma_view_nonempty(&**a);
                    lemma_view_nonempty(&**b);
                    lemma_view_nonempty(&**c);
                }
                self.push_frame(IterFrame::NodeFrame(c.clone()));
                self.push_frame(IterFrame::NodeFrame(b.clone()));
                self.push_frame(IterFrame::NodeFrame(a.clone()));
                assert(self@ =~= n.view() + old(self)@);
            },
        }
    }

    /// Forces `t` and schedules its digits and spine.
    fn expand_tree(&mut self, t: LazyTree<T>)
        requires
            old(self).wf(),
            lazy_wf(t),
        ensures
            final(self).wf(),
            final(self)@ == t.key().view + old(self)@,
            frames_potential(final(self).stack@) < 3 * t.key().view.len() + t.key().rank + 2
                + frames_potential(old(self).stack@),
    {
        let v = force(&t);
        proof {
            if v.view().len() == 0 {
                lemma_no_leaves(&*v, t.key().height);
            }
            lemma_height_hint(&*v, t.key().height);
        }
        self.expand_value(&*v);
    }

    /// Schedules the digits and spine of a tree.
    fn expand_value(&mut self, v: &FingerTree<T>)
        requires
            old(self).wf(),
            v.wf(v.height_hint()),
        ensures
            final(self).wf(),
            final(self)@ == v.view() + old(self)@,
            frames_potential(final(self).stack@) <= 3 * v.view().len() + v.rank()
                + frames_potential(old(self).stack@),
    {
        let ghost h = v.height_hint();
        match v {
            FingerTree::Empty => {
                assert(v.view() + old(self)@ =~= old(self)@);
            },
            FingerTree::Single(x) => {
                proof {
                    lemma_view_nonempty(&**x);
                }
                self.push_frame(IterFrame::NodeFrame(x.clone()));
            },
            FingerTree::Deep(_, l, m, r) => {
                proof {
                    lemma_lazy_wf(*m, h + 1);
                    lemma_flat_small(l.nodes());
                    lemma_flat_small(r.nodes());
                    assert(r.nodes()[0].height() == h);
                }
                self.push_digit(r);
                self.push_frame(IterFrame::FingerTreeFrame(m.share()));
                self.push_digit(l);
                assert(self@ =~= v.view() + old(self)@);
            },
        }
    }
}

impl<T> Node<T> {
    /// A traversal of the leaves, left to right.
    pub fn iter(&self) -> (r: Iter<T>)
        requires
            self.wf(),
        ensures
            r.wf(),
            r@ == self.view(),
    {
        let mut it = Iter::empty();
        match self {
            Node::Leaf(x) => {
                it.push_frame(IterFrame::Element(x.clone()));
                assert(it@ =~= self.view());
            },
            Node::Node2(_, a, b) => {
                it.push_frame(IterFrame::NodeFrame(b.clone()));
                it.push_frame(IterFrame::NodeFrame(a.clone()));
                assert(it@ =~= self.view());
            },
            Node::Node3(_, a, b, c) => {
                it.push_frame(IterFrame::NodeFrame(c.clone()));
                it.push_frame(IterFrame::NodeFrame(b.clone()));
                it.push_frame(IterFrame::NodeFrame(a.clone()));
                assert(it@ =~= self.view());
            },
        }
        it
    }
}

impl<T> FingerTree<T> {
    /// A traversal of the leaves, left to right.
    pub fn iter(&self) -> (r: Iter<T>)
        requires
            self.wf(self.height_hint()),
        ensures
            r.wf(),
            r@ == self.view(),
    {
        let mut it = Iter::empty();
        it.expand_value(self);
        assert(it@ =~= self.view());
        it
    }
}

impl<T> Digit<T> {
    /// A traversal of the leaves of the digit's trees, left to right.
    pub fn iter(&self) -> (r: Iter<T>)
        requires
            self.wf(self.nodes()[0].height()),
        ensures
            r.wf(),
            r@ == self.view(),
    {
        Iter::of_digit(self)
    }
}

/// A traversal of the leaves of a lazy finger tree, left to right.
pub fn iter<T>(t: &LazyTree<T>) -> (r: Iter<T>)
    requires
        lazy_wf(*t),
    ensures
        r.wf(),
        r@ == t.key().view,
{
    Iter::of_tree(t.share())
}

} // verus!
