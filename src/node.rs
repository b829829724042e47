use vstd::prelude::*;
use std::rc::Rc;
use crate::digit::{
    Digit, flat, all_wf, opt_view, opt_wf, opt_nodes, lemma_flat_small, split_nodes, from_range,
};

verus! {

/// A node of a 2-3 tree whose leaves hold the elements. Every branch caches
/// the number of leaves below it.
pub enum Node<T> {
    Leaf(Rc<T>),
    Node2(usize, Rc<Node<T>>, Rc<Node<T>>),
    Node3(usize, Rc<Node<T>>, Rc<Node<T>>, Rc<Node<T>>),
}

impl<T> Node<T> {
    /// The leaves, left to right.
    pub open spec fn view(&self) -> Seq<T>
        decreases self,
    {
        match self {
            Node::Leaf(x) => seq![**x],
            Node::Node2(_, a, b) => a.view() + b.view(),
            Node::Node3(_, a, b, c) => a.view() + b.view() + c.view(),
        }
    }

    /// Every branch caches the number of leaves below it.
    pub open spec fn sized(&self) -> bool
        decreases self,
    {
        match self {
            Node::Leaf(_) => true,
            Node::Node2(m, a, b) => a.sized() && b.sized() && m == a.view().len() + b.view().len(),
            Node::Node3(m, a, b, c) => a.sized() && b.sized() && c.sized()
                && m == a.view().len() + b.view().len() + c.view().len(),
        }
    }

    /// The height: the depth of the leftmost leaf.
    pub open spec fn height(&self) -> nat
        decreases self,
    {
        match self {
            Node::Leaf(_) => 0,
            Node::Node2(_, a, _) => a.height() + 1,
            Node::Node3(_, a, _, _) => a.height() + 1,
        }
    }

    /// All leaves lie at the same depth.
    pub open spec fn balanced(&self) -> bool
        decreases self,
    {
        match self {
            Node::Leaf(_) => true,
            Node::Node2(_, a, b) => a.balanced() && b.balanced() && a.height() == b.height(),
            Node::Node3(_, a, b, c) => a.balanced() && b.balanced() && c.balanced() && a.height()
                == b.height() && a.height() == c.height(),
        }
    }

    /// The children of a branch, left to right; none for a leaf.
    pub open spec fn subtrees(&self) -> Seq<Rc<Node<T>>> {
        match self {
            Node::Leaf(_) => Seq::empty(),
            Node::Node2(_, a, b) => seq![*a, *b],
            Node::Node3(_, a, b, c) => seq![*a, *b, *c],
        }
    }

    /// Both trees have the same shape: leaves in the same places and
    /// branches of the same arity.
    pub open spec fn same_shape(&self, other: &Node<T>) -> bool
        decreases self,
    {
        match (self, other) {
            (Node::Leaf(_), Node::Leaf(_)) => true,
            (Node::Node2(_, a, b), Node::Node2(_, x, y)) => a.same_shape(&**x) && b.same_shape(&**y),
            (Node::Node3(_, a, b, c), Node::Node3(_, x, y, z)) => a.same_shape(&**x) && b.same_shape(
                &**y,
            ) && c.same_shape(&**z),
            _ => false,
        }
    }

    /// A 2-3 tree with correct cached sizes.
    pub open spec fn wf(&self) -> bool {
        self.sized() && self.balanced()
    }

    /// The number of leaves, read from the cache.
    pub fn measure(&self) -> (r: usize)
        requires
            self.sized(),
        ensures
            r == self.view().len(),
    {
        proof {
            lemma_view_nonempty(self);
        }
        match self {
            Node::Leaf(_) => 1,
            Node::Node2(m, _, _) => *m,
            Node::Node3(m, _, _, _) => *m,
        }
    }
}

/// Every 2-3 tree holds at least one leaf.
pub proof fn lemma_view_nonempty<T>(n: &Node<T>)
    ensures
        n.view().len() >= 1,
    decreases n,
{
    match n {
        Node::Leaf(_) => {},
        Node::Node2(_, a, b) => {
            lemma_view_nonempty(&**a);
        },
        Node::Node3(_, a, b, c) => {
            lemma_view_nonempty(&**a);
        },
    }
}

/// Every tree has its own shape.
pub proof fn lemma_same_shape_refl<T>(n: &Node<T>)
    ensures
        n.same_shape(n),
    decreases n,
{
    match n {
        Node::Leaf(_) => {},
        Node::Node2(_, a, b) => {
            lemma_same_shape_refl(&**a);
            lemma_same_shape_refl(&**b);
        },
        Node::Node3(_, a, b, c) => {
            lemma_same_shape_refl(&**a);
            lemma_same_shape_refl(&**b);
            lemma_same_shape_refl(&**c);
        },
    }
}

/// A reference to a leaf holding `v`.
pub fn leaf<T>(v: T) -> (r: Rc<Node<T>>)
    ensures
        r.wf(),
        r.height() == 0,
        r.view() == seq![v],
{
    Rc::new(Node::Leaf(Rc::new(v)))
}

/// A branch with two children of equal height.
pub fn node2<T>(left: Rc<Node<T>>, right: Rc<Node<T>>) -> (r: Rc<Node<T>>)
    requires
        left.sized(),
        right.sized(),
        left.view().len() + right.view().len() <= usize::MAX,
    ensures
        r.sized(),
        left.wf() && right.wf() && left.height() == right.height() ==> r.wf() && r.height()
            == left.height() + 1,
        r.view() == left.view() + right.view(),
        *r is Node2,
        r.subtrees() == seq![left, right],
{
    let m = left.measure() + right.measure();
    Rc::new(Node::Node2(m, left, right))
}

/// A branch with three children of equal height.
pub fn node3<T>(left: Rc<Node<T>>, middle: Rc<Node<T>>, right: Rc<Node<T>>) -> (r: Rc<Node<T>>)
    requires
        left.sized(),
        middle.sized(),
        right.sized(),
        left.view().len() + middle.view().len() + right.view().len() <= usize::MAX,
    ensures
        r.sized(),
        left.wf() && middle.wf() && right.wf() && left.height() == middle.height()
            && left.height() == right.height() ==> r.wf() && r.height() == left.height() + 1,
        r.view() == left.view() + middle.view() + right.view(),
        *r is Node3,
        r.subtrees() == seq![left, middle, right],
{
    let m = left.measure() + middle.measure() + right.measure();
    Rc::new(Node::Node3(m, left, middle, right))
}

/// The leaf at position `i` of the node.
pub fn lookup<T>(i: usize, node: &Node<T>) -> (r: Rc<T>)
    requires
        node.sized(),
        i < node.view().len(),
    ensures
        *r == node.view()[i as int],
    decreases node,
{
    match node {
        Node::Leaf(x) => x.clone(),
        Node::Node2(_, left, right) => {
            let i1 = left.measure();
            if i < i1 {
                lookup(i, left)
            } else {
                let r = lookup(i - i1, right);
                assert(node.view()[i as int] == right.view()[i - i1]);
                r
            }
        },
        Node::Node3(_, left, middle, right) => {
            let i1 = left.measure();
            if i < i1 {
                assert(node.view()[i as int] == left.view()[i as int]);
                return lookup(i, left);
            }
            let i2 = i1 + middle.measure();
            if i < i2 {
                assert(node.view()[i as int] == middle.view()[i - i1]);
                lookup(i - i1, middle)
            } else {
                assert(node.view()[i as int] == right.view()[i - i2]);
                lookup(i - i2, right)
            }
        },
    }
}

/// A copy of the node in which the leaf at position `i` holds `x`; only the
/// path to that leaf is rebuilt, the rest is shared.
pub fn adjust<T>(x: Rc<T>, i: usize, node: &Node<T>) -> (r: Rc<Node<T>>)
    requires
        node.sized(),
        i < node.view().len(),
    ensures
        r.sized(),
        node.wf() ==> r.wf() && r.height() == node.height(),
        r.view() == node.view().update(i as int, *x),
        r.same_shape(node),
    decreases node,
{
    proof {
        lemma_same_shape_refl(node);
    }
    match node {
        Node::Leaf(_) => {
            let r = Rc::new(Node::Leaf(x));
            assert(r.view() =~= node.view().update(i as int, *x));
            r
        },
        Node::Node2(_, left, right) => {
            let i1 = left.measure();
            if i < i1 {
                let r = node2(adjust(x, i, left), right.clone());
                assert(r.view() =~= node.view().update(i as int, *x));
                r
            } else {
                let r = node2(left.clone(), adjust(x, i - i1, right));
                assert(r.view() =~= node.view().update(i as int, *x));
                r
            }
        },
        Node::Node3(_, left, middle, right) => {
            let i1 = left.measure();
            if i < i1 {
                let r = node3(adjust(x, i, left), middle.clone(), right.clone());
                assert(r.view() =~= node.view().update(i as int, *x));
                return r;
            }
            let i2 = i1 + middle.measure();
            if i < i2 {
                let r = node3(left.clone(), adjust(x, i - i1, middle), right.clone());
                assert(r.view() =~= node.view().update(i as int, *x));
                r
            } else {
                let r = node3(left.clone(), middle.clone(), adjust(x, i - i2, right));
                assert(r.view() =~= node.view().update(i as int, *x));
                r
            }
        },
    }
}

/// The children of a branch, left to right.
pub fn children<T>(node: &Node<T>) -> (r: Vec<Rc<Node<T>>>)
    requires
        !(node is Leaf),
    ensures
        2 <= r.len() <= 3,
        r@ == node.subtrees(),
        flat(r@) == node.view(),
        node.sized() ==> forall|k: int| 0 <= k < r.len() ==> (#[trigger] r@[k]).sized(),
        node.wf() ==> all_wf(r@, (node.height() - 1) as nat),
{
    let mut v: Vec<Rc<Node<T>>> = Vec::new();
    match node {
        Node::Leaf(_) => {},
        Node::Node2(_, a, b) => {
            v.push(a.clone());
            v.push(b.clone());
        },
        Node::Node3(_, a, b, c) => {
            v.push(a.clone());
            v.push(b.clone());
            v.push(c.clone());
        },
    }
    proof {
        lemma_flat_small(v@);
        assert(v@ =~= node.subtrees());
    }
    v
}

/// The children of a branch split around the child that holds leaf `i`:
/// the children before it, that child, and the children after it.
pub fn split_once<T>(i: usize, node: &Node<T>) -> (r: (
    Option<Digit<T>>,
    Rc<Node<T>>,
    Option<Digit<T>>,
))
    requires
        node.wf(),
        !(node is Leaf),
        i < node.view().len(),
    ensures
        opt_view(r.0) + r.1.view() + opt_view(r.2) == node.view(),
        opt_view(r.0).len() <= i < opt_view(r.0).len() + r.1.view().len(),
        opt_wf(r.0, (node.height() - 1) as nat),
        opt_wf(r.2, (node.height() - 1) as nat),
        r.1.wf(),
        r.1.height() == node.height() - 1,
        r.0 is Some || r.2 is Some,
        opt_nodes(r.0) + seq![r.1] + opt_nodes(r.2) == node.subtrees(),
{
    let ns = children(node);
    split_nodes(i, &ns)
}

impl<T> Digit<T> {
    /// The digit of a branch's children.
    pub fn from_node(node: &Node<T>) -> (r: Digit<T>)
        requires
            node.wf(),
            !(node is Leaf),
        ensures
            r.wf((node.height() - 1) as nat),
            r.view() == node.view(),
            r.nodes()[0].height() == node.height() - 1,
            r.nodes() == node.subtrees(),
    {
        let ns = children(node);
        let r = from_range(&ns, 0, ns.len());
        proof {
            assert(ns@.subrange(0, ns.len() as int) =~= ns@);
        }
        r
    }
}

} // verus!
