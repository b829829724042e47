//! The persistent deque of 2-3 trees: digits at both ends and a lazily
//! evaluated spine of trees one level taller.
use vstd::prelude::*;
use std::rc::Rc;
use crate::lazy::{Thunk, ThunkResult, Outcome, Origin, strict, redirect};
use crate::node::{Node, node3, lemma_view_nonempty};
use crate::digit::{
    Digit, flat, opt_view, opt_wf, lemma_flat_small, add_2_digits, add_3_digits, digit_cons,
    digit_snoc, digit_one, digit_two, lemma_flat_at, lemma_flat_split, lemma_flat_prefix,
    digit_head, digit_last, digit_tail, digit_init, opt_nodes, children_flat, grouped,
    lemma_children_append, lemma_children_front, lemma_children_push, shapes_match,
    lemma_shapes_refl, lemma_shapes_append, lemma_shapes_children,
};
use crate::node;
use crate::digit;

verus! {

/// A finger tree whose digits hold 2-3 trees of one height; the spine holds
/// trees one level taller. `Deep` caches the number of leaves.
pub enum FingerTree<T> {
    Empty,
    Single(Rc<Node<T>>),
    Deep(usize, Digit<T>, LazyTree<T>, Digit<T>),
}

/// A lazily evaluated, shared finger tree.
pub type LazyTree<T> = Thunk<FingerTree<T>, Suspension<T>, TreeKey<T>>;

/// The deferred work behind a lazy tree, each with the number of leaves of
/// its result.
pub enum Suspension<T> {
    /// The tree with a node added at the front.
    ConsNode(usize, Rc<Node<T>>, LazyTree<T>),
    /// The tree with a node added at the back.
    SnocNode(usize, LazyTree<T>, Rc<Node<T>>),
    /// Two trees joined, with the trees of an optional digit between them.
    Join(usize, LazyTree<T>, Option<Digit<T>>, LazyTree<T>),
    /// The tree holding the trees of a digit.
    FromDigit(Digit<T>),
}

/// What a lazy tree stands for: its leaves, its 2-3 trees, the height of its digits' trees,
/// and a rank that bounds the chain of thunks that forcing it may force.
pub struct TreeKey<T> {
    pub view: Seq<T>,
    /// The 2-3 trees at the tree's own level, left to right.
    pub nodes: Seq<Rc<Node<T>>>,
    pub height: nat,
    pub rank: nat,
}

impl<T> Outcome<FingerTree<T>> for TreeKey<T> {
    open spec fn admits(&self, v: &FingerTree<T>) -> bool {
        &&& v.rank() < self.rank
        &&& v.wf(self.height)
        &&& v.view() == self.view
        &&& v.elems() == self.nodes
    }
}

/// Rank added by a deferred push onto a tree.
pub open spec fn push_rank() -> nat {
    3
}

/// Rank added by a deferred join of two trees.
pub open spec fn join_rank() -> nat {
    16
}

/// A lazy tree whose digits hold trees of height `h` (or which is empty),
/// with all the deferred work behind it well formed.
pub open spec fn lazy_ok<T>(t: LazyTree<T>, h: nat) -> bool
    decreases t.key().rank, 1nat,
{
    let key = t.key();
    &&& t.wf()
    &&& key.height == h || key.view.len() == 0
    &&& key.view.len() <= usize::MAX
    &&& origin_ok(t.origin(), key)
}

/// The value or the deferred work behind a lazy tree with the given key.
#[verifier::opaque]
pub open spec fn origin_ok<T>(o: Origin<FingerTree<T>, Suspension<T>>, key: TreeKey<T>) -> bool
    decreases key.rank, 0nat,
{
    match o {
        Origin::Ready(v) => v.rank() < key.rank && v.wf(key.height) && v.view() == key.view
            && v.elems() == key.nodes,
        Origin::Pending(s) => match s {
            Suspension::ConsNode(n, x, u) => u.key().rank + push_rank() <= key.rank && lazy_ok(
                u,
                key.height,
            ) && x.wf() && x.height() == key.height && key.view == x.view() + u.key().view && n
                == key.view.len() && key.nodes == seq![x] + u.key().nodes,
            Suspension::SnocNode(n, u, x) => u.key().rank + push_rank() <= key.rank && lazy_ok(
                u,
                key.height,
            ) && x.wf() && x.height() == key.height && key.view == u.key().view + x.view() && n
                == key.view.len() && key.nodes == u.key().nodes.push(x),
            Suspension::Join(n, l, d, r) => l.key().rank + join_rank() <= key.rank && r.key().rank
                + join_rank() <= key.rank && lazy_ok(l, key.height) && lazy_ok(r, key.height)
                && opt_wf(d, key.height) && key.view == l.key().view + opt_view(d) + r.key().view
                && n == key.view.len() && key.nodes == l.key().nodes + opt_nodes(d)
                + r.key().nodes,
            Suspension::FromDigit(d) => push_rank() <= key.rank && d.wf(key.height) && key.view
                == d.view() && key.nodes == d.nodes(),
        },
    }
}

/// A lazy tree that is well formed at its own height.
pub open spec fn lazy_wf<T>(t: LazyTree<T>) -> bool {
    lazy_ok(t, t.key().height)
}

impl<T> FingerTree<T> {
    /// The leaves, left to right.
    pub open spec fn view(&self) -> Seq<T> {
        match self {
            FingerTree::Empty => Seq::empty(),
            FingerTree::Single(x) => x.view(),
            FingerTree::Deep(_, l, m, r) => l.view() + m.key().view + r.view(),
        }
    }

    /// The 2-3 trees at the tree's own level, left to right: the spine's
    /// taller trees count by their children.
    pub open spec fn elems(&self) -> Seq<Rc<Node<T>>> {
        match self {
            FingerTree::Empty => Seq::empty(),
            FingerTree::Single(x) => seq![*x],
            FingerTree::Deep(_, l, m, r) => l.nodes() + children_flat(m.key().nodes) + r.nodes(),
        }
    }

    /// One more than the rank of the spine.
    pub open spec fn rank(&self) -> nat {
        match self {
            FingerTree::Deep(_, _, m, _) => m.key().rank + 1,
            _ => 0,
        }
    }

    /// The digits hold trees of height `h` and the spine trees of height
    /// `h + 1`; `Deep` caches its leaf count.
    pub open spec fn wf(&self, h: nat) -> bool
        decreases self.rank(), 2nat,
    {
        match self {
            FingerTree::Empty => true,
            FingerTree::Single(x) => x.wf() && x.height() == h,
            FingerTree::Deep(n, l, m, r) => l.wf(h) && r.wf(h) && m.key().rank < self.rank()
                && lazy_ok(*m, h + 1) && n == l.view().len() + m.key().view.len()
                + r.view().len(),
        }
    }
}

/// A lazy tree is well formed at its own height wherever it is well formed.
pub proof fn lemma_lazy_wf<T>(t: LazyTree<T>, h: nat)
    requires
        lazy_ok(t, h),
    ensures
        lazy_wf(t),
        t.key().view.len() > 0 ==> t.key().height == h,
{
}

/// A digit holds at least one leaf.
pub proof fn lemma_digit_nonempty<T>(d: Digit<T>, h: nat)
    requires
        d.wf(h),
    ensures
        d.view().len() >= 1,
{
    lemma_flat_small(d.nodes());
    lemma_view_nonempty(&*d.nodes()[0]);
}

/// A tree without leaves is `Empty`, and so well formed at every height.
pub proof fn lemma_no_leaves<T>(v: &FingerTree<T>, h: nat)
    requires
        v.wf(h),
        v.view().len() == 0,
    ensures
        v is Empty,
        forall|g: nat| v.wf(g),
{
    match v {
        FingerTree::Empty => {},
        FingerTree::Single(x) => {
            lemma_view_nonempty(&**x);
        },
        FingerTree::Deep(_, l, _, _) => {
            lemma_digit_nonempty(*l, h);
        },
    }
}

/// A well formed tree is well formed at the height its digits show.
pub proof fn lemma_height_hint<T>(v: &FingerTree<T>, h: nat)
    requires
        v.wf(h),
    ensures
        v.wf(v.height_hint()),
        v.view().len() > 0 ==> v.height_hint() == h,
{
    if v.view().len() == 0 {
        lemma_no_leaves(v, h);
    }
    if let FingerTree::Deep(_, l, _, _) = v {
        assert(l.nodes()[0].height() == h);
    }
}

impl<T> FingerTree<T> {
    /// The number of leaves, from the cache.
    pub fn measure(&self) -> (r: usize)
        requires
            self.wf(self.height_hint()),
            self.view().len() <= usize::MAX,
        ensures
            r == self.view().len(),
    {
        match self {
            FingerTree::Empty => 0,
            FingerTree::Single(x) => x.measure(),
            FingerTree::Deep(n, _, _, _) => *n,
        }
    }

    /// The height of the trees in the digits, as far as the tree shows it.
    pub open spec fn height_hint(&self) -> nat {
        match self {
            FingerTree::Empty => 0,
            FingerTree::Single(x) => x.height(),
            FingerTree::Deep(_, l, _, _) => l.nodes()[0].height(),
        }
    }
}

/// The number of leaves of a lazy tree, known without forcing it.
pub fn measure<T>(t: &LazyTree<T>) -> (r: usize)
    requires
        lazy_wf(*t),
    ensures
        r == t.key().view.len(),
{
    reveal(origin_ok);
    match t.source() {
        Origin::Ready(v) => {
            proof {
                lemma_height_hint(&**v, t.key().height);
            }
            v.measure()
        },
        Origin::Pending(Suspension::ConsNode(n, _, _)) => *n,
        Origin::Pending(Suspension::SnocNode(n, _, _)) => *n,
        Origin::Pending(Suspension::Join(n, _, _, _)) => *n,
        Origin::Pending(Suspension::FromDigit(d)) => d.measure(),
    }
}

/// The empty tree.
pub fn empty<T>() -> (r: LazyTree<T>)
    ensures
        forall|h: nat| lazy_ok(r, h),
        r.key().view.len() == 0,
        r.key().nodes.len() == 0,
        r.key().rank == 1,
{
    reveal(origin_ok);
    let ghost key = TreeKey {
        view: Seq::<T>::empty(),
        nodes: Seq::empty(),
        height: 0,
        rank: 1,
    };
    let v = FingerTree::Empty;
    let r = strict(v, Ghost(key));
    assert(v.wf(key.height));
    assert(origin_ok(r.origin(), key));
    r
}

/// The tree holding one 2-3 tree.
pub fn single<T>(node: Rc<Node<T>>) -> (r: LazyTree<T>)
    requires
        node.wf(),
    ensures
        lazy_ok(r, node.height()),
        r.key().view == node.view(),
        r.key().nodes == seq![node],
        r.key().rank == 1,
{
    reveal(origin_ok);
    let ghost key = TreeKey {
        view: node.view(),
        nodes: seq![node],
        height: node.height(),
        rank: 1,
    };
    let v = FingerTree::Single(node);
    let r = strict(v, Ghost(key));
    assert(v.wf(key.height));
    assert(origin_ok(r.origin(), key));
    r
}

/// The tree with digits `left` and `right` around the spine `middle`.
pub fn deep<T>(left: Digit<T>, middle: LazyTree<T>, right: Digit<T>) -> (r: LazyTree<T>)
    requires
        left.wf(left.nodes()[0].height()),
        right.wf(left.nodes()[0].height()),
        lazy_ok(middle, left.nodes()[0].height() + 1),
        left.view().len() + middle.key().view.len() + right.view().len() <= usize::MAX,
    ensures
        lazy_ok(r, left.nodes()[0].height()),
        r.key().view == left.view() + middle.key().view + right.view(),
        r.key().nodes == left.nodes() + children_flat(middle.key().nodes) + right.nodes(),
        r.key().rank == middle.key().rank + 2,
        r.origin() matches Origin::Ready(v) && *v == FingerTree::Deep(
            (left.view().len() + middle.key().view.len() + right.view().len()) as usize,
            left,
            middle,
            right,
        ),
{
    reveal(origin_ok);
    let ghost h = left.nodes()[0].height();
    proof {
        lemma_lazy_wf(middle, h + 1);
    }
    let n = left.measure() + measure(&middle) + right.measure();
    let v = FingerTree::Deep(n, left, middle, right);
    let ghost key = TreeKey {
        view: v.view(),
        nodes: v.elems(),
        height: h,
        rank: middle.key().rank + 2,
    };
    let r = strict(v, Ghost(key));
    assert(v.wf(key.height));
    assert(origin_ok(r.origin(), key));
    r
}

fn suspend<T>(s: Suspension<T>, Ghost(key): Ghost<TreeKey<T>>) -> (r: LazyTree<T>)
    requires
        origin_ok(Origin::Pending(s), key),
        key.view.len() <= usize::MAX,
    ensures
        lazy_ok(r, key.height),
        r.key() == key,
{
    reveal(origin_ok);
    Thunk::new(s, Ghost(key))
}

/// The tree holding the trees of a digit, built when first forced.
pub fn from_digit<T>(d: Digit<T>) -> (r: LazyTree<T>)
    requires
        d.wf(d.nodes()[0].height()),
        d.view().len() <= usize::MAX,
    ensures
        lazy_ok(r, d.nodes()[0].height()),
        r.key().view == d.view(),
        r.key().nodes == d.nodes(),
        r.key().rank == push_rank(),
{
    reveal(origin_ok);
    let ghost key = TreeKey {
        view: d.view(),
        nodes: d.nodes(),
        height: d.nodes()[0].height(),
        rank: push_rank(),
    };
    suspend(Suspension::FromDigit(d), Ghost(key))
}

/// The tree holding the trees of an optional digit; empty for `None`.
pub fn from_opt_digit<T>(d: Option<Digit<T>>, Ghost(h): Ghost<nat>) -> (r: LazyTree<T>)
    requires
        opt_wf(d, h),
        opt_view(d).len() <= usize::MAX,
    ensures
        lazy_ok(r, h),
        r.key().view == opt_view(d),
        r.key().nodes == opt_nodes(d),
        r.key().rank <= push_rank(),
{
    match d {
        Some(d) => {
            proof {
                lemma_digit_nonempty(d, h);
            }
            from_digit(d)
        },
        None => {
            let e = empty();
            assert(e.key().nodes =~= opt_nodes(d));
            e
        },
    }
}

/// The tree with `x` added at the front, built when first forced.
pub fn cons_node<T>(x: Rc<Node<T>>, tree: LazyTree<T>) -> (r: LazyTree<T>)
    requires
        x.wf(),
        lazy_ok(tree, x.height()),
        x.view().len() + tree.key().view.len() <= usize::MAX,
    ensures
        lazy_ok(r, x.height()),
        r.key().view == x.view() + tree.key().view,
        r.key().nodes == seq![x] + tree.key().nodes,
        r.key().rank == tree.key().rank + push_rank(),
{
    reveal(origin_ok);
    proof {
        lemma_lazy_wf(tree, x.height());
    }
    let n = x.measure() + measure(&tree);
    let ghost key = TreeKey {
        view: x.view() + tree.key().view,
        nodes: seq![x] + tree.key().nodes,
        height: x.height(),
        rank: tree.key().rank + push_rank(),
    };
    suspend(Suspension::ConsNode(n, x, tree), Ghost(key))
}

/// The tree with `x` added at the back, built when first forced.
pub fn snoc_node<T>(tree: LazyTree<T>, x: Rc<Node<T>>) -> (r: LazyTree<T>)
    requires
        x.wf(),
        lazy_ok(tree, x.height()),
        x.view().len() + tree.key().view.len() <= usize::MAX,
    ensures
        lazy_ok(r, x.height()),
        r.key().view == tree.key().view + x.view(),
        r.key().nodes == tree.key().nodes.push(x),
        r.key().rank == tree.key().rank + push_rank(),
{
    reveal(origin_ok);
    proof {
        lemma_lazy_wf(tree, x.height());
    }
    let n = measure(&tree) + x.measure();
    let ghost key = TreeKey {
        view: tree.key().view + x.view(),
        nodes: tree.key().nodes.push(x),
        height: x.height(),
        rank: tree.key().rank + push_rank(),
    };
    suspend(Suspension::SnocNode(n, tree, x), Ghost(key))
}

/// The tree with the trees of `digit` added at the front.
fn cons_digit<T>(digit: Digit<T>, tree: LazyTree<T>) -> (r: LazyTree<T>)
    requires
        digit.wf(digit.nodes()[0].height()),
        lazy_ok(tree, digit.nodes()[0].height()),
        digit.view().len() + tree.key().view.len() <= usize::MAX,
    ensures
        lazy_ok(r, digit.nodes()[0].height()),
        r.key().view == digit.view() + tree.key().view,
        r.key().nodes == digit.nodes() + tree.key().nodes,
        r.key().rank <= tree.key().rank + 4 * push_rank(),
{
    let ghost h = digit.nodes()[0].height();
    let mut ns: Vec<Rc<Node<T>>> = Vec::new();
    digit.push_nodes(&mut ns);
    proof {
        assert(ns@ =~= digit.nodes());
        assert(ns@.subrange(ns.len() as int, ns.len() as int) =~= Seq::<Rc<Node<T>>>::empty());
        assert(flat(Seq::<Rc<Node<T>>>::empty()) + tree.key().view =~= tree.key().view);
        assert(Seq::<Rc<Node<T>>>::empty() + tree.key().nodes =~= tree.key().nodes);
        lemma_flat_small(digit.nodes());
    }
    let mut k = ns.len();
    let mut t = tree;
    while k > 0
        invariant
            k <= ns.len() <= 4,
            ns@ == digit.nodes(),
            digit.wf(h),
            flat(ns@).len() + tree.key().view.len() <= usize::MAX,
            lazy_ok(t, h),
            t.key().view == flat(ns@.subrange(k as int, ns.len() as int)) + tree.key().view,
            t.key().nodes == ns@.subrange(k as int, ns.len() as int) + tree.key().nodes,
            t.key().rank <= tree.key().rank + (ns.len() - k) * push_rank(),
        decreases k,
    {
        proof {
            lemma_flat_at(ns@.subrange(k - 1, ns.len() as int), 0);
            assert(ns@.subrange(k - 1, ns.len() as int).subrange(1, ns.len() - k + 1)
                =~= ns@.subrange(k as int, ns.len() as int));
            lemma_flat_split(ns@, k - 1);
            assert(ns@[k - 1].height() == h);
        }
        let ghost prev = t.key().nodes;
        t = cons_node(ns[k - 1].clone(), t);
        k = k - 1;
        assert(t.key().nodes =~= ns@.subrange(k as int, ns.len() as int) + tree.key().nodes) by {
            assert(ns@.subrange(k as int, ns.len() as int) =~= seq![ns@[k as int]]
                + ns@.subrange(k + 1, ns.len() as int));
        }
        proof {
            assert(ns@.subrange(k as int, ns.len() as int).subrange(0, 0)
                =~= Seq::<Rc<Node<T>>>::empty());
            assert(flat(Seq::<Rc<Node<T>>>::empty()) =~= Seq::<T>::empty());
        }
    }
    proof {
        assert(ns@.subrange(0, ns.len() as int) =~= ns@);
    }
    t
}

/// The tree with the trees of `digit` added at the back.
fn snoc_digit<T>(tree: LazyTree<T>, digit: Digit<T>) -> (r: LazyTree<T>)
    requires
        digit.wf(digit.nodes()[0].height()),
        lazy_ok(tree, digit.nodes()[0].height()),
        digit.view().len() + tree.key().view.len() <= usize::MAX,
    ensures
        lazy_ok(r, digit.nodes()[0].height()),
        r.key().view == tree.key().view + digit.view(),
        r.key().nodes == tree.key().nodes + digit.nodes(),
        r.key().rank <= tree.key().rank + 4 * push_rank(),
{
    let ghost h = digit.nodes()[0].height();
    let mut ns: Vec<Rc<Node<T>>> = Vec::new();
    digit.push_nodes(&mut ns);
    proof {
        assert(ns@ =~= digit.nodes());
        assert(flat(ns@.subrange(0, 0)) =~= Seq::<T>::empty());
        assert(tree.key().view + Seq::<T>::empty() =~= tree.key().view);
        assert(tree.key().nodes + ns@.subrange(0, 0) =~= tree.key().nodes);
        lemma_flat_small(digit.nodes());
    }
    let mut k: usize = 0;
    let mut t = tree;
    while k < ns.len()
        invariant
            k <= ns.len() <= 4,
            ns@ == digit.nodes(),
            digit.wf(h),
            flat(ns@).len() + tree.key().view.len() <= usize::MAX,
            lazy_ok(t, h),
            t.key().view == tree.key().view + flat(ns@.subrange(0, k as int)),
            t.key().nodes == tree.key().nodes + ns@.subrange(0, k as int),
            t.key().rank <= tree.key().rank + k * push_rank(),
        decreases ns.len() - k,
    {
        proof {
            lemma_flat_prefix(ns@, k as int);
            lemma_flat_split(ns@, k + 1);
            assert(ns@[k as int].height() == h);
        }
        t = snoc_node(t, ns[k].clone());
        k = k + 1;
        assert(t.key().nodes =~= tree.key().nodes + ns@.subrange(0, k as int));
    }
    proof {
        assert(ns@.subrange(0, ns.len() as int) =~= ns@);
    }
    t
}

/// The concatenation of two trees, built when first forced.
pub fn tree_tree<T>(left: LazyTree<T>, right: LazyTree<T>) -> (r: LazyTree<T>)
    requires
        exists|h: nat| lazy_ok(left, h) && lazy_ok(right, h),
        left.key().view.len() + right.key().view.len() <= usize::MAX,
    ensures
        forall|h: nat| lazy_ok(left, h) && lazy_ok(right, h) ==> lazy_ok(r, h),
        lazy_wf(r),
        r.key().view == left.key().view + right.key().view,
        r.key().nodes == left.key().nodes + right.key().nodes,
        r.key().rank == vstd::math::max(left.key().rank as int, right.key().rank as int)
            + join_rank(),
{
    let ghost w = choose|h: nat| lazy_ok(left, h) && lazy_ok(right, h);
    let ghost h = if left.key().view.len() > 0 {
        left.key().height
    } else {
        right.key().height
    };
    proof {
        lemma_lazy_wf(left, w);
        lemma_lazy_wf(right, w);
    }
    let r = join(left, None, right, Ghost(h));
    assert(left.key().view + opt_view::<T>(None) + right.key().view =~= left.key().view
        + right.key().view);
    assert(left.key().nodes + opt_nodes::<T>(None) + right.key().nodes =~= left.key().nodes
        + right.key().nodes);
    r
}

/// The concatenation of two trees with the trees of `digit` between them,
/// built when first forced.
pub fn tree_digit_tree<T>(left: LazyTree<T>, digit: Digit<T>, right: LazyTree<T>) -> (r: LazyTree<
    T,
>)
    requires
        digit.wf(digit.nodes()[0].height()),
        lazy_ok(left, digit.nodes()[0].height()),
        lazy_ok(right, digit.nodes()[0].height()),
        left.key().view.len() + digit.view().len() + right.key().view.len() <= usize::MAX,
    ensures
        lazy_ok(r, digit.nodes()[0].height()),
        r.key().view == left.key().view + digit.view() + right.key().view,
        r.key().nodes == left.key().nodes + digit.nodes() + right.key().nodes,
        r.key().rank == vstd::math::max(left.key().rank as int, right.key().rank as int)
            + join_rank(),
{
    join(left, Some(digit), right, Ghost(digit.nodes()[0].height()))
}

fn join<T>(left: LazyTree<T>, d: Option<Digit<T>>, right: LazyTree<T>, Ghost(h): Ghost<nat>) -> (r:
    LazyTree<T>)
    requires
        opt_wf(d, h),
        lazy_ok(left, h),
        lazy_ok(right, h),
        left.key().view.len() + opt_view(d).len() + right.key().view.len() <= usize::MAX,
    ensures
        lazy_ok(r, h),
        r.key().view == left.key().view + opt_view(d) + right.key().view,
        r.key().nodes == left.key().nodes + opt_nodes(d) + right.key().nodes,
        r.key().rank == vstd::math::max(left.key().rank as int, right.key().rank as int)
            + join_rank(),
{
    reveal(origin_ok);
    proof {
        lemma_lazy_wf(left, h);
        lemma_lazy_wf(right, h);
    }
    let n1 = measure(&left);
    let n2 = match &d {
        Some(d) => d.measure(),
        None => 0,
    };
    let n3 = measure(&right);
    let ghost key = TreeKey {
        view: left.key().view + opt_view(d) + right.key().view,
        nodes: left.key().nodes + opt_nodes(d) + right.key().nodes,
        height: h,
        rank: (vstd::math::max(left.key().rank as int, right.key().rank as int)
            + join_rank()) as nat,
    };
    suspend(Suspension::Join(n1 + n2 + n3, left, d, right), Ghost(key))
}

fn cons_opt_digit<T>(d: Option<Digit<T>>, tree: LazyTree<T>, Ghost(h): Ghost<nat>) -> (r: LazyTree<
    T,
>)
    requires
        opt_wf(d, h),
        lazy_ok(tree, h),
        opt_view(d).len() + tree.key().view.len() <= usize::MAX,
    ensures
        lazy_ok(r, h),
        r.key().view == opt_view(d) + tree.key().view,
        r.key().nodes == opt_nodes(d) + tree.key().nodes,
        r.key().rank <= tree.key().rank + 4 * push_rank(),
{
    match d {
        Some(d) => {
            proof {
                lemma_digit_nonempty(d, h);
                assert(d.nodes()[0].height() == h);
            }
            cons_digit(d, tree)
        },
        None => {
            assert(opt_view(d) + tree.key().view =~= tree.key().view);
            assert(opt_nodes(d) + tree.key().nodes =~= tree.key().nodes);
            tree
        },
    }
}

fn snoc_opt_digit<T>(tree: LazyTree<T>, d: Option<Digit<T>>, Ghost(h): Ghost<nat>) -> (r: LazyTree<
    T,
>)
    requires
        opt_wf(d, h),
        lazy_ok(tree, h),
        opt_view(d).len() + tree.key().view.len() <= usize::MAX,
    ensures
        lazy_ok(r, h),
        r.key().view == tree.key().view + opt_view(d),
        r.key().nodes == tree.key().nodes + opt_nodes(d),
        r.key().rank <= tree.key().rank + 4 * push_rank(),
{
    match d {
        Some(d) => {
            proof {
                lemma_digit_nonempty(d, h);
                assert(d.nodes()[0].height() == h);
            }
            snoc_digit(tree, d)
        },
        None => {
            assert(tree.key().view + opt_view(d) =~= tree.key().view);
            assert(tree.key().nodes + opt_nodes(d) =~= tree.key().nodes);
            tree
        },
    }
}

/// What running the deferred work of a lazy tree with key `key` may yield.
pub open spec fn result_ok<T>(
    r: ThunkResult<FingerTree<T>, Suspension<T>, TreeKey<T>>,
    key: TreeKey<T>,
) -> bool {
    match r {
        ThunkResult::Value(v) => key.admits(&v),
        ThunkResult::Redirect(u) => lazy_ok(u, key.height) && u.key().rank < key.rank
            && u.key().view == key.view && u.key().nodes == key.nodes,
    }
}

/// Forces a lazy tree: the memoized value if there is one, else the result
/// of its deferred work, which is then recorded for every handle to it.
pub fn force<T>(t: &LazyTree<T>) -> (r: Rc<FingerTree<T>>)
    requires
        lazy_wf(*t),
    ensures
        t.key().admits(&*r),
    decreases t.key().rank, 2nat,
{
    reveal(origin_ok);
    match t.source() {
        Origin::Ready(v) => v.clone(),
        Origin::Pending(s) => {
            match t.recall() {
                Some(v) => v,
                None => {
                    let v = match resume(s, Ghost(t.key())) {
                        ThunkResult::Value(v) => Rc::new(v),
                        ThunkResult::Redirect(u) => {
                            proof {
                                lemma_lazy_wf(u, t.key().height);
                            }
                            let v = force(&u);
                            proof {
                                if v.view().len() == 0 {
                                    lemma_no_leaves(&*v, u.key().height);
                                }
                            }
                            v
                        },
                    };
                    t.remember(v.clone());
                    v
                },
            }
        },
    }
}

/// Forces a lazy tree of height `h`, which is then well formed at `h`.
pub fn force_at<T>(t: &LazyTree<T>, Ghost(h): Ghost<nat>) -> (r: Rc<FingerTree<T>>)
    requires
        lazy_ok(*t, h),
    ensures
        r.wf(h),
        r.view() == t.key().view,
        r.elems() == t.key().nodes,
        r.rank() < t.key().rank,
    decreases t.key().rank, 3nat,
{
    proof {
        lemma_lazy_wf(*t, h);
    }
    let v = force(t);
    proof {
        if v.view().len() == 0 {
            lemma_no_leaves(&*v, t.key().height);
        }
    }
    v
}

/// Runs the deferred work of a lazy tree with key `key`.
fn resume<T>(s: &Suspension<T>, Ghost(key): Ghost<TreeKey<T>>) -> (r: ThunkResult<
    FingerTree<T>,
    Suspension<T>,
    TreeKey<T>,
>)
    requires
        origin_ok(Origin::Pending(*s), key),
        key.view.len() <= usize::MAX,
    ensures
        result_ok(r, key),
    decreases key.rank, 1nat,
{
    match s {
        Suspension::ConsNode(n, x, u) => resume_cons(*n, x, u, Ghost(key)),
        Suspension::SnocNode(n, u, x) => resume_snoc(*n, u, x, Ghost(key)),
        Suspension::FromDigit(d) => resume_digit(d, Ghost(key)),
        Suspension::Join(n, l, d, r) => resume_join(*n, l, d, r, Ghost(key)),
    }
}

/// The `Deep` tree of the given parts.
fn make_deep<T>(n: usize, l: Digit<T>, m: LazyTree<T>, r: Digit<T>, Ghost(h): Ghost<nat>) -> (v:
    FingerTree<T>)
    requires
        l.wf(h),
        r.wf(h),
        lazy_ok(m, h + 1),
        n == l.view().len() + m.key().view.len() + r.view().len(),
    ensures
        v.wf(h),
        v.view() == l.view() + m.key().view + r.view(),
        v.rank() == m.key().rank + 1,
        v == FingerTree::Deep(n, l, m, r),
{
    FingerTree::Deep(n, l, m, r)
}

/// Adds `x` at the front of the forced `u`.
fn resume_cons<T>(
    n: usize,
    x: &Rc<Node<T>>,
    u: &LazyTree<T>,
    Ghost(key): Ghost<TreeKey<T>>,
) -> (r: ThunkResult<FingerTree<T>, Suspension<T>, TreeKey<T>>)
    requires
        origin_ok(Origin::Pending(Suspension::ConsNode(n, *x, *u)), key),
        key.view.len() <= usize::MAX,
    ensures
        result_ok(r, key),
    decreases key.rank, 0nat,
{
    reveal(origin_ok);
    let ghost h = key.height;
    proof {
        lemma_lazy_wf(*u, h);
    }
    let v = force_at(u, Ghost(h));
    match &*v {
        FingerTree::Empty => {
            assert(key.view =~= x.view());
            assert(key.nodes =~= seq![*x]);
            ThunkResult::Value(FingerTree::Single(x.clone()))
        },
        FingerTree::Single(y) => {
            let t = make_deep(n, digit_one(x.clone()), empty(), digit_one(y.clone()), Ghost(h));
            assert(t.view() =~= key.view);
            assert(children_flat(Seq::<Rc<Node<T>>>::empty()) =~= Seq::<Rc<Node<T>>>::empty());
            assert(t.elems() =~= key.nodes);
            ThunkResult::Value(t)
        },
        FingerTree::Deep(_, l, mid, r) => {
            let t = deep_cons(n, x, l, mid, r, Ghost(h));
            assert(t.view() =~= key.view);
            assert(t.elems() =~= key.nodes);
            ThunkResult::Value(t)
        },
    }
}

/// The `Deep` tree `(l, mid, r)` with `x` added at the front.
#[verifier::rlimit(100)]
fn deep_cons<T>(
    n: usize,
    x: &Rc<Node<T>>,
    l: &Digit<T>,
    mid: &LazyTree<T>,
    r: &Digit<T>,
    Ghost(h): Ghost<nat>,
) -> (t: FingerTree<T>)
    requires
        x.wf(),
        x.height() == h,
        l.wf(h),
        r.wf(h),
        lazy_ok(*mid, h + 1),
        n == x.view().len() + l.view().len() + mid.key().view.len() + r.view().len(),
    ensures
        t.wf(h),
        t.view() == x.view() + (l.view() + mid.key().view + r.view()),
        t.elems() == seq![*x] + (l.nodes() + children_flat(mid.key().nodes) + r.nodes()),
        t.rank() <= mid.key().rank + push_rank() + 1,
{
    if let Digit::Four(..) = l {
        deep_cons_four(n, x, l, mid, r, Ghost(h))
    } else {
        let t = make_deep(n, digit_cons(x.clone(), l), mid.share(), r.share(), Ghost(h));
        assert(t.view() =~= x.view() + (l.view() + mid.key().view + r.view()));
        assert(t.elems() =~= seq![*x] + (l.nodes() + children_flat(mid.key().nodes) + r.nodes()));
        t
    }
}

/// The case of a full digit: three of its trees go to the spine as one.
#[verifier::rlimit(100)]
fn deep_cons_four<T>(
    n: usize,
    x: &Rc<Node<T>>,
    l: &Digit<T>,
    mid: &LazyTree<T>,
    r: &Digit<T>,
    Ghost(h): Ghost<nat>,
) -> (t: FingerTree<T>)
    requires
        *l is Four,
        x.wf(),
        x.height() == h,
        l.wf(h),
        r.wf(h),
        lazy_ok(*mid, h + 1),
        n == x.view().len() + l.view().len() + mid.key().view.len() + r.view().len(),
    ensures
        t.wf(h),
        t.view() == x.view() + (l.view() + mid.key().view + r.view()),
        t.elems() == seq![*x] + (l.nodes() + children_flat(mid.key().nodes) + r.nodes()),
        t.rank() <= mid.key().rank + push_rank() + 1,
{
    proof {
        lemma_flat_small(l.nodes());
    }
    if let Digit::Four(a, b, c, d) = l {
        assert(l.nodes()[1].height() == h && l.nodes()[2].height() == h && l.nodes()[3].height()
            == h);
        let l2 = digit_two(x.clone(), a.clone());
        let n3 = node3(b.clone(), c.clone(), d.clone());
        proof {
            lemma_children_front(n3, mid.key().nodes);
        }
        let t = make_deep(n, l2, cons_node(n3, mid.share()), r.share(), Ghost(h));
        assert(t.view() =~= x.view() + (l.view() + mid.key().view + r.view()));
        assert(t.elems() =~= seq![*x] + (l.nodes() + children_flat(mid.key().nodes) + r.nodes()));
        t
    } else {
        proof {
            assert(false);
        }
        FingerTree::Empty
    }
}

/// Adds `x` at the back of the forced `u`.
fn resume_snoc<T>(
    n: usize,
    u: &LazyTree<T>,
    x: &Rc<Node<T>>,
    Ghost(key): Ghost<TreeKey<T>>,
) -> (r: ThunkResult<FingerTree<T>, Suspension<T>, TreeKey<T>>)
    requires
        origin_ok(Origin::Pending(Suspension::SnocNode(n, *u, *x)), key),
        key.view.len() <= usize::MAX,
    ensures
        result_ok(r, key),
    decreases key.rank, 0nat,
{
    reveal(origin_ok);
    let ghost h = key.height;
    proof {
        lemma_lazy_wf(*u, h);
    }
    let v = force_at(u, Ghost(h));
    match &*v {
        FingerTree::Empty => {
            assert(key.view =~= x.view());
            assert(key.nodes =~= seq![*x]);
            ThunkResult::Value(FingerTree::Single(x.clone()))
        },
        FingerTree::Single(y) => {
            let t = make_deep(n, digit_one(y.clone()), empty(), digit_one(x.clone()), Ghost(h));
            assert(t.view() =~= key.view);
            assert(children_flat(Seq::<Rc<Node<T>>>::empty()) =~= Seq::<Rc<Node<T>>>::empty());
            assert(t.elems() =~= key.nodes);
            ThunkResult::Value(t)
        },
        FingerTree::Deep(_, l, mid, r) => {
            let t = deep_snoc(n, l, mid, r, x, Ghost(h));
            assert(t.view() =~= key.view);
            assert(t.elems() =~= key.nodes);
            ThunkResult::Value(t)
        },
    }
}

/// The `Deep` tree `(l, mid, r)` with `x` added at the back.
#[verifier::rlimit(100)]
fn deep_snoc<T>(
    n: usize,
    l: &Digit<T>,
    mid: &LazyTree<T>,
    r: &Digit<T>,
    x: &Rc<Node<T>>,
    Ghost(h): Ghost<nat>,
) -> (t: FingerTree<T>)
    requires
        x.wf(),
        x.height() == h,
        l.wf(h),
        r.wf(h),
        lazy_ok(*mid, h + 1),
        n == x.view().len() + l.view().len() + mid.key().view.len() + r.view().len(),
    ensures
        t.wf(h),
        t.view() == (l.view() + mid.key().view + r.view()) + x.view(),
        t.elems() == (l.nodes() + children_flat(mid.key().nodes) + r.nodes()).push(*x),
        t.rank() <= mid.key().rank + push_rank() + 1,
{
    if let Digit::Four(..) = r {
        deep_snoc_four(n, l, mid, r, x, Ghost(h))
    } else {
        let t = make_deep(n, l.share(), mid.share(), digit_snoc(r, x.clone()), Ghost(h));
        assert(t.view() =~= (l.view() + mid.key().view + r.view()) + x.view());
        assert(t.elems() =~= (l.nodes() + children_flat(mid.key().nodes) + r.nodes()).push(*x));
        t
    }
}

/// The case of a full digit: three of its trees go to the spine as one.
#[verifier::rlimit(100)]
fn deep_snoc_four<T>(
    n: usize,
    l: &Digit<T>,
    mid: &LazyTree<T>,
    r: &Digit<T>,
    x: &Rc<Node<T>>,
    Ghost(h): Ghost<nat>,
) -> (t: FingerTree<T>)
    requires
        *r is Four,
        x.wf(),
        x.height() == h,
        l.wf(h),
        r.wf(h),
        lazy_ok(*mid, h + 1),
        n == x.view().len() + l.view().len() + mid.key().view.len() + r.view().len(),
    ensures
        t.wf(h),
        t.view() == (l.view() + mid.key().view + r.view()) + x.view(),
        t.elems() == (l.nodes() + children_flat(mid.key().nodes) + r.nodes()).push(*x),
        t.rank() <= mid.key().rank + push_rank() + 1,
{
    proof {
        lemma_flat_small(r.nodes());
    }
    if let Digit::Four(a, b, c, d) = r {
        assert(r.nodes()[1].height() == h && r.nodes()[2].height() == h && r.nodes()[3].height()
            == h);
        let n3 = node3(a.clone(), b.clone(), c.clone());
        proof {
            lemma_children_push(mid.key().nodes, n3);
        }
        let m2 = snoc_node(mid.share(), n3);
        let r2 = digit_two(d.clone(), x.clone());
        let t = make_deep(n, l.share(), m2, r2, Ghost(h));
        assert(t.view() =~= (l.view() + mid.key().view + r.view()) + x.view());
        assert(t.elems() =~= (l.nodes() + children_flat(mid.key().nodes) + r.nodes()).push(*x));
        t
    } else {
        proof {
            assert(false);
        }
        FingerTree::Empty
    }
}

/// Builds the tree of the trees of `d`.
fn resume_digit<T>(d: &Digit<T>, Ghost(key): Ghost<TreeKey<T>>) -> (r: ThunkResult<
    FingerTree<T>,
    Suspension<T>,
    TreeKey<T>,
>)
    requires
        origin_ok(Origin::Pending(Suspension::FromDigit(*d)), key),
        key.view.len() <= usize::MAX,
    ensures
        result_ok(r, key),
{
    reveal(origin_ok);
    let ghost h = key.height;
    proof {
        lemma_flat_small(d.nodes());
        assert(d.nodes()[0].height() == h);
    }
    let n = d.measure();
    let t = match d {
        Digit::One(a) => FingerTree::Single(a.clone()),
        Digit::Two(a, b) => {
            assert(d.nodes()[1].height() == h);
            make_deep(n, digit_one(a.clone()), empty(), digit_one(b.clone()), Ghost(h))
        },
        Digit::Three(a, b, c) => {
            assert(d.nodes()[1].height() == h && d.nodes()[2].height() == h);
            make_deep(n, digit_two(a.clone(), b.clone()), empty(), digit_one(c.clone()), Ghost(h))
        },
        Digit::Four(a, b, c, e) => {
            assert(d.nodes()[1].height() == h && d.nodes()[2].height() == h && d.nodes()[3].height()
                == h);
            make_deep(
                n,
                digit_two(a.clone(), b.clone()),
                empty(),
                digit_two(c.clone(), e.clone()),
                Ghost(h),
            )
        },
    };
    assert(t.view() =~= key.view);
    assert(children_flat(Seq::<Rc<Node<T>>>::empty()) =~= Seq::<Rc<Node<T>>>::empty());
    assert(t.elems() =~= key.nodes);
    ThunkResult::Value(t)
}

/// The trees of `r0`, `d` and `l1` regrouped one level taller.
fn add_middle<T>(r0: &Digit<T>, d: &Option<Digit<T>>, l1: &Digit<T>, Ghost(h): Ghost<nat>) -> (r:
    Digit<T>)
    requires
        r0.wf(h),
        l1.wf(h),
        opt_wf(*d, h),
        r0.view().len() + opt_view(*d).len() + l1.view().len() <= usize::MAX,
    ensures
        r.wf(h + 1),
        r.nodes()[0].height() == h + 1,
        r.view() == r0.view() + opt_view(*d) + l1.view(),
        children_flat(r.nodes()) == r0.nodes() + opt_nodes(*d) + l1.nodes(),
{
    proof {
        assert(r0.nodes()[0].height() == h);
    }
    let mid = match d {
        Some(d) => add_3_digits(r0.share(), d.share(), l1.share()),
        None => {
            let mid = add_2_digits(r0.share(), l1.share());
            assert(r0.view() + l1.view() =~= r0.view() + opt_view(*d) + l1.view());
            assert(r0.nodes() + l1.nodes() =~= r0.nodes() + opt_nodes(*d) + l1.nodes());
            mid
        },
    };
    proof {
        assert(mid.nodes()[0].height() == h + 1);
    }
    mid
}

/// Joins two `Deep` trees, given by their parts, with the trees of `d`
/// between them: the inner digits are regrouped into the join of the spines.
#[verifier::rlimit(100)]
fn join_deep<T>(
    n: usize,
    l0: &Digit<T>,
    m0: &LazyTree<T>,
    r0: &Digit<T>,
    d: &Option<Digit<T>>,
    l1: &Digit<T>,
    m1: &LazyTree<T>,
    r1: &Digit<T>,
    Ghost(h): Ghost<nat>,
) -> (r: FingerTree<T>)
    requires
        l0.wf(h),
        r0.wf(h),
        l1.wf(h),
        r1.wf(h),
        opt_wf(*d, h),
        lazy_ok(*m0, h + 1),
        lazy_ok(*m1, h + 1),
        n == l0.view().len() + m0.key().view.len() + r0.view().len() + opt_view(*d).len()
            + l1.view().len() + m1.key().view.len() + r1.view().len(),
    ensures
        r.wf(h),
        r.view() == l0.view() + (m0.key().view + (r0.view() + opt_view(*d) + l1.view())
            + m1.key().view) + r1.view(),
        r.rank() == vstd::math::max(m0.key().rank as int, m1.key().rank as int) + join_rank() + 1,
        r.elems() == l0.nodes() + children_flat(m0.key().nodes) + r0.nodes() + opt_nodes(*d)
            + l1.nodes() + children_flat(m1.key().nodes) + r1.nodes(),
        r matches FingerTree::Deep(_, a, _, b) && a == *l0 && b == *r1,
{
    let mid = add_middle(r0, d, l1, Ghost(h));
    let m = tree_digit_tree(m0.share(), mid, m1.share());
    let t = make_deep(n, l0.share(), m, r1.share(), Ghost(h));
    proof {
        lemma_children_append(m0.key().nodes + mid.nodes(), m1.key().nodes);
        lemma_children_append(m0.key().nodes, mid.nodes());
        assert(t.elems() =~= l0.nodes() + children_flat(m0.key().nodes) + r0.nodes() + opt_nodes(
            *d,
        ) + l1.nodes() + children_flat(m1.key().nodes) + r1.nodes());
    }
    t
}

/// Joins the forced `l` and `r` with the trees of `d` between them.
#[verifier::rlimit(100)]
fn resume_join<T>(
    n: usize,
    l: &LazyTree<T>,
    d: &Option<Digit<T>>,
    r: &LazyTree<T>,
    Ghost(key): Ghost<TreeKey<T>>,
) -> (res: ThunkResult<FingerTree<T>, Suspension<T>, TreeKey<T>>)
    requires
        origin_ok(Origin::Pending(Suspension::Join(n, *l, *d, *r)), key),
        key.view.len() <= usize::MAX,
    ensures
        result_ok(res, key),
    decreases key.rank, 0nat,
{
    reveal(origin_ok);
    let ghost h = key.height;
    proof {
        lemma_lazy_wf(*l, h);
        lemma_lazy_wf(*r, h);
    }
    let lv = force_at(l, Ghost(h));
    if let FingerTree::Empty = &*lv {
        let u = cons_opt_digit(clone_opt(d), r.share(), Ghost(h));
        assert(u.key().nodes =~= key.nodes);
        return redirect(u);
    }
    let rv = force_at(r, Ghost(h));
    if let FingerTree::Empty = &*rv {
        let u = snoc_opt_digit(l.share(), clone_opt(d), Ghost(h));
        assert(u.key().nodes =~= key.nodes);
        return redirect(u);
    }
    if let FingerTree::Single(x) = &*lv {
        let u = cons_opt_digit(clone_opt(d), r.share(), Ghost(h));
        let u2 = cons_node(x.clone(), u);
        assert(u2.key().view =~= key.view);
        assert(u2.key().nodes =~= key.nodes);
        return redirect(u2);
    }
    if let FingerTree::Single(y) = &*rv {
        let u = snoc_opt_digit(l.share(), clone_opt(d), Ghost(h));
        let u2 = snoc_node(u, y.clone());
        assert(u2.key().view =~= key.view);
        assert(u2.key().nodes =~= key.nodes);
        return redirect(u2);
    }
    if let FingerTree::Deep(_, l0, m0, r0) = &*lv {
        if let FingerTree::Deep(_, l1, m1, r1) = &*rv {
            let t = join_deep(n, l0, m0, r0, d, l1, m1, r1, Ghost(h));
            assert(t.view() =~= key.view);
            assert(t.elems() =~= key.nodes);
            return ThunkResult::Value(t);
        }
    }
    proof {
        assert(false);
    }
    ThunkResult::Value(FingerTree::Empty)
}

fn clone_opt<T>(d: &Option<Digit<T>>) -> (r: Option<Digit<T>>)
    ensures
        r == *d,
{
    match d {
        Some(d) => Some(d.share()),
        None => None,
    }
}

/// The children of a nonempty run: those of its first tree, then the rest.
pub proof fn lemma_children_first<T>(ns: Seq<Rc<Node<T>>>)
    requires
        ns.len() > 0,
    ensures
        children_flat(ns) == ns[0].subtrees() + children_flat(ns.drop_first()),
{
    lemma_children_front(ns[0], ns.drop_first());
    assert(seq![ns[0]] + ns.drop_first() =~= ns);
}

/// The tree with its first 2-3 tree taken off, and that tree; `None` and
/// an empty tree when there is none.
#[verifier::rlimit(100)]
pub fn viewl_node<T>(tree: &LazyTree<T>) -> (r: (Option<Rc<Node<T>>>, LazyTree<T>))
    requires
        lazy_wf(*tree),
    ensures
        lazy_ok(r.1, tree.key().height),
        r.0 is None <==> tree.key().view.len() == 0,
        r.0 is None ==> r.1.key().view.len() == 0,
        r.0 matches Some(x) ==> x.wf() && x.height() == tree.key().height && x.view()
            + r.1.key().view == tree.key().view,
        r.0 is None <==> tree.key().nodes.len() == 0,
        r.0 is None ==> r.1.key().nodes.len() == 0,
        r.0 matches Some(x) ==> x == tree.key().nodes[0] && r.1.key().nodes
            == tree.key().nodes.drop_first(),
    decreases tree.key().rank,
{
    let ghost h = tree.key().height;
    let v = force(tree);
    match &*v {
        FingerTree::Empty => (None, empty()),
        FingerTree::Single(x) => {
            proof {
                lemma_view_nonempty(&**x);
            }
            assert(x.view() + Seq::<T>::empty() =~= x.view());
            let e = empty();
            assert(e.key().nodes =~= tree.key().nodes.drop_first());
            (Some(x.clone()), e)
        },
        FingerTree::Deep(_, l, m, r) => {
            proof {
                lemma_flat_small(l.nodes());
                lemma_digit_nonempty(*r, h);
                lemma_digit_nonempty(*l, h);
                lemma_lazy_wf(*m, h + 1);
            }
            let x0 = digit_head(l);
            if let Digit::One(_) = l {
                let rest = match viewl_node(m) {
                    (None, _) => {
                        let t = from_digit(r.share());
                        assert(l.view() + m.key().view + r.view() =~= x0.view() + t.key().view);
                        assert(children_flat(m.key().nodes) =~= Seq::<Rc<Node<T>>>::empty());
                        assert(t.key().nodes =~= tree.key().nodes.drop_first());
                        t
                    },
                    (Some(y), rem) => {
                        proof {
                            lemma_branch_height(&*y);
                        }
                        let t = deep(Digit::from_node(&*y), rem, r.share());
                        assert(l.view() + m.key().view + r.view() =~= x0.view() + t.key().view);
                        proof {
                            lemma_children_first(m.key().nodes);
                        }
                        assert(t.key().nodes =~= tree.key().nodes.drop_first());
                        t
                    },
                };
                (Some(x0), rest)
            } else {
                let t = deep(digit_tail(l), m.share(), r.share());
                assert(l.view() + m.key().view + r.view() =~= x0.view() + t.key().view);
                assert(t.key().nodes =~= tree.key().nodes.drop_first());
                (Some(x0), t)
            }
        },
    }
}

/// The tree with its last 2-3 tree taken off, and that tree; `None` and an
/// empty tree when there is none.
#[verifier::rlimit(100)]
pub fn viewr_node<T>(tree: &LazyTree<T>) -> (r: (LazyTree<T>, Option<Rc<Node<T>>>))
    requires
        lazy_wf(*tree),
    ensures
        lazy_ok(r.0, tree.key().height),
        r.1 is None <==> tree.key().view.len() == 0,
        r.1 is None ==> r.0.key().view.len() == 0,
        r.1 matches Some(x) ==> x.wf() && x.height() == tree.key().height && r.0.key().view
            + x.view() == tree.key().view,
        r.1 is None <==> tree.key().nodes.len() == 0,
        r.1 is None ==> r.0.key().nodes.len() == 0,
        r.1 matches Some(x) ==> x == tree.key().nodes.last() && r.0.key().nodes
            == tree.key().nodes.drop_last(),
    decreases tree.key().rank,
{
    let ghost h = tree.key().height;
    let v = force(tree);
    match &*v {
        FingerTree::Empty => (empty(), None),
        FingerTree::Single(x) => {
            proof {
                lemma_view_nonempty(&**x);
            }
            assert(Seq::<T>::empty() + x.view() =~= x.view());
            let e = empty();
            assert(e.key().nodes =~= tree.key().nodes.drop_last());
            (e, Some(x.clone()))
        },
        FingerTree::Deep(_, l, m, r) => {
            proof {
                lemma_flat_small(r.nodes());
                lemma_digit_nonempty(*l, h);
                lemma_digit_nonempty(*r, h);
                lemma_lazy_wf(*m, h + 1);
                assert(r.nodes().last().height() == h);
            }
            let x0 = digit_last(r);
            if let Digit::One(_) = r {
                let rest = match viewr_node(m) {
                    (_, None) => {
                        let t = from_digit(l.share());
                        assert(l.view() + m.key().view + r.view() =~= t.key().view + x0.view());
                        assert(children_flat(m.key().nodes) =~= Seq::<Rc<Node<T>>>::empty());
                        assert(t.key().nodes =~= tree.key().nodes.drop_last());
                        t
                    },
                    (rem, Some(y)) => {
                        proof {
                            lemma_branch_height(&*y);
                        }
                        let t = deep(l.share(), rem, Digit::from_node(&*y));
                        assert(l.view() + m.key().view + r.view() =~= t.key().view + x0.view());
                        assert(t.key().nodes =~= tree.key().nodes.drop_last());
                        t
                    },
                };
                (rest, Some(x0))
            } else {
                let t = deep(l.share(), m.share(), digit_init(r));
                assert(l.view() + m.key().view + r.view() =~= t.key().view + x0.view());
                assert(t.key().nodes =~= tree.key().nodes.drop_last());
                (t, Some(x0))
            }
        },
    }
}

/// The tree without its first leaf; empty stays empty.
pub fn pop_front<T>(tree: &LazyTree<T>) -> (r: LazyTree<T>)
    requires
        lazy_ok(*tree, 0),
    ensures
        lazy_ok(r, 0),
        r.key().view == tree.key().view.drop_first() || tree.key().view.len() == 0,
        tree.key().view.len() == 0 ==> r.key().view.len() == 0,
{
    proof {
        lemma_lazy_wf(*tree, 0);
    }
    let (x, rest) = viewl_node(tree);
    proof {
        if let Some(x) = x {
            lemma_leaf(&*x);
            assert(rest.key().view =~= tree.key().view.drop_first());
        }
    }
    rest
}

/// The tree without its last leaf; empty stays empty.
pub fn pop_back<T>(tree: &LazyTree<T>) -> (r: LazyTree<T>)
    requires
        lazy_ok(*tree, 0),
    ensures
        lazy_ok(r, 0),
        r.key().view == tree.key().view.drop_last() || tree.key().view.len() == 0,
        tree.key().view.len() == 0 ==> r.key().view.len() == 0,
{
    proof {
        lemma_lazy_wf(*tree, 0);
    }
    let (rest, x) = viewr_node(tree);
    proof {
        if let Some(x) = x {
            lemma_leaf(&*x);
            assert(rest.key().view =~= tree.key().view.drop_last());
        }
    }
    rest
}

/// A tree of height zero is one leaf.
pub proof fn lemma_leaf<T>(x: &Node<T>)
    requires
        x.wf(),
        x.height() == 0,
    ensures
        x.view().len() == 1,
{
    match x {
        Node::Leaf(_) => {},
        Node::Node2(_, a, _) => {},
        Node::Node3(_, a, _, _) => {},
    }
}

/// A tree of positive height is a branch.
pub proof fn lemma_branch_height<T>(x: &Node<T>)
    ensures
        x.height() > 0 ==> !(x is Leaf),
{
}

/// The leaf at position `i` of the tree.
pub fn lookup<T>(i: usize, tree: &LazyTree<T>) -> (r: Rc<T>)
    requires
        lazy_wf(*tree),
        i < tree.key().view.len(),
    ensures
        *r == tree.key().view[i as int],
    decreases tree.key().rank,
{
    let ghost h = tree.key().height;
    let v = force(tree);
    match &*v {
        FingerTree::Empty => {
            proof {
                assert(false);
            }
            lookup(i, tree)
        },
        FingerTree::Single(x) => node::lookup(i, x),
        FingerTree::Deep(_, l, m, r) => {
            proof {
                lemma_lazy_wf(*m, h + 1);
                assert(l.nodes()[0].height() == h);
                assert(r.nodes()[0].height() == h);
            }
            let i1 = l.measure();
            if i < i1 {
                return digit::lookup(i, l);
            }
            let i2 = i1 + measure(m);
            if i < i2 {
                assert(tree.key().view[i as int] == m.key().view[i - i1]);
                lookup(i - i1, m)
            } else {
                assert(tree.key().view[i as int] == r.view()[i - i2]);
                digit::lookup(i - i2, r)
            }
        },
    }
}

/// A copy of the tree in which leaf `i` holds `x`; only the path to that
/// leaf is rebuilt.
pub fn adjust<T>(x: Rc<T>, i: usize, tree: &LazyTree<T>) -> (r: LazyTree<T>)
    requires
        lazy_wf(*tree),
        i < tree.key().view.len(),
    ensures
        lazy_ok(r, tree.key().height),
        r.key().view == tree.key().view.update(i as int, *x),
        shapes_match(r.key().nodes, tree.key().nodes),
    decreases tree.key().rank,
{
    let ghost h = tree.key().height;
    let v = force(tree);
    match &*v {
        FingerTree::Empty => {
            proof {
                assert(false);
            }
            tree.share()
        },
        FingerTree::Single(n) => {
            let n2 = node::adjust(x, i, n);
            let t = single(n2);
            assert(t.key().nodes[0] == n2);
            t
        },
        FingerTree::Deep(_, l, m, r) => {
            proof {
                lemma_lazy_wf(*m, h + 1);
                assert(l.nodes()[0].height() == h);
                assert(r.nodes()[0].height() == h);
            }
            let i1 = l.measure();
            if i < i1 {
                let l2 = digit::adjust(x, i, l);
                let t = deep(l2, m.share(), r.share());
                assert(t.key().view =~= tree.key().view.update(i as int, *x));
                proof {
                    let c = children_flat(m.key().nodes);
                    lemma_shapes_refl(c);
                    lemma_shapes_refl(r.nodes());
                    lemma_shapes_append(l2.nodes(), c, l.nodes(), c);
                    lemma_shapes_append(l2.nodes() + c, r.nodes(), l.nodes() + c, r.nodes());
                }
                return t;
            }
            let i2 = i1 + measure(m);
            if i < i2 {
                let m2 = adjust(x, i - i1, m);
                let t = deep(l.share(), m2, r.share());
                assert(t.key().view =~= tree.key().view.update(i as int, *x));
                proof {
                    let c = children_flat(m.key().nodes);
                    let c2 = children_flat(m2.key().nodes);
                    lemma_shapes_children(m2.key().nodes, m.key().nodes);
                    lemma_shapes_refl(l.nodes());
                    lemma_shapes_refl(r.nodes());
                    lemma_shapes_append(l.nodes(), c2, l.nodes(), c);
                    lemma_shapes_append(l.nodes() + c2, r.nodes(), l.nodes() + c, r.nodes());
                }
                t
            } else {
                let r2 = digit::adjust(x, i - i2, r);
                let t = deep(l.share(), m.share(), r2);
                assert(t.key().view =~= tree.key().view.update(i as int, *x));
                proof {
                    let c = children_flat(m.key().nodes);
                    lemma_shapes_refl(c);
                    lemma_shapes_refl(l.nodes());
                    lemma_shapes_append(l.nodes(), c, l.nodes(), c);
                    lemma_shapes_append(l.nodes() + c, r2.nodes(), l.nodes() + c, r.nodes());
                }
                t
            }
        },
    }
}

/// The tree of an optional left digit, a spine and a right digit; when the
/// left digit is missing, one is taken from the spine's front.
pub fn deep_left<T>(left: Option<Digit<T>>, middle: LazyTree<T>, right: Digit<T>, Ghost(h): Ghost<
    nat,
>) -> (r: LazyTree<T>)
    requires
        opt_wf(left, h),
        right.wf(h),
        lazy_ok(middle, h + 1),
        opt_view(left).len() + middle.key().view.len() + right.view().len() <= usize::MAX,
    ensures
        lazy_ok(r, h),
        r.key().view == opt_view(left) + middle.key().view + right.view(),
        r.key().nodes == opt_nodes(left) + children_flat(middle.key().nodes) + right.nodes(),
{
    proof {
        lemma_lazy_wf(middle, h + 1);
        assert(right.nodes()[0].height() == h);
    }
    match left {
        Some(left) => {
            proof {
                assert(left.nodes()[0].height() == h);
            }
            deep(left, middle, right)
        },
        None => match viewl_node(&middle) {
            (None, _) => {
                let t = from_digit(right);
                assert(t.key().view =~= opt_view(left) + middle.key().view + right.view());
                assert(children_flat(middle.key().nodes) =~= Seq::<Rc<Node<T>>>::empty());
                assert(t.key().nodes =~= opt_nodes(left) + children_flat(middle.key().nodes)
                    + right.nodes());
                t
            },
            (Some(node), rem) => {
                proof {
                    lemma_branch_height(&*node);
                }
                let t = deep(Digit::from_node(&*node), rem, right);
                assert(t.key().view =~= opt_view(left) + middle.key().view + right.view());
                proof {
                    lemma_children_first(middle.key().nodes);
                }
                assert(t.key().nodes =~= opt_nodes(left) + children_flat(middle.key().nodes)
                    + right.nodes());
                t
            },
        },
    }
}

/// The tree of a left digit, a spine and an optional right digit; when the
/// right digit is missing, one is taken from the spine's back.
pub fn deep_right<T>(left: Digit<T>, middle: LazyTree<T>, right: Option<Digit<T>>, Ghost(h): Ghost<
    nat,
>) -> (r: LazyTree<T>)
    requires
        left.wf(h),
        opt_wf(right, h),
        lazy_ok(middle, h + 1),
        left.view().len() + middle.key().view.len() + opt_view(right).len() <= usize::MAX,
    ensures
        lazy_ok(r, h),
        r.key().view == left.view() + middle.key().view + opt_view(right),
        r.key().nodes == left.nodes() + children_flat(middle.key().nodes) + opt_nodes(right),
{
    proof {
        lemma_lazy_wf(middle, h + 1);
        assert(left.nodes()[0].height() == h);
    }
    match right {
        Some(right) => deep(left, middle, right),
        None => match viewr_node(&middle) {
            (_, None) => {
                let t = from_digit(left);
                assert(t.key().view =~= left.view() + middle.key().view + opt_view(right));
                assert(children_flat(middle.key().nodes) =~= Seq::<Rc<Node<T>>>::empty());
                assert(t.key().nodes =~= left.nodes() + children_flat(middle.key().nodes)
                    + opt_nodes(right));
                t
            },
            (rem, Some(node)) => {
                proof {
                    lemma_branch_height(&*node);
                }
                let t = deep(left, rem, Digit::from_node(&*node));
                assert(t.key().view =~= left.view() + middle.key().view + opt_view(right));
                assert(t.key().nodes =~= left.nodes() + children_flat(middle.key().nodes)
                    + opt_nodes(right));
                t
            },
        },
    }
}

/// The tree split around the 2-3 tree that holds leaf `i`: the trees
/// before it, that tree, and the trees after it.
#[verifier::rlimit(100)]
pub fn split<T>(i: usize, tree: &LazyTree<T>) -> (r: (LazyTree<T>, Rc<Node<T>>, LazyTree<T>))
    requires
        lazy_wf(*tree),
        i < tree.key().view.len(),
    ensures
        lazy_ok(r.0, tree.key().height),
        lazy_ok(r.2, tree.key().height),
        r.1.wf(),
        r.1.height() == tree.key().height,
        r.0.key().view + r.1.view() + r.2.key().view == tree.key().view,
        r.0.key().view.len() <= i < r.0.key().view.len() + r.1.view().len(),
        r.0.key().nodes + seq![r.1] + r.2.key().nodes == tree.key().nodes,
    decreases tree.key().rank, 0nat,
{
    let ghost h = tree.key().height;
    let v = force(tree);
    match &*v {
        FingerTree::Empty => {
            proof {
                assert(false);
            }
            split(i, tree)
        },
        FingerTree::Single(x) => {
            assert(Seq::<T>::empty() + x.view() + Seq::<T>::empty() =~= x.view());
            let (b, a) = (empty(), empty());
            assert(b.key().nodes + seq![*x] + a.key().nodes =~= tree.key().nodes);
            (b, x.clone(), a)
        },
        FingerTree::Deep(_, l, m, r) => {
            proof {
                lemma_lazy_wf(*m, h + 1);
                assert(l.nodes()[0].height() == h);
                assert(r.nodes()[0].height() == h);
            }
            let i1 = l.measure();
            if i < i1 {
                let (before, x, after) = digit::split_once(i, l);
                let b = from_opt_digit(before, Ghost(h));
                let a = deep_left(after, m.share(), r.share(), Ghost(h));
                assert(b.key().view + x.view() + a.key().view =~= tree.key().view);
                assert(b.key().nodes + seq![x] + a.key().nodes =~= tree.key().nodes);
                return (b, x, a);
            }
            let i2 = i1 + measure(m);
            if i < i2 {
                let res = split_spine(i, i1, l, m, r, Ghost(h));
                assert(res.0.key().nodes + seq![res.1] + res.2.key().nodes =~= tree.key().nodes);
                res
            } else {
                let (before, x, after) = digit::split_once(i - i2, r);
                let b = deep_right(l.share(), m.share(), before, Ghost(h));
                let a = from_opt_digit(after, Ghost(h));
                assert(b.key().view + x.view() + a.key().view =~= tree.key().view);
                assert(b.key().nodes + seq![x] + a.key().nodes =~= tree.key().nodes);
                (b, x, a)
            }
        },
    }
}

/// The children of a run split around one of its trees.
pub proof fn lemma_split_children<T>(
    a: Seq<Rc<Node<T>>>,
    x: Rc<Node<T>>,
    b: Seq<Rc<Node<T>>>,
)
    ensures
        children_flat(a + seq![x] + b) == children_flat(a) + x.subtrees() + children_flat(b),
{
    lemma_children_append(a + seq![x], b);
    lemma_children_append(a, seq![x]);
    lemma_children_front(x, Seq::empty());
}

/// Splits `Deep(l, m, r)` where leaf `i` lies in the spine, after `i1` leaves
/// of the left digit.
#[verifier::rlimit(100)]
fn split_spine<T>(
    i: usize,
    i1: usize,
    l: &Digit<T>,
    m: &LazyTree<T>,
    r: &Digit<T>,
    Ghost(h): Ghost<nat>,
) -> (res: (LazyTree<T>, Rc<Node<T>>, LazyTree<T>))
    requires
        l.wf(h),
        r.wf(h),
        lazy_ok(*m, h + 1),
        i1 == l.view().len(),
        i1 <= i < i1 + m.key().view.len(),
        l.view().len() + m.key().view.len() + r.view().len() <= usize::MAX,
    ensures
        lazy_ok(res.0, h),
        lazy_ok(res.2, h),
        res.1.wf(),
        res.1.height() == h,
        res.0.key().view + res.1.view() + res.2.key().view == l.view() + m.key().view + r.view(),
        res.0.key().view.len() <= i < res.0.key().view.len() + res.1.view().len(),
        res.0.key().nodes + seq![res.1] + res.2.key().nodes == l.nodes() + children_flat(
            m.key().nodes,
        ) + r.nodes(),
    decreases m.key().rank, 1nat,
{
    proof {
        lemma_lazy_wf(*m, h + 1);
    }
    let (mb, node, ma) = split(i - i1, m);
    proof {
        lemma_branch_height(&*node);
    }
    let i_node = i - i1 - measure(&mb);
    let (nb, x, na) = node::split_once(i_node, &*node);
    let b = deep_right(l.share(), mb, nb, Ghost(h));
    let a = deep_left(na, ma, r.share(), Ghost(h));
    assert(b.key().view + x.view() + a.key().view =~= l.view() + m.key().view + r.view());
    proof {
        lemma_split_children(mb.key().nodes, node, ma.key().nodes);
        assert(b.key().nodes + seq![x] + a.key().nodes =~= l.nodes() + children_flat(m.key().nodes)
            + r.nodes());
    }
    (b, x, a)
}

/// Any two values that forcing a lazy tree may return hold the same leaves:
/// forcing it twice gives the same sequence.
pub proof fn law_force_agrees<T>(t: LazyTree<T>, a: FingerTree<T>, b: FingerTree<T>)
    requires
        t.key().admits(&a),
        t.key().admits(&b),
    ensures
        a.view() == b.view(),
{
}

} // verus!
