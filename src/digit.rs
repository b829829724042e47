use vstd::prelude::*;
use std::rc::Rc;
use crate::node::{Node, node2, node3, lemma_view_nonempty};
use crate::node;

verus! {

/// One to four 2-3 trees of equal height: the buffer at either end of a
/// finger tree level.
pub enum Digit<T> {
    One(Rc<Node<T>>),
    Two(Rc<Node<T>>, Rc<Node<T>>),
    Three(Rc<Node<T>>, Rc<Node<T>>, Rc<Node<T>>),
    Four(Rc<Node<T>>, Rc<Node<T>>, Rc<Node<T>>, Rc<Node<T>>),
}

/// The leaves of a run of 2-3 trees, left to right.
pub open spec fn flat<T>(ns: Seq<Rc<Node<T>>>) -> Seq<T>
    decreases ns.len(),
{
    if ns.len() == 0 {
        Seq::empty()
    } else {
        flat(ns.drop_last()) + ns.last().view()
    }
}

/// Every tree of the run is well formed and of height `h`.
pub open spec fn all_wf<T>(ns: Seq<Rc<Node<T>>>, h: nat) -> bool {
    forall|k: int| 0 <= k < ns.len() ==> (#[trigger] ns[k]).wf() && ns[k].height() == h
}

/// What an optional digit holds; nothing for `None`.
pub open spec fn opt_view<T>(d: Option<Digit<T>>) -> Seq<T> {
    match d {
        Some(d) => d.view(),
        None => Seq::empty(),
    }
}

/// The children of a run of branches, left to right.
pub open spec fn children_flat<T>(ns: Seq<Rc<Node<T>>>) -> Seq<Rc<Node<T>>>
    decreases ns.len(),
{
    if ns.len() == 0 {
        Seq::empty()
    } else {
        children_flat(ns.drop_last()) + ns.last().subtrees()
    }
}

/// How many groups of two a run of `n` trees is grouped with: none when
/// threes fit exactly, else one or two.
pub open spec fn twos(n: nat) -> nat {
    if n % 3 == 0 {
        0
    } else if n % 3 == 2 {
        1
    } else {
        2
    }
}

/// `gs` groups the run `ns` in order: the children of `gs` are `ns`, there
/// are as few groups as possible, and the groups of two come first.
pub open spec fn grouped<T>(gs: Seq<Rc<Node<T>>>, ns: Seq<Rc<Node<T>>>) -> bool {
    &&& children_flat(gs) == ns
    &&& gs.len() == (ns.len() + 2) / 3
    &&& forall|k: int|
        #![trigger gs[k]]
        0 <= k < gs.len() ==> ((*gs[k] is Node2) <==> k < twos(ns.len())) && (*gs[k] is Node2
            || *gs[k] is Node3)
}

pub proof fn lemma_children_push<T>(ns: Seq<Rc<Node<T>>>, x: Rc<Node<T>>)
    ensures
        children_flat(ns.push(x)) == children_flat(ns) + x.subtrees(),
{
    assert(ns.push(x).drop_last() =~= ns);
}

pub proof fn lemma_children_append<T>(a: Seq<Rc<Node<T>>>, b: Seq<Rc<Node<T>>>)
    ensures
        children_flat(a + b) == children_flat(a) + children_flat(b),
    decreases b.len(),
{
    if b.len() == 0 {
        assert(a + b =~= a);
        assert(children_flat(a) + children_flat(b) =~= children_flat(a));
    } else {
        lemma_children_append(a, b.drop_last());
        assert((a + b).drop_last() =~= a + b.drop_last());
        assert(children_flat(a + b) =~= children_flat(a) + children_flat(b));
    }
}

/// The children of a single branch, and of a run that starts with one.
pub proof fn lemma_children_front<T>(x: Rc<Node<T>>, ns: Seq<Rc<Node<T>>>)
    ensures
        children_flat(seq![x]) == x.subtrees(),
        children_flat(seq![x] + ns) == x.subtrees() + children_flat(ns),
{
    lemma_children_push(Seq::<Rc<Node<T>>>::empty(), x);
    assert(Seq::<Rc<Node<T>>>::empty().push(x) =~= seq![x]);
    assert(children_flat(Seq::<Rc<Node<T>>>::empty()) + x.subtrees() =~= x.subtrees());
    lemma_children_append(seq![x], ns);
}

/// Two runs of trees of the same length whose trees pairwise have the same
/// shape.
pub open spec fn shapes_match<T>(a: Seq<Rc<Node<T>>>, b: Seq<Rc<Node<T>>>) -> bool {
    a.len() == b.len() && forall|k: int| 0 <= k < a.len() ==> (#[trigger] a[k]).same_shape(&*b[k])
}

pub proof fn lemma_shapes_refl<T>(a: Seq<Rc<Node<T>>>)
    ensures
        shapes_match(a, a),
{
    assert forall|k: int| 0 <= k < a.len() implies (#[trigger] a[k]).same_shape(&*a[k]) by {
        crate::node::lemma_same_shape_refl(&*a[k]);
    }
}

pub proof fn lemma_shapes_append<T>(
    a: Seq<Rc<Node<T>>>,
    b: Seq<Rc<Node<T>>>,
    c: Seq<Rc<Node<T>>>,
    d: Seq<Rc<Node<T>>>,
)
    requires
        shapes_match(a, c),
        shapes_match(b, d),
    ensures
        shapes_match(a + b, c + d),
{
    assert forall|k: int| 0 <= k < (a + b).len() implies (#[trigger] (a + b)[k]).same_shape(
        &*(c + d)[k],
    ) by {
        if k < a.len() {
            assert((a + b)[k] == a[k] && (c + d)[k] == c[k]);
        } else {
            assert((a + b)[k] == b[k - a.len()] && (c + d)[k] == d[k - a.len()]);
        }
    }
}

/// Runs of the same shapes have children of the same shapes.
pub proof fn lemma_shapes_children<T>(a: Seq<Rc<Node<T>>>, b: Seq<Rc<Node<T>>>)
    requires
        shapes_match(a, b),
    ensures
        shapes_match(children_flat(a), children_flat(b)),
    decreases a.len(),
{
    if a.len() == 0 {
        assert(children_flat(a) =~= Seq::<Rc<Node<T>>>::empty());
        assert(children_flat(b) =~= Seq::<Rc<Node<T>>>::empty());
    } else {
        let (a0, b0) = (a.drop_last(), b.drop_last());
        assert forall|k: int| 0 <= k < a0.len() implies (#[trigger] a0[k]).same_shape(&*b0[k]) by {
            assert(a0[k] == a[k] && b0[k] == b[k]);
        }
        lemma_shapes_children(a0, b0);
        let (x, y) = (a.last(), b.last());
        assert(x.same_shape(&*y));
        assert(shapes_match(x.subtrees(), y.subtrees()));
        lemma_shapes_append(children_flat(a0), x.subtrees(), children_flat(b0), y.subtrees());
    }
}

/// The trees of an optional digit; none for `None`.
pub open spec fn opt_nodes<T>(d: Option<Digit<T>>) -> Seq<Rc<Node<T>>> {
    match d {
        Some(d) => d.nodes(),
        None => Seq::empty(),
    }
}

/// An optional digit is absent or well formed of height `h`.
pub open spec fn opt_wf<T>(d: Option<Digit<T>>, h: nat) -> bool {
    match d {
        Some(d) => d.wf(h),
        None => true,
    }
}

pub proof fn lemma_flat_push<T>(ns: Seq<Rc<Node<T>>>, x: Rc<Node<T>>)
    ensures
        flat(ns.push(x)) == flat(ns) + x.view(),
{
    assert(ns.push(x).drop_last() =~= ns);
}

pub proof fn lemma_flat_append<T>(a: Seq<Rc<Node<T>>>, b: Seq<Rc<Node<T>>>)
    ensures
        flat(a + b) == flat(a) + flat(b),
    decreases b.len(),
{
    if b.len() == 0 {
        assert(a + b =~= a);
        assert(flat(b) =~= Seq::<T>::empty());
        assert(flat(a) + flat(b) =~= flat(a));
    } else {
        lemma_flat_append(a, b.drop_last());
        assert((a + b).drop_last() =~= a + b.drop_last());
        assert(flat(a + b) =~= flat(a) + flat(b));
    }
}

/// Splitting a run at `k` splits its leaves.
pub proof fn lemma_flat_split<T>(ns: Seq<Rc<Node<T>>>, k: int)
    requires
        0 <= k <= ns.len(),
    ensures
        flat(ns) == flat(ns.subrange(0, k)) + flat(ns.subrange(k, ns.len() as int)),
{
    lemma_flat_append(ns.subrange(0, k), ns.subrange(k, ns.len() as int));
    assert(ns.subrange(0, k) + ns.subrange(k, ns.len() as int) =~= ns);
}

/// The leaves of the trees up to and including position `k`.
pub proof fn lemma_flat_prefix<T>(ns: Seq<Rc<Node<T>>>, k: int)
    requires
        0 <= k < ns.len(),
    ensures
        flat(ns.subrange(0, k + 1)) == flat(ns.subrange(0, k)) + ns[k].view(),
{
    assert(ns.subrange(0, k + 1) =~= ns.subrange(0, k).push(ns[k]));
    lemma_flat_push(ns.subrange(0, k), ns[k]);
}

/// A run of single trees.
pub proof fn lemma_flat_small<T>(ns: Seq<Rc<Node<T>>>)
    requires
        1 <= ns.len() <= 4,
    ensures
        ns.len() == 1 ==> flat(ns) == ns[0].view(),
        ns.len() == 2 ==> flat(ns) == ns[0].view() + ns[1].view(),
        ns.len() == 3 ==> flat(ns) == ns[0].view() + ns[1].view() + ns[2].view(),
        ns.len() == 4 ==> flat(ns) == ns[0].view() + ns[1].view() + ns[2].view() + ns[3].view(),
{
    let s0 = ns.subrange(0, 0);
    assert(flat(s0) =~= Seq::<T>::empty());
    lemma_flat_prefix(ns, 0);
    assert(ns.subrange(0, 1) =~= ns ==> flat(ns) =~= ns[0].view());
    if ns.len() >= 2 {
        lemma_flat_prefix(ns, 1);
    }
    if ns.len() >= 3 {
        lemma_flat_prefix(ns, 2);
    }
    if ns.len() >= 4 {
        lemma_flat_prefix(ns, 3);
    }
    assert(ns.subrange(0, ns.len() as int) =~= ns);
}

impl<T> Digit<T> {
    /// The trees, left to right.
    pub open spec fn nodes(&self) -> Seq<Rc<Node<T>>> {
        match self {
            Digit::One(a) => seq![*a],
            Digit::Two(a, b) => seq![*a, *b],
            Digit::Three(a, b, c) => seq![*a, *b, *c],
            Digit::Four(a, b, c, d) => seq![*a, *b, *c, *d],
        }
    }

    /// The leaves, left to right.
    pub open spec fn view(&self) -> Seq<T> {
        flat(self.nodes())
    }

    /// All trees are well formed and of height `h`.
    pub open spec fn wf(&self, h: nat) -> bool {
        all_wf(self.nodes(), h)
    }

    /// The number of leaves.
    pub fn measure(&self) -> (r: usize)
        requires
            self.wf(self.nodes()[0].height()),
            self.view().len() <= usize::MAX,
        ensures
            r == self.view().len(),
    {
        proof {
            lemma_flat_small(self.nodes());
        }
        match self {
            Digit::One(a) => a.measure(),
            Digit::Two(a, b) => a.measure() + b.measure(),
            Digit::Three(a, b, c) => a.measure() + b.measure() + c.measure(),
            Digit::Four(a, b, c, d) => a.measure() + b.measure() + c.measure() + d.measure(),
        }
    }

    /// The trees, in a vector appended to `v`.
    pub fn push_nodes(&self, v: &mut Vec<Rc<Node<T>>>)
        ensures
            final(v)@ == old(v)@ + self.nodes(),
    {
        match self {
            Digit::One(a) => {
                v.push(a.clone());
            },
            Digit::Two(a, b) => {
                v.push(a.clone());
                v.push(b.clone());
            },
            Digit::Three(a, b, c) => {
                v.push(a.clone());
                v.push(b.clone());
                v.push(c.clone());
            },
            Digit::Four(a, b, c, d) => {
                v.push(a.clone());
                v.push(b.clone());
                v.push(c.clone());
                v.push(d.clone());
            },
        }
        assert(final(v)@ =~= old(v)@ + self.nodes());
    }

    /// A copy sharing the same trees.
    pub fn share(&self) -> (r: Digit<T>)
        ensures
            r == *self,
    {
        match self {
            Digit::One(a) => Digit::One(a.clone()),
            Digit::Two(a, b) => Digit::Two(a.clone(), b.clone()),
            Digit::Three(a, b, c) => Digit::Three(a.clone(), b.clone(), c.clone()),
            Digit::Four(a, b, c, d) => Digit::Four(a.clone(), b.clone(), c.clone(), d.clone()),
        }
    }
}

/// The digit made of the trees `ns[lo..hi]`, one to four of them.
pub fn from_range<T>(ns: &Vec<Rc<Node<T>>>, lo: usize, hi: usize) -> (r: Digit<T>)
    requires
        lo < hi <= ns.len(),
        hi - lo <= 4,
    ensures
        r.nodes() == ns@.subrange(lo as int, hi as int),
{
    let n = hi - lo;
    let r = if n == 1 {
        Digit::One(ns[lo].clone())
    } else if n == 2 {
        Digit::Two(ns[lo].clone(), ns[lo + 1].clone())
    } else if n == 3 {
        Digit::Three(ns[lo].clone(), ns[lo + 1].clone(), ns[lo + 2].clone())
    } else {
        Digit::Four(ns[lo].clone(), ns[lo + 1].clone(), ns[lo + 2].clone(), ns[lo + 3].clone())
    };
    assert(r.nodes() =~= ns@.subrange(lo as int, hi as int));
    r
}

/// The digit made of the trees `ns[lo..hi]`, or `None` when the range is empty.
pub fn opt_from_range<T>(ns: &Vec<Rc<Node<T>>>, lo: usize, hi: usize) -> (r: Option<Digit<T>>)
    requires
        lo <= hi <= ns.len(),
        hi - lo <= 4,
    ensures
        r is None <==> lo == hi,
        r matches Some(d) ==> d.nodes() == ns@.subrange(lo as int, hi as int),
        opt_view(r) == flat(ns@.subrange(lo as int, hi as int)),
        opt_nodes(r) == ns@.subrange(lo as int, hi as int),
{
    if lo == hi {
        assert(flat(ns@.subrange(lo as int, hi as int)) =~= Seq::<T>::empty());
        assert(ns@.subrange(lo as int, hi as int) =~= Seq::<Rc<Node<T>>>::empty());
        None
    } else {
        Some(from_range(ns, lo, hi))
    }
}

/// The leaves of a run around its tree at position `k`.
pub proof fn lemma_flat_at<T>(ns: Seq<Rc<Node<T>>>, k: int)
    requires
        0 <= k < ns.len(),
    ensures
        flat(ns) == flat(ns.subrange(0, k)) + ns[k].view() + flat(
            ns.subrange(k + 1, ns.len() as int),
        ),
{
    lemma_flat_split(ns, k + 1);
    lemma_flat_prefix(ns, k);
}

/// The position `k` of the tree of `ns` that holds leaf `i`, with the
/// number of leaves before it.
pub fn find_tree<T>(i: usize, ns: &Vec<Rc<Node<T>>>) -> (r: (usize, usize))
    requires
        forall|k: int| 0 <= k < ns.len() ==> (#[trigger] ns@[k]).sized(),
        i < flat(ns@).len(),
        flat(ns@).len() <= usize::MAX,
    ensures
        r.0 < ns.len(),
        r.1 == flat(ns@.subrange(0, r.0 as int)).len(),
        r.1 <= i < r.1 + ns@[r.0 as int].view().len(),
{
    let n = ns.len();
    let mut k: usize = 0;
    let mut acc: usize = 0;
    proof {
        assert(flat(ns@.subrange(0, 0)) =~= Seq::<T>::empty());
    }
    while k < n
        invariant
            n == ns.len(),
            k <= n,
            forall|j: int| 0 <= j < ns.len() ==> (#[trigger] ns@[j]).sized(),
            acc == flat(ns@.subrange(0, k as int)).len(),
            acc <= i,
            i < flat(ns@).len(),
            flat(ns@).len() <= usize::MAX,
        decreases n - k,
    {
        proof {
            lemma_flat_at(ns@, k as int);
        }
        let m = ns[k].measure();
        if i < acc + m {
            return (k, acc);
        }
        proof {
            lemma_flat_prefix(ns@, k as int);
        }
        acc = acc + m;
        k = k + 1;
    }
    proof {
        assert(ns@.subrange(0, n as int) =~= ns@);
    }
    (0, 0)
}

/// The leaf at position `i` of a run of trees.
pub fn lookup_nodes<T>(i: usize, ns: &Vec<Rc<Node<T>>>) -> (r: Rc<T>)
    requires
        forall|k: int| 0 <= k < ns.len() ==> (#[trigger] ns@[k]).sized(),
        i < flat(ns@).len(),
        flat(ns@).len() <= usize::MAX,
    ensures
        *r == flat(ns@)[i as int],
{
    let (k, acc) = find_tree(i, ns);
    proof {
        lemma_flat_at(ns@, k as int);
    }
    node::lookup(i - acc, &ns[k])
}

/// The run of trees split around the tree that holds leaf `i`.
pub fn split_nodes<T>(i: usize, ns: &Vec<Rc<Node<T>>>) -> (r: (
    Option<Digit<T>>,
    Rc<Node<T>>,
    Option<Digit<T>>,
))
    requires
        1 <= ns.len() <= 5,
        forall|k: int| 0 <= k < ns.len() ==> (#[trigger] ns@[k]).sized(),
        i < flat(ns@).len(),
        flat(ns@).len() <= usize::MAX,
    ensures
        opt_view(r.0) + r.1.view() + opt_view(r.2) == flat(ns@),
        opt_view(r.0).len() <= i < opt_view(r.0).len() + r.1.view().len(),
        forall|h: nat| all_wf(ns@, h) ==> opt_wf(r.0, h) && opt_wf(r.2, h) && r.1.wf()
            && r.1.height() == h,
        ns.len() <= 4 ==> r.0 is Some || r.2 is Some || ns.len() == 1,
        opt_nodes(r.0) + seq![r.1] + opt_nodes(r.2) == ns@,
{
    let n = ns.len();
    let (k, acc) = find_tree(i, ns);
    proof {
        lemma_flat_at(ns@, k as int);
    }
    let before = opt_from_range(ns, 0, k);
    let after = opt_from_range(ns, k + 1, n);
    assert forall|h: nat| all_wf(ns@, h) implies opt_wf(before, h) && opt_wf(after, h) by {
        if let Some(d) = before {
            assert forall|j: int| 0 <= j < d.nodes().len() implies (#[trigger] d.nodes()[j]).wf()
                && d.nodes()[j].height() == h by {
                assert(d.nodes()[j] == ns@[j]);
            }
        }
        if let Some(d) = after {
            assert forall|j: int| 0 <= j < d.nodes().len() implies (#[trigger] d.nodes()[j]).wf()
                && d.nodes()[j].height() == h by {
                assert(d.nodes()[j] == ns@[k + 1 + j]);
            }
        }
    }
    assert(opt_nodes(before) + seq![ns@[k as int]] + opt_nodes(after) =~= ns@);
    (before, ns[k].clone(), after)
}

proof fn lemma_group_step<T>(prev: Seq<Rc<Node<T>>>, c: Rc<Node<T>>, t: nat)
    requires
        *c is Node3,
        prev.len() >= t,
        forall|k: int|
            #![trigger prev[k]]
            0 <= k < prev.len() ==> ((*prev[k] is Node2) <==> k < t) && (*prev[k] is Node2
                || *prev[k] is Node3),
    ensures
        forall|k: int|
            #![trigger prev.push(c)[k]]
            0 <= k < prev.len() + 1 ==> ((*prev.push(c)[k] is Node2) <==> k < t) && (
            *prev.push(c)[k] is Node2 || *prev.push(c)[k] is Node3),
{
    assert forall|k: int| 0 <= k < prev.len() + 1 implies ((*prev.push(c)[k] is Node2) <==> k < t)
        && (*prev.push(c)[k] is Node2 || *prev.push(c)[k] is Node3) by {
        if k < prev.len() {
            assert(prev.push(c)[k] == prev[k]);
        }
    }
}

/// Groups two to twelve trees of equal height, in order, into one to four
/// trees one level taller: all of three children except one or two of two
/// children at the front.
#[verifier::rlimit(100)]
fn group<T>(ns: &Vec<Rc<Node<T>>>) -> (r: Digit<T>)
    requires
        2 <= ns.len() <= 12,
        all_wf(ns@, ns@[0].height()),
        flat(ns@).len() <= usize::MAX,
    ensures
        r.wf(ns@[0].height() + 1),
        r.view() == flat(ns@),
        grouped(r.nodes(), ns@),
{
    let ghost h = ns@[0].height();
    let ghost t = twos(ns.len() as nat);
    let n = ns.len();
    let mut out: Vec<Rc<Node<T>>> = Vec::new();
    let mut i: usize = 0;
    proof {
        assert(flat(ns@.subrange(0, 0)) =~= Seq::<T>::empty());
        assert(flat(out@) =~= Seq::<T>::empty());
        assert(children_flat(out@) =~= ns@.subrange(0, 0));
    }
    if n % 3 != 0 {
        proof {
            lemma_flat_prefix(ns@, 0);
            lemma_flat_prefix(ns@, 1);
            lemma_flat_split(ns@, 2);
        }
        let a = node2(ns[0].clone(), ns[1].clone());
        proof {
            lemma_flat_push(out@, a);
            lemma_children_push(out@, a);
            assert(ns@.subrange(0, 2) =~= ns@.subrange(0, 0) + a.subtrees());
        }
        out.push(a);
        i = 2;
        if n % 3 == 1 {
            proof {
                lemma_flat_prefix(ns@, 2);
                lemma_flat_prefix(ns@, 3);
                lemma_flat_split(ns@, 4);
            }
            let b = node2(ns[2].clone(), ns[3].clone());
            proof {
                lemma_flat_push(out@, b);
                lemma_children_push(out@, b);
                assert(ns@.subrange(0, 4) =~= ns@.subrange(0, 2) + b.subtrees());
            }
            out.push(b);
            i = 4;
        }
    }
    while i < n
        invariant
            n == ns.len(),
            2 <= n <= 12,
            i <= n,
            (n - i) % 3 == 0,
            all_wf(ns@, h),
            flat(ns@).len() <= usize::MAX,
            all_wf(out@, h + 1),
            flat(out@) == flat(ns@.subrange(0, i as int)),
            t == twos(n as nat),
            out.len() >= t,
            i == 2 * t + 3 * (out.len() - t),
            children_flat(out@) == ns@.subrange(0, i as int),
            forall|k: int|
                #![trigger out@[k]]
                0 <= k < out.len() ==> ((*out@[k] is Node2) <==> k < t) && (*out@[k] is Node2
                    || *out@[k] is Node3),
        decreases n - i,
    {
        proof {
            lemma_flat_prefix(ns@, i as int);
            lemma_flat_prefix(ns@, i + 1);
            lemma_flat_prefix(ns@, i + 2);
            lemma_flat_split(ns@, i + 3);
        }
        let c = node3(ns[i].clone(), ns[i + 1].clone(), ns[i + 2].clone());
        proof {
            lemma_flat_push(out@, c);
            lemma_children_push(out@, c);
            assert(ns@.subrange(0, i + 3) =~= ns@.subrange(0, i as int) + c.subtrees());
        }
        let ghost prev = out@;
        out.push(c);
        proof {
            lemma_group_step(prev, c, t);
        }
        i = i + 3;
    }
    proof {
        assert(ns@.subrange(0, n as int) =~= ns@);
    }
    let r = from_range(&out, 0, out.len());
    proof {
        assert(out@.subrange(0, out.len() as int) =~= out@);
        assert(out.len() == (n + 2) / 3);
    }
    r
}

/// The trees of two digits regrouped into one level taller trees.
pub fn add_2_digits<T>(d0: Digit<T>, d1: Digit<T>) -> (r: Digit<T>)
    requires
        d0.wf(d0.nodes()[0].height()),
        d1.wf(d0.nodes()[0].height()),
        d0.view().len() + d1.view().len() <= usize::MAX,
    ensures
        r.wf(d0.nodes()[0].height() + 1),
        r.view() == d0.view() + d1.view(),
        grouped(r.nodes(), d0.nodes() + d1.nodes()),
{
    let mut ns: Vec<Rc<Node<T>>> = Vec::new();
    d0.push_nodes(&mut ns);
    d1.push_nodes(&mut ns);
    proof {
        assert(ns@ =~= d0.nodes() + d1.nodes());
        lemma_flat_append(d0.nodes(), d1.nodes());
    }
    group(&ns)
}

/// The trees of three digits regrouped into one level taller trees.
pub fn add_3_digits<T>(d0: Digit<T>, d1: Digit<T>, d2: Digit<T>) -> (r: Digit<T>)
    requires
        d0.wf(d0.nodes()[0].height()),
        d1.wf(d0.nodes()[0].height()),
        d2.wf(d0.nodes()[0].height()),
        d0.view().len() + d1.view().len() + d2.view().len() <= usize::MAX,
    ensures
        r.wf(d0.nodes()[0].height() + 1),
        r.view() == d0.view() + d1.view() + d2.view(),
        grouped(r.nodes(), d0.nodes() + d1.nodes() + d2.nodes()),
{
    let mut ns: Vec<Rc<Node<T>>> = Vec::new();
    d0.push_nodes(&mut ns);
    d1.push_nodes(&mut ns);
    d2.push_nodes(&mut ns);
    proof {
        assert(ns@ =~= d0.nodes() + d1.nodes() + d2.nodes());
        lemma_flat_append(d0.nodes(), d1.nodes());
        lemma_flat_append(d0.nodes() + d1.nodes(), d2.nodes());
    }
    group(&ns)
}

/// The leaf at position `i` of the digit.
pub fn lookup<T>(i: usize, digit: &Digit<T>) -> (r: Rc<T>)
    requires
        digit.wf(digit.nodes()[0].height()),
        i < digit.view().len(),
        digit.view().len() <= usize::MAX,
    ensures
        *r == digit.view()[i as int],
{
    let mut ns: Vec<Rc<Node<T>>> = Vec::new();
    digit.push_nodes(&mut ns);
    proof {
        assert(ns@ =~= digit.nodes());
    }
    lookup_nodes(i, &ns)
}

/// A copy of the digit in which leaf `i` holds `x`.
pub fn adjust<T>(x: Rc<T>, i: usize, digit: &Digit<T>) -> (r: Digit<T>)
    requires
        digit.wf(digit.nodes()[0].height()),
        i < digit.view().len(),
        digit.view().len() <= usize::MAX,
    ensures
        r.wf(digit.nodes()[0].height()),
        r.nodes()[0].height() == digit.nodes()[0].height(),
        r.view() == digit.view().update(i as int, *x),
        shapes_match(r.nodes(), digit.nodes()),
{
    let ghost h = digit.nodes()[0].height();
    let mut ns: Vec<Rc<Node<T>>> = Vec::new();
    digit.push_nodes(&mut ns);
    proof {
        assert(ns@ =~= digit.nodes());
    }
    let (k, acc) = find_tree(i, &ns);
    proof {
        lemma_flat_at(ns@, k as int);
    }
    let t = node::adjust(x, i - acc, &ns[k]);
    let ghost old_ns = ns@;
    ns.set(k, t);
    proof {
        lemma_flat_at(ns@, k as int);
        assert(ns@.subrange(0, k as int) =~= old_ns.subrange(0, k as int));
        assert(ns@.subrange(k + 1, ns.len() as int) =~= old_ns.subrange(k + 1, ns.len() as int));
        assert(flat(ns@) =~= flat(old_ns).update(i as int, *x));
    }
    let r = from_range(&ns, 0, ns.len());
    proof {
        assert(ns@.subrange(0, ns.len() as int) =~= ns@);
        assert(ns@[0].height() == h);
        assert forall|j: int| 0 <= j < ns.len() implies (#[trigger] ns@[j]).same_shape(
            &*old_ns[j],
        ) by {
            if j != k {
                crate::node::lemma_same_shape_refl(&*ns@[j]);
            }
        }
    }
    r
}

/// The digit split around the tree that holds leaf `i`: the trees before
/// it, that tree, and the trees after it.
pub fn split_once<T>(i: usize, digit: &Digit<T>) -> (r: (
    Option<Digit<T>>,
    Rc<Node<T>>,
    Option<Digit<T>>,
))
    requires
        digit.wf(digit.nodes()[0].height()),
        i < digit.view().len(),
        digit.view().len() <= usize::MAX,
    ensures
        opt_view(r.0) + r.1.view() + opt_view(r.2) == digit.view(),
        opt_view(r.0).len() <= i < opt_view(r.0).len() + r.1.view().len(),
        opt_wf(r.0, digit.nodes()[0].height()),
        opt_wf(r.2, digit.nodes()[0].height()),
        r.1.wf(),
        r.1.height() == digit.nodes()[0].height(),
        opt_nodes(r.0) + seq![r.1] + opt_nodes(r.2) == digit.nodes(),
{
    let mut ns: Vec<Rc<Node<T>>> = Vec::new();
    digit.push_nodes(&mut ns);
    proof {
        assert(ns@ =~= digit.nodes());
    }
    split_nodes(i, &ns)
}

/// The digit with `x` added in front; the digit holds at most three trees.
pub fn digit_cons<T>(x: Rc<Node<T>>, d: &Digit<T>) -> (r: Digit<T>)
    requires
        !(d is Four),
        x.wf(),
        d.wf(x.height()),
    ensures
        r.wf(x.height()),
        r.view() == x.view() + d.view(),
        r.nodes()[0].height() == x.height(),
        r.nodes() == seq![x] + d.nodes(),
{
    proof {
        lemma_flat_small(d.nodes());
    }
    let r = match d {
        Digit::One(a) => Digit::Two(x, a.clone()),
        Digit::Two(a, b) => Digit::Three(x, a.clone(), b.clone()),
        Digit::Three(a, b, c) => Digit::Four(x, a.clone(), b.clone(), c.clone()),
        Digit::Four(a, b, c, e) => Digit::Four(x, a.clone(), b.clone(), c.clone()),
    };
    proof {
        lemma_flat_small(r.nodes());
        assert(r.view() =~= x.view() + d.view());
        assert(r.nodes() =~= seq![x] + d.nodes());
    }
    r
}

/// The digit with `x` added behind; the digit holds at most three trees.
pub fn digit_snoc<T>(d: &Digit<T>, x: Rc<Node<T>>) -> (r: Digit<T>)
    requires
        !(d is Four),
        x.wf(),
        d.wf(x.height()),
    ensures
        r.wf(x.height()),
        r.view() == d.view() + x.view(),
        r.nodes()[0].height() == x.height(),
        r.nodes() == d.nodes().push(x),
{
    proof {
        lemma_flat_small(d.nodes());
    }
    let r = match d {
        Digit::One(a) => Digit::Two(a.clone(), x),
        Digit::Two(a, b) => Digit::Three(a.clone(), b.clone(), x),
        Digit::Three(a, b, c) => Digit::Four(a.clone(), b.clone(), c.clone(), x),
        Digit::Four(a, b, c, e) => Digit::Four(a.clone(), b.clone(), c.clone(), x),
    };
    proof {
        lemma_flat_small(r.nodes());
        assert(r.view() =~= d.view() + x.view());
        assert(r.nodes() =~= d.nodes().push(x));
    }
    r
}

/// The digit of the single tree `x`.
pub fn digit_one<T>(x: Rc<Node<T>>) -> (r: Digit<T>)
    requires
        x.wf(),
    ensures
        r.wf(x.height()),
        r.view() == x.view(),
        r.nodes()[0].height() == x.height(),
        r == Digit::One(x),
        r.nodes() == seq![x],
{
    let r = Digit::One(x);
    proof {
        lemma_flat_small(r.nodes());
    }
    r
}

/// The digit of the two trees `x` and `y`.
pub fn digit_two<T>(x: Rc<Node<T>>, y: Rc<Node<T>>) -> (r: Digit<T>)
    requires
        x.wf(),
        y.wf(),
        x.height() == y.height(),
    ensures
        r.wf(x.height()),
        r.view() == x.view() + y.view(),
        r.nodes()[0].height() == x.height(),
        r.nodes() == seq![x, y],
{
    let r = Digit::Two(x, y);
    proof {
        lemma_flat_small(r.nodes());
    }
    r
}

/// The first tree of the digit.
pub fn digit_head<T>(d: &Digit<T>) -> (r: Rc<Node<T>>)
    ensures
        r == d.nodes()[0],
{
    match d {
        Digit::One(a) => a.clone(),
        Digit::Two(a, _) => a.clone(),
        Digit::Three(a, _, _) => a.clone(),
        Digit::Four(a, _, _, _) => a.clone(),
    }
}

/// The last tree of the digit.
pub fn digit_last<T>(d: &Digit<T>) -> (r: Rc<Node<T>>)
    ensures
        r == d.nodes().last(),
{
    match d {
        Digit::One(a) => a.clone(),
        Digit::Two(_, a) => a.clone(),
        Digit::Three(_, _, a) => a.clone(),
        Digit::Four(_, _, _, a) => a.clone(),
    }
}

/// The digit without its first tree; it holds at least two.
pub fn digit_tail<T>(d: &Digit<T>) -> (r: Digit<T>)
    requires
        !(d is One),
        d.wf(d.nodes()[0].height()),
    ensures
        r.wf(d.nodes()[0].height()),
        r.nodes()[0].height() == d.nodes()[0].height(),
        d.nodes()[0].view() + r.view() == d.view(),
        r.nodes() == d.nodes().drop_first(),
{
    proof {
        lemma_flat_small(d.nodes());
    }
    let r = match d {
        Digit::One(a) => Digit::One(a.clone()),
        Digit::Two(_, b) => Digit::One(b.clone()),
        Digit::Three(_, b, c) => Digit::Two(b.clone(), c.clone()),
        Digit::Four(_, b, c, e) => Digit::Three(b.clone(), c.clone(), e.clone()),
    };
    proof {
        lemma_flat_small(r.nodes());
        assert(d.nodes()[1].height() == d.nodes()[0].height());
        assert(d.nodes()[0].view() + r.view() =~= d.view());
        assert(r.nodes() =~= d.nodes().drop_first());
    }
    r
}

/// The digit without its last tree; it holds at least two.
pub fn digit_init<T>(d: &Digit<T>) -> (r: Digit<T>)
    requires
        !(d is One),
        d.wf(d.nodes()[0].height()),
    ensures
        r.wf(d.nodes()[0].height()),
        r.nodes()[0].height() == d.nodes()[0].height(),
        r.view() + d.nodes().last().view() == d.view(),
        r.nodes() == d.nodes().drop_last(),
{
    proof {
        lemma_flat_small(d.nodes());
    }
    let r = match d {
        Digit::One(a) => Digit::One(a.clone()),
        Digit::Two(a, _) => Digit::One(a.clone()),
        Digit::Three(a, b, _) => Digit::Two(a.clone(), b.clone()),
        Digit::Four(a, b, c, _) => Digit::Three(a.clone(), b.clone(), c.clone()),
    };
    proof {
        lemma_flat_small(r.nodes());
        assert(r.view() + d.nodes().last().view() =~= d.view());
        assert(r.nodes() =~= d.nodes().drop_last());
    }
    r
}

} // verus!
