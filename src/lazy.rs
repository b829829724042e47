//! A memoizing, shared, lazily evaluated cell.
//!
//! A `Thunk` is created either already evaluated or holding a pending
//! computation, described as plain data of type `S`. Whoever forces it runs
//! that computation once and records the outcome in the shared memo, so every
//! clone of the handle sees the same result from then on. The ghost key `K`
//! states what every outcome satisfies; the memo only ever holds outcomes the
//! key admits.
//!
//! There is no "evaluation in progress" state: a pending computation stays
//! in place while it runs, and the users of this cell prove (by a rank that
//! decreases along every chain of forcing) that no computation forces the
//! thunk it belongs to. The description of a pending computation is kept
//! after its outcome is recorded. Handles are reference counted and not
//! shared across threads.
use vstd::prelude::*;
use vstd::cell::invcell::InvCell;
use vstd::predicate::Predicate;
use std::rc::Rc;

verus! {

/// What a deferred computation may produce.
pub trait Outcome<T> {
    /// Whether `v` is an acceptable result.
    spec fn admits(&self, v: &T) -> bool;
}

/// The invariant of the memo: empty, or holding an admitted result.
pub struct MemoInv<K> {
    pub key: K,
}

impl<T, K: Outcome<T>> Predicate<Option<Rc<T>>> for MemoInv<K> {
    open spec fn predicate(&self, v: Option<Rc<T>>) -> bool {
        match v {
            Some(x) => self.key.admits(&*x),
            None => true,
        }
    }
}

/// Where a thunk's value comes from: given at creation, or computed later.
pub enum Origin<T, S> {
    Ready(Rc<T>),
    Pending(S),
}

struct Shared<T, S, K> {
    origin: Origin<T, S>,
    key: Ghost<K>,
    memo: InvCell<Option<Rc<T>>, MemoInv<K>>,
}

/// A shared handle to a lazily evaluated value. Cloning the handle is cheap
/// and all clones share one memo.
pub struct Thunk<T, S, K> {
    shared: Rc<Shared<T, S, K>>,
}

/// What a deferred computation yields: a value, or another thunk whose value
/// is the answer.
pub enum ThunkResult<T, S, K> {
    Value(T),
    Redirect(Thunk<T, S, K>),
}

/// A result that is the value `v`.
pub fn value<T, S, K>(v: T) -> (r: ThunkResult<T, S, K>)
    ensures
        r == ThunkResult::<T, S, K>::Value(v),
{
    ThunkResult::Value(v)
}

/// A result that is whatever `t` evaluates to.
pub fn redirect<T, S, K>(t: Thunk<T, S, K>) -> (r: ThunkResult<T, S, K>)
    ensures
        r == ThunkResult::Redirect(t),
{
    ThunkResult::Redirect(t)
}

/// An already evaluated thunk holding `v`.
pub fn strict<T, S, K: Outcome<T>>(v: T, Ghost(key): Ghost<K>) -> (r: Thunk<T, S, K>)
    requires
        key.admits(&v),
    ensures
        r.wf(),
        r.key() == key,
        r.origin() matches Origin::Ready(x) && *x == v,
{
    Thunk::evaluated(v, Ghost(key))
}

impl<T, S, K> Thunk<T, S, K> {
    /// The ghost description that every outcome meets.
    pub closed spec fn key(&self) -> K {
        self.shared.key@
    }

    /// Where the value comes from.
    pub closed spec fn origin(&self) -> Origin<T, S> {
        self.shared.origin
    }

    /// The memo only holds outcomes that the key admits.
    pub closed spec fn wf(&self) -> bool {
        self.shared.memo.predicate() == (MemoInv { key: self.shared.key@ })
    }

}

impl<T, S, K: Outcome<T>> Thunk<T, S, K> {
    /// A thunk that will run the computation `pending` when first forced.
    pub fn new(pending: S, Ghost(key): Ghost<K>) -> (r: Self)
        ensures
            r.wf(),
            r.key() == key,
            r.origin() == Origin::<T, S>::Pending(pending),
    {
        let memo = InvCell::new(None, Ghost(MemoInv { key }));
        let shared = Shared { origin: Origin::Pending(pending), key: Ghost(key), memo };
        Thunk { shared: Rc::new(shared) }
    }

    /// A thunk that already holds `v`.
    pub fn evaluated(v: T, Ghost(key): Ghost<K>) -> (r: Self)
        ensures
            r.wf(),
            r.key() == key,
            r.origin() matches Origin::Ready(x) && *x == v,
    {
        let memo = InvCell::new(None, Ghost(MemoInv { key }));
        Thunk {
            shared: Rc::new(Shared { origin: Origin::Ready(Rc::new(v)), key: Ghost(key), memo }),
        }
    }

    /// Where the value comes from.
    pub fn source(&self) -> (r: &Origin<T, S>)
        ensures
            *r == self.origin(),
    {
        &self.shared.origin
    }

    /// The outcome recorded so far, if any.
    pub fn recall(&self) -> (r: Option<Rc<T>>)
        requires
            self.wf(),
        ensures
            r matches Some(v) ==> self.key().admits(&*v),
    {
        let m = self.shared.memo.replace(None);
        match m {
            Some(v) => {
                self.shared.memo.replace(Some(v.clone()));
                Some(v)
            },
            None => None,
        }
    }

    /// Records `v` as the outcome, for this handle and every clone of it.
    pub fn remember(&self, v: Rc<T>)
        requires
            self.wf(),
            self.key().admits(&*v),
    {
        self.shared.memo.replace(Some(v));
    }

    /// Another handle to the same cell.
    pub fn share(&self) -> (r: Self)
        ensures
            r == *self,
    {
        Thunk { shared: self.shared.clone() }
    }
}

/// The key of a thunk whose pending computation is the closure `f`: it
/// admits exactly what a call of `f` may return.
pub struct Produces<F> {
    pub f: F,
}

impl<T, F: Fn() -> T> Outcome<T> for Produces<F> {
    open spec fn admits(&self, v: &T) -> bool {
        self.f.ensures((), *v)
    }
}

impl<T, F: Fn() -> T> Thunk<T, F, Produces<F>> {
    /// A thunk that will call `f` when first forced.
    pub fn deferred(f: F) -> (r: Self)
        ensures
            r.wf(),
            r.origin() == Origin::<T, F>::Pending(f),
            r.key() == (Produces { f }),
    {
        let ghost key = Produces { f };
        Thunk::new(f, Ghost(key))
    }

    /// A thunk that already holds `v`.
    pub fn ready(v: T) -> (r: Self)
        ensures
            r.wf(),
            r.origin() matches Origin::Ready(x) && *x == v,
    {
        Thunk::evaluated(v, Ghost(Produces { f: vstd::pervasive::arbitrary() }))
    }
}

impl<T, F: Fn() -> T> Thunk<T, F, Produces<F>> {
    /// The value: the ready one, the one recorded by an earlier force, or
    /// else the result of calling the pending closure, which is recorded for
    /// every handle so that the closure runs at most once.
    pub fn force(&self) -> (r: Rc<T>)
        requires
            self.wf(),
            self.origin() matches Origin::Pending(f) ==> f.requires(()) && self.key().f == f,
        ensures
            self.origin() matches Origin::Ready(v) ==> *r == *v,
            self.origin() matches Origin::Pending(f) ==> f.ensures((), *r),
    {
        match self.source() {
            Origin::Ready(v) => v.clone(),
            Origin::Pending(f) => match self.recall() {
                Some(v) => v,
                None => {
                    let v = Rc::new(f());
                    self.remember(v.clone());
                    v
                },
            },
        }
    }
}

} // verus!
