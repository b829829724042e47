//! A persistent sequence built on 2-3 finger trees with a lazily memoized,
//! structurally shared spine.
//!
//! Layers, leaves first:
//! - `lazy`: a shared memo cell (`Thunk`) holding either a ready value or a
//!   pending computation described as data; forcing records the outcome
//!   once for every handle.
//! - `node`: 2-3 trees whose branches cache their leaf count.
//! - `digit`: one to four trees of equal height, and the regrouping of two or
//!   three digits into taller trees.
//! - `finger_tree`: the deque of trees with a lazy spine; pushes and joins
//!   are deferred until forced, and a ghost rank on every lazy tree bounds the
//!   chain of thunks that forcing may reach, which proves that forcing ends.
//! - `iter`: traversal with an explicit stack.
//! - `seq`: the sequence of elements, where every leaf counts one.
//!
//! Every leaf measures one, so the cached measure of a subtree is its number
//! of leaves and searches go by position.

pub mod lazy;
pub mod node;
pub mod digit;
pub mod finger_tree;
pub mod seq;
pub mod iter;
