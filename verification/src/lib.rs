//! Aggressive dead code elimination over a model of MIR bodies.
//!
//! The pass has two phases. Value deadness finds assignments whose results
//! are never observed, using transitive liveness, and turns them into no-ops.
//! Control-flow deadness builds the post-dominator tree of the body, finds
//! for each branch the blocks that are control dependent on it, and collapses
//! the branch into a plain `Goto` when none of those blocks does anything
//! observable.
//!
//! - `mir`: the model of bodies, blocks, statements and terminators.
//! - `graph`, `counting`: walks through graphs and reachability.
//! - `dominators`: dominator trees, with their laws.
//! - `post_dom`: the reverse graph of a body rooted at a virtual exit.
//! - `liveness`: transitive liveness as a least fixpoint.
//! - `adce`: the pass itself.
//! - `programs`: small functions whose MIR exercises the pass.

pub mod mir;
pub mod counting;
pub mod graph;
pub mod dominators;
pub mod post_dom;
pub mod liveness;
pub mod adce;
pub mod programs;
