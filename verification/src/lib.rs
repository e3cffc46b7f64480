//! Equivalence of possibly cyclic graphs, decided without changing them.
//!
//! [`equiv::precheck_interleave_equiv`] first compares two nodes by a bounded
//! descent ([`precheck`]); when that runs out of budget, it interleaves fast
//! unchecked descents with slow descents that record, in a union-find of node
//! identities ([`classes`], over the cells of [`chain`]), which pairs were taken
//! as equivalent, so that cycles and shared structure are not traversed again.
//! Nodes are anything that implements [`node::Node`]; [`sound`] holds the proof
//! that a `true` answer is sound for node types that meet its laws.

pub mod chain;
pub mod classes;
pub mod equiv;
pub mod node;
pub mod precheck;
pub mod sound;
