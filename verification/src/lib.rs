//! A Monte Carlo Tree Search engine for a turn-limited, fully observable,
//! alternating two-party game.
//!
//! The engine builds a search tree over game states, evaluates moves by
//! repeated random playouts, and recommends the action whose subtree was
//! visited most often. The tree is stored as a flat arena of nodes addressed
//! by index; every statistic the engine keeps is governed by the
//! well-formedness invariant `tree::tree_wf`.

pub mod game;
pub mod numeric;
pub mod sampling;
pub mod search;
pub mod tree;
