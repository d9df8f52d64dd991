//! A solver library for a simplified Mafia (social-deduction) game.
//!
//! The game position is modelled with multiplicity-annotated buckets of
//! indistinguishable seats, split lazily on first reference (`touch`). Each
//! position renders a canonical state key and an information-set key for the
//! acting team; the graph builder enumerates the reachable positions, groups
//! transitions by information-set key, and a level index orders the
//! non-terminal nodes by depth and information set for the training passes.
//! Training itself accumulates floating-point regrets and is left to the
//! binary around this library; everything the trainer walks — the tree, the
//! action grouping, the level index — is built and checked here.

pub mod graph;
pub mod keys;
pub mod state;
