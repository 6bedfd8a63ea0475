//! A two-player post-flop poker solver kernel: game-tree construction with
//! chance-node suit isomorphism, per-board hand-strength tables, and an exact
//! terminal-node counterfactual-value evaluator.

pub mod cards;
pub mod config;
pub mod game;
pub mod bets;
pub mod builder;
pub mod hand_rank;
pub mod laws;
pub mod range;
pub mod strength;
pub mod tree;
