//! Monte Carlo tree search for any turn-based game, any number of players
//! and any tree policy.
//!
//! A game is described by three traits: `GameState`, `GameAction` and
//! `Player`. A `SearchTree` is made from a position and a `TreePolicy`,
//! grown by `run` with the draws of a `RandomSource`, and asked for the
//! best action. The search is single-threaded.
//!
//! Every function is proved against a mathematical model of the tree:
//! `model` defines one iteration as a function of the tree, the position,
//! the policy and the draws, `invariants` shows what an iteration keeps,
//! and `theorems` states what holds of every search.
//!
//! Rewards are integers, in a unit of the game's choosing. A policy that
//! scores the children, such as one by upper confidence bounds, hands the
//! scores to `select_by_score` as integers that order as the scores do.

pub mod game;
pub mod invariants;
pub mod model;
pub mod random;
pub mod search_node;
pub mod search_tree;
mod text;
pub mod theorems;
pub mod tic_tac_toe;
pub mod tree_policy;

pub use crate::game::{GameAction, GameState, Player};
pub use crate::random::RandomSource;
pub use crate::search_node::{NodeState, SearchNode};
pub use crate::search_tree::SearchTree;
pub use crate::tree_policy::{select_by_score, TreePolicy};
