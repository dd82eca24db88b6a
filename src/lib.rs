//! Move selection for a line-forming grid game with gravity (generalised
//! Connect-Four): a board model, an incremental threat map, an alpha-beta
//! searcher with a transposition cache, and a breadth-first branch scorer.
use vstd::prelude::*;

pub mod grid;
pub mod threat;
pub mod search;
pub mod bfs;

pub use grid::Grid;
pub use threat::{Shape, ThreatMap, replay_history};
pub use search::{Bound, Node, analyze_alphabeta, SCALE, WIN};
pub use bfs::{Branch, analyze_bfs, first_move_value, pick_best, RELEVANCE};

verus! {

} // verus!
