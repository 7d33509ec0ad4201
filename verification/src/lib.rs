//! Move selection for a Battlesnake player: the board model, the scoring
//! heuristics that rate each of the four moves, and the choice of the best one.

pub mod model;
pub mod sort;
pub mod possible;
pub mod scoring;
pub mod tally;
pub mod food;
pub mod choice;
pub mod forward;
pub mod engine;
pub mod arena;
pub mod futur;
