//! Local-search metaheuristics over sequence-structured candidate states.
//!
//! The crate provides a maze-escape state (`path`), a travelling-salesman
//! state (`tsp_tabu_search`) and a word-game state (`word`, `words`),
//! together with the search drivers that perturb, repair and accept
//! candidates: tabu search, simulated annealing and genetic recombination.
//! The instance text formats are read by the verified parsers in `parse`,
//! `board`, `solver` and `tsp_tabu_search`.  Randomness and the monotonic
//! clock enter only through the trusted wrappers in `rng` and `clock`.

pub mod annealing;
pub mod board;
pub mod clock;
pub mod direction;
pub mod genetic;
pub mod parse;
pub mod path;
pub mod point;
pub mod rng;
pub mod solver;
pub mod specimen;
pub mod tabu_search;
pub mod tsp_tabu_search;
pub mod util;
pub mod word;
pub mod words;
