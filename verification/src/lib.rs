//! A shogi engine (normal rules and the "ouke" variant): board model, move
//! generation, check detection, move application, evaluation, a
//! transposition table and an alpha-beta search.
pub mod types;
pub mod movegen;
pub mod check;
pub mod apply;
pub mod eval;
pub mod tt;
pub mod search;
pub mod mcts;
pub mod legality;
pub mod input;
pub mod symmetry;
pub mod reflection;
pub mod alphabeta;
pub mod geometry;
pub mod rules;
