//! A small suite of classical search algorithms over two toy puzzle
//! domains: the sliding-tile puzzle (8-puzzle and 15-puzzle), solved by A*
//! and IDA* over admissible heuristics (Manhattan distance, linear
//! conflict, and a precomputed Walking-Distance table), and a 5x5
//! generalized tic-tac-toe solved by minimax with alpha-beta pruning.

pub mod board;
pub mod counting;
pub mod encode;
pub mod generator;
pub mod heuristics;
pub mod puzzle15;
pub mod puzzle15_wd;
pub mod puzzle8;
pub mod rng;
pub mod search;
pub mod solvability;
pub mod tictactoe;
pub mod walking_distance;
