//! A* search over the positions of a peg-elimination puzzle.
//!
//! `chinakers` holds the board, its moves and its heuristic; `astar` holds the
//! search engine: an append-only arena of nodes, an open set ordered by total
//! estimated cost, and a single-step driver surface.

pub mod chinakers;
pub mod astar;
