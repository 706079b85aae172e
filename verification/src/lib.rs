//! Generator for the standard 19-tile hexagonal resource board: random
//! resource distribution followed by a backtracking search that assigns
//! production numbers under the adjacency rules.

pub mod adjacency;
pub mod board;
pub mod counting;
