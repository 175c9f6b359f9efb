//! The fifteen puzzle: states packed into one word, the parity rule, the
//! Manhattan estimate, and two search engines that find a way to the
//! solved board.

pub mod nibbles;
pub mod board;
pub mod parity;
pub mod field;
pub mod heuristic;
pub mod frontier;
pub mod path;
pub mod arena;
pub mod astar;
pub mod idastar;
