//! A solver for the 4 x 5 sliding-block puzzle: the position, its legal moves,
//! a canonical form of a position, a breadth-first search for a solution, and the
//! rules of a viewer that steps through the solution or lets the player drag blocks.

pub mod board;
pub mod piece;
pub mod moves;
pub mod canonical;
pub mod solver;
pub mod viewer;
