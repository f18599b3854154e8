//! A verified best-first solver for Sokoban puzzles.

pub mod actions;
pub mod admissible;
pub mod alike;
pub mod area;
pub mod bounds;
pub mod clock;
pub mod deadlock;
pub mod hashing;
pub mod laws;
pub mod level;
pub mod path_finding;
pub mod position;
pub mod reproducible;
pub mod rules;
pub mod search;
pub mod solver;
pub mod state;
pub mod successors;
pub mod walk;
