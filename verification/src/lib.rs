//! Growth of a coloured region on a square grid.
//!
//! A [`dish::Dish`] holds the cells and the set of filled cells that still
//! touch an empty one. Each growth step picks one such cell and one of its
//! four directions at random and, when the cell in that direction is empty,
//! fills it with a colour close to its parent's.

pub mod bijective_finite_sequence;
pub mod dish;
pub mod grid;
pub mod my_rng;
pub mod period;
pub mod state;
