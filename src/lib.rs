//! Conway's Game of Life on an unbounded or toroidal grid, with two
//! interchangeable cell stores (hashed and dense) and an engine that
//! switches between them by population density.
use vstd::prelude::*;

pub mod symvec;
pub mod torus;
pub mod cells;
pub mod hashed;
pub mod vect;
pub mod life;
pub mod board;
pub mod engine;
pub mod loader;

pub use board::{Board, BoardType, Store};
pub use cells::{Cell, CellDesc, Coord};
pub use engine::Engine;

verus! {

} // verus!
