//! Conway's Game of Life: the automaton engine.
//!
//! Two engines advance the same automaton. [`dense::DenseGrid`] keeps a
//! bounded rectangle of cells; [`sparse::LiveCellSet`] keeps only the live
//! cells of an unbounded plane. Both are described in terms of one mathematical
//! model of the plane, found in [`plane`]; [`laws`] proves what holds of it.

pub mod cell;
pub mod dense;
pub mod laws;
pub mod plane;
pub mod sparse;
