//! The state of a single cell and the birth/survival rule.

use vstd::prelude::*;

verus! {

/// The state of one cell.
#[derive(Clone, Copy, Debug, PartialEq, Eq, Hash, Structural)]
pub enum CellState {
    Dead,
    Alive,
}

/// The rule of the automaton: what a cell in state `state` with
/// `live_neighbors` live neighbours becomes in the next generation.
///
/// A live cell survives with two or three live neighbours; a dead cell is
/// born with exactly three. Every other cell is dead.
pub open spec fn next_state(state: CellState, live_neighbors: nat) -> CellState {
    match state {
        CellState::Alive => if live_neighbors == 2 || live_neighbors == 3 {
            CellState::Alive
        } else {
            CellState::Dead
        },
        CellState::Dead => if live_neighbors == 3 {
            CellState::Alive
        } else {
            CellState::Dead
        },
    }
}

impl CellState {
    /// Whether the cell is alive.
    pub fn is_alive(self) -> (alive: bool)
        ensures
            alive == (self == CellState::Alive),
    {
        match self {
            CellState::Alive => true,
            CellState::Dead => false,
        }
    }

    /// The state that follows `self` when `live_neighbors` of the eight
    /// neighbours are alive.
    pub fn next(self, live_neighbors: u32) -> (next: CellState)
        ensures
            next == next_state(self, live_neighbors as nat),
    {
        match self {
            CellState::Alive => if live_neighbors == 2 || live_neighbors == 3 {
                CellState::Alive
            } else {
                CellState::Dead
            },
            CellState::Dead => if live_neighbors == 3 {
                CellState::Alive
            } else {
                CellState::Dead
            },
        }
    }
}

} // verus!
