//! Laws of the automaton, proved of the model in whose terms the engines
//! state what they do.

use vstd::prelude::*;
use crate::cell::CellState;
use crate::dense::GridModel;
use crate::plane::{
    adjacent, generations, generations_within, lemma_live_neighbor_count,
    lemma_live_neighbor_exists, live_neighbor_count, next_generation, next_generation_within,
};
use crate::sparse::plane;

verus! {

/// Birth: a dead cell of the universe with exactly three live neighbours is
/// alive in the next generation.
pub proof fn lemma_birth(live: Set<(int, int)>, extent: Set<(int, int)>, c: (int, int))
    requires
        extent.contains(c),
        !live.contains(c),
        live_neighbor_count(live, c) == 3,
    ensures
        next_generation_within(live, extent).contains(c),
{
}

/// Survival and death: a live cell of the universe is alive in the next
/// generation if it has two or three live neighbours, and dead if it has
/// fewer or more.
pub proof fn lemma_survival(live: Set<(int, int)>, extent: Set<(int, int)>, c: (int, int))
    requires
        extent.contains(c),
        live.contains(c),
    ensures
        next_generation_within(live, extent).contains(c) <==> live_neighbor_count(live, c) == 2
            || live_neighbor_count(live, c) == 3,
{
}

/// Birth in the dense grid: a dead cell of the grid with exactly three live
/// neighbours is alive after one step.
pub proof fn lemma_grid_birth(grid: GridModel, row: int, col: int)
    requires
        grid.in_bounds(row, col),
        grid.state_at(row, col) == CellState::Dead,
        grid.live_neighbors(row, col) == 3,
    ensures
        grid.stepped().state_at(row, col) == CellState::Alive,
{
    assert(grid.extent().contains((col, row)));
}

/// Survival and death in the dense grid: a live cell of the grid is alive
/// after one step if it has two or three live neighbours, and dead if it
/// has fewer or more.
pub proof fn lemma_grid_survival(grid: GridModel, row: int, col: int)
    requires
        grid.in_bounds(row, col),
        grid.state_at(row, col) == CellState::Alive,
    ensures
        grid.stepped().state_at(row, col) == if grid.live_neighbors(row, col) == 2
            || grid.live_neighbors(row, col) == 3 {
            CellState::Alive
        } else {
            CellState::Dead
        },
{
    assert(grid.extent().contains((col, row)));
}

/// Whether every cell that touches a live cell belongs to `extent`.
pub open spec fn clear_of_edge(live: Set<(int, int)>, extent: Set<(int, int)>) -> bool {
    forall|c: (int, int), d: (int, int)|
        live.contains(c) && #[trigger] adjacent(c, d) ==> extent.contains(d)
}

/// A generation none of whose cells touches the edge of the universe
/// evolves there as it does on the unbounded plane.
pub proof fn lemma_no_edge_effect(live: Set<(int, int)>, extent: Set<(int, int)>)
    requires
        live.subset_of(extent),
        clear_of_edge(live, extent),
    ensures
        next_generation_within(live, extent) == next_generation(live),
{
    assert forall|c: (int, int)| next_generation(live).contains(c) implies extent.contains(c) by {
        if !live.contains(c) {
            lemma_live_neighbor_exists(live, c);
            let d = choose|d: (int, int)| live.contains(d) && adjacent(d, c);
            assert(adjacent(d, c));
        }
    }
    assert(next_generation_within(live, extent) =~= next_generation(live));
}

/// The live cells of a grid after `n` steps are the `n`-th generation of
/// its live cells in the universe of its own cells.
pub proof fn lemma_grid_after(grid: GridModel, n: nat)
    ensures
        grid.after(n).rows == grid.rows,
        grid.after(n).cols == grid.cols,
        grid.after(n).live == generations_within(grid.live, grid.extent(), n),
    decreases n,
{
    if n > 0 {
        lemma_grid_after(grid, (n - 1) as nat);
        assert(grid.after((n - 1) as nat).extent() =~= grid.extent());
    }
}

/// The two engines agree. Let a dense grid and a sparse plane start from
/// the same live cells, let the grid be no larger than the plane, and let
/// the pattern stay off the border of the grid in each of the first `n`
/// generations. Then after `n` steps both hold the same live cells, those
/// of the `n`-th generation on the unbounded plane.
pub proof fn lemma_engines_agree(grid: GridModel, n: nat)
    requires
        grid.rows <= 0x8000_0000,
        grid.cols <= 0x8000_0000,
        forall|k: nat| k < n ==> (#[trigger] grid.after(k)).off_border(),
    ensures
        grid.after(n).live == generations_within(grid.live, plane(), n),
        grid.after(n).live == generations(grid.live, n),
    decreases n,
{
    if n > 0 {
        let m = (n - 1) as nat;
        lemma_engines_agree(grid, m);
        lemma_grid_after(grid, m);
        let before = grid.after(m);
        assert(before.off_border());
        assert(before.extent() =~= grid.extent());
        assert(before.live.subset_of(grid.extent()));
        assert(before.live.subset_of(plane()));
        assert(clear_of_edge(before.live, grid.extent()));
        assert(clear_of_edge(before.live, plane()));
        lemma_no_edge_effect(before.live, grid.extent());
        lemma_no_edge_effect(before.live, plane());
    }
}

/// Nothing is born of nothing: the generation after the empty one is
/// empty, on the unbounded plane and in every universe.
pub proof fn lemma_empty_stays_empty(extent: Set<(int, int)>)
    ensures
        next_generation(Set::empty()) == Set::<(int, int)>::empty(),
        next_generation_within(Set::empty(), extent) == Set::<(int, int)>::empty(),
{
    let empty = Set::<(int, int)>::empty();
    assert forall|c: (int, int)| !next_generation(empty).contains(c) by {
        if live_neighbor_count(empty, c) > 0 {
            lemma_live_neighbor_exists(empty, c);
        }
    }
    assert(next_generation(empty) =~= empty);
    assert(next_generation_within(empty, extent) =~= empty);
}

/// A grid whose cells are all dead is the same grid after one step.
pub proof fn lemma_dead_grid_stays_dead(grid: GridModel)
    requires
        grid.live == Set::<(int, int)>::empty(),
    ensures
        grid.stepped() == grid,
{
    lemma_empty_stays_empty(grid.extent());
}

/// On the sparse plane, to set a dead cell and then clear it restores the
/// live cells that were there before.
pub proof fn lemma_set_then_clear(live: Set<(int, int)>, c: (int, int))
    requires
        !live.contains(c),
    ensures
        live.insert(c).remove(c) == live,
{
    assert(live.insert(c).remove(c) =~= live);
}

/// In the dense grid, to set a dead cell to any state and then clear it
/// restores the grid that was there before.
pub proof fn lemma_grid_set_then_clear(grid: GridModel, row: int, col: int, state: CellState)
    requires
        grid.state_at(row, col) == CellState::Dead,
    ensures
        grid.with_cell(row, col, state).with_cell(row, col, CellState::Dead) == grid,
{
    assert(grid.with_cell(row, col, state).with_cell(row, col, CellState::Dead).live
        =~= grid.live);
}

/// The blinker that lies along the row of `c`, centred on `c`.
pub open spec fn blinker_row(c: (int, int)) -> Set<(int, int)> {
    set![(c.0 - 1, c.1), c, (c.0 + 1, c.1)]
}

/// The blinker that stands in the column of `c`, centred on `c`.
pub open spec fn blinker_column(c: (int, int)) -> Set<(int, int)> {
    set![(c.0, c.1 - 1), c, (c.0, c.1 + 1)]
}

/// The block of two by two cells whose corner with the least coordinates
/// is `c`.
pub open spec fn block(c: (int, int)) -> Set<(int, int)> {
    set![c, (c.0 + 1, c.1), (c.0, c.1 + 1), (c.0 + 1, c.1 + 1)]
}

/// On the unbounded plane a blinker turns from its row into its column and
/// back.
pub proof fn lemma_blinker_turns(c: (int, int))
    ensures
        next_generation(blinker_row(c)) == blinker_column(c),
        next_generation(blinker_column(c)) == blinker_row(c),
{
    let row = blinker_row(c);
    let column = blinker_column(c);
    assert forall|p: (int, int)| next_generation(row).contains(p) <==> column.contains(p) by {
        lemma_live_neighbor_count(row, p);
    }
    assert forall|p: (int, int)| next_generation(column).contains(p) <==> row.contains(p) by {
        lemma_live_neighbor_count(column, p);
    }
    assert(next_generation(row) =~= column);
    assert(next_generation(column) =~= row);
}

/// A blinker oscillates with period two in every universe that holds both
/// of its phases.
pub proof fn lemma_blinker_period_two(c: (int, int), extent: Set<(int, int)>)
    requires
        blinker_row(c).subset_of(extent),
        blinker_column(c).subset_of(extent),
    ensures
        next_generation_within(blinker_row(c), extent) == blinker_column(c),
        next_generation_within(blinker_column(c), extent) == blinker_row(c),
        generations_within(blinker_row(c), extent, 2) == blinker_row(c),
        generations_within(blinker_column(c), extent, 2) == blinker_column(c),
{
    lemma_blinker_turns(c);
    assert(next_generation_within(blinker_row(c), extent) =~= blinker_column(c));
    assert(next_generation_within(blinker_column(c), extent) =~= blinker_row(c));
    reveal_with_fuel(generations_within, 3);
}

/// On the unbounded plane a block is a still life.
pub proof fn lemma_block_is_still(c: (int, int))
    ensures
        next_generation(block(c)) == block(c),
{
    let b = block(c);
    assert forall|p: (int, int)| next_generation(b).contains(p) <==> b.contains(p) by {
        lemma_live_neighbor_count(b, p);
    }
    assert(next_generation(b) =~= b);
}

/// A block stays as it is for any number of generations in every universe
/// that holds it.
pub proof fn lemma_block_stays(c: (int, int), extent: Set<(int, int)>, n: nat)
    requires
        block(c).subset_of(extent),
    ensures
        generations_within(block(c), extent, n) == block(c),
    decreases n,
{
    if n > 0 {
        lemma_block_stays(c, extent, (n - 1) as nat);
        lemma_block_is_still(c);
        assert(next_generation_within(block(c), extent) =~= block(c));
    }
}

} // verus!
