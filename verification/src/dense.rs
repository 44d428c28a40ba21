//! The dense engine: a bounded rectangle of cells.
//!
//! The grid has a fixed number of rows and columns and nothing around it.
//! A cell is addressed by its row and its column. The cell in row `r` and
//! column `c` is the point `(c, r)` of the plane: columns run along the x
//! axis, rows along the y axis. A cell on the border has fewer neighbours
//! than one inside; nothing wraps around.

use vstd::prelude::*;
use crate::cell::{next_state, CellState};
use crate::plane::{
    count_live, lemma_count_live_empty, lemma_count_live_push, lemma_count_live_within,
    lemma_neighbors_within, lemma_within_push, live_neighbor_count, moore_neighbors,
    neighbor_offsets, neighbors_within, next_generation_within, state_of, within,
};

verus! {

/// What the dense engine reports to its caller.
#[derive(Clone, Copy, Debug, PartialEq, Eq, Structural)]
pub enum GridError {
    /// The cell that was addressed lies outside the grid.
    OutOfBounds,
}

/// What a dense grid stands for: its size and its live cells, as points
/// `(column, row)` of the plane.
pub struct GridModel {
    pub rows: nat,
    pub cols: nat,
    pub live: Set<(int, int)>,
}

impl GridModel {
    /// Whether the grid has a cell in row `row` and column `col`.
    pub open spec fn in_bounds(self, row: int, col: int) -> bool {
        0 <= row < self.rows && 0 <= col < self.cols
    }

    /// The cells of the grid, as points of the plane.
    pub open spec fn extent(self) -> Set<(int, int)> {
        Set::new(|c: (int, int)| self.in_bounds(c.1, c.0))
    }

    /// The state of the cell in row `row` and column `col`.
    pub open spec fn state_at(self, row: int, col: int) -> CellState {
        state_of(self.live, (col, row))
    }

    /// The number of live neighbours of the cell in row `row` and column
    /// `col`. Neighbours outside the grid do not exist and so are not live.
    pub open spec fn live_neighbors(self, row: int, col: int) -> nat {
        live_neighbor_count(self.live, (col, row))
    }

    /// The grid in which the cell in row `row` and column `col` has the
    /// state `state` and every other cell is as in `self`.
    pub open spec fn with_cell(self, row: int, col: int, state: CellState) -> GridModel {
        GridModel {
            rows: self.rows,
            cols: self.cols,
            live: if state == CellState::Alive {
                self.live.insert((col, row))
            } else {
                self.live.remove((col, row))
            },
        }
    }

    /// The grid one generation later.
    pub open spec fn stepped(self) -> GridModel {
        GridModel {
            rows: self.rows,
            cols: self.cols,
            live: next_generation_within(self.live, self.extent()),
        }
    }

    /// The grid `n` generations later.
    pub open spec fn after(self, n: nat) -> GridModel
        decreases n,
    {
        if n == 0 {
            self
        } else {
            self.after((n - 1) as nat).stepped()
        }
    }

    /// Whether every live cell is a cell of the grid that is not on its
    /// border: not in the first or last row, nor in the first or last column.
    pub open spec fn off_border(self) -> bool {
        forall|c: (int, int)|
            self.live.contains(c) ==> 1 <= c.0 < self.cols - 1 && 1 <= c.1 < self.rows - 1
    }
}

/// The cells that `cells` lists by row and column, as points of the plane.
pub open spec fn grid_points(cells: Seq<(usize, usize)>) -> Seq<(int, int)> {
    cells.map_values(|c: (usize, usize)| (c.1 as int, c.0 as int))
}

/// Whether `a` comes before `b` when cells are read row by row.
pub open spec fn row_major_before(a: (usize, usize), b: (usize, usize)) -> bool {
    a.0 < b.0 || (a.0 == b.0 && a.1 < b.1)
}

/// A grid of `rows` by `cols` cells.
pub struct DenseGrid {
    rows: usize,
    cols: usize,
    cells: Vec<Vec<CellState>>,
}

impl View for DenseGrid {
    type V = GridModel;

    closed spec fn view(&self) -> GridModel {
        GridModel {
            rows: self.rows as nat,
            cols: self.cols as nat,
            live: Set::new(
                |c: (int, int)|
                    0 <= c.1 < self.rows && 0 <= c.0 < self.cols && self.cells[c.1][c.0]
                        == CellState::Alive,
            ),
        }
    }
}

/// The index `at + by`, where that is an index below `len`.
fn shift(at: usize, by: i32, len: usize) -> (to: Option<usize>)
    requires
        -1 <= by <= 1,
    ensures
        to is Some <==> 0 <= at + by < len,
        to is Some ==> to->0 == at + by,
{
    let moved = if by < 0 {
        at.checked_sub(1)
    } else if by > 0 {
        at.checked_add(1)
    } else {
        Some(at)
    };
    match moved {
        Some(to) => if to < len {
            Some(to)
        } else {
            None
        },
        None => None,
    }
}

/// Writes `state` to the cell in row `row` and column `col` of `cells`.
fn put(cells: &mut Vec<Vec<CellState>>, row: usize, col: usize, state: CellState)
    requires
        row < old(cells).len(),
        col < old(cells)[row as int].len(),
    ensures
        final(cells).len() == old(cells).len(),
        forall|r: int| 0 <= r < old(cells).len() && r != row ==> final(cells)[r] == old(cells)[r],
        final(cells)[row as int]@ == old(cells)[row as int]@.update(col as int, state),
    no_unwind
{
    cells[row][col] = state;
}

impl DenseGrid {
    #[verifier::type_invariant]
    spec fn well_formed(&self) -> bool {
        &&& self.cells.len() == self.rows
        &&& forall|r: int| 0 <= r < self.rows ==> (#[trigger] self.cells[r]).len() == self.cols
    }

    /// Every live cell is a cell of the grid.
    pub proof fn lemma_live_in_extent(&self)
        ensures
            self@.live.subset_of(self@.extent()),
    {
    }

    /// A grid of `rows` by `cols` cells, all of them dead.
    pub fn new(rows: usize, cols: usize) -> (grid: DenseGrid)
        ensures
            grid@ == (GridModel { rows: rows as nat, cols: cols as nat, live: Set::empty() }),
    {
        let mut cells: Vec<Vec<CellState>> = Vec::new();
        for row in 0..rows
            invariant
                cells.len() == row,
                forall|r: int|
                    0 <= r < row ==> (#[trigger] cells[r]).len() == cols && forall|c: int|
                        0 <= c < cols ==> cells[r][c] == CellState::Dead,
        {
            let mut line: Vec<CellState> = Vec::new();
            for col in 0..cols
                invariant
                    line.len() == col,
                    forall|c: int| 0 <= c < col ==> line[c] == CellState::Dead,
            {
                line.push(CellState::Dead);
            }
            cells.push(line);
        }
        let grid = DenseGrid { rows, cols, cells };
        assert(grid@.live =~= Set::empty());
        grid
    }

    /// The number of rows.
    pub fn rows(&self) -> (rows: usize)
        ensures
            rows == self@.rows,
    {
        self.rows
    }

    /// The number of columns.
    pub fn cols(&self) -> (cols: usize)
        ensures
            cols == self@.cols,
    {
        self.cols
    }

    /// The state of the cell in row `row` and column `col`.
    pub fn get(&self, row: usize, col: usize) -> (state: Result<CellState, GridError>)
        ensures
            self@.in_bounds(row as int, col as int) ==> state == Ok::<CellState, GridError>(
                self@.state_at(row as int, col as int),
            ),
            !self@.in_bounds(row as int, col as int) ==> state == Err::<CellState, GridError>(
                GridError::OutOfBounds,
            ),
    {
        proof {
            use_type_invariant(self);
        }
        if row < self.rows && col < self.cols {
            Ok(self.cells[row][col])
        } else {
            Err(GridError::OutOfBounds)
        }
    }

    /// Gives the cell in row `row` and column `col` the state `state`.
    ///
    /// A cell outside the grid is reported and the grid is left as it was.
    pub fn set(&mut self, row: usize, col: usize, state: CellState) -> (done: Result<
        (),
        GridError,
    >)
        ensures
            old(self)@.in_bounds(row as int, col as int) ==> done is Ok && final(self)@ == old(
                self,
            )@.with_cell(row as int, col as int, state),
            !old(self)@.in_bounds(row as int, col as int) ==> done == Err::<(), GridError>(
                GridError::OutOfBounds,
            ) && *final(self) == *old(self),
    {
        proof {
            use_type_invariant(&*self);
        }
        if row < self.rows && col < self.cols {
            put(&mut self.cells, row, col, state);
            assert(self@.live =~= old(self)@.with_cell(row as int, col as int, state).live);
            Ok(())
        } else {
            Err(GridError::OutOfBounds)
        }
    }

    /// Makes the cell in row `row` and column `col` dead.
    ///
    /// A cell outside the grid is reported and the grid is left as it was.
    pub fn clear(&mut self, row: usize, col: usize) -> (done: Result<(), GridError>)
        ensures
            old(self)@.in_bounds(row as int, col as int) ==> done is Ok && final(self)@ == old(
                self,
            )@.with_cell(row as int, col as int, CellState::Dead),
            !old(self)@.in_bounds(row as int, col as int) ==> done == Err::<(), GridError>(
                GridError::OutOfBounds,
            ) && *final(self) == *old(self),
    {
        self.set(row, col, CellState::Dead)
    }

    /// The neighbours, by row and column, of the cell in row `row` and
    /// column `col` that lie in the grid.
    pub fn neighbors(&self, row: usize, col: usize) -> (found: Vec<(usize, usize)>)
        ensures
            grid_points(found@) == neighbors_within((col as int, row as int), self@.extent()),
            grid_points(found@).no_duplicates(),
    {
        let offsets: [(i32, i32); 8] = neighbor_offsets();
        let ghost all = moore_neighbors((col as int, row as int));
        let ghost extent = self@.extent();
        let mut found: Vec<(usize, usize)> = Vec::new();
        proof {
            reveal(Seq::filter);
            assert(grid_points(found@) =~= within(all.take(0), extent));
        }
        for k in 0usize..8
            invariant
                extent == self@.extent(),
                all == moore_neighbors((col as int, row as int)),
                forall|k: int|
                    0 <= k < 8 ==> all[k] == (col + (#[trigger] offsets[k]).1, row + offsets[k].0),
                forall|k: int|
                    0 <= k < 8 ==> -1 <= (#[trigger] offsets[k]).0 <= 1 && -1 <= offsets[k].1 <= 1,
                grid_points(found@) == within(all.take(k as int), extent),
        {
            let offset: (i32, i32) = offsets[k];
            proof {
                assert(all.take(k + 1) =~= all.take(k as int).push(all[k as int]));
                lemma_within_push(all.take(k as int), extent, all[k as int]);
            }
            let ghost before = found@;
            match (shift(row, offset.0, self.rows), shift(col, offset.1, self.cols)) {
                (Some(r), Some(c)) => {
                    found.push((r, c));
                    assert(grid_points(found@) =~= grid_points(before).push((c as int, r as int)));
                },
                _ => {},
            }
        }
        proof {
            assert(all.take(8) =~= all);
            lemma_neighbors_within((col as int, row as int), extent);
        }
        found
    }

    /// The number of live neighbours of the cell in row `row` and column
    /// `col`.
    pub fn live_neighbors(&self, row: usize, col: usize) -> (n: u32)
        ensures
            n == self@.live_neighbors(row as int, col as int),
    {
        let around = self.neighbors(row, col);
        let ghost live = self@.live;
        let ghost pts = grid_points(around@);
        let mut n: u32 = 0;
        proof {
            use_type_invariant(self);
            lemma_count_live_empty(live);
            assert(pts.take(0) =~= Seq::empty());
            lemma_neighbors_within((col as int, row as int), self@.extent());
        }
        for i in 0..around.len()
            invariant
                self.well_formed(),
                live == self@.live,
                pts == grid_points(around@),
                pts == neighbors_within((col as int, row as int), self@.extent()),
                around.len() <= 8,
                n <= i,
                n == count_live(live, pts.take(i as int)),
        {
            let at: (usize, usize) = around[i];
            proof {
                assert(pts.take(i + 1) =~= pts.take(i as int).push(pts[i as int]));
                lemma_count_live_push(live, pts.take(i as int), pts[i as int]);
                assert(pts[i as int] == (at.1 as int, at.0 as int));
                assert(pts.contains(pts[i as int]));
            }
            if self.cells[at.0][at.1].is_alive() {
                n += 1;
            }
        }
        proof {
            assert(pts.take(around.len() as int) =~= pts);
            self.lemma_live_in_extent();
            lemma_count_live_within(
                live,
                self@.extent(),
                moore_neighbors((col as int, row as int)),
            );
        }
        n
    }

    /// Advances the grid by one generation.
    ///
    /// Every cell is judged against the generation before the call: the next
    /// generation is built aside and replaces the grid when it is complete.
    pub fn step(&mut self)
        ensures
            final(self)@ == old(self)@.stepped(),
            forall|row: int, col: int|
                #![trigger final(self)@.state_at(row, col)]
                old(self)@.in_bounds(row, col) ==> final(self)@.state_at(row, col) == next_state(
                    old(self)@.state_at(row, col),
                    old(self)@.live_neighbors(row, col),
                ),
    {
        proof {
            use_type_invariant(&*self);
        }
        let rows = self.rows;
        let cols = self.cols;
        let mut next: Vec<Vec<CellState>> = Vec::new();
        for row in 0..rows
            invariant
                *self == *old(self),
                self.well_formed(),
                rows == self.rows,
                cols == self.cols,
                next.len() == row,
                forall|r: int|
                    0 <= r < row ==> (#[trigger] next[r]).len() == cols && forall|c: int|
                        0 <= c < cols ==> next[r][c] == next_state(
                            self@.state_at(r, c),
                            self@.live_neighbors(r, c),
                        ),
        {
            let mut line: Vec<CellState> = Vec::new();
            for col in 0..cols
                invariant
                    *self == *old(self),
                    self.well_formed(),
                    rows == self.rows,
                    cols == self.cols,
                    row < rows,
                    line.len() == col,
                    forall|c: int|
                        0 <= c < col ==> line[c] == next_state(
                            self@.state_at(row as int, c),
                            self@.live_neighbors(row as int, c),
                        ),
            {
                let n: u32 = self.live_neighbors(row, col);
                line.push(self.cells[row][col].next(n));
            }
            next.push(line);
        }
        self.cells = next;
        assert(self@.live =~= old(self)@.stepped().live);
    }

    /// What the host calls once per frame: advances the grid by one
    /// generation if `advance` is set, and leaves it as it is if not.
    pub fn tick(&mut self, advance: bool)
        ensures
            final(self)@ == if advance {
                old(self)@.stepped()
            } else {
                old(self)@
            },
    {
        if advance {
            self.step();
        }
    }

    /// The live cells by row and column, each once, row by row and within a
    /// row from the first column on.
    pub fn live_cells(&self) -> (cells: Vec<(usize, usize)>)
        ensures
            grid_points(cells@).to_set() == self@.live,
            forall|i: int, j: int|
                0 <= i < j < cells.len() ==> row_major_before(cells[i], cells[j]),
    {
        proof {
            use_type_invariant(self);
        }
        let mut out: Vec<(usize, usize)> = Vec::new();
        for row in 0..self.rows
            invariant
                self.well_formed(),
                forall|i: int|
                    0 <= i < out.len() ==> (#[trigger] out[i]).0 < row && out[i].1 < self.cols
                        && self.cells[out[i].0 as int][out[i].1 as int] == CellState::Alive,
                forall|r: int, c: int|
                    0 <= r < row && 0 <= c < self.cols && self.cells[r][c] == CellState::Alive
                        ==> out@.contains((r as usize, c as usize)),
                forall|i: int, j: int|
                    0 <= i < j < out.len() ==> row_major_before(out[i], out[j]),
        {
            for col in 0..self.cols
                invariant
                    self.well_formed(),
                    row < self.rows,
                    forall|i: int|
                        0 <= i < out.len() ==> row_major_before(#[trigger] out[i], (row, col))
                            && out[i].1 < self.cols && self.cells[out[i].0 as int][out[i].1 as int]
                            == CellState::Alive,
                    forall|r: int, c: int|
                        0 <= r <= row && 0 <= c < self.cols && (r < row || c < col)
                            && self.cells[r][c] == CellState::Alive ==> out@.contains(
                            (r as usize, c as usize),
                        ),
                    forall|i: int, j: int|
                        0 <= i < j < out.len() ==> row_major_before(out[i], out[j]),
            {
                let ghost before = out@;
                if self.cells[row][col].is_alive() {
                    out.push((row, col));
                    proof {
                        assert forall|r: int, c: int|
                            0 <= r <= row && 0 <= c < self.cols && (r < row || c < col + 1)
                                && self.cells[r][c] == CellState::Alive implies out@.contains(
                            (r as usize, c as usize),
                        ) by {
                            if r == row && c == col {
                                assert(out[out.len() - 1] == (r as usize, c as usize));
                            } else {
                                let i = choose|i: int|
                                    0 <= i < before.len() && before[i] == (r as usize, c as usize);
                                assert(out[i] == (r as usize, c as usize));
                            }
                        }
                    }
                }
            }
        }
        proof {
            let pts = grid_points(out@);
            assert forall|p: (int, int)| self@.live.contains(p) implies pts.to_set().contains(
                p,
            ) by {
                let i = choose|i: int|
                    0 <= i < out.len() && out[i] == (p.1 as usize, p.0 as usize);
                assert(pts[i] == p);
            }
            assert forall|p: (int, int)| pts.to_set().contains(p) implies self@.live.contains(
                p,
            ) by {
                let i = choose|i: int| 0 <= i < pts.len() && pts[i] == p;
                assert(out[i].0 < self.rows);
            }
            assert(pts.to_set() =~= self@.live);
        }
        out
    }
}

} // verus!
