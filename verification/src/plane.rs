//! The mathematical model: the automaton on the unbounded integer plane.
//!
//! A generation is the set of its live cells, each a point `(x, y)` with
//! integer coordinates. Both engines state what they do in these terms.

use vstd::prelude::*;
use crate::cell::{next_state, CellState};

verus! {

/// The eight cells of the Moore neighbourhood of `c`: those that touch it
/// horizontally, vertically or diagonally.
pub open spec fn moore_neighbors(c: (int, int)) -> Seq<(int, int)> {
    seq![
        (c.0, c.1 - 1),
        (c.0 - 1, c.1 - 1),
        (c.0, c.1 + 1),
        (c.0 + 1, c.1 + 1),
        (c.0 - 1, c.1),
        (c.0 + 1, c.1),
        (c.0 - 1, c.1 + 1),
        (c.0 + 1, c.1 - 1),
    ]
}

/// Whether `a` and `b` are distinct cells that touch.
pub open spec fn adjacent(a: (int, int), b: (int, int)) -> bool {
    &&& a != b
    &&& -1 <= a.0 - b.0 <= 1
    &&& -1 <= a.1 - b.1 <= 1
}

/// How many of the cells listed in `cells` are in `live`, counted with
/// repetition.
pub open spec fn count_live(live: Set<(int, int)>, cells: Seq<(int, int)>) -> nat {
    cells.filter(|c: (int, int)| live.contains(c)).len()
}

/// The cells of `cells` that belong to `extent`, in the same order.
pub open spec fn within(cells: Seq<(int, int)>, extent: Set<(int, int)>) -> Seq<(int, int)> {
    cells.filter(|c: (int, int)| extent.contains(c))
}

/// The neighbours of `c` that belong to `extent`, in the order of
/// [`moore_neighbors`].
pub open spec fn neighbors_within(c: (int, int), extent: Set<(int, int)>) -> Seq<(int, int)> {
    within(moore_neighbors(c), extent)
}

/// The number of live neighbours of `c` in the generation `live`.
pub open spec fn live_neighbor_count(live: Set<(int, int)>, c: (int, int)) -> nat {
    count_live(live, moore_neighbors(c))
}

/// The state of `c` in the generation `live`.
pub open spec fn state_of(live: Set<(int, int)>, c: (int, int)) -> CellState {
    if live.contains(c) {
        CellState::Alive
    } else {
        CellState::Dead
    }
}

/// Whether `c` is alive in the generation that follows `live`.
pub open spec fn alive_next(live: Set<(int, int)>, c: (int, int)) -> bool {
    next_state(state_of(live, c), live_neighbor_count(live, c)) == CellState::Alive
}

/// The generation that follows `live` on the unbounded plane. Every cell is
/// judged against `live` itself: the update is simultaneous.
pub open spec fn next_generation(live: Set<(int, int)>) -> Set<(int, int)> {
    Set::new(|c: (int, int)| alive_next(live, c))
}

/// The generation that follows `live` in a universe that consists of the
/// cells of `extent` only: cells outside it do not exist, so none is born
/// there.
pub open spec fn next_generation_within(live: Set<(int, int)>, extent: Set<(int, int)>) -> Set<
    (int, int),
> {
    next_generation(live).intersect(extent)
}

/// `live` after `n` generations on the unbounded plane.
pub open spec fn generations(live: Set<(int, int)>, n: nat) -> Set<(int, int)>
    decreases n,
{
    if n == 0 {
        live
    } else {
        next_generation(generations(live, (n - 1) as nat))
    }
}

/// `live` after `n` generations in the universe `extent`.
pub open spec fn generations_within(live: Set<(int, int)>, extent: Set<(int, int)>, n: nat) -> Set<
    (int, int),
>
    decreases n,
{
    if n == 0 {
        live
    } else {
        next_generation_within(generations_within(live, extent, (n - 1) as nat), extent)
    }
}

/// 1 if `c` is in `live`, else 0.
pub open spec fn indicator(live: Set<(int, int)>, c: (int, int)) -> nat {
    if live.contains(c) {
        1
    } else {
        0
    }
}

/// Filtering a list that grows by one element keeps or drops that element.
pub proof fn lemma_filter_push<A>(s: Seq<A>, a: A, pred: spec_fn(A) -> bool)
    ensures
        s.push(a).filter(pred) == if pred(a) {
            s.filter(pred).push(a)
        } else {
            s.filter(pred)
        },
{
    reveal(Seq::filter);
    assert(s.push(a).drop_last() =~= s);
}

/// Counting over a list that grows by one cell adds that cell's indicator.
pub proof fn lemma_count_live_push(live: Set<(int, int)>, cells: Seq<(int, int)>, c: (int, int))
    ensures
        count_live(live, cells.push(c)) == count_live(live, cells) + indicator(live, c),
{
    lemma_filter_push(cells, c, |c: (int, int)| live.contains(c));
}

/// Nothing is counted in an empty list.
pub proof fn lemma_count_live_empty(live: Set<(int, int)>)
    ensures
        count_live(live, Seq::empty()) == 0,
{
    reveal(Seq::filter);
}

/// Keeping the cells of `extent`, of a list that grows by one cell.
pub proof fn lemma_within_push(cells: Seq<(int, int)>, extent: Set<(int, int)>, c: (int, int))
    ensures
        within(cells.push(c), extent) == if extent.contains(c) {
            within(cells, extent).push(c)
        } else {
            within(cells, extent)
        },
{
    lemma_filter_push(cells, c, |c: (int, int)| extent.contains(c));
}

/// What is kept of a list of cells are its cells in `extent`: none twice
/// that was listed once.
pub proof fn lemma_within(cells: Seq<(int, int)>, extent: Set<(int, int)>)
    ensures
        within(cells, extent).len() <= cells.len(),
        forall|d: (int, int)|
            within(cells, extent).contains(d) <==> cells.contains(d) && extent.contains(d),
        cells.no_duplicates() ==> within(cells, extent).no_duplicates(),
    decreases cells.len(),
{
    if cells.len() == 0 {
        reveal(Seq::filter);
    } else {
        let init = cells.drop_last();
        let c = cells.last();
        let kept = within(init, extent);
        assert(cells =~= init.push(c));
        lemma_within(init, extent);
        lemma_within_push(init, extent, c);
        assert forall|d: (int, int)| cells.contains(d) <==> init.contains(d) || d == c by {
            if init.contains(d) {
                let i = choose|i: int| 0 <= i < init.len() && init[i] == d;
                assert(cells[i] == d);
            }
            if d == c {
                assert(cells[cells.len() - 1] == d);
            }
        }
        if extent.contains(c) {
            let all = kept.push(c);
            assert forall|d: (int, int)| all.contains(d) <==> kept.contains(d) || d == c by {
                if kept.contains(d) {
                    let i = choose|i: int| 0 <= i < kept.len() && kept[i] == d;
                    assert(all[i] == d);
                }
                if d == c {
                    assert(all[all.len() - 1] == d);
                }
            }
            if cells.no_duplicates() {
                assert(init.no_duplicates());
                assert(!init.contains(c)) by {
                    if init.contains(c) {
                        let i = choose|i: int| 0 <= i < init.len() && init[i] == c;
                        assert(cells[i] == cells[cells.len() - 1]);
                    }
                }
            }
        } else if cells.no_duplicates() {
            assert(init.no_duplicates());
        }
    }
}

/// The neighbours of a cell that belong to `extent` are the cells of
/// `extent` that touch it, each listed once.
pub proof fn lemma_neighbors_within(c: (int, int), extent: Set<(int, int)>)
    ensures
        neighbors_within(c, extent).len() <= 8,
        neighbors_within(c, extent).no_duplicates(),
        forall|d: (int, int)|
            neighbors_within(c, extent).contains(d) <==> adjacent(c, d) && extent.contains(d),
{
    lemma_moore_neighbors(c);
    lemma_within(moore_neighbors(c), extent);
}

/// Where every live cell belongs to `extent`, the cells outside it add
/// nothing to a count.
pub proof fn lemma_count_live_within(
    live: Set<(int, int)>,
    extent: Set<(int, int)>,
    cells: Seq<(int, int)>,
)
    requires
        live.subset_of(extent),
    ensures
        count_live(live, within(cells, extent)) == count_live(live, cells),
    decreases cells.len(),
{
    if cells.len() == 0 {
        reveal(Seq::filter);
    } else {
        let init = cells.drop_last();
        let c = cells.last();
        assert(cells =~= init.push(c));
        lemma_count_live_within(live, extent, init);
        lemma_within_push(init, extent, c);
        lemma_count_live_push(live, init, c);
        if extent.contains(c) {
            lemma_count_live_push(live, within(init, extent), c);
        }
    }
}

/// The number of live neighbours is the sum over the eight neighbours of
/// their indicators.
pub proof fn lemma_live_neighbor_count(live: Set<(int, int)>, c: (int, int))
    ensures
        live_neighbor_count(live, c) == indicator(live, (c.0, c.1 - 1))
            + indicator(live, (c.0 - 1, c.1 - 1))
            + indicator(live, (c.0, c.1 + 1))
            + indicator(live, (c.0 + 1, c.1 + 1))
            + indicator(live, (c.0 - 1, c.1))
            + indicator(live, (c.0 + 1, c.1))
            + indicator(live, (c.0 - 1, c.1 + 1))
            + indicator(live, (c.0 + 1, c.1 - 1)),
        live_neighbor_count(live, c) <= 8,
{
    let m = moore_neighbors(c);
    let e = Seq::<(int, int)>::empty();
    lemma_count_live_empty(live);
    lemma_count_live_push(live, e, m[0]);
    lemma_count_live_push(live, e.push(m[0]), m[1]);
    lemma_count_live_push(live, e.push(m[0]).push(m[1]), m[2]);
    lemma_count_live_push(live, e.push(m[0]).push(m[1]).push(m[2]), m[3]);
    lemma_count_live_push(live, e.push(m[0]).push(m[1]).push(m[2]).push(m[3]), m[4]);
    lemma_count_live_push(live, e.push(m[0]).push(m[1]).push(m[2]).push(m[3]).push(m[4]), m[5]);
    lemma_count_live_push(
        live,
        e.push(m[0]).push(m[1]).push(m[2]).push(m[3]).push(m[4]).push(m[5]),
        m[6],
    );
    lemma_count_live_push(
        live,
        e.push(m[0]).push(m[1]).push(m[2]).push(m[3]).push(m[4]).push(m[5]).push(m[6]),
        m[7],
    );
    assert(e.push(m[0]).push(m[1]).push(m[2]).push(m[3]).push(m[4]).push(m[5]).push(m[6]).push(
        m[7],
    ) =~= m);
}

/// A cell with a live neighbour has a neighbour in `live`.
pub proof fn lemma_live_neighbor_exists(live: Set<(int, int)>, c: (int, int))
    requires
        live_neighbor_count(live, c) > 0,
    ensures
        exists|d: (int, int)| live.contains(d) && adjacent(d, c),
{
    lemma_live_neighbor_count(live, c);
    let m = moore_neighbors(c);
    if live.contains(m[0]) {
        assert(adjacent(m[0], c));
    } else if live.contains(m[1]) {
        assert(adjacent(m[1], c));
    } else if live.contains(m[2]) {
        assert(adjacent(m[2], c));
    } else if live.contains(m[3]) {
        assert(adjacent(m[3], c));
    } else if live.contains(m[4]) {
        assert(adjacent(m[4], c));
    } else if live.contains(m[5]) {
        assert(adjacent(m[5], c));
    } else if live.contains(m[6]) {
        assert(adjacent(m[6], c));
    } else {
        assert(live.contains(m[7]));
        assert(adjacent(m[7], c));
    }
}

/// The cells listed by `moore_neighbors(c)` are the cells adjacent to `c`,
/// each listed once.
pub proof fn lemma_moore_neighbors(c: (int, int))
    ensures
        moore_neighbors(c).len() == 8,
        moore_neighbors(c).no_duplicates(),
        forall|d: (int, int)| moore_neighbors(c).contains(d) <==> adjacent(c, d),
{
    let m = moore_neighbors(c);
    assert forall|d: (int, int)| adjacent(c, d) implies m.contains(d) by {
        if d == m[0] {
        } else if d == m[1] {
        } else if d == m[2] {
        } else if d == m[3] {
        } else if d == m[4] {
        } else if d == m[5] {
        } else if d == m[6] {
        } else {
            assert(d == m[7]);
        }
    }
}

/// The offsets of the eight neighbours of a cell, each as a pair of a row
/// offset and a column offset, in the order of [`moore_neighbors`].
pub fn neighbor_offsets() -> (offsets: [(i32, i32); 8])
    ensures
        forall|k: int, c: (int, int)|
            0 <= k < 8 ==> #[trigger] moore_neighbors(c)[k] == (
                c.0 + offsets[k].1,
                c.1 + offsets[k].0,
            ),
        forall|k: int|
            0 <= k < 8 ==> -1 <= (#[trigger] offsets[k]).0 <= 1 && -1 <= offsets[k].1 <= 1,
{
    [(-1, 0), (-1, -1), (1, 0), (1, 1), (0, -1), (0, 1), (1, -1), (-1, 1)]
}

} // verus!
