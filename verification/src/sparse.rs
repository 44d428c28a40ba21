//! The sparse engine: the live cells of an unbounded plane.
//!
//! Coordinates are signed, so the plane extends in every direction from the
//! origin. A coordinate is an `i32`; the plane that can be held is therefore
//! the square of the cells whose coordinates both fit. Cells beyond it do not
//! exist: a neighbour that would lie there is not enumerated, never counts as
//! alive and is never born. No coordinate ever wraps around.

use std::collections::HashSet;
use vstd::prelude::*;
use vstd::std_specs::iter::IteratorSpec;
use crate::plane::{
    adjacent, alive_next, count_live, lemma_count_live_empty, lemma_count_live_push,
    lemma_count_live_within, lemma_live_neighbor_exists, lemma_neighbors_within,
    lemma_within_push,
    live_neighbor_count, moore_neighbors, neighbor_offsets, neighbors_within,
    next_generation_within, within,
};

verus! {

/// Whether both coordinates of `c` can be held in an `i32`.
pub open spec fn on_plane(c: (int, int)) -> bool {
    &&& i32::MIN <= c.0 <= i32::MAX
    &&& i32::MIN <= c.1 <= i32::MAX
}

/// The cells that the sparse engine can hold.
pub open spec fn plane() -> Set<(int, int)> {
    Set::new(|c: (int, int)| on_plane(c))
}

/// The cells that `cells` lists, as points of the plane.
pub open spec fn points(cells: Seq<(i32, i32)>) -> Seq<(int, int)> {
    cells.map_values(|c: (i32, i32)| (c.0 as int, c.1 as int))
}

/// The key under which the cell `c` is stored.
closed spec fn key_of(c: (int, int)) -> u64 {
    ((c.0 + 0x8000_0000) * 0x1_0000_0000 + (c.1 + 0x8000_0000)) as u64
}

/// The cell that is stored under the key `k`.
closed spec fn cell_of(k: u64) -> (int, int) {
    (k as int / 0x1_0000_0000 - 0x8000_0000, k as int % 0x1_0000_0000 - 0x8000_0000)
}

/// Keys and the cells of the plane correspond one to one.
proof fn lemma_keys(c: (int, int), k: u64)
    ensures
        on_plane(cell_of(k)),
        key_of(cell_of(k)) == k,
        on_plane(c) ==> cell_of(key_of(c)) == c,
{
}

fn pack(x: i32, y: i32) -> (k: u64)
    ensures
        k == key_of((x as int, y as int)),
{
    let hi: u64 = (x as i64 + 0x8000_0000) as u64;
    let lo: u64 = (y as i64 + 0x8000_0000) as u64;
    hi * 0x1_0000_0000 + lo
}

fn unpack(k: u64) -> (c: (i32, i32))
    ensures
        (c.0 as int, c.1 as int) == cell_of(k),
{
    let hi: u64 = k / 0x1_0000_0000;
    let lo: u64 = k % 0x1_0000_0000;
    ((hi as i64 - 0x8000_0000) as i32, (lo as i64 - 0x8000_0000) as i32)
}

/// The set of the live cells of the plane. A cell that is in the set is
/// alive; every other cell is dead.
pub struct LiveCellSet {
    cells: HashSet<u64>,
}

impl View for LiveCellSet {
    type V = Set<(int, int)>;

    /// The live cells, as points of the plane.
    closed spec fn view(&self) -> Set<(int, int)> {
        Set::new(|c: (int, int)| on_plane(c) && self.cells@.contains(key_of(c)))
    }
}

impl LiveCellSet {
    /// Every live cell lies on the plane.
    pub proof fn lemma_on_plane(&self)
        ensures
            self@.subset_of(plane()),
    {
    }

    /// A plane on which every cell is dead.
    pub fn new() -> (cells: LiveCellSet)
        ensures
            cells@ == Set::<(int, int)>::empty(),
    {
        let cells = LiveCellSet { cells: HashSet::new() };
        assert(cells@ =~= Set::<(int, int)>::empty());
        cells
    }

    /// Whether the cell `(x, y)` is alive.
    pub fn is_alive(&self, x: i32, y: i32) -> (alive: bool)
        ensures
            alive == self@.contains((x as int, y as int)),
    {
        let k = pack(x, y);
        self.cells.contains(&k)
    }

    /// Makes the cell `(x, y)` alive. Nothing changes if it is alive already.
    pub fn set(&mut self, x: i32, y: i32)
        ensures
            final(self)@ == old(self)@.insert((x as int, y as int)),
            old(self)@.contains((x as int, y as int)) ==> final(self)@ == old(self)@,
    {
        let k = pack(x, y);
        self.cells.insert(k);
        proof {
            assert forall|c: (int, int)|
                final(self)@.contains(c) <==> old(self)@.insert((x as int, y as int)).contains(
                    c,
                ) by {
                lemma_keys(c, k);
            }
            assert(final(self)@ =~= old(self)@.insert((x as int, y as int)));
            if old(self)@.contains((x as int, y as int)) {
                assert(final(self)@ =~= old(self)@);
            }
        }
    }

    /// Makes the cell `(x, y)` dead. Nothing changes if it is dead already.
    pub fn clear(&mut self, x: i32, y: i32)
        ensures
            final(self)@ == old(self)@.remove((x as int, y as int)),
            !old(self)@.contains((x as int, y as int)) ==> final(self)@ == old(self)@,
    {
        let k = pack(x, y);
        self.cells.remove(&k);
        proof {
            assert forall|c: (int, int)|
                final(self)@.contains(c) <==> old(self)@.remove((x as int, y as int)).contains(
                    c,
                ) by {
                lemma_keys(c, k);
            }
            assert(final(self)@ =~= old(self)@.remove((x as int, y as int)));
            if !old(self)@.contains((x as int, y as int)) {
                assert(final(self)@ =~= old(self)@);
            }
        }
    }

    /// The live cells, each once, in no particular order.
    pub fn live_cells(&self) -> (cells: Vec<(i32, i32)>)
        ensures
            points(cells@).no_duplicates(),
            points(cells@).to_set() == self@,
    {
        let mut out: Vec<(i32, i32)> = Vec::new();
        let ghost keys: Seq<u64> = self.cells.iter().remaining().unref();
        for k in it: self.cells.iter()
            invariant
                out.len() == it.index(),
                it.seq().unref() == keys,
                keys.to_set() == self.cells@,
                keys.no_duplicates(),
                forall|i: int|
                    0 <= i < out.len() ==> (out[i].0 as int, out[i].1 as int) == cell_of(keys[i]),
        {
            assert(keys[it.index()] == *it.seq()[it.index()]);
            out.push(unpack(*k));
        }
        proof {
            let pts = points(out@);
            assert forall|i: int, j: int|
                0 <= i < pts.len() && 0 <= j < pts.len() && i != j implies pts[i] != pts[j] by {
                lemma_keys((0, 0), keys[i]);
                lemma_keys((0, 0), keys[j]);
            }
            assert forall|c: (int, int)| self@.contains(c) implies pts.to_set().contains(c) by {
                assert(keys.to_set().contains(key_of(c)));
                let i = choose|i: int| 0 <= i < keys.len() && keys[i] == key_of(c);
                lemma_keys(c, keys[i]);
                assert(pts[i] == c);
            }
            assert forall|c: (int, int)| pts.to_set().contains(c) implies self@.contains(c) by {
                let i = choose|i: int| 0 <= i < pts.len() && pts[i] == c;
                lemma_keys((0, 0), keys[i]);
                assert(keys.to_set().contains(keys[i]));
            }
            assert(pts.to_set() =~= self@);
        }
        out
    }

    /// Removes from the set every cell of `other`.
    fn remove_all(&mut self, other: &LiveCellSet)
        ensures
            final(self)@ == old(self)@.difference(other@),
    {
        let ghost keys: Seq<u64> = other.cells.iter().remaining().unref();
        for k in it: other.cells.iter()
            invariant
                it.seq().unref() == keys,
                keys.to_set() == other.cells@,
                forall|q: u64|
                    self.cells@.contains(q) <==> old(self).cells@.contains(q) && !(exists|i: int|
                        0 <= i < it.index() && keys[i] == q),
        {
            assert(keys[it.index()] == *it.seq()[it.index()]);
            self.cells.remove(k);
        }
        proof {
            assert forall|c: (int, int)|
                final(self)@.contains(c) <==> old(self)@.difference(other@).contains(c) by {
                let q = key_of(c);
                if other.cells@.contains(q) {
                    assert(keys.to_set().contains(q));
                }
            }
            assert(final(self)@ =~= old(self)@.difference(other@));
        }
    }

    /// Adds to the set every cell of `other`.
    fn insert_all(&mut self, other: &LiveCellSet)
        ensures
            final(self)@ == old(self)@.union(other@),
    {
        let ghost keys: Seq<u64> = other.cells.iter().remaining().unref();
        for k in it: other.cells.iter()
            invariant
                it.seq().unref() == keys,
                keys.to_set() == other.cells@,
                forall|q: u64|
                    self.cells@.contains(q) <==> old(self).cells@.contains(q) || (exists|i: int|
                        0 <= i < it.index() && keys[i] == q),
        {
            assert(keys[it.index()] == *it.seq()[it.index()]);
            self.cells.insert(*k);
        }
        proof {
            assert forall|c: (int, int)|
                final(self)@.contains(c) <==> old(self)@.union(other@).contains(c) by {
                let q = key_of(c);
                if other.cells@.contains(q) {
                    assert(keys.to_set().contains(q));
                }
            }
            assert(final(self)@ =~= old(self)@.union(other@));
        }
    }

    /// Advances the plane by one generation.
    ///
    /// Every cell is judged against the generation before the call. On the
    /// rim of the plane the cells beyond it count as dead and stay so.
    pub fn step(&mut self)
        ensures
            final(self)@ == next_generation_within(old(self)@, plane()),
            forall|c: (int, int)|
                final(self)@.contains(c) <==> on_plane(c) && alive_next(old(self)@, c),
    {
        update_cells(self);
    }

    /// What the host calls once per frame: advances the plane by one
    /// generation if `advance` is set, and leaves it as it is if not.
    pub fn tick(&mut self, advance: bool)
        ensures
            final(self)@ == if advance {
                next_generation_within(old(self)@, plane())
            } else {
                old(self)@
            },
    {
        if advance {
            self.step();
        }
    }
}

/// The neighbours of the cell `(x, y)` that lie on the plane: all eight,
/// unless the cell is on the rim.
pub fn adjacents(x: i32, y: i32) -> (adjc: Vec<(i32, i32)>)
    ensures
        points(adjc@) == neighbors_within((x as int, y as int), plane()),
        points(adjc@).no_duplicates(),
{
    let alignments: [(i32, i32); 8] = neighbor_offsets();
    let ghost all = moore_neighbors((x as int, y as int));
    let mut adjc: Vec<(i32, i32)> = Vec::new();
    proof {
        reveal(Seq::filter);
        assert(points(adjc@) =~= within(all.take(0), plane()));
    }
    for k in 0usize..8
        invariant
            all == moore_neighbors((x as int, y as int)),
            forall|k: int|
                0 <= k < 8 ==> all[k] == (x + (#[trigger] alignments[k]).1, y + alignments[k].0),
            points(adjc@) == within(all.take(k as int), plane()),
    {
        let offset: (i32, i32) = alignments[k];
        proof {
            assert(all.take(k + 1) =~= all.take(k as int).push(all[k as int]));
            lemma_within_push(all.take(k as int), plane(), all[k as int]);
        }
        let ghost before = adjc@;
        match (x.checked_add(offset.1), y.checked_add(offset.0)) {
            (Some(c), Some(r)) => {
                adjc.push((c, r));
                assert(points(adjc@) =~= points(before).push((c as int, r as int)));
            },
            _ => {},
        }
    }
    proof {
        assert(all.take(8) =~= all);
        lemma_neighbors_within((x as int, y as int), plane());
    }
    adjc
}

/// The number of live neighbours of the cell `(x, y)`.
pub fn count_living(cells: &LiveCellSet, x: i32, y: i32) -> (n: u32)
    ensures
        n == live_neighbor_count(cells@, (x as int, y as int)),
{
    let adjc = adjacents(x, y);
    let mut n: u32 = 0;
    proof {
        lemma_count_live_empty(cells@);
        assert(points(adjc@).take(0) =~= Seq::empty());
        lemma_neighbors_within((x as int, y as int), plane());
    }
    for i in 0..adjc.len()
        invariant
            adjc.len() <= 8,
            n <= i,
            n == count_live(cells@, points(adjc@).take(i as int)),
    {
        let pos: (i32, i32) = adjc[i];
        proof {
            let pts = points(adjc@);
            assert(pts.take(i + 1) =~= pts.take(i as int).push(pts[i as int]));
            lemma_count_live_push(cells@, pts.take(i as int), pts[i as int]);
        }
        if cells.is_alive(pos.0, pos.1) {
            n += 1;
        }
    }
    proof {
        assert(points(adjc@).take(adjc.len() as int) =~= points(adjc@));
        cells.lemma_on_plane();
        lemma_count_live_within(cells@, plane(), moore_neighbors((x as int, y as int)));
    }
    n
}

/// Whether the dead cell `c` is to be born: it lies on the plane and has
/// exactly three live neighbours.
spec fn born(live: Set<(int, int)>, c: (int, int)) -> bool {
    &&& on_plane(c)
    &&& !live.contains(c)
    &&& live_neighbor_count(live, c) == 3
}

/// Whether the live cell `c` is to die: it has fewer than two or more than
/// three live neighbours.
spec fn dies(live: Set<(int, int)>, c: (int, int)) -> bool {
    &&& live.contains(c)
    &&& live_neighbor_count(live, c) != 2
    &&& live_neighbor_count(live, c) != 3
}

/// Advances `cells` by one generation.
///
/// Only the live cells and their neighbours are visited. The cells that die
/// and those that are born are collected while the generation is read, and
/// applied to it afterwards.
pub fn update_cells(cells: &mut LiveCellSet)
    ensures
        final(cells)@ == next_generation_within(old(cells)@, plane()),
        forall|c: (int, int)|
            final(cells)@.contains(c) <==> on_plane(c) && alive_next(old(cells)@, c),
{
    let mut keep_alive = LiveCellSet::new();
    let mut dead = LiveCellSet::new();
    let ghost live = cells@;
    let ghost keys: Seq<u64> = cells.cells.iter().remaining().unref();
    for k in it: cells.cells.iter()
        invariant
            *cells == *old(cells),
            live == cells@,
            it.seq().unref() == keys,
            keys.to_set() == cells.cells@,
            forall|c: (int, int)| dead@.contains(c) ==> dies(live, c),
            forall|i: int|
                0 <= i < it.index() && dies(live, #[trigger] cell_of(keys[i])) ==> dead@.contains(
                    cell_of(keys[i]),
                ),
            forall|c: (int, int)| keep_alive@.contains(c) ==> born(live, c),
            forall|i: int, c: (int, int)|
                0 <= i < it.index() && #[trigger] adjacent(cell_of(keys[i]), c) && born(live, c)
                    ==> keep_alive@.contains(c),
    {
        assert(keys[it.index()] == *it.seq()[it.index()]);
        let pos: (i32, i32) = unpack(*k);
        let ghost here = (pos.0 as int, pos.1 as int);
        proof {
            lemma_keys(here, *k);
            assert(keys.to_set().contains(*k));
            assert(live.contains(here));
        }
        let n: u32 = count_living(cells, pos.0, pos.1);
        if !(n == 2 || n == 3) {
            dead.set(pos.0, pos.1);
        }
        let adjc = adjacents(pos.0, pos.1);
        let ghost around = points(adjc@);
        let ghost born_before = keep_alive@;
        for j in 0..adjc.len()
            invariant
                *cells == *old(cells),
                live == cells@,
                around == points(adjc@),
                forall|c: (int, int)| keep_alive@.contains(c) ==> born(live, c),
                forall|c: (int, int)| born_before.contains(c) ==> keep_alive@.contains(c),
                forall|m: int|
                    0 <= m < j && born(live, #[trigger] around[m]) ==> keep_alive@.contains(
                        around[m],
                    ),
        {
            let a: (i32, i32) = adjc[j];
            assert(around[j as int] == (a.0 as int, a.1 as int));
            if !cells.is_alive(a.0, a.1) {
                if count_living(cells, a.0, a.1) == 3 {
                    keep_alive.set(a.0, a.1);
                }
            }
        }
        proof {
            lemma_neighbors_within(here, plane());
            assert forall|c: (int, int)|
                adjacent(here, c) && born(live, c) implies keep_alive@.contains(c) by {
                assert(around.contains(c));
                let q = choose|q: int| 0 <= q < around.len() && around[q] == c;
                assert(born(live, around[q]));
            }
        }
    }
    proof {
        assert forall|c: (int, int)| dies(live, c) implies dead@.contains(c) by {
            assert(keys.to_set().contains(key_of(c)));
            let i = choose|i: int| 0 <= i < keys.len() && keys[i] == key_of(c);
            lemma_keys(c, keys[i]);
            assert(dies(live, cell_of(keys[i])));
        }
        assert forall|c: (int, int)| born(live, c) implies keep_alive@.contains(c) by {
            lemma_live_neighbor_exists(live, c);
            let d = choose|d: (int, int)| live.contains(d) && adjacent(d, c);
            assert(keys.to_set().contains(key_of(d)));
            let i = choose|i: int| 0 <= i < keys.len() && keys[i] == key_of(d);
            lemma_keys(d, keys[i]);
            assert(adjacent(cell_of(keys[i]), c));
        }
    }
    cells.remove_all(&dead);
    cells.insert_all(&keep_alive);
    proof {
        assert forall|c: (int, int)|
            cells@.contains(c) <==> next_generation_within(live, plane()).contains(c) by {
            if cells@.contains(c) {
                if keep_alive@.contains(c) {
                    assert(born(live, c));
                } else {
                    assert(live.contains(c) && !dead@.contains(c));
                    assert(!dies(live, c));
                }
                assert(alive_next(live, c));
            }
            if next_generation_within(live, plane()).contains(c) {
                assert(alive_next(live, c));
                if live.contains(c) {
                    assert(!dies(live, c));
                } else {
                    assert(born(live, c));
                }
            }
        }
        assert(cells@ =~= next_generation_within(live, plane()));
    }
}

} // verus!
