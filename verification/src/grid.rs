//! The cell data model: a fixed SIDE x SIDE grid of cells in row-major
//! order, with bounds-checked access, partial ("patch") updates, Moore
//! neighborhood queries, and alive-cell bookkeeping.

use vstd::prelude::*;

verus! {

/// Number of cells along each edge of the square grid.
pub const SIDE: isize = 32;

/// Total number of cells: SIDE * SIDE.
pub const CELLS: usize = 1024;

/// One grid position. `alive` is owned by the simulation rules, `marked`
/// is the fixed target flag set at seed time, and `active` is the
/// edge-triggered "currently sounding a note" flag owned by the note policy.
#[derive(Clone, Copy, PartialEq, Eq, Structural, Debug)]
pub struct Cell {
    pub alive: bool,
    pub marked: bool,
    pub active: bool,
}

/// Whether (x, y) lies on the grid.
pub open spec fn in_bounds(x: int, y: int) -> bool {
    0 <= x < SIDE as int && 0 <= y < SIDE as int
}

/// Row-major flat index of an in-bounds position.
pub open spec fn idx_of(x: int, y: int) -> int {
    y * (SIDE as int) + x
}

/// 0 or 1, for counting cells that satisfy a flag.
pub open spec fn b2i(b: bool) -> int {
    if b {
        1
    } else {
        0
    }
}

/// Whether the cell at (x, y) exists and is alive; off-grid positions
/// never count as alive.
pub open spec fn alive_at(g: Seq<Cell>, x: int, y: int) -> bool {
    in_bounds(x, y) && g[idx_of(x, y)].alive
}

/// Number of alive cells in the whole sequence.
pub open spec fn count_alive(s: Seq<Cell>) -> int
    decreases s.len(),
{
    if s.len() == 0 {
        0
    } else {
        count_alive(s.drop_last()) + b2i(s.last().alive)
    }
}

/// Number of cells whose `active` flag is set.
pub open spec fn count_active(s: Seq<Cell>) -> int
    decreases s.len(),
{
    if s.len() == 0 {
        0
    } else {
        count_active(s.drop_last()) + b2i(s.last().active)
    }
}

/// Number of cells whose `marked` flag is set.
pub open spec fn count_marked(s: Seq<Cell>) -> int
    decreases s.len(),
{
    if s.len() == 0 {
        0
    } else {
        count_marked(s.drop_last()) + b2i(s.last().marked)
    }
}

/// Updating one cell changes the marked count by the difference of the
/// old and new marked flags at that index.
pub proof fn lemma_count_marked_update(s: Seq<Cell>, i: int, c: Cell)
    requires
        0 <= i < s.len(),
    ensures
        count_marked(s.update(i, c)) == count_marked(s) - b2i(s[i].marked) + b2i(c.marked),
    decreases s.len(),
{
    let t = s.update(i, c);
    if i == s.len() - 1 {
        assert(t.drop_last() =~= s.drop_last());
    } else {
        assert(t.drop_last() =~= s.drop_last().update(i, c));
        lemma_count_marked_update(s.drop_last(), i, c);
    }
}

/// A sequence with no marked cell counts zero marks.
pub proof fn lemma_count_marked_zero(s: Seq<Cell>)
    requires
        forall|i: int| 0 <= i < s.len() ==> !s[i].marked,
    ensures
        count_marked(s) == 0,
    decreases s.len(),
{
    if s.len() > 0 {
        assert forall|i: int| 0 <= i < s.drop_last().len() implies !s.drop_last()[i].marked by {
            assert(s.drop_last()[i] == s[i]);
        }
        lemma_count_marked_zero(s.drop_last());
        assert(!s.last().marked);
    }
}

/// One marked index forces a marked count of at least one.
pub proof fn lemma_count_marked_one(s: Seq<Cell>, p: int)
    requires
        0 <= p < s.len(),
        s[p].marked,
    ensures
        count_marked(s) >= 1,
    decreases s.len(),
{
    lemma_count_marked_bounds(s.drop_last());
    if p < s.len() - 1 {
        lemma_count_marked_one(s.drop_last(), p);
    }
}

pub proof fn lemma_count_marked_bounds(s: Seq<Cell>)
    ensures
        0 <= count_marked(s) <= s.len(),
    decreases s.len(),
{
    if s.len() > 0 {
        lemma_count_marked_bounds(s.drop_last());
    }
}

pub proof fn lemma_count_alive_bounds(s: Seq<Cell>)
    ensures
        0 <= count_alive(s) <= s.len(),
    decreases s.len(),
{
    if s.len() > 0 {
        lemma_count_alive_bounds(s.drop_last());
    }
}

/// Updating one cell changes the alive count by the difference of the
/// old and new alive flags at that index.
pub proof fn lemma_count_alive_update(s: Seq<Cell>, i: int, c: Cell)
    requires
        0 <= i < s.len(),
    ensures
        count_alive(s.update(i, c)) == count_alive(s) - b2i(s[i].alive) + b2i(c.alive),
    decreases s.len(),
{
    let t = s.update(i, c);
    if i == s.len() - 1 {
        assert(t.drop_last() =~= s.drop_last());
    } else {
        assert(t.drop_last() =~= s.drop_last().update(i, c));
        lemma_count_alive_update(s.drop_last(), i, c);
    }
}

/// Counting over a prefix grows by the flag of the cell just past it.
pub proof fn lemma_count_alive_take_step(s: Seq<Cell>, i: int)
    requires
        0 <= i < s.len(),
    ensures
        count_alive(s.take(i + 1)) == count_alive(s.take(i)) + b2i(s[i].alive),
{
    assert(s.take(i + 1).drop_last() =~= s.take(i));
}

pub proof fn lemma_count_alive_take_all(s: Seq<Cell>)
    ensures
        count_alive(s.take(s.len() as int)) == count_alive(s),
{
    assert(s.take(s.len() as int) =~= s);
}

/// A sequence with no alive cell counts zero, and conversely.
pub proof fn lemma_count_alive_zero(s: Seq<Cell>)
    ensures
        count_alive(s) == 0 <==> (forall|i: int| 0 <= i < s.len() ==> !s[i].alive),
    decreases s.len(),
{
    if s.len() > 0 {
        lemma_count_alive_zero(s.drop_last());
        lemma_count_alive_bounds(s.drop_last());
        if count_alive(s) == 0 {
            assert forall|i: int| 0 <= i < s.len() implies !s[i].alive by {
                if i < s.len() - 1 {
                    assert(s.drop_last()[i] == s[i]);
                } else {
                    assert(s.last() == s[i]);
                }
            }
        } else {
            if forall|i: int| 0 <= i < s.len() ==> !s[i].alive {
                assert forall|i: int| 0 <= i < s.drop_last().len() implies !s.drop_last()[i].alive by {
                    assert(s.drop_last()[i] == s[i]);
                }
                assert(!s.last().alive);
            }
        }
    }
}

/// If exactly one cell is alive and it sits at index p, every other index
/// is dead.
pub proof fn lemma_count_alive_single(s: Seq<Cell>, p: int, q: int)
    requires
        count_alive(s) == 1,
        0 <= p < s.len(),
        0 <= q < s.len(),
        p != q,
        s[p].alive,
    ensures
        !s[q].alive,
{
    if s[q].alive {
        lemma_count_alive_two(s, p, q);
    }
}

/// Two distinct alive indices force a count of at least two.
proof fn lemma_count_alive_two(s: Seq<Cell>, p: int, q: int)
    requires
        0 <= p < s.len(),
        0 <= q < s.len(),
        p != q,
        s[p].alive,
        s[q].alive,
    ensures
        count_alive(s) >= 2,
    decreases s.len(),
{
    let d = s.drop_last();
    if p == s.len() - 1 {
        lemma_count_alive_one(d, q);
    } else if q == s.len() - 1 {
        lemma_count_alive_one(d, p);
    } else {
        lemma_count_alive_two(d, p, q);
    }
}

/// One alive index forces a count of at least one.
pub proof fn lemma_count_alive_one(s: Seq<Cell>, p: int)
    requires
        0 <= p < s.len(),
        s[p].alive,
    ensures
        count_alive(s) >= 1,
    decreases s.len(),
{
    lemma_count_alive_bounds(s.drop_last());
    if p < s.len() - 1 {
        lemma_count_alive_one(s.drop_last(), p);
    }
}

/// Number of alive cells among the eight Moore neighbors of (x, y);
/// off-grid neighbors never count.
pub open spec fn neighbor_count(g: Seq<Cell>, x: int, y: int) -> int {
    b2i(alive_at(g, x - 1, y - 1)) + b2i(alive_at(g, x, y - 1)) + b2i(alive_at(g, x + 1, y - 1))
        + b2i(alive_at(g, x - 1, y)) + b2i(alive_at(g, x + 1, y)) + b2i(alive_at(g, x - 1, y + 1))
        + b2i(alive_at(g, x, y + 1)) + b2i(alive_at(g, x + 1, y + 1))
}

/// The flat indices of the alive cells among the first n, in ascending
/// order.
pub open spec fn enabled_idx_prefix(g: Seq<Cell>, n: int) -> Seq<usize>
    decreases n,
{
    if n <= 0 {
        Seq::empty()
    } else if g[n - 1].alive {
        enabled_idx_prefix(g, n - 1).push((n - 1) as usize)
    } else {
        enabled_idx_prefix(g, n - 1)
    }
}

/// The flat indices of all alive cells of a full grid, ascending.
pub open spec fn enabled_indexes(g: Seq<Cell>) -> Seq<usize> {
    enabled_idx_prefix(g, CELLS as int)
}

/// The alive-index list is ascending, lists exactly the alive indices
/// below n, and is as long as the alive count of that prefix.
pub proof fn lemma_enabled_idx_prefix_props(g: Seq<Cell>, n: int)
    requires
        0 <= n <= g.len(),
        n <= usize::MAX as int,
    ensures
        enabled_idx_prefix(g, n).len() == count_alive(g.take(n)),
        forall|j: int|
            0 <= j < enabled_idx_prefix(g, n).len() ==> (#[trigger] enabled_idx_prefix(g, n)[j])
                < n && g[enabled_idx_prefix(g, n)[j] as int].alive,
        forall|j1: int, j2: int|
            0 <= j1 < j2 < enabled_idx_prefix(g, n).len() ==> enabled_idx_prefix(g, n)[j1]
                < enabled_idx_prefix(g, n)[j2],
        forall|m: int|
            0 <= m < n && g[m].alive ==> exists|j: int|
                0 <= j < enabled_idx_prefix(g, n).len() && enabled_idx_prefix(g, n)[j] == m,
    decreases n,
{
    if n > 0 {
        lemma_enabled_idx_prefix_props(g, n - 1);
        lemma_count_alive_take_step(g, n - 1);
        let s = enabled_idx_prefix(g, n);
        let s0 = enabled_idx_prefix(g, n - 1);
        if g[n - 1].alive {
            assert forall|m: int| 0 <= m < n && g[m].alive implies exists|j: int|
                0 <= j < s.len() && s[j] == m by {
                if m == n - 1 {
                    assert(s[s.len() - 1] == m);
                } else {
                    let j = choose|j: int| 0 <= j < s0.len() && s0[j] == m;
                    assert(s[j] == m);
                }
            }
        }
    }
}

/// The merge of a partial update into an existing cell: fields that are
/// given replace the old ones, absent fields are kept.
pub open spec fn patch_cell(
    c: Cell,
    alive: Option<bool>,
    marked: Option<bool>,
    active: Option<bool>,
) -> Cell {
    Cell {
        alive: if alive is Some {
            alive->0
        } else {
            c.alive
        },
        marked: if marked is Some {
            marked->0
        } else {
            c.marked
        },
        active: if active is Some {
            active->0
        } else {
            c.active
        },
    }
}

/// The fixed-size field of cells, row-major: index = y * SIDE + x.
pub struct Grid {
    pub cells: Vec<Cell>,
}

impl View for Grid {
    type V = Seq<Cell>;

    open spec fn view(&self) -> Seq<Cell> {
        self.cells@
    }
}

impl Grid {
    /// The grid always holds exactly SIDE * SIDE cells.
    pub open spec fn wf(&self) -> bool {
        self@.len() == CELLS as int
    }

    /// The cell the grid holds at (x, y), for in-bounds positions.
    pub open spec fn spec_get(&self, x: int, y: int) -> Option<Cell> {
        if in_bounds(x, y) {
            Some(self@[idx_of(x, y)])
        } else {
            None
        }
    }

    /// A fresh grid with every flag cleared.
    pub fn new() -> (g: Grid)
        ensures
            g.wf(),
            forall|i: int|
                0 <= i < CELLS as int ==> g@[i] == (Cell {
                    alive: false,
                    marked: false,
                    active: false,
                }),
    {
        let blank = Cell { alive: false, marked: false, active: false };
        let mut cells: Vec<Cell> = Vec::new();
        let mut i: usize = 0;
        while i < CELLS
            invariant
                i <= CELLS,
                cells@.len() == i as int,
                forall|j: int| 0 <= j < i as int ==> cells@[j] == blank,
            decreases CELLS - i,
        {
            cells.push(blank);
            i = i + 1;
        }
        Grid { cells }
    }

    /// Bounds-checked access: `None` for any position off the grid,
    /// including negative coordinates.
    pub fn get_cell(&self, x: isize, y: isize) -> (r: Option<Cell>)
        requires
            self.wf(),
        ensures
            r == self.spec_get(x as int, y as int),
    {
        if x < 0 || y < 0 {
            return None;
        }
        if x >= SIDE || y >= SIDE {
            return None;
        }
        let index = (y * SIDE + x) as usize;
        Some(self.cells[index])
    }

    /// Partial update of the cell at an in-bounds position: only the
    /// supplied fields change, the rest keep their old values.
    pub fn set_cell_params(
        &mut self,
        x: isize,
        y: isize,
        alive: Option<bool>,
        marked: Option<bool>,
        active: Option<bool>,
    )
        requires
            old(self).wf(),
            in_bounds(x as int, y as int),
        ensures
            final(self).wf(),
            final(self)@ == old(self)@.update(
                idx_of(x as int, y as int),
                patch_cell(old(self)@[idx_of(x as int, y as int)], alive, marked, active),
            ),
    {
        let index = (y * SIDE + x) as usize;
        let cell = self.cells[index];
        let new_alive = match alive {
            Some(a) => a,
            None => cell.alive,
        };
        let new_marked = match marked {
            Some(m) => m,
            None => cell.marked,
        };
        let new_active = match active {
            Some(a) => a,
            None => cell.active,
        };
        self.cells.set(index, Cell { alive: new_alive, marked: new_marked, active: new_active });
    }

    /// The eight Moore-neighborhood cells of (x, y) in a fixed order:
    /// top-left, top, top-right, left, right, bottom-left, bottom,
    /// bottom-right. Off-grid entries are `None`.
    pub fn get_neighbours_cells(&self, x: isize, y: isize) -> (r: Vec<Option<Cell>>)
        requires
            self.wf(),
            in_bounds(x as int, y as int),
        ensures
            r@.len() == 8,
            r@[0] == self.spec_get(x - 1, y - 1),
            r@[1] == self.spec_get(x as int, y - 1),
            r@[2] == self.spec_get(x + 1, y - 1),
            r@[3] == self.spec_get(x - 1, y as int),
            r@[4] == self.spec_get(x + 1, y as int),
            r@[5] == self.spec_get(x - 1, y + 1),
            r@[6] == self.spec_get(x as int, y + 1),
            r@[7] == self.spec_get(x + 1, y + 1),
    {
        let mut result: Vec<Option<Cell>> = Vec::new();

        result.push(self.get_cell(x - 1, y - 1));  // top left
        result.push(self.get_cell(x, y - 1));  // top
        result.push(self.get_cell(x + 1, y - 1));  // top right

        result.push(self.get_cell(x - 1, y));  // left
        result.push(self.get_cell(x + 1, y));  // right

        result.push(self.get_cell(x - 1, y + 1));  // bottom left
        result.push(self.get_cell(x, y + 1));  // bottom
        result.push(self.get_cell(x + 1, y + 1));  // bottom right

        result
    }

    /// How many of the eight neighbors of (x, y) are alive.
    pub fn count_alive_neighbors(&self, x: isize, y: isize) -> (n: usize)
        requires
            self.wf(),
            in_bounds(x as int, y as int),
        ensures
            n == neighbor_count(self@, x as int, y as int),
    {
        let neighbours = self.get_neighbours_cells(x, y);
        let mut n: usize = 0;
        if is_alive(&neighbours[0]) {
            n = n + 1;
        }
        if is_alive(&neighbours[1]) {
            n = n + 1;
        }
        if is_alive(&neighbours[2]) {
            n = n + 1;
        }
        if is_alive(&neighbours[3]) {
            n = n + 1;
        }
        if is_alive(&neighbours[4]) {
            n = n + 1;
        }
        if is_alive(&neighbours[5]) {
            n = n + 1;
        }
        if is_alive(&neighbours[6]) {
            n = n + 1;
        }
        if is_alive(&neighbours[7]) {
            n = n + 1;
        }
        n
    }

    /// Clear every `alive` flag; `marked` and `active` are untouched.
    pub fn clear_field(&mut self)
        requires
            old(self).wf(),
        ensures
            final(self).wf(),
            forall|i: int|
                0 <= i < CELLS as int ==> final(self)@[i] == (Cell {
                    alive: false,
                    marked: old(self)@[i].marked,
                    active: old(self)@[i].active,
                }),
            count_alive(final(self)@) == 0,
    {
        let mut i: usize = 0;
        while i < CELLS
            invariant
                self@.len() == CELLS as int,
                i <= CELLS,
                forall|j: int|
                    0 <= j < i as int ==> self@[j] == (Cell {
                        alive: false,
                        marked: old(self)@[j].marked,
                        active: old(self)@[j].active,
                    }),
                forall|j: int| i as int <= j < CELLS as int ==> self@[j] == old(self)@[j],
            decreases CELLS - i,
        {
            let cell = self.cells[i];
            self.cells.set(i, Cell { alive: false, marked: cell.marked, active: cell.active });
            i = i + 1;
        }
        proof {
            lemma_count_alive_zero(self@);
        }
    }

    /// The grid that replaces `old_grid` when only geometry changed: every
    /// position keeps its `alive`, `marked` and `active` flags.
    pub fn rebuild_preserving(old_grid: &Grid) -> (g: Grid)
        requires
            old_grid.wf(),
        ensures
            g.wf(),
            forall|x: int, y: int|
                in_bounds(x, y) ==> g.spec_get(x, y) == old_grid.spec_get(x, y),
            g@ == old_grid@,
    {
        let mut cells: Vec<Cell> = Vec::new();
        let mut i: usize = 0;
        while i < CELLS
            invariant
                old_grid.wf(),
                i <= CELLS,
                cells@.len() == i as int,
                forall|j: int| 0 <= j < i as int ==> cells@[j] == old_grid@[j],
            decreases CELLS - i,
        {
            cells.push(old_grid.cells[i]);
            i = i + 1;
        }
        let g = Grid { cells };
        proof {
            assert(g@ =~= old_grid@);
        }
        g
    }

    /// The flat indices of all alive cells, in ascending order.
    pub fn get_enabled_cells_indexes(&self) -> (r: Vec<usize>)
        requires
            self.wf(),
        ensures
            r@ == enabled_indexes(self@),
            r@.len() == count_alive(self@),
    {
        let mut result: Vec<usize> = Vec::new();
        let mut i: usize = 0;
        while i < CELLS
            invariant
                self.wf(),
                i <= CELLS,
                result@ == enabled_idx_prefix(self@, i as int),
            decreases CELLS - i,
        {
            if self.cells[i].alive {
                result.push(i);
            }
            i = i + 1;
        }
        proof {
            lemma_enabled_idx_prefix_props(self@, CELLS as int);
            lemma_count_alive_take_all(self@);
        }
        result
    }

    /// How many cells are alive in the whole grid.
    pub fn count_alive_cells(&self) -> (n: usize)
        requires
            self.wf(),
        ensures
            n == count_alive(self@),
    {
        let mut n: usize = 0;
        let mut i: usize = 0;
        while i < CELLS
            invariant
                self.wf(),
                i <= CELLS,
                n as int == count_alive(self@.take(i as int)),
                n <= i,
            decreases CELLS - i,
        {
            proof {
                lemma_count_alive_take_step(self@, i as int);
            }
            if self.cells[i].alive {
                n = n + 1;
            }
            i = i + 1;
        }
        proof {
            lemma_count_alive_take_all(self@);
        }
        n
    }
}

/// Whether an optional cell is present and alive.
pub fn is_alive(cell: &Option<Cell>) -> (r: bool)
    ensures
        r == (cell is Some && cell->0.alive),
{
    match cell {
        Some(c) => c.alive,
        None => false,
    }
}

} // verus!
