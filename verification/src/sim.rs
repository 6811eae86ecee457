//! The three simulation rules. Each is a per-tick transition over a grid
//! snapshot: Mover walks a single alive cell in raster order, Rain drops
//! particles one row per tick, and Life is a Game-of-Life variant. Each
//! rule also has a one-time seed step, run when it becomes active.

use vstd::prelude::*;

use crate::grid::{
    b2i, count_alive, enabled_indexes, idx_of, in_bounds, is_alive,
    lemma_count_alive_bounds, lemma_count_alive_one, lemma_count_alive_single,
    lemma_count_alive_update,
    lemma_enabled_idx_prefix_props, neighbor_count, Cell, Grid, CELLS,
    SIDE,
};
use crate::rng::random_below;

verus! {

/// The (x, y) position of a flat row-major index.
pub open spec fn spec_pos_of(i: int) -> (int, int) {
    (i % (SIDE as int), i / (SIDE as int))
}

/// The (x, y) position of a flat index.
pub fn index_to_pos(i: isize) -> (r: (isize, isize))
    requires
        0 <= i < CELLS as int,
    ensures
        (r.0 as int, r.1 as int) == spec_pos_of(i as int),
        in_bounds(r.0 as int, r.1 as int),
        idx_of(r.0 as int, r.1 as int) == i as int,
{
    let x = i % SIDE;
    let y = i / SIDE;
    (x, y)
}

/// The flat index of an in-bounds (x, y) position.
pub fn pos_to_index(p: (isize, isize)) -> (i: isize)
    requires
        in_bounds(p.0 as int, p.1 as int),
    ensures
        i as int == idx_of(p.0 as int, p.1 as int),
        0 <= i < CELLS as int,
{
    p.1 * SIDE + p.0
}

/// The flat index the mover leaves on the given tick: the previous tick's
/// raster position, clamped to the origin before the first tick.
pub open spec fn mover_prev_index(tick: u64) -> int {
    if tick < 1 {
        0
    } else {
        ((tick - 1) as int) % (CELLS as int)
    }
}

/// The flat index the mover occupies on the given tick.
pub open spec fn mover_next_index(tick: u64) -> int {
    (tick as int) % (CELLS as int)
}

/// The mover's position on the previous tick, as (x, y).
pub fn get_prev_pos(tick: u64) -> (r: (isize, isize))
    ensures
        idx_of(r.0 as int, r.1 as int) == mover_prev_index(tick),
        in_bounds(r.0 as int, r.1 as int),
{
    if tick < 1 {
        return (0, 0);
    }
    index_to_pos(((tick - 1) % (CELLS as u64)) as isize)
}

/// The mover's position on the given tick, as (x, y).
pub fn get_next_pos(tick: u64) -> (r: (isize, isize))
    ensures
        idx_of(r.0 as int, r.1 as int) == mover_next_index(tick),
        in_bounds(r.0 as int, r.1 as int),
{
    index_to_pos((tick % (CELLS as u64)) as isize)
}

/// The grid after one mover tick: if the previous and next raster
/// positions coincide nothing changes, otherwise the previous cell is
/// cleared and the next one set alive. Other flags are untouched.
pub open spec fn mover_next(g: Seq<Cell>, tick: u64) -> Seq<Cell> {
    let p = mover_prev_index(tick);
    let n = mover_next_index(tick);
    if p == n {
        g
    } else {
        g.update(p, Cell { alive: false, marked: g[p].marked, active: g[p].active }).update(
            n,
            Cell { alive: true, marked: g[n].marked, active: g[n].active },
        )
    }
}

/// One tick of the Mover rule.
pub fn mover(grid: &mut Grid, tick: u64)
    requires
        old(grid).wf(),
    ensures
        final(grid).wf(),
        final(grid)@ == mover_next(old(grid)@, tick),
{
    let (px, py) = get_prev_pos(tick);
    let (x, y) = get_next_pos(tick);
    if px == x && py == y {
        return ;
    }
    grid.set_cell_params(px, py, Some(false), None, None);
    grid.set_cell_params(x, y, Some(true), None, None);
    proof {
        assert(grid@ =~= mover_next(old(grid)@, tick));
    }
}

/// The Mover seed: the origin cell alive.
pub fn mover_seed(grid: &mut Grid)
    requires
        old(grid).wf(),
    ensures
        final(grid).wf(),
        final(grid)@ == old(grid)@.update(
            0,
            Cell { alive: true, marked: old(grid)@[0].marked, active: old(grid)@[0].active },
        ),
{
    grid.set_cell_params(0, 0, Some(true), None, None);
}

/// Whether the rain rule spawns a new drop this tick: it does while
/// fewer than 2 * SIDE drops are falling.
pub open spec fn rain_spawns(g: Seq<Cell>) -> bool {
    count_alive(g) < 2 * (SIDE as int)
}

/// Whether cell i is alive after a rain tick that spawns in column sx:
/// either it is the spawned drop on row 0, or the cell one row above it
/// held a drop. Drops on the bottom row fall off and are discarded.
pub open spec fn rain_alive(g: Seq<Cell>, sx: int, i: int) -> bool {
    (rain_spawns(g) && i == sx) || (i >= SIDE as int && g[i - SIDE as int].alive)
}

/// The grid after one rain tick with spawn column sx; `marked` and
/// `active` are untouched.
pub open spec fn rain_next(g: Seq<Cell>, sx: int) -> Seq<Cell> {
    Seq::new(
        CELLS as nat,
        |i: int|
            Cell { alive: rain_alive(g, sx, i), marked: g[i].marked, active: g[i].active },
    )
}

/// One tick of the Rain rule, with the spawn column already drawn:
/// collect the falling drops, clear the field, spawn a new drop on row 0
/// if fewer than 2 * SIDE are falling, and drop every old particle one
/// row; drops leaving the bottom edge are discarded. The alive count
/// grows by at most one.
pub fn rain_step(grid: &mut Grid, spawn_x: isize)
    requires
        old(grid).wf(),
        0 <= spawn_x < SIDE,
    ensures
        final(grid).wf(),
        final(grid)@ == rain_next(old(grid)@, spawn_x as int),
        count_alive(final(grid)@) <= count_alive(old(grid)@) + 1,
{
    let ghost g0 = grid@;
    let ghost sx = spawn_x as int;
    let ghost en = enabled_indexes(g0);
    proof {
        lemma_enabled_idx_prefix_props(g0, CELLS as int);
    }

    let enabled = grid.get_enabled_cells_indexes();

    grid.clear_field();

    // add new drop
    proof {
        lemma_count_alive_bounds(g0);
    }
    let spawned = (enabled.len() as isize) < 2 * SIDE;
    if spawned {
        let ghost cleared = grid@;
        grid.set_cell_params(spawn_x, 0, Some(true), None, None);
        proof {
            lemma_count_alive_update(cleared, sx, grid@[sx]);
        }
    }
    assert(spawned == rain_spawns(g0));

    // fall old drops
    let mut j: usize = 0;
    while j < enabled.len()
        invariant
            grid.wf(),
            g0.len() == CELLS as int,
            0 <= sx < SIDE as int,
            enabled@ == en,
            en == enabled_indexes(g0),
            en.len() == count_alive(g0),
            spawned == rain_spawns(g0),
            j <= enabled.len(),
            count_alive(grid@) <= b2i(spawned) + j,
            forall|i: int|
                0 <= i < CELLS as int ==> (#[trigger] grid@[i]).marked == g0[i].marked
                    && grid@[i].active == g0[i].active,
            forall|i: int|
                0 <= i < CELLS as int ==> ((#[trigger] grid@[i]).alive <==> ((spawned && i == sx)
                    || (i >= SIDE as int && exists|k: int|
                        0 <= k < j && en[k] as int == i - SIDE as int))),
        decreases enabled.len() - j,
    {
        proof {
            lemma_enabled_idx_prefix_props(g0, CELLS as int);
        }
        let index = enabled[j];
        assert(index < CELLS && g0[index as int].alive);
        let (x, y) = index_to_pos(index as isize);
        let ghost pre = grid@;
        if y + 1 < SIDE {
            grid.set_cell_params(x, y + 1, Some(true), None, None);
            proof {
                let t = idx_of(x as int, y as int + 1);
                assert(t == index as int + SIDE as int);
                lemma_count_alive_update(pre, t, grid@[t]);
                assert forall|i: int| 0 <= i < CELLS as int implies ((#[trigger] grid@[i]).alive
                    <==> ((spawned && i == sx) || (i >= SIDE as int && exists|k: int|
                        0 <= k < j + 1 && en[k] as int == i - SIDE as int))) by {
                    if i == t {
                        assert(en[j as int] as int == i - SIDE as int);
                    } else {
                        assert(grid@[i] == pre[i]);
                        if exists|k: int| 0 <= k < j + 1 && en[k] as int == i - SIDE as int {
                            let k = choose|k: int|
                                0 <= k < j + 1 && en[k] as int == i - SIDE as int;
                            assert(k < j);
                        }
                    }
                }
            }
        } else {
            proof {
                assert(index as int + SIDE as int >= CELLS as int);
                assert forall|i: int| 0 <= i < CELLS as int implies ((#[trigger] grid@[i]).alive
                    <==> ((spawned && i == sx) || (i >= SIDE as int && exists|k: int|
                        0 <= k < j + 1 && en[k] as int == i - SIDE as int))) by {
                    if exists|k: int| 0 <= k < j + 1 && en[k] as int == i - SIDE as int {
                        let k = choose|k: int| 0 <= k < j + 1 && en[k] as int == i - SIDE as int;
                        assert(k < j);
                    }
                }
            }
        }
        j = j + 1;
    }
    proof {
        lemma_enabled_idx_prefix_props(g0, CELLS as int);
        assert forall|i: int| 0 <= i < CELLS as int implies grid@[i] == rain_next(g0, sx)[i] by {
            if i >= SIDE as int && g0[i - SIDE as int].alive {
                let m = i - SIDE as int;
                let k = choose|k: int| 0 <= k < en.len() && en[k] as int == m;
                assert(0 <= k < en.len() && en[k] as int == i - SIDE as int);
            }
            assert(grid@[i].alive == rain_alive(g0, sx, i));
        }
        assert(grid@ =~= rain_next(g0, sx));
        lemma_count_alive_bounds(g0);
    }
}

/// One tick of the Rain rule: the spawn column is drawn uniformly at
/// random, and the grid then steps as `rain_next` for that column.
pub fn rain(grid: &mut Grid)
    requires
        old(grid).wf(),
    ensures
        final(grid).wf(),
        exists|sx: int|
            0 <= sx < SIDE as int && final(grid)@ == rain_next(old(grid)@, sx),
        count_alive(final(grid)@) <= count_alive(old(grid)@) + 1,
{
    let x = random_below(SIDE as usize) as isize;
    rain_step(grid, x);
}

/// Whether cell i is alive after a Life tick: an alive cell dies with
/// exactly one alive neighbor, survives with two or three, and dies at
/// zero or four and more; a dead cell becomes alive with exactly three.
pub open spec fn life_alive(g: Seq<Cell>, i: int) -> bool {
    let p = spec_pos_of(i);
    let n = neighbor_count(g, p.0, p.1);
    if g[i].alive {
        if n == 1 {
            false
        } else if n == 2 || n == 3 {
            true
        } else {
            false
        }
    } else {
        n == 3
    }
}

/// The grid after one Life tick; every cell is judged against the
/// snapshot taken at tick start, and `marked` and `active` are untouched.
pub open spec fn life_next(g: Seq<Cell>) -> Seq<Cell> {
    Seq::new(
        CELLS as nat,
        |i: int| Cell { alive: life_alive(g, i), marked: g[i].marked, active: g[i].active },
    )
}

/// One tick of the Life rule.
pub fn life(grid: &mut Grid)
    requires
        old(grid).wf(),
    ensures
        final(grid).wf(),
        final(grid)@ == life_next(old(grid)@),
{
    let ghost g0 = grid@;
    let mut next_field = Grid::rebuild_preserving(grid);

    let mut i: usize = 0;
    while i < CELLS
        invariant
            grid.wf(),
            grid@ == g0,
            next_field.wf(),
            i <= CELLS,
            forall|m: int| 0 <= m < i as int ==> #[trigger] next_field@[m] == life_next(g0)[m],
            forall|m: int| i as int <= m < CELLS as int ==> #[trigger] next_field@[m] == g0[m],
        decreases CELLS - i,
    {
        let (x, y) = index_to_pos(i as isize);
        let cell = grid.get_cell(x, y);
        let cell_is_alive = is_alive(&cell);
        let alive_neighbours = grid.count_alive_neighbors(x, y);

        if cell_is_alive {
            match alive_neighbours {
                1 => next_field.set_cell_params(x, y, Some(false), None, None),
                2 | 3 => next_field.set_cell_params(x, y, Some(true), None, None),
                _ => next_field.set_cell_params(x, y, Some(false), None, None),
            }
        } else if alive_neighbours == 3 {
            next_field.set_cell_params(x, y, Some(true), None, None);
        }
        proof {
            assert(next_field@[i as int] == life_next(g0)[i as int]);
        }
        i = i + 1;
    }

    *grid = next_field;
    proof {
        assert(grid@ =~= life_next(g0));
    }
}

/// Life step determinism: the next grid is a pure function of the input
/// grid, so identical inputs yield identical outputs.
pub proof fn lemma_life_deterministic(g1: Seq<Cell>, g2: Seq<Cell>)
    requires
        g1 == g2,
    ensures
        life_next(g1) == life_next(g2),
{
}

/// The Life seed: SIDE * SIDE / 2 cells set alive at independently drawn
/// random positions; positions may repeat, so the alive count grows by at
/// most that many but by at least one. `marked` and `active` are
/// untouched, and no cell dies.
pub fn life_seed(grid: &mut Grid)
    requires
        old(grid).wf(),
    ensures
        final(grid).wf(),
        forall|i: int|
            0 <= i < CELLS as int ==> (#[trigger] final(grid)@[i]).marked == old(grid)@[i].marked
                && final(grid)@[i].active == old(grid)@[i].active,
        forall|i: int|
            0 <= i < CELLS as int && old(grid)@[i].alive ==> (#[trigger] final(grid)@[i]).alive,
        count_alive(final(grid)@) <= count_alive(old(grid)@) + (CELLS as int) / 2,
        count_alive(final(grid)@) >= 1,
{
    let ghost g0 = grid@;
    let mut k: usize = 0;
    while k < CELLS / 2
        invariant
            grid.wf(),
            g0.len() == CELLS as int,
            k <= CELLS / 2,
            count_alive(grid@) <= count_alive(g0) + k,
            k >= 1 ==> count_alive(grid@) >= 1,
            forall|i: int|
                0 <= i < CELLS as int ==> (#[trigger] grid@[i]).marked == g0[i].marked
                    && grid@[i].active == g0[i].active,
            forall|i: int| 0 <= i < CELLS as int && g0[i].alive ==> (#[trigger] grid@[i]).alive,
        decreases CELLS / 2 - k,
    {
        let x = random_below(SIDE as usize) as isize;
        let y = random_below(SIDE as usize) as isize;
        let ghost pre = grid@;
        grid.set_cell_params(x, y, Some(true), None, None);
        proof {
            let t = idx_of(x as int, y as int);
            lemma_count_alive_update(pre, t, grid@[t]);
            lemma_count_alive_one(grid@, t);
        }
        k = k + 1;
    }
}

/// Mover invariant: a grid whose single alive cell sits at the mover's
/// previous position still has exactly one alive cell after the tick,
/// also in the same-position no-op case — and that cell sits at the
/// tick's own raster position.
pub proof fn lemma_mover_keeps_single_alive(g: Seq<Cell>, tick: u64)
    requires
        g.len() == CELLS as int,
        count_alive(g) == 1,
        g[mover_prev_index(tick)].alive,
    ensures
        count_alive(mover_next(g, tick)) == 1,
        mover_next(g, tick)[mover_next_index(tick)].alive,
{
    let p = mover_prev_index(tick);
    let n = mover_next_index(tick);
    if p != n {
        let dead = Cell { alive: false, marked: g[p].marked, active: g[p].active };
        let live = Cell { alive: true, marked: g[n].marked, active: g[n].active };
        let g1 = g.update(p, dead);
        lemma_count_alive_update(g, p, dead);
        lemma_count_alive_single(g, p, n);
        lemma_count_alive_update(g1, n, live);
    }
}

/// The mover's position on one tick is exactly the position it leaves on
/// the next, so the single-alive-cell invariant carries from tick to
/// tick.
pub proof fn lemma_mover_chain(g: Seq<Cell>, tick: u64)
    requires
        g.len() == CELLS as int,
        count_alive(g) == 1,
        g[mover_next_index(tick)].alive,
        tick < u64::MAX,
    ensures
        count_alive(mover_next(g, (tick + 1) as u64)) == 1,
        mover_next(g, (tick + 1) as u64)[mover_next_index((tick + 1) as u64)].alive,
{
    assert(mover_prev_index((tick + 1) as u64) == mover_next_index(tick));
    lemma_mover_keeps_single_alive(g, (tick + 1) as u64);
}

} // verus!
