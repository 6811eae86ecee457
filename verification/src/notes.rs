//! The collision and note policy: scan a grid for live-on-marked
//! overlaps, promote one collision index per tick under the selected
//! policy, and emit edge-triggered note-on / note-off events.

use vstd::prelude::*;

use crate::grid::{count_active, Cell, Grid, CELLS, SIDE};
use crate::rng::random_below;
use crate::sim::index_to_pos;

verus! {

/// The fixed channel every event is sent on.
pub const CHANNEL: i32 = 0;

/// How a single collision index is picked when several cells collide in
/// the same tick.
#[derive(Clone, Copy, PartialEq, Eq, Structural, Debug)]
pub enum NotePolicy {
    Min,
    Max,
    Avg,
    Random,
}

/// A discrete event for the external sink. The channel is fixed for the
/// whole session and the note number is derived from the cell position.
#[derive(Clone, Copy, PartialEq, Eq, Structural, Debug)]
pub enum NoteEvent {
    NoteOn { channel: i32, note: i32 },
    NoteOff { channel: i32, note: i32 },
}

/// The note number of a flat cell index: (x + y) mod 128 of its position.
pub open spec fn spec_note_of(i: int) -> int {
    (i % (SIDE as int) + i / (SIDE as int)) % 128
}

/// The note number sounded by the cell at the given flat index.
pub fn note_by_cell_index(index: usize) -> (note: i32)
    requires
        index < CELLS,
    ensures
        note == spec_note_of(index as int),
        0 <= note < 128,
{
    let (x, y) = index_to_pos(index as isize);
    ((x + y) % 128) as i32
}

/// A collision: a cell that is alive and marked in the same tick.
pub open spec fn is_collision(g: Seq<Cell>, i: int) -> bool {
    g[i].alive && g[i].marked
}

/// The flat indices of the collisions among the first n cells, ascending.
pub open spec fn collision_idx_prefix(g: Seq<Cell>, n: int) -> Seq<usize>
    decreases n,
{
    if n <= 0 {
        Seq::empty()
    } else if is_collision(g, n - 1) {
        collision_idx_prefix(g, n - 1).push((n - 1) as usize)
    } else {
        collision_idx_prefix(g, n - 1)
    }
}

/// The flat indices of all collisions of a full grid, ascending.
pub open spec fn collision_indexes(g: Seq<Cell>) -> Seq<usize> {
    collision_idx_prefix(g, CELLS as int)
}

/// The collision-index list is ascending, holds only collision indices
/// below n, and lists every one of them.
pub proof fn lemma_collision_idx_prefix_props(g: Seq<Cell>, n: int)
    requires
        0 <= n <= g.len(),
        n <= usize::MAX as int,
    ensures
        collision_idx_prefix(g, n).len() <= n,
        forall|j: int|
            0 <= j < collision_idx_prefix(g, n).len() ==> (#[trigger] collision_idx_prefix(g, n)[j])
                < n && is_collision(g, collision_idx_prefix(g, n)[j] as int),
        forall|j1: int, j2: int|
            0 <= j1 < j2 < collision_idx_prefix(g, n).len() ==> collision_idx_prefix(g, n)[j1]
                < collision_idx_prefix(g, n)[j2],
        forall|m: int|
            0 <= m < n && is_collision(g, m) ==> exists|j: int|
                0 <= j < collision_idx_prefix(g, n).len() && collision_idx_prefix(g, n)[j] == m,
    decreases n,
{
    if n > 0 {
        lemma_collision_idx_prefix_props(g, n - 1);
        let s = collision_idx_prefix(g, n);
        let s0 = collision_idx_prefix(g, n - 1);
        if is_collision(g, n - 1) {
            assert forall|m: int| 0 <= m < n && is_collision(g, m) implies exists|j: int|
                0 <= j < s.len() && s[j] == m by {
                if m == n - 1 {
                    assert(s[s.len() - 1] == m);
                } else {
                    let j = choose|j: int| 0 <= j < s0.len() && s0[j] == m;
                    assert(s[j] == m);
                }
            }
        }
    }
}

/// Every collision of the grid, as (flat index, cell) in ascending index
/// order.
pub fn get_collisions(grid: &Grid) -> (r: Vec<(usize, Cell)>)
    requires
        grid.wf(),
    ensures
        r@.len() == collision_indexes(grid@).len(),
        forall|j: int|
            0 <= j < r@.len() ==> (#[trigger] r@[j]).0 == collision_indexes(grid@)[j] && r@[j].1
                == grid@[r@[j].0 as int],
{
    let mut result: Vec<(usize, Cell)> = Vec::new();
    let mut i: usize = 0;
    while i < CELLS
        invariant
            grid.wf(),
            i <= CELLS,
            result@.len() == collision_idx_prefix(grid@, i as int).len(),
            forall|j: int|
                0 <= j < result@.len() ==> (#[trigger] result@[j]).0 == collision_idx_prefix(
                    grid@,
                    i as int,
                )[j] && result@[j].1 == grid@[result@[j].0 as int],
        decreases CELLS - i,
    {
        let c = grid.cells[i];
        if c.alive && c.marked {
            result.push((i, c));
        }
        i = i + 1;
    }
    result
}

/// The least element of a nonempty sequence.
pub open spec fn seq_min(s: Seq<usize>) -> usize
    decreases s.len(),
{
    if s.len() <= 1 {
        s[0]
    } else if s.last() < seq_min(s.drop_last()) {
        s.last()
    } else {
        seq_min(s.drop_last())
    }
}

/// The greatest element of a nonempty sequence.
pub open spec fn seq_max(s: Seq<usize>) -> usize
    decreases s.len(),
{
    if s.len() <= 1 {
        s[0]
    } else if s.last() > seq_max(s.drop_last()) {
        s.last()
    } else {
        seq_max(s.drop_last())
    }
}

/// The sum of a sequence.
pub open spec fn seq_sum(s: Seq<usize>) -> int
    decreases s.len(),
{
    if s.len() == 0 {
        0
    } else {
        seq_sum(s.drop_last()) + s.last()
    }
}

/// The truncating integer mean of a nonempty index list; it need not
/// itself be a member of the list.
pub open spec fn avg_index(s: Seq<usize>) -> int {
    seq_sum(s) / s.len() as int
}

/// The cell as it looks once its note has been triggered.
pub open spec fn trigger_cell(c: Cell) -> Cell {
    Cell { alive: c.alive, marked: c.marked, active: true }
}

/// The grid after the policy selects index i: unchanged if that cell is
/// already sounding, else its `active` flag is set.
pub open spec fn triggered_grid(g: Seq<Cell>, i: int) -> Seq<Cell> {
    if g[i].active {
        g
    } else {
        g.update(i, trigger_cell(g[i]))
    }
}

/// The event the selection of index i produces: nothing if that cell is
/// already sounding, else a note-on for its position-derived note.
pub open spec fn trigger_event(g: Seq<Cell>, i: int) -> Option<NoteEvent> {
    if g[i].active {
        None
    } else {
        Some(NoteEvent::NoteOn { channel: CHANNEL, note: spec_note_of(i) as i32 })
    }
}

/// Edge-trigger idempotence: selecting an index whose cell is already
/// sounding changes nothing and produces no event.
pub proof fn lemma_trigger_idempotent(g: Seq<Cell>, i: int)
    requires
        0 <= i < g.len(),
        g[i].active,
    ensures
        triggered_grid(g, i) == g,
        trigger_event(g, i) is None,
{
}

/// Set the selected cell sounding, unless it already is, and hand back
/// the event to send.
fn trigger_index(grid: &mut Grid, index: usize) -> (r: Option<NoteEvent>)
    requires
        old(grid).wf(),
        index < CELLS,
    ensures
        final(grid).wf(),
        final(grid)@ == triggered_grid(old(grid)@, index as int),
        r == trigger_event(old(grid)@, index as int),
        forall|i: int|
            0 <= i < CELLS as int ==> (#[trigger] final(grid)@[i]).marked == old(grid)@[i].marked
                && final(grid)@[i].alive == old(grid)@[i].alive,
{
    let (x, y) = index_to_pos(index as isize);
    let cell = grid.cells[index];
    if cell.active {
        return None;
    }
    grid.set_cell_params(x, y, None, None, Some(true));
    let note = note_by_cell_index(index);
    Some(NoteEvent::NoteOn { channel: CHANNEL, note })
}

/// Promote the least collision index, edge-triggered.
pub fn note_with_min_index(grid: &mut Grid, indices: &Vec<usize>) -> (r: Option<NoteEvent>)
    requires
        old(grid).wf(),
        forall|j: int| 0 <= j < indices@.len() ==> (#[trigger] indices@[j]) < CELLS,
    ensures
        final(grid).wf(),
        indices@.len() == 0 ==> final(grid)@ == old(grid)@ && r is None,
        indices@.len() > 0 ==> final(grid)@ == triggered_grid(old(grid)@, seq_min(indices@) as int)
            && r == trigger_event(old(grid)@, seq_min(indices@) as int),
        forall|i: int|
            0 <= i < CELLS as int ==> (#[trigger] final(grid)@[i]).marked == old(grid)@[i].marked
                && final(grid)@[i].alive == old(grid)@[i].alive,
{
    if indices.len() == 0 {
        return None;
    }
    let mut m: usize = indices[0];
    let mut j: usize = 1;
    while j < indices.len()
        invariant
            1 <= j <= indices@.len(),
            m == seq_min(indices@.take(j as int)),
        decreases indices@.len() - j,
    {
        proof {
            assert(indices@.take(j as int + 1).drop_last() =~= indices@.take(j as int));
        }
        if indices[j] < m {
            m = indices[j];
        }
        j = j + 1;
    }
    proof {
        assert(indices@.take(indices@.len() as int) =~= indices@);
        lemma_seq_min_in(indices@);
    }
    trigger_index(grid, m)
}

/// Promote the greatest collision index, edge-triggered.
pub fn note_with_max_index(grid: &mut Grid, indices: &Vec<usize>) -> (r: Option<NoteEvent>)
    requires
        old(grid).wf(),
        forall|j: int| 0 <= j < indices@.len() ==> (#[trigger] indices@[j]) < CELLS,
    ensures
        final(grid).wf(),
        indices@.len() == 0 ==> final(grid)@ == old(grid)@ && r is None,
        indices@.len() > 0 ==> final(grid)@ == triggered_grid(old(grid)@, seq_max(indices@) as int)
            && r == trigger_event(old(grid)@, seq_max(indices@) as int),
        forall|i: int|
            0 <= i < CELLS as int ==> (#[trigger] final(grid)@[i]).marked == old(grid)@[i].marked
                && final(grid)@[i].alive == old(grid)@[i].alive,
{
    if indices.len() == 0 {
        return None;
    }
    let mut m: usize = indices[0];
    let mut j: usize = 1;
    while j < indices.len()
        invariant
            1 <= j <= indices@.len(),
            m == seq_max(indices@.take(j as int)),
        decreases indices@.len() - j,
    {
        proof {
            assert(indices@.take(j as int + 1).drop_last() =~= indices@.take(j as int));
        }
        if indices[j] > m {
            m = indices[j];
        }
        j = j + 1;
    }
    proof {
        assert(indices@.take(indices@.len() as int) =~= indices@);
        lemma_seq_max_in(indices@);
    }
    trigger_index(grid, m)
}

/// Promote the truncating integer mean of the collision indices,
/// edge-triggered. The mean of in-range indices is itself in range, but
/// need not itself be a collision.
pub fn note_with_avg_index(grid: &mut Grid, indices: &Vec<usize>) -> (r: Option<NoteEvent>)
    requires
        old(grid).wf(),
        forall|j: int| 0 <= j < indices@.len() ==> (#[trigger] indices@[j]) < CELLS,
        indices@.len() <= CELLS,
    ensures
        final(grid).wf(),
        indices@.len() == 0 ==> final(grid)@ == old(grid)@ && r is None,
        indices@.len() > 0 ==> final(grid)@ == triggered_grid(old(grid)@, avg_index(indices@))
            && r == trigger_event(old(grid)@, avg_index(indices@)),
        forall|i: int|
            0 <= i < CELLS as int ==> (#[trigger] final(grid)@[i]).marked == old(grid)@[i].marked
                && final(grid)@[i].alive == old(grid)@[i].alive,
{
    if indices.len() == 0 {
        return None;
    }
    let mut sum: usize = 0;
    let mut j: usize = 0;
    while j < indices.len()
        invariant
            j <= indices@.len(),
            forall|k: int| 0 <= k < indices@.len() ==> (#[trigger] indices@[k]) < CELLS,
            indices@.len() <= CELLS,
            sum == seq_sum(indices@.take(j as int)),
            sum <= j * (CELLS - 1),
        decreases indices@.len() - j,
    {
        proof {
            assert(indices@.take(j as int + 1).drop_last() =~= indices@.take(j as int));
            assert(sum + indices@[j as int] <= j * (CELLS - 1) + (CELLS - 1)) by {
                assert(indices@[j as int] < CELLS);
            }
            assert(j * (CELLS - 1) + (CELLS - 1) == (j + 1) * (CELLS - 1)) by (nonlinear_arith);
            assert((j + 1) * (CELLS - 1) <= CELLS * (CELLS - 1)) by (nonlinear_arith)
                requires
                    j + 1 <= CELLS as int,
            ;
        }
        sum = sum + indices[j];
        j = j + 1;
    }
    proof {
        assert(indices@.take(indices@.len() as int) =~= indices@);
    }
    let index = sum / indices.len();
    proof {
        let n = indices@.len() as int;
        assert(seq_sum(indices@) <= n * (CELLS - 1));
        assert(seq_sum(indices@) / n <= (CELLS - 1)) by (nonlinear_arith)
            requires
                n >= 1,
                seq_sum(indices@) >= 0,
                seq_sum(indices@) <= n * (CELLS as int - 1),
        ;
    }
    trigger_index(grid, index)
}

/// Promote a uniformly random collision index, edge-triggered.
pub fn note_with_random_index(grid: &mut Grid, indices: &Vec<usize>) -> (r: Option<NoteEvent>)
    requires
        old(grid).wf(),
        forall|j: int| 0 <= j < indices@.len() ==> (#[trigger] indices@[j]) < CELLS,
    ensures
        final(grid).wf(),
        indices@.len() == 0 ==> final(grid)@ == old(grid)@ && r is None,
        indices@.len() > 0 ==> exists|j: int|
            0 <= j < indices@.len() && final(grid)@ == triggered_grid(
                old(grid)@,
                #[trigger] indices@[j] as int,
            ) && r == trigger_event(old(grid)@, indices@[j] as int),
        forall|i: int|
            0 <= i < CELLS as int ==> (#[trigger] final(grid)@[i]).marked == old(grid)@[i].marked
                && final(grid)@[i].alive == old(grid)@[i].alive,
{
    if indices.len() == 0 {
        return None;
    }
    let pick = random_below(indices.len());
    let index = indices[pick];
    let r = trigger_index(grid, index);
    proof {
        assert(indices@[pick as int] == index);
    }
    r
}

/// Scan the grid for collisions and promote one of them under the given
/// policy, edge-triggered: at most the selected cell's `active` flag is
/// set, and at most one note-on event comes back. With no collision the
/// grid is unchanged and no event fires.
pub fn emit(grid: &mut Grid, policy: NotePolicy) -> (r: Option<NoteEvent>)
    requires
        old(grid).wf(),
    ensures
        final(grid).wf(),
        collision_indexes(old(grid)@).len() == 0 ==> final(grid)@ == old(grid)@ && r is None,
        collision_indexes(old(grid)@).len() > 0 && policy == NotePolicy::Min ==> final(grid)@
            == triggered_grid(old(grid)@, seq_min(collision_indexes(old(grid)@)) as int) && r
            == trigger_event(old(grid)@, seq_min(collision_indexes(old(grid)@)) as int),
        collision_indexes(old(grid)@).len() > 0 && policy == NotePolicy::Max ==> final(grid)@
            == triggered_grid(old(grid)@, seq_max(collision_indexes(old(grid)@)) as int) && r
            == trigger_event(old(grid)@, seq_max(collision_indexes(old(grid)@)) as int),
        collision_indexes(old(grid)@).len() > 0 && policy == NotePolicy::Avg ==> final(grid)@
            == triggered_grid(old(grid)@, avg_index(collision_indexes(old(grid)@))) && r
            == trigger_event(old(grid)@, avg_index(collision_indexes(old(grid)@))),
        collision_indexes(old(grid)@).len() > 0 && policy == NotePolicy::Random ==> exists|j: int|
            0 <= j < collision_indexes(old(grid)@).len() && final(grid)@ == triggered_grid(
                old(grid)@,
                #[trigger] collision_indexes(old(grid)@)[j] as int,
            ) && r == trigger_event(old(grid)@, collision_indexes(old(grid)@)[j] as int),
        forall|i: int|
            0 <= i < CELLS as int ==> (#[trigger] final(grid)@[i]).marked == old(grid)@[i].marked
                && final(grid)@[i].alive == old(grid)@[i].alive,
{
    let ghost cs = collision_indexes(grid@);
    proof {
        lemma_collision_idx_prefix_props(grid@, CELLS as int);
    }
    let pairs = get_collisions(grid);
    let mut indices: Vec<usize> = Vec::new();
    let mut j: usize = 0;
    while j < pairs.len()
        invariant
            j <= pairs@.len(),
            pairs@.len() == cs.len(),
            forall|k: int| 0 <= k < pairs@.len() ==> (#[trigger] pairs@[k]).0 == cs[k],
            indices@.len() == j as int,
            forall|k: int| 0 <= k < j as int ==> (#[trigger] indices@[k]) == cs[k],
        decreases pairs@.len() - j,
    {
        indices.push(pairs[j].0);
        j = j + 1;
    }
    proof {
        assert(indices@ =~= cs);
    }

    match policy {
        NotePolicy::Min => note_with_min_index(grid, &indices),
        NotePolicy::Max => note_with_max_index(grid, &indices),
        NotePolicy::Avg => note_with_avg_index(grid, &indices),
        NotePolicy::Random => note_with_random_index(grid, &indices),
    }
}

/// How one selection relates a grid to the grid and event list it leaves
/// behind: the grid is triggered at index i, and the event list holds
/// the one event the trigger produced, if any.
pub open spec fn trig_rel(g: Seq<Cell>, i: int, g2: Seq<Cell>, events: Seq<NoteEvent>) -> bool {
    g2 == triggered_grid(g, i) && events == (match trigger_event(g, i) {
        Some(e) => seq![e],
        None => Seq::<NoteEvent>::empty(),
    })
}

/// How one emission pass relates a grid to the grid and event list it
/// leaves behind, per policy. With no collision nothing happens; under
/// Random some collision index is selected.
pub open spec fn emit_rel(
    policy: NotePolicy,
    g: Seq<Cell>,
    g2: Seq<Cell>,
    events: Seq<NoteEvent>,
) -> bool {
    let cs = collision_indexes(g);
    if cs.len() == 0 {
        g2 == g && events.len() == 0
    } else {
        match policy {
            NotePolicy::Min => trig_rel(g, seq_min(cs) as int, g2, events),
            NotePolicy::Max => trig_rel(g, seq_max(cs) as int, g2, events),
            NotePolicy::Avg => trig_rel(g, avg_index(cs), g2, events),
            NotePolicy::Random => exists|j: int|
                0 <= j < cs.len() && trig_rel(g, #[trigger] cs[j] as int, g2, events),
        }
    }
}

/// The note-off events the stop pass produces for the first n cells: one
/// per sounding cell, in ascending index order.
pub open spec fn noteoff_prefix(g: Seq<Cell>, n: int) -> Seq<NoteEvent>
    decreases n,
{
    if n <= 0 {
        Seq::empty()
    } else if g[n - 1].active {
        noteoff_prefix(g, n - 1).push(
            NoteEvent::NoteOff { channel: CHANNEL, note: spec_note_of(n - 1) as i32 },
        )
    } else {
        noteoff_prefix(g, n - 1)
    }
}

/// The note-off events the stop pass produces for a full grid.
pub open spec fn noteoff_events(g: Seq<Cell>) -> Seq<NoteEvent> {
    noteoff_prefix(g, CELLS as int)
}

/// The stop pass emits exactly one note-off per sounding cell.
pub proof fn lemma_noteoff_count(g: Seq<Cell>, n: int)
    requires
        0 <= n <= g.len(),
    ensures
        noteoff_prefix(g, n).len() == count_active(g.take(n)),
    decreases n,
{
    if n > 0 {
        lemma_noteoff_count(g, n - 1);
        assert(g.take(n).drop_last() =~= g.take(n - 1));
    }
}

/// The stop pass: clear every `active` flag and hand back one note-off
/// per cell that was sounding, in ascending index order.
pub fn stop(grid: &mut Grid) -> (events: Vec<NoteEvent>)
    requires
        old(grid).wf(),
    ensures
        final(grid).wf(),
        forall|i: int|
            0 <= i < CELLS as int ==> final(grid)@[i] == (Cell {
                alive: old(grid)@[i].alive,
                marked: old(grid)@[i].marked,
                active: false,
            }),
        events@ == noteoff_events(old(grid)@),
        events@.len() == count_active(old(grid)@),
{
    let ghost g0 = grid@;
    let mut events: Vec<NoteEvent> = Vec::new();
    let mut i: usize = 0;
    while i < CELLS
        invariant
            grid.wf(),
            g0.len() == CELLS as int,
            i <= CELLS,
            forall|m: int|
                0 <= m < i as int ==> grid@[m] == (Cell {
                    alive: g0[m].alive,
                    marked: g0[m].marked,
                    active: false,
                }),
            forall|m: int| i as int <= m < CELLS as int ==> grid@[m] == g0[m],
            events@ == noteoff_prefix(g0, i as int),
        decreases CELLS - i,
    {
        let c = grid.cells[i];
        if c.active {
            let (x, y) = index_to_pos(i as isize);
            grid.set_cell_params(x, y, None, None, Some(false));
            let note = note_by_cell_index(i);
            events.push(NoteEvent::NoteOff { channel: CHANNEL, note });
        }
        i = i + 1;
    }
    proof {
        lemma_noteoff_count(g0, CELLS as int);
        assert(g0.take(CELLS as int) =~= g0);
    }
    events
}

/// The least element of a nonempty sequence is one of its elements and
/// no element is below it.
proof fn lemma_seq_min_in(s: Seq<usize>)
    requires
        s.len() > 0,
    ensures
        exists|j: int| 0 <= j < s.len() && s[j] == seq_min(s),
        forall|j: int| 0 <= j < s.len() ==> seq_min(s) <= #[trigger] s[j],
    decreases s.len(),
{
    if s.len() == 1 {
        assert(s[0] == seq_min(s));
    } else {
        let d = s.drop_last();
        lemma_seq_min_in(d);
        assert forall|j: int| 0 <= j < s.len() implies seq_min(s) <= #[trigger] s[j] by {
            if j < s.len() - 1 {
                assert(s[j] == d[j]);
            }
        }
        if s.last() < seq_min(d) {
            assert(s[s.len() - 1] == seq_min(s));
        } else {
            let j = choose|j: int| 0 <= j < d.len() && d[j] == seq_min(d);
            assert(s[j] == seq_min(s));
        }
    }
}

/// The greatest element of a nonempty sequence is one of its elements
/// and no element is above it.
proof fn lemma_seq_max_in(s: Seq<usize>)
    requires
        s.len() > 0,
    ensures
        exists|j: int| 0 <= j < s.len() && s[j] == seq_max(s),
        forall|j: int| 0 <= j < s.len() ==> #[trigger] s[j] <= seq_max(s),
    decreases s.len(),
{
    if s.len() == 1 {
        assert(s[0] == seq_max(s));
    } else {
        let d = s.drop_last();
        lemma_seq_max_in(d);
        assert forall|j: int| 0 <= j < s.len() implies #[trigger] s[j] <= seq_max(s) by {
            if j < s.len() - 1 {
                assert(s[j] == d[j]);
            }
        }
        if s.last() > seq_max(d) {
            assert(s[s.len() - 1] == seq_max(s));
        } else {
            let j = choose|j: int| 0 <= j < d.len() && d[j] == seq_max(d);
            assert(s[j] == seq_max(s));
        }
    }
}

} // verus!
