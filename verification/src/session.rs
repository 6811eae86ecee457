//! The session controller: owns the grid, the selected simulation rule
//! and note policy, and the one-shot seed flag, and advances the whole
//! system by one tick at a time.

use vstd::prelude::*;

use crate::grid::{
    count_alive, count_marked, lemma_count_marked_one, lemma_count_marked_update,
    lemma_count_marked_zero, Cell, Grid, CELLS, SIDE,
};
use crate::notes::{emit, emit_rel, noteoff_events, stop, NoteEvent, NotePolicy};
use crate::rng::random_below;
use crate::sim::{
    index_to_pos, life, life_next, life_seed, mover, mover_next, mover_seed, rain, rain_next,
};

verus! {

/// Which simulation rule the controller runs. Exactly one is active at a
/// time.
#[derive(Clone, Copy, PartialEq, Eq, Structural, Debug)]
pub enum Simulation {
    Mover,
    Rain,
    Life,
}

/// Re-randomize the `marked` target set: clear every mark, then mark
/// SIDE * SIDE / 8 cells at independently drawn random positions
/// (positions may repeat). `alive` and `active` are untouched.
pub fn seed(grid: &mut Grid)
    requires
        old(grid).wf(),
    ensures
        final(grid).wf(),
        forall|i: int|
            0 <= i < CELLS as int ==> (#[trigger] final(grid)@[i]).alive == old(grid)@[i].alive
                && final(grid)@[i].active == old(grid)@[i].active,
        1 <= count_marked(final(grid)@) <= (CELLS as int) / 8,
{
    let ghost g0 = grid@;
    let mut i: usize = 0;
    while i < CELLS
        invariant
            grid.wf(),
            g0.len() == CELLS as int,
            i <= CELLS,
            forall|m: int|
                0 <= m < CELLS as int ==> (#[trigger] grid@[m]).alive == g0[m].alive
                    && grid@[m].active == g0[m].active,
            forall|m: int| 0 <= m < i as int ==> !(#[trigger] grid@[m]).marked,
        decreases CELLS - i,
    {
        let (x, y) = index_to_pos(i as isize);
        grid.set_cell_params(x, y, None, Some(false), None);
        i = i + 1;
    }
    proof {
        lemma_count_marked_zero(grid@);
    }

    let marked_count: usize = CELLS / 8;
    let mut k: usize = 0;
    while k < marked_count
        invariant
            grid.wf(),
            g0.len() == CELLS as int,
            k <= marked_count,
            forall|m: int|
                0 <= m < CELLS as int ==> (#[trigger] grid@[m]).alive == g0[m].alive
                    && grid@[m].active == g0[m].active,
            count_marked(grid@) <= k as int,
            k >= 1 ==> count_marked(grid@) >= 1,
        decreases marked_count - k,
    {
        let x = random_below(SIDE as usize) as isize;
        let y = random_below(SIDE as usize) as isize;
        let ghost pre = grid@;
        grid.set_cell_params(x, y, None, Some(true), None);
        proof {
            let t = crate::grid::idx_of(x as int, y as int);
            crate::grid::lemma_count_marked_bounds(pre);
            lemma_count_marked_update(pre, t, grid@[t]);
            if pre[t].marked {
                lemma_count_marked_one(pre, t);
            }
        }
        k = k + 1;
    }
}

/// How a rule's one-time seed step relates the grid it finds to the grid
/// it leaves: Mover sets the origin cell alive, Rain clears every alive
/// flag, and Life sets SIDE * SIDE / 2 randomly drawn cells alive (so at
/// least one cell lives afterwards, no cell dies, and the alive count
/// grows by at most that many). No seed touches `marked` or `active`.
pub open spec fn seed_rel(simulation: Simulation, g: Seq<Cell>, seeded: Seq<Cell>) -> bool {
    match simulation {
        Simulation::Mover => seeded == g.update(
            0,
            Cell { alive: true, marked: g[0].marked, active: g[0].active },
        ),
        Simulation::Rain => seeded.len() == g.len() && (forall|i: int|
            0 <= i < g.len() ==> seeded[i] == (Cell {
                alive: false,
                marked: g[i].marked,
                active: g[i].active,
            })),
        Simulation::Life => seeded.len() == g.len() && (forall|i: int|
            0 <= i < g.len() ==> (#[trigger] seeded[i]).marked == g[i].marked && seeded[i].active
                == g[i].active) && (forall|i: int|
            0 <= i < g.len() && g[i].alive ==> (#[trigger] seeded[i]).alive) && count_alive(seeded)
            <= count_alive(g) + (CELLS as int) / 2 && count_alive(seeded) >= 1,
    }
}

/// How the rule phase of one tick relates a grid to the grid it
/// produces, once the rule's seed step has already run.
pub open spec fn rule_rel(simulation: Simulation, g: Seq<Cell>, tick: u64, mid: Seq<Cell>) -> bool {
    match simulation {
        Simulation::Mover => mid == mover_next(g, tick),
        Simulation::Rain => exists|sx: int| 0 <= sx < SIDE as int && mid == rain_next(g, sx),
        Simulation::Life => mid == life_next(g),
    }
}

/// How the note phase of one tick relates the rule's output to the final
/// grid and the emitted events: an emission pass at tick mod 10 == 0, a
/// stop pass at tick mod 10 == 9, and nothing in between.
pub open spec fn note_phase_rel(
    tick: u64,
    policy: NotePolicy,
    mid: Seq<Cell>,
    g2: Seq<Cell>,
    events: Seq<NoteEvent>,
) -> bool {
    if tick % 10 == 0 {
        emit_rel(policy, mid, g2, events)
    } else if tick % 10 == 9 {
        g2.len() == mid.len() && (forall|i: int|
            0 <= i < mid.len() ==> g2[i] == (Cell {
                alive: mid[i].alive,
                marked: mid[i].marked,
                active: false,
            })) && events == noteoff_events(mid)
    } else {
        g2 == mid && events.len() == 0
    }
}

/// One session: the grid, the selected rule and policy, and the flag
/// that gates the one-time seed step of the active rule.
pub struct Session {
    pub grid: Grid,
    pub simulation: Simulation,
    pub note_policy: NotePolicy,
    pub initialized: bool,
}

impl Session {
    /// A session is well formed when its grid is.
    pub open spec fn wf(&self) -> bool {
        self.grid.wf()
    }

    /// A fresh session: a blank grid with a randomized `marked` set, the
    /// given rule and policy, and the seed step still pending.
    pub fn new(simulation: Simulation, note_policy: NotePolicy) -> (s: Session)
        ensures
            s.wf(),
            s.simulation == simulation,
            s.note_policy == note_policy,
            !s.initialized,
            forall|i: int| 0 <= i < CELLS as int ==> !(#[trigger] s.grid@[i]).alive,
            forall|i: int| 0 <= i < CELLS as int ==> !(#[trigger] s.grid@[i]).active,
            1 <= count_marked(s.grid@) <= (CELLS as int) / 8,
    {
        let mut grid = Grid::new();
        seed(&mut grid);
        Session { grid, simulation, note_policy, initialized: false }
    }

    /// Select the active simulation; the next tick reseeds under the new
    /// rule, but existing cell flags stay until that seed step runs.
    pub fn set_simulation(&mut self, simulation: Simulation)
        ensures
            final(self).grid == old(self).grid,
            final(self).simulation == simulation,
            final(self).note_policy == old(self).note_policy,
            !final(self).initialized,
    {
        self.simulation = simulation;
        self.initialized = false;
    }

    /// Select the note policy; nothing else changes.
    pub fn set_note_policy(&mut self, note_policy: NotePolicy)
        ensures
            final(self).grid == old(self).grid,
            final(self).simulation == old(self).simulation,
            final(self).note_policy == note_policy,
            final(self).initialized == old(self).initialized,
    {
        self.note_policy = note_policy;
    }

    /// Force the active rule's seed step to run again on the next tick;
    /// cell flags are untouched.
    pub fn restart(&mut self)
        ensures
            final(self).grid == old(self).grid,
            final(self).simulation == old(self).simulation,
            final(self).note_policy == old(self).note_policy,
            !final(self).initialized,
    {
        self.initialized = false;
    }

    /// Re-randomize the `marked` set only; `alive` and `active` are
    /// untouched, as are the selected rule, policy and seed flag.
    pub fn reseed(&mut self)
        requires
            old(self).wf(),
        ensures
            final(self).wf(),
            final(self).simulation == old(self).simulation,
            final(self).note_policy == old(self).note_policy,
            final(self).initialized == old(self).initialized,
            forall|i: int|
                0 <= i < CELLS as int ==> (#[trigger] final(self).grid@[i]).alive
                    == old(self).grid@[i].alive && final(self).grid@[i].active
                    == old(self).grid@[i].active,
            1 <= count_marked(final(self).grid@) <= (CELLS as int) / 8,
    {
        seed(&mut self.grid);
    }

    /// Advance one tick: run the active rule's seed step if it is still
    /// pending, run the rule, then run the note policy on the cadence —
    /// emission fires at tick mod 10 == 0, the stop pass at tick mod 10
    /// == 9, nothing otherwise. The rule and policy never touch `marked`.
    pub fn advance(&mut self, tick: u64) -> (events: Vec<NoteEvent>)
        requires
            old(self).wf(),
        ensures
            final(self).wf(),
            final(self).simulation == old(self).simulation,
            final(self).note_policy == old(self).note_policy,
            final(self).initialized,
            forall|i: int|
                0 <= i < CELLS as int ==> (#[trigger] final(self).grid@[i]).marked
                    == old(self).grid@[i].marked,
            old(self).initialized && tick % 10 != 0 && tick % 10 != 9 ==> events@.len() == 0
                && (old(self).simulation == Simulation::Mover ==> final(self).grid@ == mover_next(
                old(self).grid@,
                tick,
            )) && (old(self).simulation == Simulation::Life ==> final(self).grid@ == life_next(
                old(self).grid@,
            )) && (old(self).simulation == Simulation::Rain ==> exists|sx: int|
                0 <= sx < SIDE as int && final(self).grid@ == rain_next(old(self).grid@, sx)),
            tick % 10 == 9 ==> forall|i: int|
                0 <= i < CELLS as int ==> !(#[trigger] final(self).grid@[i]).active,
            tick % 10 == 0 ==> events@.len() <= 1,
            tick % 10 != 0 && tick % 10 != 9 ==> events@.len() == 0,
            old(self).initialized ==> exists|mid: Seq<Cell>|
                #[trigger] rule_rel(old(self).simulation, old(self).grid@, tick, mid)
                    && note_phase_rel(tick, old(self).note_policy, mid, final(self).grid@, events@),
            !old(self).initialized ==> exists|seeded: Seq<Cell>, mid: Seq<Cell>|
                seed_rel(old(self).simulation, old(self).grid@, seeded) && #[trigger] rule_rel(
                    old(self).simulation,
                    seeded,
                    tick,
                    mid,
                ) && note_phase_rel(tick, old(self).note_policy, mid, final(self).grid@, events@),
    {
        let ghost g0 = self.grid@;
        let ghost mut seeded = self.grid@;
        match self.simulation {
            Simulation::Mover => {
                if !self.initialized {
                    mover_seed(&mut self.grid);
                    self.initialized = true;
                }
                proof {
                    seeded = self.grid@;
                }
                mover(&mut self.grid, tick);
            },
            Simulation::Rain => {
                if !self.initialized {
                    self.grid.clear_field();
                    self.initialized = true;
                }
                proof {
                    seeded = self.grid@;
                }
                rain(&mut self.grid);
            },
            Simulation::Life => {
                if !self.initialized {
                    life_seed(&mut self.grid);
                    self.initialized = true;
                }
                proof {
                    seeded = self.grid@;
                }
                life(&mut self.grid);
            },
        }
        let ghost g1 = self.grid@;
        proof {
            assert forall|i: int| 0 <= i < CELLS as int implies (#[trigger] g1[i]).marked
                == g0[i].marked by {}
        }

        let mut events: Vec<NoteEvent> = Vec::new();
        let frac = tick % 10;
        if frac == 0 {
            let r = emit(&mut self.grid, self.note_policy);
            if let Some(e) = r {
                events.push(e);
            }
            proof {
                let cs = crate::notes::collision_indexes(g1);
                if r is Some {
                    assert(events@ =~= seq![r->0]);
                } else {
                    assert(events@ =~= Seq::<NoteEvent>::empty());
                }
                if cs.len() > 0 && old(self).note_policy == NotePolicy::Random {
                    let j = choose|j: int|
                        0 <= j < cs.len() && self.grid@ == crate::notes::triggered_grid(
                            g1,
                            #[trigger] cs[j] as int,
                        ) && r == crate::notes::trigger_event(g1, cs[j] as int);
                    assert(crate::notes::trig_rel(g1, cs[j] as int, self.grid@, events@));
                }
                assert(note_phase_rel(tick, old(self).note_policy, g1, self.grid@, events@));
            }
        } else if frac == 9 {
            events = stop(&mut self.grid);
            proof {
                assert(note_phase_rel(tick, old(self).note_policy, g1, self.grid@, events@));
            }
        } else {
            proof {
                assert(note_phase_rel(tick, old(self).note_policy, g1, self.grid@, events@));
            }
        }
        proof {
            assert forall|i: int| 0 <= i < CELLS as int implies (#[trigger] self.grid@[i]).marked
                == g1[i].marked by {}
            if old(self).initialized {
                assert(rule_rel(old(self).simulation, old(self).grid@, tick, g1));
            } else {
                assert(seed_rel(old(self).simulation, g0, seeded));
                assert(rule_rel(old(self).simulation, seeded, tick, g1));
            }
        }
        events
    }
}

} // verus!
