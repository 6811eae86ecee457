use gridtone::grid::Grid;
use gridtone::notes::{
    emit, get_collisions, note_by_cell_index, stop, NoteEvent, NotePolicy, CHANNEL,
};
use gridtone::session::{Session, Simulation};

fn grid_with_collisions_at(indexes: &[usize]) -> Grid {
    let mut grid = Grid::new();
    for &i in indexes {
        let x = (i % 32) as isize;
        let y = (i / 32) as isize;
        grid.set_cell_params(x, y, Some(true), Some(true), None);
    }
    grid
}

#[test]
fn note_formula_is_x_plus_y_mod_128() {
    assert_eq!(note_by_cell_index(0), 0);
    assert_eq!(note_by_cell_index(3), 3);
    assert_eq!(note_by_cell_index(33), 2); // (1, 1)
    assert_eq!(note_by_cell_index(130), 6); // (2, 4)
    assert_eq!(note_by_cell_index(1023), 62); // (31, 31)
}

#[test]
fn collisions_are_alive_and_marked_in_ascending_order() {
    let mut grid = grid_with_collisions_at(&[12, 3, 7]);
    grid.set_cell_params(1, 0, Some(true), None, None); // alive only
    grid.set_cell_params(2, 0, None, Some(true), None); // marked only
    let collisions = get_collisions(&grid);
    let indexes: Vec<usize> = collisions.iter().map(|p| p.0).collect();
    assert_eq!(indexes, vec![3, 7, 12]);
    for (_, cell) in collisions {
        assert!(cell.alive && cell.marked);
    }
}

#[test]
fn min_policy_selects_smallest_index() {
    let mut grid = grid_with_collisions_at(&[3, 7, 12]);
    let event = emit(&mut grid, NotePolicy::Min);
    assert_eq!(event, Some(NoteEvent::NoteOn { channel: CHANNEL, note: 3 }));
    assert!(grid.get_cell(3, 0).unwrap().active);
    assert!(!grid.get_cell(7, 0).unwrap().active);
}

#[test]
fn max_policy_selects_largest_index() {
    let mut grid = grid_with_collisions_at(&[3, 7, 12]);
    let event = emit(&mut grid, NotePolicy::Max);
    assert_eq!(event, Some(NoteEvent::NoteOn { channel: CHANNEL, note: 12 }));
    assert!(grid.get_cell(12, 0).unwrap().active);
}

#[test]
fn avg_policy_selects_truncated_mean_index() {
    let mut grid = grid_with_collisions_at(&[3, 7, 12]);
    // (3 + 7 + 12) / 3 = 7 with integer division
    let event = emit(&mut grid, NotePolicy::Avg);
    assert_eq!(event, Some(NoteEvent::NoteOn { channel: CHANNEL, note: 7 }));
    assert!(grid.get_cell(7, 0).unwrap().active);
}

#[test]
fn avg_policy_may_select_a_non_collision_cell() {
    let mut grid = grid_with_collisions_at(&[0, 10]);
    // (0 + 10) / 2 = 5, which is not itself a collision
    let event = emit(&mut grid, NotePolicy::Avg);
    assert_eq!(event, Some(NoteEvent::NoteOn { channel: CHANNEL, note: 5 }));
    assert!(grid.get_cell(5, 0).unwrap().active);
}

#[test]
fn random_policy_selects_a_collision_roughly_uniformly() {
    let mut hits: Vec<usize> = vec![0, 0, 0];
    for _ in 0..300 {
        let mut grid = grid_with_collisions_at(&[3, 7, 12]);
        let event = emit(&mut grid, NotePolicy::Random);
        match event {
            Some(NoteEvent::NoteOn { channel, note }) => {
                assert_eq!(channel, CHANNEL);
                match note {
                    3 => hits[0] += 1,
                    7 => hits[1] += 1,
                    12 => hits[2] += 1,
                    other => panic!("selected a non-collision note {}", other),
                }
            }
            other => panic!("expected a note-on, got {:?}", other),
        }
    }
    // over 300 draws of 3 equally likely indices, each should show up
    assert!(hits[0] > 0 && hits[1] > 0 && hits[2] > 0);
}

#[test]
fn no_collision_means_no_event() {
    let mut grid = Grid::new();
    grid.set_cell_params(4, 4, Some(true), None, None);
    grid.set_cell_params(5, 5, None, Some(true), None);
    assert_eq!(emit(&mut grid, NotePolicy::Min), None);
    assert_eq!(emit(&mut grid, NotePolicy::Random), None);
}

#[test]
fn active_cell_is_not_retriggered() {
    let mut grid = grid_with_collisions_at(&[5]);
    let first = emit(&mut grid, NotePolicy::Min);
    assert_eq!(first, Some(NoteEvent::NoteOn { channel: CHANNEL, note: 5 }));
    // the same collision is still there, but the cell already sounds
    let second = emit(&mut grid, NotePolicy::Min);
    assert_eq!(second, None);
    assert!(grid.get_cell(5, 0).unwrap().active);
}

#[test]
fn stop_emits_one_note_off_per_active_cell_and_clears_all() {
    let mut grid = Grid::new();
    grid.set_cell_params(2, 0, None, None, Some(true)); // index 2
    grid.set_cell_params(8, 1, Some(true), None, Some(true)); // index 40
    let events = stop(&mut grid);
    assert_eq!(
        events,
        vec![
            NoteEvent::NoteOff { channel: CHANNEL, note: 2 },
            NoteEvent::NoteOff { channel: CHANNEL, note: 9 },
        ]
    );
    for x in 0..32 {
        for y in 0..32 {
            assert!(!grid.get_cell(x, y).unwrap().active);
        }
    }
    // the other flags survive the stop pass
    assert!(grid.get_cell(8, 1).unwrap().alive);
}

#[test]
fn stop_then_collision_can_retrigger() {
    let mut grid = grid_with_collisions_at(&[5]);
    assert!(emit(&mut grid, NotePolicy::Min).is_some());
    assert!(emit(&mut grid, NotePolicy::Min).is_none());
    let offs = stop(&mut grid);
    assert_eq!(offs.len(), 1);
    assert!(emit(&mut grid, NotePolicy::Min).is_some());
}

#[test]
fn session_runs_the_cadence() {
    let mut session = Session::new(Simulation::Mover, NotePolicy::Min);
    assert!(!session.initialized);
    // tick 1 is neither an emit nor a stop tick
    let events = session.advance(1);
    assert!(session.initialized);
    assert!(events.is_empty());
    assert_eq!(session.grid.count_alive_cells(), 1);
}

#[test]
fn session_set_simulation_forces_reseed() {
    let mut session = Session::new(Simulation::Mover, NotePolicy::Min);
    session.advance(1);
    assert!(session.initialized);
    session.set_simulation(Simulation::Rain);
    assert!(!session.initialized);
    session.restart();
    assert!(!session.initialized);
    session.set_note_policy(NotePolicy::Avg);
    assert_eq!(session.note_policy, NotePolicy::Avg);
}

#[test]
fn session_uninitialized_rain_tick_clears_then_spawns_one_drop() {
    let mut session = Session::new(Simulation::Rain, NotePolicy::Min);
    // stale state left behind by a previously active rule
    session.grid.set_cell_params(4, 4, Some(true), None, None);
    let events = session.advance(3); // a quiet tick: neither emit nor stop
    assert!(events.is_empty());
    assert!(session.initialized);
    // the seed cleared the field, then exactly one drop spawned on row 0
    assert_eq!(session.grid.count_alive_cells(), 1);
    let indexes = session.grid.get_enabled_cells_indexes();
    assert!(indexes[0] < 32);
}

#[test]
fn session_restarted_mover_tick_seeds_then_steps() {
    let mut session = Session::new(Simulation::Mover, NotePolicy::Min);
    session.advance(1);
    session.advance(2);
    session.restart();
    let events = session.advance(3);
    assert!(events.is_empty());
    assert!(session.initialized);
    // the seed relit the origin, then the step moved (2,0) on to (3,0)
    assert!(session.grid.get_cell(0, 0).unwrap().alive);
    assert!(session.grid.get_cell(3, 0).unwrap().alive);
    assert!(!session.grid.get_cell(2, 0).unwrap().alive);
    assert_eq!(session.grid.count_alive_cells(), 2);
}

#[test]
fn session_reseed_keeps_alive_and_active() {
    let mut session = Session::new(Simulation::Rain, NotePolicy::Min);
    session.grid.set_cell_params(4, 4, Some(true), None, Some(true));
    session.reseed();
    let cell = session.grid.get_cell(4, 4).unwrap();
    assert!(cell.alive && cell.active);
    assert_eq!(session.grid.count_alive_cells(), 1);
}

#[test]
fn session_event_stream_is_well_formed() {
    let mut session = Session::new(Simulation::Life, NotePolicy::Random);
    let mut ons: usize = 0;
    let mut offs: usize = 0;
    for tick in 0..60u64 {
        let events = session.advance(tick);
        if tick % 10 != 0 && tick % 10 != 9 {
            assert!(events.is_empty());
        }
        if tick % 10 == 0 {
            assert!(events.len() <= 1);
        }
        for event in events {
            match event {
                NoteEvent::NoteOn { channel, note } => {
                    assert_eq!(channel, CHANNEL);
                    assert!((0..128).contains(&note));
                    ons += 1;
                }
                NoteEvent::NoteOff { channel, note } => {
                    assert_eq!(channel, CHANNEL);
                    assert!((0..128).contains(&note));
                    offs += 1;
                }
            }
        }
    }
    // a stop pass follows every emission tick, so nothing can stay
    // sounding for more than one cadence window
    assert!(offs <= ons);
}

#[test]
fn session_stop_tick_silences_everything() {
    let mut session = Session::new(Simulation::Rain, NotePolicy::Min);
    session.grid.set_cell_params(3, 0, None, None, Some(true));
    let events = session.advance(9);
    assert_eq!(events.len(), 1);
    for x in 0..32 {
        for y in 0..32 {
            assert!(!session.grid.get_cell(x, y).unwrap().active);
        }
    }
}
