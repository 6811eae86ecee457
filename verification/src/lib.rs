//! A fixed-size 2-D cell grid driven by interchangeable simulation rules
//! (a single moving cursor, falling rain particles, and a Game-of-Life
//! variant), together with a collision-detection and note-selection policy
//! that turns live-on-marked overlaps into note-on / note-off events.

pub mod grid;
pub mod notes;
pub mod session;
pub mod sim;

mod rng;
