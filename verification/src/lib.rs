//! Core algorithms for a grid-based exploration game: a deterministic
//! pseudo-random generator with unbiased range sampling and exploding dice,
//! a cellular-automaton cave generator with connectivity repair, an A* grid
//! pathfinder, and a precise permissive field-of-view computation.

pub mod cave;
pub mod grid;
pub mod location;
pub mod pathing;
pub mod precise_permissive_fov;
pub mod prng;
