//! Simulation core for an evolutionary vector-racer: a reversible random
//! generator, integer vector geometry, a windowed occupancy grid, a
//! procedurally carved racetrack, the integer half of the neural controller,
//! the per-tick simulation step, and the generational selection rules.
pub mod brain;
pub mod evolve;
pub mod grid;
pub mod racetrack;
pub mod rng;
pub mod sim;
pub mod vector;
