//! Core of a Plinko-style arcade simulation: a deterministic pyramid board of
//! pegs and multiplier zones, a player currency balance, a registry of falling
//! balls, per-tick gravity override, at-most-once collision scoring, a bounded
//! newest-first history of recent multipliers, and a decaying screen-shake
//! feedback effect. Rendering, input polling and the rigid-body solver are
//! external collaborators: this crate holds the state and the rules, and a
//! host drives it tick by tick.

pub mod board;
pub mod history;
pub mod rng;
pub mod shake;
pub mod sim;
