//! A fixed-tick simulation core: coarse application phases, the lifecycle of
//! the entities that the simulation phase owns, keyboard-driven player
//! movement and a camera that smoothly follows the tracked players.
//!
//! Positions are fixed-point: one world unit is `UNITS_PER_WORLD_UNIT`
//! (10^9) position units, and tick periods are whole nanoseconds, so a speed in
//! world units per second times a period gives an exact displacement.

pub mod geometry;
pub mod input;
pub mod simulation;
pub mod states;
pub mod world;

pub use geometry::{camera_factor, div_trunc_i128, isqrt, lerp_i64, Vec3, FACTOR_SCALE, UNITS_PER_WORLD_UNIT};
pub use input::{movement_delta, KeyState};
pub use world::{Bundle, EntityId, EntityRecord, Player, Players, Rgba, SimTag, TopText, World};
pub use simulation::{
    saturating_add, CameraOutcome, InputOutcome, SimError, SimulationPlugin, Spawned, SurfaceSize,
    BASE_MOVE_SPEED, TICK_PERIOD_NANOS,
};
pub use states::{AppState, StatePlugin, TransitionOutcome};
