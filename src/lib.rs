//! Simulation core of a small real-time-strategy game: terrain queries,
//! reverse multi-source path planning, line-of-sight, a spatial bucket
//! index for unit interaction, and the per-unit AI state machine.
//!
//! Positions are fixed-point: one tile is `geometry::SCALE` units.

pub mod geometry;
pub mod map;
pub mod path_finder;
pub mod projectile;
pub mod entity;
pub mod spatial;
pub mod building;
pub mod entity_holder;
pub mod game_state;
pub mod binary_helpers;
