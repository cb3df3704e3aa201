//! Grid-based pursuit engine for a ray-cast maze game.
//!
//! The world is a rectangular grid of square cells (open, wall, exit).
//! Two movers — a player and a pursuing agent — live at continuous
//! positions inside that grid.  All continuous quantities (positions,
//! distances, speeds, durations) are fixed-point integers with 1000
//! sub-units per world unit or second; angles are integer
//! milli-degrees, normalized to the half-open range (-180000, 180000].
//!
//! The crate provides the geometric ray query shared by rendering and
//! line-of-sight checks, the sliding circle-vs-grid collision resolver
//! used by both movers, breadth-first pathfinding over grid cells, and
//! the agent's patrol/chase/cooldown behaviour controller.

pub mod fixed;
pub mod grid;
pub mod motion;
pub mod ray;
pub mod path;
pub mod agent;
pub mod orbs;
pub mod cadence;
pub mod assets;
