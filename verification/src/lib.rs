//! Flocking on a lattice: the discrete core of a boids simulation.
//!
//! Space is cut into a grid of cells. Each steering rule regroups the agents by
//! the cell they stand in and acts on the cells that are crowded enough. This
//! crate holds that bookkeeping and proves it:
//!
//! - [`grid`]: which cell a position falls into, positions outside the world
//!   included;
//! - [`partition`]: which agents share a cell, every agent in one group and in
//!   one only;
//! - [`swarm`]: which groups each rule steers, and in which frames cached
//!   measurements are renewed.
//!
//! The caller measures where each agent stands on a grid, asks the swarm for
//! the groups that a rule acts on, and turns the members of each group. The
//! vector arithmetic of that last step is the caller's.

pub mod grid;
pub mod partition;
pub mod swarm;

pub use grid::{Cell, Grid};
pub use partition::group_by_position;
pub use swarm::{BehaviorPlan, Rule, Swarm, Tint};
