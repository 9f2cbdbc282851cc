//! Lifecycle management for the short-lived objects of a fixed-rate simulation:
//! a pool that recycles entities, a policy that decides between reuse and fresh
//! construction, a randomized grower of connected grid regions, and timed
//! particle bursts.

pub mod asteroid;
pub mod cell_set;
pub mod entropy;
pub mod object_pool;
pub mod spawn;
pub mod vfx;
