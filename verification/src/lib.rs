//! Discrete-event simulator for transport sweeps over unstructured 3D meshes.
//!
//! A sweep solves every mesh cell once per angular direction, each cell after
//! all of its upwind neighbours. This library predicts the wall-clock,
//! communication and idle time of such a sweep for a given assignment of
//! cells to processors. It performs no physics: it models the schedule.
//!
//! All simulated times are integer ticks; geometry uses integer coordinates.

pub mod cell;
pub mod counting;
pub mod direction;
pub mod face;
pub mod graph;
pub mod grid;
pub mod param_file;
pub mod pqueue;
pub mod processor;
pub mod processors;
pub mod records;
pub mod run;
pub mod run_data;
pub mod sweep;
pub mod task;
pub mod vector_3d;

pub use vector_3d::Vector3D;
