//! Core of a Barnes-Hut N-body simulator: what the simulation decides and
//! indexes, apart from the arithmetic on reals that it drives.
//!
//! - [`quad_tree`]: the quadtree as an index of bodies, with insertion and
//!   lookup by handle.
//! - [`walk`]: the traversal of a quadtree that force and collision queries
//!   share.
//! - [`velocity_map`]: the snapshot of all velocities that a step starts with.
//! - [`driver`]: the frame loop of every engine, as a state machine.
//! - [`pthread`]: the shared-memory engine and its partition of the bodies
//!   among workers.
//! - [`mpi_eng`]: the distributed engine, its blocks and its exchanges.
//! - [`sequential`]: the sequential engines.
//! - [`global`]: engine selection and the frame-rate report.
//! - [`geometry`]: points and velocities as the indexes hold them.

pub mod driver;
pub mod geometry;
pub mod global;
pub mod mpi_eng;
pub mod pthread;
pub mod quad_tree;
pub mod sequential;
pub mod velocity_map;
pub mod walk;
