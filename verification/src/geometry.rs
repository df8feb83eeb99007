//! Points and velocities as the index structures hold them.
//!
//! Coordinates, masses and velocity components are reals. To store a body
//! and to find it again only their bit patterns are needed, and those are
//! what these types hold: two points are equal exactly when they agree bit
//! for bit.

use vstd::prelude::*;

verus! {

/// A point mass, each coordinate and the mass given by its bit pattern.
#[derive(Clone, Copy, PartialEq, Eq, Structural, Debug)]
pub struct PointKey {
    pub x: u64,
    pub y: u64,
    pub mass: u64,
}

/// A velocity, each component given by its bit pattern.
#[derive(Clone, Copy, PartialEq, Eq, Structural, Debug)]
pub struct Velocity {
    pub x: u64,
    pub y: u64,
}

} // verus!
