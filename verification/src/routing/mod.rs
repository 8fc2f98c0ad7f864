//! Routing: the travel-time estimator, and later the graph and search that
//! share its cost unit.

pub mod estimate;

use vstd::prelude::*;

verus! {

/// In-city time in thousandths of an in-city minute -- the one cost unit of
/// everything under `routing`.
#[derive(Clone, Copy, Debug, PartialEq, Eq, PartialOrd, Ord, Structural)]
pub struct Milliminutes(pub i64);

/// How a trip is travelled; the speed ladder is data.
#[derive(Clone, Copy, Debug, PartialEq, Eq, Structural)]
pub enum TransportMode {
    Walk,
    Bike,
    Transit,
}

/// A cell address: world x, y and floor.
#[derive(Clone, Copy, Debug, PartialEq, Eq, Structural)]
pub struct Point {
    pub x: i32,
    pub y: i32,
    pub floor: i8,
}

} // verus!
