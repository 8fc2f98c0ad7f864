//! Pure simulation logic for a city simulation: a pinned PRNG, the city
//! clock, code tables, world addressing and collision, walkability
//! checks, the generic rule engine, the validation harness and the
//! district generator's passes. Integer arithmetic only; every input is
//! passed in by the caller.

pub mod text;
pub mod rng;
pub mod appearance;
pub mod time;
pub mod city_clock_fixture;
pub mod codes;
pub mod demo_ping;
pub mod defs;
pub mod balance;
pub mod routing;
pub mod world;
pub mod rules;
pub mod validation;
pub mod generation;
