//! Schematic maps: stations, routes, and the structural rules of paths.

pub mod route;
pub mod station;
pub mod validation;
