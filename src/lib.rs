//! Shortest-path routing over a graph compiled from OpenStreetMap data, with a uniform grid
//! for nearest-node lookup and a live traffic (TMC) overlay.

pub mod access;
pub mod data;
pub mod geo;
pub mod grid;
pub mod parser;
pub mod queue;
pub mod rds;
pub mod route;
pub mod tmc;
