//! A discrete-tick traffic simulation core: a road graph with all-pairs
//! shortest paths, and a per-road vehicle queue engine driven tick by tick.

pub mod roadmap;
pub mod trafficlight;
pub mod vehicle;
pub mod simulator;
pub mod runner;
