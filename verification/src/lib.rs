//! Verified core of a genetic algorithm that places generators on a plot
//! divided into square subplots, each with a value multiplier.

pub mod rng;
pub mod generator;
pub mod gene;
pub mod plot;
pub mod chromosome;
pub mod fitness;
pub mod population;
pub mod laws;
pub mod browse;
