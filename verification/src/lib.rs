//! Evolutionary computation building blocks: portable random streams, permutation genomes and
//! their operators, point crossover, populations, selection, observers, and for several
//! objectives constrained dominance, non-dominated sorting, an archive of non-dominated
//! solutions and the simplex lattice of reference directions.

pub mod engine;
pub mod error;
pub mod fitness;
pub mod multi;
pub mod genome;
pub mod observer;
pub mod operator;
pub mod population;
pub mod rng;

pub use error::{Error, Result};
pub use fitness::{Fitness, Objective};
pub use population::{Individual, Population};
pub use rng::StreamRng;
