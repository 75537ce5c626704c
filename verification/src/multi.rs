//! Multi-objective optimization: scores with constraints, constrained dominance, non-dominated
//! sorting and the simplex lattice of reference directions.

pub mod algorithm;
pub mod archive;
pub mod engine;
pub mod nsga3;
pub mod pareto;
pub mod problems;
pub mod scores;

pub use archive::ParetoArchive;
pub use pareto::{dominates, non_dominated_sort};
pub use problems::{das_dennis, das_dennis_count, divisions_for};
pub use scores::Scores;
