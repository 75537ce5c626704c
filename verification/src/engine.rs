//! The progress of a run, as observers see it.

use crate::fitness::{Fitness, Objective};
use vstd::prelude::*;

verus! {

/// The generation, evaluations, time and best fitness of a run so far.
#[derive(Clone, Copy, Debug, PartialEq, Eq, Structural)]
pub struct Progress {
    /// The generation, 0 for the initial population.
    pub generation: u64,
    /// The number of fitness evaluations so far.
    pub evaluations: u64,
    /// The time since the run started, in nanoseconds.
    pub elapsed_nanos: u128,
    /// The best fitness so far, `None` in a multi-objective run.
    pub best: Option<Fitness>,
    /// The generation of the best fitness so far (of the last improvement of the front in a
    /// multi-objective run).
    pub best_generation: u64,
    /// Whether the score is maximized or minimized.
    pub objective: Objective,
}

impl Progress {
    /// The generation.
    pub fn generation(&self) -> (r: u64)
        ensures
            r == self.generation,
    {
        self.generation
    }

    /// The number of fitness evaluations so far.
    pub fn evaluations(&self) -> (r: u64)
        ensures
            r == self.evaluations,
    {
        self.evaluations
    }

    /// The time since the run started, in nanoseconds.
    pub fn elapsed_nanos(&self) -> (r: u128)
        ensures
            r == self.elapsed_nanos,
    {
        self.elapsed_nanos
    }

    /// The best fitness so far.
    pub fn best(&self) -> (r: Option<Fitness>)
        ensures
            r == self.best,
    {
        self.best
    }

    /// The generation of the best fitness so far.
    pub fn best_generation(&self) -> (r: u64)
        ensures
            r == self.best_generation,
    {
        self.best_generation
    }

    /// The direction of optimization.
    pub fn objective(&self) -> (r: Objective)
        ensures
            r == self.objective,
    {
        self.objective
    }
}

} // verus!
