//! Observers: hall of fame, reports and custom callbacks, notified after every generation.

pub mod hall_of_fame;
pub mod report;

pub use hall_of_fame::HallOfFame;
pub use report::Report;

use crate::engine::Progress;
use crate::population::{Individual, Population};
use vstd::prelude::*;

verus! {

/// Notified by an engine after every generation, including the initial population.
pub trait Observer<G> {
    /// Called after a generation.
    fn observe(&mut self, snapshot: &Snapshot<'_, G>);
}

/// The state of a run after a generation.
pub struct Snapshot<'a, G> {
    population: &'a Population<G>,
    discarded: &'a [Individual<G>],
    best: &'a Individual<G>,
    progress: &'a Progress,
}

impl<'a, G> Snapshot<'a, G> {
    /// The population after the generation.
    pub closed spec fn spec_population(&self) -> Population<G> {
        *self.population
    }

    /// The individuals evaluated in this generation that didn't survive.
    pub closed spec fn spec_discarded(&self) -> Seq<Individual<G>> {
        self.discarded@
    }

    /// The best individual found so far.
    pub closed spec fn spec_best(&self) -> Individual<G> {
        *self.best
    }

    /// The generation, evaluations, time and best fitness so far.
    pub closed spec fn spec_progress(&self) -> Progress {
        *self.progress
    }

    /// The state after a generation.
    pub fn new(
        population: &'a Population<G>,
        discarded: &'a [Individual<G>],
        best: &'a Individual<G>,
        progress: &'a Progress,
    ) -> (r: Self)
        ensures
            r.spec_population() == *population,
            r.spec_discarded() == discarded@,
            r.spec_best() == *best,
            r.spec_progress() == *progress,
    {
        Snapshot { population, discarded, best, progress }
    }

    /// The population after the generation.
    pub fn population(&self) -> (r: &'a Population<G>)
        ensures
            *r == self.spec_population(),
    {
        self.population
    }

    /// The individuals evaluated in this generation that didn't survive into the population, e.g.
    /// the offspring rejected by (μ,λ) selection.
    pub fn discarded(&self) -> (r: &'a [Individual<G>])
        ensures
            r@ == self.spec_discarded(),
    {
        self.discarded
    }

    /// The best individual found so far.
    pub fn best(&self) -> (r: &'a Individual<G>)
        ensures
            *r == self.spec_best(),
    {
        self.best
    }

    /// The generation, evaluations, time and best fitness so far.
    pub fn progress(&self) -> (r: &'a Progress)
        ensures
            *r == self.spec_progress(),
    {
        self.progress
    }
}

} // verus!
