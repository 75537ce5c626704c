//! An archive of non-dominated solutions.

use super::pareto::{dominates, fits, lemma_dominance_is_strict_partial_order};
use super::scores::{dominance, same_scores, Scores};
use crate::error::{reason_got, Error, Result};
use crate::fitness::Objective;
use crate::population::Individual;
use vstd::prelude::*;

verus! {

/// The scores of an evaluated member.
pub open spec fn score_of<G>(member: Individual<G, Scores>) -> Scores {
    member.spec_fitness()->0
}

/// Whether every member is evaluated, with a value per objective.
pub open spec fn evaluated_and_fitting<G>(members: Seq<Individual<G, Scores>>, objectives: Seq<Objective>) -> bool {
    forall|i: int| 0 <= i < members.len() ==> (#[trigger] members[i]).spec_fitness() is Some
        && fits(score_of(members[i]), objectives)
}

/// Whether no member has the scores of another one or dominates another one.
pub open spec fn mutually_non_dominated<G>(members: Seq<Individual<G, Scores>>, objectives: Seq<Objective>) -> bool {
    forall|i: int, j: int| 0 <= i < members.len() && 0 <= j < members.len() && i != j
        ==> !same_scores(score_of(#[trigger] members[i]), score_of(#[trigger] members[j]))
            && !dominance(score_of(members[i]), score_of(members[j]), objectives)
}

/// Whether no member has the scores `s` or dominates them.
pub open spec fn admits<G>(members: Seq<Individual<G, Scores>>, s: Scores, objectives: Seq<Objective>) -> bool {
    forall|i: int| 0 <= i < members.len() ==> !same_scores(score_of(#[trigger] members[i]), s)
        && !dominance(score_of(members[i]), s, objectives)
}

/// The members that the scores `s` don't dominate, in their order.
pub open spec fn kept<G>(members: Seq<Individual<G, Scores>>, s: Scores, objectives: Seq<Objective>) -> Seq<Individual<G, Scores>>
    decreases members.len(),
{
    if members.len() == 0 {
        members
    } else {
        let rest = kept(members.drop_first(), s, objectives);
        if dominance(s, score_of(members[0]), objectives) { rest } else { seq![members[0]] + rest }
    }
}

/// The members after offering `individual`: when it's evaluated and no member has its scores or
/// dominates it, the members it doesn't dominate followed by it; otherwise the same members.
pub open spec fn inserted<G>(members: Seq<Individual<G, Scores>>, individual: Individual<G, Scores>, objectives: Seq<Objective>) -> Seq<Individual<G, Scores>> {
    if individual.spec_fitness() is Some && admits(members, score_of(individual), objectives) {
        kept(members, score_of(individual), objectives).push(individual)
    } else {
        members
    }
}

/// The members after offering `individuals` in turn.
pub open spec fn inserted_all<G>(members: Seq<Individual<G, Scores>>, individuals: Seq<Individual<G, Scores>>, objectives: Seq<Objective>) -> Seq<Individual<G, Scores>>
    decreases individuals.len(),
{
    if individuals.len() == 0 {
        members
    } else {
        inserted(inserted_all(members, individuals.drop_last(), objectives), individuals.last(), objectives)
    }
}

/// The scores of the evaluated ones of `individuals`, in their order.
pub open spec fn scores_offered<G>(individuals: Seq<Individual<G, Scores>>) -> Seq<Scores>
    decreases individuals.len(),
{
    if individuals.len() == 0 {
        Seq::empty()
    } else {
        let rest = scores_offered(individuals.drop_last());
        if individuals.last().spec_fitness() is Some { rest.push(score_of(individuals.last())) } else { rest }
    }
}

/// The objective values of the valid members, in their order.
pub open spec fn valid_values<G>(members: Seq<Individual<G, Scores>>) -> Seq<Seq<u64>>
    decreases members.len(),
{
    if members.len() == 0 {
        Seq::empty()
    } else {
        let rest = valid_values(members.drop_last());
        let last = score_of(members.last());
        if last.spec_is_valid() { rest.push(last.spec_values()) } else { rest }
    }
}

/// The non-dominated solutions among every solution it's given: the best trade-offs found in a
/// whole run, not only in the final population.
///
/// Solutions are compared by constrained [dominance](super::dominates); the archive keeps one
/// member per objective vector, the first one given. With a capacity, the members beyond it are
/// removed, one at a time, by [`remove`](ParetoArchive::remove): the most crowded first (the
/// smallest crowding distance, the earliest on ties).
pub struct ParetoArchive<G> {
    objectives: Vec<Objective>,
    capacity: Option<usize>,
    members: Vec<Individual<G, Scores>>,
}

impl<G> ParetoArchive<G> {
    /// A capacity is at least 2; the members are evaluated, fit the objectives, and neither
    /// share their scores nor dominate each other.
    #[verifier::type_invariant]
    spec fn is_well_formed(self) -> bool {
        &&& (self.capacity matches Some(c) ==> c >= 2)
        &&& evaluated_and_fitting(self.members@, self.objectives@)
        &&& mutually_non_dominated(self.members@, self.objectives@)
    }

    /// The objective directions.
    pub closed spec fn spec_objectives(&self) -> Seq<Objective> {
        self.objectives@
    }

    /// The capacity, `None` when unbounded.
    pub closed spec fn spec_capacity(&self) -> Option<usize> {
        self.capacity
    }

    /// The members, in the order they were added.
    pub closed spec fn spec_members(&self) -> Seq<Individual<G, Scores>> {
        self.members@
    }

    /// An empty, unbounded archive for these objective directions.
    pub fn new(objectives: Vec<Objective>) -> (r: Self)
        ensures
            r.spec_objectives() == objectives@,
            r.spec_capacity() is None,
            r.spec_members().len() == 0,
    {
        ParetoArchive { objectives, capacity: None, members: Vec::new() }
    }

    /// An empty archive that holds at most `capacity` members, at least 2.
    ///
    /// # Errors
    ///
    /// [`Error::InvalidSetting`] for a capacity below 2.
    pub fn with_capacity(objectives: Vec<Objective>, capacity: usize) -> (r: Result<Self>)
        ensures
            r is Ok <==> capacity >= 2,
            r matches Ok(archive) ==> archive.spec_objectives() == objectives@
                && archive.spec_capacity() == Some(capacity) && archive.spec_members().len() == 0,
            r matches Err(e) ==> e.is_invalid_setting("capacity"),
    {
        if capacity < 2 {
            return Err(Error::InvalidSetting {
                setting: "capacity",
                reason: reason_got("an archive holds at least 2 members", capacity),
            });
        }
        Ok(ParetoArchive { objectives, capacity: Some(capacity), members: Vec::new() })
    }

    /// The members, in the order they were added: evaluated, and neither sharing their scores
    /// nor dominating each other.
    pub fn members(&self) -> (r: &[Individual<G, Scores>])
        ensures
            r@ == self.spec_members(),
            evaluated_and_fitting(r@, self.spec_objectives()),
            mutually_non_dominated(r@, self.spec_objectives()),
    {
        proof {
            use_type_invariant(self);
        }
        self.members.as_slice()
    }

    /// The bits of the objective values of the valid members.
    pub fn values(&self) -> (r: Vec<Vec<u64>>)
        ensures
            r@.map_values(|v: Vec<u64>| v@) == valid_values(self.spec_members()),
    {
        proof {
            use_type_invariant(self);
        }
        let ghost members = self.members@;
        let mut r: Vec<Vec<u64>> = Vec::new();
        let mut i: usize = 0;
        while i < self.members.len()
            invariant
                i <= members.len(),
                members == self.members@,
                evaluated_and_fitting(members, self.objectives@),
                r@.map_values(|v: Vec<u64>| v@) == valid_values(members.take(i as int)),
            decreases members.len() - i,
        {
            proof {
                assert(members[i as int].spec_fitness() is Some);
                assert(members.take(i + 1).drop_last() =~= members.take(i as int));
                assert(members.take(i + 1).last() == members[i as int]);
            }
            let ghost before = r@;
            match self.members[i].fitness_ref() {
                Some(scores) => {
                    match scores.values() {
                        Some(values) => {
                            r.push(values);
                            proof {
                                assert(r@.map_values(|v: Vec<u64>| v@) =~= before.map_values(|v: Vec<u64>| v@).push(score_of(members[i as int]).spec_values()));
                            }
                        },
                        None => {},
                    }
                },
                None => {},
            }
            i = i + 1;
        }
        proof {
            assert(members.take(members.len() as int) =~= members);
        }
        r
    }

    /// The objective directions.
    pub fn objectives(&self) -> (r: &[Objective])
        ensures
            r@ == self.spec_objectives(),
    {
        self.objectives.as_slice()
    }

    /// The number of members.
    pub fn len(&self) -> (r: usize)
        ensures
            r == self.spec_members().len(),
    {
        self.members.len()
    }

    /// Whether the archive is empty.
    pub fn is_empty(&self) -> (r: bool)
        ensures
            r == (self.spec_members().len() == 0),
    {
        self.members.len() == 0
    }

    /// Whether the archive holds more members than its capacity.
    pub fn over_capacity(&self) -> (r: bool)
        ensures
            r == (self.spec_capacity() matches Some(c) && self.spec_members().len() > c),
    {
        match self.capacity {
            Some(c) => self.members.len() > c,
            None => false,
        }
    }

    /// The members, consuming the archive.
    pub fn into_members(self) -> (r: Vec<Individual<G, Scores>>)
        ensures
            r@ == self.spec_members(),
    {
        self.members
    }

    /// Removes the most crowded member, the one with the smallest crowding distance, the earliest
    /// on ties ([`is_first_least`]), to make room in a full archive, and returns it. The distances
    /// are given in the members' order, as the bits of the `f64` distances: for the non-negative
    /// distances of crowding, their order as integers is their order as numbers.
    pub fn remove_most_crowded(&mut self, distance_bits: &[u64]) -> (r: Individual<G, Scores>)
        requires
            distance_bits@.len() == old(self).spec_members().len(),
            distance_bits@.len() > 0,
        ensures
            exists|i: int| {
                &&& is_first_least(distance_bits@, i)
                &&& r == old(self).spec_members()[i]
                &&& final(self).spec_members() == old(self).spec_members().remove(i)
            },
            final(self).spec_objectives() == old(self).spec_objectives(),
            final(self).spec_capacity() == old(self).spec_capacity(),
    {
        let index = most_crowded(distance_bits);
        self.remove(index)
    }

    /// Removes the member at `index`, to make room in a full archive, and returns it.
    pub fn remove(&mut self, index: usize) -> (r: Individual<G, Scores>)
        requires
            index < old(self).spec_members().len(),
        ensures
            r == old(self).spec_members()[index as int],
            final(self).spec_members() == old(self).spec_members().remove(index as int),
            final(self).spec_objectives() == old(self).spec_objectives(),
            final(self).spec_capacity() == old(self).spec_capacity(),
    {
        proof {
            use_type_invariant(&*self);
        }
        let mut members: Vec<Individual<G, Scores>> = Vec::new();
        std::mem::swap(&mut members, &mut self.members);
        let ghost before = members@;
        let removed = members.remove(index);
        proof {
            assert forall|i: int| 0 <= i < members@.len() implies #[trigger] members@[i] == before[if i < index { i } else { i + 1 }] by {}
            assert forall|i: int, j: int| 0 <= i < members@.len() && 0 <= j < members@.len() && i != j
                implies !same_scores(score_of(#[trigger] members@[i]), score_of(#[trigger] members@[j]))
                    && !dominance(score_of(members@[i]), score_of(members@[j]), self.objectives@) by {
                let a = if i < index { i } else { i + 1 };
                let b = if j < index { j } else { j + 1 };
                assert(members@[i] == before[a] && members@[j] == before[b]);
            }
            assert forall|i: int| 0 <= i < members@.len() implies (#[trigger] members@[i]).spec_fitness() is Some
                && fits(score_of(members@[i]), self.objectives@) by {
                let a = if i < index { i } else { i + 1 };
                assert(members@[i] == before[a]);
            }
        }
        self.members = members;
        removed
    }

    /// Offers every individual, in order (see [`insert`](ParetoArchive::insert)). Starting from
    /// an archive that stands for some offered scores, it stands for them and for the scores of
    /// the evaluated individuals: one member per non-dominated objective vector, the first one
    /// offered.
    pub fn extend(&mut self, individuals: Vec<Individual<G, Scores>>)
        requires
            forall|i: int| 0 <= i < individuals@.len() ==> ((#[trigger] individuals@[i]).spec_fitness() matches Some(s)
                ==> fits(s, old(self).spec_objectives())),
        ensures
            final(self).spec_members() == inserted_all(old(self).spec_members(), individuals@, old(self).spec_objectives()),
            final(self).spec_objectives() == old(self).spec_objectives(),
            final(self).spec_capacity() == old(self).spec_capacity(),
            forall|history: Seq<Scores>| #![trigger represents(old(self).spec_members(), history, old(self).spec_objectives())]
                represents(old(self).spec_members(), history, old(self).spec_objectives())
                && (forall|h: int| 0 <= h < history.len() ==> fits(#[trigger] history[h], old(self).spec_objectives()))
                ==> represents(final(self).spec_members(), history + scores_offered(individuals@), old(self).spec_objectives()),
    {
        let ghost start = self.spec_members();
        let ghost objectives = self.spec_objectives();
        let ghost all = individuals@;
        proof {
            assert(all.take(0) =~= Seq::<Individual<G, Scores>>::empty());
            assert forall|history: Seq<Scores>| represents(start, history, objectives)
                implies #[trigger] represents(start, history + scores_offered(all.take(0)), objectives) by {
                assert(history + scores_offered(all.take(0)) =~= history);
            }
        }
        for individual in it: individuals.into_iter()
            invariant
                it.seq() == all,
                objectives == self.spec_objectives(),
                objectives == old(self).spec_objectives(),
                self.spec_capacity() == old(self).spec_capacity(),
                start == old(self).spec_members(),
                forall|i: int| 0 <= i < all.len() ==> ((#[trigger] all[i]).spec_fitness() matches Some(s) ==> fits(s, objectives)),
                self.spec_members() == inserted_all(start, all.take(it.index() as int), objectives),
                forall|history: Seq<Scores>| represents(start, history, objectives)
                    && (forall|h: int| 0 <= h < history.len() ==> fits(#[trigger] history[h], objectives))
                    ==> #[trigger] represents(self.spec_members(), history + scores_offered(all.take(it.index() as int)), objectives),
        {
            let ghost k = it.index() as int;
            let ghost before = self.spec_members();
            proof {
                assert(individual == all[k]);
                assert(all.take(k + 1).drop_last() =~= all.take(k));
                assert(all.take(k + 1).last() == individual);
                use_type_invariant(&*self);
            }
            let _ = self.insert(individual);
            proof {
                assert forall|history: Seq<Scores>| represents(start, history, objectives)
                    && (forall|h: int| 0 <= h < history.len() ==> fits(#[trigger] history[h], objectives))
                    implies #[trigger] represents(self.spec_members(), history + scores_offered(all.take(k + 1)), objectives) by {
                    let past = history + scores_offered(all.take(k));
                    assert(represents(before, past, objectives));
                    if individual.spec_fitness() is Some {
                        lemma_scores_offered_fit(all.take(k), objectives);
                        assert forall|h: int| 0 <= h < past.len() implies fits(#[trigger] past[h], objectives) by {
                            if h >= history.len() {
                                assert(past[h] == scores_offered(all.take(k))[h - history.len()]);
                            }
                        }
                        lemma_insert_represents(before, past, individual, objectives);
                        assert(history + scores_offered(all.take(k + 1)) =~= past.push(score_of(individual)));
                    } else {
                        assert(history + scores_offered(all.take(k + 1)) =~= past);
                    }
                }
            }
        }
        proof {
            assert(all.take(all.len() as int) =~= all);
        }
    }

    /// Adds an evaluated individual unless a member dominates it or has the same scores, and
    /// removes the members it dominates. Returns whether it was added. Individuals that aren't
    /// evaluated are ignored.
    pub fn insert(&mut self, individual: Individual<G, Scores>) -> (r: bool)
        requires
            individual.spec_fitness() matches Some(s) ==> fits(s, old(self).spec_objectives()),
        ensures
            r == (individual.spec_fitness() is Some && admits(old(self).spec_members(), score_of(individual), old(self).spec_objectives())),
            final(self).spec_members() == inserted(old(self).spec_members(), individual, old(self).spec_objectives()),
            final(self).spec_objectives() == old(self).spec_objectives(),
            final(self).spec_capacity() == old(self).spec_capacity(),
    {
        proof {
            use_type_invariant(&*self);
        }
        let scores = match individual.fitness_ref() {
            Some(scores) => scores,
            None => return false,
        };
        let ghost s = score_of(individual);
        let mut i: usize = 0;
        while i < self.members.len()
            invariant
                i <= self.members@.len(),
                *self == *old(self),
                individual.spec_fitness() == Some(s),
                *scores == s,
                fits(s, self.objectives@),
                evaluated_and_fitting(self.members@, self.objectives@),
                forall|j: int| 0 <= j < i ==> !same_scores(score_of(#[trigger] self.members@[j]), s)
                    && !dominance(score_of(self.members@[j]), s, self.objectives@),
            decreases self.members@.len() - i,
        {
            proof {
                assert(self.members@[i as int].spec_fitness() is Some);
            }
            let other = match self.members[i].fitness_ref() {
                Some(other) => other,
                None => return false,
            };
            if other.equals(scores) || dominates(other, scores, &self.objectives) {
                proof {
                    assert(!admits(self.members@, s, self.objectives@)) by {
                        assert(score_of(self.members@[i as int]) == *other);
                    }
                }
                return false;
            }
            i = i + 1;
        }
        let mut members: Vec<Individual<G, Scores>> = Vec::new();
        std::mem::swap(&mut members, &mut self.members);
        let ghost before = members@;
        let ghost objectives = self.objectives@;
        // remove the members the new scores dominate, from the last one back
        let mut i: usize = members.len();
        while i > 0
            invariant
                i <= before.len(),
                members@ == before.take(i as int) + kept(before.skip(i as int), s, objectives),
                individual.spec_fitness() == Some(s),
                *scores == s,
                fits(s, objectives),
                objectives == self.objectives@,
                evaluated_and_fitting(before, objectives),
            decreases i,
        {
            proof {
                assert(members@[i - 1] == before[i - 1]);
                assert(before[i - 1].spec_fitness() is Some);
            }
            let other = match members[i - 1].fitness_ref() {
                Some(other) => other,
                None => return false,
            };
            proof {
                assert(before.skip(i - 1).drop_first() =~= before.skip(i as int));
                assert(before.skip(i - 1)[0] == before[i - 1]);
            }
            if dominates(scores, other, &self.objectives) {
                members.remove(i - 1);
                proof {
                    assert(members@ =~= before.take(i - 1) + kept(before.skip(i - 1), s, objectives));
                }
            } else {
                proof {
                    assert(members@ =~= before.take(i - 1) + kept(before.skip(i - 1), s, objectives));
                }
            }
            i = i - 1;
        }
        proof {
            assert(before.take(0) + kept(before.skip(0), s, objectives) =~= kept(before, s, objectives)) by {
                assert(before.skip(0) =~= before);
            }
            lemma_kept_is_a_selection(before, s, objectives);
            lemma_inserted_is_well_formed(before, individual, objectives);
        }
        members.push(individual);
        self.members = members;
        true
    }
}

// the members kept are members that the scores don't dominate, in their order
proof fn lemma_kept_is_a_selection<G>(members: Seq<Individual<G, Scores>>, s: Scores, objectives: Seq<Objective>)
    ensures
        kept(members, s, objectives).len() <= members.len(),
        forall|k: int| 0 <= k < kept(members, s, objectives).len() ==> exists|i: int| 0 <= i < members.len()
            && #[trigger] kept(members, s, objectives)[k] == members[i] && !dominance(s, score_of(members[i]), objectives),
        forall|i: int| 0 <= i < members.len() && !dominance(s, score_of(#[trigger] members[i]), objectives)
            ==> kept(members, s, objectives).contains(members[i]),
    decreases members.len(),
{
    if members.len() > 0 {
        let rest = members.drop_first();
        lemma_kept_is_a_selection(rest, s, objectives);
        let k = kept(members, s, objectives);
        let kr = kept(rest, s, objectives);
        assert forall|q: int| 0 <= q < k.len() implies exists|i: int| 0 <= i < members.len()
            && #[trigger] k[q] == members[i] && !dominance(s, score_of(members[i]), objectives) by {
            if dominance(s, score_of(members[0]), objectives) {
                let i = choose|i: int| 0 <= i < rest.len() && kr[q] == rest[i] && !dominance(s, score_of(rest[i]), objectives);
                assert(members[i + 1] == rest[i]);
            } else if q == 0 {
                assert(k[0] == members[0]);
            } else {
                assert(k[q] == kr[q - 1]);
                let i = choose|i: int| 0 <= i < rest.len() && kr[q - 1] == rest[i] && !dominance(s, score_of(rest[i]), objectives);
                assert(members[i + 1] == rest[i]);
            }
        }
        assert forall|i: int| 0 <= i < members.len() && !dominance(s, score_of(#[trigger] members[i]), objectives)
            implies k.contains(members[i]) by {
            if i == 0 {
                assert(k[0] == members[0]);
            } else {
                assert(members[i] == rest[i - 1]);
                assert(kr.contains(rest[i - 1]));
                let q = choose|q: int| 0 <= q < kr.len() && kr[q] == rest[i - 1];
                if dominance(s, score_of(members[0]), objectives) {
                    assert(k[q] == kr[q]);
                } else {
                    assert(k[q + 1] == kr[q]);
                }
            }
        }
    }
}

// the members kept pairwise come from distinct members
proof fn lemma_kept_pairs<G>(members: Seq<Individual<G, Scores>>, s: Scores, objectives: Seq<Objective>, p: int, q: int)
    requires
        0 <= p < q < kept(members, s, objectives).len(),
    ensures
        exists|i: int, j: int| 0 <= i < j < members.len() && kept(members, s, objectives)[p] == #[trigger] members[i]
            && kept(members, s, objectives)[q] == #[trigger] members[j],
    decreases members.len(),
{
    let rest = members.drop_first();
    let k = kept(members, s, objectives);
    let kr = kept(rest, s, objectives);
    lemma_kept_is_a_selection(rest, s, objectives);
    if dominance(s, score_of(members[0]), objectives) {
        lemma_kept_pairs(rest, s, objectives, p, q);
        let (i, j) = choose|i: int, j: int| 0 <= i < j < rest.len() && kr[p] == #[trigger] rest[i] && kr[q] == #[trigger] rest[j];
        assert(members[i + 1] == rest[i] && members[j + 1] == rest[j]);
    } else if p == 0 {
        assert(k[q] == kr[q - 1]);
        let j = choose|j: int| 0 <= j < rest.len() && #[trigger] kr[q - 1] == rest[j] && !dominance(s, score_of(rest[j]), objectives);
        assert(members[0] == k[0] && members[j + 1] == rest[j]);
    } else {
        lemma_kept_pairs(rest, s, objectives, p - 1, q - 1);
        let (i, j) = choose|i: int, j: int| 0 <= i < j < rest.len() && kr[p - 1] == #[trigger] rest[i] && kr[q - 1] == #[trigger] rest[j];
        assert(members[i + 1] == rest[i] && members[j + 1] == rest[j]);
    }
}

// inserting an individual keeps the members evaluated, fitting and mutually non-dominated
proof fn lemma_inserted_is_well_formed<G>(members: Seq<Individual<G, Scores>>, individual: Individual<G, Scores>, objectives: Seq<Objective>)
    requires
        evaluated_and_fitting(members, objectives),
        mutually_non_dominated(members, objectives),
        individual.spec_fitness() matches Some(s) ==> fits(s, objectives),
    ensures
        evaluated_and_fitting(inserted(members, individual, objectives), objectives),
        mutually_non_dominated(inserted(members, individual, objectives), objectives),
{
    if individual.spec_fitness() is Some && admits(members, score_of(individual), objectives) {
        let s = score_of(individual);
        let k = kept(members, s, objectives);
        let r = k.push(individual);
        lemma_kept_is_a_selection(members, s, objectives);
        assert forall|q: int| 0 <= q < r.len() implies (#[trigger] r[q]).spec_fitness() is Some
            && fits(score_of(r[q]), objectives) by {
            if q < k.len() {
                let i = choose|i: int| 0 <= i < members.len() && k[q] == members[i] && !dominance(s, score_of(members[i]), objectives);
            }
        }
        assert forall|p: int, q: int| 0 <= p < r.len() && 0 <= q < r.len() && p != q
            implies !same_scores(score_of(#[trigger] r[p]), score_of(#[trigger] r[q]))
                && !dominance(score_of(r[p]), score_of(r[q]), objectives) by {
            if p < k.len() && q < k.len() {
                let (a, b) = if p < q { (p, q) } else { (q, p) };
                lemma_kept_pairs(members, s, objectives, a, b);
                let (i, j) = choose|i: int, j: int| 0 <= i < j < members.len() && k[a] == #[trigger] members[i] && k[b] == #[trigger] members[j];
            } else if p < k.len() {
                let i = choose|i: int| 0 <= i < members.len() && k[p] == members[i] && !dominance(s, score_of(members[i]), objectives);
                assert(r[q] == individual);
            } else {
                let j = choose|j: int| 0 <= j < members.len() && k[q] == members[j] && !dominance(s, score_of(members[j]), objectives);
                assert(r[p] == individual);
            }
        }
    }
}


/// Whether the members stand for the scores offered so far, `history`: each member has the
/// scores of an offered solution and no offered solution dominates it, no two members share
/// their scores or dominate each other, and every offered solution has the scores of a member or
/// is dominated by one.
pub open spec fn represents<G>(members: Seq<Individual<G, Scores>>, history: Seq<Scores>, objectives: Seq<Objective>) -> bool {
    &&& forall|i: int| 0 <= i < members.len() ==> #[trigger] offered(score_of(members[i]), history)
    &&& forall|i: int, h: int| 0 <= i < members.len() && 0 <= h < history.len()
        ==> !dominance(#[trigger] history[h], score_of(#[trigger] members[i]), objectives)
    &&& mutually_non_dominated(members, objectives)
    &&& forall|h: int| 0 <= h < history.len() ==> #[trigger] covered(members, history[h], objectives)
}

/// Whether an offered solution has the scores `s`.
pub open spec fn offered(s: Scores, history: Seq<Scores>) -> bool {
    exists|h: int| 0 <= h < history.len() && same_scores(s, #[trigger] history[h])
}

/// Whether a member has the scores `s` or dominates them.
pub open spec fn covered<G>(members: Seq<Individual<G, Scores>>, s: Scores, objectives: Seq<Objective>) -> bool {
    exists|i: int| 0 <= i < members.len()
        && (same_scores(score_of(#[trigger] members[i]), s) || dominance(score_of(members[i]), s, objectives))
}

// scores that are the same dominate, and are dominated by, the same scores
proof fn lemma_same_scores_dominate_alike(a: Scores, b: Scores, c: Scores, objectives: Seq<Objective>)
    ensures
        same_scores(a, b) ==> dominance(a, c, objectives) == dominance(b, c, objectives),
        same_scores(a, b) ==> dominance(c, a, objectives) == dominance(c, b, objectives),
        same_scores(a, b) ==> same_scores(b, a),
        same_scores(a, b) ==> same_scores(a, c) == same_scores(b, c),
{
}

/// Inserting into an archive keeps it standing for every scored solution offered: the members
/// are exactly one solution per non-dominated objective vector among those offered, the first
/// one offered.
pub proof fn lemma_insert_represents<G>(
    members: Seq<Individual<G, Scores>>,
    history: Seq<Scores>,
    individual: Individual<G, Scores>,
    objectives: Seq<Objective>,
)
    requires
        evaluated_and_fitting(members, objectives),
        forall|h: int| 0 <= h < history.len() ==> fits(#[trigger] history[h], objectives),
        individual.spec_fitness() is Some,
        fits(score_of(individual), objectives),
        represents(members, history, objectives),
    ensures
        represents(inserted(members, individual, objectives), history.push(score_of(individual)), objectives),
{
    let s = score_of(individual);
    let next = history.push(s);
    let n = history.len() as int;
    let after = inserted(members, individual, objectives);
    lemma_inserted_is_well_formed(members, individual, objectives);
    assert forall|h: int| 0 <= h < next.len() implies fits(#[trigger] next[h], objectives) by {
        if h < n {
            assert(next[h] == history[h]);
        }
    }
    if admits(members, s, objectives) {
        let k = kept(members, s, objectives);
        lemma_kept_is_a_selection(members, s, objectives);
        assert(after == k.push(individual));
        // each member comes from the history
        assert forall|q: int| 0 <= q < after.len() implies #[trigger] offered(score_of(after[q]), next) by {
            if q < k.len() {
                let i = choose|i: int| 0 <= i < members.len() && k[q] == members[i] && !dominance(s, score_of(members[i]), objectives);
                assert(offered(score_of(members[i]), history));
                let h = choose|h: int| 0 <= h < history.len() && same_scores(score_of(members[i]), #[trigger] history[h]);
                assert(next[h] == history[h]);
                assert(same_scores(score_of(after[q]), next[h]));
            } else {
                assert(after[q] == individual);
                assert(next[n] == s);
                assert(same_scores(score_of(after[q]), next[n]));
            }
        }
        // nothing offered dominates a member
        assert forall|q: int, h: int| 0 <= q < after.len() && 0 <= h < next.len()
            implies !dominance(#[trigger] next[h], score_of(#[trigger] after[q]), objectives) by {
            if q < k.len() {
                let i = choose|i: int| 0 <= i < members.len() && k[q] == members[i] && !dominance(s, score_of(members[i]), objectives);
                if h < n {
                    assert(next[h] == history[h]);
                }
            } else {
                assert(after[q] == individual);
                if h < n {
                    assert(next[h] == history[h]);
                    assert(covered(members, history[h], objectives));
                    let j = choose|j: int| 0 <= j < members.len()
                        && (same_scores(score_of(#[trigger] members[j]), history[h]) || dominance(score_of(members[j]), history[h], objectives));
                    lemma_same_scores_dominate_alike(score_of(members[j]), history[h], s, objectives);
                    lemma_dominance_is_strict_partial_order(score_of(members[j]), history[h], s, objectives);
                } else {
                    lemma_dominance_is_strict_partial_order(s, s, s, objectives);
                }
            }
        }
        // every offered solution is covered
        assert forall|h: int| 0 <= h < next.len() implies #[trigger] covered(after, next[h], objectives) by {
            if h < n {
                assert(next[h] == history[h]);
                assert(covered(members, history[h], objectives));
                let j = choose|j: int| 0 <= j < members.len()
                    && (same_scores(score_of(#[trigger] members[j]), history[h]) || dominance(score_of(members[j]), history[h], objectives));
                if dominance(s, score_of(members[j]), objectives) {
                    lemma_same_scores_dominate_alike(score_of(members[j]), history[h], s, objectives);
                    lemma_dominance_is_strict_partial_order(s, score_of(members[j]), history[h], objectives);
                    assert(after[k.len() as int] == individual);
                    assert(dominance(score_of(after[k.len() as int]), next[h], objectives));
                } else {
                    assert(k.contains(members[j]));
                    let q = choose|q: int| 0 <= q < k.len() && k[q] == members[j];
                    assert(after[q] == members[j]);
                }
            } else {
                assert(after[k.len() as int] == individual);
                assert(same_scores(score_of(after[k.len() as int]), next[h]));
            }
        }
    } else {
        assert(after == members);
        let j = choose|j: int| 0 <= j < members.len()
            && !(!same_scores(score_of(#[trigger] members[j]), s) && !dominance(score_of(members[j]), s, objectives));
        assert forall|i: int| 0 <= i < members.len() implies #[trigger] offered(score_of(members[i]), next) by {
            assert(offered(score_of(members[i]), history));
            let h = choose|h: int| 0 <= h < history.len() && same_scores(score_of(members[i]), #[trigger] history[h]);
            assert(next[h] == history[h]);
        }
        assert forall|i: int, h: int| 0 <= i < members.len() && 0 <= h < next.len()
            implies !dominance(#[trigger] next[h], score_of(#[trigger] members[i]), objectives) by {
            if h < n {
                assert(next[h] == history[h]);
            } else {
                lemma_same_scores_dominate_alike(score_of(members[j]), s, score_of(members[i]), objectives);
                lemma_dominance_is_strict_partial_order(score_of(members[j]), s, score_of(members[i]), objectives);
                lemma_dominance_is_strict_partial_order(score_of(members[i]), s, score_of(members[i]), objectives);
            }
        }
        assert forall|h: int| 0 <= h < next.len() implies #[trigger] covered(members, next[h], objectives) by {
            if h < n {
                assert(next[h] == history[h]);
            } else {
                assert(same_scores(score_of(members[j]), next[h]) || dominance(score_of(members[j]), next[h], objectives));
            }
        }
    }
}

/// An archive standing for the offered scores holds the scores of every offered solution that
/// no offered solution dominates.
pub proof fn lemma_represents_the_non_dominated<G>(
    members: Seq<Individual<G, Scores>>,
    history: Seq<Scores>,
    objectives: Seq<Objective>,
    h: int,
)
    requires
        represents(members, history, objectives),
        0 <= h < history.len(),
        forall|g: int| 0 <= g < history.len() ==> !dominance(#[trigger] history[g], history[h], objectives),
    ensures
        exists|i: int| 0 <= i < members.len() && same_scores(score_of(#[trigger] members[i]), history[h]),
{
    assert(covered(members, history[h], objectives));
    let i = choose|i: int| 0 <= i < members.len()
        && (same_scores(score_of(#[trigger] members[i]), history[h]) || dominance(score_of(members[i]), history[h], objectives));
    if dominance(score_of(members[i]), history[h], objectives) {
        assert(offered(score_of(members[i]), history));
        let g = choose|g: int| 0 <= g < history.len() && same_scores(score_of(members[i]), #[trigger] history[g]);
        lemma_same_scores_dominate_alike(score_of(members[i]), history[g], history[h], objectives);
    }
}


// the scores of evaluated individuals that fit the objectives fit them
proof fn lemma_scores_offered_fit<G>(individuals: Seq<Individual<G, Scores>>, objectives: Seq<Objective>)
    requires
        forall|i: int| 0 <= i < individuals.len() ==> ((#[trigger] individuals[i]).spec_fitness() matches Some(s) ==> fits(s, objectives)),
    ensures
        forall|h: int| 0 <= h < scores_offered(individuals).len() ==> fits(#[trigger] scores_offered(individuals)[h], objectives),
    decreases individuals.len(),
{
    if individuals.len() > 0 {
        let rest = individuals.drop_last();
        assert forall|i: int| 0 <= i < rest.len() implies ((#[trigger] rest[i]).spec_fitness() matches Some(s) ==> fits(s, objectives)) by {
            assert(rest[i] == individuals[i]);
        }
        lemma_scores_offered_fit(rest, objectives);
        let last = individuals.last();
        assert(last == individuals[individuals.len() - 1]);
        let so = scores_offered(individuals);
        let sr = scores_offered(rest);
        assert forall|h: int| 0 <= h < so.len() implies fits(#[trigger] so[h], objectives) by {
            if last.spec_fitness() is Some {
                assert(so == sr.push(score_of(last)));
                if h < sr.len() {
                    assert(so[h] == sr[h]);
                }
            } else {
                assert(so == sr);
            }
        }
    }
}


/// Whether `i` is the position of the smallest value of `d`, the earliest on ties.
pub open spec fn is_first_least(d: Seq<u64>, i: int) -> bool {
    &&& 0 <= i < d.len()
    &&& forall|j: int| 0 <= j < d.len() ==> d[i] <= #[trigger] d[j]
    &&& forall|j: int| 0 <= j < i ==> d[i] < #[trigger] d[j]
}

/// The position of the smallest value, the earliest on ties ([`is_first_least`]).
pub fn most_crowded(d: &[u64]) -> (i: usize)
    requires
        d@.len() > 0,
    ensures
        is_first_least(d@, i as int),
{
    let mut best: usize = 0;
    let mut j: usize = 1;
    while j < d.len()
        invariant
            1 <= j <= d@.len(),
            is_first_least(d@.take(j as int), best as int),
        decreases d@.len() - j,
    {
        if d[j] < d[best] {
            best = j;
        }
        j = j + 1;
    }
    assert(d@.take(j as int) =~= d@);
    best
}

} // verus!
