//! A population of individuals.

use crate::fitness::{better, lemma_better_is_strict_weak_order, Fitness, Objective};
use crate::genome::{is_permutation, lemma_permutation_covers};
use vstd::prelude::*;

verus! {

/// A solution: its genome, its fitness once evaluated, and its age in generations.
#[derive(Clone, Debug, PartialEq, Eq)]
pub struct Individual<G, F = Fitness> {
    genome: G,
    fitness: Option<F>,
    age: u64,
}

impl<G, F> Individual<G, F> {
    /// The genome.
    pub closed spec fn spec_genome(&self) -> G {
        self.genome
    }

    /// The fitness, `None` until evaluated.
    pub closed spec fn spec_fitness(&self) -> Option<F> {
        self.fitness
    }

    /// The age, in generations survived.
    pub closed spec fn spec_age(&self) -> u64 {
        self.age
    }

    /// A new individual, not evaluated yet, of age 0.
    pub fn new(genome: G) -> (r: Self)
        ensures
            r.spec_genome() == genome,
            r.spec_fitness() is None,
            r.spec_age() == 0,
    {
        Individual { genome, fitness: None, age: 0 }
    }

    /// The genome.
    pub fn genome(&self) -> (r: &G)
        ensures
            *r == self.spec_genome(),
    {
        &self.genome
    }

    /// The fitness, or `None` if not evaluated yet, by reference.
    pub fn fitness_ref(&self) -> (r: &Option<F>)
        ensures
            *r == self.spec_fitness(),
    {
        &self.fitness
    }

    /// Whether the individual is evaluated.
    pub fn is_evaluated(&self) -> (r: bool)
        ensures
            r == self.spec_fitness() is Some,
    {
        self.fitness.is_some()
    }

    /// Sets the fitness.
    pub fn set_fitness(&mut self, fitness: F)
        ensures
            final(self).spec_fitness() == Some(fitness),
            final(self).spec_genome() == old(self).spec_genome(),
            final(self).spec_age() == old(self).spec_age(),
    {
        self.fitness = Some(fitness);
    }

    /// The number of generations the individual survived.
    pub fn age(&self) -> (r: u64)
        ensures
            r == self.spec_age(),
    {
        self.age
    }

    /// One more generation survived (the age stays at its maximum once there).
    pub fn increment_age(&mut self)
        ensures
            final(self).spec_age() == (if old(self).spec_age() < u64::MAX { old(self).spec_age() + 1 } else { u64::MAX as int }),
            final(self).spec_fitness() == old(self).spec_fitness(),
            final(self).spec_genome() == old(self).spec_genome(),
    {
        if self.age < u64::MAX {
            self.age = self.age + 1;
        }
    }
}

impl<G, F: Copy> Individual<G, F> {
    /// The fitness, or `None` if not evaluated yet.
    pub fn fitness(&self) -> (r: Option<F>)
        ensures
            r == self.spec_fitness(),
    {
        self.fitness
    }
}

impl<G, F> Individual<G, F> {
    /// Individuals with the same genome, fitness and age are the same.
    pub proof fn lemma_same(a: Self, b: Self)
        requires
            a.spec_genome() == b.spec_genome(),
            a.spec_fitness() == b.spec_fitness(),
            a.spec_age() == b.spec_age(),
        ensures
            a == b,
    {
    }
}

impl<G: Clone, F: Copy> Individual<G, F> {
    /// A copy of the individual, its genome cloned.
    pub fn duplicate(&self) -> (r: Self)
        ensures
            r.spec_fitness() == self.spec_fitness(),
            r.spec_age() == self.spec_age(),
            cloned::<G>(self.spec_genome(), r.spec_genome()),
    {
        Individual { genome: self.genome.clone(), fitness: self.fitness, age: self.age }
    }
}

/// Whether an individual with fitness `x` comes before one with fitness `y` when sorting best
/// first: evaluated ones before unevaluated ones, better ones first.
pub open spec fn precedes(objective: Objective, x: Option<Fitness>, y: Option<Fitness>) -> bool {
    match (x, y) {
        (Some(a), Some(b)) => better(objective, a, b),
        (Some(_), None) => true,
        _ => false,
    }
}

proof fn lemma_precedes_is_strict_weak_order(objective: Objective, x: Option<Fitness>, y: Option<Fitness>, z: Option<Fitness>)
    ensures
        !precedes(objective, x, x),
        precedes(objective, x, y) ==> !precedes(objective, y, x),
        precedes(objective, x, y) && precedes(objective, y, z) ==> precedes(objective, x, z),
        !precedes(objective, x, y) && !precedes(objective, y, z) ==> !precedes(objective, x, z),
{
    if x is Some && y is Some && z is Some {
        lemma_better_is_strict_weak_order(objective, x->0, y->0, z->0);
    }
    if x is Some && y is Some {
        lemma_better_is_strict_weak_order(objective, x->0, y->0, x->0);
    }
    if x is Some {
        lemma_better_is_strict_weak_order(objective, x->0, x->0, x->0);
    }
    if x is Some && z is Some {
        lemma_better_is_strict_weak_order(objective, x->0, z->0, z->0);
    }
}

/// Whether `perm` is a rearrangement of the positions `0..n`.
pub open spec fn is_rearrangement(perm: Seq<int>, n: int) -> bool {
    &&& perm.len() == n
    &&& forall|i: int| 0 <= i < n ==> 0 <= #[trigger] perm[i] < n
    &&& forall|i: int, j: int| 0 <= i < j < n ==> #[trigger] perm[i] != #[trigger] perm[j]
}

/// A population of individuals.
///
/// "Best" and sorting are deterministic: ties are broken by position, the earlier individual
/// first. Individuals that aren't evaluated yet are never the best, and sort last.
#[derive(Clone, Debug, PartialEq, Eq)]
pub struct Population<G, F = Fitness> {
    individuals: Vec<Individual<G, F>>,
}

impl<G, F: Copy> View for Population<G, F> {
    type V = Seq<Individual<G, F>>;

    closed spec fn view(&self) -> Seq<Individual<G, F>> {
        self.individuals@
    }
}

impl<G, F: Copy> Population<G, F> {
    /// A population of these individuals.
    pub fn new(individuals: Vec<Individual<G, F>>) -> (r: Self)
        ensures
            r@ == individuals@,
    {
        Population { individuals }
    }

    /// An empty population.
    pub fn empty() -> (r: Self)
        ensures
            r@.len() == 0,
    {
        Population { individuals: Vec::new() }
    }

    /// The number of individuals.
    pub fn len(&self) -> (r: usize)
        ensures
            r == self@.len(),
    {
        self.individuals.len()
    }

    /// Whether the population is empty.
    pub fn is_empty(&self) -> (r: bool)
        ensures
            r == (self@.len() == 0),
    {
        self.individuals.len() == 0
    }

    /// The individuals.
    pub fn iter(&self) -> (r: std::slice::Iter<'_, Individual<G, F>>)
        ensures
            vstd::std_specs::slice::into_iter_elts(r) == self@,
    {
        let slice = self.individuals.as_slice();
        let r = slice.iter();
        proof {
            vstd::std_specs::slice::axiom_spec_slice_iter(slice);
            assert(slice@.as_ref().unref() =~= slice@);
        }
        r
    }

    /// The individuals, to change in place: what they are after the borrow is what the
    /// population holds.
    pub fn iter_mut(&mut self) -> (r: &mut [Individual<G, F>])
        ensures
            r@ == old(self)@,
            final(r)@ == final(self)@,
    {
        self.individuals.as_mut_slice()
    }

    /// The individual at `index`.
    pub fn get(&self, index: usize) -> (r: &Individual<G, F>)
        requires
            index < self@.len(),
        ensures
            *r == self@[index as int],
    {
        &self.individuals[index]
    }

    /// Sets the fitness of the individual at `index`.
    pub fn set_fitness(&mut self, index: usize, fitness: F)
        requires
            index < old(self)@.len(),
        ensures
            final(self)@.len() == old(self)@.len(),
            final(self)@[index as int].spec_fitness() == Some(fitness),
            final(self)@[index as int].spec_genome() == old(self)@[index as int].spec_genome(),
            final(self)@[index as int].spec_age() == old(self)@[index as int].spec_age(),
            forall|i: int| 0 <= i < old(self)@.len() && i != index ==> #[trigger] final(self)@[i] == old(self)@[i],
    {
        let mut individual = self.individuals.remove(index);
        individual.set_fitness(fitness);
        self.individuals.insert(index, individual);
        proof {
            assert forall|i: int| 0 <= i < old(self)@.len() && i != index implies #[trigger] self@[i] == old(self)@[i] by {
                if i < index {
                } else {
                }
            }
        }
    }

    /// Adds an individual.
    pub fn push(&mut self, individual: Individual<G, F>)
        ensures
            final(self)@ == old(self)@.push(individual),
    {
        self.individuals.push(individual);
    }

    /// Keeps the first `len` individuals and drops the rest. No effect if there are fewer.
    pub fn truncate(&mut self, len: usize)
        ensures
            final(self)@ == (if len < old(self)@.len() { old(self)@.take(len as int) } else { old(self)@ }),
    {
        self.individuals.truncate(len);
    }

    /// The individuals as a slice.
    pub fn as_slice(&self) -> (r: &[Individual<G, F>])
        ensures
            r@ == self@,
    {
        self.individuals.as_slice()
    }

    /// The individuals, consuming the population.
    pub fn into_vec(self) -> (r: Vec<Individual<G, F>>)
        ensures
            r@ == self@,
    {
        self.individuals
    }
}

/// Whether position `b` holds the best evaluated individual of `s`, the first one on ties.
pub open spec fn is_first_best<G>(objective: Objective, s: Seq<Individual<G>>, b: int) -> bool {
    &&& 0 <= b < s.len()
    &&& s[b].spec_fitness() is Some
    &&& forall|j: int| 0 <= j < s.len() && #[trigger] s[j].spec_fitness() is Some
        ==> !better(objective, s[j].spec_fitness()->0, s[b].spec_fitness()->0)
    &&& forall|j: int| 0 <= j < b && #[trigger] s[j].spec_fitness() is Some
        ==> better(objective, s[b].spec_fitness()->0, s[j].spec_fitness()->0)
}

/// Whether `after` is `before` sorted best first by a stable sort: a rearrangement in which no
/// individual precedes one before it, and ties keep their order.
pub open spec fn is_sorted_best_first<G>(objective: Objective, before: Seq<Individual<G>>, after: Seq<Individual<G>>) -> bool {
    exists|perm: Seq<int>| {
        &&& is_rearrangement(perm, before.len() as int)
        &&& after.len() == before.len()
        &&& forall|k: int| 0 <= k < before.len() ==> #[trigger] after[k] == before[perm[k]]
        &&& forall|i: int, j: int| 0 <= i < j < before.len()
            ==> !precedes(objective, #[trigger] after[j].spec_fitness(), #[trigger] after[i].spec_fitness())
        &&& forall|i: int, j: int| 0 <= i < j < before.len()
            && !precedes(objective, #[trigger] after[i].spec_fitness(), #[trigger] after[j].spec_fitness())
            ==> perm[i] < perm[j]
    }
}

/// Sorting best first puts the best individual first: the same one that
/// [`Population::best_index`] finds, ties included.
pub proof fn lemma_best_sorts_first<G>(objective: Objective, before: Seq<Individual<G>>, after: Seq<Individual<G>>, b: int)
    requires
        before.len() <= usize::MAX,
        is_sorted_best_first(objective, before, after),
        is_first_best(objective, before, b),
    ensures
        after[0] == before[b],
{
    let n = before.len() as int;
    let perm = choose|perm: Seq<int>| {
        &&& is_rearrangement(perm, before.len() as int)
        &&& after.len() == before.len()
        &&& forall|k: int| 0 <= k < before.len() ==> #[trigger] after[k] == before[perm[k]]
        &&& forall|i: int, j: int| 0 <= i < j < before.len()
            ==> !precedes(objective, #[trigger] after[j].spec_fitness(), #[trigger] after[i].spec_fitness())
        &&& forall|i: int, j: int| 0 <= i < j < before.len()
            && !precedes(objective, #[trigger] after[i].spec_fitness(), #[trigger] after[j].spec_fitness())
            ==> perm[i] < perm[j]
    };
    let positions = perm.map_values(|x: int| x as usize);
    assert(is_permutation(positions)) by {
        assert forall|i: int| 0 <= i < positions.len() implies (#[trigger] positions[i] as int) < positions.len() by {
            assert(0 <= perm[i] < n);
        }
        assert forall|i: int, j: int| 0 <= i < j < positions.len() implies #[trigger] positions[i] != #[trigger] positions[j] by {
            assert(perm[i] != perm[j]);
            assert(0 <= perm[i] < n && 0 <= perm[j] < n);
        }
    }
    lemma_permutation_covers(positions, b);
    let p = choose|p: int| 0 <= p < positions.len() && positions[p] == b;
    assert(0 <= perm[p] < n);
    assert(perm[p] == b);
    if p != 0 {
        let x = after[0];
        assert(after[p] == before[b]);
        assert(!precedes(objective, after[p].spec_fitness(), after[0].spec_fitness()));
        assert(x == before[perm[0]]);
        assert(0 <= perm[0] < n);
        if x.spec_fitness() is Some {
            assert(before[perm[0]].spec_fitness() is Some);
            assert(!better(objective, before[perm[0]].spec_fitness()->0, before[b].spec_fitness()->0));
            assert(!precedes(objective, after[0].spec_fitness(), after[p].spec_fitness()));
            assert(perm[0] < perm[p]);
            assert(better(objective, before[b].spec_fitness()->0, before[perm[0]].spec_fitness()->0));
        }
    }
}

impl<G> Population<G> {
    /// A population of new, not yet evaluated individuals with these genomes.
    pub fn from_genomes(genomes: Vec<G>) -> (r: Self)
        ensures
            r@.len() == genomes@.len(),
            forall|i: int| 0 <= i < genomes@.len() ==> #[trigger] r@[i].spec_genome() == genomes@[i]
                && r@[i].spec_fitness() is None && r@[i].spec_age() == 0,
    {
        let mut genomes = genomes;
        let ghost all = genomes@;
        let mut individuals: Vec<Individual<G>> = Vec::new();
        let n = genomes.len();
        let mut k: usize = 0;
        // take the genomes from the back, then put the individuals in order
        while k < n
            invariant
                k <= n,
                n == all.len(),
                genomes@ == all.take(n - k),
                individuals@.len() == k,
                forall|i: int| 0 <= i < k ==> #[trigger] individuals@[i].spec_genome() == all[n - 1 - i]
                    && individuals@[i].spec_fitness() is None && individuals@[i].spec_age() == 0,
            decreases n - k,
        {
            let genome = genomes.pop().unwrap();
            proof {
                assert(genomes@ =~= all.take(n - k - 1));
            }
            individuals.push(Individual::new(genome));
            k = k + 1;
        }
        let ghost stage = individuals@;
        assert forall|i: int| 0 <= i < n implies #[trigger] stage[i].spec_genome() == all[n - 1 - i]
            && stage[i].spec_fitness() is None && stage[i].spec_age() == 0 by {
            assert(individuals@[i].spec_genome() == all[n - 1 - i]);
        }
        let mut ordered: Vec<Individual<G>> = Vec::new();
        let mut k: usize = 0;
        while k < n
            invariant
                k <= n,
                n == all.len(),
                stage.len() == n,
                forall|i: int| 0 <= i < n ==> #[trigger] stage[i].spec_genome() == all[n - 1 - i]
                    && stage[i].spec_fitness() is None && stage[i].spec_age() == 0,
                individuals@ == stage.take(n - k),
                ordered@.len() == k,
                forall|i: int| 0 <= i < k ==> #[trigger] ordered@[i] == stage[n - 1 - i],
            decreases n - k,
        {
            let individual = individuals.pop().unwrap();
            proof {
                assert(individuals@ =~= stage.take(n - k - 1));
            }
            ordered.push(individual);
            k = k + 1;
        }
        proof {
            assert forall|i: int| 0 <= i < n implies #[trigger] ordered@[i].spec_genome() == all[i]
                && ordered@[i].spec_fitness() is None && ordered@[i].spec_age() == 0 by {
                assert(ordered@[i] == stage[n - 1 - i]);
                assert(stage[n - 1 - i].spec_genome() == all[n - 1 - (n - 1 - i)]);
            }
        }
        Population { individuals: ordered }
    }

    /// The position of the best evaluated individual (the first one on ties), or `None` if no
    /// individual is evaluated.
    pub fn best_index(&self, objective: Objective) -> (r: Option<usize>)
        ensures
            r is None <==> forall|i: int| 0 <= i < self@.len() ==> #[trigger] self@[i].spec_fitness() is None,
            r matches Some(b) ==> is_first_best(objective, self@, b as int),
    {
        let n = self.individuals.len();
        let mut best: Option<usize> = None;
        let mut best_fitness: Fitness = Fitness::invalid();
        let mut index: usize = 0;
        while index < n
            invariant
                n == self@.len(),
                index <= n,
                best is None <==> forall|i: int| 0 <= i < index ==> #[trigger] self@[i].spec_fitness() is None,
                best matches Some(b) ==> {
                    &&& b < index
                    &&& self@[b as int].spec_fitness() == Some(best_fitness)
                    &&& forall|j: int| 0 <= j < index && #[trigger] self@[j].spec_fitness() is Some
                        ==> !better(objective, self@[j].spec_fitness()->0, best_fitness)
                    &&& forall|j: int| 0 <= j < b && #[trigger] self@[j].spec_fitness() is Some
                        ==> better(objective, best_fitness, self@[j].spec_fitness()->0)
                },
            decreases n - index,
        {
            match self.individuals[index].fitness() {
                None => {}
                Some(fitness) => {
                    let is_better = match best {
                        Some(_) => objective.is_better(fitness, best_fitness),
                        None => true,
                    };
                    if is_better {
                        proof {
                            if best is Some {
                                let b = best->0;
                                assert forall|j: int| 0 <= j < index + 1 && #[trigger] self@[j].spec_fitness() is Some
                                    implies !better(objective, self@[j].spec_fitness()->0, fitness) by {
                                    if j < index {
                                        lemma_better_is_strict_weak_order(objective, self@[j].spec_fitness()->0, best_fitness, fitness);
                                        lemma_better_is_strict_weak_order(objective, fitness, best_fitness, self@[j].spec_fitness()->0);
                                    } else {
                                        lemma_better_is_strict_weak_order(objective, fitness, fitness, fitness);
                                    }
                                }
                                assert forall|j: int| 0 <= j < index && #[trigger] self@[j].spec_fitness() is Some
                                    implies better(objective, fitness, self@[j].spec_fitness()->0) by {
                                    lemma_better_is_strict_weak_order(objective, fitness, best_fitness, self@[j].spec_fitness()->0);
                                    lemma_better_is_strict_weak_order(objective, self@[j].spec_fitness()->0, fitness, best_fitness);
                                }
                            } else {
                                assert forall|j: int| 0 <= j < index + 1 && #[trigger] self@[j].spec_fitness() is Some
                                    implies !better(objective, self@[j].spec_fitness()->0, fitness) by {
                                    lemma_better_is_strict_weak_order(objective, fitness, fitness, fitness);
                                }
                            }
                        }
                        best = Some(index);
                        best_fitness = fitness;
                    } else {
                        proof {
                            let b = best->0;
                            assert(best is Some);
                            lemma_better_is_strict_weak_order(objective, fitness, best_fitness, fitness);
                        }
                    }
                }
            }
            index = index + 1;
        }
        best
    }

    /// The best evaluated individual (the first one on ties), or `None` if no individual is
    /// evaluated. Invalid individuals are only the best if every evaluated individual is invalid.
    pub fn best(&self, objective: Objective) -> (r: Option<&Individual<G>>)
        ensures
            r is None <==> forall|i: int| 0 <= i < self@.len() ==> #[trigger] self@[i].spec_fitness() is None,
            r matches Some(best) ==> exists|b: int| is_first_best(objective, self@, b) && self@[b] == *best,
    {
        match self.best_index(objective) {
            Some(index) => Some(&self.individuals[index]),
            None => None,
        }
    }

    /// Sorts best first. The sort is stable: ties keep their order. Individuals that aren't
    /// evaluated yet go last.
    pub fn sort_best_first(&mut self, objective: Objective)
        ensures
            is_sorted_best_first(objective, old(self)@, final(self)@),
    {
        let mut v: Vec<Individual<G>> = Vec::new();
        std::mem::swap(&mut v, &mut self.individuals);
        let ghost initial = v@;
        let n = v.len();
        let ghost mut perm: Seq<int> = Seq::new(n as nat, |i: int| i);
        let mut i: usize = 1;
        if n == 0 {
            self.individuals = v;
            proof {
                let empty = Seq::<int>::empty();
                assert(is_rearrangement(empty, 0));
                assert(forall|k: int| 0 <= k < old(self)@.len() ==> #[trigger] self@[k] == old(self)@[empty[k]]);
            }
            return;
        }
        while i < n
            invariant
                1 <= i <= n,
                n == initial.len(),
                v@.len() == n,
                is_rearrangement(perm, n as int),
                forall|k: int| 0 <= k < n ==> #[trigger] v@[k] == initial[perm[k]],
                forall|k: int| i <= k < n ==> #[trigger] perm[k] == k,
                forall|k: int| 0 <= k < i ==> #[trigger] perm[k] < i,
                forall|a: int, b: int| 0 <= a < b < i
                    ==> !precedes(objective, #[trigger] v@[b].spec_fitness(), #[trigger] v@[a].spec_fitness()),
                forall|a: int, b: int| 0 <= a < b < i
                    && !precedes(objective, #[trigger] v@[a].spec_fitness(), #[trigger] v@[b].spec_fitness())
                    ==> perm[a] < perm[b],
            decreases n - i,
        {
            let ghost before = v@;
            let ghost before_perm = perm;
            let x = v.remove(i);
            let xf = x.fitness();
            let mut k = i;
            while k > 0 && precedes_exec(objective, xf, v[k - 1].fitness())
                invariant
                    0 <= k <= i,
                    i < n,
                    before.len() == n,
                    v@ == before.remove(i as int),
                    xf == before[i as int].spec_fitness(),
                    forall|j: int| k <= j < i ==> precedes(objective, xf, #[trigger] v@[j].spec_fitness()),
                decreases k,
            {
                k = k - 1;
            }
            v.insert(k, x);
            proof {
                let removed = before.remove(i as int);
                perm = before_perm.remove(i as int).insert(k as int, before_perm[i as int]);
                assert(before_perm[i as int] == i);
                // positions of the new sequence in terms of the old one
                assert forall|j: int| 0 <= j < n implies #[trigger] v@[j] == before[
                    if j < k { j } else if j == k { i as int } else if j <= i { j - 1 } else { j }
                ] && perm[j] == before_perm[if j < k { j } else if j == k { i as int } else if j <= i { j - 1 } else { j }] by {
                }
                assert(is_rearrangement(perm, n as int)) by {
                    assert forall|a: int, b: int| 0 <= a < b < n implies #[trigger] perm[a] != #[trigger] perm[b] by {
                        let sa = if a < k { a } else if a == k { i as int } else if a <= i { a - 1 } else { a };
                        let sb = if b < k { b } else if b == k { i as int } else if b <= i { b - 1 } else { b };
                        assert(perm[a] == before_perm[sa]);
                        assert(perm[b] == before_perm[sb]);
                        assert(sa != sb);
                        if sa < sb {} else {}
                    }
                }
                assert forall|j: int| 0 <= j < n implies #[trigger] v@[j] == initial[perm[j]] by {
                    let sj = if j < k { j } else if j == k { i as int } else if j <= i { j - 1 } else { j };
                    assert(v@[j] == before[sj]);
                    assert(perm[j] == before_perm[sj]);
                }
                // the element just placed is not preceded by those before it
                if k > 0 {
                    assert(!precedes(objective, xf, removed[k - 1].spec_fitness()));
                }
                assert forall|a: int, b: int| 0 <= a < b < i + 1
                    implies !precedes(objective, #[trigger] v@[b].spec_fitness(), #[trigger] v@[a].spec_fitness()) by {
                    let sa = if a < k { a } else if a == k { i as int } else { a - 1 };
                    let sb = if b < k { b } else if b == k { i as int } else { b - 1 };
                    if a != k && b != k {
                        assert(sa < sb);
                    } else if a == k {
                        assert(precedes(objective, xf, v@[b].spec_fitness()));
                        lemma_precedes_is_strict_weak_order(objective, xf, v@[b].spec_fitness(), xf);
                    } else {
                        // b == k, a < k
                        assert(!precedes(objective, xf, before[k - 1].spec_fitness()));
                        if a < k - 1 {
                            assert(!precedes(objective, before[k - 1].spec_fitness(), before[a].spec_fitness()));
                        }
                        lemma_precedes_is_strict_weak_order(objective, xf, before[k - 1].spec_fitness(), before[a].spec_fitness());
                    }
                }
                assert forall|a: int, b: int| 0 <= a < b < i + 1
                    && !precedes(objective, #[trigger] v@[a].spec_fitness(), #[trigger] v@[b].spec_fitness())
                    implies perm[a] < perm[b] by {
                    let sa = if a < k { a } else if a == k { i as int } else { a - 1 };
                    let sb = if b < k { b } else if b == k { i as int } else { b - 1 };
                    if a != k && b != k {
                        assert(sa < sb);
                    } else if a == k {
                        assert(precedes(objective, xf, v@[b].spec_fitness()));
                    } else {
                        assert(perm[a] == before_perm[sa]);
                        assert(before_perm[sa] < i);
                    }
                }
                assert forall|j: int| 0 <= j < i + 1 implies #[trigger] perm[j] < i + 1 by {
                    let sj = if j < k { j } else if j == k { i as int } else { j - 1 };
                    assert(perm[j] == before_perm[sj]);
                }
                assert forall|j: int| i + 1 <= j < n implies #[trigger] perm[j] == j by {
                    assert(perm[j] == before_perm[j]);
                }
            }
            i = i + 1;
        }
        self.individuals = v;
        proof {
            assert(old(self)@ == initial);
            assert(forall|k: int| 0 <= k < old(self)@.len() ==> #[trigger] self@[k] == old(self)@[perm[k]]);
        }
    }
}

/// Whether fitness `x` comes before fitness `y`: [`precedes`].
fn precedes_exec(objective: Objective, x: Option<Fitness>, y: Option<Fitness>) -> (r: bool)
    ensures
        r == precedes(objective, x, y),
{
    match (x, y) {
        (Some(a), Some(b)) => objective.is_better(a, b),
        (Some(_), None) => true,
        _ => false,
    }
}

} // verus!
