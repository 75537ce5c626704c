//! The best distinct solutions of a run.

use super::{Observer, Snapshot};
use crate::error::{reason, Error, Result};
use crate::fitness::{better, lemma_better_is_strict_weak_order, Fitness, Objective};
use crate::population::Individual;
use vstd::prelude::*;
use vstd::std_specs::cmp::PartialEqSpec;

verus! {

/// The fitness of an individual of the hall of fame, all of which are evaluated.
pub open spec fn fitness_in<G>(individual: Individual<G>) -> Fitness {
    individual.spec_fitness()->0
}

/// Whether the individuals are sorted best first: none is better than one before it.
pub open spec fn is_best_first<G>(objective: Objective, s: Seq<Individual<G>>) -> bool {
    forall|i: int, j: int| 0 <= i < j < s.len() ==> !better(objective, fitness_in(#[trigger] s[j]), fitness_in(#[trigger] s[i]))
}

/// Whether `pos` is where a fitness `f` goes in the best-first `s`: before the first individual
/// it is better than, after those it isn't better than.
pub open spec fn is_insert_position<G>(objective: Objective, s: Seq<Individual<G>>, f: Fitness, pos: int) -> bool {
    &&& 0 <= pos <= s.len()
    &&& forall|j: int| 0 <= j < pos ==> !better(objective, f, fitness_in(#[trigger] s[j]))
    &&& pos < s.len() ==> better(objective, f, fitness_in(s[pos]))
}

/// Where an individual of fitness `f` goes in the best-first `s`: before the first individual it
/// is better than, at the end if there is none.
pub open spec fn insert_position<G>(objective: Objective, s: Seq<Individual<G>>, f: Fitness) -> int
    decreases s.len(),
{
    if s.len() == 0 {
        0
    } else if better(objective, f, fitness_in(s[0])) {
        0
    } else {
        1 + insert_position(objective, s.drop_first(), f)
    }
}

/// `s` with `candidate` inserted where its fitness goes.
pub open spec fn with_individual<G>(objective: Objective, s: Seq<Individual<G>>, candidate: Individual<G>) -> Seq<Individual<G>> {
    s.insert(insert_position(objective, s, fitness_in(candidate)), candidate)
}

/// Whether an individual of `s` has this genome.
pub open spec fn has_genome<G>(s: Seq<Individual<G>>, genome: G) -> bool {
    exists|i: int| 0 <= i < s.len() && (#[trigger] s[i]).spec_genome() == genome
}

/// The first `n` of `s`, or all of them if there are fewer.
pub open spec fn take_at_most<A>(s: Seq<A>, n: int) -> Seq<A> {
    if s.len() > n { s.take(n) } else { s }
}

/// The individuals of a hall of fame of `capacity` after `candidate` is offered to `hall`: the
/// candidate enters, where its fitness goes, if it's evaluated, better than the worst of a full
/// hall of fame and its genome is new; the individuals beyond the capacity leave.
pub open spec fn offer_step<G>(objective: Objective, capacity: int, hall: Seq<Individual<G>>, candidate: Individual<G>) -> Seq<Individual<G>> {
    if candidate.spec_fitness() is None {
        hall
    } else if hall.len() == capacity && !better(objective, fitness_in(candidate), fitness_in(hall.last())) {
        hall
    } else if has_genome(hall, candidate.spec_genome()) {
        hall
    } else {
        take_at_most(with_individual(objective, hall, candidate), capacity)
    }
}

/// The individuals of an empty hall of fame of `capacity` after `offers` are offered in turn.
pub open spec fn offer_all<G>(objective: Objective, capacity: int, offers: Seq<Individual<G>>) -> Seq<Individual<G>>
    decreases offers.len(),
{
    if offers.len() == 0 {
        Seq::empty()
    } else {
        offer_step(objective, capacity, offer_all(objective, capacity, offers.drop_last()), offers.last())
    }
}

/// The individuals of a hall of fame of `capacity` holding `hall` after `offers` are offered in
/// turn.
pub open spec fn offered_in_turn<G>(objective: Objective, capacity: int, hall: Seq<Individual<G>>, offers: Seq<Individual<G>>) -> Seq<Individual<G>>
    decreases offers.len(),
{
    if offers.len() == 0 {
        hall
    } else {
        offer_step(objective, capacity, offered_in_turn(objective, capacity, hall, offers.drop_last()), offers.last())
    }
}

/// Whether the genomes' `==` is equality and their clone a copy.
pub open spec fn plain_genomes<G: PartialEq + Clone>() -> bool {
    &&& G::obeys_eq_spec()
    &&& forall|x: G, y: G| #[trigger] x.eq_spec(&y) <==> x == y
    &&& forall|x: G, y: G| #[trigger] cloned::<G>(x, y) ==> x == y
}

/// The first of `offers` with each genome, sorted best first by a stable sort (an insertion sort
/// that puts an individual after those it isn't better than).
pub open spec fn sorted_distinct<G>(objective: Objective, offers: Seq<Individual<G>>) -> Seq<Individual<G>>
    decreases offers.len(),
{
    if offers.len() == 0 {
        Seq::empty()
    } else {
        let sorted = sorted_distinct(objective, offers.drop_last());
        if has_genome(sorted, offers.last().spec_genome()) {
            sorted
        } else {
            with_individual(objective, sorted, offers.last())
        }
    }
}

proof fn lemma_insert_position<G>(objective: Objective, s: Seq<Individual<G>>, f: Fitness)
    ensures
        is_insert_position(objective, s, f, insert_position(objective, s, f)),
    decreases s.len(),
{
    if s.len() > 0 && !better(objective, f, fitness_in(s[0])) {
        let rest = s.drop_first();
        lemma_insert_position(objective, rest, f);
        let p = insert_position(objective, s, f);
        assert forall|j: int| 0 <= j < p implies !better(objective, f, fitness_in(#[trigger] s[j])) by {
            if j > 0 {
                assert(s[j] == rest[j - 1]);
            }
        }
        if p < s.len() {
            assert(s[p] == rest[p - 1]);
        }
    }
}

/// The insert position is the only position that is one.
proof fn lemma_insert_position_unique<G>(objective: Objective, s: Seq<Individual<G>>, f: Fitness, q: int)
    requires
        is_insert_position(objective, s, f, q),
    ensures
        q == insert_position(objective, s, f),
{
    lemma_insert_position(objective, s, f);
    let p = insert_position(objective, s, f);
    if q < p {
        assert(!better(objective, f, fitness_in(s[q])));
    } else if p < q {
        assert(!better(objective, f, fitness_in(s[p])));
    }
}

/// Inserting an evaluated individual where its fitness goes keeps a best-first sequence of
/// evaluated individuals best first.
proof fn lemma_insert_keeps_best_first<G>(objective: Objective, s: Seq<Individual<G>>, candidate: Individual<G>)
    requires
        is_best_first(objective, s),
    ensures
        is_best_first(objective, with_individual(objective, s, candidate)),
{
    let f = fitness_in(candidate);
    let pos = insert_position(objective, s, f);
    lemma_insert_position(objective, s, f);
    let inserted = s.insert(pos, candidate);
    assert forall|a: int, b: int| 0 <= a < b < inserted.len()
        implies !better(objective, fitness_in(#[trigger] inserted[b]), fitness_in(#[trigger] inserted[a])) by {
        let sa = if a < pos { a } else if a == pos { -1 } else { a - 1 };
        let sb = if b < pos { b } else if b == pos { -1 } else { b - 1 };
        if a != pos && b != pos {
            assert(inserted[a] == s[sa]);
            assert(inserted[b] == s[sb]);
        } else if a == pos {
            // the new one goes before those it's better than or equal to
            assert(inserted[b] == s[sb]);
            assert(better(objective, f, fitness_in(s[pos])));
            if sb > pos {
                assert(!better(objective, fitness_in(s[sb]), fitness_in(s[pos])));
            }
            lemma_better_is_strict_weak_order(objective, fitness_in(s[sb]), f, fitness_in(s[pos]));
            lemma_better_is_strict_weak_order(objective, f, fitness_in(s[pos]), f);
        } else {
            assert(inserted[a] == s[sa]);
            assert(!better(objective, f, fitness_in(s[sa])));
        }
    }
}

/// Where an individual goes in the first `k` of a sequence: where it goes in the whole sequence,
/// or at the end of the first `k`.
proof fn lemma_insert_position_take<G>(objective: Objective, s: Seq<Individual<G>>, f: Fitness, k: int)
    requires
        0 <= k <= s.len(),
    ensures
        insert_position(objective, s.take(k), f) == (if insert_position(objective, s, f) < k { insert_position(objective, s, f) } else { k }),
{
    lemma_insert_position(objective, s, f);
    let p = insert_position(objective, s, f);
    let q = if p < k { p } else { k };
    let t = s.take(k);
    assert forall|j: int| 0 <= j < q implies !better(objective, f, fitness_in(#[trigger] t[j])) by {
        assert(t[j] == s[j]);
    }
    if q < k {
        assert(t[q] == s[q]);
    }
    lemma_insert_position_unique(objective, t, f, q);
}

/// What offering individuals in turn keeps, for the law below: the sorted distinct offers are
/// best first, evaluated, each one of the offers, and hold the genome of every offer.
proof fn lemma_sorted_distinct<G>(objective: Objective, offers: Seq<Individual<G>>)
    requires
        forall|i: int| 0 <= i < offers.len() ==> (#[trigger] offers[i]).spec_fitness() is Some,
    ensures
        is_best_first(objective, sorted_distinct(objective, offers)),
        forall|k: int| 0 <= k < sorted_distinct(objective, offers).len()
            ==> exists|i: int| 0 <= i < offers.len() && #[trigger] sorted_distinct(objective, offers)[k] == offers[i],
        forall|i: int| 0 <= i < offers.len() ==> has_genome(sorted_distinct(objective, offers), #[trigger] offers[i].spec_genome()),
    decreases offers.len(),
{
    if offers.len() > 0 {
        let rest = offers.drop_last();
        let c = offers.last();
        let sorted = sorted_distinct(objective, rest);
        assert forall|i: int| 0 <= i < rest.len() implies (#[trigger] rest[i]).spec_fitness() is Some by {
            assert(rest[i] == offers[i]);
        }
        lemma_sorted_distinct(objective, rest);
        let result = sorted_distinct(objective, offers);
        if has_genome(sorted, c.spec_genome()) {
            assert forall|k: int| 0 <= k < result.len()
                implies exists|i: int| 0 <= i < offers.len() && #[trigger] result[k] == offers[i] by {
                let i = choose|i: int| 0 <= i < rest.len() && sorted[k] == rest[i];
                assert(offers[i] == rest[i]);
            }
            assert forall|i: int| 0 <= i < offers.len() implies has_genome(result, #[trigger] offers[i].spec_genome()) by {
                if i < rest.len() {
                    assert(offers[i] == rest[i]);
                }
            }
        } else {
            lemma_insert_keeps_best_first(objective, sorted, c);
            let pos = insert_position(objective, sorted, fitness_in(c));
            lemma_insert_position(objective, sorted, fitness_in(c));
            assert(result == sorted.insert(pos, c));
            assert forall|k: int| 0 <= k < result.len()
                implies exists|i: int| 0 <= i < offers.len() && #[trigger] result[k] == offers[i] by {
                if k == pos {
                    assert(result[k] == offers[offers.len() - 1]);
                } else {
                    let sk = if k < pos { k } else { k - 1 };
                    assert(result[k] == sorted[sk]);
                    let i = choose|i: int| 0 <= i < rest.len() && sorted[sk] == rest[i];
                    assert(offers[i] == rest[i]);
                }
            }
            assert forall|i: int| 0 <= i < offers.len() implies has_genome(result, #[trigger] offers[i].spec_genome()) by {
                if i < rest.len() {
                    assert(offers[i] == rest[i]);
                    assert(has_genome(sorted, rest[i].spec_genome()));
                    let j = choose|j: int| 0 <= j < sorted.len() && (#[trigger] sorted[j]).spec_genome() == rest[i].spec_genome();
                    if j < pos {
                        assert(result[j] == sorted[j]);
                    } else {
                        assert(result[j + 1] == sorted[j]);
                    }
                } else {
                    assert(result[pos] == c);
                }
            }
        }
    }
}

// offering an individual whose genome the sorted offers hold leaves the hall of fame as it is
proof fn lemma_offer_seen<G>(objective: Objective, capacity: int, sorted: Seq<Individual<G>>, hall: Seq<Individual<G>>, c: Individual<G>)
    requires
        capacity >= 1,
        is_best_first(objective, sorted),
        hall == take_at_most(sorted, capacity),
        c.spec_fitness() is Some,
        has_genome(sorted, c.spec_genome()),
        forall|q: int| 0 <= q < sorted.len() && (#[trigger] sorted[q]).spec_genome() == c.spec_genome()
            ==> sorted[q].spec_fitness() == c.spec_fitness(),
    ensures
        offer_step(objective, capacity, hall, c) == hall,
{
    let f = fitness_in(c);
    let q = choose|q: int| 0 <= q < sorted.len() && (#[trigger] sorted[q]).spec_genome() == c.spec_genome();
    if !has_genome(hall, c.spec_genome()) {
        if q < capacity {
            assert(hall[q] == sorted[q]);
        }
        assert(hall.len() == capacity);
        assert(hall.last() == sorted[capacity - 1]);
        if q > capacity - 1 {
            assert(!better(objective, fitness_in(sorted[q]), fitness_in(sorted[capacity - 1])));
        }
        lemma_better_is_strict_weak_order(objective, f, f, f);
    }
}

// offering an individual with a new genome: the hall of fame is the first of the sorted offers
// with it
proof fn lemma_offer_new<G>(objective: Objective, capacity: int, sorted: Seq<Individual<G>>, hall: Seq<Individual<G>>, c: Individual<G>)
    requires
        capacity >= 1,
        is_best_first(objective, sorted),
        hall == take_at_most(sorted, capacity),
        c.spec_fitness() is Some,
        !has_genome(sorted, c.spec_genome()),
    ensures
        offer_step(objective, capacity, hall, c) == take_at_most(with_individual(objective, sorted, c), capacity),
{
    let f = fitness_in(c);
    let pos = insert_position(objective, sorted, f);
    lemma_insert_position(objective, sorted, f);
    let result = sorted.insert(pos, c);
    assert(with_individual(objective, sorted, c) == result);
    // the hall of fame is the first of the sorted offers, so it lacks the genome too
    assert(!has_genome(hall, c.spec_genome())) by {
        if has_genome(hall, c.spec_genome()) {
            let j = choose|j: int| 0 <= j < hall.len() && (#[trigger] hall[j]).spec_genome() == c.spec_genome();
            assert(hall[j] == sorted[j]);
        }
    }
    if hall.len() == capacity && !better(objective, f, fitness_in(hall.last())) {
        // it goes after the hall of fame's last
        assert(hall.last() == sorted[capacity - 1]);
        assert(pos >= capacity) by {
            if pos < capacity {
                assert(better(objective, f, fitness_in(sorted[pos])));
                if pos < capacity - 1 {
                    assert(!better(objective, fitness_in(sorted[capacity - 1]), fitness_in(sorted[pos])));
                }
                lemma_better_is_strict_weak_order(objective, f, fitness_in(sorted[capacity - 1]), fitness_in(sorted[pos]));
            }
        }
        assert(take_at_most(result, capacity) =~= hall);
    } else {
        lemma_insert_position_take(objective, sorted, f, hall.len() as int);
        assert(hall =~= sorted.take(hall.len() as int));
        if hall.len() < capacity {
            assert(hall =~= sorted);
        } else {
            assert(hall[capacity - 1] == sorted[capacity - 1]);
            assert(better(objective, f, fitness_in(sorted[capacity - 1])));
            assert(pos < capacity);
            assert(with_individual(objective, hall, c) == hall.insert(pos, c));
            assert(take_at_most(hall.insert(pos, c), capacity) =~= take_at_most(result, capacity));
        }
    }
}

/// A hall of fame of `capacity` that is offered evaluated individuals in turn, whose fitness
/// depends only on their genome, holds the first of them with each genome, sorted best first by
/// a stable sort, as many as fit.
pub proof fn lemma_hall_of_fame_is_the_best_distinct<G>(objective: Objective, capacity: int, offers: Seq<Individual<G>>)
    requires
        capacity >= 1,
        forall|i: int| 0 <= i < offers.len() ==> (#[trigger] offers[i]).spec_fitness() is Some,
        forall|i: int, j: int| 0 <= i < offers.len() && 0 <= j < offers.len()
            && (#[trigger] offers[i]).spec_genome() == (#[trigger] offers[j]).spec_genome()
            ==> offers[i].spec_fitness() == offers[j].spec_fitness(),
    ensures
        offer_all(objective, capacity, offers) == take_at_most(sorted_distinct(objective, offers), capacity),
        is_best_first(objective, sorted_distinct(objective, offers)),
    decreases offers.len(),
{
    lemma_sorted_distinct(objective, offers);
    if offers.len() > 0 {
        let rest = offers.drop_last();
        let c = offers.last();
        let n = rest.len() as int;
        assert(c == offers[n]);
        assert forall|i: int| 0 <= i < rest.len() implies (#[trigger] rest[i]).spec_fitness() is Some by {
            assert(rest[i] == offers[i]);
        }
        assert forall|i: int, j: int| 0 <= i < rest.len() && 0 <= j < rest.len()
            && (#[trigger] rest[i]).spec_genome() == (#[trigger] rest[j]).spec_genome()
            implies rest[i].spec_fitness() == rest[j].spec_fitness() by {
            assert(rest[i] == offers[i]);
            assert(rest[j] == offers[j]);
        }
        lemma_hall_of_fame_is_the_best_distinct(objective, capacity, rest);
        lemma_sorted_distinct(objective, rest);
        let sorted = sorted_distinct(objective, rest);
        let hall = offer_all(objective, capacity, rest);
        assert(offer_all(objective, capacity, offers) == offer_step(objective, capacity, hall, c));
        if has_genome(sorted, c.spec_genome()) {
            assert forall|q: int| 0 <= q < sorted.len() && (#[trigger] sorted[q]).spec_genome() == c.spec_genome()
                implies sorted[q].spec_fitness() == c.spec_fitness() by {
                let i = choose|i: int| 0 <= i < rest.len() && sorted[q] == rest[i];
                assert(rest[i] == offers[i]);
            }
            lemma_offer_seen(objective, capacity, sorted, hall, c);
        } else {
            lemma_offer_new(objective, capacity, sorted, hall, c);
        }
    }
}

/// The best `capacity` individuals with distinct genomes seen during a run, best first.
///
/// After every generation, it's offered the population and the individuals evaluated but not
/// kept, so it sees every evaluated individual. On ties, the individual seen first comes first.
#[derive(Debug, PartialEq, Eq)]
pub struct HallOfFame<G> {
    capacity: usize,
    individuals: Vec<Individual<G>>,
}

impl<G> HallOfFame<G> {
    /// A hall of fame has room for at least one individual, holds no more than its capacity,
    /// and only evaluated individuals.
    #[verifier::type_invariant]
    closed spec fn is_valid(self) -> bool {
        &&& self.capacity >= 1
        &&& self.individuals@.len() <= self.capacity
        &&& forall|i: int| 0 <= i < self.individuals@.len() ==> #[trigger] self.individuals@[i].spec_fitness() is Some
    }

    /// The maximum number of individuals.
    pub closed spec fn spec_capacity(&self) -> usize {
        self.capacity
    }

    /// The individuals, best first.
    pub closed spec fn spec_individuals(&self) -> Seq<Individual<G>> {
        self.individuals@
    }

    /// An empty hall of fame for up to `capacity` individuals, at least 1.
    ///
    /// # Errors
    ///
    /// [`Error::InvalidSetting`] for a capacity of 0.
    pub fn new(capacity: usize) -> (r: Result<Self>)
        ensures
            r is Ok <==> capacity >= 1,
            r matches Ok(h) ==> h.spec_capacity() == capacity && h.spec_individuals().len() == 0,
            r matches Err(e) ==> e.is_invalid_setting("hall_of_fame_capacity"),
    {
        if capacity == 0 {
            return Err(Error::InvalidSetting { setting: "hall_of_fame_capacity", reason: reason("must be at least 1") });
        }
        // no memory reserved ahead: the capacity can be huge
        Ok(HallOfFame { capacity, individuals: Vec::new() })
    }

    /// The maximum number of individuals.
    pub fn capacity(&self) -> (r: usize)
        ensures
            r == self.spec_capacity(),
    {
        self.capacity
    }

    /// The individuals, best first.
    pub fn individuals(&self) -> (r: &[Individual<G>])
        ensures
            r@ == self.spec_individuals(),
            r@.len() <= self.spec_capacity(),
            forall|i: int| 0 <= i < r@.len() ==> #[trigger] r@[i].spec_fitness() is Some,
    {
        proof {
            use_type_invariant(self);
        }
        self.individuals.as_slice()
    }

    /// The best individual, `None` while empty.
    pub fn best(&self) -> (r: Option<&Individual<G>>)
        ensures
            r is None <==> self.spec_individuals().len() == 0,
            r matches Some(best) ==> *best == self.spec_individuals()[0],
    {
        if self.individuals.len() == 0 {
            None
        } else {
            Some(&self.individuals[0])
        }
    }
}

impl<G: Clone + PartialEq> HallOfFame<G> {
    /// Offers an individual: it enters if it's evaluated, its genome is new and it's better than
    /// the worst individual (or there's room). It goes before the first individual it's better
    /// than, and the hall of fame keeps at most its capacity.
    pub fn offer(&mut self, candidate: &Individual<G>, objective: Objective)
        ensures
            final(self).spec_capacity() == old(self).spec_capacity(),
            // kept out: not evaluated, or not better than the worst of a full hall of fame
            candidate.spec_fitness() is None ==> final(self).spec_individuals() == old(self).spec_individuals(),
            candidate.spec_fitness() is Some && old(self).spec_individuals().len() == old(self).spec_capacity()
                && !better(objective, candidate.spec_fitness()->0, fitness_in(old(self).spec_individuals().last()))
                ==> final(self).spec_individuals() == old(self).spec_individuals(),
            // kept out: a genome already there
            G::obeys_eq_spec() && (exists|i: int| 0 <= i < old(self).spec_individuals().len()
                && (#[trigger] old(self).spec_individuals()[i]).spec_genome().eq_spec(&candidate.spec_genome()))
                ==> final(self).spec_individuals() == old(self).spec_individuals(),
            // otherwise in at its place
            final(self).spec_individuals() == old(self).spec_individuals()
            || (candidate.spec_fitness() is Some && exists|pos: int, entered: Individual<G>| {
                &&& is_insert_position(objective, old(self).spec_individuals(), candidate.spec_fitness()->0, pos)
                &&& entered.spec_fitness() == candidate.spec_fitness()
                &&& entered.spec_age() == candidate.spec_age()
                &&& cloned::<G>(candidate.spec_genome(), entered.spec_genome())
                &&& (G::obeys_eq_spec() ==> forall|i: int| 0 <= i < old(self).spec_individuals().len()
                    ==> !(#[trigger] old(self).spec_individuals()[i]).spec_genome().eq_spec(&candidate.spec_genome()))
                &&& final(self).spec_individuals() == {
                    let inserted = old(self).spec_individuals().insert(pos, entered);
                    if inserted.len() > old(self).spec_capacity() { inserted.take(old(self).spec_capacity() as int) } else { inserted }
                }
            }),
            // best first stays best first
            is_best_first(objective, old(self).spec_individuals()) ==> is_best_first(objective, final(self).spec_individuals()),
            // for genomes whose `==` is equality and whose clone is a copy: one step of the hall
            // of fame
            G::obeys_eq_spec() && (forall|x: G, y: G| #[trigger] x.eq_spec(&y) <==> x == y)
                && (forall|x: G, y: G| #[trigger] cloned::<G>(x, y) ==> x == y)
                ==> final(self).spec_individuals() == offer_step(objective, old(self).spec_capacity() as int, old(self).spec_individuals(), *candidate),
    {
        proof {
            use_type_invariant(&*self);
        }
        let fitness = match candidate.fitness() {
            None => return,
            Some(fitness) => fitness,
        };
        let len = self.individuals.len();
        if len == self.capacity && len > 0 {
            let worst = self.individuals[len - 1].fitness().unwrap();
            if !objective.is_better(fitness, worst) {
                return;
            }
        }
        let mut i: usize = 0;
        while i < len
            invariant
                len == self.individuals@.len(),
                i <= len,
                G::obeys_eq_spec() ==> forall|j: int| 0 <= j < i
                    ==> !(#[trigger] self.individuals@[j]).spec_genome().eq_spec(&candidate.spec_genome()),
            decreases len - i,
        {
            if self.individuals[i].genome() == candidate.genome() {
                proof {
                    if G::obeys_eq_spec() && (forall|x: G, y: G| #[trigger] x.eq_spec(&y) <==> x == y) {
                        assert(self.individuals@[i as int].spec_genome().eq_spec(&candidate.spec_genome()));
                        assert(has_genome(self.individuals@, candidate.spec_genome()));
                    }
                }
                return;
            }
            i = i + 1;
        }
        let mut position: usize = 0;
        while position < len && !objective.is_better(fitness, self.individuals[position].fitness().unwrap())
            invariant
                len == self.individuals@.len(),
                position <= len,
                forall|j: int| 0 <= j < len ==> #[trigger] self.individuals@[j].spec_fitness() is Some,
                forall|j: int| 0 <= j < position ==> !better(objective, fitness, fitness_in(#[trigger] self.individuals@[j])),
            decreases len - position,
        {
            position = position + 1;
        }
        let entered = candidate.duplicate();
        let ghost before = self.individuals@;
        let mut list: Vec<Individual<G>> = Vec::new();
        std::mem::swap(&mut list, &mut self.individuals);
        list.insert(position, entered);
        if list.len() > self.capacity {
            list.truncate(self.capacity);
        }
        proof {
            assert(is_insert_position(objective, before, fitness, position as int));
            lemma_insert_position_unique(objective, before, fitness, position as int);
            assert(fitness_in(entered) == fitness);
            let inserted = before.insert(position as int, entered);
            assert(inserted == with_individual(objective, before, entered));
            assert(list@ == take_at_most(inserted, self.capacity as int));
            if is_best_first(objective, before) {
                lemma_insert_keeps_best_first(objective, before, entered);
                assert forall|a: int, b: int| 0 <= a < b < list@.len()
                    implies !better(objective, fitness_in(#[trigger] list@[b]), fitness_in(#[trigger] list@[a])) by {
                    assert(list@[a] == inserted[a]);
                    assert(list@[b] == inserted[b]);
                }
            }
            assert forall|j: int| 0 <= j < list@.len() implies #[trigger] list@[j].spec_fitness() is Some by {
                assert(list@[j] == inserted[j]);
                if j != position {
                    let sj = if j < position { j } else { j - 1 };
                    assert(inserted[j] == before[sj]);
                }
            }
            if G::obeys_eq_spec() && (forall|x: G, y: G| #[trigger] x.eq_spec(&y) <==> x == y)
                && (forall|x: G, y: G| #[trigger] cloned::<G>(x, y) ==> x == y) {
                assert(cloned::<G>(candidate.spec_genome(), entered.spec_genome()));
                Individual::lemma_same(entered, *candidate);
                assert(!has_genome(before, candidate.spec_genome())) by {
                    if has_genome(before, candidate.spec_genome()) {
                        let j = choose|j: int| 0 <= j < before.len() && (#[trigger] before[j]).spec_genome() == candidate.spec_genome();
                        assert(before[j].spec_genome().eq_spec(&candidate.spec_genome()));
                    }
                }
            }
        }
        self.individuals = list;
    }
}

impl<G: Clone> Clone for HallOfFame<G> {
    /// A copy with the same capacity and the same individuals in the same order, their genomes
    /// cloned.
    fn clone(&self) -> (r: Self)
        ensures
            r.spec_capacity() == self.spec_capacity(),
            r.spec_individuals().len() == self.spec_individuals().len(),
            forall|i: int| 0 <= i < self.spec_individuals().len() ==> {
                &&& (#[trigger] r.spec_individuals()[i]).spec_fitness() == self.spec_individuals()[i].spec_fitness()
                &&& r.spec_individuals()[i].spec_age() == self.spec_individuals()[i].spec_age()
                &&& cloned::<G>(self.spec_individuals()[i].spec_genome(), r.spec_individuals()[i].spec_genome())
            },
    {
        proof {
            use_type_invariant(self);
        }
        let mut individuals: Vec<Individual<G>> = Vec::new();
        let n = self.individuals.len();
        let mut i: usize = 0;
        while i < n
            invariant
                n == self.individuals@.len(),
                n <= self.capacity,
                i <= n,
                individuals@.len() == i,
                forall|j: int| 0 <= j < n ==> #[trigger] self.individuals@[j].spec_fitness() is Some,
                forall|j: int| 0 <= j < i ==> {
                    &&& (#[trigger] individuals@[j]).spec_fitness() == self.individuals@[j].spec_fitness()
                    &&& individuals@[j].spec_age() == self.individuals@[j].spec_age()
                    &&& cloned::<G>(self.individuals@[j].spec_genome(), individuals@[j].spec_genome())
                },
            decreases n - i,
        {
            individuals.push(self.individuals[i].duplicate());
            i = i + 1;
        }
        HallOfFame { capacity: self.capacity, individuals }
    }
}

impl<G: Clone + PartialEq> Observer<G> for HallOfFame<G> {
    /// Offers the population, then the discarded individuals, in their order.
    fn observe(&mut self, snapshot: &Snapshot<'_, G>)
        ensures
            final(self).spec_capacity() == old(self).spec_capacity(),
            is_best_first(snapshot.spec_progress().objective, old(self).spec_individuals())
                ==> is_best_first(snapshot.spec_progress().objective, final(self).spec_individuals()),
            plain_genomes::<G>() ==> final(self).spec_individuals() == offered_in_turn(
                snapshot.spec_progress().objective,
                old(self).spec_capacity() as int,
                old(self).spec_individuals(),
                snapshot.spec_population()@ + snapshot.spec_discarded(),
            ),
    {
        let objective = snapshot.progress().objective();
        let population = snapshot.population();
        let ghost start = self.spec_individuals();
        let ghost capacity = self.spec_capacity() as int;
        let ghost all = population@ + snapshot.spec_discarded();
        let n = population.len();
        let mut i: usize = 0;
        while i < n
            invariant
                i <= n,
                n == population@.len(),
                *population == snapshot.spec_population(),
                objective == snapshot.spec_progress().objective,
                all == population@ + snapshot.spec_discarded(),
                self.spec_capacity() == capacity,
                is_best_first(objective, start) ==> is_best_first(objective, self.spec_individuals()),
                plain_genomes::<G>() ==> self.spec_individuals() == offered_in_turn(objective, capacity, start, all.take(i as int)),
            decreases n - i,
        {
            proof {
                assert(all.take(i + 1).drop_last() =~= all.take(i as int));
                assert(all.take(i + 1).last() == population@[i as int]);
            }
            self.offer(population.get(i), objective);
            i = i + 1;
        }
        let discarded = snapshot.discarded();
        let mut i: usize = 0;
        while i < discarded.len()
            invariant
                i <= discarded@.len(),
                n == population@.len(),
                discarded@ == snapshot.spec_discarded(),
                all == population@ + snapshot.spec_discarded(),
                self.spec_capacity() == capacity,
                is_best_first(objective, start) ==> is_best_first(objective, self.spec_individuals()),
                plain_genomes::<G>() ==> self.spec_individuals() == offered_in_turn(objective, capacity, start, all.take(n + i)),
            decreases discarded@.len() - i,
        {
            proof {
                assert(all.take(n + i + 1).drop_last() =~= all.take(n + i));
                assert(all.take(n + i + 1).last() == discarded@[i as int]);
            }
            self.offer(&discarded[i], objective);
            i = i + 1;
        }
        proof {
            assert(all.take(n + i) =~= all);
        }
    }
}


/// The best of a hall of fame of `capacity` that is offered evaluated individuals in turn, whose
/// fitness depends only on their genome, is the best individual offered: one of them, and none
/// offered is better. It is empty only when nothing was offered.
pub proof fn lemma_hall_of_fame_holds_the_best<G>(objective: Objective, capacity: int, offers: Seq<Individual<G>>)
    requires
        capacity >= 1,
        forall|i: int| 0 <= i < offers.len() ==> (#[trigger] offers[i]).spec_fitness() is Some,
        forall|i: int, j: int| 0 <= i < offers.len() && 0 <= j < offers.len()
            && (#[trigger] offers[i]).spec_genome() == (#[trigger] offers[j]).spec_genome()
            ==> offers[i].spec_fitness() == offers[j].spec_fitness(),
    ensures
        (offer_all(objective, capacity, offers).len() == 0) == (offers.len() == 0),
        offers.len() > 0 ==> exists|i: int| 0 <= i < offers.len() && offer_all(objective, capacity, offers)[0] == offers[i],
        offers.len() > 0 ==> forall|j: int| 0 <= j < offers.len()
            ==> !better(objective, fitness_in(#[trigger] offers[j]), fitness_in(offer_all(objective, capacity, offers)[0])),
{
    lemma_hall_of_fame_is_the_best_distinct(objective, capacity, offers);
    lemma_sorted_distinct(objective, offers);
    let sorted = sorted_distinct(objective, offers);
    let hall = offer_all(objective, capacity, offers);
    if offers.len() > 0 {
        assert(has_genome(sorted, offers[0].spec_genome()));
        assert(sorted.len() > 0);
        assert(hall[0] == sorted[0]);
        assert forall|j: int| 0 <= j < offers.len()
            implies !better(objective, fitness_in(#[trigger] offers[j]), fitness_in(hall[0])) by {
            assert(has_genome(sorted, offers[j].spec_genome()));
            let k = choose|k: int| 0 <= k < sorted.len() && (#[trigger] sorted[k]).spec_genome() == offers[j].spec_genome();
            let i = choose|i: int| 0 <= i < offers.len() && #[trigger] sorted[k] == offers[i];
            assert(offers[i].spec_genome() == offers[j].spec_genome());
            lemma_better_is_strict_weak_order(objective, fitness_in(sorted[0]), fitness_in(sorted[0]), fitness_in(sorted[0]));
        }
    } else {
        assert(sorted.len() == 0);
    }
}


/// Offering in turn to an empty hall of fame is [`offer_all`]: what [`HallOfFame::observe`]
/// gives a new hall of fame is what the laws on `offer_all` speak of.
pub proof fn lemma_offered_in_turn_from_empty<G>(objective: Objective, capacity: int, offers: Seq<Individual<G>>)
    ensures
        offered_in_turn(objective, capacity, Seq::empty(), offers) == offer_all(objective, capacity, offers),
    decreases offers.len(),
{
    if offers.len() > 0 {
        lemma_offered_in_turn_from_empty(objective, capacity, offers.drop_last());
    }
}

} // verus!
