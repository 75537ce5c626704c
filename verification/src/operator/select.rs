//! Parent selection.

use super::MAX_SIZE;
use crate::error::{reason_between, Error, Result};
use crate::fitness::{better, lemma_better_is_strict_weak_order, Fitness, Objective};
use crate::genome::is_permutation;
use crate::population::{Individual, Population};
use crate::rng::{draws_below, RngState, StreamRng};
use vstd::prelude::*;

verus! {

/// The fitness that selection sees for an individual: its fitness, or invalid if it isn't
/// evaluated.
pub open spec fn fitness_seen<G>(individual: Individual<G>) -> Fitness {
    match individual.spec_fitness() {
        Some(f) => f,
        None => Fitness::spec_invalid(),
    }
}

/// The fitness of the individual at `index`, invalid if it isn't evaluated.
pub fn fitness_of<G>(population: &Population<G>, index: usize) -> (f: Fitness)
    requires
        index < population@.len(),
    ensures
        f == fitness_seen(population@[index as int]),
{
    match population.get(index).fitness() {
        Some(f) => f,
        None => Fitness::invalid(),
    }
}

/// Whether `winner` is the first of the best of the `draws` from the population `s`: no draw is
/// better, and the draws before its first occurrence are worse.
pub open spec fn is_tournament_winner<G>(objective: Objective, s: Seq<Individual<G>>, draws: Seq<usize>, winner: usize) -> bool {
    exists|w: int| 0 <= w < draws.len() && draws[w] == winner && {
        &&& forall|j: int| 0 <= j < draws.len() ==> !better(objective, fitness_seen(s[#[trigger] draws[j] as int]), fitness_seen(s[winner as int]))
        &&& forall|j: int| 0 <= j < w ==> better(objective, fitness_seen(s[winner as int]), fitness_seen(s[#[trigger] draws[j] as int]))
    }
}

/// The state of a generator, from state `state`, after `k` tournaments of `size` draws below `n`.
pub open spec fn after_tournaments(state: RngState, n: usize, size: nat, k: nat) -> RngState
    decreases k,
{
    if k == 0 {
        state
    } else {
        draws_below(after_tournaments(state, n, size, (k - 1) as nat), n, size).1
    }
}

/// The draws of tournament `k` (from 0) of `size` draws below `n`, from a generator in state
/// `state`.
pub open spec fn tournament_draws(state: RngState, n: usize, size: nat, k: nat) -> Seq<usize> {
    draws_below(after_tournaments(state, n, size, k), n, size).0
}

/// Whether fitness `x` goes ahead of `y` in an order by fitness: when it's better, best first,
/// or when it's worse, worst first.
pub open spec fn ahead(objective: Objective, best_first: bool, x: Fitness, y: Fitness) -> bool {
    if best_first { better(objective, x, y) } else { better(objective, y, x) }
}

/// Whether neither fitness is better than the other.
pub open spec fn tied(objective: Objective, x: Fitness, y: Fitness) -> bool {
    !better(objective, x, y) && !better(objective, y, x)
}

/// Whether `order` holds the positions of `s` sorted by the fitness that selection sees, best or
/// worst first, by a stable sort: ties keep the order of their positions.
pub open spec fn is_fitness_order<G>(objective: Objective, best_first: bool, s: Seq<Individual<G>>, order: Seq<usize>) -> bool {
    &&& order.len() == s.len()
    &&& is_permutation(order)
    &&& forall|i: int, j: int| 0 <= i < j < order.len()
        ==> !ahead(objective, best_first, fitness_seen(s[#[trigger] order[j] as int]), fitness_seen(s[#[trigger] order[i] as int]))
    &&& forall|i: int, j: int| 0 <= i < j < order.len()
        && !ahead(objective, best_first, fitness_seen(s[#[trigger] order[i] as int]), fitness_seen(s[#[trigger] order[j] as int]))
        ==> order[i] < order[j]
}

proof fn lemma_ahead_is_strict_weak_order(objective: Objective, best_first: bool, x: Fitness, y: Fitness, z: Fitness)
    ensures
        !ahead(objective, best_first, x, x),
        ahead(objective, best_first, x, y) ==> !ahead(objective, best_first, y, x),
        ahead(objective, best_first, x, y) && ahead(objective, best_first, y, z) ==> ahead(objective, best_first, x, z),
        !ahead(objective, best_first, x, y) && !ahead(objective, best_first, y, z) ==> !ahead(objective, best_first, x, z),
{
    lemma_better_is_strict_weak_order(objective, x, y, z);
    lemma_better_is_strict_weak_order(objective, z, y, x);
    lemma_better_is_strict_weak_order(objective, x, x, x);
    lemma_better_is_strict_weak_order(objective, y, x, y);
}

/// The positions of the population sorted by fitness, best first or worst first, by a stable
/// sort: unevaluated individuals count as invalid.
pub fn fitness_order<G>(population: &Population<G>, objective: Objective, best_first: bool) -> (order: Vec<usize>)
    ensures
        is_fitness_order(objective, best_first, population@, order@),
{
    let n = population.len();
    let mut order: Vec<usize> = Vec::new();
    let mut i: usize = 0;
    while i < n
        invariant
            n == population@.len(),
            i <= n,
            order@.len() == i,
            forall|a: int| 0 <= a < i ==> (#[trigger] order@[a] as int) < i,
            is_fitness_order(objective, best_first, population@.take(i as int), order@),
        decreases n - i,
    {
        let ghost s = population@;
        let ghost before = order@;
        let fitness = fitness_of(population, i);
        let mut k: usize = i;
        while k > 0 && ahead_exec(objective, best_first, fitness, fitness_of(population, order[k - 1]))
            invariant
                n == s.len(),
                s == population@,
                i < n,
                order@ == before,
                before.len() == i,
                k <= i,
                forall|a: int| 0 <= a < i ==> (#[trigger] before[a] as int) < i,
                fitness == fitness_seen(s[i as int]),
                forall|j: int| k <= j < i ==> ahead(objective, best_first, fitness, fitness_seen(s[#[trigger] before[j] as int])),
            decreases k,
        {
            k = k - 1;
        }
        order.insert(k, i);
        proof {
            let after = order@;
            let prefix = s.take(i as int);
            let grown = s.take(i + 1);
            assert(after == before.insert(k as int, i));
            assert forall|a: int| 0 <= a < i + 1 implies #[trigger] after[a] == (if a < k { before[a] } else if a == k { i } else { before[a - 1] }) by {}
            assert forall|a: int| 0 <= a < i + 1 implies (#[trigger] after[a] as int) < i + 1 by {}
            assert forall|a: int| 0 <= a < i implies fitness_seen(#[trigger] prefix[before[a] as int]) == fitness_seen(s[before[a] as int]) by {}
            assert forall|a: int| 0 <= a < i + 1 implies fitness_seen(grown[#[trigger] after[a] as int]) == fitness_seen(s[after[a] as int]) by {}
            // a permutation of 0..=i
            assert forall|a: int, b: int| 0 <= a < b < after.len() implies #[trigger] after[a] != #[trigger] after[b] by {
                if a != k as int && b != k as int {
                    let sa = if a < k { a } else { a - 1 };
                    let sb = if b < k { b } else { b - 1 };
                    assert(before[sa] != before[sb]);
                }
            }
            if k > 0 {
                assert(!ahead(objective, best_first, fitness, fitness_seen(s[before[k - 1] as int])));
            }
            // sorted
            assert forall|a: int, b: int| 0 <= a < b < after.len()
                implies !ahead(objective, best_first, fitness_seen(grown[#[trigger] after[b] as int]), fitness_seen(grown[#[trigger] after[a] as int])) by {
                let sa = if a < k { a } else if a == k { -1 } else { a - 1 };
                let sb = if b < k { b } else if b == k { -1 } else { b - 1 };
                if a != k as int && b != k as int {
                    assert(!ahead(objective, best_first, fitness_seen(prefix[before[sb] as int]), fitness_seen(prefix[before[sa] as int])));
                } else if a == k as int {
                    assert(ahead(objective, best_first, fitness, fitness_seen(s[before[sb] as int])));
                    lemma_ahead_is_strict_weak_order(objective, best_first, fitness, fitness_seen(s[before[sb] as int]), fitness);
                } else {
                    // b == k, a < k
                    if sa < k - 1 {
                        assert(!ahead(objective, best_first, fitness_seen(prefix[before[k - 1] as int]), fitness_seen(prefix[before[sa] as int])));
                    }
                    lemma_ahead_is_strict_weak_order(objective, best_first, fitness, fitness_seen(s[before[k - 1] as int]), fitness_seen(s[before[sa] as int]));
                }
            }
            // stable
            assert forall|a: int, b: int| 0 <= a < b < after.len()
                && !ahead(objective, best_first, fitness_seen(grown[#[trigger] after[a] as int]), fitness_seen(grown[#[trigger] after[b] as int]))
                implies after[a] < after[b] by {
                let sa = if a < k { a } else if a == k { -1 } else { a - 1 };
                let sb = if b < k { b } else if b == k { -1 } else { b - 1 };
                if a != k as int && b != k as int {
                    assert(!ahead(objective, best_first, fitness_seen(prefix[before[sa] as int]), fitness_seen(prefix[before[sb] as int])));
                } else if a == k as int {
                    assert(ahead(objective, best_first, fitness, fitness_seen(s[before[sb] as int])));
                }
            }
        }
        i = i + 1;
    }
    proof {
        assert(population@.take(n as int) =~= population@);
    }
    order
}

/// Whether `x` goes ahead of `y`: [`ahead`].
fn ahead_exec(objective: Objective, best_first: bool, x: Fitness, y: Fitness) -> (r: bool)
    ensures
        r == ahead(objective, best_first, x, y),
{
    if best_first { objective.is_better(x, y) } else { objective.is_better(y, x) }
}

/// Selects `count` parents uniformly at random, with replacement, from the best `top` of the
/// population (the core of truncation selection): their positions. Ties among the best keep
/// their order, and unevaluated individuals count as invalid. Returns no parents for an empty
/// population.
pub fn select_from_best<G>(population: &Population<G>, objective: Objective, top: usize, count: usize, rng: &mut StreamRng) -> (r: Vec<usize>)
    requires
        population@.len() == 0 || 1 <= top <= population@.len(),
    ensures
        population@.len() == 0 ==> r@.len() == 0 && final(rng)@ == old(rng)@,
        population@.len() > 0 ==> r@.len() == count,
        population@.len() > 0 ==> final(rng)@ == draws_below(old(rng)@, top, count as nat).1,
        exists|order: Seq<usize>| {
            &&& is_fitness_order(objective, true, population@, order)
            &&& forall|k: int| 0 <= k < r@.len() ==> #[trigger] order.take(top as int).contains(r@[k])
            &&& population@.len() > 0 ==> forall|k: int| 0 <= k < r@.len() ==>
                #[trigger] r@[k] == order[draws_below(old(rng)@, top, count as nat).0[k] as int]
        },
{
    if population.len() == 0 {
        let r: Vec<usize> = Vec::new();
        proof {
            let order = Seq::<usize>::empty();
            assert(is_fitness_order(objective, true, population@, order));
            assert(forall|k: int| 0 <= k < r@.len() ==> #[trigger] order.take(top as int).contains(r@[k]));
        }
        return r;
    }
    let ghost start = rng@;
    let mut draws: Vec<usize> = Vec::new();
    while draws.len() < count
        invariant
            1 <= top <= population@.len(),
            draws@.len() <= count,
            forall|j: int| 0 <= j < draws@.len() ==> #[trigger] draws@[j] < top,
            (draws@, rng@) == draws_below(start, top, draws@.len()),
        decreases count - draws@.len(),
    {
        draws.push(rng.below(top));
    }
    let r = picks_in_fitness_order(population, objective, draws.as_slice());
    proof {
        let order = choose|order: Seq<usize>| is_fitness_order(objective, true, population@, order)
            && forall|k: int| 0 <= k < r@.len() ==> #[trigger] r@[k] == order[draws@[k] as int];
        assert forall|k: int| 0 <= k < r@.len() implies #[trigger] order.take(top as int).contains(r@[k]) by {
            assert(order.take(top as int)[draws@[k] as int] == r@[k]);
        }
    }
    r
}

/// The individuals at positions `draws` of the population sorted best first (a stable sort,
/// unevaluated individuals counting as invalid): their positions in the population.
pub fn picks_in_fitness_order<G>(population: &Population<G>, objective: Objective, draws: &[usize]) -> (r: Vec<usize>)
    requires
        forall|j: int| 0 <= j < draws@.len() ==> (#[trigger] draws@[j] as int) < population@.len(),
    ensures
        r@.len() == draws@.len(),
        exists|order: Seq<usize>| is_fitness_order(objective, true, population@, order)
            && forall|k: int| 0 <= k < r@.len() ==> #[trigger] r@[k] == order[draws@[k] as int],
{
    let order = fitness_order(population, objective, true);
    let mut r: Vec<usize> = Vec::new();
    let mut k: usize = 0;
    while k < draws.len()
        invariant
            is_fitness_order(objective, true, population@, order@),
            forall|j: int| 0 <= j < draws@.len() ==> (#[trigger] draws@[j] as int) < population@.len(),
            k <= draws@.len(),
            r@.len() == k,
            forall|i: int| 0 <= i < k ==> #[trigger] r@[i] == order@[draws@[i] as int],
        decreases draws@.len() - k,
    {
        proof {
            assert(order@.len() == population@.len());
        }
        r.push(order[draws[k]]);
        k = k + 1;
    }
    r
}

/// Whether `start..end` is the run of positions of `order` whose individuals are tied with the
/// one at position `k`: the ties of a fitness order are contiguous.
pub open spec fn is_tie_run<G>(objective: Objective, s: Seq<Individual<G>>, order: Seq<usize>, k: int, start: int, end: int) -> bool {
    &&& 0 <= start <= k < end <= order.len()
    &&& forall|t: int| start <= t < end ==> tied(objective, fitness_seen(s[#[trigger] order[t] as int]), fitness_seen(s[order[k] as int]))
    &&& start > 0 ==> !tied(objective, fitness_seen(s[order[start - 1] as int]), fitness_seen(s[order[k] as int]))
    &&& end < order.len() ==> !tied(objective, fitness_seen(s[order[end] as int]), fitness_seen(s[order[k] as int]))
}

/// Whether `ranks` holds, for the individual at each position `k` of `order`, the first and the
/// last position of the run of its ties added up, the runs being `starts[k]..ends[k]`.
pub open spec fn ranks_from_runs<G>(
    objective: Objective,
    s: Seq<Individual<G>>,
    order: Seq<usize>,
    ranks: Seq<usize>,
    starts: Seq<int>,
    ends: Seq<int>,
) -> bool {
    forall|k: int| #![trigger order[k]] 0 <= k < order.len() ==> {
        &&& is_tie_run(objective, s, order, k, starts[k], ends[k])
        &&& ranks[order[k] as int] == starts[k] + ends[k] - 1
    }
}

/// Whether `ranks` holds, for the individual at each position `k` of `order`, the first and the
/// last position of the run of its ties added up.
pub open spec fn has_rank_runs<G>(objective: Objective, s: Seq<Individual<G>>, order: Seq<usize>, ranks: Seq<usize>) -> bool {
    exists|starts: Seq<int>, ends: Seq<int>| #[trigger] ranks_from_runs(objective, s, order, ranks, starts, ends)
}

/// Twice the rank of each individual, the worst ranked 0, tied individuals sharing the average of
/// their ranks (the ranks of linear rank selection): for the individual at position `k` of the
/// worst-first order, the first and the last position of its ties added up. Unevaluated
/// individuals count as invalid.
pub fn doubled_ranks<G>(population: &Population<G>, objective: Objective) -> (ranks: Vec<usize>)
    requires
        population@.len() <= usize::MAX / 2,
    ensures
        ranks@.len() == population@.len(),
        exists|order: Seq<usize>| is_fitness_order(objective, false, population@, order)
            && #[trigger] has_rank_runs(objective, population@, order, ranks@),
{
    let n = population.len();
    let order = fitness_order(population, objective, false);
    let ghost s = population@;
    let mut ranks: Vec<usize> = Vec::new();
    while ranks.len() < n
        invariant
            ranks@.len() <= n,
        decreases n - ranks@.len(),
    {
        ranks.push(0);
    }
    // the run of ties of each position done so far
    let ghost mut starts: Seq<int> = Seq::new(n as nat, |k: int| 0);
    let ghost mut ends: Seq<int> = Seq::new(n as nat, |k: int| 0);
    let mut start: usize = 0;
    while start < n
        invariant
            n == s.len(),
            s == population@,
            n <= usize::MAX / 2,
            start <= n,
            ranks@.len() == n,
            order@.len() == n,
            starts.len() == n,
            ends.len() == n,
            is_fitness_order(objective, false, s, order@),
            0 < start < n ==> !tied(objective, fitness_seen(s[order@[start - 1] as int]), fitness_seen(s[order@[start as int] as int])),
            forall|k: int| 0 <= k < start ==> #[trigger] ends[k] <= start,
            forall|k: int| 0 <= k < start ==> #[trigger] is_tie_run(objective, s, order@, k, starts[k], ends[k]),
            forall|k: int| 0 <= k < start ==> #[trigger] ranks@[order@[k] as int] == starts[k] + ends[k] - 1,
        decreases n - start,
    {
        let fitness = fitness_of(population, order[start]);
        let mut end: usize = start + 1;
        proof {
            lemma_better_is_strict_weak_order(objective, fitness, fitness, fitness);
        }
        while end < n && !objective.is_better(fitness_of(population, order[end]), fitness)
            && !objective.is_better(fitness, fitness_of(population, order[end]))
            invariant
                n == s.len(),
                s == population@,
                order@.len() == n,
                is_permutation(order@),
                start < end <= n,
                fitness == fitness_seen(s[order@[start as int] as int]),
                forall|t: int| start <= t < end ==> tied(objective, fitness_seen(s[#[trigger] order@[t] as int]), fitness),
            decreases n - end,
        {
            end = end + 1;
        }
        let rank = start + end - 1;
        let ghost before = ranks@;
        let mut t: usize = start;
        while t < end
            invariant
                start <= t <= end <= n,
                ranks@.len() == n,
                is_permutation(order@),
                order@.len() == n,
                forall|u: int| start <= u < t ==> #[trigger] ranks@[order@[u] as int] == rank,
                forall|x: int| 0 <= x < n && (forall|u: int| start <= u < t ==> #[trigger] order@[u] != x)
                    ==> #[trigger] ranks@[x] == before[x],
            decreases end - t,
        {
            let ghost prior = ranks@;
            ranks.set(order[t], rank);
            proof {
                assert forall|u: int| start <= u < t + 1 implies #[trigger] ranks@[order@[u] as int] == rank by {
                    if u < t {
                        assert(order@[u] != order@[t as int]);
                    }
                }
                assert forall|x: int| 0 <= x < n && (forall|u: int| start <= u < t + 1 ==> #[trigger] order@[u] != x)
                    implies #[trigger] ranks@[x] == before[x] by {
                    assert(order@[t as int] != x);
                    assert(prior[x] == before[x]);
                }
            }
            t = t + 1;
        }
        proof {
            let f = |x: usize| fitness_seen(s[x as int]);
            let old_starts = starts;
            let old_ends = ends;
            starts = Seq::new(n as nat, |k: int| if start <= k < end { start as int } else { old_starts[k] });
            ends = Seq::new(n as nat, |k: int| if start <= k < end { end as int } else { old_ends[k] });
            // the run start..end is the ties of each of its positions
            assert forall|k: int| start <= k < end implies is_tie_run(objective, s, order@, k, start as int, end as int) by {
                assert(tied(objective, f(order@[k]), fitness));
                assert forall|t: int| start <= t < end implies tied(objective, fitness_seen(s[#[trigger] order@[t] as int]), fitness_seen(s[order@[k] as int])) by {
                    assert(tied(objective, f(order@[t]), fitness));
                    lemma_better_is_strict_weak_order(objective, f(order@[t]), fitness, f(order@[k]));
                    lemma_better_is_strict_weak_order(objective, f(order@[k]), fitness, f(order@[t]));
                }
                if start > 0 {
                    lemma_better_is_strict_weak_order(objective, f(order@[start - 1]), fitness, f(order@[k]));
                    lemma_better_is_strict_weak_order(objective, f(order@[k]), fitness, f(order@[start - 1]));
                }
                if end < n {
                    lemma_better_is_strict_weak_order(objective, f(order@[end as int]), fitness, f(order@[k]));
                    lemma_better_is_strict_weak_order(objective, f(order@[k]), fitness, f(order@[end as int]));
                }
            }
            assert forall|k: int| 0 <= k < end implies {
                &&& #[trigger] ends[k] <= end
                &&& is_tie_run(objective, s, order@, k, starts[k], ends[k])
                &&& ranks@[order@[k] as int] == starts[k] + ends[k] - 1
            } by {
                if k < start {
                    assert forall|u: int| start <= u < end implies #[trigger] order@[u] != order@[k] by {
                        assert(k != u);
                    }
                    assert(ranks@[order@[k] as int] == before[order@[k] as int]);
                    assert(before[order@[k] as int] == old_starts[k] + old_ends[k] - 1);
                    assert(is_tie_run(objective, s, order@, k, old_starts[k], old_ends[k]));
                    assert(old_ends[k] <= start);
                    assert(starts[k] == old_starts[k]);
                    assert(ends[k] == old_ends[k]);
                } else {
                    assert(ranks@[order@[k] as int] == rank);
                    assert(starts[k] == start);
                    assert(ends[k] == end);
                }
            }
        }
        proof {
            assert forall|k: int| 0 <= k < end implies #[trigger] is_tie_run(objective, s, order@, k, starts[k], ends[k]) by {
                assert(ends[k] <= end);
            }
            assert forall|k: int| 0 <= k < end implies #[trigger] ranks@[order@[k] as int] == starts[k] + ends[k] - 1 by {
                assert(ends[k] <= end);
            }
        }
        start = end;
    }
    proof {
        assert(is_fitness_order(objective, false, population@, order@));
        assert(ranks_from_runs(objective, population@, order@, ranks@, starts, ends)) by {
            assert forall|k: int| #![trigger order@[k]] 0 <= k < order@.len() implies {
                &&& is_tie_run(objective, population@, order@, k, starts[k], ends[k])
                &&& ranks@[order@[k] as int] == starts[k] + ends[k] - 1
            } by {
                assert(is_tie_run(objective, s, order@, k, starts[k], ends[k]));
                assert(ranks@[order@[k] as int] == starts[k] + ends[k] - 1);
            }
        }
        assert(has_rank_runs(objective, population@, order@, ranks@));
    }
    ranks
}

/// Tournament selection: the best of `size` individuals drawn at random (with replacement).
///
/// Larger tournaments give more selection pressure. A size of 1 is random selection.
#[derive(Clone, Copy, Debug, PartialEq, Eq)]
pub struct Tournament {
    size: usize,
}

impl Tournament {
    /// Sizes from 1 to 2^24.
    #[verifier::type_invariant]
    closed spec fn is_valid(self) -> bool {
        1 <= self.size <= MAX_SIZE
    }

    /// The tournament size.
    pub closed spec fn spec_size(&self) -> usize {
        self.size
    }

    /// Tournaments of `size` individuals, at least 1 and at most 2^24, the largest population
    /// size.
    ///
    /// # Errors
    ///
    /// [`Error::InvalidSetting`] for a size of 0 or above 2^24.
    pub fn new(size: usize) -> (r: Result<Self>)
        ensures
            r is Ok <==> 1 <= size <= MAX_SIZE,
            r matches Ok(t) ==> t.spec_size() == size,
            r matches Err(e) ==> e.is_invalid_setting("tournament_size"),
    {
        if size == 0 || size > MAX_SIZE {
            return Err(Error::InvalidSetting { setting: "tournament_size", reason: reason_between(1, MAX_SIZE, size) });
        }
        Ok(Tournament { size })
    }

    /// The tournament size.
    pub fn size(&self) -> (r: usize)
        ensures
            r == self.spec_size(),
    {
        self.size
    }

    /// Selects `count` parents, with replacement: the positions of the selected individuals, each
    /// the winner of a tournament of `size` random draws. Unevaluated individuals are treated as
    /// invalid. Returns no parents for an empty population.
    pub fn select<G>(&self, population: &Population<G>, objective: Objective, count: usize, rng: &mut StreamRng) -> (r: Vec<usize>)
        ensures
            population@.len() == 0 ==> r@.len() == 0 && final(rng)@ == old(rng)@,
            population@.len() > 0 ==> r@.len() == count,
            population@.len() > 0 ==> forall|k: int| 0 <= k < r@.len() ==> is_tournament_winner(objective, population@,
                tournament_draws(old(rng)@, population@.len() as usize, self.spec_size() as nat, k as nat), #[trigger] r@[k]),
            population@.len() > 0 ==> final(rng)@ == after_tournaments(old(rng)@, population@.len() as usize, self.spec_size() as nat, count as nat),
    {
        proof {
            use_type_invariant(self);
        }
        let mut selected: Vec<usize> = Vec::new();
        let n = population.len();
        if n == 0 {
            return selected;
        }
        let ghost start = rng@;
        let mut k: usize = 0;
        while k < count
            invariant
                n == population@.len(),
                n > 0,
                1 <= self.size,
                k <= count,
                selected@.len() == k,
                rng@ == after_tournaments(start, n, self.size as nat, k as nat),
                forall|i: int| 0 <= i < k ==> is_tournament_winner(objective, population@,
                    tournament_draws(start, n, self.size as nat, i as nat), #[trigger] selected@[i]),
            decreases count - k,
        {
            let winner = self.tournament(population, objective, rng);
            selected.push(winner);
            proof {
                assert forall|i: int| 0 <= i < k + 1 implies is_tournament_winner(objective, population@,
                    tournament_draws(start, n, self.size as nat, i as nat), #[trigger] selected@[i]) by {
                    if i < k {
                        assert(selected@[i] == selected@.drop_last()[i]);
                    }
                }
            }
            k = k + 1;
        }
        selected
    }

    /// The winner of one tournament: `size` random draws from the population, and their
    /// [winner](tournament_winner).
    fn tournament<G>(&self, population: &Population<G>, objective: Objective, rng: &mut StreamRng) -> (winner: usize)
        requires
            population@.len() > 0,
            1 <= self.size,
        ensures
            is_tournament_winner(objective, population@, draws_below(old(rng)@, population@.len() as usize, self.size as nat).0, winner),
            final(rng)@ == draws_below(old(rng)@, population@.len() as usize, self.size as nat).1,
    {
        let n = population.len();
        let ghost start = rng@;
        let mut draws: Vec<usize> = Vec::new();
        while draws.len() < self.size
            invariant
                n == population@.len(),
                n > 0,
                draws@.len() <= self.size,
                forall|j: int| 0 <= j < draws@.len() ==> (#[trigger] draws@[j] as int) < n,
                (draws@, rng@) == draws_below(start, n, draws@.len()),
            decreases self.size - draws@.len(),
        {
            draws.push(rng.below(n));
        }
        tournament_winner(population, objective, draws.as_slice())
    }
}

/// The winner of a tournament of the individuals at `draws`: the first drawn of the best, where
/// an unevaluated individual counts as invalid.
pub fn tournament_winner<G>(population: &Population<G>, objective: Objective, draws: &[usize]) -> (winner: usize)
    requires
        draws@.len() > 0,
        forall|j: int| 0 <= j < draws@.len() ==> (#[trigger] draws@[j] as int) < population@.len(),
    ensures
        is_tournament_winner(objective, population@, draws@, winner),
{
    let n = population.len();
    let mut winner = draws[0];
    let mut winner_fitness = fitness_of(population, winner);
    let ghost mut seen: Seq<usize> = seq![winner];
    proof {
        assert(seen =~= draws@.take(1));
    }
    let ghost mut w: int = 0;
    let mut drawn: usize = 1;
    proof {
        lemma_better_is_strict_weak_order(objective, winner_fitness, winner_fitness, winner_fitness);
    }
    while drawn < draws.len()
        invariant
            n == population@.len(),
            1 <= drawn <= draws@.len(),
            seen == draws@.take(drawn as int),
            forall|j: int| 0 <= j < draws@.len() ==> (#[trigger] draws@[j] as int) < n,
            seen.len() == drawn,
            forall|j: int| 0 <= j < seen.len() ==> (#[trigger] seen[j] as int) < n,
            0 <= w < seen.len(),
            seen[w] == winner,
            winner_fitness == fitness_seen(population@[winner as int]),
            forall|j: int| 0 <= j < seen.len() ==> !better(objective, fitness_seen(population@[#[trigger] seen[j] as int]), winner_fitness),
            forall|j: int| 0 <= j < w ==> better(objective, winner_fitness, fitness_seen(population@[#[trigger] seen[j] as int])),
        decreases draws@.len() - drawn,
    {
        let contender = draws[drawn];
        let contender_fitness = fitness_of(population, contender);
        let ghost old_draws = seen;
        proof {
            seen = seen.push(contender);
            assert(seen =~= draws@.take(drawn + 1));
        }
        if objective.is_better(contender_fitness, winner_fitness) {
            proof {
                assert forall|j: int| 0 <= j < seen.len() implies !better(objective, fitness_seen(population@[#[trigger] seen[j] as int]), contender_fitness) by {
                    if j < old_draws.len() {
                        assert(seen[j] == old_draws[j]);
                        lemma_better_is_strict_weak_order(objective, fitness_seen(population@[seen[j] as int]), winner_fitness, contender_fitness);
                        lemma_better_is_strict_weak_order(objective, contender_fitness, winner_fitness, fitness_seen(population@[seen[j] as int]));
                    } else {
                        lemma_better_is_strict_weak_order(objective, contender_fitness, contender_fitness, contender_fitness);
                    }
                }
                assert forall|j: int| 0 <= j < old_draws.len() implies better(objective, contender_fitness, fitness_seen(population@[#[trigger] seen[j] as int])) by {
                    assert(seen[j] == old_draws[j]);
                    lemma_better_is_strict_weak_order(objective, contender_fitness, winner_fitness, fitness_seen(population@[seen[j] as int]));
                    lemma_better_is_strict_weak_order(objective, fitness_seen(population@[seen[j] as int]), contender_fitness, winner_fitness);
                }
                w = old_draws.len() as int;
            }
            winner = contender;
            winner_fitness = contender_fitness;
        } else {
            proof {
                assert forall|j: int| 0 <= j < seen.len() implies !better(objective, fitness_seen(population@[#[trigger] seen[j] as int]), winner_fitness) by {
                    if j < old_draws.len() {
                        assert(seen[j] == old_draws[j]);
                    }
                }
                assert forall|j: int| 0 <= j < w implies better(objective, winner_fitness, fitness_seen(population@[#[trigger] seen[j] as int])) by {
                    assert(seen[j] == old_draws[j]);
                }
            }
        }
        drawn = drawn + 1;
    }
    proof {
        assert(seen =~= draws@);
        assert(is_tournament_winner(objective, population@, seen, winner));
    }
    winner
}

/// Uniformly random selection, without selection pressure.
#[derive(Clone, Copy, Debug, Default, PartialEq, Eq)]
pub struct RandomSelection;

impl RandomSelection {
    /// Selects `count` parents uniformly at random, with replacement: their positions. Returns no
    /// parents for an empty population.
    pub fn select<G>(&self, population: &Population<G>, _objective: Objective, count: usize, rng: &mut StreamRng) -> (r: Vec<usize>)
        ensures
            population@.len() == 0 ==> r@.len() == 0 && final(rng)@ == old(rng)@,
            population@.len() > 0 ==> r@.len() == count,
            population@.len() > 0 ==> (r@, final(rng)@) == draws_below(old(rng)@, population@.len() as usize, count as nat),
            forall|k: int| 0 <= k < r@.len() ==> (#[trigger] r@[k] as int) < population@.len(),
    {
        uniform_indices(population.len(), count, rng)
    }
}

/// `count` uniformly random positions in `0..population_len`, none for an empty population.
pub fn uniform_indices(population_len: usize, count: usize, rng: &mut StreamRng) -> (r: Vec<usize>)
    ensures
        population_len == 0 ==> r@.len() == 0 && final(rng)@ == old(rng)@,
        population_len > 0 ==> r@.len() == count,
        population_len > 0 ==> (r@, final(rng)@) == draws_below(old(rng)@, population_len, count as nat),
        forall|k: int| 0 <= k < r@.len() ==> #[trigger] r@[k] < population_len,
{
    let mut r: Vec<usize> = Vec::new();
    if population_len == 0 {
        return r;
    }
    let ghost start = rng@;
    let mut k: usize = 0;
    while k < count
        invariant
            population_len > 0,
            k <= count,
            r@.len() == k,
            (r@, rng@) == draws_below(start, population_len, k as nat),
            forall|i: int| 0 <= i < k ==> #[trigger] r@[i] < population_len,
        decreases count - k,
    {
        let index = rng.below(population_len);
        r.push(index);
        k = k + 1;
    }
    r
}

} // verus!
