//! The decisions of the multi-objective algorithms that need no floating point: their settings,
//! the ask / tell protocol, and how NSGA-II fills its next population from the fronts.

use super::pareto::{dominates, fits};
use super::scores::{dominance, Scores};
use crate::error::{reason, reason_got, reason_limit_got, Error, Result};
use crate::fitness::Objective;
use crate::fitness::{key, score_key, INFINITY_BITS, SIGN_BIT};
use crate::genome::{holds_value, lemma_covering_len};
use crate::genome::{Order, Permutation};
use crate::operator::{check_size, MAX_SIZE};
use crate::rng::{u64_word, u64_words, StreamRng};
use vstd::prelude::*;

verus! {

/// The bits of `1.0`.
pub const ONE_BITS: u64 = 0x3ff0_0000_0000_0000;

/// Whether the `f64` with these bits is a probability: in `[0, 1]` (`-0.0` counts as 0).
pub open spec fn is_probability_bits(bits: u64) -> bool {
    bits <= ONE_BITS || bits == SIGN_BIT
}

/// Whether the `f64` with these bits is 0 (or `-0.0`).
pub open spec fn is_zero_bits(bits: u64) -> bool {
    bits == 0 || bits == SIGN_BIT
}

/// Whether breeding with these rates (bits of `f64` probabilities) can give a child that is not
/// a copy of a parent: a positive mutation rate, or a positive crossover rate with a crossover
/// that recombines.
pub open spec fn rates_breed(crossover_rate_bits: u64, mutation_rate_bits: u64, recombines: bool) -> bool {
    !is_zero_bits(mutation_rate_bits) || (!is_zero_bits(crossover_rate_bits) && recombines)
}

/// The crossover and mutation rates (bits of `f64`) of an algorithm that breeds children, each
/// in `[0, 1]`, unless every child would be a copy of a parent.
///
/// # Errors
///
/// [`Error::InvalidSetting`] for `crossover_rate` outside `[0, 1]`, then for `mutation_rate`
/// outside it, then for `mutation_rate` when every child would be a copy of a parent.
pub fn check_rates(crossover_rate_bits: u64, mutation_rate_bits: u64, recombines: bool) -> (r: Result<()>)
    ensures
        r is Ok <==> is_probability_bits(crossover_rate_bits) && is_probability_bits(mutation_rate_bits)
            && rates_breed(crossover_rate_bits, mutation_rate_bits, recombines),
        r matches Err(e) ==> if !is_probability_bits(crossover_rate_bits) {
            e.is_invalid_setting("crossover_rate")
        } else {
            e.is_invalid_setting("mutation_rate")
        },
{
    if !(crossover_rate_bits <= ONE_BITS || crossover_rate_bits == SIGN_BIT) {
        return Err(Error::InvalidSetting { setting: "crossover_rate", reason: reason("must be between 0 and 1") });
    }
    if !(mutation_rate_bits <= ONE_BITS || mutation_rate_bits == SIGN_BIT) {
        return Err(Error::InvalidSetting { setting: "mutation_rate", reason: reason("must be between 0 and 1") });
    }
    let mutation_zero = mutation_rate_bits == 0 || mutation_rate_bits == SIGN_BIT;
    let crossover_zero = crossover_rate_bits == 0 || crossover_rate_bits == SIGN_BIT;
    if mutation_zero && (crossover_zero || !recombines) {
        let text = if recombines {
            reason("crossover_rate and mutation_rate are both 0, so every child would be a copy of a parent")
        } else {
            reason("mutation_rate is 0 and the crossover doesn't recombine (NoCrossover), so every child would be a copy of a parent")
        };
        return Err(Error::InvalidSetting { setting: "mutation_rate", reason: text });
    }
    Ok(())
}

/// Whether the settings of an algorithm with a population (NSGA-II, SPEA2) are valid: a
/// population size from 2 to [`MAX_SIZE`], at least one objective, valid rates and no more
/// initial genomes than the population holds.
pub open spec fn valid_population_settings(
    population_size: Option<usize>,
    objectives: usize,
    crossover_rate_bits: u64,
    mutation_rate_bits: u64,
    recombines: bool,
    initial_genomes: usize,
) -> bool {
    &&& population_size matches Some(n) && 2 <= n <= MAX_SIZE && initial_genomes <= n
    &&& objectives >= 1
    &&& is_probability_bits(crossover_rate_bits) && is_probability_bits(mutation_rate_bits)
    &&& rates_breed(crossover_rate_bits, mutation_rate_bits, recombines)
}

/// Which setting the checks of an algorithm with a population name first, if any: the missing
/// population size, its bounds, the objectives, the rates, then the initial genomes.
pub open spec fn first_bad_population_setting(
    population_size: Option<usize>,
    objectives: usize,
    crossover_rate_bits: u64,
    mutation_rate_bits: u64,
    recombines: bool,
    initial_genomes: usize,
    e: Error,
) -> bool {
    match population_size {
        None => e.is_missing_setting("population_size"),
        Some(n) => if n < 2 || n > MAX_SIZE {
            e.is_invalid_setting("population_size")
        } else if objectives == 0 {
            e.is_invalid_setting("objectives")
        } else if !is_probability_bits(crossover_rate_bits) {
            e.is_invalid_setting("crossover_rate")
        } else if !is_probability_bits(mutation_rate_bits) || !rates_breed(crossover_rate_bits, mutation_rate_bits, recombines) {
            e.is_invalid_setting("mutation_rate")
        } else {
            e.is_invalid_setting("initial_genomes")
        },
    }
}

// the checks shared by NSGA-II and SPEA2, which differ in the name in a message
fn check_population_settings(
    name_needs_two: &str,
    population_size: Option<usize>,
    objectives: usize,
    crossover_rate_bits: u64,
    mutation_rate_bits: u64,
    recombines: bool,
    initial_genomes: usize,
) -> (r: Result<usize>)
    ensures
        r is Ok <==> valid_population_settings(population_size, objectives, crossover_rate_bits, mutation_rate_bits, recombines, initial_genomes),
        r matches Ok(n) ==> population_size == Some(n),
        r matches Err(e) ==> first_bad_population_setting(population_size, objectives, crossover_rate_bits, mutation_rate_bits, recombines, initial_genomes, e),
{
    let size = match population_size {
        Some(size) => size,
        None => return Err(Error::MissingSetting { setting: "population_size" }),
    };
    if size < 2 {
        return Err(Error::InvalidSetting { setting: "population_size", reason: reason_got(name_needs_two, size) });
    }
    match check_size("population_size", size) {
        Ok(_) => {},
        Err(e) => return Err(e),
    }
    if objectives == 0 {
        return Err(Error::InvalidSetting { setting: "objectives", reason: reason("at least 1 objective is needed") });
    }
    match check_rates(crossover_rate_bits, mutation_rate_bits, recombines) {
        Ok(()) => {},
        Err(e) => return Err(e),
    }
    if initial_genomes > size {
        return Err(Error::InvalidSetting {
            setting: "initial_genomes",
            reason: reason_limit_got("at most the population size", size, "", initial_genomes),
        });
    }
    Ok(size)
}

/// The population size of NSGA-II, if its settings are valid: the checks of its builder, on
/// the number of objectives, the bits of the rates, whether the crossover recombines and the
/// number of initial genomes.
///
/// # Errors
///
/// [`Error::MissingSetting`] without a population size; [`Error::InvalidSetting`] for the first
/// setting out of range, in the order of [`first_bad_population_setting`].
pub fn check_nsga2_settings(
    population_size: Option<usize>,
    objectives: usize,
    crossover_rate_bits: u64,
    mutation_rate_bits: u64,
    recombines: bool,
    initial_genomes: usize,
) -> (r: Result<usize>)
    ensures
        r is Ok <==> valid_population_settings(population_size, objectives, crossover_rate_bits, mutation_rate_bits, recombines, initial_genomes),
        r matches Ok(n) ==> population_size == Some(n),
        r matches Err(e) ==> first_bad_population_setting(population_size, objectives, crossover_rate_bits, mutation_rate_bits, recombines, initial_genomes, e),
{
    check_population_settings("NSGA-II needs at least 2 individuals", population_size, objectives, crossover_rate_bits,
        mutation_rate_bits, recombines, initial_genomes)
}

/// The population size of SPEA2, if its settings are valid: the same checks as
/// [`check_nsga2_settings`].
///
/// # Errors
///
/// As [`check_nsga2_settings`].
pub fn check_spea2_settings(
    population_size: Option<usize>,
    objectives: usize,
    crossover_rate_bits: u64,
    mutation_rate_bits: u64,
    recombines: bool,
    initial_genomes: usize,
) -> (r: Result<usize>)
    ensures
        r is Ok <==> valid_population_settings(population_size, objectives, crossover_rate_bits, mutation_rate_bits, recombines, initial_genomes),
        r matches Ok(n) ==> population_size == Some(n),
        r matches Err(e) ==> first_bad_population_setting(population_size, objectives, crossover_rate_bits, mutation_rate_bits, recombines, initial_genomes, e),
{
    check_population_settings("SPEA2 needs at least 2 individuals", population_size, objectives, crossover_rate_bits,
        mutation_rate_bits, recombines, initial_genomes)
}

/// Whether the settings of SMS-EMOA are valid: a population size of at least 2, at least one
/// child per generation (as many as the population by default), at least one objective, rates
/// in `[0, 1]` that aren't both 0, and no more initial genomes than the population holds.
pub open spec fn valid_sms_emoa_settings(
    population_size: Option<usize>,
    offspring: Option<usize>,
    objectives: usize,
    crossover_rate_bits: u64,
    mutation_rate_bits: u64,
    initial_genomes: usize,
) -> bool {
    &&& population_size matches Some(n) && n >= 2 && initial_genomes <= n
        && (offspring matches Some(k) ==> k >= 1)
    &&& objectives >= 1
    &&& is_probability_bits(crossover_rate_bits) && is_probability_bits(mutation_rate_bits)
    &&& !(is_zero_bits(crossover_rate_bits) && is_zero_bits(mutation_rate_bits))
}

/// The population size and the number of children per generation of SMS-EMOA, if its settings
/// are valid: the checks of its builder.
///
/// # Errors
///
/// [`Error::MissingSetting`] without a population size; [`Error::InvalidSetting`] for the first
/// setting out of range: the population size, the offspring, the objectives, the crossover
/// rate, the mutation rate (also when both rates are 0), then the initial genomes.
pub fn check_sms_emoa_settings(
    population_size: Option<usize>,
    offspring: Option<usize>,
    objectives: usize,
    crossover_rate_bits: u64,
    mutation_rate_bits: u64,
    initial_genomes: usize,
) -> (r: Result<(usize, usize)>)
    ensures
        r is Ok <==> valid_sms_emoa_settings(population_size, offspring, objectives, crossover_rate_bits, mutation_rate_bits, initial_genomes),
        r matches Ok((n, k)) ==> population_size == Some(n) && k == (match offspring { Some(k) => k, None => n }),
        r matches Err(e) ==> match population_size {
            None => e.is_missing_setting("population_size"),
            Some(n) => if n < 2 {
                e.is_invalid_setting("population_size")
            } else if offspring == Some(0usize) {
                e.is_invalid_setting("offspring")
            } else if objectives == 0 {
                e.is_invalid_setting("objectives")
            } else if !is_probability_bits(crossover_rate_bits) {
                e.is_invalid_setting("crossover_rate")
            } else if !is_probability_bits(mutation_rate_bits)
                || (is_zero_bits(crossover_rate_bits) && is_zero_bits(mutation_rate_bits)) {
                e.is_invalid_setting("mutation_rate")
            } else {
                e.is_invalid_setting("initial_genomes")
            },
        },
{
    let size = match population_size {
        Some(size) => size,
        None => return Err(Error::MissingSetting { setting: "population_size" }),
    };
    if size < 2 {
        return Err(Error::InvalidSetting { setting: "population_size", reason: reason_got("SMS-EMOA needs at least 2 individuals", size) });
    }
    let children = match offspring {
        Some(children) => children,
        None => size,
    };
    if children == 0 {
        return Err(Error::InvalidSetting { setting: "offspring", reason: reason("must be at least 1") });
    }
    if objectives == 0 {
        return Err(Error::InvalidSetting { setting: "objectives", reason: reason("at least 1 objective is needed") });
    }
    match check_two_rates(crossover_rate_bits, mutation_rate_bits) {
        Ok(()) => {},
        Err(e) => return Err(e),
    }
    if initial_genomes > size {
        return Err(Error::InvalidSetting {
            setting: "initial_genomes",
            reason: reason_limit_got("at most the population size", size, "", initial_genomes),
        });
    }
    Ok((size, children))
}

/// Whether scores can be told: something was asked, and one score per solution asked for.
///
/// # Errors
///
/// [`Error::TellWithoutAsk`] if nothing was asked, then [`Error::FitnessCount`] for a count of
/// scores other than `expected`.
pub fn check_tell(asked: bool, expected: usize, got: usize) -> (r: Result<()>)
    ensures
        r is Ok <==> asked && expected == got,
        r matches Err(e) ==> if !asked {
            e is TellWithoutAsk
        } else {
            e == (Error::FitnessCount { expected, got })
        },
{
    if !asked {
        return Err(Error::TellWithoutAsk);
    }
    if got != expected {
        return Err(Error::FitnessCount { expected, got });
    }
    Ok(())
}


/// The number of solutions in the first `k` fronts.
pub open spec fn size_of_first(fronts: Seq<Vec<usize>>, k: int) -> int
    decreases k,
{
    if k <= 0 { 0 } else { size_of_first(fronts, k - 1) + fronts[k - 1]@.len() }
}

proof fn lemma_size_of_first_grows(fronts: Seq<Vec<usize>>, j: int, k: int)
    requires
        0 <= j <= k,
    ensures
        size_of_first(fronts, j) <= size_of_first(fronts, k),
    decreases k - j,
{
    if j < k {
        lemma_size_of_first_grows(fronts, j, k - 1);
    }
}

/// How NSGA-II fills a population of `size` from the fronts, best first: the number of fronts
/// that fit whole, and the room left, which the least crowded solutions of the next front fill.
pub fn fronts_that_fit(fronts: &[Vec<usize>], size: usize) -> (r: (usize, usize))
    ensures
        r.0 <= fronts@.len(),
        size_of_first(fronts@, r.0 as int) <= size,
        r.1 == size - size_of_first(fronts@, r.0 as int),
        r.0 < fronts@.len() ==> fronts@[r.0 as int]@.len() > r.1,
{
    let mut k: usize = 0;
    let mut room: usize = size;
    while k < fronts.len() && fronts[k].len() <= room
        invariant
            k <= fronts@.len(),
            size_of_first(fronts@, k as int) <= size,
            room == size - size_of_first(fronts@, k as int),
        decreases fronts@.len() - k,
    {
        room = room - fronts[k].len();
        k = k + 1;
    }
    (k, room)
}

/// Whether position `a` of a front goes before position `b` when NSGA-II picks the least
/// crowded: the larger crowding distance (`distances` are `f64` bits, in the order of
/// `f64::total_cmp`), then the smaller random key, then the earlier position.
pub open spec fn less_crowded(distances: Seq<u64>, keys: Seq<u64>, a: int, b: int) -> bool {
    ||| score_key(distances[a]) > score_key(distances[b])
    ||| score_key(distances[a]) == score_key(distances[b]) && keys[a] < keys[b]
    ||| score_key(distances[a]) == score_key(distances[b]) && keys[a] == keys[b] && a < b
}

/// Whether `order` holds the `room` least crowded positions of a front, least crowded first: in
/// the order of [`less_crowded`], and each before every position left out.
pub open spec fn is_least_crowded(distances: Seq<u64>, keys: Seq<u64>, room: int, order: Seq<usize>) -> bool {
    &&& order.len() == room
    &&& forall|i: int| 0 <= i < order.len() ==> (#[trigger] order[i] as int) < distances.len()
    &&& forall|i: int, j: int| 0 <= i < j < order.len()
        ==> less_crowded(distances, keys, #[trigger] order[i] as int, #[trigger] order[j] as int)
    &&& forall|i: int, u: int| 0 <= i < order.len() && 0 <= u < distances.len() && !order.contains(u as usize)
        ==> #[trigger] less_crowded(distances, keys, order[i] as int, u)
}

/// The `room` least crowded positions of a front, least crowded first: the positions that come
/// first when sorted by [`less_crowded`].
pub fn least_crowded(distances: &[u64], keys: &[u64], room: usize) -> (r: Vec<usize>)
    requires
        distances@.len() == keys@.len(),
        room <= distances@.len(),
    ensures
        is_least_crowded(distances@, keys@, room as int, r@),
{
    let n = distances.len();
    let mut taken: Vec<bool> = Vec::new();
    while taken.len() < n
        invariant
            taken@.len() <= n,
            forall|p: int| 0 <= p < taken@.len() ==> !#[trigger] taken@[p],
        decreases n - taken@.len(),
    {
        taken.push(false);
    }
    let mut r: Vec<usize> = Vec::new();
    while r.len() < room
        invariant
            n == distances@.len(),
            n == keys@.len(),
            room <= n,
            r@.len() <= room,
            taken@.len() == n,
            forall|i: int| 0 <= i < r@.len() ==> (#[trigger] r@[i] as int) < n,
            forall|p: int| 0 <= p < n ==> (#[trigger] taken@[p] <==> r@.contains(p as usize)),
            forall|i: int, j: int| 0 <= i < j < r@.len()
                ==> less_crowded(distances@, keys@, #[trigger] r@[i] as int, #[trigger] r@[j] as int),
            forall|i: int, u: int| 0 <= i < r@.len() && 0 <= u < n && !r@.contains(u as usize)
                ==> #[trigger] less_crowded(distances@, keys@, r@[i] as int, u),
        decreases room - r@.len(),
    {
        // the least crowded position not taken yet
        let mut best: usize = n;
        let mut p: usize = 0;
        while p < n
            invariant
                n == distances@.len(),
                n == keys@.len(),
                taken@.len() == n,
                p <= n,
                best == n || (best < p && !taken@[best as int]),
                forall|q: int| 0 <= q < p && !#[trigger] taken@[q] ==> best < n
                    && (q == best || less_crowded(distances@, keys@, best as int, q)),
            decreases n - p,
        {
            if !taken[p] {
                if best == n {
                    best = p;
                } else {
                    let kb = key(distances[best]);
                    let kp = key(distances[p]);
                    if kp > kb || (kp == kb && keys[p] < keys[best]) {
                        best = p;
                    }
                }
            }
            p = p + 1;
        }
        proof {
            // a position is left: fewer than `n` are taken
            if best == n {
                assert forall|q: int| 0 <= q < n implies #[trigger] holds_value(r@, q) by {
                    assert(taken@[q]);
                    assert(r@.contains(q as usize));
                    let i = choose|i: int| 0 <= i < r@.len() && r@[i] == q as usize;
                }
                lemma_covering_len(r@, n as int);
            }
        }
        let ghost before = r@;
        taken.set(best, true);
        r.push(best);
        proof {
            assert(!before.contains(best));
            assert forall|q: int| 0 <= q < n implies (#[trigger] taken@[q] <==> r@.contains(q as usize)) by {
                if r@.contains(q as usize) && q != best {
                    let i = choose|i: int| 0 <= i < r@.len() && r@[i] == q as usize;
                    assert(before[i] == q);
                }
                if before.contains(q as usize) {
                    let i = choose|i: int| 0 <= i < before.len() && before[i] == q as usize;
                    assert(r@[i] == q);
                }
                if q == best {
                    assert(r@[before.len() as int] == best);
                }
            }
            assert forall|i: int, u: int| 0 <= i < r@.len() && 0 <= u < n && !r@.contains(u as usize)
                implies #[trigger] less_crowded(distances@, keys@, r@[i] as int, u) by {
                assert(!before.contains(u as usize)) by {
                    if before.contains(u as usize) {
                        let j = choose|j: int| 0 <= j < before.len() && before[j] == u as usize;
                        assert(r@[j] == u);
                    }
                }
                if i < before.len() {
                    assert(r@[i] == before[i]);
                } else {
                    assert(!taken@[u] || u == best);
                    assert(u != best) by {
                        assert(r@[before.len() as int] == best);
                    }
                }
            }
            assert forall|i: int, j: int| 0 <= i < j < r@.len()
                implies less_crowded(distances@, keys@, #[trigger] r@[i] as int, #[trigger] r@[j] as int) by {
                if j == before.len() {
                    assert(r@[i] == before[i]);
                    assert(!before.contains(best));
                }
            }
        }
    }
    r
}

/// Whether position `a` goes before position `b` among the nearest: a smaller value, or the same
/// value and a lower position.
pub open spec fn nearer(values: Seq<u64>, a: int, b: int) -> bool {
    values[a] < values[b] || (values[a] == values[b] && a < b)
}

/// The `count` positions with the smallest values, nearest first ([`nearer`]), as MOEA/D picks
/// the neighbours of a weight vector from the bits of its (non-negative) distances to all.
pub fn nearest(values: &[u64], count: usize) -> (r: Vec<usize>)
    requires
        count <= values@.len(),
    ensures
        r@.len() == count,
        forall|i: int| 0 <= i < r@.len() ==> (#[trigger] r@[i] as int) < values@.len(),
        forall|i: int, j: int| 0 <= i < j < r@.len() ==> nearer(values@, #[trigger] r@[i] as int, #[trigger] r@[j] as int),
        forall|i: int, u: int| 0 <= i < r@.len() && 0 <= u < values@.len() && !r@.contains(u as usize)
            ==> #[trigger] nearer(values@, r@[i] as int, u),
{
    // with equal crowding everywhere, the least crowded come in the order of their keys, then of
    // their positions
    let mut level: Vec<u64> = Vec::new();
    while level.len() < values.len()
        invariant
            level@.len() <= values@.len(),
            forall|p: int| 0 <= p < level@.len() ==> #[trigger] level@[p] == 0,
        decreases values@.len() - level@.len(),
    {
        level.push(0);
    }
    let r = least_crowded(level.as_slice(), values, count);
    proof {
        assert forall|a: int, b: int| 0 <= a < values@.len() && 0 <= b < values@.len()
            implies #[trigger] less_crowded(level@, values@, a, b) == nearer(values@, a, b) by {
            assert(level@[a] == 0 && level@[b] == 0);
        }
        assert forall|i: int, j: int| 0 <= i < j < r@.len()
            implies nearer(values@, #[trigger] r@[i] as int, #[trigger] r@[j] as int) by {
            assert(less_crowded(level@, values@, r@[i] as int, r@[j] as int));
        }
        assert forall|i: int, u: int| 0 <= i < r@.len() && 0 <= u < values@.len() && !r@.contains(u as usize)
            implies #[trigger] nearer(values@, r@[i] as int, u) by {
            assert(less_crowded(level@, values@, r@[i] as int, u));
        }
    }
    r
}

/// The solutions of the first `k` fronts, front by front, each with its rank (its front's index).
pub open spec fn ranked_fronts(fronts: Seq<Vec<usize>>, k: int) -> Seq<(usize, usize)>
    decreases k,
{
    if k <= 0 {
        Seq::empty()
    } else {
        ranked_fronts(fronts, k - 1) + fronts[k - 1]@.map_values(|i: usize| (i, (k - 1) as usize))
    }
}

proof fn lemma_ranked_fronts_len(fronts: Seq<Vec<usize>>, k: int)
    requires
        0 <= k <= fronts.len(),
    ensures
        ranked_fronts(fronts, k).len() == size_of_first(fronts, k),
    decreases k,
{
    if k > 0 {
        lemma_ranked_fronts_len(fronts, k - 1);
    }
}

/// The survivors of NSGA-II, with their ranks, from a pool sorted into `fronts`, best first
/// (positions in the pool): the fronts that fit whole in `size` ([`fronts_that_fit`]), then, if
/// room is left, the least crowded of the next front ([`least_crowded`]), where a random key, a
/// `u64` drawn from `rng` for each solution of that front in turn, breaks ties of crowding.
/// `distances[i]` holds the bits of the `f64` crowding distances of front `i`, in its order.
pub fn nsga2_survivors(fronts: &[Vec<usize>], distances: &[Vec<u64>], size: usize, rng: &mut StreamRng) -> (r: Vec<(usize, usize)>)
    requires
        distances@.len() == fronts@.len(),
        forall|i: int| 0 <= i < fronts@.len() ==> (#[trigger] distances@[i])@.len() == fronts@[i]@.len(),
    ensures
        exists|k: int| {
            &&& 0 <= k <= fronts@.len()
            &&& size_of_first(fronts@, k) <= size
            &&& k < fronts@.len() ==> fronts@[k]@.len() > size - size_of_first(fronts@, k)
            &&& if k < fronts@.len() && size > size_of_first(fronts@, k) {
                let whole = size_of_first(fronts@, k);
                let words = u64_words(old(rng)@, fronts@[k]@.len());
                &&& r@.len() == size
                &&& r@.take(whole) == ranked_fronts(fronts@, k)
                &&& final(rng)@ == words.1
                &&& exists|order: Seq<usize>| {
                    &&& #[trigger] is_least_crowded(distances@[k]@, words.0, size - whole, order)
                    &&& forall|i: int| 0 <= i < size - whole
                        ==> #[trigger] r@[whole + i] == (fronts@[k]@[order[i] as int], k as usize)
                }
            } else {
                r@ == ranked_fronts(fronts@, k) && final(rng)@ == old(rng)@
            }
        },
{
    let (k, room) = fronts_that_fit(fronts, size);
    let mut r: Vec<(usize, usize)> = Vec::new();
    let mut f: usize = 0;
    while f < k
        invariant
            f <= k <= fronts@.len(),
            r@ == ranked_fronts(fronts@, f as int),
        decreases k - f,
    {
        let front = &fronts[f];
        let mut i: usize = 0;
        while i < front.len()
            invariant
                f < k <= fronts@.len(),
                *front == fronts@[f as int],
                i <= front@.len(),
                r@ == ranked_fronts(fronts@, f as int) + front@.take(i as int).map_values(|x: usize| (x, f)),
            decreases front@.len() - i,
        {
            r.push((front[i], f));
            proof {
                assert(front@.take(i + 1).map_values(|x: usize| (x, f))
                    =~= front@.take(i as int).map_values(|x: usize| (x, f)).push((front@[i as int], f)));
            }
            i = i + 1;
        }
        proof {
            assert(front@.take(i as int) =~= front@);
        }
        f = f + 1;
    }
    proof {
        lemma_ranked_fronts_len(fronts@, k as int);
    }
    if k < fronts.len() && room > 0 {
        let front = &fronts[k];
        let ghost start = rng@;
        let mut keys: Vec<u64> = Vec::new();
        while keys.len() < front.len()
            invariant
                k < fronts@.len(),
                *front == fronts@[k as int],
                keys@.len() <= front@.len(),
                (keys@, rng@) == u64_words(start, keys@.len()),
            decreases front@.len() - keys@.len(),
        {
            let ghost before = rng@;
            let word = rng.next_u64();
            proof {
                assert(u64_word(before) == (crate::rng::stream_word(before, 0) + crate::rng::stream_word(before, 1) * 0x1_0000_0000int));
            }
            keys.push(word);
        }
        let order = least_crowded(distances[k].as_slice(), keys.as_slice(), room);
        let ghost whole = r@;
        let mut i: usize = 0;
        while i < room
            invariant
                k < fronts@.len(),
                *front == fronts@[k as int],
                room < front@.len(),
                order@.len() == room,
                forall|j: int| 0 <= j < order@.len() ==> (#[trigger] order@[j] as int) < front@.len(),
                i <= room,
                r@.len() == whole.len() + i,
                r@.take(whole.len() as int) == whole,
                forall|j: int| 0 <= j < i ==> #[trigger] r@[whole.len() + j] == (front@[order@[j] as int], k),
            decreases room - i,
        {
            let position = order[i];
            r.push((front[position], k));
            proof {
                assert(r@.take(whole.len() as int) =~= whole);
            }
            i = i + 1;
        }
        proof {
            let kk = k as int;
            let words = u64_words(start, front@.len());
            assert(keys@ == words.0 && rng@ == words.1);
            assert(distances@[kk]@ == distances[k as int]@);
            assert(is_least_crowded(distances@[kk]@, words.0, room as int, order@));
            assert(r@.take(size_of_first(fronts@, kk)) == ranked_fronts(fronts@, kk));
            assert(forall|i: int| 0 <= i < size - size_of_first(fronts@, kk)
                ==> #[trigger] r@[size_of_first(fronts@, kk) + i] == (fronts@[kk]@[order@[i] as int], k as usize));
            assert(size > size_of_first(fronts@, kk));
        }
    } else {
        proof {
            assert(!(k < fronts@.len() && size > size_of_first(fronts@, k as int)));
            assert(r@ == ranked_fronts(fronts@, k as int));
        }
    }
    r
}

/// The children that don't survive, in their order: the positions from `parent_count` on of a
/// pool of `pool_len` solutions (parents first, then children) that `kept` doesn't hold.
pub fn discarded_children(kept: &[usize], pool_len: usize, parent_count: usize) -> (r: Vec<usize>)
    requires
        parent_count <= pool_len,
    ensures
        forall|i: int, j: int| 0 <= i < j < r@.len() ==> #[trigger] r@[i] < #[trigger] r@[j],
        forall|i: int| 0 <= i < r@.len() ==> parent_count <= #[trigger] r@[i] < pool_len && !kept@.contains(r@[i]),
        forall|x: usize| parent_count <= x < pool_len && !kept@.contains(x) ==> #[trigger] r@.contains(x),
{
    let mut r: Vec<usize> = Vec::new();
    let mut x = parent_count;
    while x < pool_len
        invariant
            parent_count <= x <= pool_len,
            forall|i: int, j: int| 0 <= i < j < r@.len() ==> #[trigger] r@[i] < #[trigger] r@[j],
            forall|i: int| 0 <= i < r@.len() ==> parent_count <= #[trigger] r@[i] < x && !kept@.contains(r@[i]),
            forall|y: usize| parent_count <= y < x && !kept@.contains(y) ==> #[trigger] r@.contains(y),
        decreases pool_len - x,
    {
        let mut found = false;
        let mut i: usize = 0;
        while i < kept.len()
            invariant
                i <= kept@.len(),
                found == exists|j: int| 0 <= j < i && kept@[j] == x,
            decreases kept@.len() - i,
        {
            if kept[i] == x {
                found = true;
            }
            i = i + 1;
        }
        let ghost before = r@;
        if !found {
            r.push(x);
            proof {
                assert forall|y: usize| parent_count <= y < x + 1 && !kept@.contains(y) implies #[trigger] r@.contains(y) by {
                    if y < x {
                        assert(before.contains(y));
                        let j = choose|j: int| 0 <= j < before.len() && before[j] == y;
                        assert(r@[j] == y);
                    } else {
                        assert(r@[before.len() as int] == y);
                    }
                }
            }
        } else {
            proof {
                assert(kept@.contains(x));
            }
        }
        x = x + 1;
    }
    r
}


/// The number of solutions among the first `m` that solution `a` dominates (other than itself).
pub open spec fn dominated_among(s: Seq<Scores>, objectives: Seq<Objective>, a: int, m: int) -> nat
    decreases m,
{
    if m <= 0 {
        0
    } else {
        dominated_among(s, objectives, a, m - 1)
            + if m - 1 != a && dominance(s[a], s[m - 1], objectives) { 1nat } else { 0nat }
    }
}

/// The SPEA2 strength of solution `a`: the number of solutions it dominates.
pub open spec fn strength(s: Seq<Scores>, objectives: Seq<Objective>, a: int) -> nat {
    dominated_among(s, objectives, a, s.len() as int)
}

/// The sum of the strengths of the dominators of solution `i` among the first `m`.
pub open spec fn raw_among(s: Seq<Scores>, objectives: Seq<Objective>, i: int, m: int) -> nat
    decreases m,
{
    if m <= 0 {
        0
    } else {
        raw_among(s, objectives, i, m - 1)
            + if m - 1 != i && dominance(s[m - 1], s[i], objectives) { strength(s, objectives, m - 1) } else { 0nat }
    }
}

/// The SPEA2 raw fitness of solution `i`: the sum of the strengths of its dominators, 0 for a
/// solution that no solution dominates.
pub open spec fn raw_fitness(s: Seq<Scores>, objectives: Seq<Objective>, i: int) -> nat {
    raw_among(s, objectives, i, s.len() as int)
}

proof fn lemma_dominated_among_bound(s: Seq<Scores>, objectives: Seq<Objective>, a: int, m: int)
    requires
        m >= 0,
    ensures
        dominated_among(s, objectives, a, m) <= m,
    decreases m,
{
    if m > 0 {
        lemma_dominated_among_bound(s, objectives, a, m - 1);
    }
}

proof fn lemma_raw_among_bound(s: Seq<Scores>, objectives: Seq<Objective>, i: int, m: int)
    requires
        0 <= m <= s.len(),
    ensures
        raw_among(s, objectives, i, m) <= m * s.len(),
    decreases m,
{
    if m > 0 {
        lemma_raw_among_bound(s, objectives, i, m - 1);
        lemma_dominated_among_bound(s, objectives, m - 1, s.len() as int);
        assert((m - 1) * s.len() + s.len() == m * s.len()) by (nonlinear_arith);
    }
}

/// The SPEA2 raw fitness of each solution, in their order: the sum of the strengths (the number
/// of solutions each dominates) of the solutions that dominate it. Smaller is better; 0 for the
/// non-dominated.
pub fn spea2_raw_fitness(scores: &[Scores], objectives: &[Objective]) -> (r: Vec<usize>)
    requires
        forall|i: int| 0 <= i < scores@.len() ==> fits(#[trigger] scores@[i], objectives@),
        scores@.len() * scores@.len() <= usize::MAX,
    ensures
        r@.len() == scores@.len(),
        forall|i: int| 0 <= i < scores@.len() ==> #[trigger] r@[i] == raw_fitness(scores@, objectives@, i),
{
    let n = scores.len();
    let ghost s = scores@;
    let ghost o = objectives@;
    let mut strengths: Vec<usize> = Vec::new();
    let mut a: usize = 0;
    while a < n
        invariant
            n == s.len(),
            s == scores@,
            o == objectives@,
            forall|i: int| 0 <= i < n ==> fits(#[trigger] s[i], o),
            a <= n,
            strengths@.len() == a,
            forall|x: int| 0 <= x < a ==> #[trigger] strengths@[x] == strength(s, o, x),
        decreases n - a,
    {
        let mut count: usize = 0;
        let mut b: usize = 0;
        while b < n
            invariant
                n == s.len(),
                s == scores@,
                o == objectives@,
                forall|i: int| 0 <= i < n ==> fits(#[trigger] s[i], o),
                a < n,
                b <= n,
                count == dominated_among(s, o, a as int, b as int),
            decreases n - b,
        {
            proof {
                lemma_dominated_among_bound(s, o, a as int, b as int);
            }
            if a != b && dominates(&scores[a], &scores[b], objectives) {
                count = count + 1;
            }
            b = b + 1;
        }
        strengths.push(count);
        a = a + 1;
    }
    let mut r: Vec<usize> = Vec::new();
    let mut i: usize = 0;
    while i < n
        invariant
            n == s.len(),
            s == scores@,
            o == objectives@,
            n * n <= usize::MAX,
            forall|x: int| 0 <= x < n ==> fits(#[trigger] s[x], o),
            strengths@.len() == n,
            forall|x: int| 0 <= x < n ==> #[trigger] strengths@[x] == strength(s, o, x),
            i <= n,
            r@.len() == i,
            forall|x: int| 0 <= x < i ==> #[trigger] r@[x] == raw_fitness(s, o, x),
        decreases n - i,
    {
        let mut raw: usize = 0;
        let mut j: usize = 0;
        while j < n
            invariant
                n == s.len(),
                s == scores@,
                o == objectives@,
                n * n <= usize::MAX,
                forall|x: int| 0 <= x < n ==> fits(#[trigger] s[x], o),
                strengths@.len() == n,
                forall|x: int| 0 <= x < n ==> #[trigger] strengths@[x] == strength(s, o, x),
                i < n,
                j <= n,
                raw == raw_among(s, o, i as int, j as int),
            decreases n - j,
        {
            proof {
                lemma_raw_among_bound(s, o, i as int, j as int + 1);
                assert((j + 1) * n <= n * n) by (nonlinear_arith)
                    requires j + 1 <= n;
            }
            if i != j && dominates(&scores[j], &scores[i], objectives) {
                raw = raw + strengths[j];
            }
            j = j + 1;
        }
        r.push(raw);
        i = i + 1;
    }
    r
}


/// Whether the `f64` with these bits is 0 or more and finite (`-0.0` counts as 0).
pub open spec fn is_finite_non_negative_bits(bits: u64) -> bool {
    bits < INFINITY_BITS || bits == SIGN_BIT
}

/// Whether the `f64` with these bits is more than 0 and finite.
pub open spec fn is_finite_positive_bits(bits: u64) -> bool {
    0 < bits < INFINITY_BITS
}

/// Whether a vector of `f64` bits is a direction (a reference direction or a weight vector):
/// every component 0 or more and finite, and one more than 0.
pub open spec fn is_direction_bits(v: Seq<u64>) -> bool {
    &&& forall|j: int| 0 <= j < v.len() ==> is_finite_non_negative_bits(#[trigger] v[j])
    &&& exists|j: int| 0 <= j < v.len() && is_finite_positive_bits(#[trigger] v[j])
}

/// Whether every vector is a direction.
pub open spec fn all_directions(vs: Seq<Vec<u64>>) -> bool {
    forall|i: int| 0 <= i < vs.len() ==> is_direction_bits((#[trigger] vs[i])@)
}

// whether the vector of bits is a direction
fn is_direction(v: &Vec<u64>) -> (r: bool)
    ensures
        r == is_direction_bits(v@),
{
    let mut positive = false;
    let mut j: usize = 0;
    while j < v.len()
        invariant
            j <= v@.len(),
            forall|i: int| 0 <= i < j ==> is_finite_non_negative_bits(#[trigger] v@[i]),
            positive == exists|i: int| 0 <= i < j && is_finite_positive_bits(#[trigger] v@[i]),
        decreases v@.len() - j,
    {
        let x = v[j];
        if !(x < INFINITY_BITS || x == SIGN_BIT) {
            return false;
        }
        if 0 < x && x < INFINITY_BITS {
            positive = true;
        }
        j = j + 1;
    }
    positive
}

// whether every vector is a direction
fn are_directions(vs: &[Vec<u64>]) -> (r: bool)
    ensures
        r == all_directions(vs@),
{
    let mut i: usize = 0;
    while i < vs.len()
        invariant
            i <= vs@.len(),
            forall|k: int| 0 <= k < i ==> is_direction_bits((#[trigger] vs@[k])@),
        decreases vs@.len() - i,
    {
        if !is_direction(&vs[i]) {
            return false;
        }
        i = i + 1;
    }
    true
}

// the rates of NSGA-III, MOEA/D and SMS-EMOA: each a probability, not both 0
fn check_two_rates(crossover_rate_bits: u64, mutation_rate_bits: u64) -> (r: Result<()>)
    ensures
        r is Ok <==> is_probability_bits(crossover_rate_bits) && is_probability_bits(mutation_rate_bits)
            && !(is_zero_bits(crossover_rate_bits) && is_zero_bits(mutation_rate_bits)),
        r matches Err(e) ==> if !is_probability_bits(crossover_rate_bits) {
            e.is_invalid_setting("crossover_rate")
        } else {
            e.is_invalid_setting("mutation_rate")
        },
{
    check_rates(crossover_rate_bits, mutation_rate_bits, true)
}

/// The population size of NSGA-III, if its settings are valid: at least one objective, at least
/// one reference direction and each a direction ([`is_direction_bits`]), a population size (the
/// number of directions by default) of at least 2, rates in `[0, 1]` not both 0, and no more
/// initial genomes than the population holds.
///
/// # Errors
///
/// [`Error::InvalidSetting`] for the first setting out of range, in that order.
pub fn check_nsga3_settings(
    objectives: usize,
    reference_directions: &[Vec<u64>],
    population_size: Option<usize>,
    crossover_rate_bits: u64,
    mutation_rate_bits: u64,
    initial_genomes: usize,
) -> (r: Result<usize>)
    ensures
        r is Ok <==> {
            let n: int = match population_size { Some(n) => n as int, None => reference_directions@.len() as int };
            &&& objectives >= 1
            &&& reference_directions@.len() >= 1 && all_directions(reference_directions@)
            &&& n >= 2 && initial_genomes <= n
            &&& is_probability_bits(crossover_rate_bits) && is_probability_bits(mutation_rate_bits)
            &&& !(is_zero_bits(crossover_rate_bits) && is_zero_bits(mutation_rate_bits))
        },
        r matches Ok(n) ==> n == (match population_size { Some(m) => m as int, None => reference_directions@.len() as int }),
        r matches Err(e) ==> {
            let n: int = match population_size { Some(n) => n as int, None => reference_directions@.len() as int };
            if objectives == 0 {
                e.is_invalid_setting("objectives")
            } else if reference_directions@.len() == 0 || !all_directions(reference_directions@) {
                e.is_invalid_setting("reference_directions")
            } else if n < 2 {
                e.is_invalid_setting("population_size")
            } else if !is_probability_bits(crossover_rate_bits) {
                e.is_invalid_setting("crossover_rate")
            } else if !is_probability_bits(mutation_rate_bits) || (is_zero_bits(crossover_rate_bits) && is_zero_bits(mutation_rate_bits)) {
                e.is_invalid_setting("mutation_rate")
            } else {
                e.is_invalid_setting("initial_genomes")
            }
        },
{
    if objectives == 0 {
        return Err(Error::InvalidSetting { setting: "objectives", reason: reason("at least 1 objective is needed") });
    }
    if reference_directions.len() == 0 {
        return Err(Error::InvalidSetting { setting: "reference_directions", reason: reason("at least 1 reference direction is needed") });
    }
    if !are_directions(reference_directions) {
        return Err(Error::InvalidSetting { setting: "reference_directions", reason: reason("must be non-negative, finite and not all 0") });
    }
    let size = match population_size {
        Some(size) => size,
        None => reference_directions.len(),
    };
    if size < 2 {
        return Err(Error::InvalidSetting { setting: "population_size", reason: reason_got("NSGA-III needs at least 2 individuals", size) });
    }
    match check_two_rates(crossover_rate_bits, mutation_rate_bits) {
        Ok(()) => {},
        Err(e) => return Err(e),
    }
    if initial_genomes > size {
        return Err(Error::InvalidSetting {
            setting: "initial_genomes",
            reason: reason_limit_got("at most the population size", size, "", initial_genomes),
        });
    }
    Ok(size)
}

/// Whether the settings of MOEA/D are valid, given its weight vectors (one per subproblem): at
/// least one objective, at least 2 weight vectors and each a direction, at least 2 neighbors, a
/// neighbor mating probability in `[0, 1]`, at least one replacement, a PBI penalty `theta` (if
/// any) 0 or more and finite, rates in `[0, 1]` not both 0, and no more initial genomes than weight
/// vectors.
pub open spec fn valid_moead_settings(
    objectives: usize,
    weights: Seq<Vec<u64>>,
    neighbors: usize,
    neighbor_mating_bits: u64,
    max_replacements: usize,
    theta_bits: Option<u64>,
    crossover_rate_bits: u64,
    mutation_rate_bits: u64,
    initial_genomes: usize,
) -> bool {
    &&& objectives >= 1
    &&& weights.len() >= 2 && all_directions(weights)
    &&& neighbors >= 2
    &&& is_probability_bits(neighbor_mating_bits)
    &&& max_replacements >= 1
    &&& (theta_bits matches Some(t) ==> is_finite_non_negative_bits(t))
    &&& is_probability_bits(crossover_rate_bits) && is_probability_bits(mutation_rate_bits)
    &&& !(is_zero_bits(crossover_rate_bits) && is_zero_bits(mutation_rate_bits))
    &&& initial_genomes <= weights.len()
}

/// The population size (the number of weight vectors) of MOEA/D, if its settings are valid
/// ([`valid_moead_settings`]).
///
/// # Errors
///
/// [`Error::InvalidSetting`] for the first setting out of range: the objectives, the weights, the
/// neighbors, the neighbor mating, the replacements, `theta`, the crossover rate, the mutation
/// rate (also when both rates are 0), then the initial genomes.
pub fn check_moead_settings(
    objectives: usize,
    weights: &[Vec<u64>],
    neighbors: usize,
    neighbor_mating_bits: u64,
    max_replacements: usize,
    theta_bits: Option<u64>,
    crossover_rate_bits: u64,
    mutation_rate_bits: u64,
    initial_genomes: usize,
) -> (r: Result<usize>)
    ensures
        r is Ok <==> valid_moead_settings(objectives, weights@, neighbors, neighbor_mating_bits, max_replacements,
            theta_bits, crossover_rate_bits, mutation_rate_bits, initial_genomes),
        r matches Ok(n) ==> n == weights@.len(),
        r matches Err(e) ==> if objectives == 0 {
            e.is_invalid_setting("objectives")
        } else if weights@.len() < 2 || !all_directions(weights@) {
            e.is_invalid_setting("weights")
        } else if neighbors < 2 {
            e.is_invalid_setting("neighbors")
        } else if !is_probability_bits(neighbor_mating_bits) {
            e.is_invalid_setting("neighbor_mating")
        } else if max_replacements == 0 {
            e.is_invalid_setting("max_replacements")
        } else if theta_bits matches Some(t) && !is_finite_non_negative_bits(t) {
            e.is_invalid_setting("theta")
        } else if !is_probability_bits(crossover_rate_bits) {
            e.is_invalid_setting("crossover_rate")
        } else if !is_probability_bits(mutation_rate_bits) || (is_zero_bits(crossover_rate_bits) && is_zero_bits(mutation_rate_bits)) {
            e.is_invalid_setting("mutation_rate")
        } else {
            e.is_invalid_setting("initial_genomes")
        },
{
    if objectives == 0 {
        return Err(Error::InvalidSetting { setting: "objectives", reason: reason("at least 1 objective is needed") });
    }
    let size = weights.len();
    if size < 2 {
        return Err(Error::InvalidSetting { setting: "weights", reason: reason_got("MOEA/D needs at least 2 weight vectors", size) });
    }
    if !are_directions(weights) {
        return Err(Error::InvalidSetting { setting: "weights", reason: reason("must be non-negative, finite and not all 0") });
    }
    if neighbors < 2 {
        return Err(Error::InvalidSetting { setting: "neighbors", reason: reason_got("at least 2", neighbors) });
    }
    if !(neighbor_mating_bits <= ONE_BITS || neighbor_mating_bits == SIGN_BIT) {
        return Err(Error::InvalidSetting { setting: "neighbor_mating", reason: reason("must be between 0 and 1") });
    }
    if max_replacements == 0 {
        return Err(Error::InvalidSetting { setting: "max_replacements", reason: reason("must be at least 1") });
    }
    match theta_bits {
        Some(t) => {
            if !(t < INFINITY_BITS || t == SIGN_BIT) {
                return Err(Error::InvalidSetting { setting: "theta", reason: reason("must be 0 or more and finite") });
            }
        },
        None => {},
    }
    match check_two_rates(crossover_rate_bits, mutation_rate_bits) {
        Ok(()) => {},
        Err(e) => return Err(e),
    }
    if initial_genomes > size {
        return Err(Error::InvalidSetting {
            setting: "initial_genomes",
            reason: reason_limit_got("at most the", size, " weight vectors", initial_genomes),
        });
    }
    Ok(size)
}

/// Whether the initial genomes of an algorithm fit its permutations: each as many genes.
///
/// # Errors
///
/// [`Error::InvalidGenome`] for the first genome of another length.
pub fn check_genomes(permutation: &Permutation, genomes: &[Order]) -> (r: Result<()>)
    ensures
        r is Ok <==> forall|i: int| 0 <= i < genomes@.len() ==> (#[trigger] genomes@[i])@.len() == permutation.spec_len(),
        r matches Err(e) ==> e is InvalidGenome,
{
    let mut i: usize = 0;
    while i < genomes.len()
        invariant
            i <= genomes@.len(),
            forall|j: int| 0 <= j < i ==> (#[trigger] genomes@[j])@.len() == permutation.spec_len(),
        decreases genomes@.len() - i,
    {
        match permutation.validate(&genomes[i]) {
            Ok(()) => {},
            Err(e) => return Err(e),
        }
        i = i + 1;
    }
    Ok(())
}

} // verus!
