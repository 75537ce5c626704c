//! The survival of NSGA-III without its floating point: which solutions survive, given the
//! niche (reference direction) each feasible solution is associated with and its distance to it.

use super::algorithm::{fronts_that_fit, least_crowded, less_crowded, size_of_first};
use super::pareto::{fits, fronts_of, is_dominance_ranking, lists_fronts, non_dominated_sort};
use super::scores::{dominance, Scores};
use crate::fitness::{Objective, INFINITY_BITS, SIGN_BIT};
use crate::genome::{distinct, holds_value, lemma_covering_len};
use crate::operator::MAX_SIZE;
use crate::rng::{fisher_yates, lemma_fisher_yates_keeps, u64_word, u64_words, RngState, StreamRng};
use vstd::prelude::*;

verus! {

/// The candidates below `k` that aren't picked yet and are associated with niche `n`, ascending.
pub open spec fn niche_members(niches: Seq<usize>, picked: Seq<usize>, n: usize, k: int) -> Seq<usize>
    decreases k,
{
    if k <= 0 {
        Seq::empty()
    } else {
        let before = niche_members(niches, picked, n, k - 1);
        if niches[k - 1] == n && !picked.contains((k - 1) as usize) {
            before.push((k - 1) as usize)
        } else {
            before
        }
    }
}

/// The smallest count among the niches below `k` that still have candidates, if any.
pub open spec fn fewest_count(niches: Seq<usize>, picked: Seq<usize>, counts: Seq<usize>, k: int) -> Option<usize>
    decreases k,
{
    if k <= 0 {
        None
    } else {
        let before = fewest_count(niches, picked, counts, k - 1);
        let open = niche_members(niches, picked, (k - 1) as usize, niches.len() as int).len() > 0;
        if open && match before { Some(c) => counts[k - 1] < c, None => true } {
            Some(counts[k - 1])
        } else {
            before
        }
    }
}

/// The niches below `k` that still have candidates and whose count is `fewest`, ascending.
pub open spec fn least_niches(niches: Seq<usize>, picked: Seq<usize>, counts: Seq<usize>, fewest: usize, k: int) -> Seq<usize>
    decreases k,
{
    if k <= 0 {
        Seq::empty()
    } else {
        let before = least_niches(niches, picked, counts, fewest, k - 1);
        if niche_members(niches, picked, (k - 1) as usize, niches.len() as int).len() > 0 && counts[k - 1] == fewest {
            before.push((k - 1) as usize)
        } else {
            before
        }
    }
}

/// The first of the first `k` members with the smallest distance.
pub open spec fn nearest_of(members: Seq<usize>, distances: Seq<u64>, k: int) -> usize
    decreases k,
{
    if k <= 1 {
        members[0]
    } else {
        let best = nearest_of(members, distances, k - 1);
        if distances[members[k - 1] as int] < distances[best as int] { members[k - 1] } else { best }
    }
}

/// One pick in niche `n`: its candidates left, shuffled; the nearest of them (the first on ties)
/// when the niche holds none yet, and the first of them otherwise. Nothing changes when the niche
/// has no candidate left. The picked candidates, the counts and the generator's state after it.
pub open spec fn pick_one(
    niches: Seq<usize>,
    distances: Seq<u64>,
    picked: Seq<usize>,
    counts: Seq<usize>,
    n: usize,
    state: RngState,
) -> (Seq<usize>, Seq<usize>, RngState) {
    let members = niche_members(niches, picked, n, niches.len() as int);
    if members.len() == 0 {
        (picked, counts, state)
    } else {
        let shuffled = fisher_yates(members, state, members.len());
        let member = if counts[n as int] == 0 {
            nearest_of(shuffled.0, distances, shuffled.0.len() as int)
        } else {
            shuffled.0[0]
        };
        (picked.push(member), counts.update(n as int, (counts[n as int] + 1) as usize), shuffled.1)
    }
}

/// The picks in the first `j` niches of `order`, one after the other.
pub open spec fn pick_in_order(
    niches: Seq<usize>,
    distances: Seq<u64>,
    picked: Seq<usize>,
    counts: Seq<usize>,
    order: Seq<usize>,
    j: int,
    state: RngState,
) -> (Seq<usize>, Seq<usize>, RngState)
    decreases j,
{
    if j <= 0 {
        (picked, counts, state)
    } else {
        let before = pick_in_order(niches, distances, picked, counts, order, j - 1, state);
        pick_one(niches, distances, before.0, before.1, order[j - 1], before.2)
    }
}

/// One round of niching: the niches with candidates left and the fewest members, shuffled, and a
/// pick in each of them in that order, as long as picks are needed (`remaining` in all).
pub open spec fn niche_round(
    niches: Seq<usize>,
    distances: Seq<u64>,
    picked: Seq<usize>,
    counts: Seq<usize>,
    remaining: int,
    state: RngState,
) -> (Seq<usize>, Seq<usize>, RngState) {
    match fewest_count(niches, picked, counts, counts.len() as int) {
        None => (picked, counts, state),
        Some(fewest) => {
            let least = least_niches(niches, picked, counts, fewest, counts.len() as int);
            let shuffled = fisher_yates(least, state, least.len());
            let t = if least.len() < remaining - picked.len() { least.len() as int } else { remaining - picked.len() };
            pick_in_order(niches, distances, picked, counts, shuffled.0, t, shuffled.1)
        },
    }
}

/// Rounds of niching until `remaining` candidates are picked, at most `rounds` of them (each
/// round picks at least one while candidates are left).
pub open spec fn niching_from(
    niches: Seq<usize>,
    distances: Seq<u64>,
    picked: Seq<usize>,
    counts: Seq<usize>,
    remaining: int,
    state: RngState,
    rounds: nat,
) -> (Seq<usize>, Seq<usize>, RngState)
    decreases rounds,
{
    if rounds == 0 || picked.len() >= remaining {
        (picked, counts, state)
    } else {
        let next = niche_round(niches, distances, picked, counts, remaining, state);
        niching_from(niches, distances, next.0, next.1, remaining, next.2, (rounds - 1) as nat)
    }
}

proof fn lemma_niche_members_below(niches: Seq<usize>, picked: Seq<usize>, n: usize, k: int)
    requires
        0 <= k <= niches.len(),
    ensures
        forall|i: int| 0 <= i < niche_members(niches, picked, n, k).len()
            ==> (#[trigger] niche_members(niches, picked, n, k)[i] as int) < k,
    decreases k,
{
    if k > 0 {
        lemma_niche_members_below(niches, picked, n, k - 1);
        let before = niche_members(niches, picked, n, k - 1);
        let now = niche_members(niches, picked, n, k);
        assert forall|i: int| 0 <= i < now.len() implies (#[trigger] now[i] as int) < k by {
            if i < before.len() {
                assert(now[i] == before[i]);
            }
        }
    }
}

proof fn lemma_nearest_of_is_a_member(members: Seq<usize>, distances: Seq<u64>, k: int)
    requires
        1 <= k <= members.len(),
    ensures
        members.contains(nearest_of(members, distances, k)),
    decreases k,
{
    if k > 1 {
        lemma_nearest_of_is_a_member(members, distances, k - 1);
    } else {
        assert(members[0] == members[0]);
    }
}

proof fn lemma_members_hold(niches: Seq<usize>, picked: Seq<usize>, c: int, k: int)
    requires
        0 <= c < k <= niches.len(),
        !picked.contains(c as usize),
    ensures
        niche_members(niches, picked, niches[c], k).len() > 0,
    decreases k,
{
    if k - 1 > c {
        lemma_members_hold(niches, picked, c, k - 1);
    }
}

proof fn lemma_fewest_found(niches: Seq<usize>, picked: Seq<usize>, counts: Seq<usize>, k: int, n: int)
    requires
        0 <= n < k <= counts.len(),
        niche_members(niches, picked, n as usize, niches.len() as int).len() > 0,
    ensures
        fewest_count(niches, picked, counts, k) is Some,
        exists|m: int| 0 <= m < k && niche_members(niches, picked, m as usize, niches.len() as int).len() > 0
            && counts[m] == #[trigger] fewest_count(niches, picked, counts, k)->0,
    decreases k,
{
    if n < k - 1 {
        lemma_fewest_found(niches, picked, counts, k - 1, n);
        let m = choose|m: int| 0 <= m < k - 1 && niche_members(niches, picked, m as usize, niches.len() as int).len() > 0
            && counts[m] == #[trigger] fewest_count(niches, picked, counts, k - 1)->0;
        if fewest_count(niches, picked, counts, k) != fewest_count(niches, picked, counts, k - 1) {
            assert(counts[k - 1] == fewest_count(niches, picked, counts, k)->0);
        }
    } else {
        let before = fewest_count(niches, picked, counts, k - 1);
        if before is Some {
            if fewest_count(niches, picked, counts, k) == before {
                assert(!(counts[k - 1] < before->0));
                lemma_fewest_witness(niches, picked, counts, k - 1);
                let m = choose|m: int| 0 <= m < k - 1 && niche_members(niches, picked, m as usize, niches.len() as int).len() > 0
                    && counts[m] == #[trigger] fewest_count(niches, picked, counts, k - 1)->0;
            }
        }
    }
}

proof fn lemma_fewest_witness(niches: Seq<usize>, picked: Seq<usize>, counts: Seq<usize>, k: int)
    requires
        0 <= k <= counts.len(),
        fewest_count(niches, picked, counts, k) is Some,
    ensures
        exists|m: int| 0 <= m < k && niche_members(niches, picked, m as usize, niches.len() as int).len() > 0
            && counts[m] == #[trigger] fewest_count(niches, picked, counts, k)->0,
    decreases k,
{
    if k > 0 {
        let before = fewest_count(niches, picked, counts, k - 1);
        if fewest_count(niches, picked, counts, k) == before {
            lemma_fewest_witness(niches, picked, counts, k - 1);
            let m = choose|m: int| 0 <= m < k - 1 && niche_members(niches, picked, m as usize, niches.len() as int).len() > 0
                && counts[m] == #[trigger] fewest_count(niches, picked, counts, k - 1)->0;
        } else {
            assert(counts[k - 1] == fewest_count(niches, picked, counts, k)->0);
        }
    }
}

proof fn lemma_least_found(niches: Seq<usize>, picked: Seq<usize>, counts: Seq<usize>, fewest: usize, k: int, n: int)
    requires
        0 <= n < k <= counts.len(),
        niche_members(niches, picked, n as usize, niches.len() as int).len() > 0,
        counts[n] == fewest,
    ensures
        least_niches(niches, picked, counts, fewest, k).len() > 0,
    decreases k,
{
    if n < k - 1 {
        lemma_least_found(niches, picked, counts, fewest, k - 1, n);
    }
}

proof fn lemma_least_open(niches: Seq<usize>, picked: Seq<usize>, counts: Seq<usize>, fewest: usize, k: int)
    requires
        0 <= k <= counts.len(),
        counts.len() <= usize::MAX,
    ensures
        forall|i: int| 0 <= i < least_niches(niches, picked, counts, fewest, k).len() ==>
            niche_members(niches, picked, #[trigger] least_niches(niches, picked, counts, fewest, k)[i], niches.len() as int).len() > 0
            && (least_niches(niches, picked, counts, fewest, k)[i] as int) < k
            && counts[least_niches(niches, picked, counts, fewest, k)[i] as int] == fewest,
        least_niches(niches, picked, counts, fewest, k).len() <= k,
        distinct(least_niches(niches, picked, counts, fewest, k)),
    decreases k,
{
    if k > 0 {
        lemma_least_open(niches, picked, counts, fewest, k - 1);
        let before = least_niches(niches, picked, counts, fewest, k - 1);
        let now = least_niches(niches, picked, counts, fewest, k);
        assert forall|i: int| 0 <= i < now.len() implies
            niche_members(niches, picked, #[trigger] now[i], niches.len() as int).len() > 0 && (now[i] as int) < k
            && counts[now[i] as int] == fewest by {
            if i < before.len() {
                assert(now[i] == before[i]);
            } else {
                assert(now[i] == (k - 1) as usize);
            }
        }
        assert forall|i: int, j: int| 0 <= i < j < now.len() implies #[trigger] now[i] != #[trigger] now[j] by {
            if j < before.len() {
                assert(now[i] == before[i] && now[j] == before[j]);
            } else {
                assert(now[i] == before[i]);
                assert(now[j] == (k - 1) as usize);
                assert((before[i] as int) < k - 1);
            }
        }
    }
}

proof fn lemma_members_open(niches: Seq<usize>, picked: Seq<usize>, n: usize, k: int)
    requires
        0 <= k <= niches.len(),
        niches.len() <= usize::MAX,
    ensures
        forall|x: usize| #[trigger] niche_members(niches, picked, n, k).contains(x) ==> !picked.contains(x) && (x as int) < k
            && niches[x as int] == n,
        niche_members(niches, picked, n, k).len() <= k,
    decreases k,
{
    if k > 0 {
        lemma_members_open(niches, picked, n, k - 1);
        let before = niche_members(niches, picked, n, k - 1);
        let now = niche_members(niches, picked, n, k);
        assert forall|x: usize| #[trigger] now.contains(x) implies !picked.contains(x) && (x as int) < k && niches[x as int] == n by {
            let w = choose|w: int| 0 <= w < now.len() && now[w] == x;
            if w < before.len() {
                assert(before[w] == x);
                assert(before.contains(x));
            } else {
                assert(x == (k - 1) as usize);
            }
        }
    }
}

// a pick keeps the counts' length, never drops a pick, adds at most one candidate, one not
// picked yet, and adds one when the niche has candidates left
proof fn lemma_pick_one_grows(niches: Seq<usize>, distances: Seq<u64>, picked: Seq<usize>, counts: Seq<usize>, n: usize, state: RngState)
    requires
        (n as int) < counts.len(),
        niches.len() <= usize::MAX,
    ensures
        ({
            let next = pick_one(niches, distances, picked, counts, n, state);
            &&& next.1.len() == counts.len()
            &&& next.0.len() <= picked.len() + 1
            &&& next.0.take(picked.len() as int) == picked
            &&& next.0.len() > picked.len() ==> (next.0.last() as int) < niches.len() && !picked.contains(next.0.last())
            &&& niche_members(niches, picked, n, niches.len() as int).len() > 0 ==> next.0.len() == picked.len() + 1
        }),
{
    let members = niche_members(niches, picked, n, niches.len() as int);
    if members.len() > 0 {
        lemma_members_open(niches, picked, n, niches.len() as int);
        lemma_fisher_yates_keeps(members, state, members.len());
        let shuffled = fisher_yates(members, state, members.len());
        let member = if counts[n as int] == 0 {
            nearest_of(shuffled.0, distances, shuffled.0.len() as int)
        } else {
            shuffled.0[0]
        };
        if counts[n as int] == 0 {
            lemma_nearest_of_is_a_member(shuffled.0, distances, shuffled.0.len() as int);
        } else {
            assert(shuffled.0.contains(shuffled.0[0]));
        }
        assert(members.contains(member));
        assert(picked.push(member).take(picked.len() as int) =~= picked);
    } else {
        assert(picked.take(picked.len() as int) =~= picked);
    }
}

proof fn lemma_pick_in_order_grows(
    niches: Seq<usize>,
    distances: Seq<u64>,
    picked: Seq<usize>,
    counts: Seq<usize>,
    order: Seq<usize>,
    j: int,
    state: RngState,
)
    requires
        0 <= j <= order.len(),
        forall|i: int| 0 <= i < order.len() ==> (#[trigger] order[i] as int) < counts.len(),
        niches.len() <= usize::MAX,
        forall|i: int| 0 <= i < picked.len() ==> (#[trigger] picked[i] as int) < niches.len(),
    ensures
        ({
            let r = pick_in_order(niches, distances, picked, counts, order, j, state);
            &&& r.1.len() == counts.len()
            &&& picked.len() <= r.0.len() <= picked.len() + j
            &&& r.0.take(picked.len() as int) == picked
            &&& forall|i: int| 0 <= i < r.0.len() ==> (#[trigger] r.0[i] as int) < niches.len()
            &&& j >= 1 && niche_members(niches, picked, order[0], niches.len() as int).len() > 0
                ==> r.0.len() >= picked.len() + 1
        }),
    decreases j,
{
    if j > 0 {
        lemma_pick_in_order_grows(niches, distances, picked, counts, order, j - 1, state);
        let before = pick_in_order(niches, distances, picked, counts, order, j - 1, state);
        lemma_pick_one_grows(niches, distances, before.0, before.1, order[j - 1], before.2);
        let r = pick_in_order(niches, distances, picked, counts, order, j, state);
        assert(r.0.take(picked.len() as int) =~= r.0.take(before.0.len() as int).take(picked.len() as int));
        assert forall|i: int| 0 <= i < r.0.len() implies (#[trigger] r.0[i] as int) < niches.len() by {
            if i < before.0.len() {
                assert(r.0[i] == r.0.take(before.0.len() as int)[i]);
            } else {
                assert(r.0[i] == r.0.last());
            }
        }
        if j == 1 {
            assert(before.0 == picked);
        }
    }
}

proof fn lemma_round_grows(niches: Seq<usize>, distances: Seq<u64>, picked: Seq<usize>, counts: Seq<usize>, remaining: int, state: RngState)
    requires
        picked.len() < remaining <= niches.len(),
        niches.len() <= usize::MAX,
        counts.len() <= usize::MAX,
        forall|c: int| 0 <= c < niches.len() ==> (#[trigger] niches[c] as int) < counts.len(),
        forall|i: int| 0 <= i < picked.len() ==> (#[trigger] picked[i] as int) < niches.len(),
    ensures
        ({
            let next = niche_round(niches, distances, picked, counts, remaining, state);
            &&& picked.len() < next.0.len() <= remaining
            &&& next.1.len() == counts.len()
            &&& forall|i: int| 0 <= i < next.0.len() ==> (#[trigger] next.0[i] as int) < niches.len()
        }),
{
    let l = niches.len() as int;
    // a candidate is left
    if forall|v: int| 0 <= v < l ==> #[trigger] holds_value(picked, v) {
        lemma_covering_len(picked, l);
    }
    let c = choose|v: int| 0 <= v < l && !#[trigger] holds_value(picked, v);
    assert(!picked.contains(c as usize)) by {
        if picked.contains(c as usize) {
            let w = choose|w: int| 0 <= w < picked.len() && picked[w] == c as usize;
            assert(holds_value(picked, c));
        }
    }
    lemma_members_hold(niches, picked, c, l);
    let n = niches[c] as int;
    let k = counts.len() as int;
    lemma_fewest_found(niches, picked, counts, k, n);
    let fewest = fewest_count(niches, picked, counts, k)->0;
    let m = choose|m: int| 0 <= m < k && niche_members(niches, picked, m as usize, l).len() > 0
        && counts[m] == #[trigger] fewest_count(niches, picked, counts, k)->0;
    lemma_least_found(niches, picked, counts, fewest, k, m);
    lemma_least_open(niches, picked, counts, fewest, k);
    let least = least_niches(niches, picked, counts, fewest, k);
    lemma_fisher_yates_keeps(least, state, least.len());
    let shuffled = fisher_yates(least, state, least.len());
    assert forall|i: int| 0 <= i < shuffled.0.len() implies (#[trigger] shuffled.0[i] as int) < counts.len() by {
        assert(shuffled.0.contains(shuffled.0[i]));
        let w = choose|w: int| 0 <= w < least.len() && least[w] == shuffled.0[i];
    }
    assert(shuffled.0.contains(shuffled.0[0]));
    let w = choose|w: int| 0 <= w < least.len() && least[w] == shuffled.0[0];
    assert(niche_members(niches, picked, shuffled.0[0], l).len() > 0);
    let t = if least.len() < remaining - picked.len() { least.len() as int } else { remaining - picked.len() };
    lemma_pick_in_order_grows(niches, distances, picked, counts, shuffled.0, t, shuffled.1);
}

proof fn lemma_niching_fills(
    niches: Seq<usize>,
    distances: Seq<u64>,
    picked: Seq<usize>,
    counts: Seq<usize>,
    remaining: int,
    state: RngState,
    rounds: nat,
)
    requires
        picked.len() <= remaining <= niches.len(),
        rounds >= remaining - picked.len(),
        niches.len() <= usize::MAX,
        counts.len() <= usize::MAX,
        forall|c: int| 0 <= c < niches.len() ==> (#[trigger] niches[c] as int) < counts.len(),
        forall|i: int| 0 <= i < picked.len() ==> (#[trigger] picked[i] as int) < niches.len(),
    ensures
        niching_from(niches, distances, picked, counts, remaining, state, rounds).0.len() == remaining,
    decreases rounds,
{
    if rounds > 0 && picked.len() < remaining {
        lemma_round_grows(niches, distances, picked, counts, remaining, state);
        let next = niche_round(niches, distances, picked, counts, remaining, state);
        lemma_niching_fills(niches, distances, next.0, next.1, remaining, next.2, (rounds - 1) as nat);
    }
}

/// How many of `picks` carry the label `n`, `labels[x]` being the label of `x`.
pub open spec fn occurrences(labels: Seq<usize>, picks: Seq<usize>, n: usize) -> nat
    decreases picks.len(),
{
    if picks.len() == 0 {
        0
    } else {
        occurrences(labels, picks.drop_last(), n) + (if labels[picks.last() as int] == n { 1nat } else { 0nat })
    }
}

/// Whether pick `p` of `picks` keeps the niches balanced: counting the members a niche starts
/// with (`counts`) and the picks before `p`, the niche it picks from holds no more members than
/// the niche of any candidate still open.
pub open spec fn balanced_pick(niches: Seq<usize>, counts: Seq<usize>, picks: Seq<usize>, p: int) -> bool {
    let before = picks.take(p);
    let n = niches[picks[p] as int];
    forall|c: int| 0 <= c < niches.len() && !before.contains(c as usize) ==>
        counts[n as int] + occurrences(niches, before, n)
            <= counts[niches[c] as int] + occurrences(niches, before, #[trigger] niches[c])
}

/// Whether pick `p` of `picks` is, when its niche holds no member yet (counting the members it
/// starts with, `counts`, and the picks before `p`), the nearest of the candidates of that niche
/// still open: none of them has a smaller distance (distances as bits, compared as integers).
pub open spec fn nearest_when_empty(niches: Seq<usize>, distances: Seq<u64>, counts: Seq<usize>, picks: Seq<usize>, p: int) -> bool {
    let before = picks.take(p);
    let n = niches[picks[p] as int];
    counts[n as int] + occurrences(niches, before, n) == 0 ==>
        forall|c: int| 0 <= c < niches.len() && !before.contains(c as usize) && niches[c] == n
            ==> distances[picks[p] as int] <= #[trigger] distances[c]
}

proof fn lemma_nearest_of_least(members: Seq<usize>, distances: Seq<u64>, k: int)
    requires
        1 <= k <= members.len(),
    ensures
        forall|i: int| 0 <= i < k ==> distances[nearest_of(members, distances, k) as int] <= #[trigger] distances[members[i] as int],
    decreases k,
{
    if k > 1 {
        lemma_nearest_of_least(members, distances, k - 1);
    }
}

proof fn lemma_members_contain(niches: Seq<usize>, picked: Seq<usize>, c: int, k: int)
    requires
        0 <= c < k <= niches.len(),
        niches.len() <= usize::MAX,
        !picked.contains(c as usize),
    ensures
        niche_members(niches, picked, niches[c], k).contains(c as usize),
    decreases k,
{
    if k - 1 > c {
        lemma_members_contain(niches, picked, c, k - 1);
        let before = niche_members(niches, picked, niches[c], k - 1);
        let w = choose|w: int| 0 <= w < before.len() && before[w] == c as usize;
        assert(niche_members(niches, picked, niches[c], k)[w] == c as usize);
    } else {
        let now = niche_members(niches, picked, niches[c], k);
        assert(now[now.len() - 1] == c as usize);
    }
}

proof fn lemma_occurrences_push(labels: Seq<usize>, picks: Seq<usize>, m: usize, n: usize)
    ensures
        occurrences(labels, picks.push(m), n) == occurrences(labels, picks, n) + (if labels[m as int] == n { 1nat } else { 0nat }),
{
    assert(picks.push(m).drop_last() =~= picks);
}

proof fn lemma_occurrences_len(labels: Seq<usize>, picks: Seq<usize>, n: usize)
    ensures
        occurrences(labels, picks, n) <= picks.len(),
    decreases picks.len(),
{
    if picks.len() > 0 {
        lemma_occurrences_len(labels, picks.drop_last(), n);
    }
}

// the counts are the initial counts plus the picks from each niche, and every pick so far is
// balanced
spec fn tallied(niches: Seq<usize>, distances: Seq<u64>, initial: Seq<usize>, picked: Seq<usize>, counts: Seq<usize>) -> bool {
    &&& counts.len() == initial.len()
    &&& forall|n: int| 0 <= n < counts.len() ==> #[trigger] counts[n] == initial[n] + occurrences(niches, picked, n as usize)
    &&& forall|i: int| 0 <= i < picked.len() ==> (#[trigger] picked[i] as int) < niches.len()
    &&& forall|p: int| 0 <= p < picked.len() ==> #[trigger] balanced_pick(niches, initial, picked, p)
    &&& forall|p: int| 0 <= p < picked.len() ==> !picked.take(p).contains(#[trigger] picked[p])
    &&& forall|p: int| 0 <= p < picked.len() ==> #[trigger] nearest_when_empty(niches, distances, initial, picked, p)
}

proof fn lemma_fewest_min(niches: Seq<usize>, picked: Seq<usize>, counts: Seq<usize>, k: int)
    requires
        0 <= k <= counts.len(),
    ensures
        forall|m: int| 0 <= m < k && #[trigger] niche_members(niches, picked, m as usize, niches.len() as int).len() > 0
            ==> fewest_count(niches, picked, counts, k) is Some && fewest_count(niches, picked, counts, k)->0 <= counts[m],
    decreases k,
{
    if k > 0 {
        lemma_fewest_min(niches, picked, counts, k - 1);
    }
}

proof fn lemma_pick_one_balanced(
    niches: Seq<usize>,
    distances: Seq<u64>,
    initial: Seq<usize>,
    picked: Seq<usize>,
    counts: Seq<usize>,
    n: usize,
    state: RngState,
    fewest: usize,
    bound: int,
)
    requires
        tallied(niches, distances, initial, picked, counts),
        niches.len() <= usize::MAX,
        counts.len() <= usize::MAX,
        forall|c: int| 0 <= c < niches.len() ==> (#[trigger] niches[c] as int) < counts.len(),
        (n as int) < counts.len(),
        counts[n as int] == fewest,
        forall|c: int| 0 <= c < niches.len() && !picked.contains(c as usize) ==> counts[#[trigger] niches[c] as int] >= fewest,
        picked.len() < bound,
        forall|m: int| 0 <= m < initial.len() ==> #[trigger] initial[m] + bound < usize::MAX,
    ensures
        ({
            let next = pick_one(niches, distances, picked, counts, n, state);
            &&& tallied(niches, distances, initial, next.0, next.1)
            &&& next.0.len() <= picked.len() + 1
            &&& next.0.take(picked.len() as int) == picked
            &&& forall|m: int| 0 <= m < counts.len() ==> #[trigger] next.1[m] >= counts[m] && (m != n ==> next.1[m] == counts[m])
        }),
{
    let l = niches.len() as int;
    let members = niche_members(niches, picked, n, l);
    if members.len() == 0 {
        assert(picked.take(picked.len() as int) =~= picked);
        return;
    }
    lemma_members_open(niches, picked, n, l);
    lemma_fisher_yates_keeps(members, state, members.len());
    let shuffled = fisher_yates(members, state, members.len());
    let member = if counts[n as int] == 0 {
        nearest_of(shuffled.0, distances, shuffled.0.len() as int)
    } else {
        shuffled.0[0]
    };
    if counts[n as int] == 0 {
        lemma_nearest_of_is_a_member(shuffled.0, distances, shuffled.0.len() as int);
    } else {
        assert(shuffled.0.contains(shuffled.0[0]));
    }
    assert(members.contains(member));
    assert(!picked.contains(member) && (member as int) < l && niches[member as int] == n);
    let after = picked.push(member);
    let next_counts = counts.update(n as int, (counts[n as int] + 1) as usize);
    lemma_occurrences_len(niches, picked, n);
    assert(counts[n as int] + 1 < usize::MAX);
    assert forall|m: int| 0 <= m < next_counts.len() implies #[trigger] next_counts[m] == initial[m] + occurrences(niches, after, m as usize) by {
        lemma_occurrences_push(niches, picked, member, m as usize);
    }
    assert forall|i: int| 0 <= i < after.len() implies (#[trigger] after[i] as int) < l by {
        if i < picked.len() {
            assert(after[i] == picked[i]);
        }
    }
    assert forall|p: int| 0 <= p < after.len() implies #[trigger] balanced_pick(niches, initial, after, p) by {
        if p < picked.len() {
            assert(after.take(p) =~= picked.take(p));
            assert(after[p] == picked[p]);
            assert(balanced_pick(niches, initial, picked, p));
        } else {
            assert(after.take(p) =~= picked);
            assert(after[p] == member);
            assert forall|c: int| 0 <= c < l && !picked.contains(c as usize) implies
                initial[n as int] + occurrences(niches, picked, n)
                    <= initial[niches[c] as int] + occurrences(niches, picked, #[trigger] niches[c]) by {
                assert(counts[niches[c] as int] >= fewest);
                assert(counts[niches[c] as int] == initial[niches[c] as int] + occurrences(niches, picked, niches[c]));
                assert(counts[n as int] == initial[n as int] + occurrences(niches, picked, n));
            }
        }
    }
    assert forall|p: int| 0 <= p < after.len() implies #[trigger] nearest_when_empty(niches, distances, initial, after, p) by {
        if p < picked.len() {
            assert(after.take(p) =~= picked.take(p));
            assert(after[p] == picked[p]);
            assert(nearest_when_empty(niches, distances, initial, picked, p));
        } else {
            assert(after.take(p) =~= picked);
            assert(after[p] == member);
            if initial[n as int] + occurrences(niches, picked, n) == 0 {
                assert(counts[n as int] == 0);
                lemma_nearest_of_least(shuffled.0, distances, shuffled.0.len() as int);
                assert forall|c: int| 0 <= c < l && !picked.contains(c as usize) && niches[c] == n
                    implies distances[member as int] <= #[trigger] distances[c] by {
                    lemma_members_contain(niches, picked, c, l);
                    assert(shuffled.0.contains(c as usize));
                    let i = choose|i: int| 0 <= i < shuffled.0.len() && shuffled.0[i] == c as usize;
                    assert(distances[member as int] <= distances[shuffled.0[i] as int]);
                }
            }
        }
    }
    assert forall|p: int| 0 <= p < after.len() implies !after.take(p).contains(#[trigger] after[p]) by {
        if p < picked.len() {
            assert(after.take(p) =~= picked.take(p));
            assert(after[p] == picked[p]);
        } else {
            assert(after.take(p) =~= picked);
        }
    }
    assert(after.take(picked.len() as int) =~= picked);
}

proof fn lemma_pick_in_order_balanced(
    niches: Seq<usize>,
    distances: Seq<u64>,
    initial: Seq<usize>,
    picked: Seq<usize>,
    counts: Seq<usize>,
    order: Seq<usize>,
    j: int,
    state: RngState,
    fewest: usize,
    bound: int,
)
    requires
        tallied(niches, distances, initial, picked, counts),
        niches.len() <= usize::MAX,
        counts.len() <= usize::MAX,
        forall|c: int| 0 <= c < niches.len() ==> (#[trigger] niches[c] as int) < counts.len(),
        0 <= j <= order.len(),
        distinct(order),
        forall|i: int| 0 <= i < order.len() ==> (#[trigger] order[i] as int) < counts.len() && counts[order[i] as int] == fewest,
        forall|c: int| 0 <= c < niches.len() && !picked.contains(c as usize) ==> counts[#[trigger] niches[c] as int] >= fewest,
        picked.len() + j <= bound,
        forall|m: int| 0 <= m < initial.len() ==> #[trigger] initial[m] + bound < usize::MAX,
    ensures
        ({
            let r = pick_in_order(niches, distances, picked, counts, order, j, state);
            &&& tallied(niches, distances, initial, r.0, r.1)
            &&& r.0.take(picked.len() as int) == picked
            &&& picked.len() <= r.0.len() <= picked.len() + j
            &&& forall|m: int| 0 <= m < counts.len() ==> #[trigger] r.1[m] >= counts[m]
                && (!order.take(j).contains(m as usize) ==> r.1[m] == counts[m])
        }),
    decreases j,
{
    if j == 0 {
        assert(picked.take(picked.len() as int) =~= picked);
        return;
    }
    lemma_pick_in_order_balanced(niches, distances, initial, picked, counts, order, j - 1, state, fewest, bound);
    let before = pick_in_order(niches, distances, picked, counts, order, j - 1, state);
    let n = order[j - 1];
    assert(!order.take(j - 1).contains(n)) by {
        if order.take(j - 1).contains(n) {
            let w = choose|w: int| 0 <= w < j - 1 && #[trigger] order.take(j - 1)[w] == n;
            assert(order[w] == order[j - 1]);
        }
    }
    assert(before.1[n as int] == fewest);
    assert forall|c: int| 0 <= c < niches.len() && !before.0.contains(c as usize) implies before.1[#[trigger] niches[c] as int] >= fewest by {
        if picked.contains(c as usize) {
            let w = choose|w: int| 0 <= w < picked.len() && picked[w] == c as usize;
            assert(before.0.take(picked.len() as int)[w] == c as usize);
            assert(before.0[w] == c as usize);
        }
        assert(counts[niches[c] as int] >= fewest);
    }
    lemma_pick_one_balanced(niches, distances, initial, before.0, before.1, n, before.2, fewest, bound);
    let r = pick_in_order(niches, distances, picked, counts, order, j, state);
    assert(r.0.take(picked.len() as int) =~= r.0.take(before.0.len() as int).take(picked.len() as int));
    assert forall|m: int| 0 <= m < counts.len() implies #[trigger] r.1[m] >= counts[m]
        && (!order.take(j).contains(m as usize) ==> r.1[m] == counts[m]) by {
        if !order.take(j).contains(m as usize) {
            assert(order.take(j)[j - 1] == n);
            if order.take(j - 1).contains(m as usize) {
                let w = choose|w: int| 0 <= w < j - 1 && #[trigger] order.take(j - 1)[w] == m as usize;
                assert(order.take(j)[w] == m as usize);
            }
        }
    }
}

proof fn lemma_round_balanced(
    niches: Seq<usize>,
    distances: Seq<u64>,
    initial: Seq<usize>,
    picked: Seq<usize>,
    counts: Seq<usize>,
    remaining: int,
    state: RngState,
)
    requires
        tallied(niches, distances, initial, picked, counts),
        picked.len() <= remaining,
        niches.len() <= usize::MAX,
        counts.len() <= usize::MAX,
        forall|c: int| 0 <= c < niches.len() ==> (#[trigger] niches[c] as int) < counts.len(),
        forall|m: int| 0 <= m < initial.len() ==> #[trigger] initial[m] + remaining < usize::MAX,
    ensures
        ({
            let next = niche_round(niches, distances, picked, counts, remaining, state);
            &&& tallied(niches, distances, initial, next.0, next.1)
            &&& next.0.len() <= remaining
        }),
{
    let k = counts.len() as int;
    let l = niches.len() as int;
    match fewest_count(niches, picked, counts, k) {
        None => {},
        Some(fewest) => {
            lemma_least_open(niches, picked, counts, fewest, k);
            let least = least_niches(niches, picked, counts, fewest, k);
            lemma_fisher_yates_keeps(least, state, least.len());
            let shuffled = fisher_yates(least, state, least.len());
            assert forall|i: int| 0 <= i < shuffled.0.len() implies (#[trigger] shuffled.0[i] as int) < counts.len()
                && counts[shuffled.0[i] as int] == fewest by {
                assert(shuffled.0.contains(shuffled.0[i]));
                let w = choose|w: int| 0 <= w < least.len() && least[w] == shuffled.0[i];
            }
            lemma_fewest_min(niches, picked, counts, k);
            assert forall|c: int| 0 <= c < l && !picked.contains(c as usize) implies counts[#[trigger] niches[c] as int] >= fewest by {
                lemma_members_hold(niches, picked, c, l);
                assert(niche_members(niches, picked, niches[c] as int as usize, l).len() > 0);
            }
            let t = if least.len() < remaining - picked.len() { least.len() as int } else { remaining - picked.len() };
            lemma_pick_in_order_balanced(niches, distances, initial, picked, counts, shuffled.0, t, shuffled.1, fewest, remaining);
        },
    }
}

proof fn lemma_niching_balanced(
    niches: Seq<usize>,
    distances: Seq<u64>,
    initial: Seq<usize>,
    picked: Seq<usize>,
    counts: Seq<usize>,
    remaining: int,
    state: RngState,
    rounds: nat,
)
    requires
        tallied(niches, distances, initial, picked, counts),
        picked.len() <= remaining,
        niches.len() <= usize::MAX,
        counts.len() <= usize::MAX,
        forall|c: int| 0 <= c < niches.len() ==> (#[trigger] niches[c] as int) < counts.len(),
        forall|m: int| 0 <= m < initial.len() ==> #[trigger] initial[m] + remaining < usize::MAX,
    ensures
        ({
            let r = niching_from(niches, distances, picked, counts, remaining, state, rounds);
            tallied(niches, distances, initial, r.0, r.1)
        }),
    decreases rounds,
{
    if rounds > 0 && picked.len() < remaining {
        lemma_round_balanced(niches, distances, initial, picked, counts, remaining, state);
        let next = niche_round(niches, distances, picked, counts, remaining, state);
        lemma_niching_balanced(niches, distances, initial, next.0, next.1, remaining, next.2, (rounds - 1) as nat);
    }
}

// whether `x` is among `v`
fn holds(v: &Vec<usize>, x: usize) -> (r: bool)
    ensures
        r == v@.contains(x),
{
    let mut i: usize = 0;
    while i < v.len()
        invariant
            i <= v@.len(),
            forall|j: int| 0 <= j < i ==> v@[j] != x,
        decreases v@.len() - i,
    {
        if v[i] == x {
            assert(v@[i as int] == x);
            return true;
        }
        i = i + 1;
    }
    false
}

// the candidates left in niche `n`, ascending
fn members_of(niches: &[usize], picked: &Vec<usize>, n: usize) -> (r: Vec<usize>)
    ensures
        r@ == niche_members(niches@, picked@, n, niches@.len() as int),
{
    let mut r: Vec<usize> = Vec::new();
    let mut c: usize = 0;
    while c < niches.len()
        invariant
            c <= niches@.len(),
            r@ == niche_members(niches@, picked@, n, c as int),
        decreases niches@.len() - c,
    {
        if niches[c] == n && !holds(picked, c) {
            r.push(c);
        }
        c = c + 1;
    }
    r
}

// a pick in niche `n`
fn pick(niches: &[usize], distances: &[u64], picked: &mut Vec<usize>, counts: &mut Vec<usize>, n: usize, rng: &mut StreamRng)
    requires
        niches@.len() == distances@.len(),
        n < old(counts)@.len(),
        old(counts)@[n as int] < usize::MAX,
    ensures
        (final(picked)@, final(counts)@, final(rng)@) == pick_one(niches@, distances@, old(picked)@, old(counts)@, n, old(rng)@),
        (forall|i: int| 0 <= i < old(picked)@.len() ==> (#[trigger] old(picked)@[i] as int) < niches@.len())
            ==> forall|i: int| 0 <= i < final(picked)@.len() ==> (#[trigger] final(picked)@[i] as int) < niches@.len(),
{
    let mut members = members_of(niches, picked, n);
    if members.len() == 0 {
        return;
    }
    let ghost before = members@;
    proof {
        lemma_niche_members_below(niches@, picked@, n, niches@.len() as int);
        lemma_fisher_yates_keeps(before, rng@, before.len());
    }
    rng.shuffle(&mut members);
    let member = if counts[n] == 0 {
        let mut best = members[0];
        let mut i: usize = 1;
        while i < members.len()
            invariant
                1 <= i <= members@.len(),
                members@.len() == before.len(),
                forall|v: usize| #[trigger] members@.contains(v) ==> before.contains(v),
                forall|j: int| 0 <= j < before.len() ==> (#[trigger] before[j] as int) < distances@.len(),
                best == nearest_of(members@, distances@, i as int),
            decreases members@.len() - i,
        {
            assert(members@.contains(members@[i as int]));
            proof {
                lemma_nearest_of_is_a_member(members@, distances@, i as int);
                let w = choose|w: int| 0 <= w < before.len() && before[w] == members@[i as int];
                let b = choose|b: int| 0 <= b < before.len() && before[b] == best;
            }
            if distances[members[i]] < distances[best] {
                best = members[i];
            }
            i = i + 1;
        }
        best
    } else {
        members[0]
    };
    proof {
        assert(members@.contains(member)) by {
            if counts[n as int] == 0 {
                lemma_nearest_of_is_a_member(members@, distances@, members@.len() as int);
            } else {
                assert(members@[0] == member);
            }
        }
        let w = choose|w: int| 0 <= w < before.len() && before[w] == member;
    }
    let ghost old_picked = picked@;
    picked.push(member);
    proof {
        assert forall|i: int| 0 <= i < old_picked.len() implies picked@[i] == old_picked[i] by {}
    }
    let count = counts[n];
    counts.set(n, count + 1);
}

/// Picks `remaining` candidates by niching, as NSGA-III completes its population from the front
/// that doesn't fit whole ([`niching_from`]; `remaining` rounds are enough, each picks at least
/// one while candidates are left, so as many are picked as candidates allow). Candidate `c` is
/// associated with niche `niches[c]` at the distance with bits `distances[c]` (compared as
/// integers: the order of non-negative distances); `counts[n]` is the number of survivors
/// already associated with niche `n`. The picked candidates, in the order they were picked.
pub fn niching(niches: &[usize], distances: &[u64], counts: Vec<usize>, remaining: usize, rng: &mut StreamRng) -> (r: Vec<usize>)
    requires
        niches@.len() == distances@.len(),
        forall|c: int| 0 <= c < niches@.len() ==> (#[trigger] niches@[c] as int) < counts@.len(),
        forall|n: int| 0 <= n < counts@.len() ==> #[trigger] counts@[n] + remaining < usize::MAX,
    ensures
        r@ == niching_from(niches@, distances@, Seq::empty(), counts@, remaining as int, old(rng)@, remaining as nat).0,
        forall|i: int| 0 <= i < r@.len() ==> (#[trigger] r@[i] as int) < niches@.len(),
        final(rng)@ == niching_from(niches@, distances@, Seq::empty(), counts@, remaining as int, old(rng)@, remaining as nat).2,
        remaining <= niches@.len() ==> r@.len() == remaining,
        forall|p: int| 0 <= p < r@.len() ==> !r@.take(p).contains(#[trigger] r@[p]),
        forall|p: int| 0 <= p < r@.len() ==> #[trigger] balanced_pick(niches@, counts@, r@, p),
        forall|p: int| 0 <= p < r@.len() ==> #[trigger] nearest_when_empty(niches@, distances@, counts@, r@, p),
{
    let candidate_count = niches.len();
    let niche_count = counts.len();
    proof {
        assert(candidate_count == niches@.len() && niche_count == counts@.len());
        assert(tallied(niches@, distances@, counts@, Seq::empty(), counts@));
        lemma_niching_balanced(niches@, distances@, counts@, Seq::empty(), counts@, remaining as int, rng@, remaining as nat);
        if remaining <= niches@.len() {
            lemma_niching_fills(niches@, distances@, Seq::empty(), counts@, remaining as int, rng@, remaining as nat);
        }
    }
    let ghost initial = counts@;
    let ghost target = niching_from(niches@, distances@, Seq::empty(), counts@, remaining as int, rng@, remaining as nat);
    let mut counts = counts;
    let mut picked: Vec<usize> = Vec::new();
    let mut rounds: usize = 0;
    while rounds < remaining && picked.len() < remaining
        invariant
            niches@.len() == distances@.len(),
            forall|c: int| 0 <= c < niches@.len() ==> (#[trigger] niches@[c] as int) < counts@.len(),
            counts@.len() == initial.len(),
            forall|n: int| 0 <= n < counts@.len() ==> #[trigger] counts@[n] <= initial[n] + picked@.len(),
            forall|n: int| 0 <= n < initial.len() ==> #[trigger] initial[n] + remaining < usize::MAX,
            rounds <= remaining,
            forall|i: int| 0 <= i < picked@.len() ==> (#[trigger] picked@[i] as int) < niches@.len(),
            target == niching_from(niches@, distances@, picked@, counts@, remaining as int, rng@, (remaining - rounds) as nat),
        decreases remaining - rounds,
    {
        // the smallest count among the niches with candidates left
        let mut fewest: Option<usize> = None;
        let mut n: usize = 0;
        while n < counts.len()
            invariant
                n <= counts@.len(),
                fewest == fewest_count(niches@, picked@, counts@, n as int),
            decreases counts@.len() - n,
        {
            let members = members_of(niches, &picked, n);
            if members.len() > 0 {
                match fewest {
                    Some(f) => {
                        if counts[n] < f {
                            fewest = Some(counts[n]);
                        }
                    },
                    None => {
                        fewest = Some(counts[n]);
                    },
                }
            }
            n = n + 1;
        }
        if let Some(f) = fewest {
            let mut least: Vec<usize> = Vec::new();
            let mut n: usize = 0;
            while n < counts.len()
                invariant
                    n <= counts@.len(),
                    least@ == least_niches(niches@, picked@, counts@, f, n as int),
                    forall|i: int| 0 <= i < least@.len() ==> (#[trigger] least@[i] as int) < n,
                decreases counts@.len() - n,
            {
                let members = members_of(niches, &picked, n);
                if members.len() > 0 && counts[n] == f {
                    least.push(n);
                }
                n = n + 1;
            }
            let left = remaining - picked.len();
            let t = if least.len() < left { least.len() } else { left };
            let ghost before = least@;
            proof {
                lemma_fisher_yates_keeps(before, rng@, before.len());
            }
            rng.shuffle(&mut least);
            let ghost start = (picked@, counts@, rng@);
            let mut j: usize = 0;
            while j < t
                invariant
                    niches@.len() == distances@.len(),
                    forall|c: int| 0 <= c < niches@.len() ==> (#[trigger] niches@[c] as int) < counts@.len(),
                    counts@.len() == initial.len(),
                    forall|n: int| 0 <= n < initial.len() ==> #[trigger] initial[n] + remaining < usize::MAX,
                    forall|v: usize| #[trigger] least@.contains(v) ==> (v as int) < counts@.len(),
                    j <= t <= least@.len(),
                    start.0.len() + t <= remaining,
                    picked@.len() <= start.0.len() + j,
                    forall|i: int| 0 <= i < picked@.len() ==> (#[trigger] picked@[i] as int) < niches@.len(),
                    forall|n: int| 0 <= n < counts@.len() ==> #[trigger] counts@[n] <= initial[n] + picked@.len(),
                    (picked@, counts@, rng@) == pick_in_order(niches@, distances@, start.0, start.1, least@, j as int, start.2),
                decreases t - j,
            {
                let n = least[j];
                assert(least@.contains(least@[j as int]));
                pick(niches, distances, &mut picked, &mut counts, n, rng);
                j = j + 1;
            }
            proof {
                let left_spec = remaining - start.0.len();
                assert(t == (if least@.len() < left_spec { least@.len() as int } else { left_spec }));
            }
        }
        rounds = rounds + 1;
    }
    picked
}


/// Whether scores are feasible: valid, without constraint violation.
pub open spec fn is_feasible_scores(x: Scores) -> bool {
    x.spec_is_valid() && x.spec_violation() == 0
}

/// The positions below `k` whose scores are feasible (`feasible`) or not, ascending.
pub open spec fn positions_where(s: Seq<Scores>, feasible: bool, k: int) -> Seq<usize>
    decreases k,
{
    if k <= 0 {
        Seq::empty()
    } else {
        let before = positions_where(s, feasible, k - 1);
        if is_feasible_scores(s[k - 1]) == feasible { before.push((k - 1) as usize) } else { before }
    }
}

/// The scores at `positions`.
pub open spec fn scores_at(s: Seq<Scores>, positions: Seq<usize>) -> Seq<Scores> {
    positions.map_values(|i: usize| s[i as int])
}

/// The bits of the constraint violation of scores, that of +∞ for invalid ones: non-negative, so
/// ordered as integers as they are as numbers.
pub open spec fn violation_key(x: Scores) -> u64 {
    if x.spec_is_valid() { x.spec_violation() } else { INFINITY_BITS }
}

/// How many infeasible solutions fill a population of `size` after `feasible` feasible ones,
/// from `others` of them.
pub open spec fn infeasible_room(size: int, feasible: int, others: int) -> int {
    if size - feasible < others { size - feasible } else { others }
}

/// The violation keys of the scores at `positions`.
pub open spec fn violation_keys(s: Seq<Scores>, positions: Seq<usize>) -> Seq<u64> {
    positions.map_values(|i: usize| violation_key(s[i as int]))
}

/// Whether position `a` goes before `b` among the least infeasible: a smaller violation, then a
/// smaller random key, then the earlier position.
pub open spec fn less_violating(violations: Seq<u64>, keys: Seq<u64>, a: int, b: int) -> bool {
    ||| violations[a] < violations[b]
    ||| violations[a] == violations[b] && keys[a] < keys[b]
    ||| violations[a] == violations[b] && keys[a] == keys[b] && a < b
}

/// Whether `order` holds the `room` least infeasible positions, in the order of
/// [`less_violating`], each before every position left out.
pub open spec fn is_least_violating(violations: Seq<u64>, keys: Seq<u64>, room: int, order: Seq<usize>) -> bool {
    &&& order.len() == room
    &&& forall|i: int| 0 <= i < order.len() ==> (#[trigger] order[i] as int) < violations.len()
    &&& forall|i: int, j: int| 0 <= i < j < order.len()
        ==> less_violating(violations, keys, #[trigger] order[i] as int, #[trigger] order[j] as int)
    &&& forall|i: int, u: int| 0 <= i < order.len() && 0 <= u < violations.len() && !order.contains(u as usize)
        ==> #[trigger] less_violating(violations, keys, order[i] as int, u)
}

/// The solutions of the first `k` fronts, front by front.
pub open spec fn joined_fronts(fronts: Seq<Vec<usize>>, k: int) -> Seq<usize>
    decreases k,
{
    if k <= 0 { Seq::empty() } else { joined_fronts(fronts, k - 1) + fronts[k - 1]@ }
}

/// The number of survivors associated with each of `niche_count` niches, from the associations of
/// the first `k` of them.
pub open spec fn niche_counts(associations: Seq<usize>, niche_count: nat, k: int) -> Seq<usize>
    decreases k,
{
    if k <= 0 {
        Seq::new(niche_count, |n: int| 0usize)
    } else {
        let before = niche_counts(associations, niche_count, k - 1);
        let n = associations[k - 1] as int;
        before.update(n, (before[n] + 1) as usize)
    }
}

/// NSGA-III's choice among more feasible solutions than the population holds, given their fronts
/// (positions in `feasible`) and the `k` fronts that fit whole: those fronts, then, if room is
/// left, the candidates of the next front picked by [`niching_from`], with the niche counts of the
/// whole fronts. Positions in the pool, and the generator's state after.
pub open spec fn feasible_choice(
    fronts: Seq<Vec<usize>>,
    k: int,
    feasible: Seq<usize>,
    associations: Seq<usize>,
    distances: Seq<u64>,
    niche_count: nat,
    size: int,
    state: RngState,
) -> (Seq<usize>, RngState) {
    let members = joined_fronts(fronts, k);
    let room = size - members.len();
    if k < fronts.len() && room > 0 {
        let last = fronts[k]@;
        let niches = last.map_values(|p: usize| associations[feasible[p as int] as int]);
        let near = last.map_values(|p: usize| distances[feasible[p as int] as int]);
        let counts = niche_counts(members.map_values(|p: usize| associations[feasible[p as int] as int]), niche_count, members.len() as int);
        let picks = niching_from(niches, near, Seq::empty(), counts, room, state, room as nat);
        ((members + picks.0.map_values(|c: usize| last[c as int])).map_values(|p: usize| feasible[p as int]), picks.2)
    } else {
        (members.map_values(|p: usize| feasible[p as int]), state)
    }
}

/// The pool positions of the solutions at positions `front` of `feasible`.
pub open spec fn pool_positions(front: Seq<usize>, feasible: Seq<usize>) -> Seq<usize> {
    front.map_values(|q: usize| feasible[q as int])
}

/// Whether survivor `p` of `survivors` (pool positions) keeps the niches balanced against the
/// `candidates` (pool positions): counting the survivors before it, the niche it is associated
/// with holds no more survivors than the niche of any candidate not surviving yet.
pub open spec fn balanced_survivor(associations: Seq<usize>, survivors: Seq<usize>, p: int, candidates: Seq<usize>) -> bool {
    let before = survivors.take(p);
    let n = associations[survivors[p] as int];
    forall|x: int| 0 <= x < candidates.len() && !before.contains(candidates[x]) ==>
        occurrences(associations, before, n) <= occurrences(associations, before, #[trigger] associations[candidates[x] as int])
}

/// Whether survivor `p` of `survivors` (pool positions) is, when its niche holds no survivor
/// before it, the nearest of the `candidates` of that niche not surviving yet.
pub open spec fn nearest_survivor(associations: Seq<usize>, distances: Seq<u64>, survivors: Seq<usize>, p: int, candidates: Seq<usize>) -> bool {
    let before = survivors.take(p);
    let n = associations[survivors[p] as int];
    occurrences(associations, before, n) == 0 ==>
        forall|x: int| 0 <= x < candidates.len() && !before.contains(candidates[x]) && associations[candidates[x] as int] == n
            ==> distances[survivors[p] as int] <= #[trigger] distances[candidates[x] as int]
}

/// Whether the survivors from position `start` on are picked by balanced niching from the
/// `candidates`: each keeps the niches balanced ([`balanced_survivor`]) and is the nearest of its
/// niche when that niche holds none yet ([`nearest_survivor`]).
pub open spec fn niched_survivors(associations: Seq<usize>, distances: Seq<u64>, survivors: Seq<usize>, start: int, candidates: Seq<usize>) -> bool {
    forall|p: int| start <= p < survivors.len() ==>
        #[trigger] balanced_survivor(associations, survivors, p, candidates)
        && nearest_survivor(associations, distances, survivors, p, candidates)
}

proof fn lemma_joined_contains(fronts: Seq<Vec<usize>>, k: int, x: usize)
    requires
        0 <= k <= fronts.len(),
    ensures
        joined_fronts(fronts, k).contains(x) <==> exists|j: int, u: int|
            0 <= j < k && 0 <= u < fronts[j]@.len() && #[trigger] fronts[j]@[u] == x,
    decreases k,
{
    if k > 0 {
        lemma_joined_contains(fronts, k - 1, x);
        let before = joined_fronts(fronts, k - 1);
        let now = joined_fronts(fronts, k);
        let last = fronts[k - 1]@;
        if now.contains(x) {
            let t = choose|t: int| 0 <= t < now.len() && now[t] == x;
            if t < before.len() {
                assert(before[t] == x);
                assert(before.contains(x));
            } else {
                assert(last[t - before.len()] == x);
            }
        }
        if exists|j: int, u: int| 0 <= j < k && 0 <= u < fronts[j]@.len() && #[trigger] fronts[j]@[u] == x {
            let (j, u) = choose|j: int, u: int| 0 <= j < k && 0 <= u < fronts[j]@.len() && #[trigger] fronts[j]@[u] == x;
            if j < k - 1 {
                let t = choose|t: int| 0 <= t < before.len() && before[t] == x;
                assert(now[t] == x);
            } else {
                assert(now[before.len() + u] == x);
            }
        }
    }
}

proof fn lemma_positions_ascending(s: Seq<Scores>, feasible: bool, k: int)
    requires
        0 <= k <= s.len(),
        s.len() <= usize::MAX,
    ensures
        forall|a: int, b: int| 0 <= a < b < positions_where(s, feasible, k).len()
            ==> #[trigger] positions_where(s, feasible, k)[a] < #[trigger] positions_where(s, feasible, k)[b],
    decreases k,
{
    if k > 0 {
        lemma_positions_ascending(s, feasible, k - 1);
        lemma_positions_below(s, feasible, k - 1);
        let before = positions_where(s, feasible, k - 1);
        let now = positions_where(s, feasible, k);
        assert forall|a: int, b: int| 0 <= a < b < now.len() implies #[trigger] now[a] < #[trigger] now[b] by {
            assert(now[a] == before[a]);
            if b < before.len() {
                assert(now[b] == before[b]);
            } else {
                assert(now[b] == (k - 1) as usize);
                assert((before[a] as int) < k - 1);
            }
        }
    }
}

/// The survivors from the fronts that fit whole are the feasible solutions ranked before the
/// front that doesn't.
proof fn lemma_whole_fronts_survive(
    fronts: Seq<Vec<usize>>,
    k: int,
    feasible: Seq<usize>,
    front_of: Seq<int>,
    kept: Seq<usize>,
    whole: Seq<usize>,
)
    requires
        0 <= k <= fronts.len(),
        lists_fronts(fronts_of(fronts), front_of),
        front_of.len() == feasible.len(),
        whole == joined_fronts(fronts, k),
        kept == whole.map_values(|p: usize| feasible[p as int]),
        forall|a: int, b: int| 0 <= a < b < feasible.len() ==> #[trigger] feasible[a] < #[trigger] feasible[b],
        forall|j: int, u: int| 0 <= j < fronts.len() && 0 <= u < fronts[j]@.len() ==> (#[trigger] fronts[j]@[u] as int) < feasible.len(),
    ensures
        forall|i: int| 0 <= i < feasible.len() ==> (front_of[i] < k <==> kept.contains(#[trigger] feasible[i])),
{
    lemma_joined_below(fronts, k, feasible.len() as int);
    assert forall|i: int| 0 <= i < feasible.len() implies (front_of[i] < k <==> kept.contains(#[trigger] feasible[i])) by {
        lemma_joined_contains(fronts, k, i as usize);
        assert(fronts_of(fronts)[front_of[i]] == fronts[front_of[i]]@);
        let u = choose|u: int| 0 <= u < fronts_of(fronts)[front_of[i]].len() && fronts_of(fronts)[front_of[i]][u] == i;
        if front_of[i] < k {
            assert(fronts[front_of[i]]@[u] == i as usize);
            let t = choose|t: int| 0 <= t < whole.len() && whole[t] == i as usize;
            assert(kept[t] == feasible[i]);
        }
        if kept.contains(feasible[i]) {
            let t = choose|t: int| 0 <= t < kept.len() && kept[t] == feasible[i];
            assert(feasible[whole[t] as int] == feasible[i]);
            assert(whole[t] == i as usize) by {
                if (whole[t] as int) < i {
                    assert(feasible[whole[t] as int] < feasible[i]);
                } else if (whole[t] as int) > i {
                    assert(feasible[i] < feasible[whole[t] as int]);
                }
            }
            assert(whole.contains(i as usize));
            let (j, v) = choose|j: int, v: int| 0 <= j < k && 0 <= v < fronts[j]@.len() && #[trigger] fronts[j]@[v] == i as usize;
            assert(fronts_of(fronts)[j][v] == i as usize);
        }
    }
}

proof fn lemma_occurrences_concat(labels: Seq<usize>, a: Seq<usize>, b: Seq<usize>, n: usize)
    ensures
        occurrences(labels, a + b, n) == occurrences(labels, a, n) + occurrences(labels, b, n),
    decreases b.len(),
{
    if b.len() == 0 {
        assert(a + b =~= a);
    } else {
        lemma_occurrences_concat(labels, a, b.drop_last(), n);
        assert((a + b).drop_last() =~= a + b.drop_last());
        assert((a + b).last() == b.last());
    }
}

proof fn lemma_occurrences_relabel(labels_a: Seq<usize>, a: Seq<usize>, labels_b: Seq<usize>, b: Seq<usize>, n: usize)
    requires
        a.len() == b.len(),
        forall|i: int| 0 <= i < a.len() ==> labels_a[#[trigger] a[i] as int] == labels_b[b[i] as int],
    ensures
        occurrences(labels_a, a, n) == occurrences(labels_b, b, n),
    decreases a.len(),
{
    if a.len() > 0 {
        assert forall|i: int| 0 <= i < a.drop_last().len() implies labels_a[#[trigger] a.drop_last()[i] as int] == labels_b[b.drop_last()[i] as int] by {
            assert(a.drop_last()[i] == a[i] && b.drop_last()[i] == b[i]);
        }
        lemma_occurrences_relabel(labels_a, a.drop_last(), labels_b, b.drop_last(), n);
        assert(labels_a[a.last() as int] == labels_b[b.last() as int]) by {
            assert(labels_a[a[a.len() - 1] as int] == labels_b[b[a.len() - 1] as int]);
        }
    }
}

/// The positions `0..k`.
pub open spec fn first_positions(k: nat) -> Seq<usize> {
    Seq::new(k, |i: int| i as usize)
}

proof fn lemma_niche_counts_occurrences(labels: Seq<usize>, niche_count: nat, k: int)
    requires
        0 <= k <= labels.len(),
        k < usize::MAX,
        niche_count <= usize::MAX,
        forall|i: int| 0 <= i < k ==> (#[trigger] labels[i] as int) < niche_count,
    ensures
        niche_counts(labels, niche_count, k).len() == niche_count,
        forall|n: int| 0 <= n < niche_count ==>
            #[trigger] niche_counts(labels, niche_count, k)[n] == occurrences(labels, first_positions(k as nat), n as usize),
    decreases k,
{
    if k > 0 {
        lemma_niche_counts_occurrences(labels, niche_count, k - 1);
        let before = niche_counts(labels, niche_count, k - 1);
        assert(first_positions(k as nat).drop_last() =~= first_positions((k - 1) as nat));
        assert(first_positions(k as nat).last() == (k - 1) as usize);
        let top = labels[k - 1];
        lemma_occurrences_len(labels, first_positions((k - 1) as nat), top);
        assert(before[top as int] + 1 < usize::MAX);
        assert forall|n: int| 0 <= n < niche_count implies
            #[trigger] niche_counts(labels, niche_count, k)[n] == occurrences(labels, first_positions(k as nat), n as usize) by {
            assert(occurrences(labels, first_positions(k as nat), n as usize)
                == occurrences(labels, first_positions((k - 1) as nat), n as usize) + (if labels[k - 1] == n as usize { 1nat } else { 0nat }));
        }
    }
}

/// The survivors that NSGA-III picks by niching from the front that doesn't fit whole keep the
/// niches balanced: counting every survivor before it, those of the whole fronts included, each
/// pick's niche holds no more survivors than the niche of any candidate of that front not
/// surviving yet.
pub proof fn lemma_feasible_choice_balanced(
    fronts: Seq<Vec<usize>>,
    k: int,
    feasible: Seq<usize>,
    associations: Seq<usize>,
    distances: Seq<u64>,
    niche_count: nat,
    size: int,
    state: RngState,
)
    requires
        0 <= k < fronts.len(),
        joined_fronts(fronts, k).len() < size <= MAX_SIZE,
        fronts[k]@.len() <= usize::MAX,
        niche_count <= usize::MAX,
        forall|j: int, u: int| 0 <= j < fronts.len() && 0 <= u < fronts[j]@.len() ==> (#[trigger] fronts[j]@[u] as int) < feasible.len(),
        forall|i: int| 0 <= i < feasible.len() ==> (#[trigger] feasible[i] as int) < associations.len(),
        forall|i: int| 0 <= i < associations.len() ==> (#[trigger] associations[i] as int) < niche_count,
    ensures
        ({
            let r = feasible_choice(fronts, k, feasible, associations, distances, niche_count, size, state).0;
            forall|p: int| joined_fronts(fronts, k).len() <= p < r.len() ==>
                #[trigger] balanced_survivor(associations, r, p, pool_positions(fronts[k]@, feasible))
                && nearest_survivor(associations, distances, r, p, pool_positions(fronts[k]@, feasible))
        }),
{
    let members = joined_fronts(fronts, k);
    let w = members.len() as int;
    let room = size - w;
    let last = fronts[k]@;
    let niches = last.map_values(|p: usize| associations[feasible[p as int] as int]);
    let near = last.map_values(|p: usize| distances[feasible[p as int] as int]);
    let labels = members.map_values(|p: usize| associations[feasible[p as int] as int]);
    lemma_joined_below(fronts, k, feasible.len() as int);
    lemma_niche_counts_occurrences(labels, niche_count, w);
    let counts = niche_counts(labels, niche_count, w);
    let whole = members.map_values(|p: usize| feasible[p as int]);
    assert forall|i: int| 0 <= i < first_positions(w as nat).len() implies
        labels[#[trigger] first_positions(w as nat)[i] as int] == associations[whole[i] as int] by {}
    assert forall|n: int| 0 <= n < niche_count implies #[trigger] counts[n] == occurrences(associations, whole, n as usize) by {
        lemma_occurrences_relabel(labels, first_positions(w as nat), associations, whole, n as usize);
    }
    assert forall|m: int| 0 <= m < counts.len() implies #[trigger] counts[m] + room < usize::MAX by {
        lemma_occurrences_len(associations, whole, m as usize);
    }
    assert(tallied(niches, near, counts, Seq::empty(), counts));
    lemma_niching_balanced(niches, near, counts, Seq::empty(), counts, room, state, room as nat);
    let picks = niching_from(niches, near, Seq::empty(), counts, room, state, room as nat).0;
    let r = feasible_choice(fronts, k, feasible, associations, distances, niche_count, size, state).0;
    let chosen = picks.map_values(|c: usize| last[c as int]);
    assert(r =~= (members + chosen).map_values(|p: usize| feasible[p as int]));
    let candidates = pool_positions(last, feasible);
    assert forall|p: int| w <= p < r.len() implies #[trigger] balanced_survivor(associations, r, p, candidates)
        && nearest_survivor(associations, distances, r, p, candidates) by {
        let j = p - w;
        let fl = picks.take(j).map_values(|c: usize| feasible[last[c as int] as int]);
        assert(r.take(p) =~= whole + fl);
        assert(balanced_pick(niches, counts, picks, j));
        assert forall|i: int| 0 <= i < fl.len() implies associations[#[trigger] fl[i] as int] == niches[picks.take(j)[i] as int] by {
            assert(picks.take(j)[i] == picks[i]);
        }
        assert forall|n: usize| (n as int) < niche_count implies
            #[trigger] occurrences(associations, r.take(p), n) == counts[n as int] + occurrences(niches, picks.take(j), n) by {
            lemma_occurrences_concat(associations, whole, fl, n);
            lemma_occurrences_relabel(associations, fl, niches, picks.take(j), n);
        }
        assert(r[p] == feasible[last[picks[j] as int] as int]);
        assert forall|x: int| 0 <= x < candidates.len() && !r.take(p).contains(candidates[x]) implies
            occurrences(associations, r.take(p), associations[r[p] as int])
                <= occurrences(associations, r.take(p), #[trigger] associations[candidates[x] as int]) by {
            assert(!picks.take(j).contains(x as usize)) by {
                if picks.take(j).contains(x as usize) {
                    let i = choose|i: int| 0 <= i < picks.take(j).len() && picks.take(j)[i] == x as usize;
                    assert(fl[i] == candidates[x]);
                    assert(r.take(p)[w + i] == fl[i]);
                }
            }
            assert(niches[x] == associations[candidates[x] as int]);
            assert(niches[picks[j] as int] == associations[r[p] as int]);
        }
        assert(nearest_when_empty(niches, near, counts, picks, j));
        assert forall|x: int| 0 <= x < candidates.len() && !r.take(p).contains(candidates[x])
            && associations[candidates[x] as int] == associations[r[p] as int]
            && occurrences(associations, r.take(p), associations[r[p] as int]) == 0
            implies distances[r[p] as int] <= #[trigger] distances[candidates[x] as int] by {
            assert(!picks.take(j).contains(x as usize)) by {
                if picks.take(j).contains(x as usize) {
                    let i = choose|i: int| 0 <= i < picks.take(j).len() && picks.take(j)[i] == x as usize;
                    assert(fl[i] == candidates[x]);
                    assert(r.take(p)[w + i] == fl[i]);
                }
            }
            assert(niches[x] == associations[candidates[x] as int]);
            assert(niches[picks[j] as int] == associations[r[p] as int]);
            assert(near[x] == distances[candidates[x] as int]);
            assert(near[picks[j] as int] == distances[r[p] as int]);
        }
    }
}

proof fn lemma_joined_len(fronts: Seq<Vec<usize>>, k: int)
    requires
        0 <= k <= fronts.len(),
    ensures
        joined_fronts(fronts, k).len() == size_of_first(fronts, k),
    decreases k,
{
    if k > 0 {
        lemma_joined_len(fronts, k - 1);
    }
}

proof fn lemma_positions_below(s: Seq<Scores>, feasible: bool, k: int)
    requires
        0 <= k <= s.len(),
    ensures
        positions_where(s, feasible, k).len() <= k,
        forall|i: int| 0 <= i < positions_where(s, feasible, k).len()
            ==> (#[trigger] positions_where(s, feasible, k)[i] as int) < k,
    decreases k,
{
    if k > 0 {
        lemma_positions_below(s, feasible, k - 1);
        let before = positions_where(s, feasible, k - 1);
        let now = positions_where(s, feasible, k);
        assert forall|i: int| 0 <= i < now.len() implies (#[trigger] now[i] as int) < k by {
            if i < before.len() {
                assert(now[i] == before[i]);
            }
        }
    }
}

// a ranking depends on the scores through their dominance alone
proof fn lemma_same_dominance_ranking(a: Seq<Scores>, b: Seq<Scores>, objectives: Seq<Objective>, front_of: Seq<int>)
    requires
        a.len() == b.len(),
        forall|i: int| 0 <= i < a.len() ==> (#[trigger] a[i]).spec_is_valid() == b[i].spec_is_valid()
            && a[i].spec_values() == b[i].spec_values() && a[i].spec_violation() == b[i].spec_violation(),
        is_dominance_ranking(a, objectives, front_of),
    ensures
        is_dominance_ranking(b, objectives, front_of),
{
    assert forall|i: int, j: int| 0 <= i < a.len() && 0 <= j < a.len()
        implies #[trigger] dominance(b[j], b[i], objectives) == dominance(a[j], a[i], objectives) by {
        assert(a[i].spec_is_valid() == b[i].spec_is_valid());
        assert(a[j].spec_is_valid() == b[j].spec_is_valid());
    }
    assert forall|i: int| 0 <= i < b.len() && #[trigger] front_of[i] > 0 implies exists|j: int|
        0 <= j < b.len() && #[trigger] dominance(b[j], b[i], objectives) && front_of[j] == front_of[i] - 1 by {
        let j = choose|j: int| 0 <= j < a.len() && #[trigger] dominance(a[j], a[i], objectives) && front_of[j] == front_of[i] - 1;
        assert(dominance(b[j], b[i], objectives));
    }
}

// the positions whose scores are feasible (`feasible`) or not, ascending
fn positions_of(scores: &[Scores], feasible: bool) -> (r: Vec<usize>)
    ensures
        r@ == positions_where(scores@, feasible, scores@.len() as int),
{
    let mut r: Vec<usize> = Vec::new();
    let mut i: usize = 0;
    while i < scores.len()
        invariant
            i <= scores@.len(),
            r@ == positions_where(scores@, feasible, i as int),
        decreases scores@.len() - i,
    {
        if scores[i].is_feasible() == feasible {
            r.push(i);
        }
        i = i + 1;
    }
    r
}

/// The `room` least infeasible positions, in the order of [`less_violating`].
pub fn least_violating(violations: &[u64], keys: &[u64], room: usize) -> (r: Vec<usize>)
    requires
        violations@.len() == keys@.len(),
        room <= violations@.len(),
        forall|i: int| 0 <= i < violations@.len() ==> (#[trigger] violations@[i]) < SIGN_BIT,
    ensures
        is_least_violating(violations@, keys@, room as int, r@),
{
    // negative numbers come in the reverse order of their magnitudes: the least crowded of the
    // negated violations are the least violating
    let mut negated: Vec<u64> = Vec::new();
    while negated.len() < violations.len()
        invariant
            negated@.len() <= violations@.len(),
            forall|i: int| 0 <= i < violations@.len() ==> (#[trigger] violations@[i]) < SIGN_BIT,
            forall|i: int| 0 <= i < negated@.len() ==> #[trigger] negated@[i] == violations@[i] + SIGN_BIT,
        decreases violations@.len() - negated@.len(),
    {
        let v = violations[negated.len()];
        negated.push(v + SIGN_BIT);
    }
    let r = least_crowded(negated.as_slice(), keys, room);
    proof {
        assert forall|a: int, b: int| 0 <= a < violations@.len() && 0 <= b < violations@.len()
            implies #[trigger] less_crowded(negated@, keys@, a, b) == less_violating(violations@, keys@, a, b) by {
            assert(negated@[a] == violations@[a] + SIGN_BIT && negated@[b] == violations@[b] + SIGN_BIT);
        }
        assert forall|i: int, j: int| 0 <= i < j < r@.len()
            implies less_violating(violations@, keys@, #[trigger] r@[i] as int, #[trigger] r@[j] as int) by {
            assert(less_crowded(negated@, keys@, r@[i] as int, r@[j] as int));
        }
        assert forall|i: int, u: int| 0 <= i < r@.len() && 0 <= u < violations@.len() && !r@.contains(u as usize)
            implies #[trigger] less_violating(violations@, keys@, r@[i] as int, u) by {
            assert(less_crowded(negated@, keys@, r@[i] as int, u));
        }
    }
    r
}

proof fn lemma_joined_below(fronts: Seq<Vec<usize>>, k: int, bound: int)
    requires
        0 <= k <= fronts.len(),
        forall|j: int, u: int| 0 <= j < fronts.len() && 0 <= u < fronts[j]@.len() ==> (#[trigger] fronts[j]@[u] as int) < bound,
    ensures
        forall|i: int| 0 <= i < joined_fronts(fronts, k).len() ==> (#[trigger] joined_fronts(fronts, k)[i] as int) < bound,
    decreases k,
{
    if k > 0 {
        lemma_joined_below(fronts, k - 1, bound);
        let before = joined_fronts(fronts, k - 1);
        let now = joined_fronts(fronts, k);
        assert forall|i: int| 0 <= i < now.len() implies (#[trigger] now[i] as int) < bound by {
            if i < before.len() {
                assert(now[i] == before[i]);
            } else {
                assert(now[i] == fronts[k - 1]@[i - before.len()]);
            }
        }
    }
}

/// The survivors of NSGA-III from a pool with these scores, as positions in the pool in the order
/// of the next population of `size`. When the feasible solutions fit, all of them, ascending, then
/// the least infeasible ([`is_least_violating`], a random key drawn for each infeasible or invalid
/// solution in turn breaking ties of violation). Otherwise the fronts of the feasible solutions
/// that fit whole, then niching on the next front ([`feasible_choice`]), where a feasible
/// solution at position `i` of the pool is associated with niche `associations[i]` (below
/// `niche_count`) at the distance with bits `distances[i]`.
#[verifier::spinoff_prover]
#[verifier::rlimit(40)]
pub fn nsga3_survivors(
    scores: &[Scores],
    objectives: &[Objective],
    size: usize,
    associations: &[usize],
    distances: &[u64],
    niche_count: usize,
    rng: &mut StreamRng,
) -> (r: Vec<usize>)
    requires
        associations@.len() == scores@.len(),
        distances@.len() == scores@.len(),
        forall|i: int| 0 <= i < associations@.len() ==> (#[trigger] associations@[i] as int) < niche_count,
        forall|i: int| 0 <= i < scores@.len() ==> fits(#[trigger] scores@[i], objectives@),
        size <= MAX_SIZE,
    ensures
        ({
            let feasible = positions_where(scores@, true, scores@.len() as int);
            let others = positions_where(scores@, false, scores@.len() as int);
            let words = u64_words(old(rng)@, others.len());
            let room = infeasible_room(size as int, feasible.len() as int, others.len() as int);
            feasible.len() <= size ==> {
                &&& final(rng)@ == words.1
                &&& r@.len() == feasible.len() + room
                &&& r@.take(feasible.len() as int) == feasible
                &&& exists|order: Seq<usize>| {
                    &&& #[trigger] is_least_violating(violation_keys(scores@, others), words.0, room, order)
                    &&& forall|i: int| 0 <= i < room ==> #[trigger] r@[feasible.len() + i] == others[order[i] as int]
                }
            }
        }),
        ({
            let feasible = positions_where(scores@, true, scores@.len() as int);
            feasible.len() > size ==> exists|front_of: Seq<int>, fronts: Seq<Vec<usize>>, k: int| {
                &&& #[trigger] is_dominance_ranking(scores_at(scores@, feasible), objectives@, front_of)
                &&& lists_fronts(fronts_of(fronts), front_of)
                &&& 0 <= k <= fronts.len()
                &&& size_of_first(fronts, k) <= size
                &&& k < fronts.len() ==> fronts[k]@.len() > size - size_of_first(fronts, k)
                &&& (r@, final(rng)@) == #[trigger] feasible_choice(fronts, k, feasible, associations@, distances@, niche_count as nat, size as int, old(rng)@)
                &&& forall|i: int| 0 <= i < feasible.len() ==>
                    (front_of[i] < k <==> r@.take(size_of_first(fronts, k)).contains(#[trigger] feasible[i]))
                &&& k < fronts.len() ==> niched_survivors(associations@, distances@, r@, size_of_first(fronts, k), pool_positions(fronts[k]@, feasible))
            }
        }),
{
    let pool_size = scores.len();
    let feasible = positions_of(scores, true);
    let others = positions_of(scores, false);
    proof {
        lemma_positions_below(scores@, true, scores@.len() as int);
        lemma_positions_below(scores@, false, scores@.len() as int);
    }
    if feasible.len() <= size {
        let ghost start = rng@;
        let mut keys: Vec<u64> = Vec::new();
        while keys.len() < others.len()
            invariant
                keys@.len() <= others@.len(),
                (keys@, rng@) == u64_words(start, keys@.len()),
            decreases others@.len() - keys@.len(),
        {
            let ghost before = rng@;
            let word = rng.next_u64();
            proof {
                assert(u64_word(before) == (crate::rng::stream_word(before, 0) + crate::rng::stream_word(before, 1) * 0x1_0000_0000int));
            }
            keys.push(word);
        }
        let ghost vk = violation_keys(scores@, others@);
        let mut violations: Vec<u64> = Vec::new();
        while violations.len() < others.len()
            invariant
                violations@.len() <= others@.len(),
                forall|j: int| 0 <= j < others@.len() ==> (#[trigger] others@[j] as int) < scores@.len(),
                vk == violation_keys(scores@, others@),
                forall|j: int| 0 <= j < violations@.len() ==> #[trigger] violations@[j] == vk[j] && violations@[j] < SIGN_BIT,
            decreases others@.len() - violations@.len(),
        {
            let x = &scores[others[violations.len()]];
            proof {
                use_type_invariant(x);
                Scores::lemma_well_formed(x);
            }
            let v = if x.is_valid() { x.violation() } else { INFINITY_BITS };
            violations.push(v);
        }
        proof {
            assert(violations@ =~= vk);
        }
        let left = size - feasible.len();
        let room = if left < others.len() { left } else { others.len() };
        let order = least_violating(violations.as_slice(), keys.as_slice(), room);
        let ghost chosen = feasible@;
        let mut r = feasible;
        let mut i: usize = 0;
        while i < room
            invariant
                i <= room <= others@.len(),
                order@.len() == room,
                forall|j: int| 0 <= j < order@.len() ==> (#[trigger] order@[j] as int) < others@.len(),
                r@.len() == chosen.len() + i,
                r@.take(chosen.len() as int) == chosen,
                forall|j: int| 0 <= j < i ==> #[trigger] r@[chosen.len() + j] == others@[order@[j] as int],
            decreases room - i,
        {
            r.push(others[order[i]]);
            proof {
                assert(r@.take(chosen.len() as int) =~= chosen);
            }
            i = i + 1;
        }
        proof {
            let words = u64_words(start, others@.len());
            assert(keys@ == words.0 && rng@ == words.1);
            assert(room == infeasible_room(size as int, chosen.len() as int, others@.len() as int));
            assert(is_least_violating(violation_keys(scores@, others@), words.0, room as int, order@));
        }
        r
    } else {
        let mut fs: Vec<Scores> = Vec::new();
        while fs.len() < feasible.len()
            invariant
                fs@.len() <= feasible@.len(),
                forall|j: int| 0 <= j < feasible@.len() ==> (#[trigger] feasible@[j] as int) < scores@.len(),
                forall|i: int| 0 <= i < scores@.len() ==> fits(#[trigger] scores@[i], objectives@),
                forall|j: int| 0 <= j < fs@.len() ==> (#[trigger] fs@[j]).spec_is_valid() == scores@[feasible@[j] as int].spec_is_valid()
                    && fs@[j].spec_values() == scores@[feasible@[j] as int].spec_values()
                    && fs@[j].spec_violation() == scores@[feasible@[j] as int].spec_violation(),
                forall|j: int| 0 <= j < fs@.len() ==> fits(#[trigger] fs@[j], objectives@),
            decreases feasible@.len() - fs@.len(),
        {
            let j = fs.len();
            assert(fits(scores@[feasible@[j as int] as int], objectives@));
            fs.push(scores[feasible[j]].clone());
        }
        let fronts = non_dominated_sort(fs.as_slice(), objectives);
        let ghost front_of = choose|front_of: Seq<int>| is_dominance_ranking(fs@, objectives@, front_of)
            && lists_fronts(fronts_of(fronts@), front_of);
        proof {
            lemma_same_dominance_ranking(fs@, scores_at(scores@, feasible@), objectives@, front_of);
            assert forall|j: int, u: int| 0 <= j < fronts@.len() && 0 <= u < fronts@[j]@.len()
                implies (#[trigger] fronts@[j]@[u] as int) < feasible@.len() by {
                assert(fronts_of(fronts@)[j] == fronts@[j]@);
            }
        }
        let (k, room) = fronts_that_fit(fronts.as_slice(), size);
        let mut members: Vec<usize> = Vec::new();
        let mut f: usize = 0;
        while f < k
            invariant
                f <= k <= fronts@.len(),
                members@ == joined_fronts(fronts@, f as int),
            decreases k - f,
        {
            let front = &fronts[f];
            let mut u: usize = 0;
            while u < front.len()
                invariant
                    f < k <= fronts@.len(),
                    *front == fronts@[f as int],
                    u <= front@.len(),
                    members@ == joined_fronts(fronts@, f as int) + front@.take(u as int),
                decreases front@.len() - u,
            {
                members.push(front[u]);
                proof {
                    assert(front@.take(u + 1) =~= front@.take(u as int).push(front@[u as int]));
                }
                u = u + 1;
            }
            proof {
                assert(front@.take(u as int) =~= front@);
            }
            f = f + 1;
        }
        proof {
            lemma_joined_len(fronts@, k as int);
            lemma_joined_below(fronts@, k as int, feasible@.len() as int);
        }
        let ghost whole = members@;
        let ghost niche_of = whole.map_values(|p: usize| associations@[feasible@[p as int] as int]);
        let mut counts: Vec<usize> = Vec::new();
        while counts.len() < niche_count
            invariant
                counts@.len() <= niche_count,
                forall|n: int| 0 <= n < counts@.len() ==> #[trigger] counts@[n] == 0,
            decreases niche_count - counts@.len(),
        {
            counts.push(0);
        }
        proof {
            assert(counts@ =~= niche_counts(niche_of, niche_count as nat, 0));
        }
        let mut j: usize = 0;
        while j < members.len()
            invariant
                members@ == whole,
                j <= whole.len(),
                whole.len() <= size,
                forall|i: int| 0 <= i < whole.len() ==> (#[trigger] whole[i] as int) < feasible@.len(),
                forall|i: int| 0 <= i < feasible@.len() ==> (#[trigger] feasible@[i] as int) < scores@.len(),
                forall|i: int| 0 <= i < associations@.len() ==> (#[trigger] associations@[i] as int) < niche_count,
                associations@.len() == scores@.len(),
                niche_of == whole.map_values(|p: usize| associations@[feasible@[p as int] as int]),
                counts@ == niche_counts(niche_of, niche_count as nat, j as int),
                counts@.len() == niche_count,
                forall|n: int| 0 <= n < counts@.len() ==> #[trigger] counts@[n] <= j,
            decreases whole.len() - j,
        {
            let p = members[j];
            let n = associations[feasible[p]];
            let c = counts[n];
            counts.set(n, c + 1);
            j = j + 1;
        }
        let ghost start = rng@;
        if k < fronts.len() && room > 0 {
            let last = &fronts[k];
            let mut niches: Vec<usize> = Vec::new();
            let mut near: Vec<u64> = Vec::new();
            while niches.len() < last.len()
                invariant
                    k < fronts@.len(),
                    *last == fronts@[k as int],
                    niches@.len() <= last@.len(),
                    near@.len() == niches@.len(),
                    forall|u: int| 0 <= u < last@.len() ==> (#[trigger] last@[u] as int) < feasible@.len(),
                    forall|i: int| 0 <= i < feasible@.len() ==> (#[trigger] feasible@[i] as int) < scores@.len(),
                    associations@.len() == scores@.len(),
                    distances@.len() == scores@.len(),
                    forall|i: int| 0 <= i < associations@.len() ==> (#[trigger] associations@[i] as int) < niche_count,
                    forall|u: int| 0 <= u < niches@.len() ==> #[trigger] niches@[u] == associations@[feasible@[last@[u] as int] as int]
                        && near@[u] == distances@[feasible@[last@[u] as int] as int],
                decreases last@.len() - niches@.len(),
            {
                let u = niches.len();
                assert((last@[u as int] as int) < feasible@.len());
                let i = feasible[last[u]];
                niches.push(associations[i]);
                near.push(distances[i]);
            }
            proof {
                assert(niches@ =~= last@.map_values(|p: usize| associations@[feasible@[p as int] as int]));
                assert forall|u: int| 0 <= u < near@.len() implies #[trigger] near@[u] == distances@[feasible@[last@[u] as int] as int] by {
                    assert(niches@[u] == associations@[feasible@[last@[u] as int] as int]);
                }
                assert(near@ =~= last@.map_values(|p: usize| distances@[feasible@[p as int] as int]));
            }
            let picks = niching(niches.as_slice(), near.as_slice(), counts, room, rng);
            let mut i: usize = 0;
            while i < picks.len()
                invariant
                    k < fronts@.len(),
                    *last == fronts@[k as int],
                    niches@.len() == last@.len(),
                    forall|t: int| 0 <= t < picks@.len() ==> (#[trigger] picks@[t] as int) < niches@.len(),
                    i <= picks@.len(),
                    members@ == whole + picks@.take(i as int).map_values(|c: usize| last@[c as int]),
                decreases picks@.len() - i,
            {
                members.push(last[picks[i]]);
                proof {
                    assert(picks@.take(i + 1).map_values(|c: usize| last@[c as int])
                        =~= picks@.take(i as int).map_values(|c: usize| last@[c as int]).push(last@[picks@[i as int] as int]));
                }
                i = i + 1;
            }
            proof {
                assert(picks@.take(i as int) =~= picks@);
            }
        }
        let ghost kept = members@;
        proof {
            assert forall|t: int| 0 <= t < kept.len() implies (#[trigger] kept[t] as int) < feasible@.len() by {
                if t >= whole.len() {
                }
            }
        }
        let mut r: Vec<usize> = Vec::new();
        let mut t: usize = 0;
        while t < members.len()
            invariant
                members@ == kept,
                t <= kept.len(),
                forall|x: int| 0 <= x < kept.len() ==> (#[trigger] kept[x] as int) < feasible@.len(),
                r@ == kept.take(t as int).map_values(|p: usize| feasible@[p as int]),
            decreases kept.len() - t,
        {
            r.push(feasible[members[t]]);
            proof {
                assert(kept.take(t + 1).map_values(|p: usize| feasible@[p as int])
                    =~= kept.take(t as int).map_values(|p: usize| feasible@[p as int]).push(feasible@[kept[t as int] as int]));
            }
            t = t + 1;
        }
        proof {
            assert(kept.take(t as int) =~= kept);
            assert((r@, rng@) == feasible_choice(fronts@, k as int, feasible@, associations@, distances@, niche_count as nat, size as int, start));
            lemma_joined_len(fronts@, k as int);
            if k < fronts@.len() && room > 0 {
                assert(fronts@[k as int]@.len() == fronts[k as int]@.len());
                lemma_feasible_choice_balanced(fronts@, k as int, feasible@, associations@, distances@, niche_count as nat, size as int, start);
                assert(r@ == feasible_choice(fronts@, k as int, feasible@, associations@, distances@, niche_count as nat, size as int, start).0);
                assert forall|p: int| size_of_first(fronts@, k as int) <= p < r@.len() implies
                    #[trigger] balanced_survivor(associations@, r@, p, pool_positions(fronts@[k as int]@, feasible@))
                    && nearest_survivor(associations@, distances@, r@, p, pool_positions(fronts@[k as int]@, feasible@)) by {
                    assert(joined_fronts(fronts@, k as int).len() <= p);
                }
            } else {
                assert(r@.len() == joined_fronts(fronts@, k as int).len());
            }
            // the whole fronts: the feasible solutions ranked before front k
            let w = size_of_first(fronts@, k as int);
            assert(scores@.len() == pool_size);
            lemma_positions_ascending(scores@, true, scores@.len() as int);
            assert(r@.take(w) =~= whole.map_values(|p: usize| feasible@[p as int]));
            lemma_whole_fronts_survive(fronts@, k as int, feasible@, front_of, r@.take(w), whole);
            assert(k < fronts@.len() ==> niched_survivors(associations@, distances@, r@, size_of_first(fronts@, k as int), pool_positions(fronts@[k as int]@, feasible@)));
        }
        r
    }
}


} // verus!
