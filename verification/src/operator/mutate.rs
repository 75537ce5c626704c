//! Mutation: random changes to a genome.

use crate::error::{reason, Error, Result};
use crate::genome::{distinct, is_permutation, lemma_swap_distinct, lemma_swap_permutation, swap_genes, Order, Permutation};
use crate::rng::{distinct_pair, fisher_yates, floyd, strictly_ascending, StreamRng};
use vstd::prelude::*;

verus! {

/// Whether `after` is `before` with the genes of the pairs of positions `pairs[0], pairs[1]`,
/// `pairs[2], pairs[3]`, ... exchanged, the positions all distinct.
pub open spec fn is_swap_of_pairs(before: Seq<usize>, after: Seq<usize>, pairs: Seq<usize>) -> bool {
    &&& after.len() == before.len()
    &&& pairs.len() % 2 == 0
    &&& distinct(pairs)
    &&& forall|i: int| 0 <= i < pairs.len() ==> (#[trigger] pairs[i] as int) < before.len()
    &&& forall|p: int| 0 <= p < before.len() && !pairs.contains(p as usize) ==> #[trigger] after[p] == before[p]
    &&& forall|j: int| 0 <= j < pairs.len() / 2 ==>
        #[trigger] after[pairs[2 * j] as int] == before[pairs[2 * j + 1] as int]
        && after[pairs[2 * j + 1] as int] == before[pairs[2 * j] as int]
}

/// Swap mutation for permutation genomes: exchanges the genes of `count` random pairs of
/// positions, 1 by default.
///
/// The pairs are disjoint, so the swaps never undo each other and the genome always changes
/// (unless it has a single gene). At most `length / 2` pairs are swapped.
#[derive(Clone, Copy, Debug, PartialEq, Eq)]
pub struct SwapMutation {
    count: usize,
}

impl SwapMutation {
    /// At least one pair is swapped.
    #[verifier::type_invariant]
    closed spec fn is_valid(self) -> bool {
        self.count >= 1
    }

    /// Swaps one pair of positions.
    pub fn new() -> (r: Self)
        ensures
            r.spec_count() == 1,
    {
        SwapMutation { count: 1 }
    }

    /// The number of pairs swapped (at most half the genes).
    pub closed spec fn spec_count(&self) -> usize {
        self.count
    }

    /// Swaps `count` disjoint pairs of positions, at least 1.
    ///
    /// # Errors
    ///
    /// [`Error::InvalidSetting`] for a count of 0.
    pub fn count(count: usize) -> (r: Result<Self>)
        ensures
            r is Ok <==> count >= 1,
            r matches Ok(m) ==> m.spec_count() == count,
            r matches Err(e) ==> e.is_invalid_setting("swap_count"),
    {
        if count == 0 {
            return Err(Error::InvalidSetting { setting: "swap_count", reason: reason("must be at least 1") });
        }
        Ok(SwapMutation { count })
    }

    /// Mutates `genome`: swaps `min(count, length / 2)` disjoint random pairs of positions.
    #[verifier::spinoff_prover]
    pub fn mutate(&self, _permutation: &Permutation, genome: &mut Order, rng: &mut StreamRng)
        ensures
            exists|pairs: Seq<usize>|
                pairs.len() == 2 * (if self.spec_count() < old(genome)@.len() / 2 { self.spec_count() as int } else { old(genome)@.len() as int / 2 })
                && is_swap_of_pairs(old(genome)@, final(genome)@, pairs),
            old(genome)@.len() >= 2 ==> final(genome)@ != old(genome)@,
            old(genome)@.len() < 2 ==> final(genome)@ == old(genome)@ && final(rng)@ == old(rng)@,
            self.spec_count() == 1 && old(genome)@.len() >= 2 ==> {
                let d = distinct_pair(old(rng)@, old(genome)@.len() as usize);
                &&& is_swap_of_pairs(old(genome)@, final(genome)@, seq![d.0, d.1])
                &&& final(rng)@ == d.2
            },
            self.spec_count() != 1 ==> exists|positions: Seq<usize>| {
                let k = swapped_positions(self.spec_count(), old(genome)@.len());
                let drawn = floyd(old(rng)@, k, old(genome)@.len(), k);
                let shuffled = fisher_yates(positions, drawn.1, k);
                &&& #[trigger] strictly_ascending(positions)
                &&& positions.len() == k
                &&& forall|x: usize| #![trigger positions.contains(x)] positions.contains(x) <==> drawn.0.contains(x)
                &&& is_swap_of_pairs(old(genome)@, final(genome)@, shuffled.0)
                &&& final(rng)@ == shuffled.1
            },
    {
        proof {
            use_type_invariant(&*genome);
            use_type_invariant(self);
            Order::lemma_valid(*genome);
        }
        let len = genome.len();
        let ghost before = genome@;
        if self.count == 1 {
            if len < 2 {
                proof {
                    assert(is_swap_of_pairs(before, genome@, Seq::empty()));
                }
                return;
            }
            let a = rng.below(len);
            let b = rng.below(len - 1);
            let b = if b >= a { b + 1 } else { b };
            let mut genes = genome.take_genes();
            proof {
                lemma_swap_permutation(genes@, a as int, b as int);
            }
            swap_genes(&mut genes, a, b);
            *genome = Order::from_permutation(genes);
            proof {
                let pairs = seq![a, b];
                assert(pairs[2 * 0int] == a && pairs[2 * 0int + 1] == b);
                assert forall|p: int| 0 <= p < before.len() && !pairs.contains(p as usize) implies #[trigger] genome@[p] == before[p] by {
                    assert(pairs[0] == a);
                    assert(pairs[1] == b);
                }
                assert(is_swap_of_pairs(before, genome@, pairs));
                assert(genome@[a as int] != before[a as int]);
            }
            return;
        }
        let half = len / 2;
        let pair_count = if self.count < half { self.count } else { half };
        let mut positions = rng.sample_distinct(2 * pair_count, len);
        let ghost ascending = positions@;
        let ghost drawn_state = rng@;
        // random pairs: shuffle the positions (Fisher-Yates), then pair them up
        let mut i = positions.len();
        while i > 1
            invariant
                i <= positions@.len(),
                positions@.len() == 2 * pair_count,
                distinct(positions@),
                forall|j: int| 0 <= j < positions@.len() ==> (#[trigger] positions@[j] as int) < len,
                fisher_yates(ascending, drawn_state, ascending.len()) == fisher_yates(positions@, rng@, i as nat),
                ascending.len() == positions@.len(),
            decreases i,
        {
            let j = rng.below(i);
            proof {
                lemma_swap_distinct(positions@, (i - 1) as int, j as int);
                assert forall|k: int| 0 <= k < positions@.len() implies
                    (#[trigger] crate::genome::swapped(positions@, (i - 1) as int, j as int)[k] as int) < len by {
                    let t = crate::genome::swapped(positions@, (i - 1) as int, j as int);
                    assert(t.contains(t[k]));
                    let h = choose|h: int| 0 <= h < positions@.len() && positions@[h] == t[k];
                }
            }
            swap_genes(&mut positions, i - 1, j);
            i = i - 1;
        }
        let mut genes = genome.take_genes();
        let mut pair: usize = 0;
        while pair < pair_count
            invariant
                pair <= pair_count,
                2 * pair_count <= len,
                positions@.len() == 2 * pair_count,
                distinct(positions@),
                forall|j: int| 0 <= j < positions@.len() ==> (#[trigger] positions@[j] as int) < len,
                genes@.len() == len,
                len == before.len(),
                is_permutation(genes@),
                forall|p: int| 0 <= p < len && !positions@.take(2 * pair as int).contains(p as usize) ==> #[trigger] genes@[p] == before[p],
                forall|j: int| 0 <= j < pair ==>
                    #[trigger] genes@[positions@[2 * j] as int] == before[positions@[2 * j + 1] as int]
                    && genes@[positions@[2 * j + 1] as int] == before[positions@[2 * j] as int],
            decreases pair_count - pair,
        {
            let x = positions[2 * pair];
            let y = positions[2 * pair + 1];
            let ghost mid = genes@;
            proof {
                lemma_swap_permutation(genes@, x as int, y as int);
                let done = positions@.take(2 * pair as int);
                assert(!done.contains(x)) by {
                    if done.contains(x) {
                        let h = choose|h: int| 0 <= h < done.len() && done[h] == x;
                        assert(positions@[h] == positions@[2 * pair as int]);
                    }
                }
                assert(!done.contains(y)) by {
                    if done.contains(y) {
                        let h = choose|h: int| 0 <= h < done.len() && done[h] == y;
                        assert(positions@[h] == positions@[2 * pair + 1]);
                    }
                }
                assert(mid[x as int] == before[x as int]);
                assert(mid[y as int] == before[y as int]);
            }
            swap_genes(&mut genes, x, y);
            proof {
                let done = positions@.take(2 * pair as int);
                let next = positions@.take(2 * pair + 2);
                assert(next =~= done.push(x).push(y));
                assert forall|p: int| 0 <= p < len && !next.contains(p as usize) implies #[trigger] genes@[p] == before[p] by {
                    assert(next.contains(x) && next.contains(y)) by {
                        assert(next[2 * pair as int] == x);
                        assert(next[2 * pair + 1] == y);
                    }
                    assert(!done.contains(p as usize)) by {
                        if done.contains(p as usize) {
                            let h = choose|h: int| 0 <= h < done.len() && done[h] == p as usize;
                            assert(next[h] == p as usize);
                        }
                    }
                }
                assert forall|j: int| 0 <= j < pair + 1 implies
                    #[trigger] genes@[positions@[2 * j] as int] == before[positions@[2 * j + 1] as int]
                    && genes@[positions@[2 * j + 1] as int] == before[positions@[2 * j] as int] by {
                    if j < pair {
                        assert(positions@[2 * j] != x && positions@[2 * j] != y);
                        assert(positions@[2 * j + 1] != x && positions@[2 * j + 1] != y);
                        assert(mid[positions@[2 * j] as int] == before[positions@[2 * j + 1] as int]);
                        assert(mid[positions@[2 * j + 1] as int] == before[positions@[2 * j] as int]);
                    }
                }
            }
            pair = pair + 1;
        }
        proof {
            assert(positions@.take(2 * pair_count as int) =~= positions@);
            assert((2 * pair_count as int) / 2 == pair_count);
            assert(is_swap_of_pairs(before, genes@, positions@));
            if len >= 2 {
                assert(self.count >= 1);
                assert(pair_count >= 1);
                let x = positions@[0];
                let y = positions@[1];
                assert(genes@[positions@[2 * 0int] as int] == before[positions@[2 * 0int + 1] as int]);
                assert(x != y);
                assert(before[x as int] != before[y as int]);
                assert(genes@[x as int] != before[x as int]);
            }
        }
        *genome = Order::from_permutation(genes);
    }
}

impl Default for SwapMutation {
    /// Swaps one pair of positions.
    fn default() -> (r: Self)
        ensures
            r.spec_count() == 1,
    {
        SwapMutation::new()
    }
}

/// How many positions a swap mutation of `count` pairs exchanges in a genome of `len` genes: two
/// for each of `min(count, len / 2)` pairs.
pub open spec fn swapped_positions(count: usize, len: nat) -> nat {
    2 * (if count < len / 2 { count as nat } else { len / 2 })
}

} // verus!
