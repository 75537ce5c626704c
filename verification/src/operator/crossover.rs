//! Crossover: recombining two genomes.

use crate::error::{reason, Error, Result};
use crate::rng::{floyd, strictly_ascending, RngState, StreamRng};
use vstd::prelude::*;

verus! {

/// The end of the segment that starts at cut `i` of `cuts`: the next cut, or `len` after the
/// last one.
pub open spec fn segment_end(cuts: Seq<usize>, len: int, i: int) -> int {
    if i + 1 < cuts.len() { cuts[i + 1] as int } else { len }
}

/// Whether position `p` is in an exchanged segment of k-point crossover with these ascending
/// `cuts`: from the first cut to the second, from the third to the fourth, and so on, the last
/// segment running to the end when the number of cuts is odd.
pub open spec fn is_exchanged(cuts: Seq<usize>, len: int, p: int) -> bool {
    exists|i: int| 0 <= i < cuts.len() && i % 2 == 0 && cuts[i] <= p < #[trigger] segment_end(cuts, len, i)
}

/// k-point crossover: the genomes are cut at `k` random points and every other segment is
/// exchanged.
///
/// The points are only between genes, so the children always keep the first gene of their own
/// parent: a crossover never just exchanges the whole genomes. Genomes shorter than `k + 1` genes
/// use every possible point.
#[derive(Clone, Copy, Debug, PartialEq, Eq)]
pub struct PointCrossover {
    points: usize,
}

impl PointCrossover {
    /// There is at least one point.
    #[verifier::type_invariant]
    closed spec fn is_valid(self) -> bool {
        self.points >= 1
    }

    /// The number of points.
    pub closed spec fn spec_points(&self) -> usize {
        self.points
    }

    /// One-point crossover.
    pub fn one_point() -> (r: Self)
        ensures
            r.spec_points() == 1,
    {
        PointCrossover { points: 1 }
    }

    /// Two-point crossover.
    pub fn two_point() -> (r: Self)
        ensures
            r.spec_points() == 2,
    {
        PointCrossover { points: 2 }
    }

    /// k-point crossover, `points` at least 1.
    ///
    /// # Errors
    ///
    /// [`Error::InvalidSetting`] for 0 points.
    pub fn k_point(points: usize) -> (r: Result<Self>)
        ensures
            r is Ok <==> points >= 1,
            r matches Ok(c) ==> c.spec_points() == points,
            r matches Err(e) ==> e.is_invalid_setting("crossover_points"),
    {
        if points == 0 {
            return Err(Error::InvalidSetting { setting: "crossover_points", reason: reason("must be at least 1") });
        }
        Ok(PointCrossover { points })
    }

    /// The number of points.
    pub fn points(&self) -> (r: usize)
        ensures
            r == self.spec_points(),
    {
        self.points
    }

    /// Recombines `a` and `b`, which become the two children: cut at `min(points, len - 1)`
    /// random distinct points between genes, every other segment exchanged. Genomes of fewer than
    /// two genes stay as they are.
    pub fn crossover<T: Copy>(&self, a: &mut Vec<T>, b: &mut Vec<T>, rng: &mut StreamRng)
        requires
            old(a)@.len() == old(b)@.len(),
        ensures
            final(a)@.len() == old(a)@.len(),
            final(b)@.len() == old(b)@.len(),
            old(a)@.len() < 2 ==> final(a)@ == old(a)@ && final(b)@ == old(b)@,
            old(a)@.len() >= 2 ==> final(rng)@ == cut_positions(old(rng)@, self.spec_points(), old(a)@.len() as int).1,
            old(a)@.len() >= 2 ==> exists|cuts: Seq<usize>| {
                &&& cuts.len() == (if self.spec_points() < old(a)@.len() - 1 { self.spec_points() as int } else { old(a)@.len() - 1 })
                &&& strictly_ascending(cuts)
                &&& forall|x: usize| #![trigger cuts.contains(x)] cuts.contains(x)
                    <==> 1 <= x && cut_positions(old(rng)@, self.spec_points(), old(a)@.len() as int).0.contains((x - 1) as usize)
                &&& forall|i: int| 0 <= i < cuts.len() ==> 1 <= #[trigger] cuts[i] < old(a)@.len()
                &&& forall|p: int| #![trigger final(a)@[p]] #![trigger final(b)@[p]] 0 <= p < old(a)@.len() ==>
                    if is_exchanged(cuts, old(a)@.len() as int, p) {
                        final(a)@[p] == old(b)@[p] && final(b)@[p] == old(a)@[p]
                    } else {
                        final(a)@[p] == old(a)@[p] && final(b)@[p] == old(b)@[p]
                    }
            },
            old(a)@.len() >= 1 ==> final(a)@[0] == old(a)@[0] && final(b)@[0] == old(b)@[0],
    {
        proof {
            use_type_invariant(self);
        }
        let len = a.len();
        if len < 2 {
            return;
        }
        let k = if self.points < len - 1 { self.points } else { len - 1 };
        let ghost drawn = cut_positions(rng@, self.points, len as int);
        let positions = rng.sample_distinct(k, len - 1);
        // points in 1..len, between genes
        let mut cuts: Vec<usize> = Vec::new();
        let mut j: usize = 0;
        while j < k
            invariant
                j <= k,
                k == positions@.len(),
                k <= len - 1,
                strictly_ascending(positions@),
                forall|i: int| 0 <= i < positions@.len() ==> positions@[i] < len - 1,
                cuts@.len() == j,
                forall|i: int| 0 <= i < j ==> #[trigger] cuts@[i] == positions@[i] + 1,
            decreases k - j,
        {
            cuts.push(positions[j] + 1);
            j = j + 1;
        }
        let ghost c = cuts@;
        let ghost ga = a@;
        let ghost gb = b@;
        assert(strictly_ascending(c)) by {
            assert forall|x: int, y: int| 0 <= x < y < c.len() implies c[x] < c[y] by {
                assert(positions@[x] < positions@[y]);
            }
        }
        let mut i: usize = 0;
        while i < k
            invariant
                k == c.len(),
                k <= len - 1,
                c == cuts@,
                strictly_ascending(c),
                forall|x: int| 0 <= x < c.len() ==> 1 <= #[trigger] c[x] < len,
                i % 2 == 0,
                i <= k + 1,
                len == ga.len(),
                len == gb.len(),
                a@.len() == len,
                b@.len() == len,
                forall|p: int| #![trigger a@[p]] #![trigger b@[p]] 0 <= p < len && p < (if i < k { c[i as int] as int } else { len as int }) ==>
                    if is_exchanged(c, len as int, p) {
                        a@[p] == gb[p] && b@[p] == ga[p]
                    } else {
                        a@[p] == ga[p] && b@[p] == gb[p]
                    },
                forall|p: int| #![trigger a@[p]] #![trigger b@[p]] 0 <= p < len && p >= (if i < k { c[i as int] as int } else { len as int }) ==>
                    a@[p] == ga[p] && b@[p] == gb[p],
            decreases k + 1 - i,
        {
            let start = cuts[i];
            let end = if i + 1 < k { cuts[i + 1] } else { len };
            let ghost next_bound = if i + 2 < k { c[i + 2] as int } else { len as int };
            let ghost pa = a@;
            let ghost pb = b@;
            swap_range(a, b, start, end);
            proof {
                assert(segment_end(c, len as int, i as int) == end);
                assert forall|p: int| #![trigger a@[p]] #![trigger b@[p]] 0 <= p < len && p < next_bound implies
                    if is_exchanged(c, len as int, p) {
                        a@[p] == gb[p] && b@[p] == ga[p]
                    } else {
                        a@[p] == ga[p] && b@[p] == gb[p]
                    } by {
                    if p < start {
                        assert(a@[p] == pa[p] && b@[p] == pb[p]);
                    } else if p < end {
                        assert(pa[p] == ga[p] && pb[p] == gb[p]);
                        assert(c[i as int] <= p < segment_end(c, len as int, i as int));
                        assert(is_exchanged(c, len as int, p));
                    } else {
                        // between two exchanged segments
                        assert(a@[p] == pa[p] && b@[p] == pb[p]);
                        assert(pa[p] == ga[p] && pb[p] == gb[p]);
                        assert(!is_exchanged(c, len as int, p)) by {
                            if is_exchanged(c, len as int, p) {
                                let x = choose|x: int| 0 <= x < c.len() && x % 2 == 0 && c[x] <= p < #[trigger] segment_end(c, len as int, x);
                                if x < i {
                                    assert(x + 1 < i);
                                    assert(c[x + 1] < c[i as int]);
                                    assert(segment_end(c, len as int, x) == c[x + 1]);
                                } else if x == i {
                                } else {
                                    assert(x >= i + 2);
                                    if x > i + 2 {
                                        assert(c[i + 2] < c[x]);
                                    }
                                }
                            }
                        }
                    }
                }
            }
            i = i + 2;
        }
        proof {
            assert(!is_exchanged(c, len as int, 0)) by {
                if is_exchanged(c, len as int, 0) {
                    let x = choose|x: int| 0 <= x < c.len() && x % 2 == 0 && c[x] <= 0 < #[trigger] segment_end(c, len as int, x);
                }
            }
            assert(a@[0] == ga[0]);
            assert forall|x: usize| #![trigger c.contains(x)] c.contains(x) <==> 1 <= x && drawn.0.contains((x - 1) as usize) by {
                if c.contains(x) {
                    let w = choose|w: int| 0 <= w < c.len() && c[w] == x;
                    assert(positions@.contains(positions@[w]));
                }
                if 1 <= x && drawn.0.contains((x - 1) as usize) {
                    assert(positions@.contains((x - 1) as usize));
                    let w = choose|w: int| 0 <= w < positions@.len() && positions@[w] == (x - 1) as usize;
                    assert(c[w] == x);
                }
            }
        }
    }
}

/// The positions between genes (from 0, one less than the cut point) that a crossover of
/// `points` points on genomes of `len` genes draws from a generator in state `state`
/// ([`StreamRng::sample_distinct`] of `min(points, len - 1)` below `len - 1`), and the state
/// it leaves.
pub open spec fn cut_positions(state: RngState, points: usize, len: int) -> (Set<usize>, RngState) {
    let k = if points < len - 1 { points as nat } else { (len - 1) as nat };
    floyd(state, k, (len - 1) as nat, k)
}

/// Exchanges the genes `start..end` of `a` and `b`.
fn swap_range<T: Copy>(a: &mut Vec<T>, b: &mut Vec<T>, start: usize, end: usize)
    requires
        start <= end <= old(a)@.len(),
        old(a)@.len() == old(b)@.len(),
    ensures
        final(a)@.len() == old(a)@.len(),
        final(b)@.len() == old(b)@.len(),
        forall|p: int| start <= p < end ==> #[trigger] final(a)@[p] == old(b)@[p],
        forall|p: int| start <= p < end ==> #[trigger] final(b)@[p] == old(a)@[p],
        forall|p: int| 0 <= p < old(a)@.len() && !(start <= p < end) ==> #[trigger] final(a)@[p] == old(a)@[p],
        forall|p: int| 0 <= p < old(a)@.len() && !(start <= p < end) ==> #[trigger] final(b)@[p] == old(b)@[p],
{
    let mut p = start;
    while p < end
        invariant
            start <= p <= end <= a@.len(),
            a@.len() == old(a)@.len(),
            b@.len() == old(b)@.len(),
            a@.len() == b@.len(),
            forall|q: int| start <= q < p ==> #[trigger] a@[q] == old(b)@[q],
            forall|q: int| start <= q < p ==> #[trigger] b@[q] == old(a)@[q],
            forall|q: int| 0 <= q < a@.len() && !(start <= q < p) ==> #[trigger] a@[q] == old(a)@[q],
            forall|q: int| 0 <= q < a@.len() && !(start <= q < p) ==> #[trigger] b@[q] == old(b)@[q],
        decreases end - p,
    {
        let x = a[p];
        let y = b[p];
        a.set(p, y);
        b.set(p, x);
        p = p + 1;
    }
}

/// No crossover: the children are copies of their parents, for algorithms that only mutate.
#[derive(Clone, Copy, Debug, Default, PartialEq, Eq)]
pub struct NoCrossover;

impl NoCrossover {
    /// Leaves `a` and `b` as they are.
    pub fn crossover<T>(&self, a: &mut Vec<T>, b: &mut Vec<T>, rng: &mut StreamRng)
        ensures
            final(a)@ == old(a)@,
            final(b)@ == old(b)@,
    {
    }

    /// Whether the crossover can change the genomes: never.
    pub fn recombines(&self) -> (r: bool)
        ensures
            !r,
    {
        false
    }
}

} // verus!
