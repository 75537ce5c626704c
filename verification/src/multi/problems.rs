//! Points evenly spread on the unit simplex (Das and Dennis, 1998), as counts of
//! `1 / divisions`.

use crate::genome::copy_of;
use vstd::prelude::*;

verus! {

/// The binomial coefficient `C(n, k)`, by Pascal's rule.
pub open spec fn binomial(n: nat, k: nat) -> nat
    decreases n,
{
    if k == 0 {
        1
    } else if n == 0 {
        0
    } else {
        binomial((n - 1) as nat, (k - 1) as nat) + binomial((n - 1) as nat, k)
    }
}

/// The number of Das-Dennis points with `m` coordinates and `divisions` divisions:
/// `C(divisions + m − 1, m − 1)`.
pub open spec fn lattice_size(m: nat, divisions: nat) -> nat {
    binomial((divisions + m - 1) as nat, (m - 1) as nat)
}

/// Every sequence of `parts` counts that add up to `total`, in lexicographic order.
pub open spec fn compositions(parts: nat, total: nat) -> Seq<Seq<nat>>
    decreases parts, total + 2,
{
    if parts == 0 {
        Seq::empty()
    } else if parts == 1 {
        seq![seq![total]]
    } else {
        compositions_from(parts, total, 0)
    }
}

/// The compositions of `total` into `parts` counts whose first count is at least `first`, in
/// lexicographic order.
pub open spec fn compositions_from(parts: nat, total: nat, first: nat) -> Seq<Seq<nat>>
    decreases parts, total + 1 - first,
{
    if parts == 0 || first > total {
        Seq::empty()
    } else {
        let here = compositions((parts - 1) as nat, (total - first) as nat).map_values(
            |rest: Seq<nat>| seq![first] + rest,
        );
        here + compositions_from(parts, total, first + 1)
    }
}

/// Each point of `points` after `prefix`.
pub open spec fn extended(prefix: Seq<nat>, points: Seq<Seq<nat>>) -> Seq<Seq<nat>> {
    points.map_values(|point: Seq<nat>| prefix + point)
}

/// The sum of the counts.
pub open spec fn total_of(counts: Seq<nat>) -> nat
    decreases counts.len(),
{
    if counts.len() == 0 {
        0
    } else {
        counts[0] + total_of(counts.drop_first())
    }
}

/// The Das-Dennis points with `m` coordinates and `divisions` divisions, as counts: none for
/// `m == 0` or `divisions == 0`, else every composition of `divisions` into `m` counts.
pub open spec fn lattice(m: nat, divisions: nat) -> Seq<Seq<nat>> {
    if m == 0 || divisions == 0 {
        Seq::empty()
    } else {
        compositions(m, divisions)
    }
}

/// The counts of a vector, as natural numbers.
pub open spec fn counts_of(counts: Seq<usize>) -> Seq<nat> {
    counts.map_values(|count: usize| count as nat)
}

/// The points held by a vector of count vectors.
pub open spec fn as_points(points: Seq<Vec<usize>>) -> Seq<Seq<nat>> {
    points.map_values(|point: Vec<usize>| counts_of(point@))
}

proof fn lemma_binomial_above(n: nat, k: nat)
    requires
        k > n,
    ensures
        binomial(n, k) == 0,
    decreases n,
{
    if n > 0 {
        lemma_binomial_above((n - 1) as nat, (k - 1) as nat);
        lemma_binomial_above((n - 1) as nat, k);
    }
}

proof fn lemma_binomial_full(n: nat)
    ensures
        binomial(n, n) == 1,
    decreases n,
{
    if n > 0 {
        lemma_binomial_full((n - 1) as nat);
        lemma_binomial_above((n - 1) as nat, n);
    }
}

proof fn lemma_binomial_one(n: nat)
    ensures
        binomial(n, 1) == n,
    decreases n,
{
    if n > 0 {
        lemma_binomial_one((n - 1) as nat);
        assert(binomial(n, 1) == binomial((n - 1) as nat, 0) + binomial((n - 1) as nat, 1));
    }
}

/// `(k + 1) C(n, k + 1) == (n − k) C(n, k)`.
proof fn lemma_binomial_step(n: nat, k: nat)
    ensures
        (k + 1) * binomial(n, k + 1) == (n - k) * binomial(n, k),
    decreases n,
{
    if n == 0 {
        assert(binomial(0, k + 1) == 0);
        if k > 0 {
            lemma_binomial_above(0, k);
            assert((0 - k) * binomial(0, k) == 0) by (nonlinear_arith)
                requires
                    binomial(0, k) == 0,
            ;
        }
        assert((k + 1) * binomial(n, k + 1) == 0) by (nonlinear_arith)
            requires
                binomial(n, k + 1) == 0,
        ;
    } else {
        let a = binomial((n - 1) as nat, k);
        let b = binomial((n - 1) as nat, k + 1);
        lemma_binomial_step((n - 1) as nat, k);
        assert((k + 1) * binomial(n, k + 1) == (k + 1) * a + (k + 1) * b) by (nonlinear_arith)
            requires
                binomial(n, k + 1) == a + b,
        ;
        assert((k + 1) * binomial(n, k + 1) == n * a) by (nonlinear_arith)
            requires
                (k + 1) * binomial(n, k + 1) == (k + 1) * a + (k + 1) * b,
                (k + 1) * b == (n - 1 - k) * a,
        ;
        if k == 0 {
            assert(binomial((n - 1) as nat, 0) == 1);
            assert(binomial(n, 0) == 1);
            assert((n - k) * binomial(n, k) == n * a) by (nonlinear_arith)
                requires
                    binomial(n, k) == 1,
                    a == 1,
                    k == 0,
            ;
        } else {
            let c = binomial((n - 1) as nat, (k - 1) as nat);
            lemma_binomial_step((n - 1) as nat, (k - 1) as nat);
            assert(binomial(n, k) == c + a);
            assert((n - k) * binomial(n, k) == n * a) by (nonlinear_arith)
                requires
                    binomial(n, k) == c + a,
                    k * a == (n - 1 - (k - 1)) * c,
            ;
        }
    }
}

/// `C(n, k) == C(n, n − k)`.
proof fn lemma_binomial_symmetric(n: nat, k: nat)
    requires
        k <= n,
    ensures
        binomial(n, k) == binomial(n, (n - k) as nat),
    decreases n,
{
    if k == 0 {
        lemma_binomial_full(n);
    } else if k == n {
        lemma_binomial_full(n);
    } else {
        lemma_binomial_symmetric((n - 1) as nat, (k - 1) as nat);
        lemma_binomial_symmetric((n - 1) as nat, k);
    }
}

/// `C(n, j) <= C(n, k)` for `j <= k <= n / 2`.
proof fn lemma_binomial_rises(n: nat, j: nat, k: nat)
    requires
        j <= k,
        2 * k <= n,
    ensures
        binomial(n, j) <= binomial(n, k),
    decreases k - j,
{
    if j < k {
        lemma_binomial_rises(n, j + 1, k);
        lemma_binomial_step(n, j);
        let x = binomial(n, j);
        let y = binomial(n, j + 1);
        assert(x <= y) by (nonlinear_arith)
            requires
                (j + 1) * y == (n - j) * x,
                n - j >= j + 1,
        ;
    }
}

/// `C(d + k, k) >= d + 1` for `k >= 1`.
proof fn lemma_binomial_at_least(d: nat, k: nat)
    requires
        k >= 1,
    ensures
        binomial(d + k, k) >= d + 1,
    decreases k,
{
    if k == 1 {
        lemma_binomial_one(d + 1);
    } else {
        lemma_binomial_at_least(d, (k - 1) as nat);
    }
}


/// The length of the compositions of `total` into `parts` counts.
proof fn lemma_compositions_len(parts: nat, total: nat)
    requires
        parts >= 1,
    ensures
        compositions(parts, total).len() == binomial((total + parts - 1) as nat, (parts - 1) as nat),
    decreases parts, total + 2,
{
    if parts == 1 {
    } else {
        lemma_compositions_from_len(parts, total, 0);
    }
}

proof fn lemma_compositions_from_len(parts: nat, total: nat, first: nat)
    requires
        parts >= 2,
        first <= total,
    ensures
        compositions_from(parts, total, first).len() == binomial((total - first + parts - 1) as nat, (parts - 1) as nat),
    decreases parts, total + 1 - first,
{
    lemma_compositions_len((parts - 1) as nat, (total - first) as nat);
    if first == total {
        assert(compositions_from(parts, total, first + 1).len() == 0);
        lemma_binomial_full((parts - 2) as nat);
        lemma_binomial_full((parts - 1) as nat);
    } else {
        lemma_compositions_from_len(parts, total, first + 1);
    }
}

/// Each point of `points` after `prefix`, for a point split into its first count and the rest.
proof fn lemma_extended_split(prefix: Seq<nat>, first: nat, rests: Seq<Seq<nat>>, later: Seq<Seq<nat>>)
    ensures
        extended(prefix, rests.map_values(|rest: Seq<nat>| seq![first] + rest) + later)
            == extended(prefix.push(first), rests) + extended(prefix, later),
{
    let lhs = extended(prefix, rests.map_values(|rest: Seq<nat>| seq![first] + rest) + later);
    let rhs = extended(prefix.push(first), rests) + extended(prefix, later);
    assert forall|i: int| 0 <= i < lhs.len() implies lhs[i] == rhs[i] by {
        if i < rests.len() {
            assert(prefix + (seq![first] + rests[i]) =~= prefix.push(first) + rests[i]);
        }
    }
    assert(lhs =~= rhs);
}

/// Whether `a` comes before `b` in lexicographic order: equal up to some count, smaller there.
pub open spec fn lex_less(a: Seq<nat>, b: Seq<nat>) -> bool {
    exists|j: int| 0 <= j < a.len() && j < b.len() && a.take(j) == b.take(j) && #[trigger] a[j] < b[j]
}

proof fn lemma_total_of_front(first: nat, rest: Seq<nat>)
    ensures
        total_of(seq![first] + rest) == first + total_of(rest),
{
    assert((seq![first] + rest).drop_first() =~= rest);
}

proof fn lemma_lex_less_front(first: nat, a: Seq<nat>, b: Seq<nat>)
    requires
        lex_less(a, b),
    ensures
        lex_less(seq![first] + a, seq![first] + b),
{
    let j = choose|j: int| 0 <= j < a.len() && j < b.len() && a.take(j) == b.take(j) && #[trigger] a[j] < b[j];
    let fa = seq![first] + a;
    let fb = seq![first] + b;
    assert(fa.take(j + 1) =~= seq![first] + a.take(j));
    assert(fb.take(j + 1) =~= seq![first] + b.take(j));
    assert(fa[j + 1] == a[j]);
    assert(fb[j + 1] == b[j]);
}

proof fn lemma_lex_less_first(a: Seq<nat>, b: Seq<nat>)
    requires
        a.len() > 0,
        b.len() > 0,
        a[0] < b[0],
    ensures
        lex_less(a, b),
{
    assert(a.take(0) =~= b.take(0));
}

/// The shape, order and completeness of the compositions of `total` into `parts` counts.
proof fn lemma_compositions_shape(parts: nat, total: nat)
    ensures
        forall|i: int| 0 <= i < compositions(parts, total).len() ==> {
            &&& (#[trigger] compositions(parts, total)[i]).len() == parts
            &&& total_of(compositions(parts, total)[i]) == total
        },
        forall|i: int, j: int| 0 <= i < j < compositions(parts, total).len()
            ==> lex_less(#[trigger] compositions(parts, total)[i], #[trigger] compositions(parts, total)[j]),
        forall|p: Seq<nat>| p.len() == parts && parts >= 1 && total_of(p) == total
            ==> #[trigger] compositions(parts, total).contains(p),
    decreases parts, total + 2,
{
    if parts == 1 {
        let all = compositions(parts, total);
        assert(total_of(seq![total]) == total) by {
            lemma_total_of_front(total, Seq::empty());
        }
        assert forall|p: Seq<nat>| p.len() == parts && total_of(p) == total implies #[trigger] all.contains(p) by {
            assert(p.drop_first().len() == 0);
            assert(total_of(p.drop_first()) == 0);
            assert(p[0] == total);
            assert(p =~= seq![total]);
            assert(all[0] == p);
        }
    } else if parts >= 2 {
        assert(compositions(parts, total) == compositions_from(parts, total, 0));
        lemma_compositions_from_shape(parts, total, 0);
    }
}

proof fn lemma_compositions_from_shape(parts: nat, total: nat, first: nat)
    requires
        parts >= 2,
    ensures
        forall|i: int| 0 <= i < compositions_from(parts, total, first).len() ==> {
            &&& (#[trigger] compositions_from(parts, total, first)[i]).len() == parts
            &&& total_of(compositions_from(parts, total, first)[i]) == total
            &&& compositions_from(parts, total, first)[i][0] >= first
        },
        forall|i: int, j: int| 0 <= i < j < compositions_from(parts, total, first).len()
            ==> lex_less(#[trigger] compositions_from(parts, total, first)[i], #[trigger] compositions_from(parts, total, first)[j]),
        forall|p: Seq<nat>| p.len() == parts && total_of(p) == total && p[0] >= first
            ==> #[trigger] compositions_from(parts, total, first).contains(p),
    decreases parts, total + 1 - first,
{
    if first <= total {
        let rests = compositions((parts - 1) as nat, (total - first) as nat);
        let here = rests.map_values(|rest: Seq<nat>| seq![first] + rest);
        let later = compositions_from(parts, total, first + 1);
        let all = compositions_from(parts, total, first);
        assert(all == here + later);
        lemma_compositions_shape((parts - 1) as nat, (total - first) as nat);
        lemma_compositions_from_shape(parts, total, first + 1);
        assert forall|i: int| 0 <= i < all.len() implies {
            &&& (#[trigger] all[i]).len() == parts
            &&& total_of(all[i]) == total
            &&& all[i][0] >= first
        } by {
            if i < here.len() {
                assert(all[i] == seq![first] + rests[i]);
                assert(rests[i].len() == parts - 1);
                lemma_total_of_front(first, rests[i]);
            } else {
                assert(all[i] == later[i - here.len()]);
            }
        }
        assert forall|i: int, j: int| 0 <= i < j < all.len() implies lex_less(#[trigger] all[i], #[trigger] all[j]) by {
            if j < here.len() {
                assert(rests[i] == rests[i]);
                assert(lex_less(rests[i], rests[j]));
                lemma_lex_less_front(first, rests[i], rests[j]);
            } else if i < here.len() {
                assert(all[i] == seq![first] + rests[i]);
                assert(all[j] == later[j - here.len()]);
                assert(later[j - here.len()][0] >= first + 1);
                lemma_lex_less_first(all[i], all[j]);
            } else {
                assert(all[i] == later[i - here.len()]);
                assert(all[j] == later[j - here.len()]);
            }
        }
        assert forall|p: Seq<nat>| p.len() == parts && total_of(p) == total && p[0] >= first
            implies #[trigger] all.contains(p) by {
            if p[0] == first {
                let rest = p.drop_first();
                assert(p =~= seq![first] + rest);
                lemma_total_of_front(first, rest);
                assert(rests.contains(rest));
                let k = choose|k: int| 0 <= k < rests.len() && rests[k] == rest;
                assert(all[k] == p);
            } else {
                assert(later.contains(p));
                let k = choose|k: int| 0 <= k < later.len() && later[k] == p;
                assert(all[k + here.len()] == p);
            }
        }
    } else {
        assert forall|p: Seq<nat>| p.len() == parts && total_of(p) == total && p[0] >= first
            implies #[trigger] compositions_from(parts, total, first).contains(p) by {
            lemma_total_of_front(p[0], p.drop_first());
            assert(p =~= seq![p[0]] + p.drop_first());
        }
    }
}

/// The Das-Dennis points with `m >= 1` coordinates and `divisions >= 1` divisions are every
/// sequence of `m` counts adding up to `divisions`, each once, in increasing lexicographic
/// order, and there are `C(divisions + m − 1, m − 1)` of them.
pub proof fn lemma_lattice(m: nat, divisions: nat)
    requires
        m >= 1,
        divisions >= 1,
    ensures
        lattice(m, divisions).len() == lattice_size(m, divisions),
        forall|i: int| 0 <= i < lattice(m, divisions).len() ==> {
            &&& (#[trigger] lattice(m, divisions)[i]).len() == m
            &&& total_of(lattice(m, divisions)[i]) == divisions
        },
        forall|i: int, j: int| 0 <= i < j < lattice(m, divisions).len()
            ==> lex_less(#[trigger] lattice(m, divisions)[i], #[trigger] lattice(m, divisions)[j]),
        forall|p: Seq<nat>| p.len() == m && total_of(p) == divisions ==> #[trigger] lattice(m, divisions).contains(p),
{
    lemma_compositions_len(m, divisions);
    lemma_compositions_shape(m, divisions);
}

/// `C(divisions + m − 1, m − 1)`, the number of Das-Dennis points with `m` coordinates and
/// `divisions` divisions, or `usize::MAX` where it's larger.
pub fn das_dennis_count(m: usize, divisions: usize) -> (r: usize)
    requires
        m >= 1,
        divisions + m - 1 <= usize::MAX,
    ensures
        r == if lattice_size(m as nat, divisions as nat) > usize::MAX { usize::MAX as nat } else {
            lattice_size(m as nat, divisions as nat)
        },
{
    let k: usize = m - 1;
    let n: u128 = divisions as u128 + k as u128;
    // C(n, k) == C(n, divisions): the smaller takes fewer steps, none of which overflows early
    let steps: usize = if k < divisions { k } else { divisions };
    let ghost nn = n as nat;
    proof {
        lemma_binomial_symmetric(nn, k as nat);
        assert(binomial(nn, k as nat) == binomial(nn, steps as nat));
    }
    let mut count: u128 = 1;
    let mut i: usize = 0;
    while i < steps
        invariant
            i <= steps,
            n == divisions + k,
            steps == k || steps == divisions,
            steps <= k && steps <= divisions,
            nn == n,
            k + 1 == m,
            binomial(nn, k as nat) == binomial(nn, steps as nat),
            count == binomial(nn, i as nat),
        decreases steps - i,
    {
        let factor: u128 = n - i as u128;
        proof {
            lemma_binomial_step(nn, i as nat);
        }
        match count.checked_mul(factor) {
            None => {
                proof {
                    let next = binomial(nn, (i + 1) as nat);
                    assert((i + 1) * next == factor * count);
                    assert(next > usize::MAX) by (nonlinear_arith)
                        requires
                            (i + 1) * next == factor * count,
                            factor * count > u128::MAX,
                            i + 1 <= usize::MAX,
                            usize::MAX < 0x1_0000_0000_0000_0000,
                    ;
                    lemma_binomial_rises(nn, (i + 1) as nat, steps as nat);
                    assert(lattice_size(m as nat, divisions as nat) == binomial(nn, k as nat));
                }
                return usize::MAX;
            },
            Some(product) => {
                let next: u128 = product / (i as u128 + 1);
                proof {
                    let b = binomial(nn, (i + 1) as nat);
                    assert((i + 1) * b == product);
                    assert(next == b) by (nonlinear_arith)
                        requires
                            (i + 1) * b == product,
                            next == product as int / (i + 1),
                            i + 1 > 0,
                    ;
                }
                count = next;
            },
        }
        i = i + 1;
    }
    if count > usize::MAX as u128 {
        usize::MAX
    } else {
        count as usize
    }
}

/// The smallest number of divisions, at least 1, with at least `points` Das-Dennis points of `m`
/// coordinates.
pub fn divisions_for(m: usize, points: usize) -> (r: usize)
    requires
        m >= 1,
        // with one coordinate there is one point, whatever the divisions
        m >= 2 || points <= 1,
        (if points > 1 { points } else { 1 }) + m - 1 <= usize::MAX,
    ensures
        r >= 1,
        lattice_size(m as nat, r as nat) >= points,
        forall|d: nat| 1 <= d < r ==> lattice_size(m as nat, d) < points,
{
    let mut divisions: usize = 1;
    while das_dennis_count(m, divisions) < points
        invariant
            m >= 1,
            m >= 2 || points <= 1,
            (if points > 1 { points } else { 1 }) + m - 1 <= usize::MAX,
            1 <= divisions <= (if points > 1 { points } else { 1 }),
            forall|d: nat| 1 <= d < divisions ==> lattice_size(m as nat, d) < points,
        decreases points - divisions,
    {
        proof {
            if m == 1 {
                assert(lattice_size(m as nat, divisions as nat) == 1);
            } else {
                lemma_binomial_at_least(divisions as nat, (m - 1) as nat);
                assert(divisions as nat + (m - 1) as nat == (divisions + m - 1) as nat);
            }
        }
        divisions = divisions + 1;
    }
    divisions
}

// sets the counts from `position` on, with `left` still to share, and records each point
fn fill(counts: &mut Vec<usize>, position: usize, left: usize, points: &mut Vec<Vec<usize>>)
    requires
        position < old(counts)@.len(),
    ensures
        final(counts)@.len() == old(counts)@.len(),
        final(counts)@.take(position as int) == old(counts)@.take(position as int),
        as_points(final(points)@) == as_points(old(points)@) + extended(
            counts_of(old(counts)@.take(position as int)),
            compositions((old(counts)@.len() - position) as nat, left as nat),
        ),
    decreases old(counts)@.len() - position,
{
    let ghost prefix = counts_of(counts@.take(position as int));
    let ghost start = as_points(points@);
    let ghost parts = (counts@.len() - position) as nat;
    let last = counts.len() - 1;
    if position == last {
        counts.set(position, left);
        let point = copy_of(counts.as_slice());
        points.push(point);
        proof {
            assert(counts@.take(position as int) =~= old(counts)@.take(position as int));
            assert(counts_of(point@) =~= prefix + seq![left as nat]);
            assert(as_points(points@) =~= start.push(counts_of(point@)));
            assert(extended(prefix, compositions(parts, left as nat)) =~= seq![prefix + seq![left as nat]]);
        }
        return;
    }
    let ghost target = start + extended(prefix, compositions(parts, left as nat));
    assert(compositions(parts, left as nat) == compositions_from(parts, left as nat, 0));
    let mut count: usize = 0;
    loop
        invariant_except_break
            count <= left,
            as_points(points@) + extended(prefix, compositions_from(parts, left as nat, count as nat)) == target,
        invariant
            position < last,
            last + 1 == counts@.len(),
            parts == counts@.len() - position,
            counts@.len() == old(counts)@.len(),
            counts@.take(position as int) == old(counts)@.take(position as int),
            prefix == counts_of(counts@.take(position as int)),
        ensures
            as_points(points@) == target,
        decreases left - count,
    {
        let ghost before = as_points(points@);
        counts.set(position, count);
        proof {
            assert(counts@.take(position as int) =~= old(counts)@.take(position as int));
            assert(counts_of(counts@.take(position + 1)) =~= prefix.push(count as nat));
        }
        fill(counts, position + 1, left - count, points);
        proof {
            assert(counts@.take(position as int) =~= counts@.take(position + 1).take(position as int));
            let rests = compositions((parts - 1) as nat, (left - count) as nat);
            let later = compositions_from(parts, left as nat, (count + 1) as nat);
            lemma_extended_split(prefix, count as nat, rests, later);
            assert(compositions_from(parts, left as nat, count as nat)
                == rests.map_values(|rest: Seq<nat>| seq![count as nat] + rest) + later);
            assert(as_points(points@) == before + extended(prefix.push(count as nat), rests));
            assert(as_points(points@) + extended(prefix, later) =~= before + extended(prefix, compositions_from(parts, left as nat, count as nat)));
            if count == left {
                assert(later.len() == 0);
                assert(as_points(points@) =~= as_points(points@) + extended(prefix, later));
            }
        }
        if count == left {
            break;
        }
        count = count + 1;
    }
}

/// The Das-Dennis points with `m` coordinates and `divisions` divisions, as counts of
/// `1 / divisions`: every sequence of `m` counts that add up to `divisions`, in lexicographic
/// order, so that each point's coordinates sum to 1. None for 0 coordinates or 0 divisions.
pub fn das_dennis(m: usize, divisions: usize) -> (r: Vec<Vec<usize>>)
    ensures
        as_points(r@) == lattice(m as nat, divisions as nat),
{
    let mut points: Vec<Vec<usize>> = Vec::new();
    if m == 0 || divisions == 0 {
        proof {
            assert(as_points(points@) =~= Seq::<Seq<nat>>::empty());
        }
        return points;
    }
    let mut counts: Vec<usize> = Vec::new();
    while counts.len() < m
        invariant
            counts@.len() <= m,
        decreases m - counts@.len(),
    {
        counts.push(0);
    }
    proof {
        assert(as_points(points@) =~= Seq::<Seq<nat>>::empty());
        assert(counts_of(counts@.take(0)) =~= Seq::<nat>::empty());
    }
    fill(&mut counts, 0, divisions, &mut points);
    proof {
        let all = compositions(m as nat, divisions as nat);
        assert(extended(Seq::<nat>::empty(), all) =~= all) by {
            assert forall|i: int| 0 <= i < all.len() implies extended(Seq::<nat>::empty(), all)[i] == all[i] by {
                assert(Seq::<nat>::empty() + all[i] =~= all[i]);
            }
        }
        assert(Seq::<Seq<nat>>::empty() + extended(Seq::<nat>::empty(), all) =~= all);
    }
    points
}

} // verus!
