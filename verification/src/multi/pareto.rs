//! Pareto dominance and non-dominated sorting.

use super::scores::{dominance, minimized, minimized_key, pareto_dominates, same_scores, Scores};
use crate::fitness::{key, Objective};
use crate::genome::is_permutation;
use vstd::prelude::*;

verus! {

/// The key by which `bits` are minimized for `objective`: [`minimized_key`].
fn minimized_key_of(objective: Objective, bits: u64) -> (k: u64)
    ensures
        k == minimized_key(objective, bits),
{
    match objective {
        Objective::Minimize => key(bits),
        Objective::Maximize => u64::MAX - key(bits),
    }
}

/// Whether the valid scores of `s` have a value per objective.
pub open spec fn fits(s: Scores, objectives: Seq<Objective>) -> bool {
    s.spec_is_valid() ==> s.spec_values().len() == objectives.len()
}

/// Whether `a` dominates `b`, by constrained dominance (Deb, 2000):
///
/// 1. Every valid solution dominates an invalid one.
/// 2. A feasible solution dominates an infeasible one.
/// 3. Between infeasible solutions, the smaller constraint violation dominates, whatever the
///    objective values.
/// 4. Between feasible solutions, Pareto dominance: `a` is at least as good as `b` in every
///    objective and better in at least one, in the direction of each objective in `objectives`.
///
/// Equal scores don't dominate each other.
pub fn dominates(a: &Scores, b: &Scores, objectives: &[Objective]) -> (r: bool)
    requires
        fits(*a, objectives@),
        fits(*b, objectives@),
    ensures
        r == dominance(*a, *b, objectives@),
{
    proof {
        use_type_invariant(a);
        use_type_invariant(b);
    }
    if !a.is_valid() {
        return false;
    }
    if !b.is_valid() {
        return true;
    }
    if a.violation() != b.violation() {
        return a.violation() < b.violation();
    }
    if a.violation() != 0 {
        // equally infeasible
        return false;
    }
    let ghost ka = minimized(a.spec_values(), objectives@);
    let ghost kb = minimized(b.spec_values(), objectives@);
    let mut better = false;
    let mut j: usize = 0;
    while j < objectives.len()
        invariant
            j <= objectives@.len(),
            a.spec_is_valid() && b.spec_is_valid(),
            a.spec_violation() == 0 && b.spec_violation() == 0,
            a.spec_values().len() == objectives@.len(),
            b.spec_values().len() == objectives@.len(),
            ka == minimized(a.spec_values(), objectives@),
            kb == minimized(b.spec_values(), objectives@),
            forall|i: int| 0 <= i < j ==> #[trigger] ka[i] <= kb[i],
            better == exists|i: int| 0 <= i < j && #[trigger] ka[i] < kb[i],
        decreases objectives@.len() - j,
    {
        let x = minimized_key_of(objectives[j], a.value(j));
        let y = minimized_key_of(objectives[j], b.value(j));
        assert(x == ka[j as int] && y == kb[j as int]);
        if x > y {
            proof {
                assert(!(ka[j as int] <= kb[j as int]));
                assert(!pareto_dominates(ka, kb));
                assert(dominance(*a, *b, objectives@) == pareto_dominates(ka, kb));
            }
            return false;
        }
        if x < y {
            better = true;
        }
        j = j + 1;
    }
    better
}

/// Constrained dominance is a strict partial order: irreflexive, asymmetric and transitive.
pub proof fn lemma_dominance_is_strict_partial_order(a: Scores, b: Scores, c: Scores, objectives: Seq<Objective>)
    requires
        fits(a, objectives),
        fits(b, objectives),
        fits(c, objectives),
    ensures
        !dominance(a, a, objectives),
        dominance(a, b, objectives) ==> !dominance(b, a, objectives),
        dominance(a, b, objectives) && dominance(b, c, objectives) ==> dominance(a, c, objectives),
{
    let (ka, kb, kc) = (
        minimized(a.spec_values(), objectives),
        minimized(b.spec_values(), objectives),
        minimized(c.spec_values(), objectives),
    );
    lemma_pareto_is_strict_partial_order(ka, kb, kc);
}

/// Pareto dominance is a strict partial order.
pub proof fn lemma_pareto_is_strict_partial_order(a: Seq<u64>, b: Seq<u64>, c: Seq<u64>)
    ensures
        !pareto_dominates(a, a),
        pareto_dominates(a, b) ==> !pareto_dominates(b, a),
        pareto_dominates(a, b) && pareto_dominates(b, c) ==> pareto_dominates(a, c),
{
    if pareto_dominates(a, b) && pareto_dominates(b, a) {
        let j = choose|j: int| 0 <= j < a.len() && #[trigger] a[j] < b[j];
        assert(b[j] <= a[j]);
    }
    if pareto_dominates(a, b) && pareto_dominates(b, c) {
        let j = choose|j: int| 0 <= j < a.len() && #[trigger] a[j] < b[j];
        assert(b[j] <= c[j]);
        assert(a[j] < c[j]);
    }
}

/// Whether `a` comes before `b` in lexicographic order: equal up to a position, smaller there.
pub open spec fn lex_before(a: Seq<u64>, b: Seq<u64>) -> bool {
    exists|k: int| 0 <= k < a.len() && k < b.len() && a.take(k) == b.take(k) && #[trigger] a[k] < b[k]
}

/// Two sequences of one length are equal or differ first at some position.
#[verifier::spinoff_prover]
#[verifier::rlimit(40)]
proof fn lemma_first_difference(a: Seq<u64>, b: Seq<u64>)
    requires
        a.len() == b.len(),
        a != b,
    ensures
        exists|k: int| 0 <= k < a.len() && a.take(k) == b.take(k) && #[trigger] a[k] != b[k],
    decreases a.len(),
{
    if a.len() == 0 {
        assert(a =~= b);
    } else if a[0] != b[0] {
        assert(a.take(0) =~= b.take(0));
    } else {
        let (ra, rb) = (a.drop_first(), b.drop_first());
        assert(ra != rb) by {
            if ra == rb {
                assert(a =~= seq![a[0]] + ra);
                assert(b =~= seq![b[0]] + rb);
            }
        }
        lemma_first_difference(ra, rb);
        let k = choose|k: int| 0 <= k < ra.len() && ra.take(k) == rb.take(k) && #[trigger] ra[k] != rb[k];
        assert(a.take(k + 1) =~= seq![a[0]] + ra.take(k));
        assert(b.take(k + 1) =~= seq![b[0]] + rb.take(k));
        assert(a[k + 1] == ra[k]);
    }
}

/// Lexicographic order between sequences of one length is a strict weak order (a total one).
proof fn lemma_lex_before_is_strict_weak_order(a: Seq<u64>, b: Seq<u64>, c: Seq<u64>)
    requires
        a.len() == b.len(),
        b.len() == c.len(),
    ensures
        !lex_before(a, a),
        lex_before(a, b) ==> !lex_before(b, a),
        lex_before(a, b) && lex_before(b, c) ==> lex_before(a, c),
        !lex_before(a, b) && !lex_before(b, a) ==> a == b,
        !lex_before(a, b) && !lex_before(b, c) ==> !lex_before(a, c),
{
    lemma_lex_before_transitive(a, b, c);
    lemma_lex_before_asymmetric(a, b);
    lemma_lex_before_total(a, b);
    lemma_lex_before_total(b, c);
    lemma_lex_before_transitive(c, b, a);
    lemma_lex_before_asymmetric(a, c);
}

proof fn lemma_lex_before_asymmetric(a: Seq<u64>, b: Seq<u64>)
    ensures
        !lex_before(a, a),
        lex_before(a, b) ==> !lex_before(b, a),
{
    if lex_before(a, b) && lex_before(b, a) {
        let k = choose|k: int| 0 <= k < a.len() && k < b.len() && a.take(k) == b.take(k) && #[trigger] a[k] < b[k];
        let m = choose|m: int| 0 <= m < b.len() && m < a.len() && b.take(m) == a.take(m) && #[trigger] b[m] < a[m];
        if k < m {
            assert(a.take(m)[k] == b.take(m)[k]);
        } else if m < k {
            assert(a.take(k)[m] == b.take(k)[m]);
        }
    }
}

proof fn lemma_lex_before_transitive(a: Seq<u64>, b: Seq<u64>, c: Seq<u64>)
    requires
        a.len() == b.len(),
        b.len() == c.len(),
    ensures
        lex_before(a, b) && lex_before(b, c) ==> lex_before(a, c),
{
    if lex_before(a, b) && lex_before(b, c) {
        let k = choose|k: int| 0 <= k < a.len() && k < b.len() && a.take(k) == b.take(k) && #[trigger] a[k] < b[k];
        let m = choose|m: int| 0 <= m < b.len() && m < c.len() && b.take(m) == c.take(m) && #[trigger] b[m] < c[m];
        if k < m {
            assert(b.take(m)[k] == c.take(m)[k]);
            assert(a.take(k) =~= c.take(k)) by {
                assert forall|i: int| 0 <= i < k implies a.take(k)[i] == c.take(k)[i] by {
                    assert(a.take(k)[i] == b.take(k)[i]);
                    assert(b.take(m)[i] == c.take(m)[i]);
                }
            }
            assert(a[k] < c[k]);
        } else if m < k {
            assert(a.take(k)[m] == b.take(k)[m]);
            assert(a.take(m) =~= c.take(m)) by {
                assert forall|i: int| 0 <= i < m implies a.take(m)[i] == c.take(m)[i] by {
                    assert(a.take(k)[i] == b.take(k)[i]);
                    assert(b.take(m)[i] == c.take(m)[i]);
                }
            }
            assert(a[m] < c[m]);
        } else {
            assert(a.take(k) =~= c.take(k));
            assert(a[k] < c[k]);
        }
    }
}

proof fn lemma_lex_before_total(a: Seq<u64>, b: Seq<u64>)
    requires
        a.len() == b.len(),
    ensures
        a == b || lex_before(a, b) || lex_before(b, a),
{
    if a != b {
        lemma_first_difference(a, b);
        let k = choose|k: int| 0 <= k < a.len() && a.take(k) == b.take(k) && #[trigger] a[k] != b[k];
        if a[k] < b[k] {
            assert(lex_before(a, b));
        } else {
            assert(b.take(k) == a.take(k));
            assert(lex_before(b, a));
        }
    }
}

/// A point that Pareto-dominates another comes first in lexicographic order.
proof fn lemma_dominance_is_lex_before(a: Seq<u64>, b: Seq<u64>)
    requires
        pareto_dominates(a, b),
    ensures
        lex_before(a, b),
{
    let j = choose|j: int| 0 <= j < a.len() && #[trigger] a[j] < b[j];
    assert(a != b) by {
        assert(a[j] != b[j]);
    }
    lemma_first_difference(a, b);
    let k = choose|k: int| 0 <= k < a.len() && a.take(k) == b.take(k) && #[trigger] a[k] != b[k];
    assert(a[k] <= b[k]);
}

/// The points of `points` seen through the values of each vector.
pub open spec fn points_of(points: Seq<Vec<u64>>) -> Seq<Seq<u64>> {
    points.map_values(|point: Vec<u64>| point@)
}

/// Whether `order` holds the positions of `points` in lexicographic order, the earlier position
/// first on ties.
pub open spec fn is_lexicographic_order(points: Seq<Seq<u64>>, order: Seq<usize>) -> bool {
    &&& order.len() == points.len()
    &&& is_permutation(order)
    &&& forall|i: int, j: int| 0 <= i < j < order.len()
        ==> !lex_before(points[#[trigger] order[j] as int], points[#[trigger] order[i] as int])
    &&& forall|i: int, j: int| 0 <= i < j < order.len()
        && !lex_before(points[#[trigger] order[i] as int], points[#[trigger] order[j] as int])
        ==> order[i] < order[j]
}

/// Whether every point has `m` coordinates.
pub open spec fn all_of_len(points: Seq<Seq<u64>>, m: int) -> bool {
    forall|i: int| 0 <= i < points.len() ==> (#[trigger] points[i]).len() == m
}

/// Whether `a` comes before `b` in lexicographic order: [`lex_before`].
fn lex_before_exec(a: &Vec<u64>, b: &Vec<u64>) -> (r: bool)
    requires
        a@.len() == b@.len(),
    ensures
        r == lex_before(a@, b@),
{
    let mut k: usize = 0;
    while k < a.len()
        invariant
            a@.len() == b@.len(),
            k <= a@.len(),
            a@.take(k as int) == b@.take(k as int),
        decreases a@.len() - k,
    {
        if a[k] != b[k] {
            proof {
                if a[k as int] > b[k as int] {
                    if lex_before(a@, b@) {
                        let m = choose|m: int| 0 <= m < a@.len() && m < b@.len() && a@.take(m) == b@.take(m) && #[trigger] a@[m] < b@[m];
                        if m < k {
                            assert(a@.take(k as int)[m] == b@.take(k as int)[m]);
                        } else if m > k {
                            assert(a@.take(m)[k as int] == b@.take(m)[k as int]);
                        }
                    }
                }
            }
            return a[k] < b[k];
        }
        proof {
            assert(a@.take(k + 1) =~= a@.take(k as int).push(a@[k as int]));
            assert(b@.take(k + 1) =~= b@.take(k as int).push(b@[k as int]));
        }
        k = k + 1;
    }
    proof {
        assert(a@ =~= a@.take(k as int));
        assert(b@ =~= b@.take(k as int));
        lemma_lex_before_asymmetric(a@, a@);
    }
    false
}

/// The positions of `points`, lexicographically sorted, the earlier position on ties.
pub fn lexicographic_order(points: &Vec<Vec<u64>>, m: usize) -> (order: Vec<usize>)
    requires
        all_of_len(points_of(points@), m as int),
    ensures
        is_lexicographic_order(points_of(points@), order@),
{
    let n = points.len();
    let ghost p = points_of(points@);
    assert forall|a: int| 0 <= a < n implies (#[trigger] points@[a])@.len() == m by {
        assert(p[a] == points@[a]@);
    }
    let mut order: Vec<usize> = Vec::new();
    let mut i: usize = 0;
    while i < n
        invariant
            n == points@.len(),
            p == points_of(points@),
            all_of_len(p, m as int),
            forall|a: int| 0 <= a < n ==> (#[trigger] points@[a])@.len() == m,
            i <= n,
            order@.len() == i,
            forall|a: int| 0 <= a < i ==> (#[trigger] order@[a] as int) < i,
            is_lexicographic_order(p.take(i as int), order@),
        decreases n - i,
    {
        let ghost before = order@;
        let mut k: usize = i;
        while k > 0 && lex_before_exec(&points[i], &points[order[k - 1]])
            invariant
                n == points@.len(),
                p == points_of(points@),
                all_of_len(p, m as int),
                forall|a: int| 0 <= a < n ==> (#[trigger] points@[a])@.len() == m,
                i < n,
                order@ == before,
                before.len() == i,
                k <= i,
                forall|a: int| 0 <= a < i ==> (#[trigger] before[a] as int) < i,
                forall|j: int| k <= j < i ==> lex_before(p[i as int], p[#[trigger] before[j] as int]),
            decreases k,
        {
            proof {
                assert(points@[i as int]@ == p[i as int]);
                assert(points@[before[k - 1] as int]@ == p[before[k - 1] as int]);
            }
            k = k - 1;
        }
        proof {
            if k > 0 {
                assert(points@[i as int]@ == p[i as int]);
                assert(points@[before[k - 1] as int]@ == p[before[k - 1] as int]);
                assert(!lex_before(p[i as int], p[before[k - 1] as int]));
            }
        }
        order.insert(k, i);
        proof {
            let after = order@;
            let prefix = p.take(i as int);
            let grown = p.take(i + 1);
            let x = p[i as int];
            assert(after == before.insert(k as int, i));
            assert forall|a: int| 0 <= a < i + 1 implies #[trigger] after[a] == (if a < k { before[a] } else if a == k { i } else { before[a - 1] }) by {}
            assert forall|a: int| 0 <= a < i + 1 implies (#[trigger] after[a] as int) < i + 1 by {}
            assert forall|a: int| 0 <= a < i implies #[trigger] prefix[before[a] as int] == p[before[a] as int] by {}
            assert forall|a: int| 0 <= a < i + 1 implies #[trigger] grown[after[a] as int] == p[after[a] as int] by {}
            assert forall|a: int, b: int| 0 <= a < b < after.len() implies #[trigger] after[a] != #[trigger] after[b] by {
                if a != k as int && b != k as int {
                    let sa = if a < k { a } else { a - 1 };
                    let sb = if b < k { b } else { b - 1 };
                    assert(before[sa] != before[sb]);
                }
            }
            // sorted
            assert forall|a: int, b: int| 0 <= a < b < after.len()
                implies !lex_before(grown[#[trigger] after[b] as int], grown[#[trigger] after[a] as int]) by {
                let sa = if a < k { a } else if a == k { -1 } else { a - 1 };
                let sb = if b < k { b } else if b == k { -1 } else { b - 1 };
                if a != k as int && b != k as int {
                    assert(!lex_before(prefix[before[sb] as int], prefix[before[sa] as int]));
                } else if a == k as int {
                    assert(lex_before(x, p[before[sb] as int]));
                    lemma_lex_before_asymmetric(x, p[before[sb] as int]);
                } else {
                    // b == k, a < k
                    if sa < k - 1 {
                        assert(!lex_before(prefix[before[k - 1] as int], prefix[before[sa] as int]));
                    }
                    lemma_lex_before_is_strict_weak_order(x, p[before[k - 1] as int], p[before[sa] as int]);
                }
            }
            // ties in the order of their positions
            assert forall|a: int, b: int| 0 <= a < b < after.len()
                && !lex_before(grown[#[trigger] after[a] as int], grown[#[trigger] after[b] as int])
                implies after[a] < after[b] by {
                let sa = if a < k { a } else if a == k { -1 } else { a - 1 };
                let sb = if b < k { b } else if b == k { -1 } else { b - 1 };
                if a != k as int && b != k as int {
                    assert(!lex_before(prefix[before[sa] as int], prefix[before[sb] as int]));
                } else if a == k as int {
                    assert(lex_before(x, p[before[sb] as int]));
                }
            }
        }
        i = i + 1;
    }
    proof {
        assert(p.take(n as int) =~= p);
    }
    order
}

/// Whether `ranks` gives every point its front by Pareto dominance: a point's dominators are in
/// earlier fronts, and a point of a later front than the first has a dominator in the front
/// just before. The first front holds the points no point dominates, the second those only the
/// first front dominates, and so on.
pub open spec fn is_pareto_ranking(points: Seq<Seq<u64>>, ranks: Seq<usize>) -> bool {
    &&& ranks.len() == points.len()
    &&& forall|i: int, j: int| 0 <= i < points.len() && 0 <= j < points.len()
        && #[trigger] pareto_dominates(points[j], points[i]) ==> ranks[j] < ranks[i]
    &&& forall|i: int| 0 <= i < points.len() && #[trigger] ranks[i] > 0 ==> exists|j: int|
        0 <= j < points.len() && #[trigger] pareto_dominates(points[j], points[i]) && ranks[j] == ranks[i] - 1
}

/// Whether a member of `front` dominates the point `x`.
pub open spec fn front_dominates(points: Seq<Seq<u64>>, front: Seq<usize>, x: Seq<u64>) -> bool {
    exists|t: int| 0 <= t < front.len() && #[trigger] pareto_dominates(points[front[t] as int], x)
}

/// Whether a member of `front` dominates the point at `position`, the most recently added member
/// first: they're the most likely to dominate.
fn front_dominates_exec(points: &Vec<Vec<u64>>, m: usize, front: &Vec<usize>, position: usize) -> (r: bool)
    requires
        position < points@.len(),
        forall|a: int| 0 <= a < points@.len() ==> (#[trigger] points@[a])@.len() == m,
        forall|t: int| 0 <= t < front@.len() ==> (#[trigger] front@[t] as int) < points@.len(),
    ensures
        r == front_dominates(points_of(points@), front@, points@[position as int]@),
{
    let ghost p = points_of(points@);
    let mut t: usize = front.len();
    while t > 0
        invariant
            t <= front@.len(),
            p == points_of(points@),
            position < points@.len(),
            forall|a: int| 0 <= a < points@.len() ==> (#[trigger] points@[a])@.len() == m,
            forall|u: int| 0 <= u < front@.len() ==> (#[trigger] front@[u] as int) < points@.len(),
            forall|u: int| t <= u < front@.len() ==> !#[trigger] pareto_dominates(p[front@[u] as int], points@[position as int]@),
        decreases t,
    {
        t = t - 1;
        if pareto_dominates_exec(&points[front[t]], &points[position]) {
            proof {
                assert(p[front@[t as int] as int] == points@[front@[t as int] as int]@);
            }
            return true;
        }
        proof {
            assert(p[front@[t as int] as int] == points@[front@[t as int] as int]@);
        }
    }
    false
}

/// Whether point `a` Pareto-dominates point `b`: [`pareto_dominates`].
fn pareto_dominates_exec(a: &Vec<u64>, b: &Vec<u64>) -> (r: bool)
    requires
        a@.len() == b@.len(),
    ensures
        r == pareto_dominates(a@, b@),
{
    let mut better = false;
    let mut j: usize = 0;
    while j < a.len()
        invariant
            a@.len() == b@.len(),
            j <= a@.len(),
            forall|i: int| 0 <= i < j ==> #[trigger] a@[i] <= b@[i],
            better == exists|i: int| 0 <= i < j && #[trigger] a@[i] < b@[i],
        decreases a@.len() - j,
    {
        if a[j] > b[j] {
            proof {
                assert(!(a@[j as int] <= b@[j as int]));
            }
            return false;
        }
        if a[j] < b[j] {
            better = true;
        }
        j = j + 1;
    }
    better
}

// the fronts are dominated down to some one and not from there on
proof fn lemma_fronts_dominate_downwards(points: Seq<Seq<u64>>, fronts: Seq<Vec<usize>>, x: Seq<u64>, k1: int, k2: int)
    requires
        0 <= k1 <= k2 < fronts.len(),
        forall|k: int| 0 <= k < fronts.len() - 1 && front_dominates(points, fronts[k + 1]@, x)
            ==> #[trigger] front_dominates(points, fronts[k]@, x),
        front_dominates(points, fronts[k2]@, x),
    ensures
        front_dominates(points, fronts[k1]@, x),
    decreases k2 - k1,
{
    if k1 < k2 {
        assert(front_dominates(points, fronts[k2 - 1]@, x));
        lemma_fronts_dominate_downwards(points, fronts, x, k1, k2 - 1);
    }
}

/// The front of each of the points by Pareto dominance (ENS-BS, Zhang et al., 2015): in
/// lexicographic order no point is dominated by a later one, and if a front dominates a point,
/// every earlier front does too, so a binary search finds the first front that doesn't
/// dominate it.
pub fn ens_ranks(points: &Vec<Vec<u64>>, m: usize) -> (ranks: Vec<usize>)
    requires
        all_of_len(points_of(points@), m as int),
    ensures
        is_pareto_ranking(points_of(points@), ranks@),
        forall|a: int| 0 <= a < ranks@.len() ==> #[trigger] ranks@[a] < ranks@.len(),
{
    let n = points.len();
    let ghost p = points_of(points@);
    assert forall|a: int| 0 <= a < n implies (#[trigger] points@[a])@.len() == m by {
        assert(p[a] == points@[a]@);
    }
    let order = lexicographic_order(points, m);
    let mut ranks: Vec<usize> = Vec::new();
    while ranks.len() < n
        invariant
            ranks@.len() <= n,
        decreases n - ranks@.len(),
    {
        ranks.push(0);
    }
    let mut fronts: Vec<Vec<usize>> = Vec::new();
    let ghost mut done: Set<int> = Set::empty();
    let mut t: usize = 0;
    while t < n
        invariant
            n == points@.len(),
            p == points_of(points@),
            forall|a: int| 0 <= a < n ==> (#[trigger] points@[a])@.len() == m,
            all_of_len(p, m as int),
            is_lexicographic_order(p, order@),
            t <= n,
            ranks@.len() == n,
            fronts@.len() <= t,
            forall|x: int| #[trigger] done.contains(x) <==> exists|s: int| 0 <= s < t && order@[s] == x,
            forall|k: int| 0 <= k < fronts@.len() ==> (#[trigger] fronts@[k])@.len() > 0,
            forall|k: int, u: int| 0 <= k < fronts@.len() && 0 <= u < fronts@[k]@.len() ==> {
                &&& done.contains(#[trigger] fronts@[k]@[u] as int)
                &&& ranks@[fronts@[k]@[u] as int] == k
            },
            forall|x: int| #[trigger] done.contains(x) ==> {
                &&& 0 <= x < n
                &&& ranks@[x] < fronts@.len()
                &&& exists|u: int| 0 <= u < fronts@[ranks@[x] as int]@.len() && fronts@[ranks@[x] as int]@[u] == x
            },
            forall|x: int, y: int| done.contains(x) && done.contains(y) && #[trigger] pareto_dominates(p[y], p[x])
                ==> ranks@[y] < ranks@[x],
            forall|x: int| #[trigger] done.contains(x) && ranks@[x] > 0 ==> exists|y: int|
                done.contains(y) && #[trigger] pareto_dominates(p[y], p[x]) && ranks@[y] == ranks@[x] - 1,
        decreases n - t,
    {
        let position = order[t];
        let ghost x = position as int;
        proof {
            assert(order@[t as int] < n);
            assert(!done.contains(x)) by {
                if done.contains(x) {
                    let s = choose|s: int| 0 <= s < t && order@[s] == x;
                    assert(order@[s] != order@[t as int]);
                }
            }
        }
        // the fronts that dominate the point come first
        proof {
            assert forall|k: int| 0 <= k < fronts@.len() - 1 && front_dominates(p, fronts@[k + 1]@, p[x])
                implies #[trigger] front_dominates(p, fronts@[k]@, p[x]) by {
                let u = choose|u: int| 0 <= u < fronts@[k + 1]@.len() && #[trigger] pareto_dominates(p[fronts@[k + 1]@[u] as int], p[x]);
                let q = fronts@[k + 1]@[u] as int;
                assert(done.contains(q) && ranks@[q] == k + 1);
                let y = choose|y: int| done.contains(y) && #[trigger] pareto_dominates(p[y], p[q]) && ranks@[y] == ranks@[q] - 1;
                lemma_pareto_is_strict_partial_order(p[y], p[q], p[x]);
                let w = choose|w: int| 0 <= w < fronts@[ranks@[y] as int]@.len() && fronts@[ranks@[y] as int]@[w] == y;
                assert(pareto_dominates(p[fronts@[k]@[w] as int], p[x]));
            }
        }
        let mut lo: usize = 0;
        let mut hi: usize = fronts.len();
        while lo < hi
            invariant
                n == points@.len(),
                p == points_of(points@),
                forall|a: int| 0 <= a < n ==> (#[trigger] points@[a])@.len() == m,
                0 <= x < n,
                position == x,
                lo <= hi <= fronts@.len(),
                forall|k: int, u: int| 0 <= k < fronts@.len() && 0 <= u < fronts@[k]@.len() ==> {
                    &&& done.contains(#[trigger] fronts@[k]@[u] as int)
                    &&& ranks@[fronts@[k]@[u] as int] == k
                },
                forall|z: int| #[trigger] done.contains(z) ==> 0 <= z < n,
                forall|k: int| 0 <= k < fronts@.len() - 1 && front_dominates(p, fronts@[k + 1]@, p[x])
                    ==> #[trigger] front_dominates(p, fronts@[k]@, p[x]),
                forall|k: int| 0 <= k < lo ==> #[trigger] front_dominates(p, fronts@[k]@, p[x]),
                forall|k: int| hi <= k < fronts@.len() ==> !#[trigger] front_dominates(p, fronts@[k]@, p[x]),
            decreases hi - lo,
        {
            let mid = lo + (hi - lo) / 2;
            proof {
                assert forall|u: int| 0 <= u < fronts@[mid as int]@.len() implies (#[trigger] fronts@[mid as int]@[u] as int) < n by {
                    assert(done.contains(fronts@[mid as int]@[u] as int));
                }
            }
            if front_dominates_exec(points, m, &fronts[mid], position) {
                proof {
                    assert forall|k: int| 0 <= k < mid + 1 implies #[trigger] front_dominates(p, fronts@[k]@, p[x]) by {
                        lemma_fronts_dominate_downwards(p, fronts@, p[x], k, mid as int);
                    }
                }
                lo = mid + 1;
            } else {
                proof {
                    assert forall|k: int| mid <= k < fronts@.len() implies !#[trigger] front_dominates(p, fronts@[k]@, p[x]) by {
                        if front_dominates(p, fronts@[k]@, p[x]) {
                            lemma_fronts_dominate_downwards(p, fronts@, p[x], mid as int, k);
                        }
                    }
                }
                hi = mid;
            }
        }
        let rank = lo;
        let ghost old_fronts = fronts@;
        let ghost old_ranks = ranks@;
        ranks.set(position, rank);
        if rank == fronts.len() {
            let mut front: Vec<usize> = Vec::new();
            front.push(position);
            fronts.push(front);
        } else {
            fronts[rank].push(position);
        }
        proof {
            let old_done = done;
            done = done.insert(x);
            assert forall|z: int| #[trigger] done.contains(z) <==> exists|s: int| 0 <= s < t + 1 && order@[s] == z by {
                if done.contains(z) && z != x {
                    assert(old_done.contains(z));
                }
                if exists|s: int| 0 <= s < t + 1 && order@[s] == z {
                    let s = choose|s: int| 0 <= s < t + 1 && order@[s] == z;
                    if s < t {
                        assert(old_done.contains(z));
                    }
                }
            }
            // the fronts after the insertion
            assert forall|k: int| 0 <= k < fronts@.len() implies #[trigger] fronts@[k]@ == (if k == rank {
                if rank == old_fronts.len() { seq![position] } else { old_fronts[k]@.push(position) }
            } else { old_fronts[k]@ }) by {}
            assert forall|k: int| 0 <= k < fronts@.len() implies (#[trigger] fronts@[k])@.len() > 0 by {}
            assert forall|k: int, u: int| 0 <= k < fronts@.len() && 0 <= u < fronts@[k]@.len() implies {
                &&& done.contains(#[trigger] fronts@[k]@[u] as int)
                &&& ranks@[fronts@[k]@[u] as int] == k
            } by {
                if k == rank && u == fronts@[k]@.len() - 1 {
                } else {
                    assert(fronts@[k]@[u] == old_fronts[k]@[u]);
                    assert(old_done.contains(old_fronts[k]@[u] as int));
                    assert(old_fronts[k]@[u] as int != x);
                }
            }
            assert forall|z: int| #[trigger] done.contains(z) implies {
                &&& 0 <= z < n
                &&& ranks@[z] < fronts@.len()
                &&& exists|u: int| 0 <= u < fronts@[ranks@[z] as int]@.len() && fronts@[ranks@[z] as int]@[u] == z
            } by {
                if z == x {
                    assert(fronts@[rank as int]@[fronts@[rank as int]@.len() - 1] == z);
                } else {
                    assert(old_done.contains(z));
                    let k = old_ranks[z] as int;
                    let u = choose|u: int| 0 <= u < old_fronts[k]@.len() && old_fronts[k]@[u] == z;
                    assert(fronts@[k]@[u] == z);
                }
            }
            // the dominators of the point are in earlier fronts; it dominates none of the others
            assert forall|a: int, b: int| done.contains(a) && done.contains(b) && #[trigger] pareto_dominates(p[b], p[a])
                implies ranks@[b] < ranks@[a] by {
                if a == x && b != x {
                    assert(old_done.contains(b));
                    let k = old_ranks[b] as int;
                    let u = choose|u: int| 0 <= u < old_fronts[k]@.len() && old_fronts[k]@[u] == b;
                    assert(pareto_dominates(p[old_fronts[k]@[u] as int], p[x]));
                    assert(front_dominates(p, old_fronts[k]@, p[x]));
                    if k >= rank {
                        lemma_fronts_dominate_downwards(p, old_fronts, p[x], rank as int, k);
                    }
                } else if b == x && a != x {
                    assert(old_done.contains(a));
                    let s = choose|s: int| 0 <= s < t && order@[s] == a;
                    lemma_dominance_is_lex_before(p[x], p[a]);
                    assert(!lex_before(p[order@[t as int] as int], p[order@[s] as int]));
                } else if a == x && b == x {
                    lemma_pareto_is_strict_partial_order(p[x], p[x], p[x]);
                } else {
                    assert(old_done.contains(a) && old_done.contains(b));
                }
            }
            assert forall|z: int| #[trigger] done.contains(z) && ranks@[z] > 0 implies exists|y: int|
                done.contains(y) && #[trigger] pareto_dominates(p[y], p[z]) && ranks@[y] == ranks@[z] - 1 by {
                if z == x {
                    assert(front_dominates(p, old_fronts[rank - 1]@, p[x]));
                    let u = choose|u: int| 0 <= u < old_fronts[rank - 1]@.len() && #[trigger] pareto_dominates(p[old_fronts[rank - 1]@[u] as int], p[x]);
                    let y = old_fronts[rank - 1]@[u] as int;
                    assert(old_done.contains(y) && old_ranks[y] == rank - 1);
                    assert(y != x);
                    assert(done.contains(y) && pareto_dominates(p[y], p[z]) && ranks@[y] == ranks@[z] - 1);
                } else {
                    assert(old_done.contains(z));
                    let y = choose|y: int| old_done.contains(y) && #[trigger] pareto_dominates(p[y], p[z]) && old_ranks[y] == old_ranks[z] - 1;
                    assert(y != x);
                    assert(done.contains(y) && pareto_dominates(p[y], p[z]) && ranks@[y] == ranks@[z] - 1);
                }
            }
        }
        t = t + 1;
    }
    proof {
        // every point is done: the order holds every position
        let positions = order@;
        assert forall|z: int| 0 <= z < n implies #[trigger] done.contains(z) by {
            crate::genome::lemma_permutation_covers(positions, z);
            let s = choose|s: int| 0 <= s < positions.len() && positions[s] == z;
            assert(order@[s] == z);
        }
        assert forall|i: int, j: int| 0 <= i < n && 0 <= j < n && #[trigger] pareto_dominates(p[j], p[i])
            implies ranks@[j] < ranks@[i] by {
            assert(done.contains(i) && done.contains(j));
        }
        assert forall|i: int| 0 <= i < n && #[trigger] ranks@[i] > 0 implies exists|j: int|
            0 <= j < n && #[trigger] pareto_dominates(p[j], p[i]) && ranks@[j] == ranks@[i] - 1 by {
            assert(done.contains(i));
            let y = choose|y: int| done.contains(y) && #[trigger] pareto_dominates(p[y], p[i]) && ranks@[y] == ranks@[i] - 1;
            assert(done.contains(y));
        }
        assert forall|a: int| 0 <= a < ranks@.len() implies #[trigger] ranks@[a] < ranks@.len() by {
            assert(done.contains(a));
        }
    }
    ranks
}


// the same for fronts held as sequences
proof fn lemma_front_seqs_dominate_downwards(points: Seq<Seq<u64>>, fronts: Seq<Seq<usize>>, x: Seq<u64>, k1: int, k2: int)
    requires
        0 <= k1 <= k2 < fronts.len(),
        forall|k: int| 0 <= k < fronts.len() - 1 && front_dominates(points, fronts[k + 1], x)
            ==> #[trigger] front_dominates(points, fronts[k], x),
        front_dominates(points, fronts[k2], x),
    ensures
        front_dominates(points, fronts[k1], x),
    decreases k2 - k1,
{
    if k1 < k2 {
        assert(front_dominates(points, fronts[k2 - 1], x));
        lemma_front_seqs_dominate_downwards(points, fronts, x, k1, k2 - 1);
    }
}

// a point earlier in lexicographic order than an equal one: so is the point just before it
proof fn lemma_equal_points_are_together(p: Seq<Seq<u64>>, order: Seq<usize>, m: int, s: int, t: int)
    requires
        is_lexicographic_order(p, order),
        all_of_len(p, m),
        0 <= s < t < order.len(),
        p[order[s] as int] == p[order[t] as int],
    ensures
        p[order[t - 1] as int] == p[order[t] as int],
{
    if s < t - 1 {
        let (q, r, x) = (p[order[s] as int], p[order[t - 1] as int], p[order[t] as int]);
        assert(order[s] < p.len() && order[t - 1] < p.len() && order[t] < p.len());
        assert(!lex_before(r, q));
        assert(!lex_before(x, r));
        lemma_lex_before_is_strict_weak_order(r, x, r);
        lemma_lex_before_total(r, x);
    }
}

/// Whether, after the first `t` positions of `order` (the set `done`), `fronts` holds the
/// positions done by front, each front non-empty, and `ranks` their fronts, which follow Pareto
/// dominance among the points done.
pub open spec fn is_ranking_state(
    p: Seq<Seq<u64>>,
    order: Seq<usize>,
    t: int,
    done: Set<int>,
    fronts: Seq<Seq<usize>>,
    ranks: Seq<usize>,
) -> bool {
    &&& ranks.len() == p.len()
    &&& forall|x: int| #[trigger] done.contains(x) <==> exists|s: int| 0 <= s < t && order[s] == x
    &&& forall|k: int| 0 <= k < fronts.len() ==> (#[trigger] fronts[k]).len() > 0
    &&& forall|k: int, u: int| 0 <= k < fronts.len() && 0 <= u < fronts[k].len() ==> {
        &&& done.contains(#[trigger] fronts[k][u] as int)
        &&& ranks[fronts[k][u] as int] == k
    }
    &&& forall|x: int| #[trigger] done.contains(x) ==> {
        &&& 0 <= x < p.len()
        &&& ranks[x] < fronts.len()
        &&& exists|u: int| 0 <= u < fronts[ranks[x] as int].len() && fronts[ranks[x] as int][u] == x
    }
    &&& forall|x: int, y: int| done.contains(x) && done.contains(y) && #[trigger] pareto_dominates(p[y], p[x])
        ==> ranks[y] < ranks[x]
    &&& forall|x: int| #[trigger] done.contains(x) && ranks[x] > 0 ==> exists|y: int|
        done.contains(y) && #[trigger] pareto_dominates(p[y], p[x]) && ranks[y] == ranks[x] - 1
}

/// The fronts with `position` added to front `rank`, a new one after the others if `rank` is
/// their number.
pub open spec fn fronts_with(fronts: Seq<Seq<usize>>, rank: int, position: usize) -> Seq<Seq<usize>> {
    if rank == fronts.len() { fronts.push(seq![position]) } else { fronts.update(rank, fronts[rank].push(position)) }
}

// the fronts dominating the next point come first
proof fn lemma_state_fronts_dominate_downwards(p: Seq<Seq<u64>>, order: Seq<usize>, t: int, done: Set<int>, fronts: Seq<Seq<usize>>, ranks: Seq<usize>, x: Seq<u64>)
    requires
        is_ranking_state(p, order, t, done, fronts, ranks),
    ensures
        forall|k: int| 0 <= k < fronts.len() - 1 && front_dominates(p, fronts[k + 1], x)
            ==> #[trigger] front_dominates(p, fronts[k], x),
{
    assert forall|k: int| 0 <= k < fronts.len() - 1 && front_dominates(p, fronts[k + 1], x)
        implies #[trigger] front_dominates(p, fronts[k], x) by {
        let u = choose|u: int| 0 <= u < fronts[k + 1].len() && #[trigger] pareto_dominates(p[fronts[k + 1][u] as int], x);
        let q = fronts[k + 1][u] as int;
        assert(done.contains(q) && ranks[q] == k + 1);
        let y = choose|y: int| done.contains(y) && #[trigger] pareto_dominates(p[y], p[q]) && ranks[y] == ranks[q] - 1;
        lemma_pareto_is_strict_partial_order(p[y], p[q], x);
        let w = choose|w: int| 0 <= w < fronts[ranks[y] as int].len() && fronts[ranks[y] as int][w] == y;
        assert(pareto_dominates(p[fronts[k][w] as int], x));
    }
}

// what the fronts hold after adding the next point
proof fn lemma_fronts_with(fronts: Seq<Seq<usize>>, rank: int, position: usize)
    requires
        0 <= rank <= fronts.len(),
    ensures
        fronts_with(fronts, rank, position).len() == (if rank == fronts.len() { fronts.len() + 1 } else { fronts.len() }),
        forall|k: int| 0 <= k < fronts.len() && k != rank ==> #[trigger] fronts_with(fronts, rank, position)[k] == fronts[k],
        fronts_with(fronts, rank, position)[rank] == (if rank == fronts.len() { seq![position] } else { fronts[rank].push(position) }),
{
}

// adding the next point keeps what the fronts hold
proof fn lemma_ranking_step_fronts(p: Seq<Seq<u64>>, order: Seq<usize>, t: int, done: Set<int>, fronts: Seq<Seq<usize>>, ranks: Seq<usize>, rank: int)
    requires
        0 <= t < p.len(),
        order.len() == p.len(),
        order[t] < p.len(),
        !done.contains(order[t] as int),
        is_ranking_state(p, order, t, done, fronts, ranks),
        0 <= rank <= fronts.len(),
        rank <= usize::MAX,
    ensures
        ({
            let x = order[t] as int;
            let new_done = done.insert(x);
            let new_fronts = fronts_with(fronts, rank, order[t]);
            let new_ranks = ranks.update(x, rank as usize);
            &&& forall|k: int| 0 <= k < new_fronts.len() ==> (#[trigger] new_fronts[k]).len() > 0
            &&& forall|k: int, u: int| 0 <= k < new_fronts.len() && 0 <= u < new_fronts[k].len() ==> {
                &&& new_done.contains(#[trigger] new_fronts[k][u] as int)
                &&& new_ranks[new_fronts[k][u] as int] == k
            }
            &&& forall|z: int| #[trigger] new_done.contains(z) ==> {
                &&& 0 <= z < p.len()
                &&& new_ranks[z] < new_fronts.len()
                &&& exists|u: int| 0 <= u < new_fronts[new_ranks[z] as int].len() && new_fronts[new_ranks[z] as int][u] == z
            }
        }),
{
    let position = order[t];
    let x = position as int;
    let new_done = done.insert(x);
    let new_fronts = fronts_with(fronts, rank, position);
    let new_ranks = ranks.update(x, rank as usize);
    lemma_fronts_with(fronts, rank, position);
    assert forall|k: int| 0 <= k < new_fronts.len() implies (#[trigger] new_fronts[k]).len() > 0 by {}
    assert forall|k: int, u: int| 0 <= k < new_fronts.len() && 0 <= u < new_fronts[k].len() implies {
        &&& new_done.contains(#[trigger] new_fronts[k][u] as int)
        &&& new_ranks[new_fronts[k][u] as int] == k
    } by {
        if k == rank && u == new_fronts[k].len() - 1 {
            assert(new_fronts[k][u] == position);
        } else {
            assert(new_fronts[k][u] == fronts[k][u]);
            assert(done.contains(fronts[k][u] as int));
            assert(fronts[k][u] as int != x);
        }
    }
    assert forall|z: int| #[trigger] new_done.contains(z) implies {
        &&& 0 <= z < p.len()
        &&& new_ranks[z] < new_fronts.len()
        &&& exists|u: int| 0 <= u < new_fronts[new_ranks[z] as int].len() && new_fronts[new_ranks[z] as int][u] == z
    } by {
        if z == x {
            assert(new_fronts[rank][new_fronts[rank].len() - 1] == z);
        } else {
            assert(done.contains(z));
            let k = ranks[z] as int;
            let u = choose|u: int| 0 <= u < fronts[k].len() && fronts[k][u] == z;
            assert(new_fronts[k][u] == z);
        }
    }
}

// adding the next point to the first front that doesn't dominate it keeps the state
#[verifier::spinoff_prover]
#[verifier::rlimit(40)]
proof fn lemma_ranking_step(p: Seq<Seq<u64>>, order: Seq<usize>, m: int, t: int, done: Set<int>, fronts: Seq<Seq<usize>>, ranks: Seq<usize>, rank: int)
    requires
        is_lexicographic_order(p, order),
        all_of_len(p, m),
        0 <= t < p.len(),
        is_ranking_state(p, order, t, done, fronts, ranks),
        0 <= rank <= fronts.len(),
        rank <= usize::MAX,
        forall|k: int| 0 <= k < rank ==> #[trigger] front_dominates(p, fronts[k], p[order[t] as int]),
        rank < fronts.len() ==> !front_dominates(p, fronts[rank], p[order[t] as int]),
    ensures
        is_ranking_state(p, order, t + 1, done.insert(order[t] as int), fronts_with(fronts, rank, order[t]), ranks.update(order[t] as int, rank as usize)),
{
    let position = order[t];
    let x = position as int;
    let px = p[x];
    assert(order[t] < p.len());
    assert(!done.contains(x)) by {
        if done.contains(x) {
            let s = choose|s: int| 0 <= s < t && order[s] == x;
            assert(order[s] != order[t]);
        }
    }
    lemma_state_fronts_dominate_downwards(p, order, t, done, fronts, ranks, px);
    lemma_ranking_step_fronts(p, order, t, done, fronts, ranks, rank);
    let new_done = done.insert(x);
    let new_ranks = ranks.update(x, rank as usize);
    assert forall|z: int| #[trigger] new_done.contains(z) <==> exists|s: int| 0 <= s < t + 1 && order[s] == z by {
        if new_done.contains(z) && z != x {
            assert(done.contains(z));
        }
        if exists|s: int| 0 <= s < t + 1 && order[s] == z {
            let s = choose|s: int| 0 <= s < t + 1 && order[s] == z;
            if s < t {
                assert(done.contains(z));
            }
        }
    }
    assert forall|a: int, b: int| new_done.contains(a) && new_done.contains(b) && #[trigger] pareto_dominates(p[b], p[a])
        implies new_ranks[b] < new_ranks[a] by {
        if a == x && b != x {
            assert(done.contains(b));
            let k = ranks[b] as int;
            let u = choose|u: int| 0 <= u < fronts[k].len() && fronts[k][u] == b;
            assert(pareto_dominates(p[fronts[k][u] as int], px));
            assert(front_dominates(p, fronts[k], px));
            if k >= rank {
                lemma_front_seqs_dominate_downwards(p, fronts, px, rank, k);
            }
        } else if b == x && a != x {
            assert(done.contains(a));
            let s = choose|s: int| 0 <= s < t && order[s] == a;
            lemma_dominance_is_lex_before(px, p[a]);
            assert(!lex_before(p[order[t] as int], p[order[s] as int]));
        } else if a == x && b == x {
            lemma_pareto_is_strict_partial_order(px, px, px);
        } else {
            assert(done.contains(a) && done.contains(b));
        }
    }
    assert forall|z: int| #[trigger] new_done.contains(z) && new_ranks[z] > 0 implies exists|w: int|
        new_done.contains(w) && #[trigger] pareto_dominates(p[w], p[z]) && new_ranks[w] == new_ranks[z] - 1 by {
        if z == x {
            assert(front_dominates(p, fronts[rank - 1], px));
            let u = choose|u: int| 0 <= u < fronts[rank - 1].len() && #[trigger] pareto_dominates(p[fronts[rank - 1][u] as int], px);
            let w = fronts[rank - 1][u] as int;
            assert(done.contains(w) && ranks[w] == rank - 1);
            assert(w != x);
            assert(new_done.contains(w) && pareto_dominates(p[w], p[z]) && new_ranks[w] == new_ranks[z] - 1);
        } else {
            assert(done.contains(z));
            let w = choose|w: int| done.contains(w) && #[trigger] pareto_dominates(p[w], p[z]) && ranks[w] == ranks[z] - 1;
            assert(w != x);
            assert(new_done.contains(w) && pareto_dominates(p[w], p[z]) && new_ranks[w] == new_ranks[z] - 1);
        }
    }
}

// a state with every position done is a ranking
proof fn lemma_ranking_done(p: Seq<Seq<u64>>, order: Seq<usize>, done: Set<int>, fronts: Seq<Seq<usize>>, ranks: Seq<usize>)
    requires
        order.len() == p.len(),
        is_permutation(order),
        is_ranking_state(p, order, p.len() as int, done, fronts, ranks),
    ensures
        is_pareto_ranking(p, ranks),
{
    let n = p.len();
    assert forall|z: int| 0 <= z < n implies #[trigger] done.contains(z) by {
        crate::genome::lemma_permutation_covers(order, z);
        let s = choose|s: int| 0 <= s < order.len() && order[s] == z;
        assert(order[s] == z);
    }
    assert forall|i: int, j: int| 0 <= i < n && 0 <= j < n && #[trigger] pareto_dominates(p[j], p[i])
        implies ranks[j] < ranks[i] by {
        assert(done.contains(i) && done.contains(j));
    }
    assert forall|i: int| 0 <= i < n && #[trigger] ranks[i] > 0 implies exists|j: int|
        0 <= j < n && #[trigger] pareto_dominates(p[j], p[i]) && ranks[j] == ranks[i] - 1 by {
        assert(done.contains(i));
        let w = choose|w: int| done.contains(w) && #[trigger] pareto_dominates(p[w], p[i]) && ranks[w] == ranks[i] - 1;
        assert(done.contains(w));
    }
}

/// Whether `lasts` holds the second coordinate of the last point of each front, the smallest of
/// the front's, non-decreasing from front to front.
pub open spec fn has_lasts(p: Seq<Seq<u64>>, fronts: Seq<Seq<usize>>, lasts: Seq<u64>) -> bool {
    &&& lasts.len() == fronts.len()
    &&& forall|k: int| 0 <= k < fronts.len() ==> #[trigger] lasts[k] == p[fronts[k].last() as int][1]
    &&& forall|k: int, u: int| 0 <= k < fronts.len() && 0 <= u < fronts[k].len()
        ==> #[trigger] p[fronts[k][u] as int][1] >= lasts[k]
    &&& forall|k1: int, k2: int| 0 <= k1 < k2 < fronts.len() ==> #[trigger] lasts[k1] <= #[trigger] lasts[k2]
}

// an earlier point of 2 coordinates that isn't the same as the next point: it dominates the
// next point exactly when its second coordinate is at most the next point's
proof fn lemma_earlier_point(p: Seq<Seq<u64>>, order: Seq<usize>, s: int, t: int)
    requires
        is_lexicographic_order(p, order),
        all_of_len(p, 2),
        0 <= s < t < order.len(),
        p[order[s] as int] != p[order[t] as int],
    ensures
        pareto_dominates(p[order[s] as int], p[order[t] as int]) == (p[order[s] as int][1] <= p[order[t] as int][1]),
{
    let (q, x) = (p[order[s] as int], p[order[t] as int]);
    assert(order[s] < p.len() && order[t] < p.len());
    assert(!lex_before(x, q));
    lemma_lex_before_total(q, x);
    let j = choose|j: int| 0 <= j < q.len() && j < x.len() && q.take(j) == x.take(j) && #[trigger] q[j] < x[j];
    if j == 1 {
        assert(q.take(1)[0] == x.take(1)[0]);
    }
    assert(q[0] <= x[0]);
    if q[1] <= x[1] {
        assert(pareto_dominates(q, x));
    }
}

// the rank of the next point: the first front whose last point has a larger second coordinate,
// unless it's the same as the point before it
proof fn lemma_two_objective_rank(p: Seq<Seq<u64>>, order: Seq<usize>, t: int, done: Set<int>, fronts: Seq<Seq<usize>>, ranks: Seq<usize>, lasts: Seq<u64>, rank: int)
    requires
        is_lexicographic_order(p, order),
        all_of_len(p, 2),
        0 <= t < p.len(),
        is_ranking_state(p, order, t, done, fronts, ranks),
        has_lasts(p, fronts, lasts),
        t > 0 ==> fronts[ranks[order[t - 1] as int] as int].last() == order[t - 1],
        t > 0 && p[order[t - 1] as int] == p[order[t] as int] ==> rank == ranks[order[t - 1] as int],
        !(t > 0 && p[order[t - 1] as int] == p[order[t] as int]) ==> {
            &&& 0 <= rank <= lasts.len()
            &&& forall|k: int| 0 <= k < rank ==> #[trigger] lasts[k] <= p[order[t] as int][1]
            &&& rank < lasts.len() ==> lasts[rank] > p[order[t] as int][1]
        },
    ensures
        0 <= rank <= fronts.len(),
        forall|k: int| 0 <= k < rank ==> #[trigger] front_dominates(p, fronts[k], p[order[t] as int]),
        rank < fronts.len() ==> !front_dominates(p, fronts[rank], p[order[t] as int]),
{
    let x = order[t] as int;
    let px = p[x];
    assert(order[t] < p.len());
    lemma_state_fronts_dominate_downwards(p, order, t, done, fronts, ranks, px);
    if t > 0 && p[order[t - 1] as int] == px {
        let prev = order[t - 1] as int;
        assert(done.contains(prev));
        if rank > 0 {
            let z = choose|z: int| done.contains(z) && #[trigger] pareto_dominates(p[z], p[prev]) && ranks[z] == ranks[prev] - 1;
            let w = choose|w: int| 0 <= w < fronts[ranks[z] as int].len() && fronts[ranks[z] as int][w] == z;
            assert(pareto_dominates(p[fronts[rank - 1][w] as int], px));
            assert forall|k: int| 0 <= k < rank implies #[trigger] front_dominates(p, fronts[k], px) by {
                lemma_front_seqs_dominate_downwards(p, fronts, px, k, rank - 1);
            }
        }
        assert(!front_dominates(p, fronts[rank], px)) by {
            if front_dominates(p, fronts[rank], px) {
                let u = choose|u: int| 0 <= u < fronts[rank].len() && #[trigger] pareto_dominates(p[fronts[rank][u] as int], px);
                let q = fronts[rank][u] as int;
                assert(pareto_dominates(p[q], p[prev]));
                assert(ranks[q] < ranks[prev]);
            }
        }
    } else {
        // a front dominates the point exactly when its last point's second coordinate is at most
        // the point's
        assert forall|k: int| 0 <= k < fronts.len() implies #[trigger] front_dominates(p, fronts[k], px) == (lasts[k] <= px[1]) by {
            let q = fronts[k].last() as int;
            assert(done.contains(q));
            let s = choose|s: int| 0 <= s < t && order[s] == q;
            if lasts[k] <= px[1] {
                if p[q] == px {
                    lemma_equal_points_are_together(p, order, 2, s, t);
                } else {
                    lemma_earlier_point(p, order, s, t);
                    assert(pareto_dominates(p[fronts[k][fronts[k].len() - 1] as int], px));
                }
            }
            if front_dominates(p, fronts[k], px) {
                let u = choose|u: int| 0 <= u < fronts[k].len() && #[trigger] pareto_dominates(p[fronts[k][u] as int], px);
                assert(p[fronts[k][u] as int][1] <= px[1]);
            }
        }
    }
}

// the point joins its front with the smallest second coordinate, and the lasts stay ordered
proof fn lemma_two_objective_lasts(p: Seq<Seq<u64>>, order: Seq<usize>, t: int, done: Set<int>, fronts: Seq<Seq<usize>>, ranks: Seq<usize>, lasts: Seq<u64>, rank: int)
    requires
        is_lexicographic_order(p, order),
        all_of_len(p, 2),
        0 <= t < p.len(),
        is_ranking_state(p, order, t, done, fronts, ranks),
        has_lasts(p, fronts, lasts),
        t > 0 ==> fronts[ranks[order[t - 1] as int] as int].last() == order[t - 1],
        t > 0 && p[order[t - 1] as int] == p[order[t] as int] ==> rank == ranks[order[t - 1] as int],
        0 <= rank <= fronts.len(),
        forall|k: int| 0 <= k < rank ==> #[trigger] front_dominates(p, fronts[k], p[order[t] as int]),
        rank < fronts.len() ==> !front_dominates(p, fronts[rank], p[order[t] as int]),
    ensures
        has_lasts(p, fronts_with(fronts, rank, order[t]),
            if rank == lasts.len() { lasts.push(p[order[t] as int][1]) } else { lasts.update(rank, p[order[t] as int][1]) }),
{
    let x = order[t] as int;
    let px = p[x];
    let y = px[1];
    assert(order[t] < p.len());
    let new_fronts = fronts_with(fronts, rank, order[t]);
    let new_lasts = if rank == lasts.len() { lasts.push(y) } else { lasts.update(rank, y) };
    let duplicate = t > 0 && p[order[t - 1] as int] == px;
    // the point's second coordinate is below those of the front it joins
    assert forall|u: int| 0 <= u < fronts[rank].len() && rank < fronts.len() implies #[trigger] p[fronts[rank][u] as int][1] >= y by {
        let q = fronts[rank][u] as int;
        assert(done.contains(q));
        if duplicate {
            let prev = order[t - 1] as int;
            assert(lasts[rank] == p[prev][1]);
        } else {
            assert(!pareto_dominates(p[q], px));
            let s = choose|s: int| 0 <= s < t && order[s] == q;
            if p[q] == px {
                lemma_equal_points_are_together(p, order, 2, s, t);
            } else {
                lemma_earlier_point(p, order, s, t);
            }
        }
    }
    assert forall|k1: int, k2: int| 0 <= k1 < k2 < new_fronts.len() implies #[trigger] new_lasts[k1] <= #[trigger] new_lasts[k2] by {
        if k2 == rank {
            // the earlier fronts dominate the point
            assert(front_dominates(p, fronts[k1], px));
            let u = choose|u: int| 0 <= u < fronts[k1].len() && #[trigger] pareto_dominates(p[fronts[k1][u] as int], px);
            assert(p[fronts[k1][u] as int][1] <= px[1]);
            assert(p[fronts[k1][u] as int][1] >= lasts[k1]);
        } else if k1 == rank {
            // the last of a later front is dominated by a member of the point's front
            let b = fronts[rank + 1].last() as int;
            assert(done.contains(b) && ranks[b] == rank + 1);
            let a = choose|a: int| done.contains(a) && #[trigger] pareto_dominates(p[a], p[b]) && ranks[a] == ranks[b] - 1;
            let w = choose|w: int| 0 <= w < fronts[ranks[a] as int].len() && fronts[ranks[a] as int][w] == a;
            assert(p[a][1] <= p[b][1]);
            assert(p[fronts[rank][w] as int][1] >= y);
            assert(lasts[rank + 1] <= lasts[k2]);
        } else {
            assert(new_lasts[k1] == lasts[k1]);
            assert(new_lasts[k2] == lasts[k2]);
        }
    }
    assert forall|k: int| 0 <= k < new_fronts.len() implies #[trigger] new_lasts[k] == p[new_fronts[k].last() as int][1] by {}
    assert forall|k: int, u: int| 0 <= k < new_fronts.len() && 0 <= u < new_fronts[k].len()
        implies #[trigger] p[new_fronts[k][u] as int][1] >= new_lasts[k] by {
        if k != rank {
            assert(new_fronts[k][u] == fronts[k][u]);
        } else if u < new_fronts[k].len() - 1 {
            assert(new_fronts[k][u] == fronts[k][u]);
        }
    }
}

// one step of the two-objective ranking: the next point joins its front and the state is kept
proof fn lemma_two_objective_step(p: Seq<Seq<u64>>, order: Seq<usize>, t: int, done: Set<int>, fronts: Seq<Seq<usize>>, ranks: Seq<usize>, lasts: Seq<u64>, rank: int)
    requires
        is_lexicographic_order(p, order),
        all_of_len(p, 2),
        0 <= t < p.len(),
        p.len() <= usize::MAX,
        fronts.len() <= t,
        is_ranking_state(p, order, t, done, fronts, ranks),
        has_lasts(p, fronts, lasts),
        t > 0 ==> fronts[ranks[order[t - 1] as int] as int].last() == order[t - 1],
        t > 0 && p[order[t - 1] as int] == p[order[t] as int] ==> rank == ranks[order[t - 1] as int],
        !(t > 0 && p[order[t - 1] as int] == p[order[t] as int]) ==> {
            &&& 0 <= rank <= lasts.len()
            &&& forall|k: int| 0 <= k < rank ==> #[trigger] lasts[k] <= p[order[t] as int][1]
            &&& rank < lasts.len() ==> lasts[rank] > p[order[t] as int][1]
        },
    ensures
        0 <= rank <= lasts.len(),
        is_ranking_state(p, order, t + 1, done.insert(order[t] as int), fronts_with(fronts, rank, order[t]), ranks.update(order[t] as int, rank as usize)),
        has_lasts(p, fronts_with(fronts, rank, order[t]),
            if rank == lasts.len() { lasts.push(p[order[t] as int][1]) } else { lasts.update(rank, p[order[t] as int][1]) }),
        fronts_with(fronts, rank, order[t])[rank].last() == order[t],
        fronts_with(fronts, rank, order[t]).len() <= t + 1,
{
    lemma_two_objective_rank(p, order, t, done, fronts, ranks, lasts, rank);
    lemma_two_objective_lasts(p, order, t, done, fronts, ranks, lasts, rank);
    lemma_ranking_step(p, order, 2, t, done, fronts, ranks, rank);
}

// the first position of a non-decreasing sequence whose value is above `y`
fn first_above(lasts: &Vec<u64>, y: u64) -> (lo: usize)
    requires
        forall|k1: int, k2: int| 0 <= k1 < k2 < lasts@.len() ==> #[trigger] lasts@[k1] <= #[trigger] lasts@[k2],
    ensures
        lo <= lasts@.len(),
        forall|k: int| 0 <= k < lo ==> #[trigger] lasts@[k] <= y,
        forall|k: int| lo <= k < lasts@.len() ==> #[trigger] lasts@[k] > y,
{
    let mut lo: usize = 0;
    let mut hi: usize = lasts.len();
    while lo < hi
        invariant
            lo <= hi <= lasts@.len(),
            forall|k1: int, k2: int| 0 <= k1 < k2 < lasts@.len() ==> #[trigger] lasts@[k1] <= #[trigger] lasts@[k2],
            forall|k: int| 0 <= k < lo ==> #[trigger] lasts@[k] <= y,
            forall|k: int| hi <= k < lasts@.len() ==> #[trigger] lasts@[k] > y,
        decreases hi - lo,
    {
        let mid = lo + (hi - lo) / 2;
        if lasts[mid] <= y {
            lo = mid + 1;
        } else {
            hi = mid;
        }
    }
    lo
}

/// The front of each of the points with 2 coordinates by Pareto dominance, in O(N log N) after
/// the lexicographic sort: in lexicographic order, the second coordinate of the points added to
/// a front only decreases, so a point belongs to the first front whose last point has a larger
/// second coordinate, or to the front of its duplicate.
#[verifier::rlimit(60)]
pub fn two_objective_ranks(points: &Vec<Vec<u64>>) -> (ranks: Vec<usize>)
    requires
        all_of_len(points_of(points@), 2),
    ensures
        is_pareto_ranking(points_of(points@), ranks@),
        forall|a: int| 0 <= a < ranks@.len() ==> #[trigger] ranks@[a] < ranks@.len(),
{
    let n = points.len();
    let ghost p = points_of(points@);
    assert forall|a: int| 0 <= a < n implies (#[trigger] points@[a])@.len() == 2 by {
        assert(p[a] == points@[a]@);
    }
    let order = lexicographic_order(points, 2);
    let mut ranks: Vec<usize> = Vec::new();
    while ranks.len() < n
        invariant
            ranks@.len() <= n,
        decreases n - ranks@.len(),
    {
        ranks.push(0);
    }
    // the second coordinate of the last point of each front, non-decreasing from front to front
    let mut lasts: Vec<u64> = Vec::new();
    let ghost mut fronts: Seq<Seq<usize>> = Seq::empty();
    let ghost mut done: Set<int> = Set::empty();
    let mut previous: Option<usize> = None;
    let mut t: usize = 0;
    while t < n
        invariant
            n == points@.len(),
            p == points_of(points@),
            forall|a: int| 0 <= a < n ==> (#[trigger] points@[a])@.len() == 2,
            all_of_len(p, 2),
            is_lexicographic_order(p, order@),
            t <= n,
            previous is None <==> t == 0,
            t > 0 ==> previous == Some(order@[t - 1]),
            t > 0 ==> fronts[ranks@[order@[t - 1] as int] as int].last() == order@[t - 1],
            is_ranking_state(p, order@, t as int, done, fronts, ranks@),
            has_lasts(p, fronts, lasts@),
            fronts.len() <= t,
        decreases n - t,
    {
        let position = order[t];
        let ghost x = position as int;
        proof {
            assert(order@[t as int] < n);
            assert(p[x] == points@[x]@);
        }
        let duplicate = match previous {
            Some(prev) => points[prev][0] == points[position][0] && points[prev][1] == points[position][1],
            None => false,
        };
        proof {
            if t > 0 {
                let prev = order@[t - 1] as int;
                assert(prev < n);
                assert(p[prev] == points@[prev]@);
                assert(duplicate == (p[prev] =~= p[x]));
            }
        }
        let rank: usize = if duplicate {
            proof {
                let prev = order@[t - 1] as int;
                assert(done.contains(prev));
            }
            ranks[previous.unwrap()]
        } else {
            // the first front whose last point has a larger second coordinate
            first_above(&lasts, points[position][1])
        };
        proof {
            lemma_two_objective_step(p, order@, t as int, done, fronts, ranks@, lasts@, rank as int);
        }
        let y = points[position][1];
        if rank == lasts.len() {
            lasts.push(y);
        } else {
            lasts.set(rank, y);
        }
        ranks.set(position, rank);
        previous = Some(position);
        proof {
            done = done.insert(x);
            fronts = fronts_with(fronts, rank as int, position);
        }
        t = t + 1;
    }
    proof {
        lemma_ranking_done(p, order@, done, fronts, ranks@);
        assert forall|a: int| 0 <= a < ranks@.len() implies #[trigger] ranks@[a] < ranks@.len() by {
            crate::genome::lemma_permutation_covers(order@, a);
            let s = choose|s: int| 0 <= s < order@.len() && order@[s] == a;
            assert(done.contains(a));
        }
    }
    ranks
}


/// Whether `front_of` gives every solution its front by constrained dominance: a solution's
/// dominators are in earlier fronts, and a solution of a later front than the first has a
/// dominator in the front just before.
pub open spec fn is_dominance_ranking(s: Seq<Scores>, objectives: Seq<Objective>, front_of: Seq<int>) -> bool {
    &&& front_of.len() == s.len()
    &&& forall|i: int| 0 <= i < s.len() ==> 0 <= #[trigger] front_of[i]
    &&& forall|i: int, j: int| 0 <= i < s.len() && 0 <= j < s.len() && #[trigger] dominance(s[j], s[i], objectives)
        ==> front_of[j] < front_of[i]
    &&& forall|i: int| 0 <= i < s.len() && #[trigger] front_of[i] > 0 ==> exists|j: int|
        0 <= j < s.len() && #[trigger] dominance(s[j], s[i], objectives) && front_of[j] == front_of[i] - 1
}

/// Whether `fronts` lists the solutions by their front in `front_of`: each front non-empty, in
/// ascending order, and every solution in its front.
pub open spec fn lists_fronts(fronts: Seq<Seq<usize>>, front_of: Seq<int>) -> bool {
    &&& forall|k: int| 0 <= k < fronts.len() ==> (#[trigger] fronts[k]).len() > 0
    &&& forall|k: int, u: int, v: int| 0 <= k < fronts.len() && 0 <= u < v < fronts[k].len()
        ==> #[trigger] fronts[k][u] < #[trigger] fronts[k][v]
    &&& forall|k: int, u: int| 0 <= k < fronts.len() && 0 <= u < fronts[k].len()
        ==> #[trigger] fronts[k][u] < front_of.len() && front_of[fronts[k][u] as int] == k
    &&& forall|i: int| 0 <= i < front_of.len() ==> 0 <= #[trigger] front_of[i] < fronts.len()
        && exists|u: int| 0 <= u < fronts[front_of[i]].len() && fronts[front_of[i]][u] == i
}

/// The fronts held by vectors.
pub open spec fn fronts_of(fronts: Seq<Vec<usize>>) -> Seq<Seq<usize>> {
    fronts.map_values(|front: Vec<usize>| front@)
}

/// Whether `list` holds, in ascending order, the positions below `n` that `keep` marks.
pub open spec fn lists_ascending(list: Seq<usize>, n: int, keep: Seq<bool>) -> bool {
    &&& forall|u: int, v: int| 0 <= u < v < list.len() ==> #[trigger] list[u] < #[trigger] list[v]
    &&& forall|u: int| 0 <= u < list.len() ==> #[trigger] list[u] < n && keep[list[u] as int]
    &&& forall|i: int| 0 <= i < n && #[trigger] keep[i] ==> list.contains(i as usize)
}

/// Which of the scores are feasible.
pub open spec fn feasible_mask(s: Seq<Scores>) -> Seq<bool> {
    Seq::new(s.len(), |i: int| is_feasible(s[i]))
}

/// Which of the scores are valid but infeasible.
pub open spec fn infeasible_mask(s: Seq<Scores>) -> Seq<bool> {
    Seq::new(s.len(), |i: int| is_infeasible(s[i]))
}

/// Which of the scores are invalid.
pub open spec fn invalid_mask(s: Seq<Scores>) -> Seq<bool> {
    Seq::new(s.len(), |i: int| !s[i].spec_is_valid())
}

/// Whether the scores are feasible.
pub open spec fn is_feasible(s: Scores) -> bool {
    s.spec_is_valid() && s.spec_violation() == 0
}

/// Whether the scores are valid but infeasible.
pub open spec fn is_infeasible(s: Scores) -> bool {
    s.spec_is_valid() && s.spec_violation() != 0
}

// the positions of the feasible, the infeasible and the invalid solutions, each ascending
fn split_by_feasibility(scores: &[Scores]) -> (r: (Vec<usize>, Vec<usize>, Vec<usize>))
    ensures
        lists_ascending(r.0@, scores@.len() as int, feasible_mask(scores@)),
        lists_ascending(r.1@, scores@.len() as int, infeasible_mask(scores@)),
        lists_ascending(r.2@, scores@.len() as int, invalid_mask(scores@)),
{
    let n = scores.len();
    let mut feasible: Vec<usize> = Vec::new();
    let mut infeasible: Vec<usize> = Vec::new();
    let mut invalid: Vec<usize> = Vec::new();
    let mut index: usize = 0;
    while index < n
        invariant
            n == scores@.len(),
            index <= n,
            lists_ascending(feasible@, index as int, feasible_mask(scores@)),
            lists_ascending(infeasible@, index as int, infeasible_mask(scores@)),
            lists_ascending(invalid@, index as int, invalid_mask(scores@)),
        decreases n - index,
    {
        let ghost (f0, i0, v0) = (feasible@, infeasible@, invalid@);
        if !scores[index].is_valid() {
            invalid.push(index);
        } else if scores[index].violation() != 0 {
            infeasible.push(index);
        } else {
            feasible.push(index);
        }
        proof {
            assert forall|i: int| 0 <= i < index + 1 && #[trigger] feasible_mask(scores@)[i] implies feasible@.contains(i as usize) by {
                if i < index {
                    assert(f0.contains(i as usize));
                    let u = choose|u: int| 0 <= u < f0.len() && f0[u] == i as usize;
                    assert(feasible@[u] == i as usize);
                } else {
                    assert(feasible@[feasible@.len() - 1] == i as usize);
                }
            }
            assert forall|i: int| 0 <= i < index + 1 && #[trigger] infeasible_mask(scores@)[i] implies infeasible@.contains(i as usize) by {
                if i < index {
                    assert(i0.contains(i as usize));
                    let u = choose|u: int| 0 <= u < i0.len() && i0[u] == i as usize;
                    assert(infeasible@[u] == i as usize);
                } else {
                    assert(infeasible@[infeasible@.len() - 1] == i as usize);
                }
            }
            assert forall|i: int| 0 <= i < index + 1 && #[trigger] invalid_mask(scores@)[i] implies invalid@.contains(i as usize) by {
                if i < index {
                    assert(v0.contains(i as usize));
                    let u = choose|u: int| 0 <= u < v0.len() && v0[u] == i as usize;
                    assert(invalid@[u] == i as usize);
                } else {
                    assert(invalid@[invalid@.len() - 1] == i as usize);
                }
            }
        }
        index = index + 1;
    }
    (feasible, infeasible, invalid)
}


// the minimized keys of the values of valid scores
fn minimized_point(scores: &Scores, objectives: &[Objective]) -> (point: Vec<u64>)
    requires
        scores.spec_is_valid(),
        fits(*scores, objectives@),
    ensures
        point@ == minimized(scores.spec_values(), objectives@),
{
    let mut point: Vec<u64> = Vec::new();
    let mut j: usize = 0;
    while j < objectives.len()
        invariant
            j <= objectives@.len(),
            scores.spec_values().len() == objectives@.len(),
            point@ == minimized(scores.spec_values(), objectives@).take(j as int),
        decreases objectives@.len() - j,
    {
        point.push(minimized_key_of(objectives[j], scores.value(j)));
        proof {
            assert(point@ =~= minimized(scores.spec_values(), objectives@).take(j + 1));
        }
        j = j + 1;
    }
    proof {
        assert(point@ =~= minimized(scores.spec_values(), objectives@));
    }
    point
}

// whether every rank above 0 has a position with the rank just below
spec fn ranks_are_contiguous(ranks: Seq<usize>) -> bool {
    forall|a: int| 0 <= a < ranks.len() && #[trigger] ranks[a] > 0 ==> exists|b: int| 0 <= b < ranks.len() && ranks[b] == ranks[a] - 1
}

// whether a position has a rank of at least `k`
spec fn some_rank_at_least(ranks: Seq<usize>, k: int) -> bool {
    exists|b: int| 0 <= b < ranks.len() && ranks[b] >= k
}

proof fn lemma_rank_present(ranks: Seq<usize>, a: int, k: int)
    requires
        ranks_are_contiguous(ranks),
        0 <= a < ranks.len(),
        0 <= k <= ranks[a],
    ensures
        exists|b: int| 0 <= b < ranks.len() && ranks[b] == k,
    decreases ranks[a] - k,
{
    if k < ranks[a] {
        let b = choose|b: int| 0 <= b < ranks.len() && ranks[b] == ranks[a] - 1;
        lemma_rank_present(ranks, b, k);
    }
}

// whether one of the first `bound` members is `x`, with rank `k`
spec fn has_rank(members: Seq<usize>, ranks: Seq<usize>, bound: int, x: usize, k: int) -> bool {
    exists|b: int| 0 <= b < bound && #[trigger] members[b] == x && ranks[b] == k
}

// the fronts of the positions of `members` by their ranks: front `k` holds the members whose
// rank is `k`, in the order of `members`
fn group_by_rank(members: &Vec<usize>, ranks: &Vec<usize>) -> (fronts: Vec<Vec<usize>>)
    requires
        members@.len() == ranks@.len(),
        forall|u: int, v: int| 0 <= u < v < members@.len() ==> #[trigger] members@[u] < #[trigger] members@[v],
        ranks_are_contiguous(ranks@),
    ensures
        forall|k: int| 0 <= k < fronts@.len() ==> (#[trigger] fronts@[k])@.len() > 0,
        forall|k: int, u: int, v: int| 0 <= k < fronts@.len() && 0 <= u < v < fronts@[k]@.len()
            ==> #[trigger] fronts@[k]@[u] < #[trigger] fronts@[k]@[v],
        forall|k: int, u: int| 0 <= k < fronts@.len() && 0 <= u < fronts@[k]@.len()
            ==> has_rank(members@, ranks@, members@.len() as int, #[trigger] fronts@[k]@[u], k),
        forall|a: int| 0 <= a < members@.len() ==> #[trigger] ranks@[a] < fronts@.len()
            && fronts@[ranks@[a] as int]@.contains(members@[a]),
{
    let mut fronts: Vec<Vec<usize>> = Vec::new();
    let mut a: usize = 0;
    while a < members.len()
        invariant
            a <= members@.len(),
            members@.len() == ranks@.len(),
            forall|u: int, v: int| 0 <= u < v < members@.len() ==> #[trigger] members@[u] < #[trigger] members@[v],
            forall|k: int, u: int, v: int| 0 <= k < fronts@.len() && 0 <= u < v < fronts@[k]@.len()
                ==> #[trigger] fronts@[k]@[u] < #[trigger] fronts@[k]@[v],
            forall|k: int, u: int| 0 <= k < fronts@.len() && 0 <= u < fronts@[k]@.len()
                ==> has_rank(members@, ranks@, a as int, #[trigger] fronts@[k]@[u], k),
            forall|b: int| 0 <= b < a ==> #[trigger] ranks@[b] < fronts@.len()
                && fronts@[ranks@[b] as int]@.contains(members@[b]),
            forall|k: int| 0 <= k < fronts@.len() ==> #[trigger] some_rank_at_least(ranks@, k),
        decreases members@.len() - a,
    {
        let rank = ranks[a];
        while fronts.len() <= rank
            invariant
                a < members@.len(),
                members@.len() == ranks@.len(),
                rank == ranks@[a as int],
                forall|k: int, u: int, v: int| 0 <= k < fronts@.len() && 0 <= u < v < fronts@[k]@.len()
                    ==> #[trigger] fronts@[k]@[u] < #[trigger] fronts@[k]@[v],
                forall|k: int, u: int| 0 <= k < fronts@.len() && 0 <= u < fronts@[k]@.len()
                    ==> has_rank(members@, ranks@, a as int, #[trigger] fronts@[k]@[u], k),
                forall|b: int| 0 <= b < a ==> #[trigger] ranks@[b] < fronts@.len()
                    && fronts@[ranks@[b] as int]@.contains(members@[b]),
                forall|k: int| 0 <= k < fronts@.len() ==> #[trigger] some_rank_at_least(ranks@, k),
            decreases rank + 1 - fronts@.len(),
        {
            let ghost before = fronts@;
            fronts.push(Vec::new());
            proof {
                assert forall|k: int| 0 <= k < fronts@.len() implies #[trigger] some_rank_at_least(ranks@, k) by {
                    if k == fronts@.len() - 1 {
                        assert(ranks@[a as int] >= k);
                    }
                }
                assert forall|b: int| 0 <= b < a implies #[trigger] ranks@[b] < fronts@.len()
                    && fronts@[ranks@[b] as int]@.contains(members@[b]) by {
                    assert(fronts@[ranks@[b] as int] == before[ranks@[b] as int]);
                }
                assert forall|k: int, u: int| 0 <= k < fronts@.len() && 0 <= u < fronts@[k]@.len()
                    implies has_rank(members@, ranks@, a as int, #[trigger] fronts@[k]@[u], k) by {
                    assert(fronts@[k] == before[k]);
                }
            }
        }
        let ghost before = fronts@;
        fronts[rank].push(members[a]);
        proof {
            assert forall|k: int| 0 <= k < fronts@.len() && k != rank implies #[trigger] fronts@[k] == before[k] by {}
            assert(fronts@[rank as int]@ == before[rank as int]@.push(members@[a as int]));
            assert forall|k: int, u: int, v: int| 0 <= k < fronts@.len() && 0 <= u < v < fronts@[k]@.len()
                implies #[trigger] fronts@[k]@[u] < #[trigger] fronts@[k]@[v] by {
                if k == rank && v == fronts@[k]@.len() - 1 {
                    assert(fronts@[k]@[u] == before[k]@[u]);
                    assert(has_rank(members@, ranks@, a as int, before[k]@[u], k));
                    let b = choose|b: int| 0 <= b < a && #[trigger] members@[b] == before[k]@[u] && ranks@[b] == k;
                } else if k == rank {
                    assert(fronts@[k]@[u] == before[k]@[u]);
                    assert(fronts@[k]@[v] == before[k]@[v]);
                }
            }
            assert forall|k: int, u: int| 0 <= k < fronts@.len() && 0 <= u < fronts@[k]@.len()
                implies has_rank(members@, ranks@, a + 1, #[trigger] fronts@[k]@[u], k) by {
                if k == rank && u == fronts@[k]@.len() - 1 {
                    assert(fronts@[k]@[u] == members@[a as int]);
                    assert(members@[a as int] == fronts@[k]@[u] && ranks@[a as int] == k);
                } else {
                    assert(fronts@[k]@[u] == before[k]@[u]);
                    assert(has_rank(members@, ranks@, a as int, before[k]@[u], k));
                    let b = choose|b: int| 0 <= b < a && #[trigger] members@[b] == before[k]@[u] && ranks@[b] == k;
                    assert(members@[b] == fronts@[k]@[u] && ranks@[b] == k);
                }
            }
            assert forall|b: int| 0 <= b < a + 1 implies #[trigger] ranks@[b] < fronts@.len()
                && fronts@[ranks@[b] as int]@.contains(members@[b]) by {
                if b == a {
                    assert(fronts@[rank as int]@[fronts@[rank as int]@.len() - 1] == members@[b]);
                } else {
                    let k = ranks@[b] as int;
                    assert(before[k]@.contains(members@[b]));
                    let u = choose|u: int| 0 <= u < before[k]@.len() && before[k]@[u] == members@[b];
                    assert(fronts@[k]@[u] == members@[b]);
                }
            }
        }
        a = a + 1;
    }
    proof {
        assert forall|k: int| 0 <= k < fronts@.len() implies (#[trigger] fronts@[k])@.len() > 0 by {
            assert(some_rank_at_least(ranks@, k));
            let b = choose|b: int| 0 <= b < ranks@.len() && ranks@[b] >= k;
            lemma_rank_present(ranks@, b, k);
            let c = choose|c: int| 0 <= c < ranks@.len() && ranks@[c] == k;
            assert(fronts@[ranks@[c] as int]@.contains(members@[c]));
        }
    }
    fronts
}

// the positions of `list` sorted by the violation of their scores, smallest first, by a stable
// sort
fn sort_by_violation(scores: &[Scores], list: &Vec<usize>) -> (sorted: Vec<usize>)
    requires
        forall|u: int| 0 <= u < list@.len() ==> (#[trigger] list@[u] as int) < scores@.len(),
        forall|u: int, v: int| 0 <= u < v < list@.len() ==> #[trigger] list@[u] < #[trigger] list@[v],
    ensures
        sorted@.len() == list@.len(),
        forall|u: int| 0 <= u < sorted@.len() ==> #[trigger] list@.contains(sorted@[u]),
        forall|u: int| 0 <= u < list@.len() ==> #[trigger] sorted@.contains(list@[u]),
        forall|u: int, v: int| 0 <= u < v < sorted@.len()
            ==> scores@[#[trigger] sorted@[u] as int].spec_violation() <= scores@[#[trigger] sorted@[v] as int].spec_violation(),
        forall|u: int, v: int| 0 <= u < v < sorted@.len()
            && scores@[#[trigger] sorted@[u] as int].spec_violation() == scores@[#[trigger] sorted@[v] as int].spec_violation()
            ==> sorted@[u] < sorted@[v],
{
    let ghost s = scores@;
    let mut sorted: Vec<usize> = Vec::new();
    let mut i: usize = 0;
    while i < list.len()
        invariant
            i <= list@.len(),
            s == scores@,
            forall|u: int| 0 <= u < list@.len() ==> (#[trigger] list@[u] as int) < s.len(),
            forall|u: int, v: int| 0 <= u < v < list@.len() ==> #[trigger] list@[u] < #[trigger] list@[v],
            sorted@.len() == i,
            forall|u: int| 0 <= u < sorted@.len() ==> #[trigger] list@.take(i as int).contains(sorted@[u]),
            forall|u: int| 0 <= u < i ==> #[trigger] sorted@.contains(list@[u]),
            forall|u: int| 0 <= u < sorted@.len() ==> (#[trigger] sorted@[u] as int) < s.len(),
            forall|u: int| 0 <= u < sorted@.len() ==> #[trigger] sorted@[u] < (if i < list@.len() { list@[i as int] } else { usize::MAX }),
            forall|u: int, v: int| 0 <= u < v < sorted@.len()
                ==> s[#[trigger] sorted@[u] as int].spec_violation() <= s[#[trigger] sorted@[v] as int].spec_violation(),
            forall|u: int, v: int| 0 <= u < v < sorted@.len()
                && s[#[trigger] sorted@[u] as int].spec_violation() == s[#[trigger] sorted@[v] as int].spec_violation()
                ==> sorted@[u] < sorted@[v],
        decreases list@.len() - i,
    {
        let x = list[i];
        let violation = scores[x].violation();
        let ghost before = sorted@;
        let mut k: usize = i;
        while k > 0 && scores[sorted[k - 1]].violation() > violation
            invariant
                k <= i,
                sorted@ == before,
                before.len() == i,
                s == scores@,
                x < s.len(),
                violation == s[x as int].spec_violation(),
                forall|u: int| 0 <= u < before.len() ==> (#[trigger] before[u] as int) < s.len(),
                forall|j: int| k <= j < i ==> s[#[trigger] before[j] as int].spec_violation() > violation,
            decreases k,
        {
            k = k - 1;
        }
        sorted.insert(k, x);
        proof {
            let after = sorted@;
            assert(after == before.insert(k as int, x));
            assert forall|a: int| 0 <= a < i + 1 implies #[trigger] after[a] == (if a < k { before[a] } else if a == k { x } else { before[a - 1] }) by {}
            if k > 0 {
                assert(!(s[before[k - 1] as int].spec_violation() > violation));
            }
            assert forall|u: int| 0 <= u < after.len() implies #[trigger] list@.take(i + 1).contains(after[u]) by {
                if u == k {
                    assert(list@.take(i + 1)[i as int] == x);
                } else {
                    let su = if u < k { u } else { u - 1 };
                    assert(list@.take(i as int).contains(before[su]));
                    let w = choose|w: int| 0 <= w < i && list@.take(i as int)[w] == before[su];
                    assert(list@.take(i + 1)[w] == before[su]);
                }
            }
            assert forall|u: int| 0 <= u < i + 1 implies #[trigger] after.contains(list@[u]) by {
                if u == i {
                    assert(after[k as int] == x);
                } else {
                    assert(before.contains(list@[u]));
                    let w = choose|w: int| 0 <= w < before.len() && before[w] == list@[u];
                    if w < k {
                        assert(after[w] == list@[u]);
                    } else {
                        assert(after[w + 1] == list@[u]);
                    }
                }
            }
            assert forall|u: int| 0 <= u < after.len() implies #[trigger] after[u] < (if i + 1 < list@.len() { list@[i + 1] } else { usize::MAX }) by {
                if i + 1 < list@.len() {
                    assert(list@[i as int] < list@[i + 1]);
                }
            }
            assert forall|u: int, v: int| 0 <= u < v < after.len()
                implies s[#[trigger] after[u] as int].spec_violation() <= s[#[trigger] after[v] as int].spec_violation() by {
                let su = if u < k { u } else if u == k { -1 } else { u - 1 };
                let sv = if v < k { v } else if v == k { -1 } else { v - 1 };
                if u != k && v != k {
                    assert(s[before[su] as int].spec_violation() <= s[before[sv] as int].spec_violation());
                } else if u == k {
                    assert(s[before[sv] as int].spec_violation() > violation);
                } else {
                    if su < k - 1 {
                        assert(s[before[su] as int].spec_violation() <= s[before[k - 1] as int].spec_violation());
                    }
                }
            }
            assert forall|u: int, v: int| 0 <= u < v < after.len()
                && s[#[trigger] after[u] as int].spec_violation() == s[#[trigger] after[v] as int].spec_violation()
                implies after[u] < after[v] by {
                let su = if u < k { u } else if u == k { -1 } else { u - 1 };
                let sv = if v < k { v } else if v == k { -1 } else { v - 1 };
                if u != k && v != k {
                } else if u == k {
                    assert(s[before[sv] as int].spec_violation() > violation);
                } else {
                    assert(before[su] < x);
                }
            }
        }
        i = i + 1;
    }
    proof {
        assert(list@.take(i as int) =~= list@);
    }
    sorted
}

// whether `levels` gives the first of the positions sorted by violation their level: 0 for the
// smallest violation, one more for each larger one
spec fn has_levels(s: Seq<Scores>, sorted: Seq<usize>, levels: Seq<usize>) -> bool {
    &&& levels.len() <= sorted.len()
    &&& levels.len() > 0 ==> levels[0] == 0
    &&& forall|v: int| 0 < v < levels.len() ==> #[trigger] levels[v] == levels[v - 1] || levels[v] == levels[v - 1] + 1
    &&& forall|v: int| 0 <= v < levels.len() ==> #[trigger] levels[v] <= v
    &&& forall|u: int, v: int| 0 <= u < v < levels.len() ==> {
        &&& (s[#[trigger] sorted[u] as int].spec_violation() == s[#[trigger] sorted[v] as int].spec_violation()
            ==> levels[u] == levels[v])
        &&& (s[sorted[u] as int].spec_violation() < s[sorted[v] as int].spec_violation()
            ==> levels[u] < levels[v])
    }
}

proof fn lemma_levels_step(s: Seq<Scores>, sorted: Seq<usize>, levels: Seq<usize>, level: usize)
    requires
        forall|u: int, v: int| 0 <= u < v < sorted.len()
            ==> s[#[trigger] sorted[u] as int].spec_violation() <= s[#[trigger] sorted[v] as int].spec_violation(),
        has_levels(s, sorted, levels),
        levels.len() < sorted.len(),
        levels.len() == 0 ==> level == 0,
        levels.len() > 0 ==> level == (if s[sorted[levels.len() - 1] as int].spec_violation() != s[sorted[levels.len() as int] as int].spec_violation() {
            levels.last() + 1
        } else {
            levels.last() as int
        }),
    ensures
        has_levels(s, sorted, levels.push(level)),
{
    let w = levels.len() as int;
    let after = levels.push(level);
    assert forall|u: int, v: int| 0 <= u < v < after.len() implies {
        &&& (s[#[trigger] sorted[u] as int].spec_violation() == s[#[trigger] sorted[v] as int].spec_violation()
            ==> after[u] == after[v])
        &&& (s[sorted[u] as int].spec_violation() < s[sorted[v] as int].spec_violation()
            ==> after[u] < after[v])
    } by {
        if v == w && u < w - 1 {
            assert(s[sorted[u] as int].spec_violation() <= s[sorted[w - 1] as int].spec_violation());
            assert(after[u] == levels[u]);
            assert(after[w - 1] == levels[w - 1]);
        } else if v < w {
            assert(after[u] == levels[u] && after[v] == levels[v]);
        }
    }
    assert forall|v: int| 0 < v < after.len() implies #[trigger] after[v] == after[v - 1] || after[v] == after[v - 1] + 1 by {
        if v < w {
            assert(after[v] == levels[v] && after[v - 1] == levels[v - 1]);
        }
    }
    assert forall|v: int| 0 <= v < after.len() implies #[trigger] after[v] <= v by {
        if v < w {
            assert(after[v] == levels[v]);
        } else if w > 0 {
            assert(levels[w - 1] <= w - 1);
        }
    }
}

// the level of each of the positions sorted by violation: 0 for the smallest violation, one
// more for each larger one
fn violation_levels(scores: &[Scores], sorted: &Vec<usize>) -> (levels: Vec<usize>)
    requires
        forall|u: int| 0 <= u < sorted@.len() ==> (#[trigger] sorted@[u] as int) < scores@.len(),
        forall|u: int, v: int| 0 <= u < v < sorted@.len()
            ==> scores@[#[trigger] sorted@[u] as int].spec_violation() <= scores@[#[trigger] sorted@[v] as int].spec_violation(),
    ensures
        levels@.len() == sorted@.len(),
        has_levels(scores@, sorted@, levels@),
{
    let mut levels: Vec<usize> = Vec::new();
    let mut level: usize = 0;
    let mut w: usize = 0;
    while w < sorted.len()
        invariant
            w <= sorted@.len(),
            levels@.len() == w,
            forall|u: int| 0 <= u < sorted@.len() ==> (#[trigger] sorted@[u] as int) < scores@.len(),
            forall|u: int, v: int| 0 <= u < v < sorted@.len()
                ==> scores@[#[trigger] sorted@[u] as int].spec_violation() <= scores@[#[trigger] sorted@[v] as int].spec_violation(),
            w > 0 ==> level == levels@[w - 1],
            w == 0 ==> level == 0,
            has_levels(scores@, sorted@, levels@),
        decreases sorted@.len() - w,
    {
        if w > 0 && scores[sorted[w - 1]].violation() != scores[sorted[w]].violation() {
            proof {
                assert(levels@[w - 1] <= w - 1);
            }
            level = level + 1;
        }
        proof {
            lemma_levels_step(scores@, sorted@, levels@, level);
        }
        levels.push(level);
        w = w + 1;
    }
    levels
}

// a level below one of the levels is the level of an earlier position
proof fn lemma_level_present(levels: Seq<usize>, v: int, l: int)
    requires
        0 <= v < levels.len(),
        levels[0] == 0,
        forall|x: int| 0 < x < levels.len() ==> #[trigger] levels[x] == levels[x - 1] || levels[x] == levels[x - 1] + 1,
        0 <= l <= levels[v],
    ensures
        exists|u: int| 0 <= u <= v && levels[u] == l,
    decreases v,
{
    if levels[v] != l {
        assert(v > 0);
        assert(levels[v] == levels[v - 1] || levels[v] == levels[v - 1] + 1);
        lemma_level_present(levels, v - 1, l);
    }
}

// the largest rank, plus one: the number of fronts
fn front_count(ranks: &Vec<usize>) -> (count: usize)
    requires
        forall|a: int| 0 <= a < ranks@.len() ==> #[trigger] ranks@[a] < usize::MAX,
    ensures
        forall|a: int| 0 <= a < ranks@.len() ==> #[trigger] ranks@[a] < count,
        count > 0 ==> exists|a: int| 0 <= a < ranks@.len() && ranks@[a] == count - 1,
        ranks@.len() == 0 ==> count == 0,
{
    let mut count: usize = 0;
    let mut a: usize = 0;
    while a < ranks.len()
        invariant
            a <= ranks@.len(),
            forall|b: int| 0 <= b < ranks@.len() ==> #[trigger] ranks@[b] < usize::MAX,
            forall|b: int| 0 <= b < a ==> #[trigger] ranks@[b] < count,
            count > 0 ==> exists|b: int| 0 <= b < a && ranks@[b] == count - 1,
            a == 0 ==> count == 0,
        decreases ranks@.len() - a,
    {
        if ranks[a] >= count {
            count = ranks[a] + 1;
        }
        a = a + 1;
    }
    count
}

// what the ranks of every solution are made of: the feasible solutions ranked by Pareto dominance
// of their points, then the infeasible ones by level of violation after the feasible fronts,
// then the invalid ones
spec fn is_assembly(
    s: Seq<Scores>,
    objectives: Seq<Objective>,
    feasible: Seq<usize>,
    infeasible: Seq<usize>,
    invalid: Seq<usize>,
    points: Seq<Seq<u64>>,
    feasible_ranks: Seq<usize>,
    fronts: int,
    sorted: Seq<usize>,
    levels: Seq<usize>,
    groups: int,
    all: Seq<usize>,
) -> bool {
    &&& s.len() <= usize::MAX
    &&& forall|i: int| 0 <= i < s.len() ==> fits(#[trigger] s[i], objectives)
    &&& lists_ascending(feasible, s.len() as int, feasible_mask(s))
    &&& lists_ascending(infeasible, s.len() as int, infeasible_mask(s))
    &&& lists_ascending(invalid, s.len() as int, invalid_mask(s))
    &&& points.len() == feasible.len()
    &&& forall|a: int| 0 <= a < feasible.len() ==> #[trigger] points[a] == minimized(s[feasible[a] as int].spec_values(), objectives)
    &&& is_pareto_ranking(points, feasible_ranks)
    &&& forall|a: int| 0 <= a < feasible_ranks.len() ==> #[trigger] feasible_ranks[a] < fronts
    &&& fronts > 0 ==> exists|a: int| 0 <= a < feasible_ranks.len() && feasible_ranks[a] == fronts - 1
    &&& fronts >= 0
    &&& sorted.len() == infeasible.len()
    &&& forall|u: int| 0 <= u < sorted.len() ==> #[trigger] infeasible.contains(sorted[u])
    &&& forall|u: int| 0 <= u < infeasible.len() ==> #[trigger] sorted.contains(infeasible[u])
    &&& forall|u: int| 0 <= u < sorted.len() ==> (#[trigger] sorted[u] as int) < s.len()
    &&& forall|u: int, v: int| 0 <= u < v < sorted.len()
        ==> s[#[trigger] sorted[u] as int].spec_violation() <= s[#[trigger] sorted[v] as int].spec_violation()
    &&& levels.len() == sorted.len()
    &&& has_levels(s, sorted, levels)
    &&& groups == (if levels.len() == 0 { 0 } else { levels.last() + 1 })
    &&& all.len() == s.len()
    &&& forall|a: int| 0 <= a < feasible.len() ==> #[trigger] all[feasible[a] as int] == feasible_ranks[a]
    &&& forall|w: int| 0 <= w < sorted.len() ==> #[trigger] all[sorted[w] as int] == fronts + levels[w]
    &&& forall|u: int| 0 <= u < invalid.len() ==> #[trigger] all[invalid[u] as int] == fronts + groups
}

// the position of `i` in a list of the positions that a mask marks
proof fn lemma_position_in(list: Seq<usize>, n: int, mask: Seq<bool>, i: int) -> (a: int)
    requires
        lists_ascending(list, n, mask),
        0 <= i < n,
        n <= usize::MAX,
        mask.len() == n,
        mask[i],
    ensures
        0 <= a < list.len(),
        list[a] == i,
{
    assert(list.contains(i as usize));
    choose|a: int| 0 <= a < list.len() && list[a] == i as usize
}

// the kind of each solution, and its position in the list of its kind
proof fn lemma_assembly_position(
    s: Seq<Scores>, objectives: Seq<Objective>, feasible: Seq<usize>, infeasible: Seq<usize>, invalid: Seq<usize>,
    points: Seq<Seq<u64>>, feasible_ranks: Seq<usize>, fronts: int, sorted: Seq<usize>, levels: Seq<usize>, groups: int,
    all: Seq<usize>, i: int,
) -> (position: int)
    requires
        is_assembly(s, objectives, feasible, infeasible, invalid, points, feasible_ranks, fronts, sorted, levels, groups, all),
        0 <= i < s.len(),
    ensures
        is_feasible(s[i]) ==> 0 <= position < feasible.len() && feasible[position] == i
            && all[i] == feasible_ranks[position] && all[i] < fronts,
        is_infeasible(s[i]) ==> 0 <= position < sorted.len() && sorted[position] == i
            && all[i] == fronts + levels[position] && levels[position] < groups,
        !s[i].spec_is_valid() ==> 0 <= position < invalid.len() && invalid[position] == i
            && all[i] == fronts + groups,
{
    if is_feasible(s[i]) {
        assert(feasible_mask(s)[i]);
        lemma_position_in(feasible, s.len() as int, feasible_mask(s), i)
    } else if is_infeasible(s[i]) {
        lemma_infeasible_position(s, infeasible, sorted, levels, groups, i)
    } else {
        assert(invalid_mask(s)[i]);
        lemma_position_in(invalid, s.len() as int, invalid_mask(s), i)
    }
}

// the position of an infeasible solution among those sorted by violation
proof fn lemma_infeasible_position(s: Seq<Scores>, infeasible: Seq<usize>, sorted: Seq<usize>, levels: Seq<usize>, groups: int, i: int) -> (w: int)
    requires
        s.len() <= usize::MAX,
        0 <= i < s.len(),
        is_infeasible(s[i]),
        lists_ascending(infeasible, s.len() as int, infeasible_mask(s)),
        forall|u: int| 0 <= u < infeasible.len() ==> #[trigger] sorted.contains(infeasible[u]),
        levels.len() == sorted.len(),
        forall|x: int| 0 < x < levels.len() ==> #[trigger] levels[x] == levels[x - 1] || levels[x] == levels[x - 1] + 1,
        groups == (if levels.len() == 0 { 0 } else { levels.last() + 1 }),
    ensures
        0 <= w < sorted.len(),
        sorted[w] == i,
        levels[w] < groups,
{
    assert(infeasible_mask(s)[i]);
    let u = lemma_position_in(infeasible, s.len() as int, infeasible_mask(s), i);
    assert(sorted.contains(infeasible[u]));
    let w = choose|w: int| 0 <= w < sorted.len() && sorted[w] == infeasible[u];
    let l = levels.len() - 1;
    if w < l {
        lemma_levels_ordered(levels, w, l);
    }
    w
}

// the sorted positions are of infeasible solutions
proof fn lemma_sorted_infeasible(
    s: Seq<Scores>, objectives: Seq<Objective>, feasible: Seq<usize>, infeasible: Seq<usize>, invalid: Seq<usize>,
    points: Seq<Seq<u64>>, feasible_ranks: Seq<usize>, fronts: int, sorted: Seq<usize>, levels: Seq<usize>, groups: int,
    all: Seq<usize>, w: int,
)
    requires
        is_assembly(s, objectives, feasible, infeasible, invalid, points, feasible_ranks, fronts, sorted, levels, groups, all),
        0 <= w < sorted.len(),
    ensures
        is_infeasible(s[sorted[w] as int]),
{
    assert(infeasible.contains(sorted[w]));
    let u = choose|u: int| 0 <= u < infeasible.len() && infeasible[u] == sorted[w];
    assert(infeasible_mask(s)[infeasible[u] as int]);
}

// a dominator of a solution has a smaller rank
proof fn lemma_assembly_dominators(
    s: Seq<Scores>, objectives: Seq<Objective>, feasible: Seq<usize>, infeasible: Seq<usize>, invalid: Seq<usize>,
    points: Seq<Seq<u64>>, feasible_ranks: Seq<usize>, fronts: int, sorted: Seq<usize>, levels: Seq<usize>, groups: int,
    all: Seq<usize>, i: int, j: int,
)
    requires
        is_assembly(s, objectives, feasible, infeasible, invalid, points, feasible_ranks, fronts, sorted, levels, groups, all),
        0 <= i < s.len(),
        0 <= j < s.len(),
        dominance(s[j], s[i], objectives),
    ensures
        all[j] < all[i],
{
    let a = lemma_assembly_position(s, objectives, feasible, infeasible, invalid, points, feasible_ranks, fronts, sorted, levels, groups, all, i);
    let b = lemma_assembly_position(s, objectives, feasible, infeasible, invalid, points, feasible_ranks, fronts, sorted, levels, groups, all, j);
    if is_feasible(s[i]) {
        assert(is_feasible(s[j]));
        assert(points[b] == minimized(s[j].spec_values(), objectives));
        assert(points[a] == minimized(s[i].spec_values(), objectives));
        assert(pareto_dominates(points[b], points[a]));
    } else if is_infeasible(s[i]) {
        if is_infeasible(s[j]) {
            assert(s[j].spec_violation() < s[i].spec_violation());
            if a < b {
                assert(s[sorted[a] as int].spec_violation() <= s[sorted[b] as int].spec_violation());
            } else {
                assert(a != b);
            }
        }
    }
}

// a solution of a later front than the first has a dominator in the front before
proof fn lemma_assembly_dominator_before(
    s: Seq<Scores>, objectives: Seq<Objective>, feasible: Seq<usize>, infeasible: Seq<usize>, invalid: Seq<usize>,
    points: Seq<Seq<u64>>, feasible_ranks: Seq<usize>, fronts: int, sorted: Seq<usize>, levels: Seq<usize>, groups: int,
    all: Seq<usize>, i: int,
) -> (j: int)
    requires
        is_assembly(s, objectives, feasible, infeasible, invalid, points, feasible_ranks, fronts, sorted, levels, groups, all),
        0 <= i < s.len(),
        all[i] > 0,
    ensures
        0 <= j < s.len(),
        dominance(s[j], s[i], objectives),
        all[j] == all[i] - 1,
{
    let a = lemma_assembly_position(s, objectives, feasible, infeasible, invalid, points, feasible_ranks, fronts, sorted, levels, groups, all, i);
    if is_feasible(s[i]) {
        let b = choose|b: int| 0 <= b < points.len() && #[trigger] pareto_dominates(points[b], points[a]) && feasible_ranks[b] == feasible_ranks[a] - 1;
        let j = feasible[b] as int;
        assert(points[b] == minimized(s[j].spec_values(), objectives));
        assert(feasible_mask(s)[j]);
        assert(all[j] == feasible_ranks[b]);
        j
    } else if is_infeasible(s[i]) {
        if levels[a] > 0 {
            lemma_level_present(levels, a, levels[a] - 1);
            let v = choose|v: int| 0 <= v <= a && levels[v] == levels[a] - 1;
            let j = sorted[v] as int;
            lemma_sorted_infeasible(s, objectives, feasible, infeasible, invalid, points, feasible_ranks, fronts, sorted, levels, groups, all, v);
            assert(v != a);
            assert(s[sorted[v] as int].spec_violation() <= s[sorted[a] as int].spec_violation());
            assert(s[j].spec_violation() != s[i].spec_violation());
            assert(all[j] == fronts + levels[v]);
            j
        } else {
            let b = choose|b: int| 0 <= b < feasible_ranks.len() && feasible_ranks[b] == fronts - 1;
            let j = feasible[b] as int;
            assert(feasible_mask(s)[j]);
            assert(all[j] == feasible_ranks[b]);
            j
        }
    } else {
        if groups > 0 {
            let l = levels.len() - 1;
            let j = sorted[l] as int;
            lemma_sorted_infeasible(s, objectives, feasible, infeasible, invalid, points, feasible_ranks, fronts, sorted, levels, groups, all, l);
            assert(all[j] == fronts + levels[l]);
            j
        } else {
            let b = choose|b: int| 0 <= b < feasible_ranks.len() && feasible_ranks[b] == fronts - 1;
            let j = feasible[b] as int;
            assert(feasible_mask(s)[j]);
            assert(all[j] == feasible_ranks[b]);
            j
        }
    }
}

// the ranks as integers
spec fn as_ints(ranks: Seq<usize>) -> Seq<int> {
    ranks.map_values(|rank: usize| rank as int)
}

proof fn lemma_ranks_are_dominance_ranking(
    s: Seq<Scores>, objectives: Seq<Objective>, feasible: Seq<usize>, infeasible: Seq<usize>, invalid: Seq<usize>,
    points: Seq<Seq<u64>>, feasible_ranks: Seq<usize>, fronts: int, sorted: Seq<usize>, levels: Seq<usize>, groups: int,
    all: Seq<usize>,
)
    requires
        is_assembly(s, objectives, feasible, infeasible, invalid, points, feasible_ranks, fronts, sorted, levels, groups, all),
    ensures
        is_dominance_ranking(s, objectives, as_ints(all)),
{
    let front_of = as_ints(all);
    assert forall|i: int, j: int| 0 <= i < s.len() && 0 <= j < s.len() && #[trigger] dominance(s[j], s[i], objectives)
        implies front_of[j] < front_of[i] by {
        lemma_assembly_dominators(s, objectives, feasible, infeasible, invalid, points, feasible_ranks, fronts, sorted, levels, groups, all, i, j);
    }
    assert forall|i: int| 0 <= i < s.len() && #[trigger] front_of[i] > 0 implies exists|j: int|
        0 <= j < s.len() && #[trigger] dominance(s[j], s[i], objectives) && front_of[j] == front_of[i] - 1 by {
        let j = lemma_assembly_dominator_before(s, objectives, feasible, infeasible, invalid, points, feasible_ranks, fronts, sorted, levels, groups, all, i);
        assert(front_of[j] == front_of[i] - 1);
    }
}

// levels of later positions aren't smaller
proof fn lemma_levels_ordered(levels: Seq<usize>, u: int, v: int)
    requires
        0 <= u <= v < levels.len(),
        forall|x: int| 0 < x < levels.len() ==> #[trigger] levels[x] == levels[x - 1] || levels[x] == levels[x - 1] + 1,
    ensures
        levels[u] <= levels[v],
    decreases v - u,
{
    if u < v {
        lemma_levels_ordered(levels, u, v - 1);
        assert(levels[v] == levels[v - 1] || levels[v] == levels[v - 1] + 1);
    }
}


// `all` with each of `positions` set to the value at its place in `values`
fn place(all: &mut Vec<usize>, positions: &Vec<usize>, values: &Vec<usize>)
    requires
        positions@.len() == values@.len(),
        forall|a: int| 0 <= a < positions@.len() ==> (#[trigger] positions@[a] as int) < old(all)@.len(),
        forall|a: int, b: int| 0 <= a < b < positions@.len() ==> #[trigger] positions@[a] != #[trigger] positions@[b],
    ensures
        final(all)@.len() == old(all)@.len(),
        forall|a: int| 0 <= a < positions@.len() ==> #[trigger] final(all)@[positions@[a] as int] == values@[a],
        forall|i: int| 0 <= i < old(all)@.len() && !positions@.contains(i as usize) ==> #[trigger] final(all)@[i] == old(all)@[i],
{
    let ghost start = all@;
    let mut a: usize = 0;
    while a < positions.len()
        invariant
            a <= positions@.len(),
            positions@.len() == values@.len(),
            all@.len() == start.len(),
            forall|b: int| 0 <= b < positions@.len() ==> (#[trigger] positions@[b] as int) < start.len(),
            forall|b: int, c: int| 0 <= b < c < positions@.len() ==> #[trigger] positions@[b] != #[trigger] positions@[c],
            forall|b: int| 0 <= b < a ==> #[trigger] all@[positions@[b] as int] == values@[b],
            forall|i: int| 0 <= i < start.len() && !positions@.take(a as int).contains(i as usize) ==> #[trigger] all@[i] == start[i],
        decreases positions@.len() - a,
    {
        let ghost before = all@;
        all.set(positions[a], values[a]);
        proof {
            assert forall|i: int| 0 <= i < start.len() && !positions@.take(a + 1).contains(i as usize) implies #[trigger] all@[i] == start[i] by {
                assert(positions@.take(a + 1)[a as int] == positions@[a as int]);
                if positions@.take(a as int).contains(i as usize) {
                    let c = choose|c: int| 0 <= c < a && positions@.take(a as int)[c] == i as usize;
                    assert(positions@.take(a + 1)[c] == i as usize);
                }
                assert(before[i] == start[i]);
            }
        }
        a = a + 1;
    }
    proof {
        assert(positions@.take(positions@.len() as int) =~= positions@);
    }
}

// `count` copies of `value`
fn repeated(value: usize, count: usize) -> (r: Vec<usize>)
    ensures
        r@.len() == count,
        forall|a: int| 0 <= a < count ==> #[trigger] r@[a] == value,
{
    let mut r: Vec<usize> = Vec::new();
    while r.len() < count
        invariant
            r@.len() <= count,
            forall|a: int| 0 <= a < r@.len() ==> #[trigger] r@[a] == value,
        decreases count - r@.len(),
    {
        r.push(value);
    }
    r
}

// `base` added to each of the levels
fn shifted(levels: &Vec<usize>, base: usize) -> (r: Vec<usize>)
    requires
        forall|a: int| 0 <= a < levels@.len() ==> base + #[trigger] levels@[a] <= usize::MAX,
    ensures
        r@.len() == levels@.len(),
        forall|a: int| 0 <= a < levels@.len() ==> #[trigger] r@[a] == base + levels@[a],
{
    let mut r: Vec<usize> = Vec::new();
    let mut a: usize = 0;
    while a < levels.len()
        invariant
            a <= levels@.len(),
            r@.len() == a,
            forall|b: int| 0 <= b < levels@.len() ==> base + #[trigger] levels@[b] <= usize::MAX,
            forall|b: int| 0 <= b < a ==> #[trigger] r@[b] == base + levels@[b],
        decreases levels@.len() - a,
    {
        r.push(base + levels[a]);
        a = a + 1;
    }
    r
}

// the positions `0..n` in order
fn positions_below(n: usize) -> (r: Vec<usize>)
    ensures
        r@.len() == n,
        forall|a: int| 0 <= a < n ==> #[trigger] r@[a] == a,
{
    let mut r: Vec<usize> = Vec::new();
    while r.len() < n
        invariant
            r@.len() <= n,
            forall|a: int| 0 <= a < r@.len() ==> #[trigger] r@[a] == a,
        decreases n - r@.len(),
    {
        let a = r.len();
        r.push(a);
    }
    r
}

// positions listed by two masks that no position has both of are never the same
proof fn lemma_lists_disjoint(l1: Seq<usize>, m1: Seq<bool>, l2: Seq<usize>, m2: Seq<bool>, n: int, a: int, b: int)
    requires
        lists_ascending(l1, n, m1),
        lists_ascending(l2, n, m2),
        forall|i: int| 0 <= i < n ==> !(#[trigger] m1[i] && m2[i]),
        0 <= a < l1.len(),
        0 <= b < l2.len(),
    ensures
        l1[a] != l2[b],
{
    assert(m1[l1[a] as int]);
    assert(m2[l2[b] as int]);
}

/// The fronts of non-dominated sorting by [constrained dominance](dominates): the first front
/// holds the indices of the solutions that no other solution dominates, the second those that
/// only the first front dominates, and so on. Each front lists its indices in ascending order.
///
/// The feasible solutions come first, sorted by Pareto dominance; then the infeasible ones, one
/// front per constraint violation, smallest first; then the invalid ones, in one front.
///
/// Sorting takes O(N log N) time for 2 objectives, and uses ENS-BS (Zhang et al., 2015) for
/// more.
pub fn non_dominated_sort(scores: &[Scores], objectives: &[Objective]) -> (fronts: Vec<Vec<usize>>)
    requires
        forall|i: int| 0 <= i < scores@.len() ==> fits(#[trigger] scores@[i], objectives@),
    ensures
        exists|front_of: Seq<int>| is_dominance_ranking(scores@, objectives@, front_of)
            && lists_fronts(fronts_of(fronts@), front_of),
{
    let n = scores.len();
    let ghost s = scores@;
    let (feasible, infeasible, invalid) = split_by_feasibility(scores);
    let m = objectives.len();
    let mut points: Vec<Vec<u64>> = Vec::new();
    let mut a: usize = 0;
    while a < feasible.len()
        invariant
            s == scores@,
            n == s.len(),
            m == objectives@.len(),
            forall|i: int| 0 <= i < s.len() ==> fits(#[trigger] s[i], objectives@),
            lists_ascending(feasible@, n as int, feasible_mask(s)),
            a <= feasible@.len(),
            points@.len() == a,
            forall|b: int| 0 <= b < a ==> #[trigger] points_of(points@)[b] == minimized(s[feasible@[b] as int].spec_values(), objectives@),
            all_of_len(points_of(points@), m as int),
        decreases feasible@.len() - a,
    {
        let x = feasible[a];
        proof {
            assert(feasible_mask(s)[x as int]);
            assert(fits(s[x as int], objectives@));
        }
        let point = minimized_point(&scores[x], objectives);
        let ghost before = points@;
        points.push(point);
        proof {
            assert forall|b: int| 0 <= b <= a implies #[trigger] points_of(points@)[b] == minimized(s[feasible@[b] as int].spec_values(), objectives@) by {
                if b < a {
                    assert(points_of(points@)[b] == points_of(before)[b]);
                }
            }
            assert forall|b: int| 0 <= b < points_of(points@).len() implies (#[trigger] points_of(points@)[b]).len() == m by {
                if b < a {
                    assert(points_of(points@)[b] == points_of(before)[b]);
                }
            }
        }
        a = a + 1;
    }
    let feasible_ranks = if m == 2 { two_objective_ranks(&points) } else { ens_ranks(&points, m) };
    let fronts = front_count(&feasible_ranks);
    let sorted = sort_by_violation(scores, &infeasible);
    proof {
        assert forall|u: int| 0 <= u < sorted@.len() implies (#[trigger] sorted@[u] as int) < n by {
            assert(infeasible@.contains(sorted@[u]));
            let v = choose|v: int| 0 <= v < infeasible@.len() && infeasible@[v] == sorted@[u];
            assert(infeasible@[v] < n);
        }
    }
    let levels = violation_levels(scores, &sorted);
    let groups: usize = if levels.len() == 0 { 0 } else { levels[levels.len() - 1] + 1 };
    proof {
        assert(fronts <= feasible@.len()) by {
            if fronts > 0 {
                let b = choose|b: int| 0 <= b < feasible_ranks@.len() && feasible_ranks@[b] == fronts - 1;
            }
        }
        assert(feasible@.len() + infeasible@.len() <= n) by {
            lemma_two_lists_fit(feasible@, feasible_mask(s), infeasible@, infeasible_mask(s), n as int);
        }
        assert forall|w: int| 0 <= w < levels@.len() implies fronts + #[trigger] levels@[w] < n by {}
    }
    let shifted_levels = shifted(&levels, fronts);
    let mut all = repeated(0, n);
    place(&mut all, &feasible, &feasible_ranks);
    let ghost after_feasible = all@;
    proof {
        assert forall|u: int, v: int| 0 <= u < v < sorted@.len() implies #[trigger] sorted@[u] != #[trigger] sorted@[v] by {
            if sorted@[u] == sorted@[v] {
                assert(sorted@[u] < sorted@[v]);
            }
        }
    }
    place(&mut all, &sorted, &shifted_levels);
    let ghost after_infeasible = all@;
    place(&mut all, &invalid, &repeated(fronts + groups, invalid.len()));
    proof {
        lemma_assembled(s, objectives@, feasible@, infeasible@, invalid@, points_of(points@), feasible_ranks@,
            fronts as int, sorted@, levels@, groups as int, after_feasible, after_infeasible, all@);
        lemma_ranks_are_dominance_ranking(s, objectives@, feasible@, infeasible@, invalid@, points_of(points@),
            feasible_ranks@, fronts as int, sorted@, levels@, groups as int, all@);
    }
    let members = positions_below(n);
    proof {
        let front_of = as_ints(all@);
        assert forall|x: int| 0 <= x < all@.len() && #[trigger] all@[x] > 0 implies exists|y: int| 0 <= y < all@.len() && all@[y] == all@[x] - 1 by {
            assert(front_of[x] > 0);
            let y = choose|y: int| 0 <= y < s.len() && #[trigger] dominance(s[y], s[x], objectives@) && front_of[y] == front_of[x] - 1;
            assert(all@[y] == all@[x] - 1);
        }
    }
    let result = group_by_rank(&members, &all);
    proof {
        let front_of = as_ints(all@);
        let f = fronts_of(result@);
        assert forall|k: int| 0 <= k < f.len() implies #[trigger] f[k] == result@[k]@ by {}
        assert forall|k: int, u: int| 0 <= k < f.len() && 0 <= u < f[k].len()
            implies #[trigger] f[k][u] < front_of.len() && front_of[f[k][u] as int] == k by {
            assert(f[k] == result@[k]@);
            assert(has_rank(members@, all@, n as int, result@[k]@[u], k));
            let b = choose|b: int| 0 <= b < n && #[trigger] members@[b] == result@[k]@[u] && all@[b] == k;
        }
        assert forall|i: int| 0 <= i < front_of.len() implies 0 <= #[trigger] front_of[i] < f.len()
            && exists|u: int| 0 <= u < f[front_of[i]].len() && f[front_of[i]][u] == i by {
            assert(members@[i] == i);
            assert(result@[all@[i] as int]@.contains(members@[i]));
            let u = choose|u: int| 0 <= u < result@[all@[i] as int]@.len() && result@[all@[i] as int]@[u] == members@[i];
            assert(f[front_of[i]] == result@[all@[i] as int]@);
        }
        assert(lists_fronts(f, front_of));
    }
    result
}


// two lists of the positions below `n` that two masks mark, when no position has both marks,
// hold no more than `n` positions together
proof fn lemma_two_lists_fit(l1: Seq<usize>, m1: Seq<bool>, l2: Seq<usize>, m2: Seq<bool>, n: int)
    requires
        0 <= n,
        lists_ascending(l1, n, m1),
        lists_ascending(l2, n, m2),
        forall|i: int| 0 <= i < n ==> !(#[trigger] m1[i] && m2[i]),
    ensures
        l1.len() + l2.len() <= n,
{
    let both = l1 + l2;
    assert forall|u: int, v: int| 0 <= u < v < both.len() implies #[trigger] both[u] != #[trigger] both[v] by {
        if v < l1.len() {
        } else if u >= l1.len() {
            assert(both[u] == l2[u - l1.len()] && both[v] == l2[v - l1.len()]);
        } else {
            lemma_lists_disjoint(l1, m1, l2, m2, n, u, v - l1.len());
        }
    }
    assert forall|u: int| 0 <= u < both.len() implies (#[trigger] both[u] as int) < n by {
        if u >= l1.len() {
            assert(both[u] == l2[u - l1.len()]);
        }
    }
    crate::genome::lemma_distinct_below_len(both, n);
}

// the ranks placed for each kind of solution make an assembly
proof fn lemma_assembled(
    s: Seq<Scores>, objectives: Seq<Objective>, feasible: Seq<usize>, infeasible: Seq<usize>, invalid: Seq<usize>,
    points: Seq<Seq<u64>>, feasible_ranks: Seq<usize>, fronts: int, sorted: Seq<usize>, levels: Seq<usize>, groups: int,
    after_feasible: Seq<usize>, after_infeasible: Seq<usize>, all: Seq<usize>,
)
    requires
        s.len() <= usize::MAX,
        forall|i: int| 0 <= i < s.len() ==> fits(#[trigger] s[i], objectives),
        lists_ascending(feasible, s.len() as int, feasible_mask(s)),
        lists_ascending(infeasible, s.len() as int, infeasible_mask(s)),
        lists_ascending(invalid, s.len() as int, invalid_mask(s)),
        points.len() == feasible.len(),
        forall|a: int| 0 <= a < feasible.len() ==> #[trigger] points[a] == minimized(s[feasible[a] as int].spec_values(), objectives),
        is_pareto_ranking(points, feasible_ranks),
        forall|a: int| 0 <= a < feasible_ranks.len() ==> #[trigger] feasible_ranks[a] < fronts,
        fronts > 0 ==> exists|a: int| 0 <= a < feasible_ranks.len() && feasible_ranks[a] == fronts - 1,
        fronts >= 0,
        sorted.len() == infeasible.len(),
        forall|u: int| 0 <= u < sorted.len() ==> #[trigger] infeasible.contains(sorted[u]),
        forall|u: int| 0 <= u < infeasible.len() ==> #[trigger] sorted.contains(infeasible[u]),
        forall|u: int, v: int| 0 <= u < v < sorted.len()
            ==> s[#[trigger] sorted[u] as int].spec_violation() <= s[#[trigger] sorted[v] as int].spec_violation(),
        levels.len() == sorted.len(),
        has_levels(s, sorted, levels),
        groups == (if levels.len() == 0 { 0 } else { levels.last() + 1 }),
        after_feasible.len() == s.len(),
        forall|a: int| 0 <= a < feasible.len() ==> #[trigger] after_feasible[feasible[a] as int] == feasible_ranks[a],
        after_infeasible.len() == s.len(),
        forall|w: int| 0 <= w < sorted.len() ==> #[trigger] after_infeasible[sorted[w] as int] == fronts + levels[w],
        forall|i: int| 0 <= i < s.len() && !sorted.contains(i as usize) ==> #[trigger] after_infeasible[i] == after_feasible[i],
        all.len() == s.len(),
        forall|u: int| 0 <= u < invalid.len() ==> #[trigger] all[invalid[u] as int] == fronts + groups,
        forall|i: int| 0 <= i < s.len() && !invalid.contains(i as usize) ==> #[trigger] all[i] == after_infeasible[i],
    ensures
        is_assembly(s, objectives, feasible, infeasible, invalid, points, feasible_ranks, fronts, sorted, levels, groups, all),
{
    let n = s.len() as int;
    assert forall|i: int| 0 <= i < n implies !(#[trigger] feasible_mask(s)[i] && infeasible_mask(s)[i]) by {}
    assert forall|i: int| 0 <= i < n implies !(#[trigger] feasible_mask(s)[i] && invalid_mask(s)[i]) by {}
    assert forall|i: int| 0 <= i < n implies !(#[trigger] infeasible_mask(s)[i] && invalid_mask(s)[i]) by {}
    assert forall|u: int| 0 <= u < sorted.len() implies (#[trigger] sorted[u] as int) < n by {
        assert(infeasible.contains(sorted[u]));
        let v = choose|v: int| 0 <= v < infeasible.len() && infeasible[v] == sorted[u];
        assert(infeasible[v] < n);
    }
    assert forall|a: int| 0 <= a < feasible.len() implies #[trigger] all[feasible[a] as int] == feasible_ranks[a] by {
        let i = feasible[a] as int;
        if invalid.contains(i as usize) {
            let u = choose|u: int| 0 <= u < invalid.len() && invalid[u] == i as usize;
            lemma_lists_disjoint(feasible, feasible_mask(s), invalid, invalid_mask(s), n, a, u);
        }
        if sorted.contains(i as usize) {
            let w = choose|w: int| 0 <= w < sorted.len() && sorted[w] == i as usize;
            assert(infeasible.contains(sorted[w]));
            let v = choose|v: int| 0 <= v < infeasible.len() && infeasible[v] == sorted[w];
            lemma_lists_disjoint(feasible, feasible_mask(s), infeasible, infeasible_mask(s), n, a, v);
        }
    }
    assert forall|w: int| 0 <= w < sorted.len() implies #[trigger] all[sorted[w] as int] == fronts + levels[w] by {
        let i = sorted[w] as int;
        if invalid.contains(i as usize) {
            let u = choose|u: int| 0 <= u < invalid.len() && invalid[u] == i as usize;
            assert(infeasible.contains(sorted[w]));
            let v = choose|v: int| 0 <= v < infeasible.len() && infeasible[v] == sorted[w];
            lemma_lists_disjoint(infeasible, infeasible_mask(s), invalid, invalid_mask(s), n, v, u);
        }
    }
}


/// The front of every solution is determined by constrained dominance alone: two rankings that
/// both follow it are the same.
pub proof fn lemma_dominance_ranking_is_unique(s: Seq<Scores>, objectives: Seq<Objective>, f: Seq<int>, g: Seq<int>)
    requires
        is_dominance_ranking(s, objectives, f),
        is_dominance_ranking(s, objectives, g),
    ensures
        f == g,
{
    assert forall|i: int| 0 <= i < s.len() implies #[trigger] f[i] == g[i] by {
        lemma_rankings_agree_below(s, objectives, f, g, f[i]);
    }
    assert(f =~= g);
}

// two rankings agree on the solutions whose front is at most `k` in the first
proof fn lemma_rankings_agree_below(s: Seq<Scores>, objectives: Seq<Objective>, f: Seq<int>, g: Seq<int>, k: int)
    requires
        is_dominance_ranking(s, objectives, f),
        is_dominance_ranking(s, objectives, g),
    ensures
        forall|i: int| 0 <= i < s.len() && f[i] <= k ==> #[trigger] g[i] == f[i],
    decreases k,
{
    if k > 0 {
        lemma_rankings_agree_below(s, objectives, f, g, k - 1);
    }
    assert forall|i: int| 0 <= i < s.len() && f[i] <= k implies #[trigger] g[i] == f[i] by {
        if f[i] == k {
            // g[i] is at least k: a dominator in the front before has the same front in both
            if k > 0 {
                let j = choose|j: int| 0 <= j < s.len() && #[trigger] dominance(s[j], s[i], objectives) && f[j] == f[i] - 1;
                assert(g[j] == f[j]);
                assert(g[j] < g[i]);
            }
            // g[i] is at most k: its dominator in the front before is in an earlier front of f
            if g[i] > k {
                let j = choose|j: int| 0 <= j < s.len() && #[trigger] dominance(s[j], s[i], objectives) && g[j] == g[i] - 1;
                assert(f[j] < f[i]);
                if k > 0 {
                    assert(g[j] == f[j]);
                } else {
                    assert(f[j] >= 0);
                }
            }
        }
    }
}


/// Whether a solution of `new` is neither the same as nor dominated by any solution of `old`.
pub open spec fn improves(new: Seq<Scores>, old: Seq<Scores>, objectives: Seq<Objective>) -> bool {
    exists|c: int| 0 <= c < new.len() && #[trigger] unbeaten(new[c], old, objectives)
}

/// Whether no solution of `old` is the same as `candidate` or dominates it.
pub open spec fn unbeaten(candidate: Scores, old: Seq<Scores>, objectives: Seq<Objective>) -> bool {
    forall|o: int| 0 <= o < old.len() ==> !same_scores(#[trigger] old[o], candidate) && !dominance(old[o], candidate, objectives)
}

/// Whether `new` has a solution that no solution of `old` dominates or equals: the front
/// improved.
pub fn gains(new: &[Scores], old: &[Scores], objectives: &[Objective]) -> (r: bool)
    requires
        forall|i: int| 0 <= i < new@.len() ==> fits(#[trigger] new@[i], objectives@),
        forall|i: int| 0 <= i < old@.len() ==> fits(#[trigger] old@[i], objectives@),
    ensures
        r == improves(new@, old@, objectives@),
{
    let mut c: usize = 0;
    while c < new.len()
        invariant
            c <= new@.len(),
            forall|i: int| 0 <= i < new@.len() ==> fits(#[trigger] new@[i], objectives@),
            forall|i: int| 0 <= i < old@.len() ==> fits(#[trigger] old@[i], objectives@),
            forall|d: int| 0 <= d < c ==> !#[trigger] unbeaten(new@[d], old@, objectives@),
        decreases new@.len() - c,
    {
        let candidate = &new[c];
        let mut beaten = false;
        let mut o: usize = 0;
        while o < old.len()
            invariant
                o <= old@.len(),
                c < new@.len(),
                *candidate == new@[c as int],
                fits(*candidate, objectives@),
                forall|i: int| 0 <= i < old@.len() ==> fits(#[trigger] old@[i], objectives@),
                beaten == exists|p: int| 0 <= p < o && (same_scores(#[trigger] old@[p], *candidate) || dominance(old@[p], *candidate, objectives@)),
            decreases old@.len() - o,
        {
            if old[o].equals(candidate) || dominates(&old[o], candidate, objectives) {
                beaten = true;
            }
            o = o + 1;
        }
        if !beaten {
            proof {
                assert(unbeaten(new@[c as int], old@, objectives@));
            }
            return true;
        }
        c = c + 1;
    }
    false
}


/// In the fronts of constrained dominance, the feasible solutions come first; then the
/// infeasible ones, one front per constraint violation, the smallest first; then the invalid
/// ones, in one front.
pub proof fn lemma_constraints_order_the_fronts(s: Seq<Scores>, objectives: Seq<Objective>, front_of: Seq<int>, i: int, j: int)
    requires
        is_dominance_ranking(s, objectives, front_of),
        0 <= i < s.len(),
        0 <= j < s.len(),
    ensures
        is_feasible(s[i]) && !is_feasible(s[j]) ==> front_of[i] < front_of[j],
        is_infeasible(s[i]) && is_infeasible(s[j]) && s[i].spec_violation() < s[j].spec_violation() ==> front_of[i] < front_of[j],
        is_infeasible(s[i]) && !s[j].spec_is_valid() ==> front_of[i] < front_of[j],
        is_infeasible(s[i]) && is_infeasible(s[j]) && s[i].spec_violation() == s[j].spec_violation() ==> front_of[i] == front_of[j],
        !s[i].spec_is_valid() && !s[j].spec_is_valid() ==> front_of[i] == front_of[j],
{
    assert(is_feasible(s[i]) && !is_feasible(s[j]) ==> dominance(s[i], s[j], objectives));
    assert(is_infeasible(s[i]) && !s[j].spec_is_valid() ==> dominance(s[i], s[j], objectives));
    assert(is_infeasible(s[i]) && is_infeasible(s[j]) && s[i].spec_violation() < s[j].spec_violation()
        ==> dominance(s[i], s[j], objectives));
    if is_infeasible(s[i]) && is_infeasible(s[j]) && s[i].spec_violation() == s[j].spec_violation() {
        lemma_alike_share_a_front(s, objectives, front_of, i, j);
        lemma_alike_share_a_front(s, objectives, front_of, j, i);
    }
    if !s[i].spec_is_valid() && !s[j].spec_is_valid() {
        lemma_alike_share_a_front(s, objectives, front_of, i, j);
        lemma_alike_share_a_front(s, objectives, front_of, j, i);
    }
}

// a solution dominated by every dominator of another one isn't in an earlier front
proof fn lemma_alike_share_a_front(s: Seq<Scores>, objectives: Seq<Objective>, front_of: Seq<int>, i: int, j: int)
    requires
        is_dominance_ranking(s, objectives, front_of),
        0 <= i < s.len(),
        0 <= j < s.len(),
        forall|d: int| 0 <= d < s.len() ==> (#[trigger] dominance(s[d], s[j], objectives) ==> dominance(s[d], s[i], objectives)),
    ensures
        front_of[j] <= front_of[i],
{
    if front_of[i] < front_of[j] {
        let d = choose|d: int| 0 <= d < s.len() && #[trigger] dominance(s[d], s[j], objectives) && front_of[d] == front_of[j] - 1;
        assert(dominance(s[d], s[i], objectives));
    }
}

/// The fronts peel off one after the other (Deb's fast non-dominated sort): a solution is in
/// front `k` exactly when it is in no earlier front and every solution that dominates it is in an
/// earlier one.
pub proof fn lemma_fronts_are_peeled(s: Seq<Scores>, objectives: Seq<Objective>, front_of: Seq<int>, i: int, k: int)
    requires
        is_dominance_ranking(s, objectives, front_of),
        0 <= i < s.len(),
        0 <= k,
    ensures
        front_of[i] == k <==> (front_of[i] >= k
            && forall|j: int| 0 <= j < s.len() && #[trigger] dominance(s[j], s[i], objectives) ==> front_of[j] < k),
{
    if front_of[i] > k {
        let j = choose|j: int| 0 <= j < s.len() && #[trigger] dominance(s[j], s[i], objectives) && front_of[j] == front_of[i] - 1;
    }
}

} // verus!
