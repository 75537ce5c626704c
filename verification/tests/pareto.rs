use genoxide::multi::pareto::{ens_ranks, gains, lexicographic_order, two_objective_ranks};
use genoxide::multi::{dominates, non_dominated_sort, Scores};
use genoxide::Error;
use genoxide::Objective::{self, Maximize, Minimize};
use std::collections::HashSet;

fn bits(values: &[f64]) -> Vec<u64> {
    values.iter().map(|value| value.to_bits()).collect()
}

fn scores(values: &[f64]) -> Scores {
    Scores::new(bits(values))
}

fn constrained(values: &[f64], violation: f64) -> Scores {
    Scores::constrained(bits(values), violation.to_bits())
}

fn s(a: f64, b: f64) -> Scores {
    scores(&[a, b])
}

// Deb's fast non-dominated sort, O(M N²): the reference for the faster sorts
fn reference_sort(scores: &[Scores], objectives: &[Objective]) -> Vec<Vec<usize>> {
    let n = scores.len();
    let mut dominated: Vec<Vec<usize>> = vec![Vec::new(); n];
    let mut counts = vec![0usize; n];
    for a in 0..n {
        for b in 0..n {
            if dominates(&scores[a], &scores[b], objectives) {
                dominated[a].push(b);
            } else if dominates(&scores[b], &scores[a], objectives) {
                counts[a] += 1;
            }
        }
    }
    let mut fronts = Vec::new();
    let mut current: Vec<usize> = (0..n).filter(|&index| counts[index] == 0).collect();
    while !current.is_empty() {
        let mut next = Vec::new();
        for &a in &current {
            for &b in &dominated[a] {
                counts[b] -= 1;
                if counts[b] == 0 {
                    next.push(b);
                }
            }
        }
        current.sort_unstable();
        fronts.push(current);
        current = next;
    }
    fronts
}

// a small deterministic generator of scores with many ties, duplicates and constraints
struct Lcg(u64);

impl Lcg {
    fn next(&mut self) -> u64 {
        self.0 = self.0.wrapping_mul(6364136223846793005).wrapping_add(1442695040888963407);
        self.0 >> 33
    }

    fn scores(&mut self, m: usize) -> Scores {
        let values: Vec<f64> = (0..m)
            .map(|_| match self.next() % 5 {
                4 => f64::INFINITY,
                v => v as f64,
            })
            .collect();
        match self.next() % 10 {
            0 => Scores::invalid(),
            1 => constrained(&values, 1.0),
            2 => constrained(&values, 2.0),
            _ => constrained(&values, 0.0),
        }
    }

    fn objectives(&mut self, m: usize) -> Vec<Objective> {
        (0..m).map(|_| if self.next() % 2 == 0 { Minimize } else { Maximize }).collect()
    }
}

#[test]
fn dominance() {
    let objectives = [Minimize, Minimize];
    assert!(dominates(&s(1.0, 1.0), &s(1.0, 2.0), &objectives));
    assert!(!dominates(&s(1.0, 1.0), &s(1.0, 1.0), &objectives));
    assert!(!dominates(&s(1.0, 2.0), &s(2.0, 1.0), &objectives));
    assert!(dominates(&s(0.0, 0.0), &s(-0.0, f64::INFINITY), &objectives));
    assert!(dominates(&s(f64::NEG_INFINITY, 0.0), &s(0.0, 0.0), &objectives));
    let maximize = [Maximize, Maximize];
    assert!(dominates(&s(1.0, 2.0), &s(1.0, 1.0), &maximize));
    // invalid, then infeasible
    let invalid = Scores::invalid();
    let infeasible = |violation: f64| constrained(&[0.0, 0.0], violation);
    assert!(dominates(&infeasible(f64::INFINITY), &invalid, &objectives));
    assert!(!dominates(&invalid, &invalid, &objectives));
    assert!(!dominates(&invalid, &s(9.0, 9.0), &objectives));
    assert!(dominates(&s(9.0, 9.0), &infeasible(0.1), &objectives));
    assert!(dominates(&infeasible(0.1), &infeasible(0.2), &objectives));
    assert!(!dominates(&infeasible(0.1), &constrained(&[5.0, 5.0], 0.1), &objectives));
}

#[test]
fn dominance_doc_example() {
    let objectives = [Minimize, Maximize];
    let (a, b) = (s(1.0, 5.0), s(2.0, 5.0));
    assert!(dominates(&a, &b, &objectives));
    assert!(!dominates(&b, &a, &objectives));
    // a trade-off: neither dominates
    let c = s(0.0, 1.0);
    assert!(!dominates(&a, &c, &objectives) && !dominates(&c, &a, &objectives));
    // feasibility comes first
    let infeasible = constrained(&[0.0, 9.0], 0.1);
    assert!(dominates(&b, &infeasible, &objectives));
}

#[test]
fn sorting_special_cases() {
    let objectives = [Minimize, Minimize];
    assert!(non_dominated_sort(&[], &objectives).is_empty());
    // duplicates share a front
    let duplicates = [s(1.0, 1.0), s(1.0, 1.0), s(1.0, 1.0)];
    assert_eq!(non_dominated_sort(&duplicates, &objectives), [vec![0, 1, 2]]);
    // a chain
    let chain: Vec<Scores> = (0..5).rev().map(|i| s(i as f64, i as f64)).collect();
    let fronts = non_dominated_sort(&chain, &objectives);
    assert_eq!(fronts, [[4], [3], [2], [1], [0]]);
    // equal second values: [0, 1] dominates [1, 1], which dominates [2, 1]
    let flat = [s(2.0, 1.0), s(0.0, 1.0), s(1.0, 1.0)];
    assert_eq!(non_dominated_sort(&flat, &objectives), [[1], [2], [0]]);
    // constraints and invalid solutions
    let mixed = [
        Scores::invalid(),
        constrained(&[0.0, 0.0], 2.0),
        s(5.0, 5.0),
        constrained(&[9.0, 9.0], 1.0),
        constrained(&[1.0, 1.0], 2.0),
        Scores::invalid(),
    ];
    assert_eq!(
        non_dominated_sort(&mixed, &objectives),
        [vec![2], vec![3], vec![1, 4], vec![0, 5]]
    );
    // one objective: a total order, with ties together
    let single = [scores(&[3.0]), scores(&[1.0]), scores(&[3.0])];
    assert_eq!(non_dominated_sort(&single, &[Maximize]), [vec![0, 2], vec![1]]);
}

#[test]
fn sorting_doc_example() {
    let sorted = non_dominated_sort(
        &[
            s(1.0, 4.0),
            s(2.0, 2.0),
            s(3.0, 3.0), // dominated by [2, 2]
            s(4.0, 1.0),
            constrained(&[0.0, 0.0], 1.0), // infeasible
        ],
        &[Minimize, Minimize],
    );
    assert_eq!(sorted, [vec![0, 1, 3], vec![2], vec![4]]);
}

#[test]
fn two_objective_sort_matches_the_reference() {
    let mut random = Lcg(7);
    for round in 0..200 {
        let n = (round % 60) as usize;
        let objectives = random.objectives(2);
        let scores: Vec<Scores> = (0..n).map(|_| random.scores(2)).collect();
        assert_eq!(non_dominated_sort(&scores, &objectives), reference_sort(&scores, &objectives));
    }
}

#[test]
fn ens_sort_matches_the_reference() {
    let mut random = Lcg(11);
    for round in 0..200 {
        for m in [1usize, 3, 5] {
            let n = (round % 40) as usize;
            let objectives = random.objectives(m);
            let scores: Vec<Scores> = (0..n).map(|_| random.scores(m)).collect();
            assert_eq!(non_dominated_sort(&scores, &objectives), reference_sort(&scores, &objectives));
        }
    }
}

#[test]
fn dominance_is_a_strict_partial_order() {
    let mut random = Lcg(3);
    for _ in 0..2000 {
        let objectives = random.objectives(3);
        let (a, b, c) = (random.scores(3), random.scores(3), random.scores(3));
        assert!(!dominates(&a, &a, &objectives));
        assert!(!(dominates(&a, &b, &objectives) && dominates(&b, &a, &objectives)));
        if dominates(&a, &b, &objectives) && dominates(&b, &c, &objectives) {
            assert!(dominates(&a, &c, &objectives));
        }
    }
}

#[test]
fn gains_needs_a_new_unbeaten_solution() {
    let objectives = [Minimize, Minimize];
    let old = [s(1.0, 3.0), s(3.0, 1.0)];
    // the same solutions: no gain
    assert!(!gains(&[s(3.0, 1.0), s(1.0, 3.0)], &old, &objectives));
    // a dominated one: no gain
    assert!(!gains(&[s(2.0, 4.0)], &old, &objectives));
    // a trade-off no old solution dominates
    assert!(gains(&[s(2.0, 4.0), s(2.0, 2.0)], &old, &objectives));
    // anything against nothing
    assert!(gains(&[Scores::invalid()], &[], &objectives));
    assert!(!gains(&[], &old, &objectives));
}

#[test]
fn construction() {
    assert!(matches!(Scores::try_new(bits(&[1.0, f64::NAN])), Err(Error::NanFitness)));
    assert!(matches!(
        Scores::try_constrained(bits(&[1.0, 2.0]), f64::NAN.to_bits()),
        Err(Error::NanFitness)
    ));
    assert!(matches!(
        Scores::try_constrained(bits(&[1.0, 2.0]), (-1.0f64).to_bits()),
        Err(Error::InvalidFitness { .. })
    ));
    assert!(!constrained(&[1.0, 2.0], -1.0).is_valid());
    let scores = constrained(&[-0.0, f64::INFINITY], 2.0);
    assert_eq!(scores.values(), Some(bits(&[0.0, f64::INFINITY])));
    assert!(f64::from_bits(scores.values().unwrap()[0]).is_sign_positive());
    assert!(scores.is_valid() && !scores.is_feasible());
    assert!(self::scores(&[1.0]).is_feasible());
    assert_eq!(Scores::invalid().values(), None);
    assert_eq!(f64::from_bits(Scores::invalid().violation()), 0.0);
    // no objectives
    assert!(Scores::new(Vec::new()).is_valid());
}

#[test]
fn equality_and_hashing() {
    assert_eq!(s(0.0, 1.0), s(-0.0, 1.0));
    assert_ne!(s(0.0, 1.0), constrained(&[0.0, 1.0], 1.0));
    assert_eq!(s(f64::NAN, 1.0), Scores::invalid());
    assert_ne!(s(1.0, 1.0), Scores::invalid());
    let set: HashSet<Scores> = [s(-0.0, 1.0), s(0.0, 1.0), Scores::invalid(), s(f64::NAN, 2.0)]
        .into_iter()
        .collect();
    assert_eq!(set.len(), 2);
    // the verified equality agrees
    assert!(s(0.0, 1.0).equals(&s(-0.0, 1.0)));
    assert!(!s(0.0, 1.0).equals(&constrained(&[0.0, 1.0], 1.0)));
    assert!(s(f64::NAN, 1.0).equals(&Scores::invalid()));
}

#[test]
fn point_rankings_agree() {
    // minimized keys: [0, 1] dominates [1, 1], which dominates [2, 1]; [0, 3] and [3, 0] trade off
    let points: Vec<Vec<u64>> = vec![vec![2, 1], vec![0, 1], vec![1, 1], vec![0, 3], vec![3, 0], vec![1, 1]];
    assert_eq!(lexicographic_order(&points, 2), [1, 3, 2, 5, 0, 4]);
    assert_eq!(two_objective_ranks(&points), [2, 0, 1, 1, 0, 1]);
    assert_eq!(ens_ranks(&points, 2), [2, 0, 1, 1, 0, 1]);
    let three: Vec<Vec<u64>> = vec![vec![1, 1, 1], vec![0, 2, 2], vec![2, 2, 2], vec![1, 1, 1]];
    assert_eq!(ens_ranks(&three, 3), [0, 0, 1, 0]);
}
