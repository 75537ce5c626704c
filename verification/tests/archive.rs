use genoxide::multi::{dominates, ParetoArchive, Scores};
use genoxide::Individual;
use genoxide::multi::archive::most_crowded;
use genoxide::Objective::{Maximize, Minimize};

fn bits(values: &[f64]) -> Vec<u64> {
    values.iter().map(|value| value.to_bits()).collect()
}

fn new_scores(values: &[f64]) -> Scores {
    Scores::new(bits(values))
}

fn individual(id: i64, scores: Scores) -> Individual<i64, Scores> {
    let mut individual = Individual::new(id);
    individual.set_fitness(scores);
    individual
}

fn ids(archive: &ParetoArchive<i64>) -> Vec<i64> {
    archive.members().iter().map(|member| *member.genome()).collect()
}

#[test]
fn keeps_the_non_dominated() {
    let mut archive = ParetoArchive::new(vec![Minimize, Minimize]);
    assert!(archive.insert(individual(0, new_scores(&[2.0, 2.0]))));
    assert!(archive.insert(individual(1, new_scores(&[1.0, 3.0]))));
    // dominated, then equal: rejected
    assert!(!archive.insert(individual(2, new_scores(&[3.0, 3.0]))));
    assert!(!archive.insert(individual(3, new_scores(&[2.0, 2.0]))));
    // dominates the first member
    assert!(archive.insert(individual(4, new_scores(&[1.5, 1.5]))));
    assert_eq!(ids(&archive), [1, 4]);
    assert_eq!(archive.values(), [bits(&[1.0, 3.0]), bits(&[1.5, 1.5])]);
    // not evaluated: ignored
    assert!(!archive.insert(Individual::new(5)));
    // feasibility first
    let mut archive = ParetoArchive::new(vec![Maximize, Maximize]);
    archive.insert(individual(0, Scores::constrained(bits(&[9.0, 9.0]), 1.0f64.to_bits())));
    archive.insert(individual(1, Scores::invalid()));
    assert_eq!(archive.len(), 1);
    archive.insert(individual(2, new_scores(&[0.0, 0.0])));
    assert_eq!(*archive.members()[0].genome(), 2);
    assert_eq!(archive.len(), 1);
}

#[test]
fn capacity_validation_and_removal() {
    assert!(ParetoArchive::<i64>::with_capacity(vec![Minimize; 2], 1).is_err());
    let mut archive = ParetoArchive::with_capacity(vec![Minimize, Minimize], 2).unwrap();
    assert!(archive.is_empty() && !archive.over_capacity());
    for (id, x) in [0.0, 1.0, 4.0].into_iter().enumerate() {
        assert!(archive.insert(individual(id as i64, new_scores(&[x, 4.0 - x]))));
    }
    // the capacity is made room for by removing members
    assert!(archive.over_capacity());
    let removed = archive.remove(1);
    assert_eq!(*removed.genome(), 1);
    assert!(!archive.over_capacity());
    assert_eq!(ids(&archive), [0, 2]);
    assert_eq!(archive.into_members().len(), 2);
    // an unbounded archive is never over capacity
    let mut unbounded = ParetoArchive::new(vec![Minimize, Minimize]);
    for i in 0..100 {
        unbounded.insert(individual(i, new_scores(&[i as f64, -(i as f64)])));
    }
    assert_eq!(unbounded.len(), 100);
    assert!(!unbounded.over_capacity());
}

#[test]
fn members_are_the_non_dominated_unique_scores() {
    let objectives = [Minimize, Maximize];
    let mut state: u64 = 5;
    let mut next = move |bound: u64| {
        state = state.wrapping_mul(6364136223846793005).wrapping_add(1442695040888963407);
        (state >> 33) % bound
    };
    for round in 0..100 {
        let n = round % 60;
        let all: Vec<Scores> = (0..n)
            .map(|_| {
                let (a, b, violation) = (next(6), next(6), next(3));
                Scores::constrained(
                    bits(&[a as f64, b as f64]),
                    (if violation == 2 { 1.0f64 } else { 0.0 }).to_bits(),
                )
            })
            .collect();
        let mut archive = ParetoArchive::new(objectives.to_vec());
        for (i, s) in all.iter().enumerate() {
            archive.insert(individual(i as i64, s.clone()));
        }
        let members: Vec<Scores> = archive
            .members()
            .iter()
            .map(|m| m.fitness_ref().clone().unwrap())
            .collect();
        for (i, a) in members.iter().enumerate() {
            assert!(!all.iter().any(|b| dominates(b, a, &objectives)));
            assert!(!members[..i].contains(a));
        }
        // every non-dominated score is represented, by the first solution offered with it
        for (i, a) in all.iter().enumerate() {
            if !all.iter().any(|b| dominates(b, a, &objectives)) {
                assert!(members.contains(a));
                let first = all.iter().position(|b| b == a).unwrap();
                assert!(archive.members().iter().any(|m| *m.genome() == first as i64));
                assert!(first <= i);
            }
        }
    }
}

#[test]
fn extend_offers_in_turn() {
    let scores = [[2.0, 2.0], [1.0, 3.0], [3.0, 3.0], [2.0, 2.0], [1.5, 1.5]];
    let mut one_by_one = ParetoArchive::new(vec![Minimize, Minimize]);
    let mut extended = ParetoArchive::new(vec![Minimize, Minimize]);
    let mut all = Vec::new();
    for (id, values) in scores.iter().enumerate() {
        one_by_one.insert(individual(id as i64, new_scores(values)));
        all.push(individual(id as i64, new_scores(values)));
    }
    all.push(Individual::new(9));
    extended.extend(all);
    assert_eq!(ids(&extended), ids(&one_by_one));
    assert_eq!(ids(&extended), [1, 4]);
}

#[test]
fn the_most_crowded_member_makes_room() {
    let d = bits(&[f64::INFINITY, 0.5, 0.25, 0.25, f64::INFINITY]);
    assert_eq!(most_crowded(&d), 2);
    assert_eq!(most_crowded(&bits(&[1.0])), 0);
    assert_eq!(most_crowded(&bits(&[0.0, 0.0])), 0);
    let mut archive = ParetoArchive::with_capacity(vec![Minimize, Minimize], 2).unwrap();
    for (id, x) in [0.0, 1.0, 3.0].into_iter().enumerate() {
        archive.insert(individual(id as i64, new_scores(&[x, 4.0 - x])));
    }
    let removed = archive.remove_most_crowded(&bits(&[f64::INFINITY, 1.0, f64::INFINITY]));
    assert_eq!(*removed.genome(), 1);
    assert_eq!(ids(&archive), [0, 2]);
}
