use genoxide::{Fitness, Individual, Objective, Population};

// fitness: None for not evaluated, Some(None) for invalid, Some(Some(score))
fn population(scores: &[Option<Option<f64>>]) -> Population<Vec<bool>> {
    let individuals = scores
        .iter()
        .enumerate()
        .map(|(index, fitness)| {
            // distinct genomes, to follow individuals through a sort
            let mut individual = Individual::new((0..16).map(|bit| index >> bit & 1 == 1).collect());
            if let Some(fitness) = fitness {
                individual.set_fitness(fitness.map_or(Fitness::invalid(), |score| Fitness::new(score.to_bits())));
            }
            individual
        })
        .collect();
    Population::new(individuals)
}

fn index_of(individual: &Individual<Vec<bool>>) -> usize {
    individual.genome().iter().enumerate().map(|(bit, &set)| if set { 1 << bit } else { 0 }).sum()
}

#[test]
fn best_skips_unevaluated_and_prefers_first_on_ties() {
    let population = population(&[None, Some(Some(1.0)), Some(None), Some(Some(3.0)), Some(Some(3.0))]);
    assert_eq!(population.best_index(Objective::Maximize), Some(3));
    assert_eq!(population.best_index(Objective::Minimize), Some(1));
}

#[test]
fn best_of_only_invalid_or_unevaluated() {
    assert_eq!(population(&[None, None]).best_index(Objective::Maximize), None);
    assert_eq!(population(&[None, Some(None), Some(None)]).best_index(Objective::Maximize), Some(1));
    assert_eq!(population(&[]).best_index(Objective::Minimize), None);
}

#[test]
fn best_is_the_first_after_sorting() {
    let scores = [Some(Some(2.0)), None, Some(Some(5.0)), Some(None), Some(Some(5.0)), Some(Some(-1.0))];
    for objective in [Objective::Maximize, Objective::Minimize] {
        let mut sorted = population(&scores);
        let best = sorted.best_index(objective).unwrap();
        let best_genome = sorted.get(best).genome().clone();
        assert_eq!(sorted.best(objective).unwrap().genome(), &best_genome);
        sorted.sort_best_first(objective);
        assert_eq!(sorted.get(0).genome(), &best_genome);
    }
}

#[test]
fn sorting_is_stable_and_puts_unevaluated_last() {
    let scores = [None, Some(Some(1.0)), Some(Some(3.0)), Some(None), Some(Some(3.0)), Some(Some(1.0))];
    let mut sorted = population(&scores);
    sorted.sort_best_first(Objective::Maximize);
    let order: Vec<usize> = sorted.iter().map(index_of).collect();
    // 3.0 (2, 4), 1.0 (1, 5), invalid (3), not evaluated (0)
    assert_eq!(order, [2, 4, 1, 5, 3, 0]);
    let mut sorted = population(&scores);
    sorted.sort_best_first(Objective::Minimize);
    let order: Vec<usize> = sorted.iter().map(index_of).collect();
    assert_eq!(order, [1, 5, 2, 4, 3, 0]);
}

#[test]
fn population_basics() {
    let mut population = Population::from_genomes(vec![vec![true], vec![false], vec![true, true]]);
    assert_eq!(population.len(), 3);
    assert!(!population.is_empty());
    assert!(population.iter().all(|individual| !individual.is_evaluated() && individual.age() == 0));
    assert_eq!(population.get(2).genome(), &vec![true, true]);
    population.set_fitness(1, Fitness::new(2.5f64.to_bits()));
    assert_eq!(population.get(1).fitness(), Some(Fitness::new(2.5f64.to_bits())));
    assert_eq!(population.best_index(Objective::Minimize), Some(1));
    population.push(Individual::new(vec![]));
    assert_eq!(population.len(), 4);
    population.truncate(2);
    assert_eq!(population.as_slice().len(), 2);
    population.truncate(5);
    assert_eq!(population.len(), 2);
    let individuals = population.into_vec();
    assert_eq!(individuals[0].genome(), &vec![true]);
    assert!(Population::<Vec<bool>>::empty().is_empty());
}

#[test]
fn individual_age_and_fitness() {
    let mut individual = Individual::new(7u32);
    assert!(!individual.is_evaluated());
    assert_eq!(individual.fitness(), None);
    individual.increment_age();
    individual.increment_age();
    assert_eq!(individual.age(), 2);
    individual.set_fitness(Fitness::invalid());
    assert!(individual.is_evaluated());
    let copy = individual.duplicate();
    assert_eq!(copy, individual);
}

#[test]
fn iter_mut_changes_the_individuals_in_place() {
    let mut population: Population<u32> = Population::from_genomes(vec![1, 2, 3]);
    for individual in population.iter_mut() {
        individual.increment_age();
    }
    population.iter_mut()[1].set_fitness(Fitness::new(2.0f64.to_bits()));
    assert!(population.iter().all(|individual| individual.age() == 1));
    assert!(population.get(1).is_evaluated() && !population.get(0).is_evaluated());
}
