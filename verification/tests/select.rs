use genoxide::operator::select::{doubled_ranks, fitness_order, picks_in_fitness_order, select_from_best, tournament_winner, uniform_indices};
use genoxide::operator::{RandomSelection, Tournament};
use genoxide::{Error, Fitness, Individual, Objective, Population, StreamRng};

fn population(scores: &[Option<f64>]) -> Population<Vec<bool>> {
    let individuals = scores
        .iter()
        .enumerate()
        .map(|(index, score)| {
            let mut individual = Individual::new((0..8).map(|bit| index >> bit & 1 == 1).collect());
            individual.set_fitness(score.map_or(Fitness::invalid(), |score| Fitness::new(score.to_bits())));
            individual
        })
        .collect();
    Population::new(individuals)
}

fn counts(tournament: &Tournament, scores: &[Option<f64>], objective: Objective, draws: usize) -> Vec<usize> {
    let population = population(scores);
    let mut rng = StreamRng::seed_from_u64(1);
    let mut counts = vec![0; scores.len()];
    for index in tournament.select(&population, objective, draws, &mut rng) {
        counts[index] += 1;
    }
    counts
}

#[test]
fn select_validation() {
    assert!(Tournament::new(0).is_err());
    assert!(matches!(Tournament::new(0), Err(Error::InvalidSetting { setting: "tournament_size", .. })));
    assert!(Tournament::new(1 << 24).is_ok());
    assert!(Tournament::new((1 << 24) + 1).is_err());
    assert_eq!(Tournament::new(3).unwrap().size(), 3);
}

#[test]
fn tournament_pressure() {
    let scores = [Some(1.0), Some(2.0), Some(3.0), Some(4.0)];
    let size_1 = counts(&Tournament::new(1).unwrap(), &scores, Objective::Maximize, 40_000);
    assert!(size_1.iter().all(|&c| (9_500..10_500).contains(&c)), "{size_1:?}");
    let size_3 = counts(&Tournament::new(3).unwrap(), &scores, Objective::Maximize, 40_000);
    assert!(size_3.windows(2).all(|pair| pair[0] < pair[1]), "{size_3:?}");
    let minimize = counts(&Tournament::new(3).unwrap(), &scores, Objective::Minimize, 40_000);
    assert!(minimize.windows(2).all(|pair| pair[0] > pair[1]), "{minimize:?}");
}

#[test]
fn invalid_individuals_only_win_tournaments_of_invalid_ones() {
    // an invalid individual wins only when every draw is invalid: 1 in 256 tournaments of 8
    let scores = [None, Some(1.0), None, Some(0.5)];
    let picks = counts(&Tournament::new(8).unwrap(), &scores, Objective::Maximize, 1000);
    assert!(picks[0] + picks[2] < 20, "{picks:?}");
    assert!(picks[1] > picks[3], "{picks:?}");
    assert_eq!(picks.iter().sum::<usize>(), 1000);
}

#[test]
fn empty_populations_give_no_picks() {
    let empty = population(&[]);
    let mut rng = StreamRng::seed_from_u64(2);
    assert!(Tournament::new(2).unwrap().select(&empty, Objective::Maximize, 5, &mut rng).is_empty());
    assert!(RandomSelection.select(&empty, Objective::Maximize, 5, &mut rng).is_empty());
    assert!(uniform_indices(0, 5, &mut rng).is_empty());
}

#[test]
fn random_selection_is_uniform() {
    let population = population(&[Some(1.0), None, Some(9.0)]);
    let mut rng = StreamRng::seed_from_u64(3);
    let mut counts = [0usize; 3];
    for index in RandomSelection.select(&population, Objective::Minimize, 30_000, &mut rng) {
        counts[index] += 1;
    }
    assert!(counts.iter().all(|&c| (9_500..10_500).contains(&c)), "{counts:?}");
}

#[test]
fn fitness_orders_are_stable() {
    let population = population(&[Some(1.0), Some(3.0), None, Some(3.0), Some(2.0)]);
    assert_eq!(fitness_order(&population, Objective::Maximize, true), [1, 3, 4, 0, 2]);
    assert_eq!(fitness_order(&population, Objective::Maximize, false), [2, 0, 4, 1, 3]);
    assert_eq!(fitness_order(&population, Objective::Minimize, true), [0, 4, 1, 3, 2]);
    assert!(fitness_order(&population_of_equal(0), Objective::Minimize, true).is_empty());
}

#[test]
fn doubled_ranks_share_ties() {
    // worst first: invalid (2), 1.0 (0), 2.0 (4), then 3.0 twice (1, 3) sharing ranks 3 and 4
    let population = population(&[Some(1.0), Some(3.0), None, Some(3.0), Some(2.0)]);
    assert_eq!(doubled_ranks(&population, Objective::Maximize), [2, 7, 0, 7, 4]);
    assert_eq!(doubled_ranks(&population, Objective::Minimize), [8, 3, 0, 3, 6]);
    let all_equal = population_of_equal(4);
    assert_eq!(doubled_ranks(&all_equal, Objective::Maximize), [3, 3, 3, 3]);
}

fn population_of_equal(n: usize) -> Population<Vec<bool>> {
    population(&vec![Some(1.0); n])
}

#[test]
fn truncation_picks_from_the_best() {
    let population = population(&[Some(1.0), Some(3.0), None, Some(3.0), Some(2.0)]);
    let mut rng = StreamRng::seed_from_u64(4);
    let picks = select_from_best(&population, Objective::Maximize, 2, 1000, &mut rng);
    assert_eq!(picks.len(), 1000);
    assert!(picks.iter().all(|&index| index == 1 || index == 3));
    assert!(picks.contains(&1) && picks.contains(&3));
    let picks = select_from_best(&population, Objective::Minimize, 1, 10, &mut rng);
    assert_eq!(picks, [0; 10]);
    assert!(select_from_best(&population_of_equal(0), Objective::Minimize, 1, 10, &mut rng).is_empty());
}

#[test]
fn tournaments_and_picks_follow_the_draws() {
    let population = population(&[Some(1.0), Some(3.0), None, Some(3.0), Some(2.0)]);
    // the best drawn, the first drawn of the best on ties; unevaluated counts as invalid
    assert_eq!(tournament_winner(&population, Objective::Maximize, &[0, 4, 2]), 4);
    assert_eq!(tournament_winner(&population, Objective::Maximize, &[3, 1, 0]), 3);
    assert_eq!(tournament_winner(&population, Objective::Minimize, &[2, 1, 0]), 0);
    assert_eq!(tournament_winner(&population, Objective::Maximize, &[2]), 2);
    // best first by a stable sort: 1, 3, 4, 0, 2
    assert_eq!(picks_in_fitness_order(&population, Objective::Maximize, &[0, 1, 4, 0]), [1, 3, 2, 1]);
}

#[test]
fn selections_take_their_draws_from_the_stream() {
    let population = population(&[Some(1.0), Some(3.0), None, Some(3.0), Some(2.0)]);
    let mut rng = StreamRng::seed_from_u64(17);
    let mut copy = rng.clone();
    let tournament = Tournament::new(3).unwrap();
    let selected = tournament.select(&population, Objective::Maximize, 6, &mut rng);
    for winner in selected {
        let draws: Vec<usize> = (0..3).map(|_| copy.below(5)).collect();
        assert_eq!(winner, tournament_winner(&population, Objective::Maximize, &draws));
    }
    assert_eq!(rng.next_u64(), copy.next_u64());
    // uniform picks are the draws themselves
    let mut copy = rng.clone();
    let picks = RandomSelection.select(&population, Objective::Maximize, 4, &mut rng);
    assert_eq!(picks, (0..4).map(|_| copy.below(5)).collect::<Vec<usize>>());
    // picks from the best are the draws below `top`, in the fitness order
    let mut copy = rng.clone();
    let best = select_from_best(&population, Objective::Maximize, 2, 5, &mut rng);
    let draws: Vec<usize> = (0..5).map(|_| copy.below(2)).collect();
    assert_eq!(best, picks_in_fitness_order(&population, Objective::Maximize, &draws));
}
