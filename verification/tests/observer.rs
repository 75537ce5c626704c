use genoxide::engine::Progress;
use genoxide::observer::report::Every;
use genoxide::observer::{HallOfFame, Report, Snapshot};
use genoxide::observer::Observer;
use genoxide::{Error, Fitness, Individual, Objective, Population};

fn individual(genome: u8, score: Option<f64>) -> Individual<Vec<bool>> {
    let mut individual = Individual::new((0..8).map(|bit| genome >> bit & 1 == 1).collect());
    individual.set_fitness(score.map_or(Fitness::invalid(), |score| Fitness::new(score.to_bits())));
    individual
}

fn bits(genome: &[bool]) -> String {
    genome.iter().map(|&bit| if bit { '1' } else { '0' }).collect()
}

fn progress(generation: u64, millis: u64) -> Progress {
    Progress {
        generation,
        evaluations: 0,
        elapsed_nanos: u128::from(millis) * 1_000_000,
        best: None,
        best_generation: 0,
        objective: Objective::Maximize,
    }
}

#[test]
fn hall_of_fame_validation() {
    assert!(HallOfFame::<Vec<bool>>::new(0).is_err());
}

#[test]
fn keeps_the_best_distinct() {
    let mut hall = HallOfFame::new(2).unwrap();
    hall.offer(&individual(1, Some(1.0)), Objective::Maximize);
    hall.offer(&individual(2, Some(5.0)), Objective::Maximize);
    hall.offer(&individual(2, Some(5.0)), Objective::Maximize); // duplicate
    hall.offer(&individual(3, Some(3.0)), Objective::Maximize);
    hall.offer(&individual(4, Some(3.0)), Objective::Maximize); // tie with the worst: stays out
    hall.offer(&Individual::new(vec![false; 8]), Objective::Maximize); // not evaluated
    let genomes: Vec<_> = hall.individuals().iter().map(|i| bits(i.genome())).collect();
    assert_eq!(genomes, ["01000000", "11000000"]);
}

#[test]
fn hall_of_fame_validation_names_the_setting() {
    assert!(matches!(
        HallOfFame::<Vec<bool>>::new(0),
        Err(Error::InvalidSetting { setting: "hall_of_fame_capacity", .. })
    ));
    let hall = HallOfFame::<Vec<bool>>::new(3).unwrap();
    assert_eq!(hall.capacity(), 3);
    assert!(hall.best().is_none());
    assert!(hall.individuals().is_empty());
}

#[test]
fn hall_of_fame_ties_keep_the_first_seen_first() {
    let mut hall = HallOfFame::new(3).unwrap();
    hall.offer(&individual(1, Some(2.0)), Objective::Minimize);
    hall.offer(&individual(2, Some(2.0)), Objective::Minimize);
    hall.offer(&individual(3, Some(1.0)), Objective::Minimize);
    hall.offer(&individual(4, None), Objective::Minimize); // invalid: last
    hall.offer(&individual(5, Some(2.0)), Objective::Minimize); // tie with the worst of a full hall
    let genomes: Vec<_> = hall.individuals().iter().map(|i| bits(i.genome())).collect();
    assert_eq!(genomes, ["11000000", "10000000", "01000000"]);
    assert_eq!(bits(hall.best().unwrap().genome()), "11000000");
    let copy = hall.clone();
    assert_eq!(copy, hall);
}

#[test]
fn hall_of_fame_observes_population_and_discarded() {
    let population = Population::new(vec![individual(1, Some(1.0)), individual(2, Some(4.0))]);
    let discarded = [individual(3, Some(3.0)), individual(4, Some(0.5))];
    let best = individual(2, Some(4.0));
    let progress = progress(0, 0);
    let snapshot = Snapshot::new(&population, &discarded, &best, &progress);
    assert_eq!(snapshot.population().len(), 2);
    assert_eq!(snapshot.discarded().len(), 2);
    assert_eq!(snapshot.best(), &best);
    assert_eq!(snapshot.progress(), &progress);
    let mut hall = HallOfFame::new(3).unwrap();
    hall.observe(&snapshot);
    let genomes: Vec<_> = hall.individuals().iter().map(|i| bits(i.genome())).collect();
    assert_eq!(genomes, ["01000000", "11000000", "10000000"]);
}

// the generations after which `report` has a line
fn lines<W>(report: &mut Report<W>, updates: &[(u64, u64)]) -> Vec<u64> {
    updates
        .iter()
        .filter(|&&(generation, millis)| report.update(&progress(generation, millis)))
        .map(|&(generation, _)| generation)
        .collect()
}

#[test]
fn every_generations() {
    let mut report = Report::every_generations((), 3).unwrap().to(Vec::<u8>::new());
    let mut updates: Vec<(u64, u64)> = (0..8).map(|generation| (generation, 0)).collect();
    // the same generation twice is one line
    updates.push((6, 0));
    assert_eq!(lines(&mut report, &updates), [0, 3, 6]);
    assert!(Report::every_generations((), 0).is_err());
}

#[test]
fn every_interval() {
    let mut report = Report::every((), 100_000_000).to(Vec::<u8>::new());
    let updates = [(0, 5), (1, 60), (2, 104), (3, 150), (4, 204), (5, 400)];
    assert_eq!(lines(&mut report, &updates), [0, 2, 4, 5]);
    // a run that continues starts with a line, and its own schedule
    let mut report = Report::every((), 100_000_000).to(Vec::<u8>::new());
    let updates = [(0, 0), (5, 400), (6, 10), (7, 60), (8, 120)];
    assert_eq!(lines(&mut report, &updates), [0, 5, 6, 8]);
    // every generation
    let mut report = Report::every((), 0);
    let updates: Vec<(u64, u64)> = (0..4).map(|generation| (generation, 0)).collect();
    assert_eq!(lines(&mut report, &updates).len(), 4);
}

#[test]
fn report_schedule_and_writer() {
    let report = Report::new(Vec::<u8>::new());
    assert_eq!(report.writer().len(), 0);
    let mut report = report.to(vec![1u8]);
    report.writer_mut().push(2);
    assert_eq!(report.writer(), &vec![1, 2]);
    assert!(report.update(&progress(0, 0)));
    assert!(!report.update(&progress(1, 999)));
    assert!(report.update(&progress(2, 1000)));
    assert_eq!(report.into_writer(), vec![1, 2]);
    assert!(matches!(
        Report::every_generations((), 0),
        Err(Error::InvalidSetting { setting: "every_generations", .. })
    ));
    let _ = Every::Generations(1);
}

#[test]
fn matches_sorting_the_distinct_individuals() {
    let mut rng = genoxide::StreamRng::seed_from_u64(11);
    for _ in 0..200 {
        let len = rng.below(40);
        let offers: Vec<(u8, Option<i32>)> = (0..len)
            .map(|_| {
                let genome = rng.below(16) as u8;
                let score = if rng.below(5) == 0 { None } else { Some(rng.below(10) as i32 - 5) };
                (genome, score)
            })
            .collect();
        let capacity = 1 + rng.below(5);
        let objective = if rng.below(2) == 0 { Objective::Minimize } else { Objective::Maximize };
        let mut hall = HallOfFame::new(capacity).unwrap();
        // the fitness is a function of the genome, as with a deterministic fitness function
        let offered: Vec<_> = offers
            .iter()
            .map(|&(genome, _)| {
                let score = offers.iter().find(|o| o.0 == genome).unwrap().1;
                individual(genome, score.map(f64::from))
            })
            .collect();
        for candidate in &offered {
            hall.offer(candidate, objective);
        }
        let mut expected: Vec<Individual<Vec<bool>>> = Vec::new();
        for candidate in &offered {
            if !expected.contains(candidate) {
                expected.push(candidate.clone());
            }
        }
        expected.sort_by(|a, b| objective.compare(b.fitness().unwrap(), a.fitness().unwrap()));
        expected.truncate(capacity);
        assert_eq!(hall.individuals(), expected.as_slice());
    }
}
