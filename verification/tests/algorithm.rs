use genoxide::multi::algorithm::{
    check_moead_settings, check_nsga2_settings, check_nsga3_settings, check_rates, check_sms_emoa_settings, check_spea2_settings, check_tell,
    discarded_children, fronts_that_fit, least_crowded, nearest, nsga2_survivors, spea2_raw_fitness,
};
use genoxide::multi::Scores;
use genoxide::Objective::Minimize;
use genoxide::multi::engine::{check_run, stop_after_generation};
use genoxide::Error;
use genoxide::StreamRng;

fn bits(x: f64) -> u64 {
    x.to_bits()
}

fn setting(result: Result<usize, Error>) -> &'static str {
    match result {
        Err(Error::InvalidSetting { setting, .. }) | Err(Error::MissingSetting { setting }) => setting,
        _ => "",
    }
}

#[test]
fn population_settings_are_checked_in_order() {
    let ok = check_nsga2_settings(Some(10), 2, bits(0.9), bits(1.0), true, 3);
    assert!(matches!(ok, Ok(10)));
    assert_eq!(setting(check_nsga2_settings(None, 0, bits(2.0), bits(0.0), false, 99)), "population_size");
    assert!(matches!(check_nsga2_settings(None, 2, bits(0.9), bits(1.0), true, 0), Err(Error::MissingSetting { .. })));
    assert_eq!(setting(check_nsga2_settings(Some(1), 2, bits(0.9), bits(1.0), true, 0)), "population_size");
    assert_eq!(setting(check_spea2_settings(Some(1 << 25), 2, bits(0.9), bits(1.0), true, 0)), "population_size");
    assert_eq!(setting(check_spea2_settings(Some(10), 0, bits(0.9), bits(1.0), true, 0)), "objectives");
    assert_eq!(setting(check_nsga2_settings(Some(10), 2, bits(1.5), bits(1.0), true, 0)), "crossover_rate");
    assert_eq!(setting(check_nsga2_settings(Some(10), 2, bits(0.5), bits(-0.1), true, 0)), "mutation_rate");
    // every child a copy of a parent
    assert_eq!(setting(check_nsga2_settings(Some(10), 2, bits(0.0), bits(0.0), true, 0)), "mutation_rate");
    assert_eq!(setting(check_nsga2_settings(Some(10), 2, bits(0.9), bits(-0.0), false, 0)), "mutation_rate");
    assert!(check_nsga2_settings(Some(10), 2, bits(-0.0), bits(0.5), false, 0).is_ok());
    assert_eq!(setting(check_nsga2_settings(Some(10), 2, bits(0.9), bits(1.0), true, 11)), "initial_genomes");
    assert!(check_rates(bits(f64::NAN), bits(1.0), true).is_err());
    assert!(check_rates(bits(1.0), bits(1.0), true).is_ok());
}

#[test]
fn sms_emoa_settings() {
    assert!(matches!(check_sms_emoa_settings(Some(10), None, 2, bits(0.9), bits(1.0), 0), Ok((10, 10))));
    assert!(matches!(check_sms_emoa_settings(Some(10), Some(1), 2, bits(0.0), bits(1.0), 0), Ok((10, 1))));
    assert!(matches!(
        check_sms_emoa_settings(Some(10), Some(0), 2, bits(0.9), bits(1.0), 0),
        Err(Error::InvalidSetting { setting: "offspring", .. })
    ));
    assert!(matches!(
        check_sms_emoa_settings(Some(10), None, 2, bits(0.0), bits(0.0), 0),
        Err(Error::InvalidSetting { setting: "mutation_rate", .. })
    ));
    assert!(matches!(check_sms_emoa_settings(None, None, 2, bits(0.9), bits(1.0), 0), Err(Error::MissingSetting { .. })));
}

#[test]
fn tell_and_run_checks() {
    assert!(check_tell(true, 3, 3).is_ok());
    assert!(matches!(check_tell(false, 3, 3), Err(Error::TellWithoutAsk)));
    assert!(matches!(check_tell(true, 3, 2), Err(Error::FitnessCount { expected: 3, got: 2 })));
    assert!(check_run(true, false, false).is_ok());
    assert!(check_run(false, true, false).is_ok());
    assert!(matches!(check_run(false, false, false), Err(Error::MissingSetting { setting: "stop_when" })));
    assert!(matches!(check_run(true, false, true), Err(Error::InvalidSetting { setting: "stop_when", .. })));
    assert_eq!(stop_after_generation(true, "aborted", Some("generations")), Some("aborted"));
    assert_eq!(stop_after_generation(false, "aborted", Some("generations")), Some("generations"));
    assert_eq!(stop_after_generation(false, "aborted", None), None);
}

#[test]
fn survival_fills_by_fronts_then_least_crowded() {
    let fronts = vec![vec![0, 3], vec![1, 4, 5], vec![2]];
    assert_eq!(fronts_that_fit(&fronts, 4), (1, 2));
    assert_eq!(fronts_that_fit(&fronts, 5), (2, 0));
    assert_eq!(fronts_that_fit(&fronts, 9), (3, 3));
    // the larger distance first, then the smaller key, then the earlier position
    let distances = [bits(1.0), bits(f64::INFINITY), bits(1.0), bits(0.5), bits(1.0)];
    let keys = [7, 0, 3, 0, 3];
    assert_eq!(least_crowded(&distances, &keys, 4), [1, 2, 4, 0]);
    assert_eq!(least_crowded(&distances, &keys, 0), Vec::<usize>::new());
    assert_eq!(discarded_children(&[0, 4, 2], 6, 3), [3, 5]);
}

#[test]
fn raw_fitness_sums_the_strengths_of_dominators() {
    let s = |a: f64, b: f64| Scores::new(vec![a.to_bits(), b.to_bits()]);
    // strengths: [2, 2] dominates one, [0, 0] four, [3, 3] none, [1, 1] two, [0, 5] none
    let scores = [s(2.0, 2.0), s(0.0, 0.0), s(3.0, 3.0), s(1.0, 1.0), s(0.0, 5.0)];
    assert_eq!(spea2_raw_fitness(&scores, &[Minimize, Minimize]), [4 + 2, 0, 4 + 2 + 1, 4, 4]);
    assert_eq!(spea2_raw_fitness(&[], &[Minimize]), Vec::<usize>::new());
}

#[test]
fn nsga3_settings_in_order() {
    let d = |v: &[f64]| v.iter().map(|x| x.to_bits()).collect::<Vec<u64>>();
    let dirs = vec![d(&[1.0, 0.0]), d(&[0.5, 0.5]), d(&[0.0, 1.0])];
    assert_eq!(check_nsga3_settings(2, &dirs, None, bits(1.0), bits(0.5), 0).unwrap(), 3);
    assert_eq!(check_nsga3_settings(2, &dirs, Some(8), bits(1.0), bits(0.5), 8).unwrap(), 8);
    assert_eq!(setting(check_nsga3_settings(0, &dirs, None, bits(1.0), bits(0.5), 0)), "objectives");
    assert_eq!(setting(check_nsga3_settings(2, &[], Some(4), bits(1.0), bits(0.5), 0)), "reference_directions");
    let zero = vec![d(&[0.0, -0.0]), d(&[1.0, 0.0])];
    assert_eq!(setting(check_nsga3_settings(2, &zero, None, bits(1.0), bits(0.5), 0)), "reference_directions");
    let negative = vec![d(&[-1.0, 2.0]), d(&[1.0, 0.0])];
    assert_eq!(setting(check_nsga3_settings(2, &negative, None, bits(1.0), bits(0.5), 0)), "reference_directions");
    let infinite = vec![d(&[f64::INFINITY, 1.0]), d(&[1.0, 0.0])];
    assert_eq!(setting(check_nsga3_settings(2, &infinite, None, bits(1.0), bits(0.5), 0)), "reference_directions");
    assert_eq!(setting(check_nsga3_settings(2, &dirs[..1], None, bits(1.0), bits(0.5), 0)), "population_size");
    assert_eq!(setting(check_nsga3_settings(2, &dirs, None, bits(1.5), bits(0.5), 0)), "crossover_rate");
    assert_eq!(setting(check_nsga3_settings(2, &dirs, None, bits(0.0), bits(0.0), 0)), "mutation_rate");
    assert_eq!(setting(check_nsga3_settings(2, &dirs, None, bits(1.0), bits(0.5), 4)), "initial_genomes");
}

#[test]
fn moead_settings_in_order() {
    let d = |v: &[f64]| v.iter().map(|x| x.to_bits()).collect::<Vec<u64>>();
    let w = vec![d(&[1.0, 0.0]), d(&[0.5, 0.5]), d(&[0.0, 1.0])];
    let ok = |objectives, weights: &[Vec<u64>], neighbors, mating: f64, replacements, theta: Option<f64>, initial| {
        check_moead_settings(objectives, weights, neighbors, bits(mating), replacements, theta.map(bits), bits(1.0), bits(0.5), initial)
    };
    assert_eq!(ok(2, &w, 2, 0.9, 2, None, 3).unwrap(), 3);
    assert_eq!(ok(2, &w, 5, 0.9, 2, Some(5.0), 0).unwrap(), 3);
    assert_eq!(setting(ok(0, &w, 2, 0.9, 2, None, 0)), "objectives");
    assert_eq!(setting(ok(2, &w[..1], 2, 0.9, 2, None, 0)), "weights");
    assert_eq!(setting(ok(2, &[d(&[0.0, 0.0]), d(&[1.0, 1.0])], 2, 0.9, 2, None, 0)), "weights");
    assert_eq!(setting(ok(2, &w, 1, 0.9, 2, None, 0)), "neighbors");
    assert_eq!(setting(ok(2, &w, 2, 1.1, 2, None, 0)), "neighbor_mating");
    assert_eq!(setting(ok(2, &w, 2, 0.9, 0, None, 0)), "max_replacements");
    assert_eq!(setting(ok(2, &w, 2, 0.9, 2, Some(-1.0), 0)), "theta");
    assert_eq!(setting(ok(2, &w, 2, 0.9, 2, Some(f64::NAN), 0)), "theta");
    assert_eq!(setting(ok(2, &w, 2, 0.9, 2, None, 4)), "initial_genomes");
    assert_eq!(
        setting(check_moead_settings(2, &w, 2, bits(0.9), 2, None, bits(0.0), bits(0.0), 0)),
        "mutation_rate"
    );
}

#[test]
fn survivors_are_whole_fronts_then_the_least_crowded() {
    let fronts = vec![vec![0, 3], vec![1, 4, 5], vec![2]];
    let distances = vec![
        vec![bits(f64::INFINITY); 2],
        vec![bits(f64::INFINITY), bits(1.0), bits(1.0)],
        vec![bits(f64::INFINITY)],
    ];
    let mut rng = StreamRng::seed_from_u64(21);
    let mut copy = rng.clone();
    let keys: Vec<u64> = (0..3).map(|_| copy.next_u64()).collect();
    let survivors = nsga2_survivors(&fronts, &distances, 4, &mut rng);
    // a tie of crowding goes to the smaller key
    let last = if keys[1] <= keys[2] { 4 } else { 5 };
    assert_eq!(survivors, [(0, 0), (3, 0), (1, 1), (last, 1)]);
    assert_eq!(rng.next_u64(), copy.next_u64());
    // fronts that fill the population exactly draw no keys
    let mut rng = StreamRng::seed_from_u64(21);
    assert_eq!(nsga2_survivors(&fronts, &distances, 5, &mut rng), [(0, 0), (3, 0), (1, 1), (4, 1), (5, 1)]);
    assert_eq!(rng.next_u64(), StreamRng::seed_from_u64(21).next_u64());
    // a pool smaller than the population: everything survives
    assert_eq!(nsga2_survivors(&fronts, &distances, 9, &mut rng).len(), 6);
}

#[test]
fn nearest_first_by_value_then_position() {
    let d = [5, 0, 3, 0, 9];
    assert_eq!(nearest(&d, 3), [1, 3, 2]);
    assert_eq!(nearest(&d, 5), [1, 3, 2, 0, 4]);
    assert_eq!(nearest(&d, 0), Vec::<usize>::new());
}

#[test]
fn moead_initial_genomes_reason() {
    let w: Vec<Vec<u64>> = vec![vec![bits(1.0), bits(0.0)], vec![bits(0.0), bits(1.0)], vec![bits(0.5), bits(0.5)]];
    match check_moead_settings(2, &w, 2, bits(0.9), 2, None, bits(1.0), bits(0.5), 4) {
        Err(Error::InvalidSetting { setting, reason }) => {
            assert_eq!(setting, "initial_genomes");
            assert_eq!(reason, "at most the 3 weight vectors, got 4");
        }
        _ => panic!("expected an invalid setting"),
    }
}
