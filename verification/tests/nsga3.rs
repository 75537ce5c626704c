use genoxide::multi::nsga3::{niching, nsga3_survivors};
use genoxide::multi::Scores;
use genoxide::Objective::Minimize;
use genoxide::StreamRng;

fn scores(values: &[f64], violation: f64) -> Scores {
    Scores::constrained(values.iter().map(|v| v.to_bits()).collect(), violation.to_bits())
}

#[test]
fn feasible_first_then_the_least_infeasible() {
    // positions 1 and 3 are feasible; 0, 2 and 4 violate constraints; 5 is invalid
    let pool = [
        scores(&[1.0, 1.0], 2.0),
        scores(&[5.0, 5.0], 0.0),
        scores(&[1.0, 1.0], 0.5),
        scores(&[0.0, 9.0], 0.0),
        scores(&[1.0, 1.0], 2.0),
        Scores::invalid(),
    ];
    let none = [0usize; 6];
    let near = [0u64; 6];
    let mut rng = StreamRng::seed_from_u64(5);
    let mut copy = rng.clone();
    let keys: Vec<u64> = (0..4).map(|_| copy.next_u64()).collect();
    let survivors = nsga3_survivors(&pool, &[Minimize, Minimize], 5, &none, &near, 1, &mut rng);
    // the tie of violation 2.0 between positions 0 and 4 goes to the smaller key
    let (first, second) = if keys[0] <= keys[2] { (0, 4) } else { (4, 0) };
    assert_eq!(survivors, [1, 3, 2, first, second]);
    assert_eq!(rng.next_u64(), copy.next_u64());
    // every feasible solution fits: the infeasible fill nothing, but their keys are drawn
    let mut rng = StreamRng::seed_from_u64(5);
    assert_eq!(nsga3_survivors(&pool, &[Minimize, Minimize], 2, &none, &near, 1, &mut rng), [1, 3]);
}

#[test]
fn niching_fills_the_emptiest_niches_with_the_nearest() {
    // three candidates in niche 0, one in niche 1; niche 0 holds a survivor already
    let niches = [0, 0, 1, 0];
    let distances = [3u64, 1, 7, 2];
    let mut rng = StreamRng::seed_from_u64(1);
    // niche 1 has the fewest and holds none: its only candidate
    assert_eq!(niching(&niches, &distances, vec![1, 0], 1, &mut rng), [2]);
    // both niches hold none: the nearest of niche 0 is candidate 1
    let mut rng = StreamRng::seed_from_u64(1);
    let picked = niching(&niches, &distances, vec![0, 0], 2, &mut rng);
    assert_eq!(picked.len(), 2);
    assert!(picked.contains(&2) && picked.contains(&1));
}

#[test]
fn the_overflowing_front_is_filled_by_niching() {
    // four feasible solutions on one front, room for two: niches 0, 0, 1, 1, every count 0
    let pool = [
        scores(&[0.0, 4.0], 0.0),
        scores(&[1.0, 3.0], 0.0),
        scores(&[3.0, 1.0], 0.0),
        scores(&[4.0, 0.0], 0.0),
    ];
    let associations = [0, 0, 1, 1];
    let distances = [2u64, 1, 1, 2];
    let mut rng = StreamRng::seed_from_u64(3);
    let mut survivors = nsga3_survivors(&pool, &[Minimize, Minimize], 2, &associations, &distances, 2, &mut rng);
    // the nearest of each niche
    survivors.sort();
    assert_eq!(survivors, [1, 2]);
}
