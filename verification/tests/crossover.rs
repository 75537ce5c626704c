use genoxide::operator::{NoCrossover, PointCrossover};
use genoxide::{Error, StreamRng};

// the number of changes between neighbouring genes: a cut shows as a change
fn changes(genes: &[u8]) -> usize {
    genes.windows(2).filter(|pair| pair[0] != pair[1]).count()
}

#[test]
fn crossover_validation() {
    assert!(PointCrossover::k_point(0).is_err());
    assert!(matches!(PointCrossover::k_point(0), Err(Error::InvalidSetting { setting: "crossover_points", .. })));
    assert_eq!(PointCrossover::k_point(4).unwrap().points(), 4);
    assert_eq!(PointCrossover::one_point().points(), 1);
    assert_eq!(PointCrossover::two_point().points(), 2);
}

#[test]
fn point_crossover_exchanges_segments() {
    let mut rng = StreamRng::seed_from_u64(0);
    for points in 1..6 {
        let crossover = PointCrossover::k_point(points).unwrap();
        for _ in 0..50 {
            let mut a = vec![0u8; 12];
            let mut b = vec![1u8; 12];
            crossover.crossover(&mut a, &mut b, &mut rng);
            // the first gene stays, every gene is exchanged or not, and there are `points` cuts
            assert_eq!(a[0], 0);
            assert_eq!(b[0], 1);
            assert!((0..12).all(|i| a[i] + b[i] == 1));
            assert_eq!(changes(&a), points);
        }
    }
}

#[test]
fn short_genomes_use_every_point() {
    let mut rng = StreamRng::seed_from_u64(1);
    let crossover = PointCrossover::k_point(5).unwrap();
    let mut a = vec![0u8, 0, 0];
    let mut b = vec![1u8, 1, 1];
    crossover.crossover(&mut a, &mut b, &mut rng);
    assert_eq!(a, [0, 1, 0]);
    assert_eq!(b, [1, 0, 1]);
    // a single gene can't be cut
    let mut a = vec![0u8];
    let mut b = vec![1u8];
    crossover.crossover(&mut a, &mut b, &mut rng);
    assert_eq!((a, b), (vec![0], vec![1]));
}

#[test]
fn no_crossover_keeps_the_parents() {
    let mut rng = StreamRng::seed_from_u64(2);
    let mut a = vec![1, 2, 3];
    let mut b = vec![4, 5, 6];
    NoCrossover.crossover(&mut a, &mut b, &mut rng);
    assert_eq!((a, b), (vec![1, 2, 3], vec![4, 5, 6]));
    assert!(!NoCrossover.recombines());
}
