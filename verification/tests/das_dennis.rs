use genoxide::multi::{das_dennis, das_dennis_count, divisions_for};

// the points as coordinates: counts of 1 / divisions
fn points(m: usize, divisions: usize) -> Vec<Vec<f64>> {
    das_dennis(m, divisions)
        .iter()
        .map(|counts| counts.iter().map(|&count| count as f64 / divisions as f64).collect())
        .collect()
}

#[test]
fn das_dennis_points() {
    assert_eq!(
        points(2, 4),
        [[0.0, 1.0], [0.25, 0.75], [0.5, 0.5], [0.75, 0.25], [1.0, 0.0]]
    );
    assert_eq!(points(3, 12).len(), 91);
    assert_eq!(points(5, 6).len(), 210);
    assert!(points(3, 0).is_empty());
    assert_eq!(points(1, 3), [[1.0]]);
    assert_eq!(points(4, 5).len(), das_dennis_count(4, 5));
    assert_eq!(divisions_for(3, 91), 12);
    assert_eq!(divisions_for(3, 92), 13);
}

#[test]
fn das_dennis_doc_example() {
    let points = points(3, 2);
    assert_eq!(points.len(), 6);
    assert_eq!(points[0], [0.0, 0.0, 1.0]);
    assert!(points.iter().all(|p| (p.iter().sum::<f64>() - 1.0).abs() < 1e-12));
}

#[test]
fn das_dennis_lattice_is_complete_and_ordered() {
    for m in 1..5 {
        for divisions in 1..7 {
            let lattice = das_dennis(m, divisions);
            assert_eq!(lattice.len(), das_dennis_count(m, divisions));
            assert!(lattice.iter().all(|p| p.len() == m && p.iter().sum::<usize>() == divisions));
            assert!(lattice.windows(2).all(|pair| pair[0] < pair[1]));
        }
    }
    assert_eq!(das_dennis(3, 2), [[0, 0, 2], [0, 1, 1], [0, 2, 0], [1, 0, 1], [1, 1, 0], [2, 0, 0]]);
    assert!(das_dennis(0, 4).is_empty());
}

#[test]
fn das_dennis_counts() {
    assert_eq!(das_dennis_count(3, 12), 91);
    assert_eq!(das_dennis_count(1, 100), 1);
    assert_eq!(das_dennis_count(2, 99), 100);
    // C(2^40 + 2, 2) is beyond 2^64
    assert_eq!(das_dennis_count(3, 1 << 40), usize::MAX);
    // exact near the top: C(67, 33) is below 2^64
    assert_eq!(das_dennis_count(34, 34), 14226520737620288370);
    assert_eq!(das_dennis_count(200, 2), 20100);
    assert_eq!(divisions_for(2, 1), 1);
    assert_eq!(divisions_for(2, 10), 9);
    assert_eq!(divisions_for(1, 1), 1);
    assert_eq!(divisions_for(5, 0), 1);
}
