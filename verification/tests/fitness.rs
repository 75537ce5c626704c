use genoxide::{Fitness, Objective};
use std::cmp::Ordering;

fn score(x: f64) -> Fitness {
    Fitness::new(x.to_bits())
}

#[test]
fn fitness_values() {
    assert!(score(1.5).is_valid());
    assert!(score(1.5).is_feasible());
    assert_eq!(score(1.5).score_bits(), Some(1.5f64.to_bits()));
    assert!(!score(f64::NAN).is_valid());
    assert_eq!(score(f64::NAN), Fitness::invalid());
    assert_eq!(Fitness::invalid().score_bits(), None);
    // -0.0 is the same as 0.0
    assert_eq!(score(-0.0), score(0.0));
    let infeasible = Fitness::constrained(1.0f64.to_bits(), 2.0f64.to_bits());
    assert!(infeasible.is_valid());
    assert!(!infeasible.is_feasible());
    assert_eq!(infeasible.violation_bits(), 2.0f64.to_bits());
    assert!(!Fitness::constrained(1.0f64.to_bits(), (-1.0f64).to_bits()).is_valid());
    assert!(!Fitness::constrained(1.0f64.to_bits(), f64::NAN.to_bits()).is_valid());
    assert!(Fitness::constrained(1.0f64.to_bits(), 0.0f64.to_bits()).is_feasible());
}

#[test]
fn better_follows_the_objective_and_the_feasibility_rules() {
    let max = Objective::Maximize;
    let min = Objective::Minimize;
    assert!(max.is_better(score(2.0), score(1.0)));
    assert!(min.is_better(score(-3.0), score(1.0)));
    assert!(max.is_better(score(f64::INFINITY), score(1e300)));
    assert!(min.is_better(score(f64::NEG_INFINITY), score(-1e300)));
    assert!(!max.is_better(score(1.0), score(1.0)));
    // feasible before infeasible, smaller violation first, invalid last
    let small = Fitness::constrained(100.0f64.to_bits(), 0.5f64.to_bits());
    let large = Fitness::constrained(100.0f64.to_bits(), 1.5f64.to_bits());
    assert!(max.is_better(score(-1e9), small));
    assert!(max.is_better(small, large));
    assert!(min.is_better(small, large));
    assert!(max.is_better(large, Fitness::invalid()));
    assert!(!max.is_better(Fitness::invalid(), Fitness::invalid()));
    assert_eq!(max.compare(score(2.0), score(1.0)), Ordering::Greater);
    assert_eq!(max.compare(score(1.0), score(2.0)), Ordering::Less);
    assert_eq!(min.compare(score(1.0), score(2.0)), Ordering::Greater);
    assert_eq!(min.compare(score(1.0), score(1.0)), Ordering::Equal);
}
