use homophonic::{lavy_accept, lavy_tolerance, SCALE, THRESHOLD};
use homophonic::util::probability;

#[test]
fn improvements_are_always_accepted() {
    // greediness: whenever next > prev the step is taken
    assert!(lavy_accept(100, 200));
    assert!(lavy_accept(-5, 0));
    assert!(lavy_accept(i64::MIN, 0));
    assert!(lavy_accept(0, 1));
}

#[test]
fn small_regressions_are_rejected_deterministically() {
    // prev = 100 units, next = 99 units: the tolerance is about 2.857e-4,
    // far below the threshold of 0.0085, so the rule rejects outright
    assert_eq!(lavy_tolerance(100000000, 99000000), 285);
    assert!(285 < THRESHOLD);
    for _ in 0..100 {
        assert!(!lavy_accept(100000000, 99000000));
    }
}

#[test]
fn large_regressions_clear_the_threshold() {
    // prev = 100 units, next = 50 units: the tolerance is about 0.0144,
    // above the threshold, so acceptance is left to the draw
    let p = lavy_tolerance(100000000, 50000000);
    assert_eq!(p, 14387);
    assert!(p > THRESHOLD);
}

#[test]
fn tolerance_of_an_improvement_is_zero() {
    assert_eq!(lavy_tolerance(100, 200), 0);
}

#[test]
fn huge_regressions_saturate_the_tolerance() {
    // beyond one whole unit of scaled drop the tolerance caps above SCALE,
    // so the draw always falls below it and the step is accepted
    let p = lavy_tolerance(i64::MAX, 0);
    assert!(p >= SCALE);
    assert!(lavy_accept(i64::MAX, 0));
}

#[test]
fn equal_energies_are_rejected() {
    // next == prev gives a drop of zero and a tolerance of zero
    assert_eq!(lavy_tolerance(42, 42), 0);
    assert!(!lavy_accept(42, 42));
}

#[test]
fn probability_extremes_are_deterministic() {
    for _ in 0..50 {
        assert!(!probability(0));
        assert!(probability(SCALE));
        assert!(probability(SCALE + 1));
    }
}
