//! Tests of the trial sampler and of the parallel estimator.

use hopsim::cost_matrix::CostMatrix;

#[test]
fn simulate_step_stays_between_extremes() {
    let t = CostMatrix::star(5).unwrap();
    for _ in 0..200 {
        let total = t.simulate_step();
        assert!(total >= 5);
        assert!(total <= 10);
    }
    let line = CostMatrix::line(6).unwrap();
    for _ in 0..200 {
        let total = line.simulate_step();
        assert!(total >= 6);
        assert!(total <= 30);
    }
}

#[test]
fn two_node_ring_is_deterministic() {
    let t = CostMatrix::ring(2).unwrap();
    assert_eq!(t.simulate_step(), 2);
    assert_eq!(t.estimate(1000), 2000);
}

#[test]
fn estimate_star_converges_to_expected_value() {
    let t = CostMatrix::star(5).unwrap();
    let trials: usize = 1_000_000;
    let total = t.estimate(trials);
    let avg = total as f64 / (trials as f64 * 5.0);
    // One hub row averaging 1 and four leaf rows averaging 7/4 give an
    // expected mean of (1 + 4 * (7.0 / 4.0)) / 5 = 1.6 hops.
    assert!((avg - 1.6).abs() < 0.01, "estimate drifted: {}", avg);
}

#[test]
fn estimate_is_stable_under_rechunking() {
    let t = CostMatrix::star(5).unwrap();
    let whole = t.estimate(400_000);
    let mut chunked: u64 = 0;
    for _ in 0..4 {
        chunked += t.estimate(100_000);
    }
    let avg_whole = whole as f64 / (400_000.0 * 5.0);
    let avg_chunked = chunked as f64 / (400_000.0 * 5.0);
    assert!((avg_whole - 1.6).abs() < 0.02, "estimate drifted: {}", avg_whole);
    assert!((avg_chunked - 1.6).abs() < 0.02, "estimate drifted: {}", avg_chunked);
    assert!((avg_whole - avg_chunked).abs() < 0.04);
}
