use mirror_bench::latency::{run_estimator, Estimator, LatencyEstimate, ProbeOutcome, PING_TIMES};

#[test]
fn estimator_mean_of_full_run() {
    let mut est = Estimator::new();
    let samples = [10u32, 20, 30, 40, 50];
    for d in samples {
        assert!(est.wants_probe());
        est.record(ProbeOutcome::Elapsed(d));
    }
    assert!(!est.wants_probe());
    assert_eq!(est.estimate(), LatencyEstimate::Mean(30));
}

#[test]
fn estimator_truncates_mean() {
    let mut est = Estimator::new();
    for d in [1u32, 1, 1, 1, 2] {
        est.record(ProbeOutcome::Elapsed(d));
    }
    assert_eq!(est.estimate(), LatencyEstimate::Mean(1));
}

#[test]
fn estimator_short_circuits_on_failure() {
    let mut est = Estimator::new();
    est.record(ProbeOutcome::Elapsed(10));
    est.record(ProbeOutcome::Elapsed(12));
    est.record(ProbeOutcome::Failed);
    assert!(!est.wants_probe());
    assert_eq!(est.estimate(), LatencyEstimate::Failure);
}

#[test]
fn estimator_failure_before_any_sample() {
    let mut est = Estimator::new();
    est.record(ProbeOutcome::Failed);
    assert!(!est.wants_probe());
    assert_eq!(est.estimate(), LatencyEstimate::Failure);
}

#[test]
fn estimator_asks_for_exactly_five_probes() {
    let mut est = Estimator::new();
    let mut asked = 0usize;
    while est.wants_probe() {
        est.record(ProbeOutcome::Elapsed(7));
        asked += 1;
    }
    assert_eq!(asked, PING_TIMES);
    assert_eq!(asked, 5);
    assert_eq!(est.estimate(), LatencyEstimate::Mean(7));
}

#[test]
fn run_estimator_all_success() {
    let outcomes = vec![ProbeOutcome::Elapsed(12); 5];
    assert_eq!(run_estimator(&outcomes), LatencyEstimate::Mean(12));
}

#[test]
fn run_estimator_mean_of_varied_samples() {
    let outcomes = vec![
        ProbeOutcome::Elapsed(100),
        ProbeOutcome::Elapsed(200),
        ProbeOutcome::Elapsed(300),
        ProbeOutcome::Elapsed(401),
        ProbeOutcome::Elapsed(500),
    ];
    assert_eq!(run_estimator(&outcomes), LatencyEstimate::Mean(300));
}

#[test]
fn run_estimator_fails_on_first_probe() {
    let outcomes = vec![
        ProbeOutcome::Failed,
        ProbeOutcome::Elapsed(10),
        ProbeOutcome::Elapsed(10),
        ProbeOutcome::Elapsed(10),
        ProbeOutcome::Elapsed(10),
    ];
    assert_eq!(run_estimator(&outcomes), LatencyEstimate::Failure);
}

#[test]
fn run_estimator_fails_on_third_probe() {
    let outcomes = vec![
        ProbeOutcome::Elapsed(10),
        ProbeOutcome::Elapsed(10),
        ProbeOutcome::Failed,
        ProbeOutcome::Elapsed(10),
        ProbeOutcome::Elapsed(10),
    ];
    assert_eq!(run_estimator(&outcomes), LatencyEstimate::Failure);
}

#[test]
fn run_estimator_fails_on_last_probe() {
    let outcomes = vec![
        ProbeOutcome::Elapsed(10),
        ProbeOutcome::Elapsed(10),
        ProbeOutcome::Elapsed(10),
        ProbeOutcome::Elapsed(10),
        ProbeOutcome::Failed,
    ];
    assert_eq!(run_estimator(&outcomes), LatencyEstimate::Failure);
}

#[test]
fn zero_duration_is_a_measurement_not_a_failure() {
    let outcomes = vec![ProbeOutcome::Elapsed(0); 5];
    assert_eq!(run_estimator(&outcomes), LatencyEstimate::Mean(0));
}
