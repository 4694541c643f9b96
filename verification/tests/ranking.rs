use mirror_bench::latency::{run_estimator, Estimator, LatencyEstimate, ProbeOutcome};
use mirror_bench::rank::rank_mirrors;

fn s(x: &str) -> String {
    x.to_string()
}

#[test]
fn empty_input_gives_empty_output() {
    let out = rank_mirrors(Vec::new());
    assert_eq!(out, Vec::<String>::new());
}

#[test]
fn all_failing_gives_empty_output() {
    let pairs = vec![
        (s("a"), LatencyEstimate::Failure),
        (s("b"), LatencyEstimate::Failure),
        (s("c"), LatencyEstimate::Failure),
    ];
    assert_eq!(rank_mirrors(pairs), Vec::<String>::new());
}

#[test]
fn ranks_three_mirrors_by_mean() {
    let pairs = vec![
        (s("A"), LatencyEstimate::Mean(30)),
        (s("B"), LatencyEstimate::Mean(10)),
        (s("C"), LatencyEstimate::Mean(20)),
    ];
    assert_eq!(rank_mirrors(pairs), vec![s("B"), s("C"), s("A")]);
}

#[test]
fn ranks_three_mirrors_from_probe_runs() {
    let a = vec![ProbeOutcome::Elapsed(30); 5];
    let b = vec![ProbeOutcome::Elapsed(10); 5];
    let c = vec![ProbeOutcome::Elapsed(20); 5];
    let pairs = vec![
        (s("A"), run_estimator(&a)),
        (s("B"), run_estimator(&b)),
        (s("C"), run_estimator(&c)),
    ];
    assert_eq!(rank_mirrors(pairs), vec![s("B"), s("C"), s("A")]);
}

#[test]
fn failing_probe_excludes_mirror() {
    let a = vec![
        ProbeOutcome::Elapsed(9),
        ProbeOutcome::Elapsed(9),
        ProbeOutcome::Failed,
        ProbeOutcome::Elapsed(9),
        ProbeOutcome::Elapsed(9),
    ];
    let b = vec![
        ProbeOutcome::Elapsed(10),
        ProbeOutcome::Elapsed(11),
        ProbeOutcome::Elapsed(12),
        ProbeOutcome::Elapsed(13),
        ProbeOutcome::Elapsed(14),
    ];
    let pairs = vec![(s("A"), run_estimator(&a)), (s("B"), run_estimator(&b))];
    assert_eq!(rank_mirrors(pairs), vec![s("B")]);
}

#[test]
fn single_successful_mirror() {
    let a = vec![ProbeOutcome::Elapsed(42); 5];
    let pairs = vec![(s("A"), run_estimator(&a))];
    assert_eq!(rank_mirrors(pairs), vec![s("A")]);
}

#[test]
fn unbuildable_path_excludes_mirror() {
    // A mirror whose resource path cannot be built is classified as failed
    // without any probe: one failed probe is recorded.
    let mut est = Estimator::new();
    est.record(ProbeOutcome::Failed);
    let pairs = vec![(s("A"), est.estimate())];
    assert_eq!(rank_mirrors(pairs), Vec::<String>::new());
}

#[test]
fn equal_means_keep_input_order() {
    let pairs = vec![
        (s("A"), LatencyEstimate::Mean(20)),
        (s("B"), LatencyEstimate::Mean(10)),
        (s("C"), LatencyEstimate::Mean(20)),
    ];
    assert_eq!(rank_mirrors(pairs), vec![s("B"), s("A"), s("C")]);
}

#[test]
fn duplicate_mirrors_are_kept() {
    let pairs = vec![(s("X"), LatencyEstimate::Mean(30)), (s("X"), LatencyEstimate::Mean(10))];
    assert_eq!(rank_mirrors(pairs), vec![s("X"), s("X")]);
}

#[test]
fn zero_mean_ranks_first() {
    let pairs = vec![(s("A"), LatencyEstimate::Mean(5)), (s("B"), LatencyEstimate::Mean(0))];
    assert_eq!(rank_mirrors(pairs), vec![s("B"), s("A")]);
}

#[test]
fn mixed_failures_and_successes() {
    let pairs = vec![
        (s("A"), LatencyEstimate::Failure),
        (s("B"), LatencyEstimate::Mean(50)),
        (s("C"), LatencyEstimate::Failure),
        (s("D"), LatencyEstimate::Mean(40)),
    ];
    assert_eq!(rank_mirrors(pairs), vec![s("D"), s("B")]);
}
