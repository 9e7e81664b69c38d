use epirust::capabilities::SimdCapabilities;
use epirust::error::EpiRustError;
use epirust::kaplan_meier::KaplanMeier;
use epirust::kernel::{SimdOperations, SurvivalFactor};

fn estimator(partitions: usize) -> KaplanMeier {
    KaplanMeier::new(SimdOperations::new(SimdCapabilities::scalar_only()), partitions).unwrap()
}

fn keys(times: &[f64]) -> Vec<u64> {
    times.iter().map(|t| t.to_bits()).collect()
}

/// The survival curve at each distinct time: running products of the factors.
fn curve(factors: &[SurvivalFactor]) -> Vec<f64> {
    let mut out = Vec::new();
    let mut s = 1.0;
    for f in factors {
        s *= f.survivors as f64 / f.at_risk as f64;
        out.push(s);
    }
    out
}

#[test]
fn test_kaplan_meier_basic() {
    let km = estimator(1);
    let time = vec![1.0, 2.0, 3.0, 4.0, 5.0];
    let event = vec![false, true, false, true, false];

    let result = km.fit(&keys(&time), &event).unwrap();
    let survival = curve(&result.factors);

    assert_eq!(result.time.len(), survival.len());
    assert!(survival.iter().all(|&s| s >= 0.0 && s <= 1.0));
}

#[test]
fn test_kaplan_meier_empty() {
    let km = estimator(1);
    let result = km.fit(&[], &[]);
    assert!(result.is_err());
}

#[test]
fn test_kaplan_meier_all_censored() {
    let km = estimator(1);
    let time = vec![1.0, 2.0, 3.0];
    let event = vec![false, false, false];

    let result = km.fit(&keys(&time), &event).unwrap();
    let survival = curve(&result.factors);
    assert!(survival.iter().all(|&s| (s - 1.0).abs() < 1e-10));
}

#[test]
fn fit_five_distinct_times() {
    let km = estimator(2);
    let time = vec![1.0, 2.0, 3.0, 4.0, 5.0];
    let event = vec![false, true, false, true, false];
    let result = km.fit(&keys(&time), &event).unwrap();
    assert_eq!(result.time, keys(&time));
    assert_eq!(result.n_risk, vec![5, 4, 3, 2, 1]);
    assert_eq!(result.n_event, vec![0, 1, 0, 1, 0]);
    let survival = curve(&result.factors);
    assert_eq!(survival.len(), 5);
    for i in 1..survival.len() {
        assert!(survival[i] <= survival[i - 1]);
    }
    assert!((survival[1] - 0.75).abs() < 1e-12);
    assert!((survival[3] - 0.375).abs() < 1e-12);
}

#[test]
fn fit_groups_ties_and_sorts() {
    let km = estimator(1);
    let time = vec![3.0, 1.0, 3.0, 2.0, 1.0, 3.0];
    let event = vec![true, true, false, false, false, true];
    let result = km.fit(&keys(&time), &event).unwrap();
    assert_eq!(result.time, keys(&[1.0, 2.0, 3.0]));
    assert_eq!(result.n_risk, vec![6, 4, 3]);
    assert_eq!(result.n_event, vec![1, 0, 2]);
    assert_eq!(
        result.factors,
        vec![
            SurvivalFactor { survivors: 5, at_risk: 6 },
            SurvivalFactor { survivors: 4, at_risk: 4 },
            SurvivalFactor { survivors: 1, at_risk: 3 },
        ]
    );
}

#[test]
fn fit_same_result_for_every_partition_count() {
    let time: Vec<f64> = (0..40).map(|i| ((i * 7) % 13) as f64).collect();
    let event: Vec<bool> = (0..40).map(|i| i % 3 == 0).collect();
    let reference = estimator(1).fit(&keys(&time), &event).unwrap();
    for parts in 1..=45 {
        let result = estimator(parts).fit(&keys(&time), &event).unwrap();
        assert_eq!(result.time, reference.time);
        assert_eq!(result.n_risk, reference.n_risk);
        assert_eq!(result.n_event, reference.n_event);
        assert_eq!(result.factors, reference.factors);
    }
}

#[test]
fn fit_all_events_at_one_time() {
    let km = estimator(3);
    let time = vec![2.0, 2.0, 2.0];
    let event = vec![true, true, true];
    let result = km.fit(&keys(&time), &event).unwrap();
    assert_eq!(result.n_risk, vec![3]);
    assert_eq!(result.n_event, vec![3]);
    assert_eq!(curve(&result.factors), vec![0.0]);
}

#[test]
fn fit_mismatched_lengths_is_compute_error() {
    let km = estimator(1);
    let result = km.fit(&keys(&[1.0, 2.0]), &[true]);
    assert!(matches!(result, Err(EpiRustError::ComputeError(_))));
}

#[test]
fn fit_empty_is_compute_error() {
    let km = estimator(4);
    assert!(matches!(km.fit(&[], &[]), Err(EpiRustError::ComputeError(_))));
}

#[test]
fn new_rejects_zero_partitions() {
    let ops = SimdOperations::new(SimdCapabilities::scalar_only());
    assert!(matches!(KaplanMeier::new(ops, 0), Err(EpiRustError::ComputeError(_))));
    assert_eq!(KaplanMeier::new(ops, 3).unwrap().partitions(), 3);
    let km = KaplanMeier::new(ops, usize::MAX).unwrap();
    let result = km.fit(&keys(&[2.0, 1.0, 2.0]), &[true, false, false]).unwrap();
    assert_eq!(result.n_risk, vec![3, 2]);
    assert_eq!(result.n_event, vec![0, 1]);
}
