use epirust::capabilities::{bulk_end, SimdCapabilities, Tier};
use epirust::error::EpiRustError;
use epirust::kernel::{greenwood_terms, SimdOperations, SurvivalFactor, VarianceTerm};

fn ops() -> SimdOperations {
    SimdOperations::new(SimdCapabilities::scalar_only())
}

#[test]
fn test_survival_probabilities() {
    let n_risk = vec![100, 90, 80, 70];
    let n_event = vec![10, 5, 8, 7];

    let factors = ops().survival_factors(&n_risk, &n_event).unwrap();
    let mut survival = vec![1.0];
    for f in &factors {
        let last = survival[survival.len() - 1];
        survival.push(last * (f.survivors as f64 / f.at_risk as f64));
    }

    for i in 1..survival.len() {
        assert!(survival[i] <= survival[i - 1]);
    }
    assert!(survival.iter().all(|&x| x >= 0.0 && x <= 1.0));
}

#[test]
fn survival_factors_concrete_case() {
    let factors = ops().survival_factors(&[100, 90, 80, 70], &[10, 5, 8, 7]).unwrap();
    assert_eq!(
        factors,
        vec![
            SurvivalFactor { survivors: 90, at_risk: 100 },
            SurvivalFactor { survivors: 85, at_risk: 90 },
            SurvivalFactor { survivors: 72, at_risk: 80 },
            SurvivalFactor { survivors: 63, at_risk: 70 },
        ]
    );
    let expected = [1.0, 0.9, 0.85, 0.765, 0.6885];
    let mut num: u128 = 1;
    let mut den: u128 = 1;
    for (k, f) in factors.iter().enumerate() {
        num *= f.survivors as u128;
        den *= f.at_risk as u128;
        assert!((num as f64 / den as f64 - expected[k + 1]).abs() < 1e-12);
    }
}

#[test]
fn survival_factors_empty() {
    assert_eq!(ops().survival_factors(&[], &[]).unwrap(), vec![]);
}

#[test]
fn survival_factors_one_side_empty() {
    assert_eq!(ops().survival_factors(&[3, 2], &[]).unwrap(), vec![]);
    assert_eq!(ops().survival_factors(&[], &[1]).unwrap(), vec![]);
}

#[test]
fn test_large_dataset() {
    let ops = ops();
    let size = 1000;

    let n_risk: Vec<usize> = (1..=size).map(|x| size - x + 1).collect();
    let n_event: Vec<usize> = (0..size).map(|i| ((i * 7) % 10).min(n_risk[i])).collect();

    let factors = ops.survival_factors(&n_risk, &n_event).unwrap();
    let mut survival = vec![1.0];
    for f in &factors {
        let last = survival[survival.len() - 1];
        survival.push(last * (f.survivors as f64 / f.at_risk as f64));
    }
    assert_eq!(survival.len(), size + 1);
}

#[test]
fn survival_factors_zero_at_risk() {
    let r = ops().survival_factors(&[5, 0, 3], &[1, 0, 9]);
    assert!(matches!(r, Err(EpiRustError::ComputeError(_))));
}

#[test]
fn survival_factors_too_many_events() {
    let r = ops().survival_factors(&[5, 4, 0], &[1, 5, 0]);
    assert!(matches!(r, Err(EpiRustError::ComputeError(_))));
}

#[test]
fn survival_factors_mismatched_lengths() {
    let r = ops().survival_factors(&[5, 4], &[1]);
    assert!(matches!(r, Err(EpiRustError::ComputeError(_))));
}

#[test]
fn tiers_pick_the_widest() {
    let all = SimdCapabilities { sse2_available: true, avx2_available: true, avx512_available: true };
    assert_eq!(all.sum_tier(), Tier::Avx512);
    let sse = SimdCapabilities { sse2_available: true, avx2_available: false, avx512_available: false };
    assert_eq!(sse.sum_tier(), Tier::Sse2);
    assert_eq!(SimdOperations::new(sse).sum_tier(), Tier::Sse2);
    assert_eq!(ops().sum_tier(), Tier::Scalar);
    assert_eq!(Tier::Avx512.lanes(), 8);
    assert_eq!(Tier::Avx2.lanes(), 4);
}

#[test]
fn bulk_end_leaves_short_remainder() {
    assert_eq!(bulk_end(5, 4), 4);
    assert_eq!(bulk_end(3, 8), 0);
    assert_eq!(bulk_end(16, 8), 16);
    assert_eq!(bulk_end(7, 1), 7);
}

#[test]
fn error_message() {
    let e = EpiRustError::ComputeError(String::from("bad"));
    assert_eq!(e.message(), "bad");
}

#[test]
fn greenwood_terms_exact() {
    let factors = ops().survival_factors(&[10, 8, 3], &[2, 0, 3]).unwrap();
    assert_eq!(
        greenwood_terms(&factors),
        vec![
            VarianceTerm { events: 2, denominator: 80 },
            VarianceTerm { events: 0, denominator: 64 },
            VarianceTerm { events: 3, denominator: 0 },
        ]
    );
    let big = [SurvivalFactor { survivors: usize::MAX - 1, at_risk: usize::MAX }];
    let t = greenwood_terms(&big);
    assert_eq!(t[0].events, 1);
    assert_eq!(t[0].denominator, usize::MAX as u128 * (usize::MAX - 1) as u128);
}
