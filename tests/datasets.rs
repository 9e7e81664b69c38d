use epirust::kaplan_meier::KaplanMeier;

/// A small numeric fixture: three rows of three values.
fn create_test_dataset() -> Vec<Vec<f64>> {
    vec![vec![1.0, 2.0, 3.0], vec![4.0, 5.0, 6.0], vec![7.0, 8.0, 9.0]]
}

#[test]
fn test_test_data() {
    let data = create_test_dataset();
    assert_eq!(data.len(), 3);
    assert_eq!(data[0].len(), 3);
    assert_eq!(data[0][0], 1.0);
}

#[test]
fn fixture_rows_fit_as_times() {
    let data = create_test_dataset();
    let time: Vec<u64> = data.iter().map(|row| row[0].to_bits()).collect();
    let event = vec![true, false, true];
    let counts = KaplanMeier::new(
        epirust::kernel::SimdOperations::new(epirust::capabilities::SimdCapabilities::scalar_only()),
        2,
    )
    .unwrap()
    .fit(&time, &event)
    .unwrap();
    assert_eq!(counts.n_risk, vec![3, 2, 1]);
    assert_eq!(counts.n_event, vec![1, 0, 1]);
}
