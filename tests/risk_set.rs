use epirust::risk_set::{
    build_risk_set, count_partition, merge_partitions, partition_bounds, risk_set_partitioned,
    RiskRow,
};

fn sample() -> Vec<(u64, bool)> {
    vec![(1, false), (1, true), (2, true), (2, true), (2, false), (5, false), (7, true), (7, true)]
}

#[test]
fn sequential_risk_set() {
    let rows = build_risk_set(&sample());
    assert_eq!(
        rows,
        vec![
            RiskRow { time: 1, at_risk: 8, events: 1 },
            RiskRow { time: 2, at_risk: 6, events: 2 },
            RiskRow { time: 5, at_risk: 3, events: 0 },
            RiskRow { time: 7, at_risk: 2, events: 2 },
        ]
    );
    assert_eq!(build_risk_set(&[]), vec![]);
}

#[test]
fn partitions_split_inside_a_group_are_merged() {
    let data = sample();
    let parts = vec![
        count_partition(&data, 0, 3),
        count_partition(&data, 3, 4),
        count_partition(&data, 4, 4),
        count_partition(&data, 4, 8),
    ];
    assert_eq!(parts[1], vec![RiskRow { time: 2, at_risk: 5, events: 1 }]);
    assert_eq!(merge_partitions(&parts), build_risk_set(&data));
}

#[test]
fn every_partition_count_agrees() {
    let data = sample();
    assert_eq!(risk_set_partitioned(&data, usize::MAX), build_risk_set(&data));
    for parts in 1..=12 {
        assert_eq!(risk_set_partitioned(&data, parts), build_risk_set(&data));
    }
}

#[test]
fn bounds_cover_the_input() {
    assert_eq!(partition_bounds(10, 3), vec![0, 4, 8, 10]);
    assert_eq!(partition_bounds(2, 4), vec![0, 1, 2, 2, 2]);
    assert_eq!(partition_bounds(0, 2), vec![0, 0, 0]);
    assert_eq!(partition_bounds(9, 3), vec![0, 3, 6, 9]);
}
