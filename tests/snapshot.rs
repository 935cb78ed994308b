use exponential_decay_histogram::reservoir::Sample;
use exponential_decay_histogram::snapshot::{sort_by_value, Snapshot};

fn key(x: f64) -> u64 {
    x.to_bits()
}

fn entries(values: &[i64]) -> Vec<Sample> {
    values.iter().map(|&value| Sample { value, weight: 0 }).collect()
}

fn one_one_one_ten() -> Snapshot {
    let quantiles = vec![key(0.0), key(0.25), key(0.5), key(0.75)];
    Snapshot::new(entries(&[1, 1, 1, 10]), quantiles, 4).unwrap()
}

#[test]
fn sorting_by_value_keeps_the_order_of_equal_values() {
    let s = vec![
        Sample { value: 3, weight: 1 },
        Sample { value: 1, weight: 2 },
        Sample { value: 3, weight: 3 },
        Sample { value: 2, weight: 4 },
        Sample { value: 1, weight: 5 },
    ];
    assert_eq!(
        sort_by_value(&s),
        vec![
            Sample { value: 1, weight: 2 },
            Sample { value: 1, weight: 5 },
            Sample { value: 2, weight: 4 },
            Sample { value: 3, weight: 1 },
            Sample { value: 3, weight: 3 },
        ]
    );
    assert!(sort_by_value(&Vec::new()).is_empty());
}

#[test]
fn equal_values_are_grouped_into_runs() {
    let snap = one_one_one_ten();
    assert_eq!(snap.runs(), vec![(1, 3), (10, 1)]);
}

#[test]
fn an_empty_snapshot_answers_zero() {
    let snap = Snapshot::new(Vec::new(), Vec::new(), 0).unwrap();
    assert_eq!(snap.len(), 0);
    assert_eq!(snap.value(key(0.0)), 0);
    assert_eq!(snap.value(key(0.5)), 0);
    assert_eq!(snap.value(key(1.0)), 0);
    assert_eq!(snap.min(), 0);
    assert_eq!(snap.max(), 0);
    assert_eq!(snap.count(), 0);
    assert!(snap.runs().is_empty());
}

#[test]
fn a_quantile_falls_on_the_first_entry_that_reaches_it() {
    let snap = Snapshot::new(
        entries(&[1, 2, 3, 4]),
        vec![key(0.0), key(0.25), key(0.5), key(0.75)],
        9,
    )
    .unwrap();
    assert_eq!(snap.value(key(0.0)), 1);
    assert_eq!(snap.value(key(0.1)), 2);
    assert_eq!(snap.value(key(0.25)), 2);
    assert_eq!(snap.value(key(0.5)), 3);
    assert_eq!(snap.value(key(0.6)), 4);
    assert_eq!(snap.value(key(0.75)), 4);
    assert_eq!(snap.value(key(0.99)), 4);
    assert_eq!(snap.value(key(1.0)), 4);
    assert_eq!(snap.count(), 9);
}

#[test]
fn equal_quantiles_resolve_to_the_first_of_them() {
    let snap = Snapshot::new(
        entries(&[1, 2, 3]),
        vec![key(0.0), key(0.0), key(0.0)],
        3,
    )
    .unwrap();
    assert_eq!(snap.value(key(0.0)), 1);
    assert_eq!(snap.value(key(0.5)), 3);
}

#[test]
fn min_and_max_are_the_ends() {
    let snap = one_one_one_ten();
    assert_eq!(snap.min(), 1);
    assert_eq!(snap.max(), 10);
    assert_eq!(snap.len(), 4);
    assert_eq!(snap.entries().len(), 4);
}

#[test]
fn a_snapshot_needs_ordered_entries_and_quantiles() {
    assert!(Snapshot::new(entries(&[1, 2]), vec![key(0.0)], 2).is_none());
    assert!(Snapshot::new(entries(&[2, 1]), vec![key(0.0), key(0.5)], 2).is_none());
    assert!(Snapshot::new(entries(&[1, 2]), vec![key(0.5), key(0.0)], 2).is_none());
    assert!(Snapshot::new(entries(&[1, 1]), vec![key(0.0), key(0.0)], 2).is_some());
}
