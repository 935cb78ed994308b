use exponential_decay_histogram::reservoir::{Reservoir, Sample};
use exponential_decay_histogram::HistogramError;
use rand::rngs::SmallRng;
use rand::{Rng, SeedableRng};

fn sample(value: i64) -> Sample {
    Sample { value, weight: 1 }
}

fn keys(r: &Reservoir) -> Vec<u64> {
    (0..r.len()).map(|i| r.entry(i).0).collect()
}

fn values(r: &Reservoir) -> Vec<i64> {
    (0..r.len()).map(|i| r.entry(i).1.value).collect()
}

#[test]
fn a_zero_capacity_is_refused() {
    assert_eq!(Reservoir::new(0).err(), Some(HistogramError::InvalidConfiguration));
    assert!(Reservoir::new(1).is_ok());
}

#[test]
fn a_new_reservoir_is_empty() {
    let r = Reservoir::new(3).unwrap();
    assert_eq!(r.len(), 0);
    assert_eq!(r.size(), 3);
    assert_eq!(r.total_count(), 0);
    assert!(r.samples().is_empty());
}

#[test]
fn below_capacity_every_sample_is_kept_in_priority_order() {
    let mut r = Reservoir::new(5).unwrap();
    r.offer(30, sample(1));
    r.offer(10, sample(2));
    r.offer(20, sample(3));
    assert_eq!(keys(&r), vec![10, 20, 30]);
    assert_eq!(values(&r), vec![2, 3, 1]);
    assert_eq!(r.total_count(), 3);
}

#[test]
fn at_capacity_a_higher_priority_evicts_the_lowest() {
    let mut r = Reservoir::new(2).unwrap();
    r.offer(5, sample(50));
    r.offer(3, sample(30));
    r.offer(4, sample(40));
    assert_eq!(keys(&r), vec![4, 5]);
    assert_eq!(values(&r), vec![40, 50]);
}

#[test]
fn at_capacity_a_priority_not_above_the_lowest_is_discarded_but_counted() {
    let mut r = Reservoir::new(2).unwrap();
    r.offer(5, sample(50));
    r.offer(3, sample(30));
    r.offer(1, sample(10));
    r.offer(3, sample(31));
    assert_eq!(keys(&r), vec![3, 5]);
    assert_eq!(values(&r), vec![30, 50]);
    assert_eq!(r.total_count(), 4);
}

#[test]
fn an_equal_priority_replaces_the_sample_without_eviction() {
    let mut r = Reservoir::new(2).unwrap();
    r.offer(5, sample(50));
    r.offer(3, sample(30));
    r.offer(5, sample(55));
    assert_eq!(keys(&r), vec![3, 5]);
    assert_eq!(values(&r), vec![30, 55]);

    let mut r = Reservoir::new(4).unwrap();
    r.offer(5, sample(50));
    r.offer(5, sample(51));
    assert_eq!(r.len(), 1);
    assert_eq!(values(&r), vec![51]);
}

#[test]
fn samples_come_in_priority_order() {
    let mut r = Reservoir::new(4).unwrap();
    r.offer(9, Sample { value: 1, weight: 7 });
    r.offer(2, Sample { value: 2, weight: 8 });
    assert_eq!(
        r.samples(),
        vec![Sample { value: 2, weight: 8 }, Sample { value: 1, weight: 7 }]
    );
}

#[test]
fn rescale_rekeys_and_keeps_values() {
    let mut r = Reservoir::new(4).unwrap();
    r.offer(10, Sample { value: 1, weight: 100 });
    r.offer(20, Sample { value: 2, weight: 200 });
    r.rescale(&vec![(1, 11), (2, 22)]);
    assert_eq!(keys(&r), vec![1, 2]);
    assert_eq!(
        r.samples(),
        vec![Sample { value: 1, weight: 11 }, Sample { value: 2, weight: 22 }]
    );
    assert_eq!(r.total_count(), 2);
}

#[test]
fn rescale_collapses_equal_priorities_into_the_last() {
    let mut r = Reservoir::new(10).unwrap();
    for i in 0..10 {
        r.offer(100 + i as u64, sample(1000 + i));
    }
    assert_eq!(r.len(), 10);
    r.rescale(&vec![(0, 0); 10]);
    assert_eq!(r.len(), 1);
    assert_eq!(r.entry(0), (0, Sample { value: 1009, weight: 0 }));

    r.offer(7, sample(2000));
    assert_eq!(r.len(), 2);
    assert_eq!(values(&r), vec![1009, 2000]);
    assert_eq!(r.total_count(), 11);
}

#[test]
fn every_offer_is_counted() {
    let mut r = Reservoir::new(1).unwrap();
    for i in 0..5 {
        r.offer(i, sample(0));
    }
    assert_eq!(r.total_count(), 5);
}

#[test]
fn distinct_offers_fill_the_reservoir_exactly_to_capacity() {
    let mut rng = SmallRng::seed_from_u64(1);
    let mut r = Reservoir::new(100).unwrap();
    for i in 0..1000 {
        r.offer(rng.random::<u64>(), sample(i));
        assert_eq!(r.len(), std::cmp::min(i as usize + 1, 100));
    }
    assert!(values(&r).iter().all(|v| (0..1000).contains(v)));
}

#[test]
fn distinct_offers_below_capacity_are_all_kept() {
    let mut rng = SmallRng::seed_from_u64(2);
    let mut r = Reservoir::new(100).unwrap();
    for i in 0..10 {
        r.offer(rng.random::<u64>(), sample(i));
    }
    assert_eq!(r.len(), 10);
    let mut vs = values(&r);
    vs.sort();
    assert_eq!(vs, (0..10).collect::<Vec<_>>());
}
