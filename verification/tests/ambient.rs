use metricchrono::{GuardedWindow, MetricChronoError, Ring};

fn total_order_key(x: f64) -> i64 {
    let bits = x.to_bits() as i64;
    bits ^ ((((bits >> 63) as u64) >> 1) as i64)
}

fn from_key(key: i64) -> f64 {
    f64::from_bits((key ^ ((((key >> 63) as u64) >> 1) as i64)) as u64)
}

fn cfar_rank(reference_len: usize, target_fp: f64) -> usize {
    let raw = ((1.0 - target_fp) * (reference_len + 1) as f64).ceil() as usize;
    raw.clamp(1, reference_len)
}

#[test]
fn guard_excludes_recent_burst_from_threshold() {
    let rank = cfar_rank(4, 0.25);
    let mut guarded = GuardedWindow::new(4, 2).unwrap();
    for value in [1.0, 1.0, 1.0, 1.0, 100.0, 100.0] {
        assert!(guarded.observe(total_order_key(value), rank).is_none());
    }
    let threshold = from_key(guarded.observe(total_order_key(2.0), rank).expect("warm decision"));
    assert_eq!(threshold, 1.0);
    assert!(2.0 > threshold);

    let mut unguarded_reference = GuardedWindow::new(4, 2).unwrap();
    for value in [1.0, 1.0, 100.0, 100.0, 1.0, 1.0] {
        assert!(unguarded_reference.observe(total_order_key(value), rank).is_none());
    }
    let threshold = from_key(
        unguarded_reference
            .observe(total_order_key(2.0), rank)
            .expect("warm decision"),
    );
    assert_eq!(threshold, 100.0);
    assert!(!(2.0 > threshold));
}

#[test]
fn warmup_returns_none_exactly_reference_plus_guard_times() {
    let rank = cfar_rank(3, 0.2);
    let mut cfar = GuardedWindow::new(3, 2).unwrap();
    for index in 0..5 {
        assert!(cfar.observe(total_order_key(index as f64), rank).is_none());
    }
    assert!(cfar.observe(total_order_key(10.0), rank).is_some());
}

#[test]
fn decision_is_causal_before_test_value_is_pushed() {
    let rank = cfar_rank(3, 0.25);
    let mut cfar = GuardedWindow::new(3, 0).unwrap();
    for value in [1.0, 2.0, 3.0] {
        assert!(cfar.observe(total_order_key(value), rank).is_none());
    }
    let threshold = from_key(cfar.observe(total_order_key(100.0), rank).expect("warm decision"));
    assert_eq!(threshold, 3.0);
    assert!(100.0 > threshold);

    let next = from_key(cfar.observe(total_order_key(4.0), rank).expect("next decision"));
    assert_eq!(next, 100.0);
    assert!(!(4.0 > next));
}

#[test]
fn guarded_window_rejects_empty_reference() {
    assert!(matches!(
        GuardedWindow::new(0, 3),
        Err(MetricChronoError::InvalidArgument("reference_len must be > 0"))
    ));
}

#[test]
fn sorted_reference_orders_the_oldest_values() {
    let mut window = GuardedWindow::new(4, 1).unwrap();
    assert!(window.is_empty());
    for value in [3.0, -1.0, 2.0, 0.5] {
        window.push(total_order_key(value));
        assert!(window.sorted_reference().is_none());
        assert!(window.is_warming_up());
    }
    window.push(total_order_key(-7.0));
    assert_eq!(window.len(), 5);
    let sorted: Vec<f64> = window
        .sorted_reference()
        .unwrap()
        .into_iter()
        .map(from_key)
        .collect();
    assert_eq!(sorted, vec![-1.0, 0.5, 2.0, 3.0]);
    window.push(total_order_key(9.0));
    let sorted: Vec<f64> = window
        .sorted_reference()
        .unwrap()
        .into_iter()
        .map(from_key)
        .collect();
    assert_eq!(sorted, vec![-7.0, -1.0, 0.5, 2.0]);
    assert_eq!(window.reference_len(), 4);
    assert_eq!(window.guard_len(), 1);
}

#[test]
fn ring_keeps_the_most_recent_values_in_order() {
    let mut ring = Ring::new(3, 0u32);
    assert_eq!(ring.capacity(), 3);
    assert_eq!(ring.len(), 0);
    for value in 1..=5u32 {
        ring.push(value);
    }
    assert_eq!(ring.len(), 3);
    assert_eq!((ring.get(0), ring.get(1), ring.get(2)), (3, 4, 5));
    ring.push(6);
    assert_eq!((ring.get(0), ring.get(1), ring.get(2)), (4, 5, 6));
}
