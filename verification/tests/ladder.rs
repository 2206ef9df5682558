use metricchrono::{MetricChronoError, Normalization, PromotionCounter};

#[test]
fn carry_rules_and_promotion_counter_match_reference_behavior() {
    let mut promote = PromotionCounter::new(vec![2, 3]).unwrap();
    let mut flags = [false; 2];
    promote.step(Some(&[false, false]), &mut flags).unwrap();
    assert_eq!(flags, [false, false]);
    assert_eq!(promote.counters(), &[1, 1]);

    promote.step(Some(&[false, false]), &mut flags).unwrap();
    assert_eq!(flags, [true, true]);
    assert_eq!(promote.counters(), &[0, 0]);
}

#[test]
fn promotion_counter_rejects_empty_and_zero_quotas() {
    assert_eq!(
        PromotionCounter::new(vec![]).unwrap_err(),
        MetricChronoError::EmptyLadder
    );
    assert_eq!(
        PromotionCounter::new(vec![2, 0, 3]).unwrap_err(),
        MetricChronoError::InvalidArgument("promotion quotas must be > 0")
    );
    let counter = PromotionCounter::new(vec![4, 5, 6]).unwrap();
    assert_eq!(counter.len(), 3);
    assert!(!counter.is_empty());
    assert_eq!(counter.quotas(), &[4, 5, 6]);
    assert_eq!(counter.counters(), &[0, 0, 0]);
}

#[test]
fn promotion_step_reports_output_and_flag_shape_errors() {
    let mut counter = PromotionCounter::new(vec![2, 3]).unwrap();
    let mut short = [true; 1];
    assert_eq!(
        counter.step(None, &mut short).unwrap_err(),
        MetricChronoError::OutputTooSmall {
            needed: 2,
            actual: 1
        }
    );
    assert_eq!(short, [true]);
    let mut out = [true; 2];
    assert_eq!(
        counter.step(Some(&[false]), &mut out).unwrap_err(),
        MetricChronoError::ShapeMismatch {
            expected: 2,
            actual: 1,
            context: "event flags"
        }
    );
    assert_eq!(out, [true, true]);
    assert_eq!(counter.counters(), &[0, 0]);
}

#[test]
fn promotion_step_leaves_extra_output_slots_alone() {
    let mut counter = PromotionCounter::new(vec![1, 5]).unwrap();
    let mut out = [true, true, true, false];
    counter.step(None, &mut out).unwrap();
    // tier 0 reaches its quota of 1 and carries into tier 1 (1 + 1 = 2 < 5)
    assert_eq!(out, [true, false, true, false]);
    assert_eq!(counter.counters(), &[0, 2]);
}

#[test]
fn promotion_cascades_through_every_full_tier_in_one_step() {
    let mut counter = PromotionCounter::new(vec![1, 2, 3]).unwrap();
    let mut out = [false; 3];
    counter.step(None, &mut out).unwrap();
    // counters advance to [1, 1, 1]; tier 0 promotes, tier 1 reaches 2 and
    // promotes, tier 2 reaches 2 < 3
    assert_eq!(out, [true, true, false]);
    assert_eq!(counter.counters(), &[0, 0, 2]);
    counter.step(None, &mut out).unwrap();
    // [1, 1, 3] -> tier 0 promotes, tier 1 reaches 2 and promotes, tier 2
    // reaches 4 and promotes
    assert_eq!(out, [true, true, true]);
    assert_eq!(counter.counters(), &[0, 0, 0]);
}

#[test]
fn events_reset_their_tier_and_hold_back_its_count() {
    let mut counter = PromotionCounter::new(vec![3, 3]).unwrap();
    let mut out = [false; 2];
    counter.step(Some(&[false, true]), &mut out).unwrap();
    assert_eq!(counter.counters(), &[1, 0]);
    counter.step(Some(&[true, false]), &mut out).unwrap();
    assert_eq!(counter.counters(), &[0, 1]);
    assert_eq!(out, [false, false]);
}

#[test]
fn first_tier_counts_modulo_its_quota() {
    let mut counter = PromotionCounter::new(vec![3, 1000]).unwrap();
    let mut out = [false; 2];
    let mut promotions = Vec::new();
    for _ in 0..9 {
        counter.step(None, &mut out).unwrap();
        promotions.push(out[0]);
        assert!(counter.counters()[0] < 3);
    }
    assert_eq!(
        promotions,
        vec![false, false, true, false, false, true, false, false, true]
    );
}

#[test]
fn reset_clears_counters_and_keeps_quotas() {
    let mut counter = PromotionCounter::new(vec![4, 4]).unwrap();
    let mut out = [false; 2];
    counter.step(None, &mut out).unwrap();
    counter.step(None, &mut out).unwrap();
    assert_eq!(counter.counters(), &[2, 2]);
    counter.reset();
    assert_eq!(counter.counters(), &[0, 0]);
    assert_eq!(counter.quotas(), &[4, 4]);
}

#[test]
fn normalization_modes_are_distinct() {
    assert_ne!(Normalization::Unchanged, Normalization::UnitMax);
    assert_ne!(Normalization::UnitMax, Normalization::Tanh);
}
