use metricchrono::{adaptive_plan, zoom_plan, zoom_window, MetricChronoError, ZoomPolicy};

/// Tiers of the geometric ladder (epsilon 0.5, 1, 2, 4) that `distance` reaches.
fn active(distance: f64) -> Vec<bool> {
    [0.5, 1.0, 2.0, 4.0].iter().map(|epsilon| distance >= *epsilon).collect()
}

#[test]
fn adaptive_zoom_stops_when_coarser_tiers_are_inactive() {
    let decision = adaptive_plan(&active(0.75));
    assert_eq!(decision.first_inactive_tier, Some(1));
    assert!(decision.stopped_early);
    assert_eq!(decision.evaluated_tiers, 2);

    let window = zoom_window(&active(3.0), 1).unwrap();
    assert_eq!(window, 1..4);

    let fixed_decision = zoom_plan(&active(3.0), ZoomPolicy::FixedDepth(2)).unwrap();
    assert_eq!(fixed_decision.evaluated_tiers, 2);
    assert!(!fixed_decision.stopped_early);

    assert!(zoom_plan(&active(3.0), ZoomPolicy::DepthCap(5)).is_err());
}

#[test]
fn zoom_plan_errors_name_the_policy() {
    assert_eq!(
        zoom_plan(&active(3.0), ZoomPolicy::FixedDepth(5)).unwrap_err(),
        MetricChronoError::InvalidArgument("fixed depth exceeds ladder length")
    );
    assert_eq!(
        zoom_plan(&active(3.0), ZoomPolicy::DepthCap(5)).unwrap_err(),
        MetricChronoError::InvalidArgument("depth cap exceeds ladder length")
    );
}

#[test]
fn depth_cap_stops_early_only_within_the_cap() {
    let stop = zoom_plan(&active(0.75), ZoomPolicy::DepthCap(3)).unwrap();
    assert_eq!(stop.evaluated_tiers, 2);
    assert_eq!(stop.first_inactive_tier, Some(1));
    assert!(stop.stopped_early);
    let capped = zoom_plan(&active(3.0), ZoomPolicy::DepthCap(2)).unwrap();
    assert_eq!(capped.evaluated_tiers, 2);
    assert_eq!(capped.first_inactive_tier, None);
    assert!(!capped.stopped_early);
    let early = zoom_plan(&active(9.0), ZoomPolicy::EarlyStop).unwrap();
    assert_eq!(early.evaluated_tiers, 4);
    assert!(!early.stopped_early);
}

#[test]
fn zoom_window_clips_and_reports_silence() {
    assert_eq!(zoom_window(&active(0.1), 2), None);
    assert_eq!(zoom_window(&active(0.6), 2), Some(0..3));
    assert_eq!(zoom_window(&active(9.0), 0), Some(3..4));
    assert_eq!(zoom_window(&active(1.5), 5), Some(0..4));
}
