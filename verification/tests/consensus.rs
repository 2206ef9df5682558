use metricchrono::{consensus_shape, tierwise_consensus_shape, MetricChronoError};

#[test]
fn consensus_shape_checks_in_order() {
    assert_eq!(consensus_shape(&[3, 3], 2, 3), Ok(3));
    assert_eq!(
        consensus_shape(&[], 0, 3),
        Err(MetricChronoError::InvalidArgument("at least one source is required"))
    );
    assert_eq!(
        consensus_shape(&[3, 3], 1, 3),
        Err(MetricChronoError::ShapeMismatch {
            expected: 2,
            actual: 1,
            context: "source weights"
        })
    );
    assert_eq!(
        consensus_shape(&[0, 3], 2, 3),
        Err(MetricChronoError::EmptyLadder)
    );
    assert_eq!(
        consensus_shape(&[3, 2], 2, 2),
        Err(MetricChronoError::OutputTooSmall {
            needed: 3,
            actual: 2
        })
    );
    assert_eq!(
        consensus_shape(&[3, 3, 4, 2], 4, 5),
        Err(MetricChronoError::ShapeMismatch {
            expected: 3,
            actual: 4,
            context: "tick vector"
        })
    );
}

#[test]
fn tierwise_consensus_shape_checks_the_opening() {
    assert_eq!(tierwise_consensus_shape(&[2, 5], 2, 2), Ok(2));
    assert_eq!(
        tierwise_consensus_shape(&[2, 2], 3, 2),
        Err(MetricChronoError::ShapeMismatch {
            expected: 2,
            actual: 3,
            context: "source tier weights"
        })
    );
    assert_eq!(
        tierwise_consensus_shape(&[4], 1, 1),
        Err(MetricChronoError::OutputTooSmall {
            needed: 4,
            actual: 1
        })
    );
    assert!(tierwise_consensus_shape(&[], 0, 1).is_err());
    assert_eq!(
        tierwise_consensus_shape(&[0], 1, 1),
        Err(MetricChronoError::EmptyLadder)
    );
}
