use metricchrono::{ensure_output, ensure_schema, ensure_shape, MetricChronoError};

#[test]
fn ensure_output_accepts_large_enough_buffers() {
    assert!(ensure_output(3, 3).is_ok());
    assert!(ensure_output(3, 7).is_ok());
    assert_eq!(
        ensure_output(3, 2).unwrap_err(),
        MetricChronoError::OutputTooSmall {
            needed: 3,
            actual: 2
        }
    );
}

#[test]
fn ensure_shape_requires_exact_lengths() {
    assert!(ensure_shape(4, 4, "weights").is_ok());
    assert_eq!(
        ensure_shape(4, 5, "weights").unwrap_err(),
        MetricChronoError::ShapeMismatch {
            expected: 4,
            actual: 5,
            context: "weights"
        }
    );
}

#[test]
fn ensure_schema_matches_versions_exactly() {
    assert!(ensure_schema("ladder.v1", "ladder.v1").is_ok());
    assert_eq!(
        ensure_schema("ladder.v2", "ladder.v1").unwrap_err(),
        MetricChronoError::InvalidArgument("unsupported schema version")
    );
    assert!(ensure_schema("ladder.v1 ", "ladder.v1").is_err());
    assert!(ensure_schema("", "tier.v1").is_err());
}

#[test]
fn empty_ladder_message() {
    assert_eq!(
        MetricChronoError::EmptyLadder.message(),
        "ladder must contain at least one tier"
    );
}
