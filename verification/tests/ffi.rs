use metricchrono::ffi::{check_pair_metric, consensus_matrix_len, coverage_config_error};
use metricchrono::{
    classify_regime, error_message_for_code, normalization_from_id, regime_code, status_message,
    LastError, MCStatus, MCZoomDecision, MetricChronoError, Normalization, OperatingRegime,
    ZoomDecision,
};

#[test]
fn quadrants_are_exhaustive() {
    assert_eq!(classify_regime(0.0 > 0.0, 0), OperatingRegime::Quiescent);
    assert_eq!(classify_regime(3.0 > 0.0, 2), OperatingRegime::Progress);
    assert_eq!(classify_regime(3.0 > 0.0, 0), OperatingRegime::Churn);
    assert_eq!(classify_regime(0.0 > 0.0, 5), OperatingRegime::Creep);
}

#[test]
fn regime_codes_match_the_c_abi() {
    assert_eq!(regime_code(classify_regime(false, 0)), 0);
    assert_eq!(regime_code(classify_regime(true, 1)), 1);
    assert_eq!(regime_code(classify_regime(true, 0)), 2);
    assert_eq!(regime_code(classify_regime(false, 1)), 3);
}

#[test]
fn status_codes_and_messages() {
    assert_eq!(MCStatus::Success.code(), 0);
    assert_eq!(MCStatus::Null.code(), 1);
    assert_eq!(MCStatus::InvalidArgument.code(), 2);
    assert_eq!(MCStatus::BufferTooSmall.code(), 3);
    assert_eq!(MCStatus::Panic.code(), 255);
    assert_eq!(status_message(MCStatus::Null), "null pointer");
    assert_eq!(error_message_for_code(3), "buffer too small");
    assert_eq!(error_message_for_code(255), "panic");
    assert_eq!(error_message_for_code(42), "unknown status");
}

#[test]
fn normalization_ids() {
    assert_eq!(normalization_from_id(0).unwrap(), Normalization::Unchanged);
    assert_eq!(normalization_from_id(1).unwrap(), Normalization::UnitMax);
    assert_eq!(normalization_from_id(2).unwrap(), Normalization::Tanh);
    assert_eq!(
        normalization_from_id(3).unwrap_err(),
        MetricChronoError::InvalidArgument("unknown normalization id")
    );
}

fn message_of(slot: &LastError) -> Vec<u8> {
    let mut buf = vec![0xffu8; slot.len_with_nul() + 2];
    slot.copy_message(&mut buf);
    let nul = buf.iter().position(|b| *b == 0).unwrap();
    assert_eq!(nul + 1, slot.len_with_nul());
    assert_eq!(&buf[nul + 1..], &[0xff, 0xff]);
    buf[..nul].to_vec()
}

#[test]
fn last_error_records_error_messages() {
    let mut slot = LastError::new();
    slot.begin_ffi_call();
    assert_eq!(slot.buffer_too_small(3, 2), MCStatus::BufferTooSmall);
    assert_eq!(
        message_of(&slot),
        b"output buffer too small: need 3, got 2".to_vec()
    );
    slot.begin_ffi_call();
    assert_eq!(slot.invalid_argument("unknown metric id"), MCStatus::InvalidArgument);
    assert_eq!(message_of(&slot), b"invalid argument: unknown metric id".to_vec());
    // a status whose call already set a message keeps it
    assert_eq!(slot.finish_status(MCStatus::InvalidArgument), MCStatus::InvalidArgument);
    assert_eq!(message_of(&slot), b"invalid argument: unknown metric id".to_vec());
    // a failing call that set nothing records the status message
    slot.begin_ffi_call();
    assert_eq!(slot.finish_status(MCStatus::Null), MCStatus::Null);
    assert_eq!(message_of(&slot), b"null pointer".to_vec());
    // a successful call leaves the previous message in place
    slot.begin_ffi_call();
    assert_eq!(slot.finish_status(MCStatus::Success), MCStatus::Success);
    assert_eq!(message_of(&slot), b"null pointer".to_vec());
    assert_eq!(slot.status_of(Ok::<u8, MetricChronoError>(1)), MCStatus::Success);
    assert_eq!(
        slot.status_of::<()>(Err(MetricChronoError::EmptyLadder)),
        MCStatus::InvalidArgument
    );
    assert_eq!(message_of(&slot), b"ladder must contain at least one tier".to_vec());
}

#[test]
fn error_messages_render_every_variant() {
    assert_eq!(
        MetricChronoError::InvalidTier {
            index: 12,
            reason: "epsilon must be < delta"
        }
        .message(),
        "invalid tier at index 12: epsilon must be < delta"
    );
    assert_eq!(
        MetricChronoError::ShapeMismatch {
            expected: 3,
            actual: 105,
            context: "tick vector"
        }
        .message(),
        "shape mismatch for tick vector: expected 3, got 105"
    );
    assert_eq!(
        MetricChronoError::OutputTooSmall {
            needed: 1000,
            actual: 0
        }
        .message(),
        "output buffer too small: need 1000, got 0"
    );
    assert_eq!(
        MetricChronoError::InvalidArgument("ratio must be finite and > 1").message(),
        "invalid argument: ratio must be finite and > 1"
    );
}

#[test]
fn zoom_decisions_in_c_layout() {
    let stopped = MCZoomDecision::from_decision(ZoomDecision {
        evaluated_tiers: 2,
        first_inactive_tier: Some(1),
        stopped_early: true,
    });
    assert_eq!(stopped.evaluated_tiers, 2);
    assert_eq!(stopped.first_inactive_tier, 1);
    assert!(stopped.has_first_inactive_tier);
    assert!(stopped.stopped_early);
    let full = MCZoomDecision::from_decision(ZoomDecision {
        evaluated_tiers: 4,
        first_inactive_tier: None,
        stopped_early: false,
    });
    assert_eq!(full.first_inactive_tier, 0);
    assert!(!full.has_first_inactive_tier);
}

#[test]
fn pair_metric_and_coverage_configuration_checks() {
    assert!(check_pair_metric(0, 5).is_ok());
    assert!(check_pair_metric(1, 1).is_ok());
    assert_eq!(
        check_pair_metric(1, 2).unwrap_err(),
        MetricChronoError::InvalidArgument("absolute metric requires len == 1")
    );
    assert_eq!(
        check_pair_metric(7, 1).unwrap_err(),
        MetricChronoError::InvalidArgument("unknown metric id")
    );
    assert_eq!(
        coverage_config_error(0, 0),
        Some("coverage state dimension must be > 0")
    );
    assert_eq!(coverage_config_error(2, 9), Some("unknown metric id"));
    assert_eq!(
        coverage_config_error(3, 1),
        Some("absolute metric requires dimension 1")
    );
    assert_eq!(coverage_config_error(1, 1), None);
    assert_eq!(consensus_matrix_len(2, 3, 3), Ok(6));
    assert_eq!(consensus_matrix_len(0, 3, 3), Err("rows and cols must be > 0"));
    assert_eq!(
        consensus_matrix_len(usize::MAX, 2, 3),
        Err("rows * cols overflow")
    );
    assert_eq!(
        consensus_matrix_len(2, 3, usize::MAX),
        Err("slice byte length exceeds isize::MAX")
    );
}
