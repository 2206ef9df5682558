//! Verified core of MetricChrono: the integer and structural logic behind the
//! epsilon-delta-p tick ladder (promotion counters, event skip-lists, zoom
//! planning, greedy packings, guarded histories and status bookkeeping).

pub mod ambient;
pub mod consensus;
pub mod coverage;
pub mod error;
pub mod event_log;
pub mod ffi;
pub mod geometry;
pub mod ladder;
pub mod metrics;
pub mod zoom;

pub use ambient::{GuardedWindow, Ring};
pub use consensus::{consensus_shape, tierwise_consensus_shape};
pub use coverage::{classify_regime, OperatingRegime};
pub use error::{ensure_output, ensure_schema, ensure_shape, MetricChronoError, Result};
pub use event_log::{EventId, EventLog, EventRecord};
pub use ffi::{
    error_message_for_code, normalization_from_id, regime_code, status_message, LastError,
    MCPromotionCounter, MCStatus, MCZoomDecision,
};
pub use geometry::{branching_number, greedy_packing, greedy_packing_among, radial_sort};
pub use ladder::{Normalization, PromotionCounter};
pub use metrics::{Absolute, Cosine, Euclidean, Manhattan, MetricFn, SquaredEuclidean};
pub use zoom::{adaptive_plan, zoom_plan, zoom_window, ZoomDecision, ZoomPolicy};
