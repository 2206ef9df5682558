use vstd::prelude::*;
use vstd::string::*;
use vstd::utf8::encode_utf8;

use crate::coverage::OperatingRegime;
use crate::error::{error_message, MetricChronoError, Result};
use crate::ladder::{Normalization, PromotionCounter};
use crate::zoom::ZoomDecision;

verus! {

/// Metric identifier of the Euclidean metric across the C ABI.
pub const MC_METRIC_EUCLIDEAN: i32 = 0;

/// Metric identifier of the absolute-difference metric across the C ABI.
pub const MC_METRIC_ABSOLUTE: i32 = 1;

pub const MC_REGIME_QUIESCENT: i32 = 0;

pub const MC_REGIME_PROGRESS: i32 = 1;

pub const MC_REGIME_CHURN: i32 = 2;

pub const MC_REGIME_CREEP: i32 = 3;

pub const MC_NORMALIZATION_NONE: i32 = 0;

pub const MC_NORMALIZATION_UNIT_MAX: i32 = 1;

pub const MC_NORMALIZATION_TANH: i32 = 2;

/// Status of a C ABI call.
#[derive(Clone, Copy, Debug, Eq, PartialEq, Structural)]
pub enum MCStatus {
    Success,
    Null,
    InvalidArgument,
    BufferTooSmall,
    Panic,
}

/// Numeric code of a status across the C ABI.
pub open spec fn status_code_spec(status: MCStatus) -> i32 {
    match status {
        MCStatus::Success => 0,
        MCStatus::Null => 1,
        MCStatus::InvalidArgument => 2,
        MCStatus::BufferTooSmall => 3,
        MCStatus::Panic => 255,
    }
}

/// Fixed message of a status.
pub open spec fn status_message_spec(status: MCStatus) -> Seq<char> {
    match status {
        MCStatus::Success => "ok"@,
        MCStatus::Null => "null pointer"@,
        MCStatus::InvalidArgument => "invalid argument"@,
        MCStatus::BufferTooSmall => "buffer too small"@,
        MCStatus::Panic => "panic"@,
    }
}

impl MCStatus {
    /// Numeric code of the status across the C ABI.
    pub fn code(self) -> (c: i32)
        ensures
            c == status_code_spec(self),
    {
        match self {
            MCStatus::Success => 0,
            MCStatus::Null => 1,
            MCStatus::InvalidArgument => 2,
            MCStatus::BufferTooSmall => 3,
            MCStatus::Panic => 255,
        }
    }
}

/// Fixed message of a status.
pub fn status_message(status: MCStatus) -> (m: &'static str)
    ensures
        m@ == status_message_spec(status),
{
    match status {
        MCStatus::Success => "ok",
        MCStatus::Null => "null pointer",
        MCStatus::InvalidArgument => "invalid argument",
        MCStatus::BufferTooSmall => "buffer too small",
        MCStatus::Panic => "panic",
    }
}

/// Message of a numeric status code; codes that name no status read
/// "unknown status".
pub fn error_message_for_code(code: i32) -> (m: &'static str)
    ensures
        code == 0 ==> m@ == "ok"@,
        code == 1 ==> m@ == "null pointer"@,
        code == 2 ==> m@ == "invalid argument"@,
        code == 3 ==> m@ == "buffer too small"@,
        code == 255 ==> m@ == "panic"@,
        code != 0 && code != 1 && code != 2 && code != 3 && code != 255 ==> m@
            == "unknown status"@,
{
    match code {
        0 => "ok",
        1 => "null pointer",
        2 => "invalid argument",
        3 => "buffer too small",
        255 => "panic",
        _ => "unknown status",
    }
}

/// Normalization mode of a C ABI identifier.
pub fn normalization_from_id(id: i32) -> (r: Result<Normalization>)
    ensures
        id == MC_NORMALIZATION_NONE ==> r == Ok::<Normalization, MetricChronoError>(
            Normalization::Unchanged,
        ),
        id == MC_NORMALIZATION_UNIT_MAX ==> r == Ok::<Normalization, MetricChronoError>(
            Normalization::UnitMax,
        ),
        id == MC_NORMALIZATION_TANH ==> r == Ok::<Normalization, MetricChronoError>(
            Normalization::Tanh,
        ),
        id != MC_NORMALIZATION_NONE && id != MC_NORMALIZATION_UNIT_MAX && id
            != MC_NORMALIZATION_TANH ==> r == Err::<Normalization, MetricChronoError>(
            MetricChronoError::InvalidArgument("unknown normalization id"),
        ),
{
    match id {
        MC_NORMALIZATION_NONE => Ok(Normalization::Unchanged),
        MC_NORMALIZATION_UNIT_MAX => Ok(Normalization::UnitMax),
        MC_NORMALIZATION_TANH => Ok(Normalization::Tanh),
        _ => Err(MetricChronoError::InvalidArgument("unknown normalization id")),
    }
}

/// Numeric code of an operating regime across the C ABI.
pub fn regime_code(regime: OperatingRegime) -> (c: i32)
    ensures
        regime == OperatingRegime::Quiescent ==> c == MC_REGIME_QUIESCENT,
        regime == OperatingRegime::Progress ==> c == MC_REGIME_PROGRESS,
        regime == OperatingRegime::Churn ==> c == MC_REGIME_CHURN,
        regime == OperatingRegime::Creep ==> c == MC_REGIME_CREEP,
{
    match regime {
        OperatingRegime::Quiescent => MC_REGIME_QUIESCENT,
        OperatingRegime::Progress => MC_REGIME_PROGRESS,
        OperatingRegime::Churn => MC_REGIME_CHURN,
        OperatingRegime::Creep => MC_REGIME_CREEP,
    }
}

/// Check of a pair-metric request: a known metric, and the absolute metric
/// only on scalars.
pub fn check_pair_metric(metric_id: i32, len: usize) -> (r: Result<()>)
    ensures
        metric_id != MC_METRIC_EUCLIDEAN && metric_id != MC_METRIC_ABSOLUTE ==> r == Err::<
            (),
            MetricChronoError,
        >(MetricChronoError::InvalidArgument("unknown metric id")),
        metric_id == MC_METRIC_ABSOLUTE && len != 1 ==> r == Err::<(), MetricChronoError>(
            MetricChronoError::InvalidArgument("absolute metric requires len == 1"),
        ),
        r is Ok <==> (metric_id == MC_METRIC_EUCLIDEAN || (metric_id == MC_METRIC_ABSOLUTE && len
            == 1)),
{
    if metric_id != MC_METRIC_EUCLIDEAN && metric_id != MC_METRIC_ABSOLUTE {
        return Err(MetricChronoError::InvalidArgument("unknown metric id"));
    }
    if metric_id == MC_METRIC_ABSOLUTE && len != 1 {
        return Err(MetricChronoError::InvalidArgument("absolute metric requires len == 1"));
    }
    Ok(())
}

/// Reason a built-in coverage-meter configuration is refused, if it is.
pub fn coverage_config_error(dim: usize, metric_id: i32) -> (r: Option<&'static str>)
    ensures
        dim == 0 ==> r == Some("coverage state dimension must be > 0"),
        dim != 0 && metric_id != MC_METRIC_EUCLIDEAN && metric_id != MC_METRIC_ABSOLUTE ==> r
            == Some("unknown metric id"),
        dim != 0 && metric_id == MC_METRIC_ABSOLUTE && dim != 1 ==> r == Some(
            "absolute metric requires dimension 1",
        ),
        r is None <==> dim != 0 && (metric_id == MC_METRIC_EUCLIDEAN || (metric_id
            == MC_METRIC_ABSOLUTE && dim == 1)),
{
    if dim == 0 {
        return Some("coverage state dimension must be > 0");
    }
    if metric_id != MC_METRIC_EUCLIDEAN && metric_id != MC_METRIC_ABSOLUTE {
        return Some("unknown metric id");
    }
    if metric_id == MC_METRIC_ABSOLUTE && dim != 1 {
        return Some("absolute metric requires dimension 1");
    }
    None
}

/// Largest number of `f64` values a slice can hold (its byte length must fit
/// in `isize`).
pub fn max_f64_slice_len() -> (n: usize)
    ensures
        n == isize::MAX / 8,
{
    (isize::MAX as usize) / 8
}

/// Length of a `rows x cols` matrix of `f64` values handed across the C ABI,
/// or the reason it is refused.
pub fn consensus_matrix_len(rows: usize, cols: usize, out_len: usize) -> (r: core::result::Result<
    usize,
    &'static str,
>)
    ensures
        (rows == 0 || cols == 0) ==> r == Err::<usize, &'static str>("rows and cols must be > 0"),
        rows > 0 && cols > 0 && rows * cols > usize::MAX ==> r == Err::<usize, &'static str>(
            "rows * cols overflow",
        ),
        rows > 0 && cols > 0 && rows * cols <= usize::MAX && (rows * cols > isize::MAX / 8 || out_len
            > isize::MAX / 8) ==> r == Err::<usize, &'static str>(
            "slice byte length exceeds isize::MAX",
        ),
        r is Ok <==> rows > 0 && cols > 0 && rows * cols <= isize::MAX / 8 && out_len <= isize::MAX
            / 8,
        r matches Ok(n) ==> n == rows * cols,
{
    if rows == 0 || cols == 0 {
        return Err("rows and cols must be > 0");
    }
    let vector_len = match rows.checked_mul(cols) {
        Some(n) => n,
        None => {
            return Err("rows * cols overflow");
        },
    };
    let max = max_f64_slice_len();
    if vector_len > max || out_len > max {
        return Err("slice byte length exceeds isize::MAX");
    }
    Ok(vector_len)
}

/// Early-stop decision in C layout: an absent first inactive tier reads as
/// `has_first_inactive_tier == false` with index 0.
#[derive(Clone, Copy, Debug)]
pub struct MCZoomDecision {
    pub evaluated_tiers: usize,
    pub first_inactive_tier: usize,
    pub has_first_inactive_tier: bool,
    pub stopped_early: bool,
}

impl MCZoomDecision {
    /// C layout of a zoom decision.
    pub fn from_decision(d: ZoomDecision) -> (c: Self)
        ensures
            c.evaluated_tiers == d.evaluated_tiers,
            c.has_first_inactive_tier == d.first_inactive_tier is Some,
            c.first_inactive_tier == (match d.first_inactive_tier {
                Some(i) => i,
                None => 0,
            }),
            c.stopped_early == d.stopped_early,
    {
        MCZoomDecision {
            evaluated_tiers: d.evaluated_tiers,
            first_inactive_tier: match d.first_inactive_tier {
                Some(i) => i,
                None => 0,
            },
            has_first_inactive_tier: d.first_inactive_tier.is_some(),
            stopped_early: d.stopped_early,
        }
    }
}

/// Promotion counter handed across the C ABI.
pub struct MCPromotionCounter {
    pub inner: PromotionCounter,
}

/// Last error message of a thread, and whether the current call already set
/// it.
#[derive(Clone, Debug)]
pub struct LastError {
    message: Vec<u8>,
    set_in_call: bool,
}

impl LastError {
    /// Bytes of the last error message.
    pub closed spec fn bytes(&self) -> Seq<u8> {
        self.message@
    }

    /// Whether the current call has set the message.
    pub closed spec fn set_in_this_call(&self) -> bool {
        self.set_in_call
    }

    /// An empty slot: no message, no call in progress.
    pub fn new() -> (s: Self)
        ensures
            s.bytes() == Seq::<u8>::empty(),
            !s.set_in_this_call(),
    {
        LastError { message: Vec::new(), set_in_call: false }
    }

    /// Mark the start of a C ABI call.
    pub fn begin_ffi_call(&mut self)
        ensures
            final(self).bytes() == old(self).bytes(),
            !final(self).set_in_this_call(),
    {
        self.set_in_call = false;
    }

    /// Record `message` as the last error of this call.
    pub fn set_last_error(&mut self, message: &str)
        ensures
            final(self).bytes() == message.spec_bytes(),
            final(self).set_in_this_call(),
    {
        self.message = message.as_bytes_vec();
        self.set_in_call = true;
    }

    /// Finish a call: a failing status whose call set no message records the
    /// status's own message.
    pub fn finish_status(&mut self, status: MCStatus) -> (r: MCStatus)
        ensures
            r == status,
            status != MCStatus::Success && !old(self).set_in_this_call() ==> {
                &&& final(self).bytes() == encode_utf8(status_message_spec(status))
                &&& final(self).set_in_this_call()
            },
            status == MCStatus::Success || old(self).set_in_this_call() ==> *final(self) == *old(self),
    {
        if status != MCStatus::Success {
            if !self.set_in_call {
                self.set_last_error(status_message(status));
            }
        }
        status
    }

    /// Status of an error, after recording its message: a too-small output
    /// buffer is `BufferTooSmall`, anything else `InvalidArgument`.
    pub fn status_from_error(&mut self, error: MetricChronoError) -> (r: MCStatus)
        ensures
            r == (if error is OutputTooSmall {
                MCStatus::BufferTooSmall
            } else {
                MCStatus::InvalidArgument
            }),
            final(self).bytes() == encode_utf8(error_message(error)),
            final(self).set_in_this_call(),
    {
        let status = match error {
            MetricChronoError::OutputTooSmall { .. } => MCStatus::BufferTooSmall,
            _ => MCStatus::InvalidArgument,
        };
        let message = error.message();
        self.set_last_error(message.as_str());
        status
    }

    /// `InvalidArgument`, recording the reason.
    pub fn invalid_argument(&mut self, message: &'static str) -> (r: MCStatus)
        ensures
            r == MCStatus::InvalidArgument,
            final(self).bytes() == encode_utf8(
                error_message(MetricChronoError::InvalidArgument(message)),
            ),
            final(self).set_in_this_call(),
    {
        self.status_from_error(MetricChronoError::InvalidArgument(message))
    }

    /// `BufferTooSmall`, recording the sizes.
    pub fn buffer_too_small(&mut self, needed: usize, actual: usize) -> (r: MCStatus)
        ensures
            r == MCStatus::BufferTooSmall,
            final(self).bytes() == encode_utf8(
                error_message(MetricChronoError::OutputTooSmall { needed, actual }),
            ),
            final(self).set_in_this_call(),
    {
        self.status_from_error(MetricChronoError::OutputTooSmall { needed, actual })
    }

    /// `Ok` for a success, the error's status (recording its message) for a
    /// failure.
    pub fn status_of<T>(&mut self, r: Result<T>) -> (s: MCStatus)
        ensures
            r is Ok ==> s == MCStatus::Success && *final(self) == *old(self),
            r matches Err(e) ==> {
                &&& s == (if e is OutputTooSmall {
                    MCStatus::BufferTooSmall
                } else {
                    MCStatus::InvalidArgument
                })
                &&& final(self).bytes() == encode_utf8(error_message(e))
                &&& final(self).set_in_this_call()
            },
    {
        match r {
            Ok(_) => MCStatus::Success,
            Err(e) => self.status_from_error(e),
        }
    }

    /// Length of the message with its terminating NUL byte.
    pub fn len_with_nul(&self) -> (n: usize)
        requires
            self.bytes().len() < usize::MAX,
        ensures
            n == self.bytes().len() + 1,
    {
        self.message.len() + 1
    }

    /// Copy the NUL-terminated message into `buf`, which must hold it.
    pub fn copy_message(&self, buf: &mut [u8])
        requires
            old(buf)@.len() > self.bytes().len(),
        ensures
            final(buf)@.len() == old(buf)@.len(),
            final(buf)@.subrange(0, self.bytes().len() as int) == self.bytes(),
            final(buf)@[self.bytes().len() as int] == 0,
            final(buf)@.subrange(self.bytes().len() + 1int, old(buf)@.len() as int) == old(
                buf,
            )@.subrange(self.bytes().len() + 1int, old(buf)@.len() as int),
    {
        let n = self.message.len();
        let mut i: usize = 0;
        while i < n
            invariant
                n == self.message@.len(),
                buf@.len() == old(buf)@.len(),
                n < buf@.len(),
                i <= n,
                forall|j: int| 0 <= j < i ==> buf@[j] == self.message@[j],
                forall|j: int| i <= j < buf@.len() ==> buf@[j] == old(buf)@[j],
            decreases n - i,
        {
            buf[i] = self.message[i];
            i = i + 1;
        }
        buf[n] = 0;
        assert(buf@.subrange(0, n as int) =~= self.message@);
        assert(buf@.subrange(n + 1, old(buf)@.len() as int) =~= old(buf)@.subrange(
            n + 1,
            old(buf)@.len() as int,
        ));
    }
}

} // verus!
