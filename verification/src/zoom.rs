use vstd::prelude::*;

use crate::error::{MetricChronoError, Result};

verus! {

/// Result metadata for early-stop ladder evaluation.
#[derive(Clone, Copy, Debug, Eq, PartialEq, Structural)]
pub struct ZoomDecision {
    pub evaluated_tiers: usize,
    pub first_inactive_tier: Option<usize>,
    pub stopped_early: bool,
}

/// How deep a zoomed ladder evaluation may go.
#[derive(Clone, Copy, Debug, Eq, PartialEq, Structural)]
pub enum ZoomPolicy {
    FixedDepth(usize),
    EarlyStop,
    DepthCap(usize),
}

/// First tier below `limit` that is inactive (its epsilon above the distance).
pub open spec fn first_inactive(active: Seq<bool>, limit: nat) -> Option<nat>
    decreases limit,
{
    if limit == 0 {
        None
    } else {
        match first_inactive(active, (limit - 1) as nat) {
            Some(i) => Some(i),
            None => if !active[limit - 1] {
                Some((limit - 1) as nat)
            } else {
                None
            },
        }
    }
}

/// Last active tier, the coarsest one the distance reaches.
pub open spec fn last_active(active: Seq<bool>, end: nat) -> Option<nat>
    decreases end,
{
    if end == 0 {
        None
    } else if active[end - 1] {
        Some((end - 1) as nat)
    } else {
        last_active(active, (end - 1) as nat)
    }
}

/// Decision of an evaluation that stops at the first inactive tier below
/// `limit`, or evaluates all `limit` tiers.
pub open spec fn stop_decision(active: Seq<bool>, limit: nat) -> ZoomDecision {
    match first_inactive(active, limit) {
        Some(i) => ZoomDecision {
            evaluated_tiers: (i + 1) as usize,
            first_inactive_tier: Some(i as usize),
            stopped_early: true,
        },
        None => ZoomDecision {
            evaluated_tiers: limit as usize,
            first_inactive_tier: None,
            stopped_early: false,
        },
    }
}

/// The decision `d` evaluates tiers in order from the finest and stops at the
/// first inactive tier below `limit`: it names that tier, the smallest
/// inactive one, and counts it as evaluated; where every tier below `limit`
/// is active, it names none and counts all `limit` of them.
pub open spec fn stops_at_first_inactive(d: ZoomDecision, active: Seq<bool>, limit: nat) -> bool {
    &&& d.stopped_early == d.first_inactive_tier is Some
    &&& d.evaluated_tiers <= limit
    &&& match d.first_inactive_tier {
        Some(i) => {
            &&& i < limit
            &&& !active[i as int]
            &&& forall|j: int| 0 <= j < i ==> #[trigger] active[j]
            &&& d.evaluated_tiers == i + 1
        },
        None => {
            &&& forall|j: int| 0 <= j < limit ==> #[trigger] active[j]
            &&& d.evaluated_tiers == limit
        },
    }
}

/// Scan the first `limit` tiers and stop at the first inactive one.
fn scan_until_inactive(active: &[bool], limit: usize) -> (d: ZoomDecision)
    requires
        limit <= active@.len(),
    ensures
        d == stop_decision(active@, limit as nat),
        stops_at_first_inactive(d, active@, limit as nat),
{
    proof {
        lemma_stop_decision_scans_in_order(active@, limit as nat);
    }
    let mut index: usize = 0;
    while index < limit
        invariant
            limit <= active@.len(),
            index <= limit,
            first_inactive(active@, index as nat) is None,
        decreases limit - index,
    {
        if !active[index] {
            proof {
                lemma_first_inactive_stable(active@, (index + 1) as nat, limit as nat);
                lemma_stop_decision_scans_in_order(active@, limit as nat);
            }
            return ZoomDecision {
                evaluated_tiers: index + 1,
                first_inactive_tier: Some(index),
                stopped_early: true,
            };
        }
        index = index + 1;
    }
    ZoomDecision { evaluated_tiers: limit, first_inactive_tier: None, stopped_early: false }
}

proof fn lemma_first_inactive_stable(active: Seq<bool>, found: nat, limit: nat)
    requires
        found <= limit,
        first_inactive(active, found) is Some,
    ensures
        first_inactive(active, limit) == first_inactive(active, found),
    decreases limit,
{
    if limit > found {
        lemma_first_inactive_stable(active, found, (limit - 1) as nat);
    }
}

/// Decision of an adaptive ladder evaluation: tiers are evaluated in order
/// until the first inactive one, which is guaranteed to be followed only by
/// inactive tiers on a sorted ladder.
pub fn adaptive_plan(active: &[bool]) -> (d: ZoomDecision)
    ensures
        d == stop_decision(active@, active@.len()),
        stops_at_first_inactive(d, active@, active@.len()),
{
    scan_until_inactive(active, active.len())
}

/// Decision of a zoomed ladder evaluation under `policy`.
pub fn zoom_plan(active: &[bool], policy: ZoomPolicy) -> (r: Result<ZoomDecision>)
    ensures
        match policy {
            ZoomPolicy::FixedDepth(depth) => if depth > active@.len() {
                r == Err::<ZoomDecision, MetricChronoError>(
                    MetricChronoError::InvalidArgument("fixed depth exceeds ladder length"),
                )
            } else {
                r == Ok::<ZoomDecision, MetricChronoError>(
                    ZoomDecision {
                        evaluated_tiers: depth,
                        first_inactive_tier: None,
                        stopped_early: false,
                    },
                )
            },
            ZoomPolicy::EarlyStop => r == Ok::<ZoomDecision, MetricChronoError>(
                stop_decision(active@, active@.len()),
            ) && stops_at_first_inactive(r->Ok_0, active@, active@.len()),
            ZoomPolicy::DepthCap(cap) => if cap > active@.len() {
                r == Err::<ZoomDecision, MetricChronoError>(
                    MetricChronoError::InvalidArgument("depth cap exceeds ladder length"),
                )
            } else {
                r == Ok::<ZoomDecision, MetricChronoError>(stop_decision(active@, cap as nat))
                    && stops_at_first_inactive(r->Ok_0, active@, cap as nat)
            },
        },
{
    match policy {
        ZoomPolicy::FixedDepth(depth) => {
            if depth > active.len() {
                return Err(MetricChronoError::InvalidArgument("fixed depth exceeds ladder length"));
            }
            Ok(ZoomDecision { evaluated_tiers: depth, first_inactive_tier: None, stopped_early: false })
        },
        ZoomPolicy::EarlyStop => Ok(adaptive_plan(active)),
        ZoomPolicy::DepthCap(cap) => {
            if cap > active.len() {
                return Err(MetricChronoError::InvalidArgument("depth cap exceeds ladder length"));
            }
            Ok(scan_until_inactive(active, cap))
        },
    }
}

/// A small window of tiers around the coarsest active tier: `radius` tiers
/// on each side, clipped to the ladder.
pub fn zoom_window(active: &[bool], radius: usize) -> (r: Option<core::ops::Range<usize>>)
    requires
        last_active(active@, active@.len()) matches Some(c) ==> c + radius + 1 <= usize::MAX,
    ensures
        match last_active(active@, active@.len()) {
            None => r is None,
            Some(c) => r matches Some(w) && w.start == (if c >= radius {
                c - radius
            } else {
                0
            }) && w.end == (if c + radius + 1 <= active@.len() {
                c + radius + 1
            } else {
                active@.len() as int
            }),
        },
{
    let mut end = active.len();
    let mut center: Option<usize> = None;
    while end > 0
        invariant_except_break
            center is None,
            last_active(active@, active@.len()) == last_active(active@, end as nat),
        invariant
            end <= active@.len(),
        ensures
            last_active(active@, active@.len()) == (match center {
                Some(c) => Some(c as nat),
                None => None,
            }),
        decreases end,
    {
        if active[end - 1] {
            assert(last_active(active@, end as nat) == Some((end - 1) as nat));
            center = Some(end - 1);
            break;
        }
        end = end - 1;
    }
    match center {
        None => None,
        Some(c) => {
            let start = c.saturating_sub(radius);
            let reach = c + radius + 1;
            let stop = if reach <= active.len() { reach } else { active.len() };
            Some(start..stop)
        },
    }
}


proof fn lemma_first_inactive_facts(active: Seq<bool>, limit: nat)
    requires
        limit <= active.len(),
    ensures
        first_inactive(active, limit) matches Some(i) ==> i < limit && !active[i as int] && forall|
            j: int,
        |
            0 <= j < i ==> #[trigger] active[j],
        first_inactive(active, limit) is None ==> forall|j: int| 0 <= j < limit ==> #[trigger] active[j],
    decreases limit,
{
    if limit > 0 {
        lemma_first_inactive_facts(active, (limit - 1) as nat);
    }
}

proof fn lemma_last_active_facts(active: Seq<bool>, end: nat)
    requires
        end <= active.len(),
    ensures
        last_active(active, end) matches Some(c) ==> c < end && active[c as int] && forall|j: int|
            c < j < end ==> !#[trigger] active[j],
        last_active(active, end) is None ==> forall|j: int| 0 <= j < end ==> !#[trigger] active[j],
    decreases end,
{
    if end > 0 && !active[end - 1] {
        lemma_last_active_facts(active, (end - 1) as nat);
    }
}

/// A stopping decision over the first `limit` tiers names a tier exactly when
/// some tier below `limit` is inactive, and then names the smallest such tier;
/// it stops early exactly when it names one, evaluates that tier and those
/// before it, and never evaluates more than `limit` tiers.
pub proof fn lemma_stop_decision_scans_in_order(active: Seq<bool>, limit: nat)
    requires
        limit <= active.len(),
        limit <= usize::MAX,
    ensures
        stop_decision(active, limit).stopped_early == stop_decision(
            active,
            limit,
        ).first_inactive_tier is Some,
        stop_decision(active, limit).evaluated_tiers <= limit,
        stop_decision(active, limit).first_inactive_tier matches Some(i) ==> {
            &&& i < limit
            &&& !active[i as int]
            &&& forall|j: int| 0 <= j < i ==> #[trigger] active[j]
            &&& stop_decision(active, limit).evaluated_tiers == i + 1
        },
        stop_decision(active, limit).first_inactive_tier is None <==> forall|j: int|
            0 <= j < limit ==> #[trigger] active[j],
        stop_decision(active, limit).first_inactive_tier is None ==> stop_decision(
            active,
            limit,
        ).evaluated_tiers == limit,
{
    lemma_first_inactive_facts(active, limit);
}

/// A stopping decision over the first `limit` tiers depends on the activity
/// of those tiers alone: two ladders that agree on them get the same decision.
pub proof fn lemma_stop_decision_reads_only_prefix(a: Seq<bool>, b: Seq<bool>, limit: nat)
    requires
        limit <= a.len(),
        limit <= b.len(),
        forall|j: int| 0 <= j < limit ==> a[j] == b[j],
    ensures
        stop_decision(a, limit) == stop_decision(b, limit),
{
    lemma_first_inactive_prefix(a, b, limit);
}

proof fn lemma_first_inactive_prefix(a: Seq<bool>, b: Seq<bool>, limit: nat)
    requires
        limit <= a.len(),
        limit <= b.len(),
        forall|j: int| 0 <= j < limit ==> a[j] == b[j],
    ensures
        first_inactive(a, limit) == first_inactive(b, limit),
    decreases limit,
{
    if limit > 0 {
        lemma_first_inactive_prefix(a, b, (limit - 1) as nat);
    }
}

/// On a ladder whose active tiers form a prefix (sorted epsilons), stopping at
/// the first inactive tier skips only inactive tiers, and the coarsest active
/// tier is the one just before it.
pub proof fn lemma_early_stop_skips_only_inactive(active: Seq<bool>)
    requires
        forall|i: int, j: int| 0 <= i < j < active.len() && #[trigger] active[j] ==> #[trigger] active[i],
    ensures
        first_inactive(active, active.len()) matches Some(i) ==> {
            &&& forall|j: int| i <= j < active.len() ==> !#[trigger] active[j]
            &&& (i == 0 ==> last_active(active, active.len()) is None)
            &&& (i > 0 ==> last_active(active, active.len()) == Some((i - 1) as nat))
        },
        first_inactive(active, active.len()) is None ==> (active.len() == 0 || last_active(
            active,
            active.len(),
        ) == Some((active.len() - 1) as nat)),
{
    lemma_first_inactive_facts(active, active.len());
    lemma_last_active_facts(active, active.len());
    match first_inactive(active, active.len()) {
        Some(i) => {
            assert forall|j: int| i <= j < active.len() implies !#[trigger] active[j] by {
                if active[j] && j > i {
                    assert(active[i as int]);
                }
            }
            match last_active(active, active.len()) {
                Some(c) => {
                    if c >= i {
                        assert(!active[c as int]);
                    }
                    if c + 1 < i {
                        assert(active[(c + 1) as int]);
                    }
                },
                None => {
                    if i > 0 {
                        assert(active[0]);
                    }
                },
            }
        },
        None => {
            if active.len() > 0 {
                assert(active[active.len() - 1]);
            }
        },
    }
}

} // verus!
