use vstd::prelude::*;

verus! {

/// Joint operating regime of a window, from the throughput increment (path sum
/// of ticks) and the coverage increment (newly admitted representatives).
///
/// - `Quiescent`: neither grew.
/// - `Progress`: both grew.
/// - `Churn`: throughput without coverage.
/// - `Creep`: coverage without throughput.
#[derive(Clone, Copy, Debug, Eq, PartialEq, Structural)]
pub enum OperatingRegime {
    Quiescent,
    Progress,
    Churn,
    Creep,
}

/// The regime of a window in which throughput grew (`ticked`) or not, and
/// `coverage_delta` representatives were admitted.
pub open spec fn regime_of(ticked: bool, coverage_delta: nat) -> OperatingRegime {
    let covered = coverage_delta > 0;
    if !ticked && !covered {
        OperatingRegime::Quiescent
    } else if ticked && covered {
        OperatingRegime::Progress
    } else if ticked {
        OperatingRegime::Churn
    } else {
        OperatingRegime::Creep
    }
}

/// Classify a window from whether its throughput increment was positive and
/// from its coverage increment.
pub fn classify_regime(ticked: bool, coverage_delta: usize) -> (r: OperatingRegime)
    ensures
        r == regime_of(ticked, coverage_delta as nat),
{
    let covered = coverage_delta > 0;
    match (ticked, covered) {
        (false, false) => OperatingRegime::Quiescent,
        (true, true) => OperatingRegime::Progress,
        (true, false) => OperatingRegime::Churn,
        (false, true) => OperatingRegime::Creep,
    }
}

/// The four regimes are exhaustive and exclusive: each pair of signs maps to
/// exactly one regime, and every regime is the image of exactly one pair.
pub proof fn lemma_regimes_partition(ticked: bool, coverage_delta: nat)
    ensures
        (regime_of(ticked, coverage_delta) == OperatingRegime::Quiescent) <==> (!ticked
            && coverage_delta == 0),
        (regime_of(ticked, coverage_delta) == OperatingRegime::Progress) <==> (ticked
            && coverage_delta > 0),
        (regime_of(ticked, coverage_delta) == OperatingRegime::Churn) <==> (ticked
            && coverage_delta == 0),
        (regime_of(ticked, coverage_delta) == OperatingRegime::Creep) <==> (!ticked
            && coverage_delta > 0),
{
}

} // verus!
