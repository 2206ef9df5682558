use vstd::prelude::*;

use crate::error::{ensure_output, ensure_shape, MetricChronoError, Result};

verus! {

/// First source, in order, whose length differs from `tiers`.
pub open spec fn first_mismatch(lens: Seq<usize>, tiers: usize, from: nat) -> Option<nat>
    decreases lens.len() - from,
{
    if from >= lens.len() {
        None
    } else if lens[from as int] != tiers {
        Some(from)
    } else {
        first_mismatch(lens, tiers, from + 1)
    }
}

/// Outcome of the shape checks of a weighted consensus over sources of
/// lengths `lens`, with `weights_len` weights and an output of `out_len`.
pub open spec fn consensus_shape_spec(lens: Seq<usize>, weights_len: usize, out_len: usize) -> Result<usize> {
    if lens.len() == 0 {
        Err(MetricChronoError::InvalidArgument("at least one source is required"))
    } else if lens.len() != weights_len {
        Err(
            MetricChronoError::ShapeMismatch {
                expected: lens.len() as usize,
                actual: weights_len,
                context: "source weights",
            },
        )
    } else if lens[0] == 0 {
        Err(MetricChronoError::EmptyLadder)
    } else if out_len < lens[0] {
        Err(MetricChronoError::OutputTooSmall { needed: lens[0], actual: out_len })
    } else {
        match first_mismatch(lens, lens[0], 0) {
            Some(i) => Err(
                MetricChronoError::ShapeMismatch {
                    expected: lens[0],
                    actual: lens[i as int],
                    context: "tick vector",
                },
            ),
            None => Ok(lens[0]),
        }
    }
}

/// The first mismatch from `from` on is the smallest index at or after `from`
/// whose length differs from `tiers`; there is none exactly when every length
/// from `from` on equals `tiers`.
pub proof fn lemma_first_mismatch_is_smallest(lens: Seq<usize>, tiers: usize, from: nat)
    requires
        from <= lens.len(),
    ensures
        first_mismatch(lens, tiers, from) matches Some(i) ==> {
            &&& from <= i < lens.len()
            &&& lens[i as int] != tiers
            &&& forall|j: int| from <= j < i ==> #[trigger] lens[j] == tiers
        },
        first_mismatch(lens, tiers, from) is None <==> forall|j: int|
            from <= j < lens.len() ==> #[trigger] lens[j] == tiers,
    decreases lens.len() - from,
{
    if from < lens.len() && lens[from as int] == tiers {
        lemma_first_mismatch_is_smallest(lens, tiers, from + 1);
    }
}

/// The shape checks accept exactly the inputs with at least one source, one
/// weight per source, a non-empty first source, room for its tiers in the
/// output, and every source as long as the first; on acceptance they give the
/// number of tiers. Where the first four hold and some source differs in
/// length, they name the first such source.
pub proof fn lemma_consensus_shape_accepts_uniform_sources(
    lens: Seq<usize>,
    weights_len: usize,
    out_len: usize,
)
    ensures
        consensus_shape_spec(lens, weights_len, out_len) is Ok <==> {
            &&& lens.len() > 0
            &&& lens.len() == weights_len
            &&& lens[0] > 0
            &&& out_len >= lens[0]
            &&& forall|i: int| 0 <= i < lens.len() ==> #[trigger] lens[i] == lens[0]
        },
        consensus_shape_spec(lens, weights_len, out_len) matches Ok(t) ==> t == lens[0],
        lens.len() > 0 && lens.len() == weights_len && lens[0] > 0 && out_len >= lens[0] && (exists|
            i: int,
        |
            0 <= i < lens.len() && #[trigger] lens[i] != lens[0]) ==> exists|i: int|
            {
                &&& 0 <= i < lens.len()
                &&& #[trigger] lens[i] != lens[0]
                &&& forall|j: int| 0 <= j < i ==> #[trigger] lens[j] == lens[0]
                &&& consensus_shape_spec(lens, weights_len, out_len) == Err::<
                    usize,
                    MetricChronoError,
                >(
                    MetricChronoError::ShapeMismatch {
                        expected: lens[0],
                        actual: lens[i],
                        context: "tick vector",
                    },
                )
            },
{
    if lens.len() > 0 {
        lemma_first_mismatch_is_smallest(lens, lens[0], 0);
        match first_mismatch(lens, lens[0], 0) {
            Some(i) => {
                assert(lens[i as int] != lens[0]);
            },
            None => {},
        }
    }
}

/// Shape checks of a weighted consensus, in the order the consensus makes
/// them; on success, the number of tiers.
pub fn consensus_shape(lens: &[usize], weights_len: usize, out_len: usize) -> (r: Result<usize>)
    ensures
        r == consensus_shape_spec(lens@, weights_len, out_len),
        r is Ok <==> {
            &&& lens@.len() > 0
            &&& lens@.len() == weights_len
            &&& lens@[0] > 0
            &&& out_len >= lens@[0]
            &&& forall|i: int| 0 <= i < lens@.len() ==> #[trigger] lens@[i] == lens@[0]
        },
        r matches Ok(t) ==> t == lens@[0],
        lens@.len() > 0 && lens@.len() == weights_len && lens@[0] > 0 && out_len >= lens@[0]
            && (exists|i: int| 0 <= i < lens@.len() && #[trigger] lens@[i] != lens@[0]) ==> exists|
            i: int,
        |
            {
                &&& 0 <= i < lens@.len()
                &&& #[trigger] lens@[i] != lens@[0]
                &&& forall|j: int| 0 <= j < i ==> #[trigger] lens@[j] == lens@[0]
                &&& r == Err::<usize, MetricChronoError>(
                    MetricChronoError::ShapeMismatch {
                        expected: lens@[0],
                        actual: lens@[i],
                        context: "tick vector",
                    },
                )
            },
{
    proof {
        lemma_consensus_shape_accepts_uniform_sources(lens@, weights_len, out_len);
    }
    if lens.len() == 0 {
        return Err(MetricChronoError::InvalidArgument("at least one source is required"));
    }
    ensure_shape(lens.len(), weights_len, "source weights")?;
    let tiers = lens[0];
    if tiers == 0 {
        return Err(MetricChronoError::EmptyLadder);
    }
    ensure_output(tiers, out_len)?;
    let mut i: usize = 0;
    while i < lens.len()
        invariant
            i <= lens@.len(),
            lens@.len() > 0,
            lens@.len() == weights_len,
            tiers > 0,
            out_len >= tiers,
            tiers == lens@[0],
            first_mismatch(lens@, tiers, 0) == first_mismatch(lens@, tiers, i as nat),
        decreases lens@.len() - i,
    {
        let len = lens[i];
        if len != tiers {
            assert(first_mismatch(lens@, tiers, i as nat) == Some(i as nat));
            proof {
                lemma_first_mismatch_is_smallest(lens@, tiers, 0);
                assert(lens@[i as int] != lens@[0]);
            }
            return Err(
                MetricChronoError::ShapeMismatch {
                    expected: tiers,
                    actual: len,
                    context: "tick vector",
                },
            );
        }
        i = i + 1;
    }
    Ok(tiers)
}

/// Shape checks that open a tier-wise consensus: at least one source, one
/// weight row per source, non-empty sources and room for the output; on
/// success, the number of tiers. Each source and weight row is checked again
/// as the consensus reaches it.
pub fn tierwise_consensus_shape(lens: &[usize], weight_rows: usize, out_len: usize) -> (r: Result<
    usize,
>)
    ensures
        lens@.len() == 0 ==> r == Err::<usize, MetricChronoError>(
            MetricChronoError::InvalidArgument("at least one source is required"),
        ),
        lens@.len() > 0 && lens@.len() != weight_rows ==> r == Err::<usize, MetricChronoError>(
            MetricChronoError::ShapeMismatch {
                expected: lens@.len() as usize,
                actual: weight_rows,
                context: "source tier weights",
            },
        ),
        lens@.len() > 0 && lens@.len() == weight_rows && lens@[0] == 0 ==> r == Err::<
            usize,
            MetricChronoError,
        >(MetricChronoError::EmptyLadder),
        lens@.len() > 0 && lens@.len() == weight_rows && lens@[0] > 0 && out_len < lens@[0] ==> r
            == Err::<usize, MetricChronoError>(
            MetricChronoError::OutputTooSmall { needed: lens@[0], actual: out_len },
        ),
        r is Ok <==> lens@.len() > 0 && lens@.len() == weight_rows && lens@[0] > 0 && out_len
            >= lens@[0],
        r matches Ok(t) ==> t == lens@[0],
{
    if lens.len() == 0 {
        return Err(MetricChronoError::InvalidArgument("at least one source is required"));
    }
    ensure_shape(lens.len(), weight_rows, "source tier weights")?;
    let tiers = lens[0];
    if tiers == 0 {
        return Err(MetricChronoError::EmptyLadder);
    }
    ensure_output(tiers, out_len)?;
    Ok(tiers)
}

} // verus!
