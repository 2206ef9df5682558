use vstd::prelude::*;

verus! {

/// Function-backed metric adapter.
#[derive(Clone, Copy)]
pub struct MetricFn<F>(pub F);

/// Absolute difference of two scalars.
#[derive(Clone, Copy, Debug, Default)]
pub struct Absolute;

/// Euclidean (L2) distance of two vectors.
#[derive(Clone, Copy, Debug, Default)]
pub struct Euclidean;

/// Squared Euclidean distance of two vectors.
#[derive(Clone, Copy, Debug, Default)]
pub struct SquaredEuclidean;

/// Manhattan (L1) distance of two vectors.
#[derive(Clone, Copy, Debug, Default)]
pub struct Manhattan;

/// Cosine distance `1 - cos(a, b)` of two vectors.
#[derive(Clone, Copy, Debug, Default)]
pub struct Cosine;

} // verus!
