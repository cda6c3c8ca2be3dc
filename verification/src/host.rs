//! What the library asks of its host.

use vstd::prelude::*;
use crate::config::execution::ExecutionMode;
use crate::distance::DistanceMetric;
use crate::metadata::MetadataScalar;
use crate::query::Rank;
use crate::quantization::QuantizedVector;
use crate::score::Score;

verus! {

/// The host of a collection: the clock, the random source and the
/// floating-point kernels. The library promises nothing about what these
/// return and relies on nothing: whatever it states of its own results holds
/// for every host.
pub trait Host {
    /// A query vector in the host's own form, full precision.
    type Query;

    /// How two numbers compare of which at least one is a float. The floats
    /// come as the bits of double-precision values.
    fn number_order(&self, a: &MetadataScalar, b: &MetadataScalar) -> Rank;

    /// Seconds since the Unix epoch.
    fn now_secs(&self) -> u64;

    /// Number of components of a query.
    fn query_dim(&self, query: &Self::Query) -> usize;

    /// The similarity of two stored vectors under `metric`.
    fn similarity(
        &self,
        metric: DistanceMetric,
        mode: ExecutionMode,
        a: &QuantizedVector,
        b: &QuantizedVector,
    ) -> Score;

    /// The similarity of a query and a stored vector under `metric`.
    fn query_similarity(
        &self,
        metric: DistanceMetric,
        mode: ExecutionMode,
        query: &Self::Query,
        v: &QuantizedVector,
    ) -> Score;

    /// The layer of a new node of a graph index: `floor(-ln(u) * ml)` for a
    /// `u` drawn uniformly from (0, 1], where `ml` is given as the bits of a
    /// single-precision float.
    fn draw_layer(&self, ml: u32) -> usize;

    /// The mean of the vectors, component by component. It is asked for
    /// the mean of one vector at least.
    fn mean(&self, members: &Vec<QuantizedVector>) -> QuantizedVector;
}


/// What a search compares the stored vectors with: a query of the host, or
/// one of the stored vectors.
pub enum Probe<'a, Q> {
    Query(&'a Q),
    Stored(&'a QuantizedVector),
}

/// The similarity of a probe and a stored vector under `metric`, as the host
/// computes it.
pub fn probe_similarity<H: Host>(
    host: &H,
    metric: DistanceMetric,
    mode: ExecutionMode,
    probe: &Probe<'_, H::Query>,
    v: &QuantizedVector,
) -> (r: Score) {
    match probe {
        Probe::Query(q) => host.query_similarity(metric, mode, q, v),
        Probe::Stored(s) => host.similarity(metric, mode, s, v),
    }
}

} // verus!
