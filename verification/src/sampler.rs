//! Drawing the layer of a new point.
//!
//! A layer is drawn by comparing uniformly random bits with a table of
//! thresholds: the layer is the number of leading thresholds
//! that the bits lie below. With the threshold of layer `j` at the
//! fraction `exp(-(j + 1) / m)` of the range of the bits, layers follow
//! the exponential distribution with level multiplier `m`, cut off at
//! `MAX_LAYERS`.

use vstd::prelude::*;
use crate::error::IndexError;
use crate::index::{Index, MAX_LAYERS};

verus! {

/// `layer` is what `bits` draws from `thresholds`: the number of leading
/// thresholds above `bits`, at most `MAX_LAYERS`.
pub open spec fn is_layer_of(bits: u64, thresholds: Seq<u64>, layer: usize) -> bool {
    &&& layer <= MAX_LAYERS
    &&& layer <= thresholds.len()
    &&& forall|j: int| 0 <= j < layer ==> bits < #[trigger] thresholds[j]
    &&& (layer < MAX_LAYERS && layer < thresholds.len() ==> bits >= thresholds[layer as int])
}

/// The layer that `bits` draws from `thresholds`.
pub fn layer_of_draw(bits: u64, thresholds: &Vec<u64>) -> (layer: usize)
    ensures
        is_layer_of(bits, thresholds@, layer),
{
    let mut layer: usize = 0;
    while layer < MAX_LAYERS && layer < thresholds.len() && bits < thresholds[layer]
        invariant
            layer <= MAX_LAYERS,
            layer <= thresholds@.len(),
            forall|j: int| 0 <= j < layer ==> bits < #[trigger] thresholds@[j],
        decreases MAX_LAYERS - layer,
    {
        layer = layer + 1;
    }
    layer
}

/// Sixty-four random bits from `rand`'s thread-local generator
/// (`Rng::gen` on `thread_rng()`). Nothing is claimed of them. The call
/// returns unless the system cannot seed the generator.
#[verifier::external_body]
fn random_bits() -> (bits: u64) {
    rand::Rng::gen::<u64>(&mut rand::thread_rng())
}

/// Draws a layer at random from `thresholds`.
pub fn sample_layer(thresholds: &Vec<u64>) -> (layer: usize)
    ensures
        layer <= MAX_LAYERS,
        layer <= thresholds@.len(),
        exists|bits: u64| is_layer_of(bits, thresholds@, layer),
{
    let bits = random_bits();
    let layer = layer_of_draw(bits, thresholds);
    assert(is_layer_of(bits, thresholds@, layer));
    layer
}

impl Index {
    /// Inserts `vector` at a layer drawn at random from the thresholds of
    /// the index.
    ///
    /// Whether the vector is accepted does not depend on the draw. An
    /// accepted vector is inserted as `insert` does it, at a layer that
    /// some draw gives.
    pub fn insert_sampled(
        &mut self,
        vector: Vec<i32>,
        max_neighbors: usize,
    ) -> (r: Result<usize, IndexError>)
        requires
            old(self).wf(),
        ensures
            final(self).wf(),
            r == old(self).insert_outcome(vector@, max_neighbors),
            r.is_err() ==> *final(self) == *old(self),
            r.is_ok() ==> final(self).points@ == old(self).points@.push(vector),
            r.is_ok() ==> exists|bits: u64, level: usize| #[trigger]
                is_layer_of(bits, old(self).thresholds@, level) && final(self).assigned@ == old(
                    self).assigned@.push(level) && final(self).inserted(
                    *old(self),
                    max_neighbors,
                    level,
                ),
            r.is_ok() && old(self).degree_bounded(max_neighbors) ==> final(self).degree_bounded(
                max_neighbors,
            ),
    {
        let bits = random_bits();
        let level = layer_of_draw(bits, &self.thresholds);
        let r = self.insert(vector, max_neighbors, level);
        proof {
            assert(is_layer_of(bits, old(self).thresholds@, level));
        }
        r
    }
}

} // verus!
