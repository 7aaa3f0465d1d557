//! An approximate nearest-neighbour index: a layered proximity graph over
//! integer-coordinate points, searched greedily with a bounded beam.
//!
//! Every point lives on layer 0, and on each higher layer up to the one it
//! was assigned to. A query walks down from the entry point on the top
//! layer, keeping one point per layer, and then searches layer 0 with a
//! wider beam. An insertion walks down in the same way and connects the
//! new point, on each of its layers, to the closest points it finds.
//!
//! - `distance`: the squared Euclidean distance.
//! - `ranked`: the rank order of points and the two ordered containers of
//!   a search.
//! - `search`: the greedy search of one layer.
//! - `select`: the choice of the closest candidates.
//! - `graph`: one layer of the graph and the edits an insertion makes.
//! - `index`: the index with `insert`, `query` and `size`.
//! - `sampler`: the random draw of a layer.
//! - `laws`: what holds of every index and every search result.
//!
//! Points are ranked by their distance to the query first and by their id
//! second, so every result is determined by the index and the query.

pub mod error;
pub mod distance;
pub mod ranked;
pub mod search;
pub mod select;
pub mod graph;
pub mod index;
pub mod sampler;
pub mod slot;
pub mod laws;
