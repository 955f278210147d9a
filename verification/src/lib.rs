//! `velo`: a small, readable vector database.
//!
//! `velo` implements approximate nearest-neighbour (ANN) search from first
//! principles: the index structures, metadata filtering, quantized storage and
//! persistence, with proofs that they do what they say.
//!
//! The crate ships two index types behind one [`VectorIndex`] trait:
//!
//! * [`FlatIndex`]: an exact, brute-force baseline. Correct, simple, and the
//!   ground truth every approximate index is measured against.
//! * [`HnswIndex`]: an HNSW graph index: fast, approximate, and scored for
//!   recall against the exact baseline.
//!
//! Numbers are handled by their IEEE 754 encodings (see [`float`]). Arithmetic on
//! them, such as measuring a distance, is handed to an index as a function.

pub mod beam;
pub mod exact;
pub mod flat;
pub mod float;
pub mod graph;
pub mod hnsw;
pub mod index;
pub mod json;
pub mod metric;
pub mod order;
pub mod payload;
pub mod persist;
pub mod quant;
pub mod recall;
pub mod rng;
pub mod rows;
pub mod server;
pub mod store;
pub mod text;

pub use flat::FlatIndex;
pub use hnsw::{HnswConfig, HnswIndex};
pub use index::{SearchResult, VectorIndex};
pub use metric::Metric;
pub use payload::{Filter, Payload, Value};
