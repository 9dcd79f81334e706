//! Vector search: an exact index, an approximate index over a layered navigable graph, and an
//! index of compressed vectors.
//!
//! * [`FlatIndex`] compares a query with every vector, so what it returns is exact.
//! * [`Hnsw`] walks a graph from near to nearer. How far it looks around is up to the caller;
//!   with a view as wide as the index it is exact on whatever can be reached.
//! * [`PqIndex`] keeps of each vector only the numbers of the nearest centroids, one for each
//!   part, and compares queries with those.
//!
//! Numbers are held as bit patterns; see [`arith`] for what is computed with them. What holds
//! of several functions together is proved in [`adding`], [`clusters`], [`exactness`],
//! [`exploration`], [`geometry`], [`linking`], [`reach`] and [`recall`]. What operations are for is
//! said there in other words than their contracts: of distances in [`coordinates`] and
//! [`integral`], of searches in [`searching`], [`walking`] and [`thorough`], of graphs in
//! [`pruning`], [`joining`] and [`readings`], and of quantizers in [`training`].

pub mod adding;
pub mod arith;
pub mod beam;
pub mod benchmark;
pub mod binary32;
pub mod calendar;
pub mod clusters;
pub mod coming;
pub mod coordinates;
pub mod descent;
pub mod distance;
pub mod exactness;
pub mod exploration;
pub mod flat;
pub mod flat_codec;
pub mod format;
pub mod geometry;
pub mod gpu;
pub mod graph;
pub mod growth;
pub mod heap;
pub mod hnsw;
pub mod hnsw_codec;
pub mod integral;
pub mod joining;
pub mod json;
pub mod kmeans;
pub mod linking;
pub mod metric;
pub mod parallel;
pub mod pq;
pub mod pq_codec;
pub mod pruning;
pub mod quantizer;
pub mod ranked;
pub mod reach;
pub mod readings;
pub mod recall;
pub mod report;
pub mod request;
pub mod rng;
pub mod rows;
pub mod searching;
pub mod select;
pub mod shared;
pub mod soft;
pub mod text;
pub mod thorough;
pub mod topk;
pub mod training;
pub mod walking;
pub mod wiring;

pub use flat::FlatIndex;
pub use hnsw::{Hnsw, HnswParams};
pub use metric::Metric;
pub use pq::{PqIndex, PqParams};
