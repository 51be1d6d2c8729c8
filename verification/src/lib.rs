//! Relationship-aggregation and graph-synchronization pipeline.
//!
//! Directed (sender, receiver, sentiment) observations are canonicalized into
//! unordered address pairs, grouped into per-pair statistics, and driven
//! through a client protocol for a property-graph store. Sentiment values are
//! carried as fixed-point integers in thousandths (milli-units) so that the
//! arithmetic is exact and verifiable.

pub mod aggregate;
pub mod config;
pub mod emails;
pub mod graph;
pub mod logger;
pub mod pairkey;
pub mod queries;
pub mod scheduler;
pub mod strcmp;
pub mod text;
