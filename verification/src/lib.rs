//! Word embeddings from co-occurrence statistics: the exact, integer part of
//! the pipeline, from raw reviews to the weighted co-occurrence matrix and
//! the partition of the covariance work.

pub mod cooccurrence;
pub mod corpus;
pub mod error;
pub mod partition;
pub mod pipeline;
pub mod text;
pub mod variance;
pub mod vocab;
