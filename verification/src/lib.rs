//! Set-similarity search under the Jaccard distance.
//!
//! Records are strictly increasing sequences of integer features. A
//! [`Mapping`] renumbers features by ascending global frequency, a
//! [`metric::Jaccard`] evaluator classifies a candidate against a base set
//! with optional length and position filters, and the two indices
//! ([`LinearScan`], [`inverted_index::InvertedIndex`]) answer range and top-k
//! queries. Distances and radii are exact fractions ([`Ratio`]), so every
//! filter bound is computed without rounding.

pub mod answer;
pub mod bounds;
pub mod error;
pub mod inverted_index;
pub mod linear_scan;
pub mod mapping;
pub mod metric;
pub mod order;
pub mod overlap;
pub mod postings;
pub mod ratio;
pub mod record;
pub mod set;
pub mod stats;
pub mod text;
pub mod topk;

pub use answer::Answer;
pub use error::Error;
pub use linear_scan::LinearScan;
pub use mapping::Mapping;
pub use metric::FilterConfig;
pub use ratio::Ratio;
pub use record::Record;
pub use set::OrderedSet;
