//! Symbolic Dynamic Filtering: the discrete core of an anomaly-detection
//! pipeline that turns signals into symbol sequences and D-Markov models.

pub mod anomaly;
pub mod counts;
pub mod error;
pub mod markov;
pub mod partitioning;
pub mod symbolic;
pub mod text;
pub mod wavelets;

pub use error::{SdfError, SdfResult};
