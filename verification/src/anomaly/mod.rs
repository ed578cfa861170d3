//! Anomaly measures.

pub mod measures;

pub use measures::{AnomalyMeasure, NormType};
