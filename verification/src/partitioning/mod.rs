//! Partitioning schemes and partitioners for symbolic encoding.

pub mod maximum_entropy;
pub mod types;
pub mod uniform;

pub use types::PartitionScheme;
