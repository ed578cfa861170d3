//! Partition scheme definitions.

use vstd::prelude::*;
use vstd::string::*;

verus! {

/// Partition scheme definitions.
#[derive(Debug, Clone, Copy, PartialEq, Eq, Structural)]
pub enum PartitionScheme {
    /// Uniform quantization
    Uniform,
    /// Maximum entropy partitioning
    MaximumEntropy,
    /// Equiprobable partitioning
    Equiprobable,
}

impl PartitionScheme {
    /// The name of the scheme, as its `Display` form reads.
    pub open spec fn display_seq(self) -> Seq<char> {
        match self {
            PartitionScheme::Uniform => "Uniform"@,
            PartitionScheme::MaximumEntropy => "MaximumEntropy"@,
            PartitionScheme::Equiprobable => "Equiprobable"@,
        }
    }

    /// The name of the scheme, as its `Display` form reads.
    pub fn display_string(&self) -> (r: String)
        ensures
            r@ == self.display_seq(),
    {
        match self {
            PartitionScheme::Uniform => String::from_str("Uniform"),
            PartitionScheme::MaximumEntropy => String::from_str("MaximumEntropy"),
            PartitionScheme::Equiprobable => String::from_str("Equiprobable"),
        }
    }
}

} // verus!
