//! Uniform partitioner: divides a signal's range into equal-width regions.

use vstd::prelude::*;
use crate::error::{SdfError, SdfResult, invalid_parameter};

verus! {

/// Uniform partitioner: divides a signal's range into equal-width regions.
#[derive(Debug, Clone)]
pub struct UniformPartitioner {
    num_symbols: usize,
}

impl UniformPartitioner {
    /// The number of symbols (partition regions).
    pub closed spec fn spec_num_symbols(self) -> nat {
        self.num_symbols as nat
    }

    /// Create a partitioner for `num_symbols` regions; at least two are needed.
    pub fn new(num_symbols: usize) -> (r: SdfResult<Self>)
        ensures
            r is Err <==> num_symbols < 2,
            r matches Ok(p) ==> p.spec_num_symbols() == num_symbols,
            r matches Err(e) ==> (e matches SdfError::InvalidParameter(m) && m@ == "Number of symbols must be at least 2"@),
    {
        if num_symbols < 2 {
            return Err(invalid_parameter("Number of symbols must be at least 2"));
        }
        Ok(UniformPartitioner { num_symbols })
    }

    /// The number of symbols (partition regions).
    pub fn num_symbols(&self) -> (r: usize)
        ensures
            r == self.spec_num_symbols(),
    {
        self.num_symbols
    }
}

} // verus!
