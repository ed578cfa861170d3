//! The kinds of anomaly measure and their names.

use vstd::prelude::*;
use vstd::string::*;

verus! {

/// Norm type for norm-based anomaly measures.
#[derive(Debug, Clone, Copy, PartialEq, Eq, Structural)]
pub enum NormType {
    /// L1 norm (Manhattan distance)
    L1,
    /// L2 norm (Euclidean distance)
    L2,
    /// L-infinity norm (maximum absolute value)
    Linf,
}

/// Anomaly measure types.
#[derive(Debug, Clone, Copy, PartialEq, Eq, Structural)]
pub enum AnomalyMeasure {
    /// Norm of the difference of pattern vectors
    Norm(NormType),
    /// Angle between pattern vectors
    Angle,
    /// Kullback-Leibler divergence
    KLDivergence,
    /// Matrix norm measure
    MatrixNorm,
    /// Entropy rate-based measure
    EntropyRate,
    /// Excess entropy measure
    ExcessEntropy,
    /// Statistical complexity measure
    StatisticalComplexity,
}

impl AnomalyMeasure {
    /// The name of the measure, as its `Display` form reads.
    pub open spec fn display_seq(self) -> Seq<char> {
        match self {
            AnomalyMeasure::Norm(NormType::L1) => "Norm(L1)"@,
            AnomalyMeasure::Norm(NormType::L2) => "Norm(L2)"@,
            AnomalyMeasure::Norm(NormType::Linf) => "Norm(Linf)"@,
            AnomalyMeasure::Angle => "Angle"@,
            AnomalyMeasure::KLDivergence => "KLDivergence"@,
            AnomalyMeasure::MatrixNorm => "MatrixNorm"@,
            AnomalyMeasure::EntropyRate => "EntropyRate"@,
            AnomalyMeasure::ExcessEntropy => "ExcessEntropy"@,
            AnomalyMeasure::StatisticalComplexity => "StatisticalComplexity"@,
        }
    }

    /// The name of the measure, as its `Display` form reads.
    pub fn display_string(&self) -> (r: String)
        ensures
            r@ == self.display_seq(),
    {
        match self {
            AnomalyMeasure::Norm(NormType::L1) => String::from_str("Norm(L1)"),
            AnomalyMeasure::Norm(NormType::L2) => String::from_str("Norm(L2)"),
            AnomalyMeasure::Norm(NormType::Linf) => String::from_str("Norm(Linf)"),
            AnomalyMeasure::Angle => String::from_str("Angle"),
            AnomalyMeasure::KLDivergence => String::from_str("KLDivergence"),
            AnomalyMeasure::MatrixNorm => String::from_str("MatrixNorm"),
            AnomalyMeasure::EntropyRate => String::from_str("EntropyRate"),
            AnomalyMeasure::ExcessEntropy => String::from_str("ExcessEntropy"),
            AnomalyMeasure::StatisticalComplexity => String::from_str("StatisticalComplexity"),
        }
    }
}

} // verus!
