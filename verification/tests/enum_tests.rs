use sdf::anomaly::measures::{AnomalyMeasure, NormType};
use sdf::partitioning::maximum_entropy::MaximumEntropyPartitioner;
use sdf::partitioning::types::PartitionScheme;
use sdf::partitioning::uniform::UniformPartitioner;
use sdf::text::decimal_string;

#[test]
fn measure_names() {
    assert_eq!(AnomalyMeasure::Norm(NormType::L1).display_string(), "Norm(L1)");
    assert_eq!(AnomalyMeasure::Norm(NormType::L2).display_string(), "Norm(L2)");
    assert_eq!(AnomalyMeasure::Norm(NormType::Linf).display_string(), "Norm(Linf)");
    assert_eq!(AnomalyMeasure::KLDivergence.display_string(), "KLDivergence");
    assert_eq!(AnomalyMeasure::StatisticalComplexity.display_string(), "StatisticalComplexity");
}

#[test]
fn scheme_names() {
    assert_eq!(PartitionScheme::Uniform.display_string(), "Uniform");
    assert_eq!(PartitionScheme::MaximumEntropy.display_string(), "MaximumEntropy");
    assert_eq!(PartitionScheme::Equiprobable.display_string(), "Equiprobable");
}

#[test]
fn partitioners_need_two_symbols() {
    assert!(UniformPartitioner::new(1).is_err());
    assert_eq!(UniformPartitioner::new(2).unwrap().num_symbols(), 2);
    assert!(MaximumEntropyPartitioner::new(0).is_err());
    assert_eq!(MaximumEntropyPartitioner::new(5).unwrap().num_symbols(), 5);
}

#[test]
fn decimal_rendering() {
    assert_eq!(decimal_string(0), "0");
    assert_eq!(decimal_string(7), "7");
    assert_eq!(decimal_string(1203), "1203");
    assert_eq!(decimal_string(usize::MAX), usize::MAX.to_string());
}
