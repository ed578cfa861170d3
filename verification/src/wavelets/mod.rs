//! Wavelet families, scale selection and the ordering of wavelet scales.

pub mod basis;
pub mod scales;
pub mod transform;

pub use basis::WaveletBasis;
pub use scales::ScaleSelector;
