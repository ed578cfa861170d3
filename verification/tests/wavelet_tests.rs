use sdf::wavelets::basis::WaveletBasis;
use sdf::wavelets::scales::ScaleSelector;
use sdf::wavelets::transform::{scale_order, scale_series_order};

#[test]
fn test_vanishing_moments() {
    let db3 = WaveletBasis::Daubechies(3);
    assert_eq!(db3.vanishing_moments(), 3);
}

#[test]
fn test_scale_selector_creation() {
    let selector = ScaleSelector::new(1, 128, 32).unwrap();
    assert_eq!(selector.min_scale, 1);
    assert_eq!(selector.max_scale, 128);
    assert_eq!(selector.num_scales, 32);
}

#[test]
fn test_linear_scales() {
    let selector = ScaleSelector::new(10, 100, 5).unwrap();
    let scales = selector.linear_scales();
    assert_eq!(scales.len(), 5);
    assert_eq!(scales[0], 10);
    assert_eq!(scales[4], 100);
}

#[test]
fn linear_scales_exact_values() {
    let selector = ScaleSelector::new(10, 100, 5).unwrap();
    assert_eq!(selector.linear_scales(), vec![10, 32, 55, 77, 100]);
    let selector = ScaleSelector::default();
    let scales = selector.linear_scales();
    assert_eq!(scales.len(), 32);
    assert_eq!(scales[0], 1);
    assert_eq!(scales[1], 5);
    assert_eq!(scales[31], 128);
    assert!(scales.windows(2).all(|w| w[0] <= w[1]));
}

#[test]
fn scale_selector_errors() {
    assert!(ScaleSelector::new(0, 10, 3).is_err());
    assert!(ScaleSelector::new(5, 5, 3).is_err());
    assert!(ScaleSelector::new(5, 4, 3).is_err());
    assert!(ScaleSelector::new(1, 2, 0).is_err());
    assert!(ScaleSelector::new(1, 2, 1).is_ok());
}

#[test]
fn wavelet_properties() {
    assert_eq!(WaveletBasis::Haar.vanishing_moments(), 1);
    assert_eq!(WaveletBasis::Gaussian(4).vanishing_moments(), 4);
    assert_eq!(WaveletBasis::Morlet.vanishing_moments(), 1);
    assert_eq!(WaveletBasis::MexicanHat.vanishing_moments(), 2);
    assert_eq!(WaveletBasis::Haar.support_size(), 1);
    assert_eq!(WaveletBasis::Daubechies(4).support_size(), 8);
    assert_eq!(WaveletBasis::Gaussian(2).support_size(), 10);
    assert_eq!(WaveletBasis::Morlet.support_size(), 8);
    assert_eq!(WaveletBasis::MexicanHat.support_size(), 8);
}

#[test]
fn wavelet_names() {
    assert_eq!(WaveletBasis::Haar.display_string(), "Haar");
    assert_eq!(WaveletBasis::Daubechies(10).display_string(), "db10");
    assert_eq!(WaveletBasis::Gaussian(3).display_string(), "gaus3");
    assert_eq!(WaveletBasis::Morlet.display_string(), "Morlet");
    assert_eq!(WaveletBasis::MexicanHat.display_string(), "MexicanHat");
}

#[test]
fn scale_order_is_stable() {
    assert_eq!(scale_order(&[4, 1, 2, 1, 8]), vec![1, 3, 2, 0, 4]);
    assert_eq!(scale_order(&[]), Vec::<usize>::new());
}

#[test]
fn scale_series_goes_up_then_down() {
    assert_eq!(scale_series_order(&[4, 1, 2]), vec![1, 2, 0, 0, 2, 1]);
    assert_eq!(scale_series_order(&[1, 2, 4]), vec![0, 1, 2, 2, 1, 0]);
}
