//! Wavelet families and their discrete properties.

use vstd::prelude::*;
use vstd::string::*;
use crate::text::{decimal, decimal_string};

verus! {

/// Wavelet basis types.
#[derive(Debug, Clone, Copy, PartialEq, Eq, Structural)]
pub enum WaveletBasis {
    /// Haar wavelet
    Haar,
    /// Daubechies wavelets (db1 to db10)
    Daubechies(usize),
    /// Gaussian wavelets (gaus1 to gaus10)
    Gaussian(usize),
    /// Morlet (Gabor) wavelet
    Morlet,
    /// Mexican Hat wavelet
    MexicanHat,
}

impl WaveletBasis {
    /// The name of the wavelet, as its `Display` form reads.
    pub open spec fn display_seq(self) -> Seq<char> {
        match self {
            WaveletBasis::Haar => "Haar"@,
            WaveletBasis::Daubechies(n) => "db"@ + decimal(n as nat),
            WaveletBasis::Gaussian(n) => "gaus"@ + decimal(n as nat),
            WaveletBasis::Morlet => "Morlet"@,
            WaveletBasis::MexicanHat => "MexicanHat"@,
        }
    }

    /// The number of vanishing moments.
    pub fn vanishing_moments(&self) -> (r: usize)
        ensures
            r == match *self {
                WaveletBasis::Haar => 1,
                WaveletBasis::Daubechies(n) => n,
                WaveletBasis::Gaussian(n) => n,
                WaveletBasis::Morlet => 1,
                WaveletBasis::MexicanHat => 2,
            },
    {
        match self {
            WaveletBasis::Haar => 1,
            WaveletBasis::Daubechies(n) => *n,
            WaveletBasis::Gaussian(n) => *n,
            WaveletBasis::Morlet => 1,
            WaveletBasis::MexicanHat => 2,
        }
    }

    /// The support size of the wavelet.
    pub fn support_size(&self) -> (r: usize)
        requires
            *self matches WaveletBasis::Daubechies(n) ==> 2 * n <= usize::MAX,
        ensures
            r == match *self {
                WaveletBasis::Haar => 1,
                WaveletBasis::Daubechies(n) => 2 * n,
                WaveletBasis::Gaussian(_) => 10,
                WaveletBasis::Morlet => 8,
                WaveletBasis::MexicanHat => 8,
            },
    {
        match self {
            WaveletBasis::Haar => 1,
            WaveletBasis::Daubechies(n) => 2 * *n,
            WaveletBasis::Gaussian(_) => 10,
            WaveletBasis::Morlet => 8,
            WaveletBasis::MexicanHat => 8,
        }
    }

    /// The name of the wavelet, as its `Display` form reads.
    pub fn display_string(&self) -> (r: String)
        ensures
            r@ == self.display_seq(),
    {
        match self {
            WaveletBasis::Haar => String::from_str("Haar"),
            WaveletBasis::Daubechies(n) => {
                let mut r = String::from_str("db");
                let d = decimal_string(*n);
                r.append(d.as_str());
                r
            },
            WaveletBasis::Gaussian(n) => {
                let mut r = String::from_str("gaus");
                let d = decimal_string(*n);
                r.append(d.as_str());
                r
            },
            WaveletBasis::Morlet => String::from_str("Morlet"),
            WaveletBasis::MexicanHat => String::from_str("MexicanHat"),
        }
    }
}

} // verus!
