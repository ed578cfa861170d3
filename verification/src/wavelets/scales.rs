//! Scale selection: the integer scales of a wavelet transform.

use vstd::prelude::*;
use crate::error::{SdfError, SdfResult, invalid_parameter};

verus! {

/// Scale selector for wavelet transforms.
#[derive(Debug, Clone)]
pub struct ScaleSelector {
    /// Minimum scale to consider
    pub min_scale: usize,
    /// Maximum scale to consider
    pub max_scale: usize,
    /// Number of scales to select
    pub num_scales: usize,
}

/// The `i`-th of `count` linearly spaced integer scales from `lo` to `hi`.
pub open spec fn linear_scale(lo: nat, hi: nat, count: nat, i: nat) -> nat {
    lo + (i * (hi - lo) as nat) / ((count - 1) as nat)
}

impl Default for ScaleSelector {
    /// Scales 1 to 128, 32 of them.
    fn default() -> (r: Self)
        ensures
            r.min_scale == 1 && r.max_scale == 128 && r.num_scales == 32,
    {
        ScaleSelector { min_scale: 1, max_scale: 128, num_scales: 32 }
    }
}

impl ScaleSelector {
    /// Create a new scale selector; the smallest scale must be positive, the
    /// largest above it, and at least one scale must be asked for.
    pub fn new(min_scale: usize, max_scale: usize, num_scales: usize) -> (r: SdfResult<Self>)
        ensures
            r is Err <==> (min_scale == 0 || max_scale <= min_scale || num_scales == 0),
            r matches Ok(s) ==> s.min_scale == min_scale && s.max_scale == max_scale && s.num_scales == num_scales,
            r matches Err(e) ==> (e matches SdfError::InvalidParameter(m) && m@ == (if min_scale == 0 {
                "min_scale must be > 0"@
            } else if max_scale <= min_scale {
                "max_scale must be > min_scale"@
            } else {
                "num_scales must be > 0"@
            })),
    {
        if min_scale == 0 {
            return Err(invalid_parameter("min_scale must be > 0"));
        }
        if max_scale <= min_scale {
            return Err(invalid_parameter("max_scale must be > min_scale"));
        }
        if num_scales == 0 {
            return Err(invalid_parameter("num_scales must be > 0"));
        }
        Ok(ScaleSelector { min_scale, max_scale, num_scales })
    }

    /// Linearly spaced integer scales: `num_scales` of them, the first equal
    /// to `min_scale`, the last to `max_scale`, never decreasing, each rounded
    /// down.
    pub fn linear_scales(&self) -> (r: Vec<usize>)
        requires
            self.num_scales > 0 ==> {
                &&& self.num_scales >= 2
                &&& self.min_scale <= self.max_scale
                &&& (self.num_scales - 1) * (self.max_scale - self.min_scale) <= usize::MAX
            },
        ensures
            r@.len() == self.num_scales,
            forall|i: int| 0 <= i < r@.len() ==> #[trigger] r@[i] == linear_scale(
                self.min_scale as nat,
                self.max_scale as nat,
                self.num_scales as nat,
                i as nat,
            ),
            r@.len() > 0 ==> r@[0] == self.min_scale && r@[r@.len() - 1] == self.max_scale,
            forall|i: int, j: int| 0 <= i <= j < r@.len() ==> r@[i] <= r@[j],
    {
        let n = self.num_scales;
        let lo = self.min_scale;
        let hi = self.max_scale;
        let mut r: Vec<usize> = Vec::new();
        if n == 0 {
            return r;
        }
        let width = hi - lo;
        let steps = n - 1;
        let mut i: usize = 0;
        while i < n
            invariant
                n == self.num_scales,
                lo == self.min_scale,
                hi == self.max_scale,
                n >= 2,
                lo <= hi,
                width == hi - lo,
                steps == n - 1,
                steps * width <= usize::MAX,
                i <= n,
                r@.len() == i,
                forall|k: int| 0 <= k < i ==> #[trigger] r@[k] == linear_scale(lo as nat, hi as nat, n as nat, k as nat),
                forall|k: int| 0 <= k < i ==> #[trigger] r@[k] <= hi,
            decreases n - i,
        {
            assert(i * width <= steps * width) by (nonlinear_arith)
                requires i <= steps;
            assert((i * width) / (steps as int) <= width) by (nonlinear_arith)
                requires i <= steps, steps > 0, width >= 0;
            let v = lo + (i * width) / steps;
            r.push(v);
            i = i + 1;
        }
        proof {
            assert((steps * width) / (steps as int) == width) by (nonlinear_arith)
                requires steps > 0;
            assert forall|a: int, b: int| 0 <= a <= b < r@.len() implies r@[a] <= r@[b] by {
                assert((a * width) / (steps as int) <= (b * width) / (steps as int)) by (nonlinear_arith)
                    requires 0 <= a <= b, width >= 0, steps > 0;
            }
        }
        r
    }
}

} // verus!
