//! Shape arithmetic of the 2-D convolution.
use vstd::prelude::*;

verus! {

/// Input spatial shape + zero-padding for a conv call.
#[derive(Clone, Copy, Debug)]
pub struct ConvShape {
    pub c_in: usize,
    pub h: usize,
    pub w: usize,
    pub pad: usize,
}

impl ConvShape {
    /// Output `(H', W')` for a kernel of size `(kh, kw)`: `H' = h + 2*pad - kh + 1` and
    /// `W' = w + 2*pad - kw + 1`. The kernel must fit the padded input.
    pub fn out_hw(&self, kh: usize, kw: usize) -> (r: (usize, usize))
        requires
            self.h + 2 * self.pad <= usize::MAX,
            self.w + 2 * self.pad <= usize::MAX,
            kh <= self.h + 2 * self.pad,
            kw <= self.w + 2 * self.pad,
            self.h + 2 * self.pad - kh + 1 <= usize::MAX,
            self.w + 2 * self.pad - kw + 1 <= usize::MAX,
        ensures
            r.0 == self.h + 2 * self.pad - kh + 1,
            r.1 == self.w + 2 * self.pad - kw + 1,
    {
        (self.h + 2 * self.pad - kh + 1, self.w + 2 * self.pad - kw + 1)
    }
}

} // verus!
