//! Compression ratios as exact rationals.
//!
//! A ratio is the number of emitted token units over the number of original
//! tokens. Keeping both counts exact avoids any rounding until a caller asks
//! for the savings, which are reported in parts per million.

use vstd::prelude::*;

verus! {

/// One million; the unit in which savings are reported.
pub const PPM: u64 = 1_000_000;

/// An exact compression ratio `emitted / total`.
///
/// `total` is the token count of the original text and `emitted` the number
/// of token units that remain after deduplication, so a valid ratio never
/// exceeds one.
#[derive(Clone, Copy, Debug, PartialEq, Eq, Structural)]
pub struct Ratio {
    /// Token units emitted after compression.
    pub emitted: usize,
    /// Token units in the original text.
    pub total: usize,
}

impl Ratio {
    /// A ratio is well formed when both counts are positive and the emitted
    /// count does not exceed the original count.
    pub open spec fn wf(self) -> bool {
        1 <= self.emitted <= self.total
    }

    /// True when the ratio equals one: nothing was saved.
    pub open spec fn is_one_spec(self) -> bool {
        self.emitted == self.total
    }

    /// The savings `1 - emitted/total`, scaled to parts per million and
    /// rounded down.
    pub open spec fn saving_ppm_spec(self) -> int {
        ((self.total - self.emitted) * PPM) / (self.total as int)
    }

    /// The ratio of a text on which no compression is possible.
    pub fn one() -> (r: Ratio)
        ensures
            r.wf(),
            r.is_one_spec(),
            r.emitted == 1,
            r.total == 1,
    {
        Ratio { emitted: 1, total: 1 }
    }

    /// True when the ratio equals one.
    pub fn is_one(&self) -> (r: bool)
        ensures
            r == self.is_one_spec(),
    {
        self.emitted == self.total
    }

    /// The savings in parts per million.
    pub fn saving_ppm(&self) -> (r: u64)
        requires
            self.wf(),
        ensures
            r == self.saving_ppm_spec(),
            r <= PPM,
            self.is_one_spec() ==> r == 0,
    {
        let spare = (self.total - self.emitted) as u64;
        let wide: u128 = (spare as u128) * (PPM as u128);
        let q: u128 = wide / (self.total as u128);
        proof {
            lemma_saving_ppm_range(*self);
        }
        q as u64
    }
}

/// A well-formed ratio never reports savings above one million parts per
/// million, and a ratio of one reports no savings.
pub proof fn lemma_saving_ppm_range(r: Ratio)
    requires
        r.wf(),
    ensures
        0 <= r.saving_ppm_spec() <= PPM,
        r.is_one_spec() ==> r.saving_ppm_spec() == 0,
{
    let spare = r.total - r.emitted;
    assert(spare * PPM >= 0) by (nonlinear_arith)
        requires
            spare >= 0,
    ;
    assert((spare * PPM) / (r.total as int) <= PPM) by (nonlinear_arith)
        requires
            0 <= spare < r.total as int + 1,
            1 <= r.total as int,
    ;
}

} // verus!
