//! Regular grid specification: extent plus column and row counts.
//!
//! The extent's `f64` bounds are held as their IEEE-754 bit patterns; the
//! validity rules compare them as the `f64` values they encode.

use vstd::prelude::*;
use crate::error::BurnError;
use crate::geometry::f64_is_finite;

verus! {

/// Regular grid specification. Cell size is `(xmax - xmin) / ncol` by
/// `(ymax - ymin) / nrow`; row 0 is the top row (the `ymax` edge).
#[derive(Clone, Copy, Debug, PartialEq, Eq, Structural)]
pub struct GridSpec {
    pub xmin: u64,
    pub ymin: u64,
    pub xmax: u64,
    pub ymax: u64,
    pub ncol: u32,
    pub nrow: u32,
}

/// The position of a non-NaN `f64` on the number line, from its bits:
/// the magnitude bits, negated when the sign bit is set (so both zeros
/// map to 0). The order of these keys is the order of the values.
pub open spec fn f64_key(b: u64) -> int {
    let mag = (b & 0x7fff_ffff_ffff_ffff) as int;
    if b & 0x8000_0000_0000_0000 != 0 {
        -mag
    } else {
        mag
    }
}

/// `a <= b` for the non-NaN `f64` values with bits `a` and `b`.
pub open spec fn f64_le(a: u64, b: u64) -> bool {
    f64_key(a) <= f64_key(b)
}

/// The reason a grid specification is rejected, if it is.
pub open spec fn grid_problem(g: GridSpec) -> Option<Seq<char>> {
    if g.ncol == 0 || g.nrow == 0 {
        Some("ncol and nrow must be positive"@)
    } else if g.ncol > i32::MAX || g.nrow > i32::MAX {
        Some("ncol and nrow must fit in i32"@)
    } else if !(f64_is_finite(g.xmin) && f64_is_finite(g.ymin) && f64_is_finite(g.xmax) && f64_is_finite(g.ymax)) {
        Some("extent must be finite"@)
    } else if f64_le(g.xmax, g.xmin) || f64_le(g.ymax, g.ymin) {
        Some("invalid extent: xmax must be > xmin, ymax must be > ymin"@)
    } else {
        None
    }
}

fn f64_bits_key(b: u64) -> (k: i64)
    ensures
        k as int == f64_key(b),
{
    let m = b & 0x7fff_ffff_ffff_ffff;
    assert(m <= 0x7fff_ffff_ffff_ffff) by (bit_vector)
        requires
            m == b & 0x7fff_ffff_ffff_ffff,
    ;
    let mag = m as i64;
    if b & 0x8000_0000_0000_0000 != 0 {
        -mag
    } else {
        mag
    }
}

/// `a <= b` for the non-NaN `f64` values with bits `a` and `b`.
pub fn f64_bits_le(a: u64, b: u64) -> (r: bool)
    ensures
        r == f64_le(a, b),
{
    f64_bits_key(a) <= f64_bits_key(b)
}

impl GridSpec {
    pub fn new(xmin: u64, ymin: u64, xmax: u64, ymax: u64, ncol: u32, nrow: u32) -> (g: Self)
        ensures
            g == (GridSpec { xmin, ymin, xmax, ymax, ncol, nrow }),
    {
        GridSpec { xmin, ymin, xmax, ymax, ncol, nrow }
    }

    /// Accept positive counts that fit in `i32` and a finite, non-empty,
    /// non-inverted extent.
    pub fn validate(&self) -> (r: Result<(), BurnError>)
        ensures
            match grid_problem(*self) {
                None => r is Ok,
                Some(m) => r matches Err(BurnError::InvalidGrid(msg)) && msg@ == m,
            },
    {
        if self.ncol == 0 || self.nrow == 0 {
            return Err(BurnError::InvalidGrid("ncol and nrow must be positive".to_owned()));
        }
        if self.ncol > 0x7fff_ffff || self.nrow > 0x7fff_ffff {
            return Err(BurnError::InvalidGrid("ncol and nrow must fit in i32".to_owned()));
        }
        if !(crate::geometry::f64_bits_finite(self.xmin) && crate::geometry::f64_bits_finite(self.ymin)
            && crate::geometry::f64_bits_finite(self.xmax) && crate::geometry::f64_bits_finite(self.ymax)) {
            return Err(BurnError::InvalidGrid("extent must be finite".to_owned()));
        }
        if f64_bits_le(self.xmax, self.xmin) || f64_bits_le(self.ymax, self.ymin) {
            return Err(
                BurnError::InvalidGrid("invalid extent: xmax must be > xmin, ymax must be > ymin".to_owned()),
            );
        }
        Ok(())
    }
}

} // verus!
