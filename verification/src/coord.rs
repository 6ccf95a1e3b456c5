//! Saturating arithmetic on `i64` canvas coordinates.
//!
//! Coordinates are whole pixels in a signed 64-bit range.  All position and
//! offset arithmetic saturates at the ends of that range instead of wrapping,
//! so the engine never panics on overflow; anywhere near a real canvas the
//! saturation is inert and the arithmetic is exact.

use vstd::prelude::*;

verus! {

/// The value `v` pulled back into the `i64` range.
pub open spec fn sat64(v: int) -> int {
    if v < i64::MIN as int {
        i64::MIN as int
    } else if v > i64::MAX as int {
        i64::MAX as int
    } else {
        v
    }
}

/// `a + b`, saturating at the ends of the `i64` range.
pub fn sat_add(a: i64, b: i64) -> (r: i64)
    ensures
        r as int == sat64(a + b),
{
    if b >= 0 {
        if a > i64::MAX - b {
            i64::MAX
        } else {
            a + b
        }
    } else {
        if a < i64::MIN - b {
            i64::MIN
        } else {
            a + b
        }
    }
}

/// `a - b`, saturating at the ends of the `i64` range.
pub fn sat_sub(a: i64, b: i64) -> (r: i64)
    ensures
        r as int == sat64(a - b),
{
    if b >= 0 {
        if a < i64::MIN + b {
            i64::MIN
        } else {
            a - b
        }
    } else {
        if a > i64::MAX + b {
            i64::MAX
        } else {
            a - b
        }
    }
}

} // verus!
