//! Normalization of raw magnetometer readings.
//!
//! A raw axis reading is mapped into `[-1/2, +1/2]` relative to the
//! calibration extremes of that axis:
//! `normalize(raw, max, min) = (raw - min) / (max - min) - 1/2`.
//! The library computes this as an exact rational; the consumer turns the
//! pair of normalized axes into an angle with `atan2(y, x) + pi`, which is
//! the one step that stays outside the verified code. Degenerate
//! calibration (`max == min`) has no normalization at all — the caller
//! must drop the sample rather than divide by zero.

use vstd::prelude::*;
use crate::numeric::VAL_LIMIT;

verus! {

/// An exact rational number `num / den` with a non-zero denominator.
#[derive(Debug, Clone, Copy, PartialEq, Eq, Structural)]
pub struct Ratio {
    pub num: i64,
    pub den: i64,
}

/// Numerator of `(raw - min) / (max - min) - 1/2`, brought to the common
/// denominator `2 * (max - min)`.
pub open spec fn norm_num(raw: int, max: int, min: int) -> int {
    2 * (raw - min) - (max - min)
}

/// Common denominator of a normalized reading.
pub open spec fn norm_den(max: int, min: int) -> int {
    2 * (max - min)
}

/// Normalize one axis reading against its calibration extremes; `None`
/// exactly when the calibration of this axis is degenerate.
pub fn normalize(raw: i64, max: i64, min: i64) -> (r: Option<Ratio>)
    requires
        -VAL_LIMIT < raw < VAL_LIMIT,
        -VAL_LIMIT < max < VAL_LIMIT,
        -VAL_LIMIT < min < VAL_LIMIT,
    ensures
        (r is Some) == (max != min),
        r matches Some(q) ==> q.num == norm_num(raw as int, max as int, min as int) && q.den
            == norm_den(max as int, min as int) && q.den != 0,
{
    if max == min {
        None
    } else {
        Some(Ratio { num: 2 * (raw - min) - (max - min), den: 2 * (max - min) })
    }
}

/// The normalization law: against non-degenerate bounds `min < max`, the
/// minimum maps to exactly `-1/2`, the maximum to exactly `+1/2`, and the
/// map is strictly increasing over the whole axis — all over a positive
/// common denominator.
pub proof fn lemma_normalize_range(min: int, max: int, a: int, b: int)
    requires
        min < max,
        a < b,
    ensures
        norm_den(max, min) > 0,
        2 * norm_num(min, max, min) == -norm_den(max, min),
        2 * norm_num(max, max, min) == norm_den(max, min),
        norm_num(a, max, min) < norm_num(b, max, min),
{
}

} // verus!
