//! The range of distances that are kept. Distances are single-precision bit
//! patterns, in metres.

use crate::single::{at_most, is_at_most, is_nan, nan};
use vstd::prelude::*;

verus! {

/// The pattern of 0.1.
pub const DISTANCE_MIN_DEFAULT: u32 = 0x3dcc_cccd;

/// The pattern of 180.0.
pub const DISTANCE_MAX_DEFAULT: u32 = 0x4334_0000;

/// Distances from `min` to `max`, both kept.
pub struct DistanceSection {
    pub min: u32,
    pub max: u32,
}

/// A limit as configured, or zero where it is negative or not a number.
pub open spec fn clamped(limit: u32) -> u32 {
    if nan(limit) || at_most(limit, 0) {
        0
    } else {
        limit
    }
}

fn clamp(limit: u32) -> (r: u32)
    ensures
        r == clamped(limit),
{
    if is_nan(limit) || is_at_most(limit, 0) {
        0
    } else {
        limit
    }
}

impl DistanceSection {
    /// The configured limits, or the sensor's own where both are zero.
    pub fn new(user_min: u32, user_max: u32) -> (s: Self)
        ensures
            clamped(user_min) != 0 || clamped(user_max) != 0 ==> s.min == clamped(user_min)
                && s.max == clamped(user_max),
            clamped(user_min) == 0 && clamped(user_max) == 0 ==> s.min == DISTANCE_MIN_DEFAULT
                && s.max == DISTANCE_MAX_DEFAULT,
    {
        let min: u32 = clamp(user_min);
        let max: u32 = clamp(user_max);
        if min != 0 || max != 0 {
            DistanceSection { min, max }
        } else {
            DistanceSection { min: DISTANCE_MIN_DEFAULT, max: DISTANCE_MAX_DEFAULT }
        }
    }

    /// Whether a distance is kept.
    pub open spec fn covers(&self, d: u32) -> bool {
        at_most(self.min, d) && at_most(d, self.max)
    }

    /// Whether a distance is kept.
    pub fn contains(&self, d: u32) -> (r: bool)
        ensures
            r == self.covers(d),
    {
        is_at_most(self.min, d) && is_at_most(d, self.max)
    }
}

/// Which distances are kept: the positive ones from the smaller limit to the
/// larger, both kept. A limit that is negative or not a number counts as zero,
/// and where both are zero the limits are 0.1 and 180.
pub proof fn distances_between_the_limits_are_kept(
    s: DistanceSection,
    user_min: u32,
    user_max: u32,
    d: u32,
)
    requires
        clamped(user_min) != 0 || clamped(user_max) != 0 ==> s.min == clamped(user_min) && s.max
            == clamped(user_max),
        clamped(user_min) == 0 && clamped(user_max) == 0 ==> s.min == DISTANCE_MIN_DEFAULT && s.max
            == DISTANCE_MAX_DEFAULT,
    ensures
        ({
            let min = if 0 < user_min <= 0x7f80_0000 {
                user_min as int
            } else {
                0
            };
            let max = if 0 < user_max <= 0x7f80_0000 {
                user_max as int
            } else {
                0
            };
            &&& 0 < d <= 0x7f80_0000 && (min > 0 || max > 0) ==> (s.covers(d) <==> min <= d <= max)
            &&& 0 < d <= 0x7f80_0000 && min == 0 && max == 0 ==> (s.covers(d) <==> 0x3dcc_cccd <= d
                <= 0x4334_0000)
            &&& 0x7f80_0000 < d && d != 0x8000_0000 ==> !s.covers(d)
            &&& d == 0 || d == 0x8000_0000 ==> (s.covers(d) <==> min == 0 && max > 0)
        }),
{
}

} // verus!
