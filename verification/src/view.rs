//! How a received cloud is shown.

use crate::cloud::VizPoint;
use crate::single::{negate, opposite};
use vstd::prelude::*;

verus! {

/// How a point is painted.
#[derive(Clone, Copy, PartialEq, Eq, Debug)]
pub enum Paint {
    /// Grey: it is in no cluster.
    Unclustered,
    /// The hue of its cluster.
    Cluster(i32),
}

/// A position turned from the sensor's axes (forward, left, up) to those of
/// the view (right, up, backward).
pub open spec fn turned(p: (u32, u32, u32)) -> (u32, u32, u32) {
    (p.0, p.2, opposite(p.1))
}

/// The position of a point in the view.
pub fn view_position(p: &VizPoint) -> (r: (u32, u32, u32))
    ensures
        r == turned((p.x, p.y, p.z)),
{
    (p.x, p.z, negate(p.y))
}

/// How a point is painted.
pub fn paint(p: &VizPoint) -> (r: Paint)
    ensures
        r == if p.cluster < 0 {
            Paint::Unclustered
        } else {
            Paint::Cluster(p.cluster)
        },
{
    if p.cluster < 0 {
        Paint::Unclustered
    } else {
        Paint::Cluster(p.cluster)
    }
}

/// Whether the `n`-th frame, counted from one, is reported: the first, and
/// every thirtieth after it.
pub fn is_reported(n: u64) -> (r: bool)
    ensures
        r == (n as int % 30 == 1),
{
    n % 30 == 1
}

/// Turning the axes is a quarter turn: it keeps which positions are apart, and
/// four of them change nothing.
pub proof fn turning_is_a_quarter_turn(p: (u32, u32, u32), q: (u32, u32, u32))
    ensures
        turned(p) == turned(q) <==> p == q,
        turned(turned(p)) == (p.0, opposite(p.1), opposite(p.2)),
        turned(turned(turned(turned(p)))) == p,
{
}

/// Forward stays, up is the second axis of the view, and left is the opposite
/// of its third.
pub proof fn axes_of_the_view(x: u32, y: u32, z: u32)
    ensures
        turned((x, y, z)).0 == x,
        turned((x, y, z)).1 == z,
        y < 0x8000_0000 ==> turned((x, y, z)).2 == y + 0x8000_0000,
        y >= 0x8000_0000 ==> turned((x, y, z)).2 == y - 0x8000_0000,
{
}

} // verus!
