//! The thresholds of the segmentation, and how they are tuned by keyboard.
//! Numbers with fractions are single-precision bit patterns.

use crate::single::{at_most, is_less, is_nan, less, nan};
use vstd::prelude::*;

verus! {

/// The pattern of 5.0.
pub const FIVE: u32 = 0x40a0_0000;

/// The pattern of 1.0.
pub const ONE: u32 = 0x3f80_0000;

/// The pattern of 0.5.
pub const HALF: u32 = 0x3f00_0000;

/// The pattern of 0.05.
pub const TWENTIETH: u32 = 0x3d4c_cccd;

/// The pattern of 0.01.
pub const HUNDREDTH: u32 = 0x3c23_d70a;

/// The thresholds that the segmentation reads each revolution.
#[derive(Clone, Copy)]
pub struct SegParams {
    /// Whether revolutions are segmented at all.
    pub seg_enabled: bool,
    /// Factor on the expected distance of neighbours in a ring.
    pub th_d: u32,
    /// Angle below which a gap between two surfaces is concave, in degrees.
    pub th_z_deg: u32,
    /// Factor on the expected distance of neighbouring rings.
    pub th_d_second: u32,
    /// What is added to that factor per degree between the rings.
    pub k_deg: u32,
    /// Weight of heights in the distance of segments.
    pub z_weight: u32,
    /// Points of the smallest cluster that is published.
    pub min_cluster_points: u32,
    /// Floor under both distance thresholds, in metres.
    pub min_gap_m: u32,
    /// Whether low points are left out.
    pub height_filter_enabled: bool,
    /// Height below which points are then left out, in metres.
    pub min_height: u32,
}

impl Default for SegParams {
    fn default() -> (p: Self)
        ensures
            p.seg_enabled,
            p.th_d == FIVE,
            p.th_z_deg == FIVE,
            p.th_d_second == HALF,
            p.k_deg == ONE,
            p.z_weight == ONE,
            p.min_cluster_points == 10,
            p.min_gap_m == HALF,
            !p.height_filter_enabled,
            p.min_height == 0,
    {
        SegParams {
            seg_enabled: true,
            th_d: FIVE,
            th_z_deg: FIVE,
            th_d_second: HALF,
            k_deg: ONE,
            z_weight: ONE,
            min_cluster_points: 10,
            min_gap_m: HALF,
            height_filter_enabled: false,
            min_height: 0,
        }
    }
}

/// A threshold that can be tuned.
#[derive(Clone, Copy, PartialEq, Eq, Debug, Structural)]
pub enum Knob {
    ThD,
    ThZ,
    ThDSecond,
    KDeg,
    ZWeight,
    MinClusterPoints,
    MinGap,
}

/// A tap that turns a knob by one step, up or down.
#[derive(Clone, Copy, PartialEq, Eq, Debug, Structural)]
pub struct Tap {
    pub knob: Knob,
    pub up: bool,
}

/// The key of each tap.
#[derive(Clone, Copy, PartialEq, Eq, Debug, Structural)]
pub enum Key {
    BracketLeft,
    BracketRight,
    Semicolon,
    Quote,
    Minus,
    Equal,
    Comma,
    Period,
    Backquote,
    Backslash,
    Digit9,
    Digit0,
    KeyN,
    KeyM,
}

/// The tap that a key stands for.
pub open spec fn tap_of(key: Key) -> Tap {
    match key {
        Key::BracketLeft => Tap { knob: Knob::ThD, up: false },
        Key::BracketRight => Tap { knob: Knob::ThD, up: true },
        Key::Semicolon => Tap { knob: Knob::ThZ, up: false },
        Key::Quote => Tap { knob: Knob::ThZ, up: true },
        Key::Minus => Tap { knob: Knob::ThDSecond, up: false },
        Key::Equal => Tap { knob: Knob::ThDSecond, up: true },
        Key::Comma => Tap { knob: Knob::KDeg, up: false },
        Key::Period => Tap { knob: Knob::KDeg, up: true },
        Key::Backquote => Tap { knob: Knob::ZWeight, up: false },
        Key::Backslash => Tap { knob: Knob::ZWeight, up: true },
        Key::Digit9 => Tap { knob: Knob::MinClusterPoints, up: false },
        Key::Digit0 => Tap { knob: Knob::MinClusterPoints, up: true },
        Key::KeyN => Tap { knob: Knob::MinGap, up: false },
        Key::KeyM => Tap { knob: Knob::MinGap, up: true },
    }
}

/// The tap that a key stands for.
pub fn key_tap(key: Key) -> (t: Tap)
    ensures
        t == tap_of(key),
{
    match key {
        Key::BracketLeft => Tap { knob: Knob::ThD, up: false },
        Key::BracketRight => Tap { knob: Knob::ThD, up: true },
        Key::Semicolon => Tap { knob: Knob::ThZ, up: false },
        Key::Quote => Tap { knob: Knob::ThZ, up: true },
        Key::Minus => Tap { knob: Knob::ThDSecond, up: false },
        Key::Equal => Tap { knob: Knob::ThDSecond, up: true },
        Key::Comma => Tap { knob: Knob::KDeg, up: false },
        Key::Period => Tap { knob: Knob::KDeg, up: true },
        Key::Backquote => Tap { knob: Knob::ZWeight, up: false },
        Key::Backslash => Tap { knob: Knob::ZWeight, up: true },
        Key::Digit9 => Tap { knob: Knob::MinClusterPoints, up: false },
        Key::Digit0 => Tap { knob: Knob::MinClusterPoints, up: true },
        Key::KeyN => Tap { knob: Knob::MinGap, up: false },
        Key::KeyM => Tap { knob: Knob::MinGap, up: true },
    }
}

/// By how much a step turns a knob. The number of points goes by whole ones.
pub open spec fn step_size(knob: Knob) -> Option<u32> {
    match knob {
        Knob::ThD => Some(HALF),
        Knob::ThZ => Some(HALF),
        Knob::ThDSecond => Some(HUNDREDTH),
        Knob::KDeg => Some(TWENTIETH),
        Knob::ZWeight => Some(TWENTIETH),
        Knob::MinClusterPoints => None,
        Knob::MinGap => Some(HUNDREDTH),
    }
}

/// Below what a step down does not turn a knob.
pub open spec fn floor_of(knob: Knob) -> Option<u32> {
    match knob {
        Knob::ThD => Some(HUNDREDTH),
        Knob::ThZ => Some(TWENTIETH),
        Knob::ThDSecond => Some(HUNDREDTH),
        Knob::KDeg => Some(0),
        Knob::ZWeight => None,
        Knob::MinClusterPoints => None,
        Knob::MinGap => Some(0),
    }
}

/// The larger of a value and its floor; the floor where the value is not a
/// number.
pub open spec fn floored(value: u32, floor: Option<u32>) -> u32 {
    match floor {
        None => value,
        Some(f) => if nan(value) || less(value, f) {
            f
        } else {
            value
        },
    }
}

/// By how much a step turns a knob. The number of points goes by whole ones.
pub fn knob_step(knob: Knob) -> (r: Option<u32>)
    ensures
        r == step_size(knob),
{
    match knob {
        Knob::ThD => Some(HALF),
        Knob::ThZ => Some(HALF),
        Knob::ThDSecond => Some(HUNDREDTH),
        Knob::KDeg => Some(TWENTIETH),
        Knob::ZWeight => Some(TWENTIETH),
        Knob::MinClusterPoints => None,
        Knob::MinGap => Some(HUNDREDTH),
    }
}

fn apply_floor(value: u32, floor: u32) -> (r: u32)
    ensures
        r == floored(value, Some(floor)),
{
    if is_nan(value) || is_less(value, floor) {
        floor
    } else {
        value
    }
}

impl SegParams {
    /// Height below which points are left out, if they are.
    pub fn height_floor(&self) -> (r: Option<u32>)
        ensures
            r == if self.height_filter_enabled {
                Some(self.min_height)
            } else {
                None
            },
    {
        if self.height_filter_enabled {
            Some(self.min_height)
        } else {
            None
        }
    }

    /// Whether a revolution of so many points is segmented.
    pub fn segments(&self, points: usize) -> (r: bool)
        ensures
            r == (self.seg_enabled && points > 0),
    {
        self.seg_enabled && points > 0
    }

    /// Where a knob stands.
    pub open spec fn value(&self, knob: Knob) -> u32 {
        match knob {
            Knob::ThD => self.th_d,
            Knob::ThZ => self.th_z_deg,
            Knob::ThDSecond => self.th_d_second,
            Knob::KDeg => self.k_deg,
            Knob::ZWeight => self.z_weight,
            Knob::MinClusterPoints => self.min_cluster_points,
            Knob::MinGap => self.min_gap_m,
        }
    }

    /// Where a knob stands.
    pub fn get(&self, knob: Knob) -> (r: u32)
        ensures
            r == self.value(knob),
    {
        match knob {
            Knob::ThD => self.th_d,
            Knob::ThZ => self.th_z_deg,
            Knob::ThDSecond => self.th_d_second,
            Knob::KDeg => self.k_deg,
            Knob::ZWeight => self.z_weight,
            Knob::MinClusterPoints => self.min_cluster_points,
            Knob::MinGap => self.min_gap_m,
        }
    }
}

/// Whether `after` is `before` with one knob turned by a tap.
pub open spec fn tuned(before: SegParams, after: SegParams, tap: Tap, moved: u32) -> bool {
    &&& after.value(tap.knob) == if tap.knob is MinClusterPoints {
        if tap.up {
            (before.min_cluster_points + 1) as u32
        } else if before.min_cluster_points > 0 {
            (before.min_cluster_points - 1) as u32
        } else {
            0
        }
    } else if tap.up {
        moved
    } else {
        floored(moved, floor_of(tap.knob))
    }
    &&& forall|k: Knob| k != tap.knob ==> #[trigger] after.value(k) == before.value(k)
    &&& after.seg_enabled == before.seg_enabled
    &&& after.height_filter_enabled == before.height_filter_enabled
    &&& after.min_height == before.min_height
}

/// Turns a knob by one tap. `moved` is the sum of where the knob stood
/// and its step, or the difference where the tap is down; the number of
/// points is counted here, down to zero. No other knob moves.
pub fn tune_seg_params(params: &mut SegParams, tap: Tap, moved: u32)
    requires
        tap.knob is MinClusterPoints && tap.up ==> old(params).min_cluster_points < u32::MAX,
    ensures
        final(params).value(tap.knob) == if tap.knob is MinClusterPoints {
            if tap.up {
                (old(params).min_cluster_points + 1) as u32
            } else if old(params).min_cluster_points > 0 {
                (old(params).min_cluster_points - 1) as u32
            } else {
                0
            }
        } else if tap.up {
            moved
        } else {
            floored(moved, floor_of(tap.knob))
        },
        forall|k: Knob| k != tap.knob ==> #[trigger] final(params).value(k) == old(params).value(k),
        final(params).seg_enabled == old(params).seg_enabled,
        final(params).height_filter_enabled == old(params).height_filter_enabled,
        final(params).min_height == old(params).min_height,
        tuned(*old(params), *final(params), tap, moved),
{
    let up: bool = tap.up;
    match tap.knob {
        Knob::ThD => {
            params.th_d = if up {
                moved
            } else {
                apply_floor(moved, HUNDREDTH)
            };
        },
        Knob::ThZ => {
            params.th_z_deg = if up {
                moved
            } else {
                apply_floor(moved, TWENTIETH)
            };
        },
        Knob::ThDSecond => {
            params.th_d_second = if up {
                moved
            } else {
                apply_floor(moved, HUNDREDTH)
            };
        },
        Knob::KDeg => {
            params.k_deg = if up {
                moved
            } else {
                apply_floor(moved, 0)
            };
        },
        Knob::ZWeight => {
            params.z_weight = moved;
        },
        Knob::MinClusterPoints => {
            params.min_cluster_points = if up {
                params.min_cluster_points + 1
            } else {
                params.min_cluster_points.saturating_sub(1)
            };
        },
        Knob::MinGap => {
            params.min_gap_m = if up {
                moved
            } else {
                apply_floor(moved, 0)
            };
        },
    }
}

/// The keys in the order in which their taps are taken when several are
/// pressed at once.
pub open spec fn key_order() -> Seq<Key> {
    seq![
        Key::BracketLeft,
        Key::BracketRight,
        Key::Semicolon,
        Key::Quote,
        Key::Minus,
        Key::Equal,
        Key::Comma,
        Key::Period,
        Key::Backquote,
        Key::Backslash,
        Key::Digit9,
        Key::Digit0,
        Key::KeyN,
        Key::KeyM,
    ]
}

/// The keys in the order in which their taps are taken when several are
/// pressed at once.
pub fn tuning_keys() -> (r: Vec<Key>)
    ensures
        r@ == key_order(),
{
    let mut v: Vec<Key> = Vec::new();
    v.push(Key::BracketLeft);
    v.push(Key::BracketRight);
    v.push(Key::Semicolon);
    v.push(Key::Quote);
    v.push(Key::Minus);
    v.push(Key::Equal);
    v.push(Key::Comma);
    v.push(Key::Period);
    v.push(Key::Backquote);
    v.push(Key::Backslash);
    v.push(Key::Digit9);
    v.push(Key::Digit0);
    v.push(Key::KeyN);
    v.push(Key::KeyM);
    assert(v@ =~= key_order());
    v
}

/// A step down never leaves a knob below its floor, whatever it was moved to.
pub proof fn floor_holds(moved: u32, knob: Knob)
    ensures
        floor_of(knob) matches Some(f) ==> at_most(f, floored(moved, floor_of(knob))),
{
}

/// Every knob is turned by two keys of its own: one down, and the next one
/// up.
pub proof fn keys_come_in_pairs(i: int, j: int)
    requires
        0 <= i < 14,
        0 <= j < 14,
    ensures
        tap_of(key_order()[i]).up <==> i % 2 == 1,
        tap_of(key_order()[i]).knob == tap_of(key_order()[j]).knob <==> i / 2 == j / 2,
{
}

/// Which threshold each pair of keys turns, the first key down and the second
/// up.
pub proof fn keys_turn_their_thresholds(p: SegParams)
    ensures
        p.value(tap_of(Key::BracketLeft).knob) == p.th_d,
        p.value(tap_of(Key::BracketRight).knob) == p.th_d,
        p.value(tap_of(Key::Semicolon).knob) == p.th_z_deg,
        p.value(tap_of(Key::Quote).knob) == p.th_z_deg,
        p.value(tap_of(Key::Minus).knob) == p.th_d_second,
        p.value(tap_of(Key::Equal).knob) == p.th_d_second,
        p.value(tap_of(Key::Comma).knob) == p.k_deg,
        p.value(tap_of(Key::Period).knob) == p.k_deg,
        p.value(tap_of(Key::Backquote).knob) == p.z_weight,
        p.value(tap_of(Key::Backslash).knob) == p.z_weight,
        p.value(tap_of(Key::Digit9).knob) == p.min_cluster_points,
        p.value(tap_of(Key::Digit0).knob) == p.min_cluster_points,
        p.value(tap_of(Key::KeyN).knob) == p.min_gap_m,
        p.value(tap_of(Key::KeyM).knob) == p.min_gap_m,
        !tap_of(Key::BracketLeft).up && tap_of(Key::BracketRight).up,
        !tap_of(Key::Semicolon).up && tap_of(Key::Quote).up,
        !tap_of(Key::Minus).up && tap_of(Key::Equal).up,
        !tap_of(Key::Comma).up && tap_of(Key::Period).up,
        !tap_of(Key::Backquote).up && tap_of(Key::Backslash).up,
        !tap_of(Key::Digit9).up && tap_of(Key::Digit0).up,
        !tap_of(Key::KeyN).up && tap_of(Key::KeyM).up,
{
}

/// By how much a step turns each knob, and where a step down stops: 0.5 down
/// to 0.01 and 0.5 down to 0.05 for the two thresholds within rings, 0.01 down
/// to 0.01 for the one between rings, 0.05 down to 0 for what is added to it,
/// 0.05 without a floor for the weight of heights, 0.01 down to 0 for the gap,
/// and whole points.
pub proof fn steps_and_floors_of_the_knobs(moved: u32)
    ensures
        step_size(Knob::ThD) == Some(0x3f00_0000u32),
        step_size(Knob::ThZ) == Some(0x3f00_0000u32),
        step_size(Knob::ThDSecond) == Some(0x3c23_d70au32),
        step_size(Knob::KDeg) == Some(0x3d4c_cccdu32),
        step_size(Knob::ZWeight) == Some(0x3d4c_cccdu32),
        step_size(Knob::MinClusterPoints) is None,
        step_size(Knob::MinGap) == Some(0x3c23_d70au32),
        floored(moved, floor_of(Knob::ThD)) == if at_most(0x3c23_d70a, moved) {
            moved
        } else {
            0x3c23_d70a
        },
        floored(moved, floor_of(Knob::ThZ)) == if at_most(0x3d4c_cccd, moved) {
            moved
        } else {
            0x3d4c_cccd
        },
        floored(moved, floor_of(Knob::ThDSecond)) == if at_most(0x3c23_d70a, moved) {
            moved
        } else {
            0x3c23_d70a
        },
        floored(moved, floor_of(Knob::KDeg)) == if at_most(0, moved) {
            moved
        } else {
            0
        },
        floored(moved, floor_of(Knob::ZWeight)) == moved,
        floored(moved, floor_of(Knob::MinGap)) == if at_most(0, moved) {
            moved
        } else {
            0
        },
{
}

/// The numbers that thresholds start with and are turned by, as patterns: 5,
/// 1, 0.5, 0.05 and 0.01.
pub proof fn numbers_of_the_thresholds()
    ensures
        FIVE == 0x40a0_0000,
        ONE == 0x3f80_0000,
        HALF == 0x3f00_0000,
        TWENTIETH == 0x3d4c_cccd,
        HUNDREDTH == 0x3c23_d70a,
{
}

/// What a key does to the thresholds: it sets its own to what that was moved
/// to, where it turns up, or down to no less than the floor; the number of
/// points goes up and down by one, down to zero. No other threshold moves, and
/// no key switches anything on or off.
pub proof fn a_key_moves_its_own_threshold(
    before: SegParams,
    after: SegParams,
    key: Key,
    moved: u32,
)
    requires
        before.min_cluster_points < u32::MAX,
        tuned(before, after, tap_of(key), moved),
    ensures
        after.seg_enabled == before.seg_enabled,
        after.height_filter_enabled == before.height_filter_enabled,
        after.min_height == before.min_height,
        after.th_d == if key is BracketRight || (key is BracketLeft && at_most(0x3c23_d70a, moved)) {
            moved
        } else if key is BracketLeft {
            0x3c23_d70a
        } else {
            before.th_d
        },
        after.th_z_deg == if key is Quote || (key is Semicolon && at_most(0x3d4c_cccd, moved)) {
            moved
        } else if key is Semicolon {
            0x3d4c_cccd
        } else {
            before.th_z_deg
        },
        after.th_d_second == if key is Equal || (key is Minus && at_most(0x3c23_d70a, moved)) {
            moved
        } else if key is Minus {
            0x3c23_d70a
        } else {
            before.th_d_second
        },
        after.k_deg == if key is Period || (key is Comma && at_most(0, moved)) {
            moved
        } else if key is Comma {
            0
        } else {
            before.k_deg
        },
        after.z_weight == if key is Backslash || key is Backquote {
            moved
        } else {
            before.z_weight
        },
        after.min_cluster_points == if key is Digit0 {
            before.min_cluster_points + 1
        } else if key is Digit9 && before.min_cluster_points > 0 {
            before.min_cluster_points - 1
        } else {
            before.min_cluster_points as int
        },
        after.min_gap_m == if key is KeyM || (key is KeyN && at_most(0, moved)) {
            moved
        } else if key is KeyN {
            0
        } else {
            before.min_gap_m
        },
{
    assert(after.value(Knob::ThD) == after.th_d && before.value(Knob::ThD) == before.th_d);
    assert(after.value(Knob::ThZ) == after.th_z_deg && before.value(Knob::ThZ) == before.th_z_deg);
    assert(after.value(Knob::ThDSecond) == after.th_d_second && before.value(Knob::ThDSecond)
        == before.th_d_second);
    assert(after.value(Knob::KDeg) == after.k_deg && before.value(Knob::KDeg) == before.k_deg);
    assert(after.value(Knob::ZWeight) == after.z_weight && before.value(Knob::ZWeight)
        == before.z_weight);
    assert(after.value(Knob::MinClusterPoints) == after.min_cluster_points && before.value(
        Knob::MinClusterPoints,
    ) == before.min_cluster_points);
    assert(after.value(Knob::MinGap) == after.min_gap_m && before.value(Knob::MinGap)
        == before.min_gap_m);
}

} // verus!
