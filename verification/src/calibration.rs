//! Per-channel calibration angles, in hundredths of a degree.

use crate::bytes::be_u16;
use vstd::prelude::*;
use vstd::slice::slice_subrange;

verus! {

/// Channels of the sensor.
pub const LASER_NUM: usize = 32;

/// Bytes of one calibration table: a sign and two magnitude bytes per channel.
pub const CALIBRATION_LEN: usize = 96;

/// The sign byte of a channel that has not been calibrated.
pub const UNCALIBRATED: u8 = 0xff;

/// Calibration of all channels, or of none.
pub struct ChanAngles {
    /// Vertical angle of each channel.
    pub vert: Vec<i32>,
    /// Horizontal offset of each channel.
    pub horiz: Vec<i32>,
    /// Ring of each channel: its place by ascending vertical angle.
    pub user_chan: Vec<u16>,
}

/// The angle that entry `i` of a calibration table holds: a big-endian
/// magnitude, negative where the sign byte is set.
pub open spec fn entry_angle(table: Seq<u8>, i: int) -> int {
    let mag = table[i * 3 + 1] * 256 + table[i * 3 + 2];
    if table[i * 3] != 0 {
        -mag
    } else {
        mag
    }
}

/// Whether entry `i` of a calibration table is calibrated and in range.
pub open spec fn entry_ok(table: Seq<u8>, i: int) -> bool {
    table[i * 3] != UNCALIBRATED && -9000 <= entry_angle(table, i) < 18000
}

/// Whether all entries of a calibration table are.
pub open spec fn table_ok(table: Seq<u8>) -> bool {
    forall|i: int| 0 <= i < 32 ==> #[trigger] entry_ok(table, i)
}

/// How many of the first `upto` angles lie below `v`.
pub open spec fn count_below(angles: Seq<i32>, v: i32, upto: int) -> nat
    decreases upto,
{
    if upto <= 0 {
        0
    } else {
        count_below(angles, v, upto - 1) + if angles[upto - 1] < v {
            1nat
        } else {
            0nat
        }
    }
}

/// Entry `i` of a calibration table, if it is calibrated and in range.
fn read_entry(table: &[u8], i: usize) -> (r: Option<i32>)
    requires
        table@.len() >= CALIBRATION_LEN,
        i < LASER_NUM,
    ensures
        r is Some <==> entry_ok(table@, i as int),
        r matches Some(v) ==> v == entry_angle(table@, i as int),
{
    let sign: u8 = table[i * 3];
    if sign == UNCALIBRATED {
        return None;
    }
    let mag: i32 = be_u16(slice_subrange(table, i * 3 + 1, i * 3 + 3)) as i32;
    let v: i32 = if sign != 0 {
        -mag
    } else {
        mag
    };
    if v < -9000 || v >= 18000 {
        return None;
    }
    Some(v)
}

impl ChanAngles {
    /// Whether every channel is calibrated.
    pub open spec fn wf(&self) -> bool {
        &&& self.vert@.len() == LASER_NUM
        &&& self.horiz@.len() == LASER_NUM
        &&& self.user_chan@.len() == LASER_NUM
        &&& forall|i: int|
            0 <= i < 32 ==> -9000 <= #[trigger] self.vert@[i] < 18000
        &&& forall|i: int|
            0 <= i < 32 ==> -9000 <= #[trigger] self.horiz@[i] < 18000
        &&& forall|i: int|
            0 <= i < 32 ==> #[trigger] self.user_chan@[i] == count_below(
                self.vert@,
                self.vert@[i],
                32,
            )
    }

    /// No calibration yet.
    pub fn empty() -> (c: Self)
        ensures
            c.vert@.len() == 0,
            c.horiz@.len() == 0,
            c.user_chan@.len() == 0,
    {
        ChanAngles { vert: Vec::new(), horiz: Vec::new(), user_chan: Vec::new() }
    }

    /// Reads the two calibration tables of a status packet. `None` unless
    /// every entry of both is calibrated and in range.
    pub fn from_difop(vert_bytes: &[u8], horiz_bytes: &[u8]) -> (r: Option<Self>)
        requires
            vert_bytes@.len() >= CALIBRATION_LEN,
            horiz_bytes@.len() >= CALIBRATION_LEN,
        ensures
            r is Some <==> table_ok(vert_bytes@) && table_ok(horiz_bytes@),
            r matches Some(c) ==> {
                &&& c.wf()
                &&& forall|i: int|
                    0 <= i < 32 ==> #[trigger] c.vert@[i] == entry_angle(vert_bytes@, i)
                &&& forall|i: int|
                    0 <= i < 32 ==> #[trigger] c.horiz@[i] == entry_angle(horiz_bytes@, i)
            },
    {
        let mut vert: Vec<i32> = Vec::new();
        let mut horiz: Vec<i32> = Vec::new();
        let mut i: usize = 0;
        while i < LASER_NUM
            invariant
                i <= LASER_NUM,
                vert_bytes@.len() >= CALIBRATION_LEN,
                horiz_bytes@.len() >= CALIBRATION_LEN,
                vert@.len() == i,
                horiz@.len() == i,
                forall|k: int| 0 <= k < i ==> #[trigger] entry_ok(vert_bytes@, k),
                forall|k: int| 0 <= k < i ==> #[trigger] entry_ok(horiz_bytes@, k),
                forall|k: int| 0 <= k < i ==> #[trigger] vert@[k] == entry_angle(vert_bytes@, k),
                forall|k: int| 0 <= k < i ==> #[trigger] horiz@[k] == entry_angle(horiz_bytes@, k),
            decreases LASER_NUM - i,
        {
            match read_entry(vert_bytes, i) {
                None => {
                    return None;
                },
                Some(v) => {
                    vert.push(v);
                },
            }
            match read_entry(horiz_bytes, i) {
                None => {
                    return None;
                },
                Some(h) => {
                    horiz.push(h);
                },
            }
            i = i + 1;
        }
        assert(table_ok(vert_bytes@));
        assert(table_ok(horiz_bytes@));
        assert forall|k: int| 0 <= k < 32 implies -9000 <= #[trigger] vert@[k] < 18000 by {
            assert(entry_ok(vert_bytes@, k));
        }
        assert forall|k: int| 0 <= k < 32 implies -9000 <= #[trigger] horiz@[k] < 18000 by {
            assert(entry_ok(horiz_bytes@, k));
        }
        let user_chan = rank_channels(&vert);
        Some(ChanAngles { vert, horiz, user_chan })
    }
}

/// The place of each angle by ascending order.
fn rank_channels(vert: &Vec<i32>) -> (r: Vec<u16>)
    requires
        vert@.len() == LASER_NUM,
    ensures
        r@.len() == LASER_NUM,
        forall|i: int|
            0 <= i < 32 ==> #[trigger] r@[i] == count_below(vert@, vert@[i], 32),
{
    let mut r: Vec<u16> = Vec::new();
    let mut i: usize = 0;
    while i < LASER_NUM
        invariant
            i <= LASER_NUM,
            vert@.len() == LASER_NUM,
            r@.len() == i,
            forall|k: int| 0 <= k < i ==> #[trigger] r@[k] == count_below(vert@, vert@[k], 32),
        decreases LASER_NUM - i,
    {
        let mut below: u16 = 0;
        let mut j: usize = 0;
        while j < LASER_NUM
            invariant
                j <= LASER_NUM,
                i < LASER_NUM,
                vert@.len() == LASER_NUM,
                below <= j,
                below == count_below(vert@, vert@[i as int], j as int),
            decreases LASER_NUM - j,
        {
            if vert[j] < vert[i] {
                below = below + 1;
            }
            j = j + 1;
        }
        r.push(below);
        i = i + 1;
    }
    r
}

proof fn count_bound(angles: Seq<i32>, v: i32, upto: int)
    requires
        0 <= upto,
    ensures
        count_below(angles, v, upto) <= upto,
    decreases upto,
{
    if upto > 0 {
        count_bound(angles, v, upto - 1);
    }
}

proof fn count_grows(angles: Seq<i32>, v: i32, w: i32, upto: int)
    requires
        v <= w,
    ensures
        count_below(angles, v, upto) <= count_below(angles, w, upto),
    decreases upto,
{
    if upto > 0 {
        count_grows(angles, v, w, upto - 1);
    }
}

proof fn count_strict(angles: Seq<i32>, v: i32, w: i32, upto: int, at: int)
    requires
        v < w,
        0 <= at < upto,
        angles[at] == v,
    ensures
        count_below(angles, v, upto) < count_below(angles, w, upto),
    decreases upto,
{
    if at == upto - 1 {
        count_grows(angles, v, w, upto - 1);
    } else {
        count_strict(angles, v, w, upto - 1, at);
    }
}

/// No angle is below itself, so one of the first `upto` does not count.
proof fn count_leaves_itself_out(angles: Seq<i32>, v: i32, upto: int, at: int)
    requires
        0 <= at < upto,
        angles[at] == v,
    ensures
        count_below(angles, v, upto) < upto,
    decreases upto,
{
    if at == upto - 1 {
        count_bound(angles, v, upto - 1);
    } else {
        count_leaves_itself_out(angles, v, upto - 1, at);
    }
}

/// The ring of a channel is one of the sensor's rings, and rings are ordered
/// as vertical angles are: a lower channel has a lower ring, and channels
/// share a ring only where they share an angle.
pub proof fn rings_follow_angles(c: ChanAngles, i: int, j: int)
    requires
        c.wf(),
        0 <= i < 32,
        0 <= j < 32,
    ensures
        c.user_chan@[i] < 32,
        c.user_chan@[i] < c.user_chan@[j] <==> c.vert@[i] < c.vert@[j],
        c.user_chan@[i] == c.user_chan@[j] <==> c.vert@[i] == c.vert@[j],
{
    count_leaves_itself_out(c.vert@, c.vert@[i], 32, i);
    if c.vert@[i] < c.vert@[j] {
        count_strict(c.vert@, c.vert@[i], c.vert@[j], 32, i);
    } else if c.vert@[j] < c.vert@[i] {
        count_strict(c.vert@, c.vert@[j], c.vert@[i], 32, j);
    }
}

/// What a calibration table says of a channel stands in three bytes of it: one
/// of sign and two of magnitude, the most significant first. A table is
/// complete where no sign byte has all bits set and every angle is from -90
/// degrees up to but not 180.
pub proof fn angles_stand_at_their_bytes(table: Seq<u8>, i: int)
    requires
        table.len() >= 96,
        0 <= i < 32,
    ensures
        table[3 * i] == 0 ==> entry_angle(table, i) == 256 * table[3 * i + 1] + table[3 * i + 2],
        table[3 * i] != 0 ==> entry_angle(table, i) == -(256 * table[3 * i + 1] + table[3 * i + 2]),
        table_ok(table) ==> table[3 * i] != 0xff && -9000 <= entry_angle(table, i) < 18000,
{
    if table_ok(table) {
        assert(entry_ok(table, i));
    }
}

/// A table that is not complete has a channel whose sign byte has all bits set
/// or whose angle is out of range.
pub proof fn incomplete_tables_have_a_bad_channel(table: Seq<u8>) -> (k: int)
    requires
        table.len() >= 96,
        !table_ok(table),
    ensures
        0 <= k < 32,
        ({
            let mag = 256 * table[3 * k + 1] + table[3 * k + 2];
            ||| table[3 * k] == 0xff
            ||| (table[3 * k] == 0 && mag >= 18000)
            ||| (table[3 * k] != 0 && mag > 9000)
        }),
{
    let k = choose|k: int| 0 <= k < 32 && !#[trigger] entry_ok(table, k);
    angles_stand_at_their_bytes(table, k);
    k
}

/// The ring of a channel is the number of channels with a smaller vertical
/// angle.
pub proof fn ring_is_the_number_of_lower_channels(c: ChanAngles, i: int)
    requires
        c.wf(),
        0 <= i < 32,
    ensures
        Set::new(|k: int| 0 <= k < 32 && c.vert@[k] < c.vert@[i]).finite(),
        c.user_chan@[i] == Set::new(|k: int| 0 <= k < 32 && c.vert@[k] < c.vert@[i]).len(),
{
    counted_set(c.vert@, c.vert@[i], 32);
}

proof fn counted_set(angles: Seq<i32>, v: i32, upto: int)
    requires
        0 <= upto,
    ensures
        Set::new(|k: int| 0 <= k < upto && angles[k] < v).finite(),
        Set::new(|k: int| 0 <= k < upto && angles[k] < v).len() == count_below(angles, v, upto),
    decreases upto,
{
    let all = Set::new(|k: int| 0 <= k < upto && angles[k] < v);
    if upto == 0 {
        assert(all =~= Set::empty());
    } else {
        counted_set(angles, v, upto - 1);
        let rest = Set::new(|k: int| 0 <= k < upto - 1 && angles[k] < v);
        if angles[upto - 1] < v {
            assert(all =~= rest.insert(upto - 1));
        } else {
            assert(all =~= rest);
        }
    }
}

} // verus!
