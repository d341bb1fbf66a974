//! Layout of the sensor's two kinds of packets: measurements (MSOP) and
//! status (DIFOP).

use crate::angle::{
    block_step, compute_block_iter, crosses_blind, group_size, steps_go_forward, BLOCKS_PER_PKT,
};
use crate::bytes::{be_u16, be_u32, be_u48, be_value};
use crate::calibration::LASER_NUM;
use vstd::prelude::*;
use vstd::slice::slice_subrange;

verus! {

/// Bytes of a measurement packet.
pub const MSOP_LEN: usize = 1248;

/// Bytes of a status packet.
pub const DIFOP_LEN: usize = 1248;

/// Bytes before the first block.
pub const MSOP_HEADER_LEN: usize = 42;

/// Bytes of a block: mark, azimuth, and three per channel.
pub const MSOP_BLOCK_LEN: usize = 100;

/// Offset of the rotation speed in a status packet.
pub const DIFOP_RPM: usize = 8;

/// Offset of the start of the field of view.
pub const DIFOP_FOV_START: usize = 32;

/// Offset of the end of the field of view.
pub const DIFOP_FOV_END: usize = 34;

/// Offset of the return mode.
pub const DIFOP_RETURN_MODE: usize = 300;

/// Offset of the table of vertical angles.
pub const DIFOP_VERT_ANGLE_CALI: usize = 468;

/// Offset of the table of horizontal angles.
pub const DIFOP_HORIZ_ANGLE_CALI: usize = 564;

/// Whether a packet begins with the mark of measurements.
pub open spec fn msop_marked(pkt: Seq<u8>) -> bool {
    pkt.take(4) == seq![0x55u8, 0xaau8, 0x05u8, 0x5au8]
}

/// Whether a packet begins with the mark of status.
pub open spec fn difop_marked(pkt: Seq<u8>) -> bool {
    pkt.take(8) == seq![0xa5u8, 0xffu8, 0x00u8, 0x5au8, 0x11u8, 0x11u8, 0x55u8, 0x55u8]
}

/// Offset of block `b`.
pub open spec fn block_base(b: int) -> int {
    42 + 100 * b
}

/// Whether block `b` begins with the mark of a block.
pub open spec fn block_marked(pkt: Seq<u8>, b: int) -> bool {
    pkt[block_base(b)] == 0xff && pkt[block_base(b) + 1] == 0xee
}

/// Azimuth of block `b`.
pub open spec fn block_azimuth(pkt: Seq<u8>, b: int) -> int {
    pkt[block_base(b) + 2] * 256 + pkt[block_base(b) + 3]
}

/// Azimuths of all blocks.
pub open spec fn azimuths_of(pkt: Seq<u8>) -> Seq<i32> {
    Seq::new(12, |b: int| block_azimuth(pkt, b) as i32)
}

/// How many blocks stand before the first one without its mark, from block
/// `from` on.
pub open spec fn marked_blocks(pkt: Seq<u8>, from: int) -> int
    decreases 12 - from,
{
    if from >= 12 {
        12
    } else if block_marked(pkt, from) {
        marked_blocks(pkt, from + 1)
    } else {
        from
    }
}

/// What one channel measured.
#[derive(Clone, Copy)]
pub struct Channel {
    /// Distance in units of the sensor's resolution.
    pub dist_raw: u16,
    pub intensity: u8,
}

/// Channel `c` of block `b`.
pub open spec fn channel_at(pkt: Seq<u8>, b: int, c: int) -> Channel {
    let at = block_base(b) + 4 + 3 * c;
    Channel { dist_raw: (pkt[at] * 256 + pkt[at + 1]) as u16, intensity: pkt[at + 2] }
}

/// One block of a measurement packet.
pub struct MsopBlock {
    /// Azimuth, hundredths of a degree.
    pub azimuth: i32,
    /// Azimuth step to the next block.
    pub az_diff: i32,
    /// How many time steps lie between the first block and this one.
    pub steps_before: usize,
    pub channels: Vec<Channel>,
}

/// A measurement packet, up to the first block without its mark.
pub struct MsopPacket {
    /// Seconds of the sensor's clock.
    pub sec: u64,
    /// Microseconds of the sensor's clock.
    pub usec: u32,
    pub blocks: Vec<MsopBlock>,
    /// For each time step between blocks, whether it crosses the blind part of
    /// the circle.
    pub crossed: Vec<bool>,
}

impl MsopPacket {
    /// Whether the packet was cut short by a block without its mark.
    pub fn is_cut(&self) -> (r: bool)
        ensures
            r == (self.blocks@.len() < BLOCKS_PER_PKT),
    {
        self.blocks.len() < BLOCKS_PER_PKT
    }
}

/// Whether `block` is block `b` of a packet.
pub open spec fn is_block(
    block: MsopBlock,
    pkt: Seq<u8>,
    block_az_duration: int,
    dual: bool,
    b: int,
) -> bool {
    &&& block.azimuth == block_azimuth(pkt, b)
    &&& block.az_diff == block_step(azimuths_of(pkt), block_az_duration, dual, b)
    &&& block.steps_before == b / group_size(dual)
    &&& block.channels@.len() == LASER_NUM
    &&& forall|c: int|
        0 <= c < 32 ==> #[trigger] block.channels@[c] == channel_at(pkt, b, c)
}

/// Whether `p` is what a measurement packet says.
pub open spec fn is_msop(
    p: MsopPacket,
    pkt: Seq<u8>,
    block_az_duration: int,
    dual: bool,
) -> bool {
    &&& p.sec == be_value(pkt.subrange(20, 26))
    &&& p.usec == be_value(pkt.subrange(26, 30))
    &&& p.blocks@.len() == marked_blocks(pkt, 0)
    &&& forall|b: int|
        0 <= b < p.blocks@.len() ==> is_block(
            #[trigger] p.blocks@[b],
            pkt,
            block_az_duration,
            dual,
            b,
        )
    &&& p.crossed@.len() == 12int / group_size(dual) - 1
    &&& forall|g: int|
        0 <= g < p.crossed@.len() ==> #[trigger] p.crossed@[g] == crosses_blind(
            azimuths_of(pkt),
            dual,
            g,
        )
}

/// Whether a packet begins with the mark of measurements.
pub fn is_msop_marked(pkt: &[u8]) -> (r: bool)
    requires
        pkt@.len() >= 4,
    ensures
        r == msop_marked(pkt@),
{
    proof {
        let m = seq![0x55u8, 0xaau8, 0x05u8, 0x5au8];
        if pkt@[0] == m[0] && pkt@[1] == m[1] && pkt@[2] == m[2] && pkt@[3] == m[3] {
            assert(pkt@.take(4) =~= m);
        }
        assert(pkt@.take(4)[0] == pkt@[0] && pkt@.take(4)[1] == pkt@[1] && pkt@.take(4)[2]
            == pkt@[2] && pkt@.take(4)[3] == pkt@[3]);
    }
    pkt[0] == 0x55 && pkt[1] == 0xaa && pkt[2] == 0x05 && pkt[3] == 0x5a
}

/// Whether a packet begins with the mark of status.
pub fn is_difop_marked(pkt: &[u8]) -> (r: bool)
    requires
        pkt@.len() >= 8,
    ensures
        r == difop_marked(pkt@),
{
    proof {
        let m = seq![0xa5u8, 0xffu8, 0x00u8, 0x5au8, 0x11u8, 0x11u8, 0x55u8, 0x55u8];
        let t = pkt@.take(8);
        if pkt@[0] == m[0] && pkt@[1] == m[1] && pkt@[2] == m[2] && pkt@[3] == m[3] && pkt@[4]
            == m[4] && pkt@[5] == m[5] && pkt@[6] == m[6] && pkt@[7] == m[7] {
            assert(t =~= m);
        }
        assert(t[0] == pkt@[0] && t[1] == pkt@[1] && t[2] == pkt@[2] && t[3] == pkt@[3] && t[4]
            == pkt@[4] && t[5] == pkt@[5] && t[6] == pkt@[6] && t[7] == pkt@[7]);
    }
    pkt[0] == 0xa5 && pkt[1] == 0xff && pkt[2] == 0x00 && pkt[3] == 0x5a && pkt[4] == 0x11 && pkt[5]
        == 0x11 && pkt[6] == 0x55 && pkt[7] == 0x55
}

/// The channels of block `b`.
fn read_channels(pkt: &[u8], b: usize) -> (r: Vec<Channel>)
    requires
        pkt@.len() == MSOP_LEN,
        b < BLOCKS_PER_PKT,
    ensures
        r@.len() == LASER_NUM,
        forall|c: int| 0 <= c < 32 ==> #[trigger] r@[c] == channel_at(pkt@, b as int, c),
{
    let base: usize = MSOP_HEADER_LEN + b * MSOP_BLOCK_LEN;
    let mut r: Vec<Channel> = Vec::new();
    let mut c: usize = 0;
    while c < LASER_NUM
        invariant
            c <= LASER_NUM,
            pkt@.len() == MSOP_LEN,
            b < BLOCKS_PER_PKT,
            base == block_base(b as int),
            r@.len() == c,
            forall|k: int| 0 <= k < c ==> #[trigger] r@[k] == channel_at(pkt@, b as int, k),
        decreases LASER_NUM - c,
    {
        let at: usize = base + 4 + c * 3;
        let dist_raw: u16 = be_u16(slice_subrange(pkt, at, at + 2));
        r.push(Channel { dist_raw, intensity: pkt[at + 2] });
        c = c + 1;
    }
    r
}

/// Reads a measurement packet. `block_az_duration` is the nominal azimuth step
/// of a block; `dual` says that blocks come in pairs.
pub fn parse_msop(pkt: &[u8], block_az_duration: i32, dual: bool) -> (p: MsopPacket)
    requires
        pkt@.len() == MSOP_LEN,
    ensures
        is_msop(p, pkt@, block_az_duration as int, dual),
{
    let mut azimuths: Vec<i32> = Vec::new();
    let mut b: usize = 0;
    while b < BLOCKS_PER_PKT
        invariant
            b <= BLOCKS_PER_PKT,
            pkt@.len() == MSOP_LEN,
            azimuths@.len() == b,
            forall|k: int| 0 <= k < b ==> #[trigger] azimuths@[k] == block_azimuth(pkt@, k),
            forall|k: int| 0 <= k < b ==> 0 <= #[trigger] azimuths@[k] <= 65535,
        decreases BLOCKS_PER_PKT - b,
    {
        let base: usize = MSOP_HEADER_LEN + b * MSOP_BLOCK_LEN;
        let az: u16 = be_u16(slice_subrange(pkt, base + 2, base + 4));
        azimuths.push(az as i32);
        b = b + 1;
    }
    assert(azimuths@ =~= azimuths_of(pkt@));
    let iter = compute_block_iter(&azimuths, block_az_duration, dual);
    let mut blocks: Vec<MsopBlock> = Vec::new();
    b = 0;
    while b < BLOCKS_PER_PKT && pkt[MSOP_HEADER_LEN + b * MSOP_BLOCK_LEN] == 0xff
        && pkt[MSOP_HEADER_LEN + b * MSOP_BLOCK_LEN + 1] == 0xee
        invariant
            b <= BLOCKS_PER_PKT,
            pkt@.len() == MSOP_LEN,
            azimuths@ == azimuths_of(pkt@),
            azimuths@.len() == 12,
            iter.az_diffs@.len() == 12,
            iter.group_of@.len() == 12,
            forall|k: int|
                0 <= k < 12 ==> #[trigger] iter.az_diffs@[k] == block_step(
                    azimuths@,
                    block_az_duration as int,
                    dual,
                    k,
                ),
            forall|k: int|
                0 <= k < 12 ==> #[trigger] iter.group_of@[k] == k / group_size(dual),
            marked_blocks(pkt@, 0) == marked_blocks(pkt@, b as int),
            blocks@.len() == b,
            forall|k: int|
                0 <= k < b ==> is_block(
                    #[trigger] blocks@[k],
                    pkt@,
                    block_az_duration as int,
                    dual,
                    k,
                ),
        decreases BLOCKS_PER_PKT - b,
    {
        let channels = read_channels(pkt, b);
        blocks.push(
            MsopBlock {
                azimuth: azimuths[b],
                az_diff: iter.az_diffs[b],
                steps_before: iter.group_of[b],
                channels,
            },
        );
        b = b + 1;
    }
    assert(pkt@.subrange(20, 26).take(6) =~= pkt@.subrange(20, 26));
    assert(pkt@.subrange(26, 30).take(4) =~= pkt@.subrange(26, 30));
    MsopPacket {
        sec: be_u48(slice_subrange(pkt, 20, 26)),
        usec: be_u32(slice_subrange(pkt, 26, 30)),
        blocks,
        crossed: iter.crossed,
    }
}

/// A big-endian pair of bytes.
pub open spec fn pair_at(pkt: Seq<u8>, at: int) -> int {
    pkt[at] * 256 + pkt[at + 1]
}

/// Whole revolutions per second that a status packet reports, ten where it
/// reports less than one.
pub open spec fn reported_rps(pkt: Seq<u8>) -> int {
    let rps = pair_at(pkt, 8) / 60;
    if rps == 0 {
        10
    } else {
        rps
    }
}

/// Azimuth step of one block of 55.56 microseconds at `rps` revolutions per
/// second, to the nearest hundredth of a degree.
pub open spec fn nominal_step(rps: int) -> int {
    (36000 * 5556 * rps + 50_000_000) / 100_000_000
}

/// The part of the circle outside the field of view.
pub open spec fn blind_range(pkt: Seq<u8>) -> int {
    let start = pair_at(pkt, 32);
    let end = pair_at(pkt, 34);
    let range = if start < end {
        end - start
    } else {
        end + 36000 - start
    };
    36000 - range
}

/// What a status packet says of the sensor's motion.
pub struct DifopInfo {
    /// Revolutions per second.
    pub rps: u32,
    /// Nominal azimuth step of a block.
    pub block_az_diff: i32,
    /// Part of the circle outside the field of view.
    pub fov_blind_range: i32,
    /// Whether every azimuth is measured by two blocks.
    pub dual_return: bool,
}

/// Whether a packet is a status packet.
pub open spec fn is_difop(pkt: Seq<u8>) -> bool {
    pkt.len() == DIFOP_LEN && difop_marked(pkt)
}

/// Reads a status packet. `None` if it is not one.
pub fn parse_difop(pkt: &[u8]) -> (r: Option<DifopInfo>)
    ensures
        r is Some <==> is_difop(pkt@),
        r matches Some(i) ==> {
            &&& i.rps == reported_rps(pkt@)
            &&& i.block_az_diff == nominal_step(reported_rps(pkt@))
            &&& i.fov_blind_range == blind_range(pkt@)
            &&& i.dual_return == (pkt@[300] == 0)
        },
{
    if pkt.len() != DIFOP_LEN || !is_difop_marked(pkt) {
        return None;
    }
    let rpm: u32 = be_u16(slice_subrange(pkt, DIFOP_RPM, DIFOP_RPM + 2)) as u32;
    let mut rps: u32 = rpm / 60;
    if rps == 0 {
        rps = 10;
    }
    let block_az_diff: i32 = ((36000 * 5556 * rps as u64 + 50_000_000) / 100_000_000) as i32;
    let fov_start: i32 = be_u16(slice_subrange(pkt, DIFOP_FOV_START, DIFOP_FOV_START + 2)) as i32;
    let fov_end: i32 = be_u16(slice_subrange(pkt, DIFOP_FOV_END, DIFOP_FOV_END + 2)) as i32;
    let fov_range: i32 = if fov_start < fov_end {
        fov_end - fov_start
    } else {
        fov_end + 36000 - fov_start
    };
    Some(
        DifopInfo {
            rps,
            block_az_diff,
            fov_blind_range: 36000 - fov_range,
            dual_return: pkt[DIFOP_RETURN_MODE] == 0,
        },
    )
}

/// The readings of a packet stand at fixed bytes of it, one after the other:
/// of channel `c` of block `b`, the distance is the big-endian pair at
/// `46 + 100 * b + 3 * c` and the intensity the byte behind it. The azimuth of
/// a block is the big-endian pair two bytes behind the block's beginning.
pub proof fn readings_stand_at_their_bytes(
    p: MsopPacket,
    pkt: Seq<u8>,
    block_az_duration: int,
    dual: bool,
    b: int,
    c: int,
)
    requires
        pkt.len() == 1248,
        is_msop(p, pkt, block_az_duration, dual),
        0 <= b < p.blocks@.len(),
        0 <= c < 32,
    ensures
        p.blocks@.len() <= 12,
        p.blocks@[b].channels@.len() == 32,
        p.blocks@[b].channels@[c].dist_raw == 256 * pkt[46 + 100 * b + 3 * c] + pkt[47 + 100 * b + 3
            * c],
        p.blocks@[b].channels@[c].intensity == pkt[48 + 100 * b + 3 * c],
        p.blocks@[b].azimuth == 256 * pkt[44 + 100 * b] + pkt[45 + 100 * b],
{
    marked_blocks_end(pkt, 0);
    assert(is_block(p.blocks@[b], pkt, block_az_duration, dual, b));
    assert(p.blocks@[b].channels@[c] == channel_at(pkt, b, c));
}

/// Whatever distances and intensities a packet is written with, each comes
/// back as the reading of its own block and channel, and no byte belongs to
/// two readings.
pub proof fn written_readings_come_back(
    p: MsopPacket,
    pkt: Seq<u8>,
    block_az_duration: int,
    dual: bool,
    dist: spec_fn(int, int) -> u16,
    intensity: spec_fn(int, int) -> u8,
)
    requires
        pkt.len() == 1248,
        is_msop(p, pkt, block_az_duration, dual),
        forall|b: int, c: int| #![trigger dist(b, c)] #![trigger intensity(b, c)]
            0 <= b < 12 && 0 <= c < 32 ==> pkt[46 + 100 * b + 3 * c] == dist(b, c) / 256 && pkt[47
                + 100 * b + 3 * c] == dist(b, c) % 256 && pkt[48 + 100 * b + 3 * c] == intensity(
                b,
                c,
            ),
    ensures
        forall|b: int, c: int|
            0 <= b < p.blocks@.len() && 0 <= c < 32 ==> (
            #[trigger] p.blocks@[b].channels@[c]).dist_raw == dist(b, c)
                && p.blocks@[b].channels@[c].intensity == intensity(b, c),
        forall|b: int, c: int, d: int, e: int| #![trigger dist(b, c), dist(d, e)]
            0 <= b < 12 && 0 <= c < 32 && 0 <= d < 12 && 0 <= e < 32 && (b != d || c != e) ==> 48
                + 100 * b + 3 * c < 46 + 100 * d + 3 * e || 48 + 100 * d + 3 * e < 46 + 100 * b + 3
                * c,
{
    assert forall|b: int, c: int|
        0 <= b < p.blocks@.len() && 0 <= c < 32 implies (
    #[trigger] p.blocks@[b].channels@[c]).dist_raw == dist(b, c)
        && p.blocks@[b].channels@[c].intensity == intensity(b, c) by {
        readings_stand_at_their_bytes(p, pkt, block_az_duration, dual, b, c);
        assert(dist(b, c) / 256 * 256 + dist(b, c) % 256 == dist(b, c));
    }
}

/// The blocks of a packet are those before the first one that does not begin
/// with the two bytes of its mark, and all twelve where there is none.
pub proof fn blocks_end_at_the_first_without_mark(
    p: MsopPacket,
    pkt: Seq<u8>,
    block_az_duration: int,
    dual: bool,
)
    requires
        pkt.len() == 1248,
        is_msop(p, pkt, block_az_duration, dual),
    ensures
        p.blocks@.len() <= 12,
        forall|b: int|
            0 <= b < p.blocks@.len() ==> #[trigger] pkt[42 + 100 * b] == 0xff && pkt[43 + 100 * b]
                == 0xee,
        p.blocks@.len() < 12 ==> pkt[42 + 100 * (p.blocks@.len() as int)] != 0xff || pkt[43 + 100
            * (p.blocks@.len() as int)] != 0xee,
{
    marked_blocks_end(pkt, 0);
    let n = marked_blocks(pkt, 0);
    assert forall|b: int| 0 <= b < n implies #[trigger] pkt[42 + 100 * b] == 0xff && pkt[43 + 100
        * b] == 0xee by {
        assert(block_marked(pkt, b));
    }
}

proof fn marked_blocks_end(pkt: Seq<u8>, from: int)
    requires
        0 <= from <= 12,
    ensures
        from <= marked_blocks(pkt, from) <= 12,
        forall|b: int| from <= b < marked_blocks(pkt, from) ==> #[trigger] block_marked(pkt, b),
        marked_blocks(pkt, from) < 12 ==> !block_marked(pkt, marked_blocks(pkt, from)),
    decreases 12 - from,
{
    if from < 12 && block_marked(pkt, from) {
        marked_blocks_end(pkt, from + 1);
    }
}

/// A packet's time stands in ten bytes of it: six of seconds and four of
/// microseconds, each the most significant first.
pub proof fn time_stands_at_its_bytes(
    p: MsopPacket,
    pkt: Seq<u8>,
    block_az_duration: int,
    dual: bool,
)
    requires
        pkt.len() == 1248,
        is_msop(p, pkt, block_az_duration, dual),
    ensures
        p.sec == 0x100_0000_0000 * pkt[20] + 0x1_0000_0000 * pkt[21] + 0x100_0000 * pkt[22]
            + 0x1_0000 * pkt[23] + 0x100 * pkt[24] + pkt[25],
        p.usec == 0x100_0000 * pkt[26] + 0x1_0000 * pkt[27] + 0x100 * pkt[28] + pkt[29],
{
    let s = pkt.subrange(20, 26);
    let u = pkt.subrange(26, 30);
    reveal_with_fuel(be_value, 7);
    assert(s.drop_last().drop_last().drop_last().drop_last().drop_last().drop_last().len() == 0);
    assert(u.drop_last().drop_last().drop_last().drop_last().len() == 0);
}

/// The azimuth step of a block leads to the next azimuth that is measured: it
/// is the way there, taken forward round the circle, unless that is more than
/// a degree. Then, and behind the last azimuth, it is the nominal step. Where
/// every azimuth is measured twice, both blocks have the same step.
pub proof fn steps_lead_to_the_next_azimuth(
    p: MsopPacket,
    pkt: Seq<u8>,
    block_az_duration: int,
    dual: bool,
    b: int,
)
    requires
        pkt.len() == 1248,
        is_msop(p, pkt, block_az_duration, dual),
        0 <= b < p.blocks@.len(),
    ensures
        ({
            let at = if dual {
                b / 2
            } else {
                b
            };
            let first = if dual {
                2 * at
            } else {
                at
            };
            let next = if dual {
                2 * at + 2
            } else {
                at + 1
            };
            let from = 256 * pkt[44 + 100 * first] + pkt[45 + 100 * first];
            let to = 256 * pkt[44 + 100 * next] + pkt[45 + 100 * next];
            let way = if from <= to {
                to - from
            } else {
                to - from + 36000
            };
            &&& p.blocks@[b].steps_before == at
            &&& next >= 12 ==> p.blocks@[b].az_diff == block_az_duration
            &&& next < 12 && way > 100 ==> p.blocks@[b].az_diff == block_az_duration
            &&& next < 12 && way <= 100 ==> p.blocks@[b].az_diff == way
            &&& next < 12 ==> p.crossed@[at] == (way > 100)
        }),
        p.crossed@.len() == if dual {
            5int
        } else {
            11int
        },
{
    marked_blocks_end(pkt, 0);
    let block = p.blocks@[b];
    assert(is_block(block, pkt, block_az_duration, dual, b));
    let a = azimuths_of(pkt);
    steps_go_forward(a, block_az_duration, dual, b);
    assert(block.az_diff == block_step(a, block_az_duration, dual, b));
    if dual {
        assert(12int / group_size(dual) == 6) by {
            assert(group_size(dual) == 2);
        }
    } else {
        assert(12int / group_size(dual) == 12) by {
            assert(group_size(dual) == 1);
        }
    }
    let at = b / group_size(dual);
    let first = if dual {
        2 * at
    } else {
        at
    };
    let next = if dual {
        2 * at + 2
    } else {
        at + 1
    };
    assert(a[first] == block_azimuth(pkt, first));
    assert(block_azimuth(pkt, first) == 256 * pkt[44 + 100 * first] + pkt[45 + 100 * first]);
    if next < 12 {
        assert(a[next] == block_azimuth(pkt, next));
        assert(block_azimuth(pkt, next) == 256 * pkt[44 + 100 * next] + pkt[45 + 100 * next]);
        assert(p.crossed@[at] == crosses_blind(a, dual, at));
        assert((at + 1) * group_size(dual) == next && at * group_size(dual) == first);
    }
}

/// A packet counts as one of measurements exactly where its first four bytes
/// are the mark of those, and as one of status exactly where it has its length
/// and its first eight bytes are that mark.
pub proof fn marks_are_the_first_bytes(pkt: Seq<u8>)
    ensures
        pkt.len() >= 4 ==> (msop_marked(pkt) <==> pkt[0] == 0x55 && pkt[1] == 0xaa && pkt[2] == 0x05
            && pkt[3] == 0x5a),
        is_difop(pkt) <==> pkt.len() == 1248 && pkt[0] == 0xa5 && pkt[1] == 0xff && pkt[2] == 0x00
            && pkt[3] == 0x5a && pkt[4] == 0x11 && pkt[5] == 0x11 && pkt[6] == 0x55 && pkt[7]
            == 0x55,
{
    let m = seq![0x55u8, 0xaau8, 0x05u8, 0x5au8];
    if pkt.len() >= 4 {
        let t = pkt.take(4);
        assert(t[0] == pkt[0] && t[1] == pkt[1] && t[2] == pkt[2] && t[3] == pkt[3]);
        if pkt[0] == m[0] && pkt[1] == m[1] && pkt[2] == m[2] && pkt[3] == m[3] {
            assert(t =~= m);
        }
    }
    let d = seq![0xa5u8, 0xffu8, 0x00u8, 0x5au8, 0x11u8, 0x11u8, 0x55u8, 0x55u8];
    if pkt.len() >= 8 {
        let t = pkt.take(8);
        assert(t[0] == pkt[0] && t[1] == pkt[1] && t[2] == pkt[2] && t[3] == pkt[3] && t[4]
            == pkt[4] && t[5] == pkt[5] && t[6] == pkt[6] && t[7] == pkt[7]);
        if pkt[0] == d[0] && pkt[1] == d[1] && pkt[2] == d[2] && pkt[3] == d[3] && pkt[4] == d[4]
            && pkt[5] == d[5] && pkt[6] == d[6] && pkt[7] == d[7] {
            assert(t =~= d);
        }
    }
}

/// What a status packet says of the motion: so many whole revolutions per
/// second as its revolutions per minute make, and ten where they make none;
/// the nominal step is the hundredth of a degree nearest to what 55.56
/// microseconds of that turn; and field of view and blind part make one turn.
pub proof fn motion_follows_the_status(pkt: Seq<u8>)
    requires
        pkt.len() == 1248,
    ensures
        ({
            let rpm = 256 * pkt[8] + pkt[9];
            let rps = reported_rps(pkt);
            let start = 256 * pkt[32] + pkt[33];
            let end = 256 * pkt[34] + pkt[35];
            &&& rpm < 60 ==> rps == 10
            &&& rpm >= 60 ==> 60 * rps <= rpm < 60 * rps + 60
            &&& -50_000_000 <= 100_000_000 * nominal_step(rps) - 36000 * 5556 * rps <= 50_000_000
            &&& start < end ==> blind_range(pkt) + (end - start) == 36000
            &&& start >= end ==> blind_range(pkt) == start - end
        }),
{
}

} // verus!
