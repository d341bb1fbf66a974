//! The decoder: from the sensor's packets to the points and the range graph
//! of each revolution.

use crate::angle::{
    azimuth_round, passes, section_is_an_arc, AzimuthSection, SplitStrategyByAngle,
};
use crate::calibration::{
    angles_stand_at_their_bytes, count_below, entry_angle,
    incomplete_tables_have_a_bad_channel, rings_follow_angles, table_ok,
    ChanAngles, LASER_NUM,
};
use crate::cloud::{cluster_of_point, names_points, point_has_its_cells_cluster, Point};
use crate::distance::{
    clamped, distances_between_the_limits_are_kept, DistanceSection, DISTANCE_MAX_DEFAULT,
    DISTANCE_MIN_DEFAULT,
};
use crate::packet::{
    blind_range, is_difop, is_msop, is_msop_marked, marks_are_the_first_bytes,
    motion_follows_the_status, msop_marked, nominal_step, parse_difop, parse_msop, reported_rps,
    MsopPacket, DIFOP_HORIZ_ANGLE_CALI, DIFOP_VERT_ANGLE_CALI, MSOP_LEN,
};
use crate::range_graph::{
    cell_index, column_of, empty_node, offered, point_lands_in_its_column, point_node, RangeGraph,
    RangeNode, NUM_CELLS,
};
use crate::single::{at_most, is_at_most, less};
use vstd::prelude::*;
use vstd::slice::slice_subrange;

verus! {

/// The pattern of a value that is not a number.
pub const NAN_BITS: u32 = 0x7fc0_0000;

/// Points of the largest revolution whose published bytes can still be
/// counted.
pub const MAX_POINTS: usize = 214_748_364;

/// Most points that one packet adds.
pub const POINTS_PER_PKT: usize = 384;

/// What the decoder is told. Distances are single-precision bit patterns in
/// metres, angles are in hundredths of a degree.
pub struct DecoderConfig {
    /// Bytes before the packet in a datagram.
    pub user_layer_bytes: u16,
    /// Bytes after it.
    pub tail_layer_bytes: u16,
    /// Whether measurements wait for the calibration.
    pub wait_for_difop: bool,
    /// Whether the sensor's clock is used, and not the host's.
    pub use_lidar_clock: bool,
    /// Whether points that are not kept are left out of the cloud.
    pub dense_points: bool,
    /// Whether a cloud is stamped with its first point, and not its last.
    pub ts_first_point: bool,
    pub min_distance: u32,
    pub max_distance: u32,
    pub start_angle: i32,
    pub end_angle: i32,
}

/// Whose time a packet is stamped with.
#[derive(Clone, Copy, PartialEq, Eq, Debug)]
pub enum Clock {
    /// The sensor's: seconds and microseconds from the packet.
    Sensor { sec: u64, usec: u32 },
    /// The host's, less the time that a packet takes.
    Host,
}

impl DecoderConfig {
    /// Whose time a packet is stamped with.
    pub fn clock(&self, pkt: &MsopPacket) -> (c: Clock)
        ensures
            c == if self.use_lidar_clock {
                Clock::Sensor { sec: pkt.sec, usec: pkt.usec }
            } else {
                Clock::Host
            },
    {
        if self.use_lidar_clock {
            Clock::Sensor { sec: pkt.sec, usec: pkt.usec }
        } else {
            Clock::Host
        }
    }
}

/// One channel of one block, as measured. Position, range and intensity are
/// single-precision bit patterns, the time is a double-precision one.
#[derive(Clone, Copy)]
pub struct Measured {
    /// Azimuth that the sensor turned between the block's start and this
    /// channel's firing.
    pub az_offset: i32,
    pub x: u32,
    pub y: u32,
    pub z: u32,
    pub range: u32,
    pub intensity: u32,
    pub ts: u64,
}

/// One block, as measured.
pub struct MeasuredBlock {
    /// When the block began, a double-precision bit pattern.
    pub ts: u64,
    pub channels: Vec<Measured>,
}

/// A finished revolution.
pub struct Frame {
    pub points: Vec<Point>,
    /// A double-precision bit pattern, in seconds.
    pub stamp: u64,
    pub range_graph: RangeGraph,
}

/// The decoder's state.
pub struct RsHeliosDecoder {
    pub cfg: DecoderConfig,
    pub angles_ready: bool,
    pub chan_angles: ChanAngles,
    pub dual_return: bool,
    /// Nominal azimuth step of a block.
    pub block_az_diff_const: i32,
    /// Part of the circle outside the field of view.
    pub fov_blind_range: i32,
    /// Revolutions per second.
    pub rps: u32,
    pub distance_section: DistanceSection,
    pub scan_section: AzimuthSection,
    pub split: SplitStrategyByAngle,
    /// Points of the current revolution.
    pub points: Vec<Point>,
    pub range_graph: RangeGraph,
    /// Vertical angle of each ring, hundredths of a degree.
    pub ring_vert: Vec<i32>,
    pub first_point_ts: u64,
    pub prev_point_ts: u64,
}

/// A point that is not kept.
pub open spec fn blank_point() -> Point {
    Point { x: NAN_BITS, y: NAN_BITS, z: NAN_BITS, intensity: 0 }
}

/// The part of a datagram between its extra layers.
pub open spec fn payload_of(raw: Seq<u8>, off: int, tail: int) -> Seq<u8> {
    raw.subrange(off, raw.len() - tail)
}

/// Whether every occupied cell holds one of `points`, no two the same, at the
/// cell of its azimuth, and in no segment or cluster.
pub open spec fn holds_points(nodes: Seq<RangeNode>, points: Seq<Point>) -> bool {
    &&& nodes.len() == NUM_CELLS
    &&& forall|i: int|
        0 <= i < nodes.len() && (#[trigger] nodes[i]).valid ==> holds_point(nodes[i], points, i)
    &&& forall|i: int, j: int|
        0 <= i < j < nodes.len() && (#[trigger] nodes[i]).valid && (#[trigger] nodes[j]).valid
            ==> nodes[i].point_idx != nodes[j].point_idx
}

/// Whether the cell at `i` holds the point that it names.
pub open spec fn holds_point(node: RangeNode, points: Seq<Point>, i: int) -> bool {
    &&& 0 <= node.point_idx < points.len()
    &&& points[node.point_idx as int].x == node.x
    &&& points[node.point_idx as int].y == node.y
    &&& points[node.point_idx as int].z == node.z
    &&& 0 <= node.azimuth_centideg < 36000
    &&& column_of(node.azimuth_centideg as int) == i % 3600
    &&& node.alpha == -1
    &&& node.beta == -1
}

/// What the decoder keeps of a revolution in progress, and the revolutions it
/// has finished.
pub struct Scan {
    pub points: Seq<Point>,
    pub nodes: Seq<RangeNode>,
    pub prev_angle: int,
    pub first_ts: u64,
    pub prev_ts: u64,
    pub frames: Seq<FrameModel>,
}

/// A finished revolution.
pub struct FrameModel {
    pub points: Seq<Point>,
    pub stamp: u64,
    pub nodes: Seq<RangeNode>,
}

/// What decides over the points of a packet.
pub struct Rules {
    pub horiz: Seq<i32>,
    pub user_chan: Seq<u16>,
    pub section: AzimuthSection,
    pub distance: DistanceSection,
    pub dense: bool,
    pub stamp_first: bool,
    pub split_angle: int,
    pub min_height: Option<u32>,
}

/// A range graph without points.
pub open spec fn empty_nodes() -> Seq<RangeNode> {
    Seq::new(NUM_CELLS as nat, |i: int| empty_node())
}

/// Direction of a channel's point.
pub open spec fn direction(r: Rules, azimuth: int, c: int, m: Measured) -> int {
    azimuth + m.az_offset + r.horiz[c]
}

/// Whether a channel's point is kept: its distance and direction are in their
/// sections and it is not too low.
pub open spec fn keeps(r: Rules, azimuth: int, c: int, m: Measured) -> bool {
    &&& r.distance.covers(m.range)
    &&& r.section.covers(direction(r, azimuth, c, m))
    &&& r.min_height matches Some(h) ==> at_most(h, m.z)
}

/// The scan after channel `c` of a block.
pub open spec fn take_channel(s: Scan, r: Rules, azimuth: int, c: int, m: Measured) -> Scan {
    if keeps(r, azimuth, c, m) {
        let az = direction(r, azimuth, c, m) % 36000;
        Scan {
            points: s.points.push(Point { x: m.x, y: m.y, z: m.z, intensity: m.intensity }),
            nodes: offered(
                s.nodes,
                cell_index(r.user_chan[c] as int, column_of(az)),
                point_node(m.x, m.y, m.z, m.range, az as i32, s.points.len() as i32),
            ),
            prev_ts: m.ts,
            ..s
        }
    } else if !r.dense {
        Scan { points: s.points.push(blank_point()), prev_ts: m.ts, ..s }
    } else {
        Scan { prev_ts: m.ts, ..s }
    }
}

/// The scan after the first `upto` channels of a block.
pub open spec fn take_channels(
    s: Scan,
    r: Rules,
    azimuth: int,
    channels: Seq<Measured>,
    upto: int,
) -> Scan
    decreases upto,
{
    if upto <= 0 {
        s
    } else {
        take_channel(
            take_channels(s, r, azimuth, channels, upto - 1),
            r,
            azimuth,
            upto - 1,
            channels[upto - 1],
        )
    }
}

/// The scan at the beginning of a block: where the block begins a new
/// revolution, the old one is finished, unless it has no points.
pub open spec fn begin_block(s: Scan, r: Rules, azimuth: int, ts: u64) -> Scan {
    if passes(r.split_angle, s.prev_angle, azimuth) {
        Scan {
            points: Seq::empty(),
            nodes: empty_nodes(),
            prev_angle: azimuth,
            first_ts: ts,
            prev_ts: s.prev_ts,
            frames: if s.points.len() > 0 {
                s.frames.push(
                    FrameModel {
                        points: s.points,
                        stamp: if r.stamp_first {
                            s.first_ts
                        } else {
                            s.prev_ts
                        },
                        nodes: s.nodes,
                    },
                )
            } else {
                s.frames
            },
        }
    } else {
        Scan { prev_angle: azimuth, ..s }
    }
}

/// The scan after the first `upto` blocks of a packet.
pub open spec fn take_blocks(
    s: Scan,
    r: Rules,
    azimuths: Seq<int>,
    measured: Seq<MeasuredBlock>,
    upto: int,
) -> Scan
    decreases upto,
{
    if upto <= 0 {
        s
    } else {
        let before = take_blocks(s, r, azimuths, measured, upto - 1);
        let az = azimuths[upto - 1];
        let b = measured[upto - 1];
        take_channels(begin_block(before, r, az, b.ts), r, az, b.channels@, 32)
    }
}

/// The vertical angle of ring `ring` after the first `upto` channels have
/// given theirs to their rings.
pub open spec fn ring_angle(
    user_chan: Seq<u16>,
    vert: Seq<i32>,
    before: Seq<i32>,
    ring: int,
    upto: int,
) -> i32
    decreases upto,
{
    if upto <= 0 {
        before[ring]
    } else if user_chan[upto - 1] == ring {
        vert[upto - 1]
    } else {
        ring_angle(user_chan, vert, before, ring, upto - 1)
    }
}

/// The finished revolutions.
pub open spec fn frame_models(frames: Seq<Frame>) -> Seq<FrameModel> {
    Seq::new(
        frames.len(),
        |i: int|
            FrameModel {
                points: frames[i].points@,
                stamp: frames[i].stamp,
                nodes: frames[i].range_graph.nodes@,
            },
    )
}

/// The azimuths of the blocks of a packet.
pub open spec fn packet_azimuths(p: MsopPacket) -> Seq<int> {
    Seq::new(p.blocks@.len(), |b: int| p.blocks@[b].azimuth as int)
}

/// Whether `measured` has one entry per block and channel of `p`, and no
/// channel is more than three turns off its block.
pub open spec fn measures(p: MsopPacket, measured: Seq<MeasuredBlock>) -> bool {
    &&& measured.len() == p.blocks@.len()
    &&& measured.len() <= 12
    &&& forall|b: int|
        0 <= b < measured.len() ==> (#[trigger] measured[b]).channels@.len() == LASER_NUM && 0
            <= p.blocks@[b].azimuth <= 65535
    &&& forall|b: int, c: int|
        0 <= b < measured.len() && 0 <= c < 32 ==> -108000
            <= (#[trigger] measured[b].channels@[c]).az_offset <= 108000
}

/// Whether a decoder has taken a status packet: motion and return mode always,
/// calibration once. Anything else is ignored.
pub open spec fn status_taken(
    before: RsHeliosDecoder,
    after: RsHeliosDecoder,
    pkt: Seq<u8>,
) -> bool {
    let vert = pkt.subrange(468, 564);
    let horiz = pkt.subrange(564, 660);
    let calibrates = !before.angles_ready && table_ok(vert) && table_ok(horiz);
    &&& after.same_scan(&before)
    &&& after.same_rules(&before)
    &&& !is_difop(pkt) ==> after.same_sensor(&before)
    &&& is_difop(pkt) ==> {
        &&& after.rps == reported_rps(pkt)
        &&& after.block_az_diff_const == nominal_step(reported_rps(pkt))
        &&& after.fov_blind_range == blind_range(pkt)
        &&& after.dual_return == (pkt[300] == 0)
        &&& after.angles_ready == (before.angles_ready || calibrates)
        &&& !calibrates ==> after.chan_angles == before.chan_angles && after.ring_vert
            == before.ring_vert
        &&& calibrates ==> {
            &&& forall|i: int|
                0 <= i < 32 ==> #[trigger] after.chan_angles.vert@[i] == entry_angle(vert, i)
            &&& forall|i: int|
                0 <= i < 32 ==> #[trigger] after.chan_angles.horiz@[i] == entry_angle(horiz, i)
            &&& forall|r: int|
                0 <= r < 32 ==> #[trigger] after.ring_vert@[r] == ring_angle(
                    after.chan_angles.user_chan@,
                    after.chan_angles.vert@,
                    before.ring_vert@,
                    r,
                    32,
                )
        }
    }
}

/// Whether a decoder has taken the blocks of a measurement packet, and `out`
/// are the revolutions that they finish.
pub open spec fn packet_taken(
    before: RsHeliosDecoder,
    after: RsHeliosDecoder,
    pkt: MsopPacket,
    measured: Seq<MeasuredBlock>,
    min_height: Option<u32>,
    out: Seq<Frame>,
) -> bool {
    &&& after.same_rules(&before)
    &&& after.same_sensor(&before)
    &&& after.scan(frame_models(out)) == take_blocks(
        before.scan(Seq::empty()),
        before.rules(min_height),
        packet_azimuths(pkt),
        measured,
        measured.len() as int,
    )
    &&& frames_wf(out)
    &&& after.points@.len() <= before.points@.len() + 32 * measured.len()
}

impl RsHeliosDecoder {
    /// Whether the state is one that the decoder can be in.
    pub open spec fn wf(&self) -> bool {
        &&& self.angles_ready ==> self.chan_angles.wf()
        &&& holds_points(self.range_graph.nodes@, self.points@)
        &&& self.ring_vert@.len() == LASER_NUM
        &&& 0 <= self.split.prev_angle <= 65535
    }

    /// What decides over points, given the height below which they are left
    /// out.
    pub open spec fn rules(&self, min_height: Option<u32>) -> Rules {
        Rules {
            horiz: self.chan_angles.horiz@,
            user_chan: self.chan_angles.user_chan@,
            section: self.scan_section,
            distance: self.distance_section,
            dense: self.cfg.dense_points,
            stamp_first: self.cfg.ts_first_point,
            split_angle: self.split.split_angle as int,
            min_height,
        }
    }

    /// The revolution in progress, with the given finished ones.
    pub open spec fn scan(&self, frames: Seq<FrameModel>) -> Scan {
        Scan {
            points: self.points@,
            nodes: self.range_graph.nodes@,
            prev_angle: self.split.prev_angle as int,
            first_ts: self.first_point_ts,
            prev_ts: self.prev_point_ts,
            frames,
        }
    }

    /// Whether the revolution in progress is as it was.
    pub open spec fn same_scan(&self, other: &Self) -> bool {
        &&& self.points@ == other.points@
        &&& self.range_graph.nodes@ == other.range_graph.nodes@
        &&& self.split == other.split
        &&& self.first_point_ts == other.first_point_ts
        &&& self.prev_point_ts == other.prev_point_ts
    }

    /// Whether all that decides over points is as it was.
    pub open spec fn same_rules(&self, other: &Self) -> bool {
        &&& self.cfg == other.cfg
        &&& self.distance_section == other.distance_section
        &&& self.scan_section == other.scan_section
        &&& self.split.split_angle == other.split.split_angle
    }

    /// Whether calibration and motion are as they were.
    pub open spec fn same_sensor(&self, other: &Self) -> bool {
        &&& self.angles_ready == other.angles_ready
        &&& self.chan_angles == other.chan_angles
        &&& self.ring_vert == other.ring_vert
        &&& self.dual_return == other.dual_return
        &&& self.block_az_diff_const == other.block_az_diff_const
        &&& self.fov_blind_range == other.fov_blind_range
        &&& self.rps == other.rps
    }

    /// Whether the state is that of a decoder that has seen no packet.
    pub open spec fn fresh(&self, cfg: DecoderConfig) -> bool {
        &&& self.cfg == cfg
        &&& !self.angles_ready
        &&& self.chan_angles.vert@.len() == 0
        &&& self.chan_angles.horiz@.len() == 0
        &&& self.chan_angles.user_chan@.len() == 0
        &&& !self.dual_return
        &&& self.block_az_diff_const == 20
        &&& self.fov_blind_range == 0
        &&& self.rps == 10
        &&& self.points@.len() == 0
        &&& self.range_graph.nodes@ == empty_nodes()
        &&& self.split.split_angle == 0
        &&& self.split.prev_angle == 0
        &&& self.first_point_ts == 0
        &&& self.prev_point_ts == 0
        &&& self.ring_vert@.len() == LASER_NUM
        &&& forall|r: int| 0 <= r < 32 ==> #[trigger] self.ring_vert@[r] == 0
        &&& clamped(cfg.min_distance) != 0 || clamped(cfg.max_distance) != 0
            ==> self.distance_section.min == clamped(cfg.min_distance) && self.distance_section.max
            == clamped(cfg.max_distance)
        &&& clamped(cfg.min_distance) == 0 && clamped(cfg.max_distance) == 0
            ==> self.distance_section.min == DISTANCE_MIN_DEFAULT && self.distance_section.max
            == DISTANCE_MAX_DEFAULT
        &&& self.scan_section.full_round == ((cfg.end_angle - cfg.start_angle) % 36000 == 0)
        &&& self.scan_section.start == cfg.start_angle as int % 36000
        &&& self.scan_section.end == cfg.end_angle as int % 36000
        &&& self.scan_section.cross_zero == (self.scan_section.start > self.scan_section.end)
    }

    /// A decoder that has seen no packet.
    pub fn new(cfg: DecoderConfig) -> (d: Self)
        requires
            i32::MIN <= cfg.end_angle - cfg.start_angle <= i32::MAX,
        ensures
            d.wf(),
            d.fresh(cfg),
    {
        let mut ring_vert: Vec<i32> = Vec::new();
        let mut r: usize = 0;
        while r < LASER_NUM
            invariant
                r <= LASER_NUM,
                ring_vert@.len() == r,
                forall|k: int| 0 <= k < r ==> #[trigger] ring_vert@[k] == 0,
            decreases LASER_NUM - r,
        {
            ring_vert.push(0);
            r = r + 1;
        }
        let range_graph = RangeGraph::new();
        assert(range_graph.nodes@ =~= empty_nodes());
        RsHeliosDecoder {
            distance_section: DistanceSection::new(cfg.min_distance, cfg.max_distance),
            scan_section: AzimuthSection::new(cfg.start_angle, cfg.end_angle),
            split: SplitStrategyByAngle::new(0),
            cfg,
            angles_ready: false,
            chan_angles: ChanAngles::empty(),
            dual_return: false,
            block_az_diff_const: 20,
            fov_blind_range: 0,
            rps: 10,
            points: Vec::new(),
            range_graph,
            ring_vert,
            first_point_ts: 0,
            prev_point_ts: 0,
        }
    }

    /// Takes a status packet: motion and return mode always, calibration
    /// once. Anything else is ignored.
    pub fn decode_difop(&mut self, pkt: &[u8])
        requires
            old(self).wf(),
        ensures
            final(self).wf(),
            status_taken(*old(self), *final(self), pkt@),
    {
        let info = match parse_difop(pkt) {
            None => {
                return ;
            },
            Some(i) => i,
        };
        self.rps = info.rps;
        self.block_az_diff_const = info.block_az_diff;
        self.fov_blind_range = info.fov_blind_range;
        self.dual_return = info.dual_return;
        if !self.angles_ready {
            let vert = slice_subrange(pkt, DIFOP_VERT_ANGLE_CALI, DIFOP_VERT_ANGLE_CALI + 96);
            let horiz = slice_subrange(pkt, DIFOP_HORIZ_ANGLE_CALI, DIFOP_HORIZ_ANGLE_CALI + 96);
            match ChanAngles::from_difop(vert, horiz) {
                None => {},
                Some(ca) => {
                    let ghost before = self.ring_vert@;
                    let mut chan: usize = 0;
                    while chan < LASER_NUM
                        invariant
                            chan <= LASER_NUM,
                            ca.wf(),
                            before.len() == LASER_NUM,
                            self.ring_vert@.len() == LASER_NUM,
                            self.same_scan(old(self)),
                            self.same_rules(old(self)),
                            holds_points(self.range_graph.nodes@, self.points@),
                            0 <= self.split.prev_angle <= 65535,
                            self.rps == info.rps,
                            self.block_az_diff_const == info.block_az_diff,
                            self.fov_blind_range == info.fov_blind_range,
                            self.dual_return == info.dual_return,
                            forall|r: int|
                                0 <= r < 32 ==> #[trigger] self.ring_vert@[r] == ring_angle(
                                    ca.user_chan@,
                                    ca.vert@,
                                    before,
                                    r,
                                    chan as int,
                                ),
                        decreases LASER_NUM - chan,
                    {
                        proof {
                            rings_follow_angles(ca, chan as int, chan as int);
                        }
                        let ring: usize = ca.user_chan[chan] as usize;
                        self.ring_vert[ring] = ca.vert[chan];
                        chan = chan + 1;
                    }
                    self.chan_angles = ca;
                    self.angles_ready = true;
                },
            }
        }
    }

    /// Whether a datagram is a measurement packet that is to be decoded.
    pub open spec fn accepts(&self, raw: Seq<u8>) -> bool {
        let off = self.cfg.user_layer_bytes as int;
        let tail = self.cfg.tail_layer_bytes as int;
        &&& raw.len() == off + MSOP_LEN + tail
        &&& msop_marked(payload_of(raw, off, tail))
        &&& self.cfg.wait_for_difop ==> self.angles_ready
    }

    /// Whether `r` is what a datagram is read as: a packet if it is one that
    /// is to be decoded, else nothing.
    pub open spec fn reads(&self, raw: Seq<u8>, r: Option<MsopPacket>) -> bool {
        &&& r is Some <==> self.accepts(raw)
        &&& r matches Some(p) ==> is_msop(
            p,
            payload_of(
                raw,
                self.cfg.user_layer_bytes as int,
                self.cfg.tail_layer_bytes as int,
            ),
            self.block_az_diff_const as int,
            self.dual_return,
        )
    }

    /// Reads a datagram. `None` if it is not a measurement packet, or comes
    /// before the calibration that is waited for.
    pub fn read_msop(&self, raw: &[u8]) -> (r: Option<MsopPacket>)
        ensures
            self.reads(raw@, r),
    {
        let off: usize = self.cfg.user_layer_bytes as usize;
        let tail: usize = self.cfg.tail_layer_bytes as usize;
        if raw.len() < off + tail {
            return None;
        }
        let pkt = slice_subrange(raw, off, raw.len() - tail);
        if pkt.len() != MSOP_LEN || !is_msop_marked(pkt) {
            return None;
        }
        if self.cfg.wait_for_difop && !self.angles_ready {
            return None;
        }
        Some(parse_msop(pkt, self.block_az_diff_const, self.dual_return))
    }

    /// Direction in which a channel fired, given its block's azimuth and how
    /// far the sensor had turned since: before and after calibration.
    pub fn firing_angles(&self, azimuth: i32, az_offset: i32, chan: usize) -> (r: (i32, i32))
        requires
            self.wf(),
            self.angles_ready,
            chan < LASER_NUM,
            0 <= azimuth <= 65535,
            -108000 <= az_offset <= 108000,
        ensures
            r.0 == azimuth + az_offset,
            r.1 == azimuth + az_offset + self.chan_angles.horiz@[chan as int],
    {
        let angle: i32 = azimuth + az_offset;
        (angle, angle + self.chan_angles.horiz[chan])
    }

    /// Takes one channel of a block.
    fn take_one(&mut self, azimuth: i32, chan: usize, m: &Measured, min_height: Option<u32>)
        requires
            old(self).wf(),
            old(self).angles_ready,
            chan < LASER_NUM,
            0 <= azimuth <= 65535,
            -108000 <= m.az_offset <= 108000,
            old(self).points@.len() < MAX_POINTS,
        ensures
            final(self).wf(),
            final(self).same_rules(old(self)),
            final(self).same_sensor(old(self)),
            forall|frames: Seq<FrameModel>| #[trigger]
                final(self).scan(frames) == take_channel(
                    old(self).scan(frames),
                    old(self).rules(min_height),
                    azimuth as int,
                    chan as int,
                    *m,
                ),
    {
        let ghost nodes0 = self.range_graph.nodes@;
        let ghost points0 = self.points@;
        let ghost rules = self.rules(min_height);
        let (_, angle) = self.firing_angles(azimuth, m.az_offset, chan);
        let high_enough: bool = match min_height {
            None => true,
            Some(h) => is_at_most(h, m.z),
        };
        if self.distance_section.contains(m.range) && self.scan_section.contains(angle)
            && high_enough {
            let ring: usize = self.chan_angles.user_chan[chan] as usize;
            let point_idx: i32 = self.points.len() as i32;
            let az: i32 = azimuth_round(angle);
            proof {
                rings_follow_angles(self.chan_angles, chan as int, chan as int);
            }
            self.range_graph.insert(ring, az, m.x, m.y, m.z, m.range, point_idx);
            self.points.push(Point { x: m.x, y: m.y, z: m.z, intensity: m.intensity });
            proof {
                let p = Point { x: m.x, y: m.y, z: m.z, intensity: m.intensity };
                let node = point_node(m.x, m.y, m.z, m.range, az, point_idx);
                offering_holds_points(
                    nodes0,
                    points0,
                    cell_index(ring as int, column_of(az as int)),
                    node,
                    p,
                );
            }
        } else if !self.cfg.dense_points {
            self.points.push(Point { x: NAN_BITS, y: NAN_BITS, z: NAN_BITS, intensity: 0 });
            proof {
                more_points_hold(nodes0, points0, blank_point());
            }
        }
        self.prev_point_ts = m.ts;
    }

    /// Finishes the revolution if a block begins a new one.
    fn begin(&mut self, azimuth: i32, ts: u64, out: &mut Vec<Frame>)
        requires
            old(self).wf(),
            0 <= azimuth <= 65535,
            old(self).points@.len() <= MAX_POINTS,
            frames_wf(old(out)@),
        ensures
            final(self).wf(),
            final(self).same_rules(old(self)),
            final(self).same_sensor(old(self)),
            final(self).points@.len() <= old(self).points@.len(),
            frames_wf(final(out)@),
            final(self).scan(frame_models(final(out)@)) == begin_block(
                old(self).scan(frame_models(old(out)@)),
                old(self).rules(None),
                azimuth as int,
                ts,
            ),
    {
        let ghost out0 = out@;
        if self.split.new_block(azimuth) {
            let stamp: u64 = if self.cfg.ts_first_point {
                self.first_point_ts
            } else {
                self.prev_point_ts
            };
            let mut finished = RangeGraph::new();
            assert(finished.nodes@ =~= empty_nodes());
            core::mem::swap(&mut self.range_graph, &mut finished);
            let mut points: Vec<Point> = Vec::new();
            core::mem::swap(&mut self.points, &mut points);
            if points.len() > 0 {
                out.push(Frame { points, stamp, range_graph: finished });
                assert(frame_models(out@) =~= frame_models(out0).push(
                    FrameModel {
                        points: old(self).points@,
                        stamp,
                        nodes: old(self).range_graph.nodes@,
                    },
                ));
            }
            self.first_point_ts = ts;
            assert(self.points@ =~= Seq::empty());
        }
    }

    /// Takes the blocks of one measurement packet with what was measured in
    /// them, and returns the revolutions that they finish.
    pub fn decode_msop(
        &mut self,
        pkt: &MsopPacket,
        measured: &Vec<MeasuredBlock>,
        min_height: Option<u32>,
    ) -> (out: Vec<Frame>)
        requires
            old(self).wf(),
            old(self).angles_ready,
            measures(*pkt, measured@),
            old(self).points@.len() + POINTS_PER_PKT <= MAX_POINTS,
        ensures
            final(self).wf(),
            packet_taken(*old(self), *final(self), *pkt, measured@, min_height, out@),
    {
        let ghost s0 = self.scan(Seq::empty());
        let ghost rules = self.rules(min_height);
        let ghost azimuths = packet_azimuths(*pkt);
        let mut out: Vec<Frame> = Vec::new();
        assert(frame_models(out@) =~= Seq::empty());
        let n: usize = measured.len();
        let mut b: usize = 0;
        while b < n
            invariant
                b <= n,
                n == measured@.len(),
                n <= 12,
                measures(*pkt, measured@),
                azimuths == packet_azimuths(*pkt),
                self.wf(),
                self.angles_ready,
                self.same_rules(old(self)),
                self.same_sensor(old(self)),
                rules == old(self).rules(min_height),
                frames_wf(out@),
                old(self).points@.len() + POINTS_PER_PKT <= MAX_POINTS,
                self.points@.len() <= old(self).points@.len() + 32 * b,
                self.scan(frame_models(out@)) == take_blocks(
                    s0,
                    rules,
                    azimuths,
                    measured@,
                    b as int,
                ),
            decreases n - b,
        {
            assert(measured@[b as int].channels@.len() == LASER_NUM);
            let azimuth: i32 = pkt.blocks[b].azimuth;
            let block = &measured[b];
            assert(azimuths[b as int] == azimuth);
            let ghost s1 = self.scan(frame_models(out@));
            assert(begin_block(s1, self.rules(None), azimuth as int, block.ts) == begin_block(
                s1,
                rules,
                azimuth as int,
                block.ts,
            ));
            self.begin(azimuth, block.ts, &mut out);
            let ghost s2 = self.scan(frame_models(out@));
            let ghost len2 = self.points@.len();
            let mut c: usize = 0;
            while c < LASER_NUM
                invariant
                    c <= LASER_NUM,
                    b < n,
                    n == measured@.len(),
                    n <= 12,
                    measures(*pkt, measured@),
                    *block == measured@[b as int],
                    block.channels@.len() == LASER_NUM,
                    0 <= azimuth <= 65535,
                    self.wf(),
                    self.angles_ready,
                    self.same_rules(old(self)),
                    self.same_sensor(old(self)),
                    rules == old(self).rules(min_height),
                    len2 <= old(self).points@.len() + 32 * b,
                    old(self).points@.len() + POINTS_PER_PKT <= MAX_POINTS,
                    self.points@.len() <= len2 + c,
                    self.scan(frame_models(out@)) == take_channels(
                        s2,
                        rules,
                        azimuth as int,
                        block.channels@,
                        c as int,
                    ),
                decreases LASER_NUM - c,
            {
                let m = block.channels[c];
                assert(measured@[b as int].channels@[c as int] == m);
                let ghost prev = self.scan(frame_models(out@));
                assert(self.rules(min_height) == rules);
                self.take_one(azimuth, c, &m, min_height);
                assert(self.scan(frame_models(out@)) == take_channel(
                    prev,
                    rules,
                    azimuth as int,
                    c as int,
                    m,
                ));
                c = c + 1;
            }
            b = b + 1;
        }
        out
    }
}

/// Whether finished revolutions pair points with the range graph that holds
/// them.
pub open spec fn frames_wf(frames: Seq<Frame>) -> bool {
    forall|i: int|
        0 <= i < frames.len() ==> {
            &&& 0 < (#[trigger] frames[i]).points@.len() <= MAX_POINTS
            &&& holds_points(frames[i].range_graph.nodes@, frames[i].points@)
        }
}

/// Points are only ever added behind those that are there: one per channel
/// where points that are not kept are left blank, and one per kept point
/// where they are left out.
pub proof fn channels_add_points(s: Scan, r: Rules, azimuth: int, channels: Seq<Measured>, upto: int)
    requires
        0 <= upto,
    ensures
        ({
            let after = take_channels(s, r, azimuth, channels, upto);
            &&& s.points.is_prefix_of(after.points)
            &&& after.points.len() <= s.points.len() + upto
            &&& !r.dense ==> after.points.len() == s.points.len() + upto
            &&& r.dense ==> forall|p: int|
                s.points.len() <= p < after.points.len() ==> was_kept(
                    r,
                    azimuth,
                    channels,
                    upto,
                    #[trigger] after.points[p],
                )
            &&& after.frames == s.frames
            &&& after.prev_angle == s.prev_angle
            &&& after.first_ts == s.first_ts
            &&& upto > 0 ==> after.prev_ts == channels[upto - 1].ts
        }),
    decreases upto,
{
    if upto > 0 {
        channels_add_points(s, r, azimuth, channels, upto - 1);
        let before = take_channels(s, r, azimuth, channels, upto - 1);
        let after = take_channels(s, r, azimuth, channels, upto);
        assert(before.points.is_prefix_of(after.points));
        assert(s.points.is_prefix_of(after.points)) by {
            assert(s.points =~= after.points.subrange(0, s.points.len() as int)) by {
                assert forall|i: int| 0 <= i < s.points.len() implies s.points[i]
                    == after.points[i] by {
                    assert(s.points[i] == before.points.subrange(0, s.points.len() as int)[i]);
                }
            }
        }
        if r.dense {
            assert forall|p: int| s.points.len() <= p < after.points.len() implies was_kept(
                r,
                azimuth,
                channels,
                upto,
                #[trigger] after.points[p],
            ) by {
                if p < before.points.len() {
                    assert(after.points[p] == before.points[p]);
                    let c = choose|c: int|
                        0 <= c < upto - 1 && keeps(r, azimuth, c, channels[c]) && before.points[p]
                            == kept_point(#[trigger] channels[c]);
                    assert(after.points[p] == kept_point(channels[c]));
                } else {
                    assert(after.points[p] == kept_point(channels[upto - 1]));
                }
            }
        }
    } else {
        assert(s.points.is_prefix_of(s.points)) by {
            assert(s.points =~= s.points.subrange(0, s.points.len() as int));
        }
    }
}

/// The point of a channel that is kept.
pub open spec fn kept_point(m: Measured) -> Point {
    Point { x: m.x, y: m.y, z: m.z, intensity: m.intensity }
}

/// Whether `p` is the point of one of the first `upto` channels, and kept.
pub open spec fn was_kept(
    r: Rules,
    azimuth: int,
    channels: Seq<Measured>,
    upto: int,
    p: Point,
) -> bool {
    exists|c: int|
        0 <= c < upto && keeps(r, azimuth, c, channels[c]) && p == kept_point(#[trigger] channels[c])
}

/// What one channel adds to the cloud: its point where it is kept, else a
/// blank one or none.
pub open spec fn channel_points(r: Rules, azimuth: int, c: int, m: Measured) -> Seq<Point> {
    if keeps(r, azimuth, c, m) {
        seq![kept_point(m)]
    } else if !r.dense {
        seq![blank_point()]
    } else {
        Seq::empty()
    }
}

/// What the first `upto` channels of a block add to the cloud.
pub open spec fn block_points(r: Rules, azimuth: int, channels: Seq<Measured>, upto: int) -> Seq<Point>
    decreases upto,
{
    if upto <= 0 {
        Seq::empty()
    } else {
        block_points(r, azimuth, channels, upto - 1) + channel_points(
            r,
            azimuth,
            upto - 1,
            channels[upto - 1],
        )
    }
}

/// What the first `upto` blocks of a packet add to the clouds.
pub open spec fn packet_points(
    r: Rules,
    azimuths: Seq<int>,
    measured: Seq<MeasuredBlock>,
    upto: int,
) -> Seq<Point>
    decreases upto,
{
    if upto <= 0 {
        Seq::empty()
    } else {
        packet_points(r, azimuths, measured, upto - 1) + block_points(
            r,
            azimuths[upto - 1],
            measured[upto - 1].channels@,
            32,
        )
    }
}

/// The points of the finished revolutions, one after the other.
pub open spec fn finished_points(frames: Seq<FrameModel>) -> Seq<Point>
    decreases frames.len(),
{
    if frames.len() == 0 {
        Seq::empty()
    } else {
        finished_points(frames.drop_last()) + frames.last().points
    }
}

/// The points of a scan: of its finished revolutions, then of the one in
/// progress.
pub open spec fn all_points(s: Scan) -> Seq<Point> {
    finished_points(s.frames) + s.points
}

/// No point is lost, doubled or moved: the revolutions that a packet finishes
/// and the one in progress hold, in order, the points that were there and
/// those that the packet adds.
pub proof fn every_point_is_in_one_revolution(
    s: Scan,
    r: Rules,
    azimuths: Seq<int>,
    measured: Seq<MeasuredBlock>,
    upto: int,
)
    requires
        0 <= upto,
    ensures
        all_points(take_blocks(s, r, azimuths, measured, upto)) == all_points(s) + packet_points(
            r,
            azimuths,
            measured,
            upto,
        ),
    decreases upto,
{
    if upto > 0 {
        every_point_is_in_one_revolution(s, r, azimuths, measured, upto - 1);
        let before = take_blocks(s, r, azimuths, measured, upto - 1);
        let az = azimuths[upto - 1];
        let b = measured[upto - 1];
        let begun = begin_block(before, r, az, b.ts);
        if begun.frames != before.frames {
            assert(begun.frames.drop_last() =~= before.frames);
        }
        assert(all_points(begun) =~= all_points(before));
        block_adds_its_points(begun, r, az, b.channels@, 32);
        channels_add_points(begun, r, az, b.channels@, 32);
        let p = block_points(r, az, b.channels@, 32);
        assert(finished_points(begun.frames) + (begun.points + p) =~= all_points(begun) + p);
        assert(all_points(s) + packet_points(r, azimuths, measured, upto - 1) + p =~= all_points(s)
            + (packet_points(r, azimuths, measured, upto - 1) + p));
    } else {
        assert(all_points(s) + Seq::<Point>::empty() =~= all_points(s));
    }
}

proof fn block_adds_its_points(s: Scan, r: Rules, azimuth: int, channels: Seq<Measured>, upto: int)
    requires
        0 <= upto,
    ensures
        take_channels(s, r, azimuth, channels, upto).points == s.points + block_points(
            r,
            azimuth,
            channels,
            upto,
        ),
    decreases upto,
{
    if upto > 0 {
        block_adds_its_points(s, r, azimuth, channels, upto - 1);
        let before = take_channels(s, r, azimuth, channels, upto - 1);
        let added = channel_points(r, azimuth, upto - 1, channels[upto - 1]);
        assert(take_channels(s, r, azimuth, channels, upto).points =~= before.points + added);
        assert(before.points + added =~= s.points + (block_points(r, azimuth, channels, upto - 1)
            + added));
    } else {
        assert(s.points + Seq::<Point>::empty() =~= s.points);
    }
}

/// A ring that has a channel has that channel's vertical angle.
pub proof fn ring_has_its_channels_angle(c: ChanAngles, before: Seq<i32>, chan: int, upto: int)
    requires
        c.wf(),
        0 <= chan < upto <= 32,
    ensures
        ring_angle(c.user_chan@, c.vert@, before, c.user_chan@[chan] as int, upto)
            == c.vert@[chan],
    decreases upto,
{
    rings_follow_angles(c, chan, upto - 1);
    if c.user_chan@[upto - 1] != c.user_chan@[chan] {
        ring_has_its_channels_angle(c, before, chan, upto - 1);
    }
}

/// Labelling and clustering the cells of a revolution keeps them paired with
/// its points: every cell still names a point of the cloud, and that point's
/// cluster is the cell's.
pub proof fn points_have_their_cells_clusters(
    before: Seq<RangeNode>,
    after: Seq<RangeNode>,
    points: Seq<Point>,
    i: int,
)
    requires
        holds_points(before, points),
        after.len() == before.len(),
        forall|k: int|
            0 <= k < after.len() ==> (#[trigger] after[k]).valid == before[k].valid
                && after[k].point_idx == before[k].point_idx,
        0 <= i < after.len(),
        after[i].valid,
    ensures
        names_points(after, points.len() as int),
        0 <= after[i].point_idx < points.len(),
        points[after[i].point_idx as int].x == before[i].x,
        points[after[i].point_idx as int].y == before[i].y,
        points[after[i].point_idx as int].z == before[i].z,
        cluster_of_point(after, after[i].point_idx as int, after.len() as int) == after[i].beta,
{
    assert forall|k: int|
        0 <= k < after.len() && (#[trigger] after[k]).valid implies holds_point(
        before[k],
        points,
        k,
    ) by {
        assert(before[k].valid);
    }
    let p = after[i].point_idx as int;
    assert forall|a: int, b: int|
        0 <= a < after.len() && 0 <= b < after.len() && (#[trigger] after[a]).valid && (
        #[trigger] after[b]).valid && after[a].point_idx == p && after[b].point_idx == p implies a
        == b by {
        assert(before[a].valid && before[b].valid);
    }
    point_has_its_cells_cluster(after, p, after.len() as int);
}

/// A new point may be offered to any cell of its azimuth.
proof fn offering_holds_points(
    nodes: Seq<RangeNode>,
    points: Seq<Point>,
    idx: int,
    node: RangeNode,
    p: Point,
)
    requires
        holds_points(nodes, points),
        0 <= idx < NUM_CELLS,
        points.len() <= MAX_POINTS,
        node.point_idx == points.len(),
        node.x == p.x,
        node.y == p.y,
        node.z == p.z,
        0 <= node.azimuth_centideg < 36000,
        column_of(node.azimuth_centideg as int) == idx % 3600,
        node.alpha == -1,
        node.beta == -1,
    ensures
        holds_points(offered(nodes, idx, node), points.push(p)),
{
    let after = offered(nodes, idx, node);
    let more = points.push(p);
    assert forall|i: int| 0 <= i < after.len() && (#[trigger] after[i]).valid implies holds_point(
        after[i],
        more,
        i,
    ) by {
        if after[i] == nodes[i] {
            assert(holds_point(nodes[i], points, i) || i == idx);
        }
    }
    assert forall|i: int, j: int|
        0 <= i < j < after.len() && (#[trigger] after[i]).valid && (#[trigger] after[j]).valid implies after[i].point_idx
        != after[j].point_idx by {
        if i != idx {
            assert(after[i] == nodes[i]);
            assert(holds_point(nodes[i], points, i));
        }
        if j != idx {
            assert(after[j] == nodes[j]);
            assert(holds_point(nodes[j], points, j));
        }
    }
}

/// A point that no cell holds changes nothing for the cells.
proof fn more_points_hold(nodes: Seq<RangeNode>, points: Seq<Point>, p: Point)
    requires
        holds_points(nodes, points),
    ensures
        holds_points(nodes, points.push(p)),
{
    assert forall|i: int| 0 <= i < nodes.len() && (#[trigger] nodes[i]).valid implies holds_point(
        nodes[i],
        points.push(p),
        i,
    ) by {
        assert(holds_point(nodes[i], points, i));
    }
}

/// What one channel does. Its point is kept where its distance lies between
/// the limits, its direction lies in the section, and it is not below the
/// height. The direction is the block's azimuth, with what the sensor has
/// turned since and the channel's own offset. A kept point is added to the
/// cloud, and offered to the cell of its channel's ring and its tenth of a
/// degree; for any other, a blank point is added, or none where the cloud is
/// dense.
pub proof fn a_channel_adds_its_point(s: Scan, r: Rules, azimuth: int, c: int, m: Measured, k: int)
    requires
        s.nodes.len() == 115200,
        s.points.len() <= i32::MAX,
        0 <= c < 32,
        r.user_chan[c] < 32,
        0 <= k < 115200,
    ensures
        ({
            let dir = azimuth + m.az_offset + r.horiz[c];
            let inside = {
                ||| r.section.full_round
                ||| (r.section.cross_zero && (r.section.start <= dir || dir < r.section.end))
                ||| (!r.section.cross_zero && r.section.start <= dir && dir < r.section.end)
            };
            let high = match r.min_height {
                Some(h) => at_most(h, m.z),
                None => true,
            };
            let kept = at_most(r.distance.min, m.range) && at_most(m.range, r.distance.max) && inside
                && high;
            let after = take_channel(s, r, azimuth, c, m);
            let here = k / 3600 == r.user_chan[c] && 10 * (k % 3600) <= dir % 36000 < 10 * (k % 3600)
                + 10;
            &&& after.prev_ts == m.ts
            &&& after.first_ts == s.first_ts
            &&& after.prev_angle == s.prev_angle
            &&& after.frames == s.frames
            &&& kept ==> {
                &&& after.points.len() == s.points.len() + 1
                &&& after.points.drop_last() == s.points
                &&& after.points.last().x == m.x
                &&& after.points.last().y == m.y
                &&& after.points.last().z == m.z
                &&& after.points.last().intensity == m.intensity
            }
            &&& !kept && !r.dense ==> {
                &&& after.points.len() == s.points.len() + 1
                &&& after.points.drop_last() == s.points
                &&& after.points.last().x == 0x7fc0_0000
                &&& after.points.last().y == 0x7fc0_0000
                &&& after.points.last().z == 0x7fc0_0000
                &&& after.points.last().intensity == 0
            }
            &&& !kept && r.dense ==> after.points == s.points
            &&& !kept || !here ==> after.nodes[k] == s.nodes[k]
            &&& kept && here && s.nodes[k].valid && !less(m.range, s.nodes[k].range)
                ==> after.nodes[k] == s.nodes[k]
            &&& kept && here && (!s.nodes[k].valid || less(m.range, s.nodes[k].range)) ==> {
                &&& after.nodes[k].valid
                &&& after.nodes[k].x == m.x
                &&& after.nodes[k].y == m.y
                &&& after.nodes[k].z == m.z
                &&& after.nodes[k].range == m.range
                &&& after.nodes[k].azimuth_centideg == dir % 36000
                &&& after.nodes[k].point_idx == s.points.len()
            }
        }),
{
    let dir = azimuth + m.az_offset + r.horiz[c];
    let after = take_channel(s, r, azimuth, c, m);
    assert(after.points == s.points || after.points.drop_last() =~= s.points);
    point_lands_in_its_column(
        s.nodes,
        r.user_chan[c] as int,
        (dir % 36000) as i32,
        m.x,
        m.y,
        m.z,
        m.range,
        s.points.len() as i32,
        k,
    );
}

/// Where a revolution ends. With the boundary at zero, a block whose azimuth
/// is smaller than that of the one before it begins a new revolution. The old
/// one is finished as it is, stamped with its first or its last time as
/// configured, unless it has no points; the new one has no points and no
/// occupied cells. Any other block goes on with the revolution as it is.
pub proof fn a_revolution_ends_where_the_azimuth_falls_back(
    s: Scan,
    r: Rules,
    azimuth: int,
    ts: u64,
    k: int,
)
    requires
        r.split_angle == 0,
        0 <= s.prev_angle < 36000,
        0 <= azimuth,
        0 <= k < 115200,
    ensures
        ({
            let after = begin_block(s, r, azimuth, ts);
            &&& after.prev_angle == azimuth
            &&& after.prev_ts == s.prev_ts
            &&& azimuth >= s.prev_angle ==> {
                &&& after.points == s.points
                &&& after.nodes == s.nodes
                &&& after.first_ts == s.first_ts
                &&& after.frames == s.frames
            }
            &&& azimuth < s.prev_angle ==> {
                &&& after.points.len() == 0
                &&& after.nodes.len() == 115200
                &&& !after.nodes[k].valid
                &&& after.first_ts == ts
                &&& s.points.len() == 0 ==> after.frames == s.frames
                &&& s.points.len() > 0 ==> {
                    &&& after.frames.len() == s.frames.len() + 1
                    &&& after.frames.drop_last() == s.frames
                    &&& after.frames.last().points == s.points
                    &&& after.frames.last().nodes == s.nodes
                    &&& r.stamp_first ==> after.frames.last().stamp == s.first_ts
                    &&& !r.stamp_first ==> after.frames.last().stamp == s.prev_ts
                }
            }
        }),
{
    let after = begin_block(s, r, azimuth, ts);
    assert(after.frames == s.frames || after.frames.drop_last() =~= s.frames);
}

/// Points come in firing order: where the cloud is not dense, channel `c` of
/// block `b` gives the point at `32 * b + c` behind those that were there, over
/// the finished revolutions and the one in progress; and each block gives 32.
pub proof fn points_come_in_firing_order(
    s: Scan,
    r: Rules,
    azimuths: Seq<int>,
    measured: Seq<MeasuredBlock>,
    upto: int,
    b: int,
    c: int,
)
    requires
        !r.dense,
        0 <= b < upto,
        0 <= c < 32,
    ensures
        ({
            let m = measured[b].channels@[c];
            let all = all_points(take_blocks(s, r, azimuths, measured, upto));
            let p = all[all_points(s).len() + 32 * b + c];
            &&& all.len() == all_points(s).len() + 32 * upto
            &&& keeps(r, azimuths[b], c, m) ==> p.x == m.x && p.y == m.y && p.z == m.z
                && p.intensity == m.intensity
            &&& !keeps(r, azimuths[b], c, m) ==> p.x == 0x7fc0_0000 && p.y == 0x7fc0_0000 && p.z
                == 0x7fc0_0000 && p.intensity == 0
        }),
{
    every_point_is_in_one_revolution(s, r, azimuths, measured, upto);
    packet_point_at(r, azimuths, measured, upto, b, c);
}

proof fn block_point_at(r: Rules, azimuth: int, channels: Seq<Measured>, upto: int, c: int)
    requires
        !r.dense,
        0 <= upto,
    ensures
        block_points(r, azimuth, channels, upto).len() == upto,
        0 <= c < upto ==> block_points(r, azimuth, channels, upto)[c] == channel_points(
            r,
            azimuth,
            c,
            channels[c],
        )[0],
    decreases upto,
{
    if upto > 0 {
        block_point_at(r, azimuth, channels, upto - 1, c);
    }
}

proof fn packet_point_at(
    r: Rules,
    azimuths: Seq<int>,
    measured: Seq<MeasuredBlock>,
    upto: int,
    b: int,
    c: int,
)
    requires
        !r.dense,
        0 <= upto,
        0 <= c < 32,
    ensures
        packet_points(r, azimuths, measured, upto).len() == 32 * upto,
        0 <= b < upto ==> packet_points(r, azimuths, measured, upto)[32 * b + c] == channel_points(
            r,
            azimuths[b],
            c,
            measured[b].channels@[c],
        )[0],
    decreases upto,
{
    if upto > 0 {
        packet_point_at(r, azimuths, measured, upto - 1, b, c);
        block_point_at(r, azimuths[upto - 1], measured[upto - 1].channels@, 32, c);
    }
}

/// What decides over the points of a packet is what the decoder was told and
/// calibrated with, and what it goes on from is the revolution in progress.
pub proof fn rules_are_the_decoders(
    d: RsHeliosDecoder,
    min_height: Option<u32>,
    frames: Seq<FrameModel>,
)
    ensures
        d.rules(min_height).horiz == d.chan_angles.horiz@,
        d.rules(min_height).user_chan == d.chan_angles.user_chan@,
        d.rules(min_height).section == d.scan_section,
        d.rules(min_height).distance == d.distance_section,
        d.rules(min_height).dense == d.cfg.dense_points,
        d.rules(min_height).stamp_first == d.cfg.ts_first_point,
        d.rules(min_height).split_angle == d.split.split_angle,
        d.rules(min_height).min_height == min_height,
        d.scan(frames).points == d.points@,
        d.scan(frames).nodes == d.range_graph.nodes@,
        d.scan(frames).prev_angle == d.split.prev_angle,
        d.scan(frames).first_ts == d.first_point_ts,
        d.scan(frames).prev_ts == d.prev_point_ts,
        d.scan(frames).frames == frames,
{
}

/// Which datagrams are decoded: those of exactly the length of a packet and
/// the two extra layers, with the mark of measurements behind the first layer,
/// and none before the calibration where that is waited for.
pub proof fn marked_datagrams_are_accepted(d: RsHeliosDecoder, raw: Seq<u8>)
    ensures
        ({
            let off = d.cfg.user_layer_bytes as int;
            d.accepts(raw) <==> {
                &&& raw.len() == off + 1248 + d.cfg.tail_layer_bytes
                &&& raw[off] == 0x55
                &&& raw[off + 1] == 0xaa
                &&& raw[off + 2] == 0x05
                &&& raw[off + 3] == 0x5a
                &&& d.angles_ready || !d.cfg.wait_for_difop
            }
        }),
{
    let off = d.cfg.user_layer_bytes as int;
    let pkt = payload_of(raw, off, d.cfg.tail_layer_bytes as int);
    if raw.len() == off + 1248 + d.cfg.tail_layer_bytes {
        marks_are_the_first_bytes(pkt);
        assert(pkt[0] == raw[off] && pkt[1] == raw[off + 1] && pkt[2] == raw[off + 2] && pkt[3]
            == raw[off + 3]);
    }
}

/// What a status packet does to a decoder, byte by byte. It sets the motion and
/// the return mode: two returns where the byte at 300 is zero. Where there was
/// no calibration and the packet has a complete one, the angles of channel `i`
/// are those of the three bytes at `468 + 3 * i` and at `564 + 3 * i`. A
/// calibration, once taken, is never changed, and neither is what has been
/// measured.
pub proof fn status_sets_motion_and_calibration(
    before: RsHeliosDecoder,
    after: RsHeliosDecoder,
    pkt: Seq<u8>,
    i: int,
)
    requires
        after.wf(),
        status_taken(before, after, pkt),
        pkt.len() == 1248,
        is_difop(pkt),
        0 <= i < 32,
    ensures
        ({
            let rpm = 256 * pkt[8] + pkt[9];
            let v = 256 * pkt[469 + 3 * i] + pkt[470 + 3 * i];
            let h = 256 * pkt[565 + 3 * i] + pkt[566 + 3 * i];
            let start = 256 * pkt[32] + pkt[33];
            let end = 256 * pkt[34] + pkt[35];
            &&& rpm < 60 ==> after.rps == 10
            &&& rpm >= 60 ==> 60 * after.rps <= rpm < 60 * after.rps + 60
            &&& -50_000_000 <= 100_000_000 * after.block_az_diff_const - 200_016_000 * after.rps
                <= 50_000_000
            &&& start < end ==> after.fov_blind_range + (end - start) == 36000
            &&& start >= end ==> after.fov_blind_range == start - end
            &&& after.dual_return <==> pkt[300] == 0
            &&& before.angles_ready ==> after.angles_ready && after.chan_angles
                == before.chan_angles && after.ring_vert == before.ring_vert
            &&& !before.angles_ready && after.angles_ready ==> {
                &&& pkt[468 + 3 * i] != 0xff
                &&& pkt[564 + 3 * i] != 0xff
                &&& pkt[468 + 3 * i] == 0 ==> after.chan_angles.vert@[i] == v
                &&& pkt[468 + 3 * i] != 0 ==> after.chan_angles.vert@[i] == -v
                &&& pkt[564 + 3 * i] == 0 ==> after.chan_angles.horiz@[i] == h
                &&& pkt[564 + 3 * i] != 0 ==> after.chan_angles.horiz@[i] == -h
                &&& after.ring_vert@[after.chan_angles.user_chan@[i] as int]
                    == after.chan_angles.vert@[i]
            }
            &&& after.points@ == before.points@
            &&& after.range_graph.nodes@ == before.range_graph.nodes@
            &&& after.cfg == before.cfg
        }),
{
    motion_follows_the_status(pkt);
    let vert = pkt.subrange(468, 564);
    let horiz = pkt.subrange(564, 660);
    assert(vert[3 * i] == pkt[468 + 3 * i] && vert[3 * i + 1] == pkt[469 + 3 * i] && vert[3 * i + 2]
        == pkt[470 + 3 * i]);
    assert(horiz[3 * i] == pkt[564 + 3 * i] && horiz[3 * i + 1] == pkt[565 + 3 * i] && horiz[3 * i
        + 2] == pkt[566 + 3 * i]);
    angles_stand_at_their_bytes(vert, i);
    angles_stand_at_their_bytes(horiz, i);
    if !before.angles_ready && after.angles_ready {
        assert(after.chan_angles.vert@[i] == entry_angle(vert, i));
        assert(after.chan_angles.horiz@[i] == entry_angle(horiz, i));
        rings_follow_angles(after.chan_angles, i, i);
        ring_has_its_channels_angle(after.chan_angles, before.ring_vert@, i, 32);
    }
}

/// A calibration that is waited for is missed only where the packet has a
/// channel whose sign byte has all bits set or whose angle is out of range, in
/// one of the two tables.
pub proof fn complete_calibrations_are_taken(
    before: RsHeliosDecoder,
    after: RsHeliosDecoder,
    pkt: Seq<u8>,
) -> (at: int)
    requires
        status_taken(before, after, pkt),
        pkt.len() == 1248,
        is_difop(pkt),
        !before.angles_ready,
        !after.angles_ready,
    ensures
        at % 3 == 0,
        468 <= at < 660,
        ({
            let mag = 256 * pkt[at + 1] + pkt[at + 2];
            ||| pkt[at] == 0xff
            ||| (pkt[at] == 0 && mag >= 18000)
            ||| (pkt[at] != 0 && mag > 9000)
        }),
{
    let vert = pkt.subrange(468, 564);
    let horiz = pkt.subrange(564, 660);
    if !table_ok(vert) {
        let k = incomplete_tables_have_a_bad_channel(vert);
        assert(vert[3 * k] == pkt[468 + 3 * k] && vert[3 * k + 1] == pkt[468 + 3 * k + 1] && vert[3
            * k + 2] == pkt[468 + 3 * k + 2]);
        468 + 3 * k
    } else {
        let k = incomplete_tables_have_a_bad_channel(horiz);
        assert(horiz[3 * k] == pkt[564 + 3 * k] && horiz[3 * k + 1] == pkt[564 + 3 * k + 1] && horiz[
        3 * k + 2] == pkt[564 + 3 * k + 2]);
        564 + 3 * k
    }
}

/// A new decoder keeps what its configuration says: the distances between the
/// configured limits, or from 0.1 to 180 without any, in the directions from
/// the configured start to the configured end; and its revolutions begin at
/// zero.
pub proof fn a_new_decoder_keeps_what_is_configured(
    d: RsHeliosDecoder,
    cfg: DecoderConfig,
    range: u32,
    angle: int,
)
    requires
        d.fresh(cfg),
        0 < range <= 0x7f80_0000,
        0 <= angle < 36000,
    ensures
        ({
            let min = if 0 < cfg.min_distance <= 0x7f80_0000 {
                cfg.min_distance as int
            } else {
                0
            };
            let max = if 0 < cfg.max_distance <= 0x7f80_0000 {
                cfg.max_distance as int
            } else {
                0
            };
            let r = d.rules(None);
            &&& min > 0 || max > 0 ==> (r.distance.covers(range) <==> min <= range <= max)
            &&& min == 0 && max == 0 ==> (r.distance.covers(range) <==> 0x3dcc_cccd <= range
                <= 0x4334_0000)
            &&& r.section.covers(angle) <==> ((cfg.end_angle - cfg.start_angle) % 36000 == 0 || (
            angle - cfg.start_angle) % 36000 < (cfg.end_angle - cfg.start_angle) % 36000)
            &&& r.split_angle == 0
            &&& !d.angles_ready
            &&& d.points@.len() == 0
        }),
{
    distances_between_the_limits_are_kept(
        d.distance_section,
        cfg.min_distance,
        cfg.max_distance,
        range,
    );
    section_is_an_arc(d.scan_section, cfg.start_angle as int, cfg.end_angle as int, angle);
}

/// Every block of a packet is held against the boundary. With the boundary at
/// zero, a block whose azimuth is smaller than that of the block before it
/// finishes the revolution as it stood, and its 32 channels are the first of
/// the new one; any other block adds its channels to the revolution.
pub proof fn every_block_is_held_against_the_boundary(
    s: Scan,
    r: Rules,
    azimuths: Seq<int>,
    measured: Seq<MeasuredBlock>,
    b: int,
)
    requires
        r.split_angle == 0,
        0 <= b,
        0 <= take_blocks(s, r, azimuths, measured, b).prev_angle < 36000,
        0 <= azimuths[b],
    ensures
        take_blocks(s, r, azimuths, measured, 0) == s,
        ({
            let before = take_blocks(s, r, azimuths, measured, b);
            let after = take_blocks(s, r, azimuths, measured, b + 1);
            &&& after.prev_angle == azimuths[b]
            &&& after.prev_ts == measured[b].channels@[31].ts
            &&& azimuths[b] >= before.prev_angle ==> {
                &&& after.frames == before.frames
                &&& after.first_ts == before.first_ts
                &&& before.points.is_prefix_of(after.points)
                &&& !r.dense ==> after.points.len() == before.points.len() + 32
                &&& r.dense ==> after.points.len() == before.points.len() + Set::new(
                    |c: int| 0 <= c < 32 && keeps(r, azimuths[b], c, measured[b].channels@[c]),
                ).len()
            }
            &&& azimuths[b] < before.prev_angle ==> {
                &&& after.first_ts == measured[b].ts
                &&& after.points.len() <= 32
                &&& !r.dense ==> after.points.len() == 32
                &&& r.dense ==> after.points.len() == Set::new(
                    |c: int| 0 <= c < 32 && keeps(r, azimuths[b], c, measured[b].channels@[c]),
                ).len()
                &&& before.points.len() == 0 ==> after.frames == before.frames
                &&& before.points.len() > 0 ==> {
                    &&& after.frames.len() == before.frames.len() + 1
                    &&& after.frames.drop_last() == before.frames
                    &&& after.frames.last().points == before.points
                    &&& after.frames.last().nodes == before.nodes
                    &&& r.stamp_first ==> after.frames.last().stamp == before.first_ts
                    &&& !r.stamp_first ==> after.frames.last().stamp == before.prev_ts
                }
            }
        }),
{
    let before = take_blocks(s, r, azimuths, measured, b);
    let begun = begin_block(before, r, azimuths[b], measured[b].ts);
    a_revolution_ends_where_the_azimuth_falls_back(before, r, azimuths[b], measured[b].ts, 0);
    channels_add_points(begun, r, azimuths[b], measured[b].channels@, 32);
    if r.dense {
        dense_clouds_hold_the_kept_points(begun, r, azimuths[b], measured[b].channels@, 32, 0);
    }
}

/// Of a packet, every channel of every block counts: where the cloud is not
/// dense, the revolutions it finished and the one in progress have 32 points
/// more for each block than there were. The last block's azimuth is what the
/// next packet's first is held against, and the revolutions that were finished
/// are the ones that are returned.
pub proof fn all_blocks_of_a_packet_are_taken(
    before: RsHeliosDecoder,
    after: RsHeliosDecoder,
    pkt: MsopPacket,
    measured: Seq<MeasuredBlock>,
    min_height: Option<u32>,
    out: Seq<Frame>,
)
    requires
        measures(pkt, measured),
        packet_taken(before, after, pkt, measured, min_height, out),
        measured.len() > 0,
    ensures
        !before.cfg.dense_points ==> finished_points(frame_models(out)).len() + after.points@.len()
            == before.points@.len() + 32 * measured.len(),
        after.split.prev_angle == pkt.blocks@[measured.len() - 1].azimuth,
        after.prev_point_ts == measured[measured.len() - 1].channels@[31].ts,
{
    let s = before.scan(Seq::empty());
    let r = before.rules(min_height);
    let az = packet_azimuths(pkt);
    let n = measured.len() as int;
    let done = take_blocks(s, r, az, measured, n);
    assert(after.scan(frame_models(out)) == done);
    if !before.cfg.dense_points {
        points_come_in_firing_order(s, r, az, measured, n, 0, 0);
    }
    let prior = take_blocks(s, r, az, measured, n - 1);
    let begun = begin_block(prior, r, az[n - 1], measured[n - 1].ts);
    channels_add_points(begun, r, az[n - 1], measured[n - 1].channels@, 32);
}

/// What a returned revolution is, and which azimuths a packet has.
pub proof fn returned_revolutions_are_as_finished(frames: Seq<Frame>, p: MsopPacket, i: int)
    ensures
        frame_models(frames).len() == frames.len(),
        0 <= i < frames.len() ==> {
            &&& frame_models(frames)[i].points == frames[i].points@
            &&& frame_models(frames)[i].stamp == frames[i].stamp
            &&& frame_models(frames)[i].nodes == frames[i].range_graph.nodes@
        },
        packet_azimuths(p).len() == p.blocks@.len(),
        0 <= i < p.blocks@.len() ==> packet_azimuths(p)[i] == p.blocks@[i].azimuth,
{
}

/// A ring that no channel is on keeps the angle it had.
pub proof fn other_rings_keep_their_angles(
    user_chan: Seq<u16>,
    vert: Seq<i32>,
    before: Seq<i32>,
    ring: int,
    upto: int,
)
    requires
        0 <= upto,
        forall|k: int| 0 <= k < upto ==> #[trigger] user_chan[k] != ring,
    ensures
        ring_angle(user_chan, vert, before, ring, upto) == before[ring],
    decreases upto,
{
    if upto > 0 {
        assert(user_chan[upto - 1] != ring);
        other_rings_keep_their_angles(user_chan, vert, before, ring, upto - 1);
    }
}

/// Where the cloud is dense, a block adds exactly the points of the channels
/// that are kept, in the order of the channels: behind the point of a kept
/// channel stand those of the kept channels after it.
pub proof fn dense_clouds_hold_the_kept_points(
    s: Scan,
    r: Rules,
    azimuth: int,
    channels: Seq<Measured>,
    upto: int,
    c: int,
)
    requires
        r.dense,
        0 <= upto,
    ensures
        ({
            let all = Set::new(|k: int| 0 <= k < upto && keeps(r, azimuth, k, channels[k]));
            let first = Set::new(|k: int| 0 <= k < c && keeps(r, azimuth, k, channels[k]));
            let after = take_channels(s, r, azimuth, channels, upto).points;
            let at = (s.points.len() + first.len()) as int;
            &&& all.finite()
            &&& after.len() == s.points.len() + all.len()
            &&& 0 <= c < upto && keeps(r, azimuth, c, channels[c]) ==> {
                &&& first.finite()
                &&& first.len() < all.len()
                &&& after[at].x == channels[c].x
                &&& after[at].y == channels[c].y
                &&& after[at].z == channels[c].z
                &&& after[at].intensity == channels[c].intensity
            }
        }),
    decreases upto,
{
    let all = Set::new(|k: int| 0 <= k < upto && keeps(r, azimuth, k, channels[k]));
    if upto == 0 {
        assert(all =~= Set::empty());
    } else {
        let rest = Set::new(|k: int| 0 <= k < upto - 1 && keeps(r, azimuth, k, channels[k]));
        dense_clouds_hold_the_kept_points(s, r, azimuth, channels, upto - 1, c);
        if keeps(r, azimuth, upto - 1, channels[upto - 1]) {
            assert(all =~= rest.insert(upto - 1));
            if c == upto - 1 {
                assert(Set::new(|k: int| 0 <= k < c && keeps(r, azimuth, k, channels[k])) =~= rest);
            }
        } else {
            assert(all =~= rest);
        }
    }
}

/// Channels are taken one by one, in order, each on top of what those before
/// it left, and so are blocks.
pub proof fn channels_are_taken_in_order(
    s: Scan,
    r: Rules,
    azimuths: Seq<int>,
    measured: Seq<MeasuredBlock>,
    b: int,
    c: int,
)
    requires
        0 <= b,
        0 <= c < 32,
    ensures
        ({
            let begun = begin_block(
                take_blocks(s, r, azimuths, measured, b),
                r,
                azimuths[b],
                measured[b].ts,
            );
            let channels = measured[b].channels@;
            let before = take_channels(begun, r, azimuths[b], channels, c);
            &&& take_channels(begun, r, azimuths[b], channels, 0) == begun
            &&& take_channels(begun, r, azimuths[b], channels, c + 1) == take_channel(
                before,
                r,
                azimuths[b],
                c,
                channels[c],
            )
            &&& take_blocks(s, r, azimuths, measured, b + 1) == take_channels(
                begun,
                r,
                azimuths[b],
                channels,
                32,
            )
        }),
{
}

/// A packet that is no status packet changes nothing, and a status packet
/// changes nothing of what was configured or of the revolution in progress.
pub proof fn status_leaves_the_rest_alone(
    before: RsHeliosDecoder,
    after: RsHeliosDecoder,
    pkt: Seq<u8>,
)
    requires
        status_taken(before, after, pkt),
    ensures
        after.cfg == before.cfg,
        after.distance_section == before.distance_section,
        after.scan_section == before.scan_section,
        after.split == before.split,
        after.points@ == before.points@,
        after.range_graph.nodes@ == before.range_graph.nodes@,
        after.first_point_ts == before.first_point_ts,
        after.prev_point_ts == before.prev_point_ts,
        !is_difop(pkt) ==> {
            &&& after.angles_ready == before.angles_ready
            &&& after.chan_angles == before.chan_angles
            &&& after.ring_vert == before.ring_vert
            &&& after.dual_return == before.dual_return
            &&& after.block_az_diff_const == before.block_az_diff_const
            &&& after.fov_blind_range == before.fov_blind_range
            &&& after.rps == before.rps
        },
{
}

/// A measurement packet changes nothing of what was configured, calibrated or
/// reported of the motion.
pub proof fn measurements_leave_the_rest_alone(
    before: RsHeliosDecoder,
    after: RsHeliosDecoder,
    pkt: MsopPacket,
    measured: Seq<MeasuredBlock>,
    min_height: Option<u32>,
    out: Seq<Frame>,
)
    requires
        packet_taken(before, after, pkt, measured, min_height, out),
    ensures
        after.cfg == before.cfg,
        after.distance_section == before.distance_section,
        after.scan_section == before.scan_section,
        after.split.split_angle == before.split.split_angle,
        after.angles_ready == before.angles_ready,
        after.chan_angles == before.chan_angles,
        after.ring_vert == before.ring_vert,
        after.dual_return == before.dual_return,
        after.block_az_diff_const == before.block_az_diff_const,
        after.fov_blind_range == before.fov_blind_range,
        after.rps == before.rps,
{
}

/// A new decoder has no calibration and no points, and turns ten times a
/// second, with steps of 0.2 degrees and nothing of the circle blind, until a
/// status packet says otherwise.
pub proof fn a_new_decoder_is_empty(d: RsHeliosDecoder, cfg: DecoderConfig, k: int, r: int)
    requires
        d.fresh(cfg),
        0 <= k < 115200,
        0 <= r < 32,
    ensures
        d.cfg == cfg,
        d.rps == 10,
        d.block_az_diff_const == 20,
        d.fov_blind_range == 0,
        !d.dual_return,
        !d.angles_ready,
        d.chan_angles.vert@.len() == 0,
        d.chan_angles.horiz@.len() == 0,
        d.chan_angles.user_chan@.len() == 0,
        d.points@.len() == 0,
        d.range_graph.nodes@.len() == 115200,
        !d.range_graph.nodes@[k].valid,
        d.ring_vert@[r] == 0,
        d.split.split_angle == 0,
        d.split.prev_angle == 0,
        d.first_point_ts == 0,
        d.prev_point_ts == 0,
{
}

} // verus!
