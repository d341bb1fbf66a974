//! What holds of a decoder over all that it has taken since it was made.

use crate::bytes::le_value;
use crate::cloud::{cloud_bytes, cloud_reads_back, PointCloud2};
use crate::decoder::{
    frame_models, holds_point, measures, packet_azimuths, packet_taken, payload_of, status_taken,
    take_blocks, DecoderConfig, Frame, MeasuredBlock, RsHeliosDecoder, Rules, Scan,
    MAX_POINTS, POINTS_PER_PKT,
};
use crate::packet::{MsopBlock, MsopPacket};
use crate::range_graph::{same_points, RangeNode, NUM_CELLS};
use vstd::prelude::*;

verus! {

/// Something that a decoder has taken.
pub enum Event {
    /// A status packet.
    Status { pkt: Seq<u8> },
    /// A datagram, the packet that was read from it, what was measured in its
    /// blocks, the height below which points are left out, and the revolutions
    /// that it finished.
    Datagram {
        raw: Seq<u8>,
        packet: Option<MsopPacket>,
        measured: Seq<MeasuredBlock>,
        min_height: Option<u32>,
        out: Seq<Frame>,
    },
}

/// The revolutions that an event finished.
pub open spec fn returned(e: Event) -> Seq<Frame> {
    match e {
        Event::Status { .. } => Seq::empty(),
        Event::Datagram { out, .. } => out,
    }
}

/// Whether `after` is the state that `before` is left in by an event.
pub open spec fn follows(before: RsHeliosDecoder, after: RsHeliosDecoder, e: Event) -> bool {
    match e {
        Event::Status { pkt } => after.wf() && status_taken(before, after, pkt),
        Event::Datagram { packet: None, out, .. } => after == before && out.len() == 0,
        Event::Datagram { packet: Some(p), measured, min_height, out, .. } => {
            &&& before.angles_ready
            &&& measures(p, measured)
            &&& before.points@.len() + POINTS_PER_PKT <= MAX_POINTS
            &&& after.wf()
            &&& packet_taken(before, after, p, measured, min_height, out)
        },
    }
}

/// Whether `states` are the states of a decoder from when it was made, with
/// one of `events` between each and the next.
pub open spec fn history(
    cfg: DecoderConfig,
    states: Seq<RsHeliosDecoder>,
    events: Seq<Event>,
) -> bool {
    &&& states.len() == events.len() + 1
    &&& states[0].wf()
    &&& states[0].fresh(cfg)
    &&& forall|i: int|
        0 <= i < events.len() ==> follows(states[i], states[i + 1], #[trigger] events[i])
}

/// Whether an event's packet is what the decoder reads its datagram as.
pub open spec fn is_read(d: RsHeliosDecoder, e: Event) -> bool {
    match e {
        Event::Status { .. } => true,
        Event::Datagram { raw, packet, .. } => d.reads(raw, packet),
    }
}

/// Whether the packet of every event is what the decoder reads its datagram
/// as.
pub open spec fn all_read(states: Seq<RsHeliosDecoder>, events: Seq<Event>) -> bool {
    forall|i: int| 0 <= i < events.len() ==> is_read(states[i], #[trigger] events[i])
}

/// A decoder stays valid, and keeps its configuration, whatever it takes.
pub proof fn decoder_stays_valid(
    cfg: DecoderConfig,
    states: Seq<RsHeliosDecoder>,
    events: Seq<Event>,
    k: int,
)
    requires
        history(cfg, states, events),
        0 <= k < states.len(),
    ensures
        states[k].wf(),
        states[k].cfg == cfg,
    decreases k,
{
    if k > 0 {
        decoder_stays_valid(cfg, states, events, k - 1);
        assert(follows(states[k - 1], states[k], events[k - 1]));
    }
}

/// Whether every occupied cell names a point of the cloud, no two the same,
/// and that point's record holds the cell's position.
pub open spec fn graph_of(nodes: Seq<RangeNode>, width: int, data: Seq<u8>) -> bool {
    &&& nodes.len() == NUM_CELLS
    &&& forall|i: int|
        0 <= i < nodes.len() && (#[trigger] nodes[i]).valid ==> {
            &&& 0 <= nodes[i].point_idx < width
            &&& le_value(data, 16 * nodes[i].point_idx) == nodes[i].x
            &&& le_value(data, 16 * nodes[i].point_idx + 4) == nodes[i].y
            &&& le_value(data, 16 * nodes[i].point_idx + 8) == nodes[i].z
        }
    &&& forall|i: int, j: int|
        0 <= i < j < nodes.len() && (#[trigger] nodes[i]).valid && (#[trigger] nodes[j]).valid
            ==> nodes[i].point_idx != nodes[j].point_idx
}

/// Cloud and graph belong to the same revolution: of whatever a decoder has
/// returned since it was made, the graph's cells name points of the cloud that
/// is built of the points, and those points are where the cells say. That
/// holds of the graph as it was returned, and as it is when its cells have
/// been given segments and clusters.
pub proof fn cloud_and_graph_are_of_one_revolution(
    cfg: DecoderConfig,
    states: Seq<RsHeliosDecoder>,
    events: Seq<Event>,
    k: int,
    f: int,
    cloud: PointCloud2,
    nodes: Seq<RangeNode>,
)
    requires
        history(cfg, states, events),
        0 <= k < events.len(),
        0 <= f < returned(events[k]).len(),
        cloud.width == returned(events[k])[f].points@.len(),
        cloud.data@ == cloud_bytes(returned(events[k])[f].points@),
        same_points(returned(events[k])[f].range_graph.nodes@, nodes),
    ensures
        graph_of(nodes, cloud.width as int, cloud.data@),
{
    assert(follows(states[k], states[k + 1], events[k]));
    let frame = returned(events[k])[f];
    let points = frame.points@;
    let before = frame.range_graph.nodes@;
    assert forall|i: int| 0 <= i < nodes.len() && (#[trigger] nodes[i]).valid implies {
        &&& 0 <= nodes[i].point_idx < points.len()
        &&& le_value(cloud.data@, 16 * nodes[i].point_idx) == nodes[i].x
        &&& le_value(cloud.data@, 16 * nodes[i].point_idx + 4) == nodes[i].y
        &&& le_value(cloud.data@, 16 * nodes[i].point_idx + 8) == nodes[i].z
    } by {
        assert(before[i].valid);
        assert(holds_point(before[i], points, i));
        cloud_reads_back(points, nodes[i].point_idx as int);
    }
    assert forall|i: int, j: int|
        0 <= i < j < nodes.len() && (#[trigger] nodes[i]).valid && (
        #[trigger] nodes[j]).valid implies nodes[i].point_idx != nodes[j].point_idx by {
        assert(before[i].valid && before[j].valid);
    }
}

/// Whether two configurations differ in the extra layers alone.
pub open spec fn same_but_layers(c: DecoderConfig, d: DecoderConfig) -> bool {
    d == (DecoderConfig {
        user_layer_bytes: d.user_layer_bytes,
        tail_layer_bytes: d.tail_layer_bytes,
        ..c
    })
}

/// Whether two decoders are in the same state, but for the extra layers that
/// they are told of.
pub open spec fn alike(a: RsHeliosDecoder, b: RsHeliosDecoder) -> bool {
    &&& same_but_layers(a.cfg, b.cfg)
    &&& a.same_scan(&b)
    &&& a.distance_section == b.distance_section
    &&& a.scan_section == b.scan_section
    &&& a.angles_ready == b.angles_ready
    &&& a.chan_angles.vert@ == b.chan_angles.vert@
    &&& a.chan_angles.horiz@ == b.chan_angles.horiz@
    &&& a.chan_angles.user_chan@ == b.chan_angles.user_chan@
    &&& a.ring_vert@ == b.ring_vert@
    &&& a.dual_return == b.dual_return
    &&& a.block_az_diff_const == b.block_az_diff_const
    &&& a.fov_blind_range == b.fov_blind_range
    &&& a.rps == b.rps
}

/// Whether two datagrams are the same between the extra layers of each.
pub open spec fn same_inside(
    c: DecoderConfig,
    raw: Seq<u8>,
    d: DecoderConfig,
    other: Seq<u8>,
) -> bool {
    let inner = raw.len() - c.user_layer_bytes - c.tail_layer_bytes;
    &&& inner == other.len() - d.user_layer_bytes - d.tail_layer_bytes
    &&& 0 <= inner ==> payload_of(raw, c.user_layer_bytes as int, c.tail_layer_bytes as int)
        == payload_of(other, d.user_layer_bytes as int, d.tail_layer_bytes as int)
}

/// Whether the same was measured.
pub open spec fn same_measures(a: Seq<MeasuredBlock>, b: Seq<MeasuredBlock>) -> bool {
    &&& a.len() == b.len()
    &&& forall|i: int|
        0 <= i < a.len() ==> (#[trigger] a[i]).ts == b[i].ts && a[i].channels@ == b[i].channels@
}

/// Whether two blocks hold the same.
pub open spec fn same_block(p: MsopBlock, q: MsopBlock) -> bool {
    &&& p.azimuth == q.azimuth
    &&& p.az_diff == q.az_diff
    &&& p.steps_before == q.steps_before
    &&& p.channels@ == q.channels@
}

/// Whether two packets hold the same.
pub open spec fn same_packet(p: MsopPacket, q: MsopPacket) -> bool {
    &&& p.sec == q.sec
    &&& p.usec == q.usec
    &&& p.crossed@ == q.crossed@
    &&& p.blocks@.len() == q.blocks@.len()
    &&& forall|b: int|
        0 <= b < p.blocks@.len() ==> same_block(#[trigger] p.blocks@[b], q.blocks@[b])
}

/// Whether two events bring the same to decoders with the given
/// configurations: the same status packet, or the same datagram but for its
/// extra layers, measured the same.
pub open spec fn same_news(c: DecoderConfig, e: Event, d: DecoderConfig, f: Event) -> bool {
    match (e, f) {
        (Event::Status { pkt: p }, Event::Status { pkt: q }) => p == q,
        (
            Event::Datagram { raw: r, measured: m, min_height: g, .. },
            Event::Datagram { raw: s, measured: n, min_height: h, .. },
        ) => same_inside(c, r, d, s) && same_measures(m, n) && g == h,
        _ => false,
    }
}

/// Bytes before and after a packet are left out of it, and a decoder that is
/// told of none takes all of a datagram.
pub proof fn surrounding_bytes_are_left_out(pre: Seq<u8>, raw: Seq<u8>, post: Seq<u8>)
    ensures
        payload_of(pre + raw + post, pre.len() as int, post.len() as int) == raw,
        payload_of(raw, 0, 0) == raw,
{
    assert(payload_of(pre + raw + post, pre.len() as int, post.len() as int) =~= raw);
    assert(payload_of(raw, 0, 0) =~= raw);
}

/// Decoders in the same state read the same packet from the same datagram,
/// whatever extra layers are around it.
pub proof fn extra_layers_are_not_read(
    a: RsHeliosDecoder,
    b: RsHeliosDecoder,
    raw: Seq<u8>,
    other: Seq<u8>,
    p: Option<MsopPacket>,
    q: Option<MsopPacket>,
)
    requires
        alike(a, b),
        same_inside(a.cfg, raw, b.cfg, other),
        a.reads(raw, p),
        b.reads(other, q),
    ensures
        p is Some <==> q is Some,
        p matches Some(x) ==> q matches Some(y) ==> same_packet(x, y),
{
    assert(a.accepts(raw) == b.accepts(other));
    if let (Some(x), Some(y)) = (p, q) {
        assert forall|k: int| 0 <= k < x.blocks@.len() implies same_block(
            #[trigger] x.blocks@[k],
            y.blocks@[k],
        ) by {
            assert(x.blocks@[k].channels@ =~= y.blocks@[k].channels@);
        }
        assert(x.crossed@ =~= y.crossed@);
    }
}

/// Decoders in the same state are in the same state after the same status
/// packet.
proof fn status_keeps_alike(
    a: RsHeliosDecoder,
    a2: RsHeliosDecoder,
    b: RsHeliosDecoder,
    b2: RsHeliosDecoder,
    pkt: Seq<u8>,
)
    requires
        alike(a, b),
        a.wf(),
        b.wf(),
        a2.wf(),
        b2.wf(),
        status_taken(a, a2, pkt),
        status_taken(b, b2, pkt),
    ensures
        alike(a2, b2),
{
    assert(a2.chan_angles.vert@ =~= b2.chan_angles.vert@);
    assert(a2.chan_angles.horiz@ =~= b2.chan_angles.horiz@);
    assert(a2.chan_angles.user_chan@ =~= b2.chan_angles.user_chan@);
    assert(a2.ring_vert@ =~= b2.ring_vert@);
}

/// What was measured decides over the scan.
proof fn same_measures_same_scan(
    s: Scan,
    r: Rules,
    azimuths: Seq<int>,
    m: Seq<MeasuredBlock>,
    n: Seq<MeasuredBlock>,
    upto: int,
)
    requires
        same_measures(m, n),
        0 <= upto <= m.len(),
    ensures
        take_blocks(s, r, azimuths, m, upto) == take_blocks(s, r, azimuths, n, upto),
    decreases upto,
{
    if upto > 0 {
        same_measures_same_scan(s, r, azimuths, m, n, upto - 1);
        assert(m[upto - 1].ts == n[upto - 1].ts);
    }
}

/// Of one datagram, decoders in the same state return the same revolutions
/// and are in the same state after it, whatever extra layers are around it.
pub proof fn extra_layers_change_no_revolution(
    a: RsHeliosDecoder,
    a2: RsHeliosDecoder,
    e: Event,
    b: RsHeliosDecoder,
    b2: RsHeliosDecoder,
    f: Event,
)
    requires
        a.wf(),
        b.wf(),
        alike(a, b),
        same_news(a.cfg, e, b.cfg, f),
        is_read(a, e),
        is_read(b, f),
        follows(a, a2, e),
        follows(b, b2, f),
    ensures
        alike(a2, b2),
        frame_models(returned(e)) == frame_models(returned(f)),
{
    match (e, f) {
        (Event::Status { pkt }, Event::Status { .. }) => {
            status_keeps_alike(a, a2, b, b2, pkt);
        },
        (
            Event::Datagram { raw: r, packet: p, measured: m, min_height: g, out },
            Event::Datagram { raw: s, packet: q, measured: n, out: other, .. },
        ) => {
            extra_layers_are_not_read(a, b, r, s, p, q);
            if let (Some(x), Some(y)) = (p, q) {
                assert(packet_azimuths(x) =~= packet_azimuths(y)) by {
                    assert forall|k: int| 0 <= k < x.blocks@.len() implies packet_azimuths(x)[k]
                        == packet_azimuths(y)[k] by {
                        assert(same_block(x.blocks@[k], y.blocks@[k]));
                    }
                }
                assert(a.rules(g) == b.rules(g));
                let s0 = a.scan(Seq::empty());
                assert(s0 == b.scan(Seq::empty()));
                same_measures_same_scan(
                    s0,
                    a.rules(g),
                    packet_azimuths(x),
                    m,
                    n,
                    m.len() as int,
                );
                assert(a2.scan(frame_models(out)) == b2.scan(frame_models(other)));
            } else {
                assert(frame_models(out) =~= frame_models(other));
            }
        },
        _ => {},
    }
}

/// A decoder that is told of extra layers gives the same of a datagram with
/// them as one that is told of none gives of the packet alone.
pub proof fn surrounded_packet_gives_the_same(
    a: RsHeliosDecoder,
    a2: RsHeliosDecoder,
    b: RsHeliosDecoder,
    b2: RsHeliosDecoder,
    pre: Seq<u8>,
    raw: Seq<u8>,
    post: Seq<u8>,
    p: Option<MsopPacket>,
    q: Option<MsopPacket>,
    m: Seq<MeasuredBlock>,
    n: Seq<MeasuredBlock>,
    min_height: Option<u32>,
    out: Seq<Frame>,
    other: Seq<Frame>,
)
    requires
        a.wf(),
        b.wf(),
        alike(a, b),
        a.cfg.user_layer_bytes == 0,
        a.cfg.tail_layer_bytes == 0,
        b.cfg.user_layer_bytes == pre.len(),
        b.cfg.tail_layer_bytes == post.len(),
        a.reads(raw, p),
        b.reads(pre + raw + post, q),
        same_measures(m, n),
        follows(
            a,
            a2,
            (Event::Datagram { raw, packet: p, measured: m, min_height, out }),
        ),
        follows(
            b,
            b2,
            (Event::Datagram {
                raw: pre + raw + post,
                packet: q,
                measured: n,
                min_height,
                out: other,
            }),
        ),
    ensures
        alike(a2, b2),
        p is Some <==> q is Some,
        p matches Some(x) ==> q matches Some(y) ==> same_packet(x, y),
        frame_models(out) == frame_models(other),
{
    surrounding_bytes_are_left_out(pre, raw, post);
    extra_layers_are_not_read(a, b, raw, pre + raw + post, p, q);
    extra_layers_change_no_revolution(
        a,
        a2,
        Event::Datagram { raw, packet: p, measured: m, min_height, out },
        b,
        b2,
        Event::Datagram {
            raw: pre + raw + post,
            packet: q,
            measured: n,
            min_height,
            out: other,
        },
    );
}

/// The bytes that a datagram carries before and after its packet have no
/// influence: two decoders whose configurations differ in the extra layers
/// alone, and that take the same status packets and the same datagrams but for
/// those layers, return the same clouds, stamps and graphs.
pub proof fn extra_layers_have_no_influence(
    c: DecoderConfig,
    s: Seq<RsHeliosDecoder>,
    e: Seq<Event>,
    d: DecoderConfig,
    t: Seq<RsHeliosDecoder>,
    f: Seq<Event>,
    k: int,
)
    requires
        same_but_layers(c, d),
        history(c, s, e),
        history(d, t, f),
        all_read(s, e),
        all_read(t, f),
        e.len() == f.len(),
        forall|i: int| 0 <= i < e.len() ==> same_news(c, #[trigger] e[i], d, f[i]),
        0 <= k < s.len(),
    ensures
        alike(s[k], t[k]),
        forall|i: int|
            0 <= i < k ==> frame_models(returned(#[trigger] e[i])) == frame_models(returned(f[i])),
    decreases k,
{
    if k == 0 {
        assert(s[0].chan_angles.vert@ =~= t[0].chan_angles.vert@);
        assert(s[0].chan_angles.horiz@ =~= t[0].chan_angles.horiz@);
        assert(s[0].chan_angles.user_chan@ =~= t[0].chan_angles.user_chan@);
        assert(s[0].ring_vert@ =~= t[0].ring_vert@);
        assert(s[0].points@ =~= t[0].points@);
    } else {
        extra_layers_have_no_influence(c, s, e, d, t, f, k - 1);
        decoder_stays_valid(c, s, e, k - 1);
        decoder_stays_valid(d, t, f, k - 1);
        assert(same_news(c, e[k - 1], d, f[k - 1]));
        assert(is_read(s[k - 1], e[k - 1]));
        assert(is_read(t[k - 1], f[k - 1]));
        assert(follows(s[k - 1], s[k], e[k - 1]));
        assert(follows(t[k - 1], t[k], f[k - 1]));
        extra_layers_change_no_revolution(s[k - 1], s[k], e[k - 1], t[k - 1], t[k], f[k - 1]);
    }
}

} // verus!
