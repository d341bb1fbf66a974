//! What is published of a finished revolution: its cloud, plain and with the
//! clusters of its points.

use crate::cloud::{
    build_point_cloud, build_segmented_data, cloud_bytes, cluster_at, cluster_of_point,
    drawn_points, drawn_records, encode_points, names_points, payload_ok, point_clusters,
    point_fields, segmented_bytes, segmented_cloud_reads_back, wire_bytes, Point, PointCloud2,
    POINT_STEP, SEG_POINT_STEP,
};
use crate::bytes::le_value;
use crate::decoder::{holds_point, holds_points, Frame, MAX_POINTS};
use crate::range_graph::RangeNode;
use vstd::prelude::*;

verus! {

/// A cloud and the two messages that carry it.
pub struct Publication {
    pub cloud: PointCloud2,
    /// Positions and intensities.
    pub raw: Vec<u8>,
    /// The same with a cluster id behind each point.
    pub segmented: Vec<u8>,
}

/// The cluster of each point of a revolution.
pub open spec fn clusters_of(nodes: Seq<RangeNode>, width: int) -> Seq<i32> {
    Seq::new(width as nat, |p: int| cluster_of_point(nodes, p, nodes.len() as int))
}

/// The message that carries the points with the clusters of their cells.
pub open spec fn segmented_message(
    sec: i32,
    nanosec: u32,
    points: Seq<Point>,
    nodes: Seq<RangeNode>,
) -> Seq<u8> {
    wire_bytes(
        sec,
        nanosec,
        SEG_POINT_STEP,
        segmented_bytes(cloud_bytes(points), clusters_of(nodes, points.len() as int)),
    )
}

/// The messages of a revolution whose cells have been labelled, stamped with
/// the given time.
pub fn publish_frame(
    frame: &Frame,
    stamp_sec: i32,
    stamp_nanosec: u32,
    frame_id: &str,
    dense: bool,
) -> (r: Publication)
    requires
        frame.points@.len() <= MAX_POINTS,
        names_points(frame.range_graph.nodes@, frame.points@.len() as int),
    ensures
        r.cloud.width == frame.points@.len(),
        r.cloud.data@ == cloud_bytes(frame.points@),
        r.cloud.header.stamp_sec == stamp_sec,
        r.cloud.header.stamp_nanosec == stamp_nanosec,
        r.cloud.header.frame_id@ == frame_id@,
        r.cloud.is_dense == dense,
        r.cloud.height == 1,
        !r.cloud.is_bigendian,
        r.cloud.point_step == POINT_STEP,
        r.cloud.row_step == 16 * frame.points@.len(),
        r.cloud.fields@ == point_fields(),
        r.raw@ == wire_bytes(stamp_sec, stamp_nanosec, POINT_STEP, cloud_bytes(frame.points@)),
        r.segmented@ == segmented_message(
            stamp_sec,
            stamp_nanosec,
            frame.points@,
            frame.range_graph.nodes@,
        ),
{
    let cloud = build_point_cloud(&frame.points, stamp_sec, stamp_nanosec, frame_id, dense);
    let clusters = point_clusters(&frame.range_graph.nodes, cloud.width);
    assert(clusters@ =~= clusters_of(frame.range_graph.nodes@, frame.points@.len() as int));
    let raw = encode_points(&cloud.header, cloud.point_step, cloud.data.as_slice());
    let data = build_segmented_data(cloud.data.as_slice(), clusters.as_slice());
    let segmented = encode_points(&cloud.header, SEG_POINT_STEP, data.as_slice());
    Publication { cloud, raw, segmented }
}

/// Who receives the segmented message of a revolution reads its points in
/// order, but for those without a position, each with the cluster of the cell
/// that holds it.
pub proof fn revolution_reads_back(
    sec: i32,
    nanosec: u32,
    points: Seq<Point>,
    nodes: Seq<RangeNode>,
)
    requires
        points.len() <= MAX_POINTS,
    ensures
        ({
            let m = segmented_message(sec, nanosec, points, nodes);
            &&& payload_ok(m)
            &&& drawn_records(m, le_value(m, 12), le_value(m, 8)) == drawn_points(
                points,
                cluster_at(clusters_of(nodes, points.len() as int)),
                points.len() as int,
            )
        }),
{
    segmented_cloud_reads_back(sec, nanosec, points, clusters_of(nodes, points.len() as int));
}

/// A revolution that is published as the decoder finished it has no clusters.
pub proof fn unsegmented_points_have_no_cluster(points: Seq<Point>, nodes: Seq<RangeNode>, p: int)
    requires
        holds_points(nodes, points),
        0 <= p < points.len(),
    ensures
        clusters_of(nodes, points.len() as int)[p] == -1,
{
    no_cell_has_a_cluster(points, nodes, p, nodes.len() as int);
}

proof fn no_cell_has_a_cluster(points: Seq<Point>, nodes: Seq<RangeNode>, p: int, upto: int)
    requires
        holds_points(nodes, points),
        0 <= upto <= nodes.len(),
    ensures
        cluster_of_point(nodes, p, upto) == -1,
    decreases upto,
{
    if upto > 0 {
        no_cell_has_a_cluster(points, nodes, p, upto - 1);
        assert(nodes[upto - 1].valid ==> holds_point(nodes[upto - 1], points, upto - 1));
    }
}

} // verus!
