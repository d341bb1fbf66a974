//! Point clouds: the points of one revolution as bytes, and the clusters that
//! go with them.

use crate::bytes::{
    le_bytes, le_bytes_read_back, le_value, pattern_of, pattern_read_back, push_all, push_le, read_le,
    signed_of, to_pattern, to_signed,
};
use crate::range_graph::RangeNode;
use crate::single::{is_less, is_nan, less, nan, INFINITY_BITS, NEG_INFINITY_BITS};
use vstd::prelude::*;
use vstd::slice::slice_subrange;

verus! {

/// Bytes of a point: position and intensity.
pub const POINT_STEP: u32 = 16;

/// Bytes of a point with its cluster.
pub const SEG_POINT_STEP: u32 = 20;

/// Bytes of the header of a published cloud.
pub const WIRE_HEADER_LEN: usize = 16;

/// The code of a single-precision field.
pub const FIELD_SINGLE: u8 = 7;

/// A point. All four are single-precision bit patterns.
#[derive(Clone, Copy)]
pub struct Point {
    pub x: u32,
    pub y: u32,
    pub z: u32,
    pub intensity: u32,
}

/// When and in which frame a cloud was taken.
pub struct Header {
    pub stamp_sec: i32,
    pub stamp_nanosec: u32,
    pub frame_id: String,
}

/// One field of a point record.
pub struct PointField {
    pub name: &'static str,
    pub offset: u32,
    pub datatype: u8,
    pub count: u32,
}

/// A cloud of points in one row of little-endian records.
pub struct PointCloud2 {
    pub header: Header,
    pub height: u32,
    pub width: u32,
    pub fields: Vec<PointField>,
    pub is_bigendian: bool,
    pub point_step: u32,
    pub row_step: u32,
    pub data: Vec<u8>,
    pub is_dense: bool,
}

/// A point to be drawn. The position is in single-precision bit patterns;
/// `cluster` is negative where the point is in none.
#[derive(Clone, Copy, PartialEq, Eq, Debug)]
pub struct VizPoint {
    pub x: u32,
    pub y: u32,
    pub z: u32,
    pub cluster: i32,
}

/// The fields of a point record.
pub open spec fn point_fields() -> Seq<PointField> {
    seq![
        PointField { name: "x", offset: 0, datatype: FIELD_SINGLE, count: 1 },
        PointField { name: "y", offset: 4, datatype: FIELD_SINGLE, count: 1 },
        PointField { name: "z", offset: 8, datatype: FIELD_SINGLE, count: 1 },
        PointField { name: "intensity", offset: 12, datatype: FIELD_SINGLE, count: 1 },
    ]
}

/// The records `f(0)` to `f(n - 1)`, one after the other.
pub open spec fn records(f: spec_fn(int) -> Seq<u8>, n: int) -> Seq<u8>
    decreases n,
{
    if n <= 0 {
        Seq::empty()
    } else {
        records(f, n - 1) + f(n - 1)
    }
}

/// The bytes of a point.
pub open spec fn point_bytes(p: Point) -> Seq<u8> {
    le_bytes(p.x) + le_bytes(p.y) + le_bytes(p.z) + le_bytes(p.intensity)
}

/// The record of each point.
pub open spec fn point_records(points: Seq<Point>) -> spec_fn(int) -> Seq<u8> {
    |i: int| point_bytes(points[i])
}

/// The bytes of a cloud.
pub open spec fn cloud_bytes(points: Seq<Point>) -> Seq<u8> {
    records(point_records(points), points.len() as int)
}

/// The record of each point with its cluster id.
pub open spec fn clustered_records(cloud: Seq<u8>, clusters: Seq<i32>) -> spec_fn(int) -> Seq<u8> {
    |i: int| cloud.subrange(16 * i, 16 * i + 16) + le_bytes(pattern_of(clusters[i]))
}

/// The records of `cloud` with a cluster id after each, as long as there is
/// one.
pub open spec fn segmented_bytes(cloud: Seq<u8>, clusters: Seq<i32>) -> Seq<u8> {
    let whole = cloud.len() as int / 16;
    let n = if whole < clusters.len() {
        whole
    } else {
        clusters.len() as int
    };
    records(clustered_records(cloud, clusters), n)
}

/// How many points of `point_step` bytes a message announces for `len` bytes.
pub open spec fn announced_width(len: int, point_step: u32) -> u32 {
    ((len % 0x1_0000_0000) / (point_step as int)) as u32
}

/// A published cloud: stamp, width and record size, then the records.
pub open spec fn wire_bytes(
    stamp_sec: i32,
    stamp_nanosec: u32,
    point_step: u32,
    data: Seq<u8>,
) -> Seq<u8> {
    le_bytes(pattern_of(stamp_sec)) + le_bytes(stamp_nanosec) + le_bytes(
        announced_width(data.len() as int, point_step),
    ) + le_bytes(point_step) + data
}

/// Whether a payload holds a header with records of at least a point, and all
/// the records that it announces.
pub open spec fn payload_ok(payload: Seq<u8>) -> bool {
    &&& payload.len() >= 16
    &&& le_value(payload, 12) >= 16
    &&& payload.len() - 16 >= le_value(payload, 8) * le_value(payload, 12)
}

/// The point at `at`, unless its position is not a number. Only a record with
/// room for one has a cluster.
pub open spec fn drawn_at(payload: Seq<u8>, step: int, at: int) -> Option<VizPoint> {
    let x = le_value(payload, at) as u32;
    let y = le_value(payload, at + 4) as u32;
    let z = le_value(payload, at + 8) as u32;
    if nan(x) || nan(y) || nan(z) {
        None
    } else {
        let cluster = if step >= 20 {
            signed_of(le_value(payload, at + 16) as u32)
        } else {
            -1i32
        };
        Some(VizPoint { x, y, z, cluster })
    }
}

/// The points to be drawn among the first `n` records.
pub open spec fn drawn_records(payload: Seq<u8>, step: int, n: int) -> Seq<VizPoint>
    decreases n,
{
    if n <= 0 {
        Seq::empty()
    } else {
        let rest = drawn_records(payload, step, n - 1);
        match drawn_at(payload, step, 16 + (n - 1) * step) {
            Some(p) => rest.push(p),
            None => rest,
        }
    }
}

/// The points to be drawn among the first `n` points of a cloud.
pub open spec fn drawn_points(
    points: Seq<Point>,
    clusters: spec_fn(int) -> i32,
    n: int,
) -> Seq<VizPoint>
    decreases n,
{
    if n <= 0 {
        Seq::empty()
    } else {
        let rest = drawn_points(points, clusters, n - 1);
        let p = points[n - 1];
        if nan(p.x) || nan(p.y) || nan(p.z) {
            rest
        } else {
            rest.push(VizPoint { x: p.x, y: p.y, z: p.z, cluster: clusters(n - 1) })
        }
    }
}

/// Records of one size stand at multiples of it.
pub proof fn record_at(f: spec_fn(int) -> Seq<u8>, n: int, w: int, i: int)
    requires
        0 <= n,
        0 < w,
        forall|k: int| 0 <= k < n ==> (#[trigger] f(k)).len() == w,
    ensures
        records(f, n).len() == n * w,
        0 <= i < n ==> records(f, n).subrange(i * w, i * w + w) == f(i),
        0 <= i < n ==> 0 <= i * w && i * w + w <= n * w,
    decreases n,
{
    if n > 0 {
        record_at(f, n - 1, w, i);
        assert(n * w == (n - 1) * w + w) by (nonlinear_arith);
        assert(f(n - 1).len() == w);
        if 0 <= i < n - 1 {
            assert(records(f, n).subrange(i * w, i * w + w) =~= records(f, n - 1).subrange(
                i * w,
                i * w + w,
            ));
        } else if i == n - 1 {
            assert(0 <= (n - 1) * w) by (nonlinear_arith)
                requires
                    0 <= n - 1,
                    0 < w,
            ;
            assert(records(f, n).subrange(i * w, i * w + w) =~= f(i));
        }
    }
}

/// A point's record holds its four numbers in order.
proof fn point_record_values(p: Point, s: Seq<u8>, at: int)
    requires
        0 <= at,
        at + 16 <= s.len(),
        s.subrange(at, at + 16) == point_bytes(p),
    ensures
        le_value(s, at) == p.x,
        le_value(s, at + 4) == p.y,
        le_value(s, at + 8) == p.z,
        le_value(s, at + 12) == p.intensity,
{
    let r = s.subrange(at, at + 16);
    assert(s.subrange(at, at + 4) =~= r.subrange(0, 4));
    assert(s.subrange(at + 4, at + 8) =~= r.subrange(4, 8));
    assert(s.subrange(at + 8, at + 12) =~= r.subrange(8, 12));
    assert(s.subrange(at + 12, at + 16) =~= r.subrange(12, 16));
    assert(r.subrange(0, 4) =~= le_bytes(p.x));
    assert(r.subrange(4, 8) =~= le_bytes(p.y));
    assert(r.subrange(8, 12) =~= le_bytes(p.z));
    assert(r.subrange(12, 16) =~= le_bytes(p.intensity));
    le_bytes_read_back(p.x, s, at);
    le_bytes_read_back(p.y, s, at + 4);
    le_bytes_read_back(p.z, s, at + 8);
    le_bytes_read_back(p.intensity, s, at + 12);
}

/// The cloud of a revolution.
pub fn build_point_cloud(
    points: &Vec<Point>,
    stamp_sec: i32,
    stamp_nanosec: u32,
    frame_id: &str,
    dense: bool,
) -> (c: PointCloud2)
    requires
        points@.len() * 16 <= u32::MAX,
    ensures
        c.header.stamp_sec == stamp_sec,
        c.header.stamp_nanosec == stamp_nanosec,
        c.header.frame_id@ == frame_id@,
        c.height == 1,
        c.width == points@.len(),
        c.fields@ == point_fields(),
        !c.is_bigendian,
        c.point_step == POINT_STEP,
        c.row_step == 16 * points@.len(),
        c.data@ == cloud_bytes(points@),
        c.is_dense == dense,
{
    let ghost f = point_records(points@);
    let n: usize = points.len();
    let mut data: Vec<u8> = Vec::new();
    let mut i: usize = 0;
    while i < n
        invariant
            n == points@.len(),
            i <= n,
            f == point_records(points@),
            data@ == records(f, i as int),
        decreases n - i,
    {
        let ghost had = data@;
        let p = points[i];
        push_le(&mut data, p.x);
        push_le(&mut data, p.y);
        push_le(&mut data, p.z);
        push_le(&mut data, p.intensity);
        assert(data@ =~= had + point_bytes(p));
        assert(f(i as int) == point_bytes(p));
        i = i + 1;
    }
    let width: u32 = n as u32;
    let mut fields: Vec<PointField> = Vec::new();
    fields.push(PointField { name: "x", offset: 0, datatype: FIELD_SINGLE, count: 1 });
    fields.push(PointField { name: "y", offset: 4, datatype: FIELD_SINGLE, count: 1 });
    fields.push(PointField { name: "z", offset: 8, datatype: FIELD_SINGLE, count: 1 });
    fields.push(PointField { name: "intensity", offset: 12, datatype: FIELD_SINGLE, count: 1 });
    PointCloud2 {
        header: Header { stamp_sec, stamp_nanosec, frame_id: frame_id.to_owned() },
        height: 1,
        width,
        fields,
        is_bigendian: false,
        point_step: POINT_STEP,
        row_step: POINT_STEP * width,
        data,
        is_dense: dense,
    }
}

/// The message in which a cloud is published: a header of stamp, width and
/// record size, all little-endian, then the records.
pub fn encode_points(header: &Header, point_step: u32, data: &[u8]) -> (r: Vec<u8>)
    requires
        point_step != 0,
    ensures
        r@ == wire_bytes(header.stamp_sec, header.stamp_nanosec, point_step, data@),
{
    let width: u32 = (data.len() as u64 % 0x1_0000_0000) as u32 / point_step;
    let mut buf: Vec<u8> = Vec::new();
    push_le(&mut buf, to_pattern(header.stamp_sec));
    push_le(&mut buf, header.stamp_nanosec);
    push_le(&mut buf, width);
    push_le(&mut buf, point_step);
    push_all(&mut buf, data);
    assert(buf@ =~= wire_bytes(header.stamp_sec, header.stamp_nanosec, point_step, data@));
    buf
}

/// The records of a cloud with each point's cluster id appended.
pub fn build_segmented_data(cloud_data: &[u8], point_cluster: &[i32]) -> (r: Vec<u8>)
    ensures
        r@ == segmented_bytes(cloud_data@, point_cluster@),
{
    let ghost f = clustered_records(cloud_data@, point_cluster@);
    let total: usize = cloud_data.len();
    let whole: usize = cloud_data.len() / 16;
    let n: usize = if whole < point_cluster.len() {
        whole
    } else {
        point_cluster.len()
    };
    let mut data: Vec<u8> = Vec::new();
    let mut i: usize = 0;
    while i < n
        invariant
            i <= n,
            n <= point_cluster@.len(),
            n * 16 <= cloud_data@.len(),
            total == cloud_data@.len(),
            f == clustered_records(cloud_data@, point_cluster@),
            data@ == records(f, i as int),
        decreases n - i,
    {
        let ghost had = data@;
        push_all(&mut data, slice_subrange(cloud_data, i * 16, i * 16 + 16));
        push_le(&mut data, to_pattern(point_cluster[i]));
        assert(data@ =~= had + f(i as int));
        i = i + 1;
    }
    data
}

/// Reads a published cloud. Points whose position is not a number are left
/// out. `None` if the payload is cut short or its records are too small.
pub fn decode_points(payload: &[u8]) -> (r: Option<Vec<VizPoint>>)
    ensures
        r is Some <==> payload_ok(payload@),
        r matches Some(v) ==> v@ == drawn_records(
            payload@,
            le_value(payload@, 12),
            le_value(payload@, 8),
        ),
{
    let len: usize = payload.len();
    if len < WIRE_HEADER_LEN {
        return None;
    }
    let width: u32 = read_le(payload, 8);
    let step: u32 = read_le(payload, 12);
    if step < POINT_STEP {
        return None;
    }
    assert(0 <= width * step <= 0xffff_ffff * 0xffff_ffff) by (nonlinear_arith);
    let need: u64 = width as u64 * step as u64;
    if ((len - WIRE_HEADER_LEN) as u64) < need {
        return None;
    }
    let has_cluster: bool = step >= SEG_POINT_STEP;
    let mut out: Vec<VizPoint> = Vec::new();
    let mut at: usize = WIRE_HEADER_LEN;
    let mut i: u32 = 0;
    while i < width
        invariant
            i <= width,
            step >= 16,
            len == payload@.len(),
            width * step <= len - 16,
            at == 16 + i * step,
            at <= len,
            has_cluster == (step >= 20),
            out@ == drawn_records(payload@, step as int, i as int),
        decreases width - i,
    {
        assert((i + 1) * step == i * step + step && (i + 1) * step <= width * step)
            by (nonlinear_arith)
            requires
                i < width,
                step >= 0,
        ;
        let x: u32 = read_le(payload, at);
        let y: u32 = read_le(payload, at + 4);
        let z: u32 = read_le(payload, at + 8);
        if !(is_nan(x) || is_nan(y) || is_nan(z)) {
            let cluster: i32 = if has_cluster {
                to_signed(read_le(payload, at + 16))
            } else {
                -1
            };
            out.push(VizPoint { x, y, z, cluster });
        }
        at = at + step as usize;
        i = i + 1;
    }
    Some(out)
}

/// What a published message announces can be read back from it.
pub proof fn wire_header_reads_back(
    stamp_sec: i32,
    stamp_nanosec: u32,
    point_step: u32,
    data: Seq<u8>,
)
    ensures
        ({
            let m = wire_bytes(stamp_sec, stamp_nanosec, point_step, data);
            &&& m.len() == 16 + data.len()
            &&& signed_of(le_value(m, 0) as u32) == stamp_sec
            &&& le_value(m, 4) == stamp_nanosec
            &&& le_value(m, 8) == announced_width(data.len() as int, point_step)
            &&& le_value(m, 12) == point_step
            &&& m.subrange(16, m.len() as int) == data
        }),
{
    let w = announced_width(data.len() as int, point_step);
    let m = wire_bytes(stamp_sec, stamp_nanosec, point_step, data);
    assert(m.subrange(0, 4) =~= le_bytes(pattern_of(stamp_sec)));
    assert(m.subrange(4, 8) =~= le_bytes(stamp_nanosec));
    assert(m.subrange(8, 12) =~= le_bytes(w));
    assert(m.subrange(12, 16) =~= le_bytes(point_step));
    le_bytes_read_back(pattern_of(stamp_sec), m, 0);
    le_bytes_read_back(stamp_nanosec, m, 4);
    le_bytes_read_back(w, m, 8);
    le_bytes_read_back(point_step, m, 12);
    pattern_read_back(stamp_sec, 0);
    assert(m.subrange(16, m.len() as int) =~= data);
}

/// A message whose records fill it holds exactly `width` records after its
/// header.
pub proof fn wire_length_is_announced(
    stamp_sec: i32,
    stamp_nanosec: u32,
    point_step: u32,
    data: Seq<u8>,
)
    requires
        point_step != 0,
        data.len() <= u32::MAX,
        data.len() as int % (point_step as int) == 0,
    ensures
        ({
            let m = wire_bytes(stamp_sec, stamp_nanosec, point_step, data);
            m.len() == 16 + le_value(m, 8) * point_step
        }),
{
    wire_header_reads_back(stamp_sec, stamp_nanosec, point_step, data);
    whole_records(data.len() as int, point_step);
}

proof fn whole_records(len: int, point_step: u32)
    requires
        point_step != 0,
        0 <= len <= u32::MAX,
        len % (point_step as int) == 0,
    ensures
        announced_width(len, point_step) * point_step == len,
{
    let step = point_step as int;
    assert(len / step * step == len && 0 <= len / step <= len) by (nonlinear_arith)
        requires
            len % step == 0,
            step > 0,
            len >= 0,
    ;
}

/// The bytes of a cloud, record by record.
proof fn cloud_record(points: Seq<Point>, i: int)
    ensures
        cloud_bytes(points).len() == 16 * points.len(),
        0 <= i < points.len() ==> cloud_bytes(points).subrange(16 * i, 16 * i + 16) == point_bytes(
            points[i],
        ),
{
    let f = point_records(points);
    assert forall|k: int| 0 <= k < points.len() implies (#[trigger] f(k)).len() == 16 by {}
    record_at(f, points.len() as int, 16, i);
}

/// The bytes of a cloud give back the numbers of each of its points.
pub proof fn cloud_reads_back(points: Seq<Point>, i: int)
    requires
        0 <= i < points.len(),
    ensures
        cloud_bytes(points).len() == 16 * points.len(),
        le_value(cloud_bytes(points), 16 * i) == points[i].x,
        le_value(cloud_bytes(points), 16 * i + 4) == points[i].y,
        le_value(cloud_bytes(points), 16 * i + 8) == points[i].z,
        le_value(cloud_bytes(points), 16 * i + 12) == points[i].intensity,
{
    cloud_record(points, i);
    point_record_values(points[i], cloud_bytes(points), 16 * i);
}

/// The bytes of a segmented cloud, record by record.
proof fn segmented_record(points: Seq<Point>, clusters: Seq<i32>, i: int)
    requires
        points.len() == clusters.len(),
    ensures
        ({
            let data = segmented_bytes(cloud_bytes(points), clusters);
            &&& data.len() == 20 * points.len()
            &&& 0 <= i < points.len() ==> data.subrange(20 * i, 20 * i + 20) == point_bytes(
                points[i],
            ) + le_bytes(pattern_of(clusters[i]))
        }),
{
    let cloud = cloud_bytes(points);
    let f = clustered_records(cloud, clusters);
    cloud_record(points, i);
    assert forall|k: int| 0 <= k < points.len() implies (#[trigger] f(k)).len() == 20 by {
        cloud_record(points, k);
    }
    record_at(f, points.len() as int, 20, i);
}

/// A part of what follows the header is a part of the message.
proof fn after_header(m: Seq<u8>, data: Seq<u8>, a: int, b: int)
    requires
        m.len() == 16 + data.len(),
        m.subrange(16, m.len() as int) == data,
        0 <= a <= b <= data.len(),
    ensures
        m.subrange(16 + a, 16 + b) == data.subrange(a, b),
{
    let tail = m.subrange(16, m.len() as int);
    assert(m.subrange(16 + a, 16 + b) =~= tail.subrange(a, b));
}

/// The clusters of a cloud by point.
pub open spec fn cluster_at(clusters: Seq<i32>) -> spec_fn(int) -> i32 {
    |i: int| clusters[i]
}

/// No point has a cluster.
pub open spec fn no_cluster() -> spec_fn(int) -> i32 {
    |i: int| -1i32
}

/// Publishing a segmented cloud and reading it again gives back the points
/// whose position is a number, in order, each with its cluster.
pub proof fn segmented_cloud_reads_back(
    stamp_sec: i32,
    stamp_nanosec: u32,
    points: Seq<Point>,
    clusters: Seq<i32>,
)
    requires
        points.len() == clusters.len(),
        points.len() * 20 <= u32::MAX,
    ensures
        ({
            let m = wire_bytes(
                stamp_sec,
                stamp_nanosec,
                SEG_POINT_STEP,
                segmented_bytes(cloud_bytes(points), clusters),
            );
            &&& payload_ok(m)
            &&& le_value(m, 8) == points.len()
            &&& drawn_records(m, le_value(m, 12), le_value(m, 8)) == drawn_points(
                points,
                cluster_at(clusters),
                points.len() as int,
            )
        }),
{
    let data = segmented_bytes(cloud_bytes(points), clusters);
    segmented_record(points, clusters, 0);
    wire_header_reads_back(stamp_sec, stamp_nanosec, SEG_POINT_STEP, data);
    segmented_message_reads_back(
        wire_bytes(stamp_sec, stamp_nanosec, SEG_POINT_STEP, data),
        points,
        clusters,
    );
}

proof fn segmented_message_reads_back(m: Seq<u8>, points: Seq<Point>, clusters: Seq<i32>)
    requires
        points.len() == clusters.len(),
        m.len() == 16 + 20 * points.len(),
        le_value(m, 8) == points.len(),
        le_value(m, 12) == 20,
        m.subrange(16, m.len() as int) == segmented_bytes(cloud_bytes(points), clusters),
    ensures
        payload_ok(m),
        drawn_records(m, le_value(m, 12), le_value(m, 8)) == drawn_points(
            points,
            cluster_at(clusters),
            points.len() as int,
        ),
{
    segmented_prefix_reads_back(m, points, clusters, points.len() as int);
}

proof fn segmented_prefix_reads_back(
    m: Seq<u8>,
    points: Seq<Point>,
    clusters: Seq<i32>,
    upto: int,
)
    requires
        points.len() == clusters.len(),
        0 <= upto <= points.len(),
        m.len() == 16 + 20 * points.len(),
        m.subrange(16, m.len() as int) == segmented_bytes(cloud_bytes(points), clusters),
    ensures
        drawn_records(m, 20, upto) == drawn_points(points, cluster_at(clusters), upto),
    decreases upto,
{
    if upto > 0 {
        let i = upto - 1;
        segmented_prefix_reads_back(m, points, clusters, i);
        segmented_record_reads_back(m, points, clusters, i);
    }
}

proof fn segmented_record_reads_back(
    m: Seq<u8>,
    points: Seq<Point>,
    clusters: Seq<i32>,
    i: int,
)
    requires
        points.len() == clusters.len(),
        0 <= i < points.len(),
        m.len() == 16 + 20 * points.len(),
        m.subrange(16, m.len() as int) == segmented_bytes(cloud_bytes(points), clusters),
    ensures
        le_value(m, 16 + 20 * i) == points[i].x,
        le_value(m, 16 + 20 * i + 4) == points[i].y,
        le_value(m, 16 + 20 * i + 8) == points[i].z,
        signed_of(le_value(m, 16 + 20 * i + 16) as u32) == clusters[i],
{
    let data = segmented_bytes(cloud_bytes(points), clusters);
    let at = 16 + 20 * i;
    segmented_record(points, clusters, i);
    after_header(m, data, 20 * i, 20 * i + 20);
    let rec = m.subrange(at, at + 20);
    assert(m.subrange(at, at + 16) =~= rec.subrange(0, 16));
    assert(rec.subrange(0, 16) =~= point_bytes(points[i]));
    point_record_values(points[i], m, at);
    assert(m.subrange(at + 16, at + 20) =~= rec.subrange(16, 20));
    assert(rec.subrange(16, 20) =~= le_bytes(pattern_of(clusters[i])));
    le_bytes_read_back(pattern_of(clusters[i]), m, at + 16);
    pattern_read_back(clusters[i], 0);
}

/// Publishing a plain cloud and reading it again gives back the points whose
/// position is a number, in order, each without a cluster.
pub proof fn plain_cloud_reads_back(stamp_sec: i32, stamp_nanosec: u32, points: Seq<Point>)
    requires
        points.len() * 16 <= u32::MAX,
    ensures
        ({
            let m = wire_bytes(stamp_sec, stamp_nanosec, POINT_STEP, cloud_bytes(points));
            &&& payload_ok(m)
            &&& le_value(m, 8) == points.len()
            &&& drawn_records(m, le_value(m, 12), le_value(m, 8)) == drawn_points(
                points,
                no_cluster(),
                points.len() as int,
            )
        }),
{
    let cloud = cloud_bytes(points);
    cloud_record(points, 0);
    whole_records(cloud.len() as int, POINT_STEP);
    wire_header_reads_back(stamp_sec, stamp_nanosec, POINT_STEP, cloud);
    let m = wire_bytes(stamp_sec, stamp_nanosec, POINT_STEP, cloud);
    assert(m.len() == 16 + 16 * points.len());
    assert(le_value(m, 8) == points.len());
    assert(le_value(m, 12) == 16);
    plain_message_reads_back(m, points);
}

proof fn plain_message_reads_back(m: Seq<u8>, points: Seq<Point>)
    requires
        m.len() == 16 + 16 * points.len(),
        le_value(m, 8) == points.len(),
        le_value(m, 12) == 16,
        m.subrange(16, m.len() as int) == cloud_bytes(points),
    ensures
        payload_ok(m),
        drawn_records(m, le_value(m, 12), le_value(m, 8)) == drawn_points(
            points,
            no_cluster(),
            points.len() as int,
        ),
{
    plain_prefix_reads_back(m, points, points.len() as int);
}

proof fn plain_prefix_reads_back(m: Seq<u8>, points: Seq<Point>, upto: int)
    requires
        0 <= upto <= points.len(),
        m.len() == 16 + 16 * points.len(),
        m.subrange(16, m.len() as int) == cloud_bytes(points),
    ensures
        drawn_records(m, 16, upto) == drawn_points(points, no_cluster(), upto),
    decreases upto,
{
    if upto > 0 {
        let i = upto - 1;
        plain_prefix_reads_back(m, points, i);
        cloud_record(points, i);
        after_header(m, cloud_bytes(points), 16 * i, 16 * i + 16);
        point_record_values(points[i], m, 16 + 16 * i);
    }
}

/// The cluster of point `p` after the first `upto` cells have been asked: that
/// of the last occupied one that holds the point, or none.
pub open spec fn cluster_of_point(nodes: Seq<RangeNode>, p: int, upto: int) -> i32
    decreases upto,
{
    if upto <= 0 {
        -1i32
    } else if nodes[upto - 1].valid && nodes[upto - 1].point_idx == p {
        nodes[upto - 1].beta
    } else {
        cluster_of_point(nodes, p, upto - 1)
    }
}

/// Whether every occupied cell that names a point names one of `width` points.
pub open spec fn names_points(nodes: Seq<RangeNode>, width: int) -> bool {
    forall|i: int|
        0 <= i < nodes.len() && (#[trigger] nodes[i]).valid && nodes[i].point_idx >= 0
            ==> nodes[i].point_idx < width
}

/// The cluster of each point of a cloud, from the cells that hold the points.
/// A point that no cell holds has none.
pub fn point_clusters(nodes: &Vec<RangeNode>, width: u32) -> (r: Vec<i32>)
    requires
        names_points(nodes@, width as int),
    ensures
        r@.len() == width,
        forall|p: int|
            0 <= p < width ==> #[trigger] r@[p] == cluster_of_point(
                nodes@,
                p,
                nodes@.len() as int,
            ),
{
    let mut r: Vec<i32> = Vec::new();
    let mut p: u32 = 0;
    while p < width
        invariant
            p <= width,
            r@.len() == p,
            forall|k: int| 0 <= k < p ==> #[trigger] r@[k] == -1,
        decreases width - p,
    {
        r.push(-1);
        p = p + 1;
    }
    let n: usize = nodes.len();
    let mut i: usize = 0;
    while i < n
        invariant
            i <= n,
            n == nodes@.len(),
            names_points(nodes@, width as int),
            r@.len() == width,
            forall|k: int|
                0 <= k < width ==> #[trigger] r@[k] == cluster_of_point(nodes@, k, i as int),
        decreases n - i,
    {
        let node = nodes[i];
        if node.valid && node.point_idx >= 0 {
            r[node.point_idx as usize] = node.beta;
        }
        i = i + 1;
    }
    r
}

/// A point that one cell alone holds has that cell's cluster; a point that no
/// cell holds has none.
pub proof fn point_has_its_cells_cluster(nodes: Seq<RangeNode>, p: int, upto: int)
    requires
        0 <= upto <= nodes.len(),
        forall|a: int, b: int|
            0 <= a < upto && 0 <= b < upto && (#[trigger] nodes[a]).valid && (
            #[trigger] nodes[b]).valid && nodes[a].point_idx == p && nodes[b].point_idx == p ==> a
                == b,
    ensures
        forall|a: int|
            0 <= a < upto && (#[trigger] nodes[a]).valid && nodes[a].point_idx == p
                ==> cluster_of_point(nodes, p, upto) == nodes[a].beta,
        (forall|a: int|
            0 <= a < upto && (#[trigger] nodes[a]).valid ==> nodes[a].point_idx != p)
            ==> cluster_of_point(nodes, p, upto) == -1,
    decreases upto,
{
    if upto > 0 {
        point_has_its_cells_cluster(nodes, p, upto - 1);
        assert(nodes[upto - 1] == nodes[upto - 1]);
    }
}

/// Whether record `i` of a cloud has a position.
pub open spec fn has_position(data: Seq<u8>, step: int, i: int) -> bool {
    !nan(le_value(data, i * step) as u32) && !nan(le_value(data, i * step + 4) as u32) && !nan(
        le_value(data, i * step + 8) as u32,
    )
}

/// How many of the first `n` records have a position.
pub open spec fn positions_in(data: Seq<u8>, step: int, n: int) -> nat
    decreases n,
{
    if n <= 0 {
        0
    } else {
        positions_in(data, step, n - 1) + if has_position(data, step, n - 1) {
            1nat
        } else {
            0nat
        }
    }
}

/// The lowest number at offset `off` among the first `n` records that have a
/// position.
pub open spec fn lowest(data: Seq<u8>, step: int, off: int, n: int) -> u32
    decreases n,
{
    if n <= 0 {
        INFINITY_BITS
    } else {
        let rest = lowest(data, step, off, n - 1);
        let v = le_value(data, (n - 1) * step + off) as u32;
        if has_position(data, step, n - 1) && less(v, rest) {
            v
        } else {
            rest
        }
    }
}

/// The highest number at offset `off` among the first `n` records that have a
/// position.
pub open spec fn highest(data: Seq<u8>, step: int, off: int, n: int) -> u32
    decreases n,
{
    if n <= 0 {
        NEG_INFINITY_BITS
    } else {
        let rest = highest(data, step, off, n - 1);
        let v = le_value(data, (n - 1) * step + off) as u32;
        if has_position(data, step, n - 1) && less(rest, v) {
            v
        } else {
            rest
        }
    }
}

/// How many points of a cloud have a position, and the box around them. The
/// numbers are single-precision bit patterns.
pub struct FrameStats {
    pub valid: usize,
    pub min_x: u32,
    pub min_y: u32,
    pub min_z: u32,
    pub max_x: u32,
    pub max_y: u32,
    pub max_z: u32,
}

/// Counts the points of a cloud that have a position and finds the box around
/// them.
pub fn frame_stats(cloud: &PointCloud2) -> (r: FrameStats)
    requires
        cloud.point_step > 0,
        cloud.point_step < 12 ==> cloud.data@.len() < cloud.point_step,
    ensures
        ({
            let d = cloud.data@;
            let step = cloud.point_step as int;
            let n = d.len() as int / step;
            &&& r.valid == positions_in(d, step, n)
            &&& r.min_x == lowest(d, step, 0, n)
            &&& r.min_y == lowest(d, step, 4, n)
            &&& r.min_z == lowest(d, step, 8, n)
            &&& r.max_x == highest(d, step, 0, n)
            &&& r.max_y == highest(d, step, 4, n)
            &&& r.max_z == highest(d, step, 8, n)
        }),
{
    let ghost d = cloud.data@;
    let ghost st = cloud.point_step as int;
    let data = cloud.data.as_slice();
    let step: usize = cloud.point_step as usize;
    let n: usize = data.len() / step;
    let mut s = FrameStats {
        valid: 0,
        min_x: INFINITY_BITS,
        min_y: INFINITY_BITS,
        min_z: INFINITY_BITS,
        max_x: NEG_INFINITY_BITS,
        max_y: NEG_INFINITY_BITS,
        max_z: NEG_INFINITY_BITS,
    };
    let mut at: usize = 0;
    let mut i: usize = 0;
    assert(n * step <= data@.len()) by (nonlinear_arith)
        requires
            n == data@.len() as int / step as int,
            step > 0,
    ;
    if step < 12 {
        assert(n == 0) by (nonlinear_arith)
            requires
                n == data@.len() as int / step as int,
                0 <= data@.len() < step,
        ;
    }
    while i < n
        invariant
            d == data@,
            st == step,
            step > 0,
            step >= 12 || n == 0,
            i <= n,
            n * step <= data@.len(),
            data@.len() <= usize::MAX,
            at == i * step,
            s.valid <= i,
            s.valid == positions_in(d, st, i as int),
            s.min_x == lowest(d, st, 0, i as int),
            s.min_y == lowest(d, st, 4, i as int),
            s.min_z == lowest(d, st, 8, i as int),
            s.max_x == highest(d, st, 0, i as int),
            s.max_y == highest(d, st, 4, i as int),
            s.max_z == highest(d, st, 8, i as int),
        decreases n - i,
    {
        assert((i + 1) * step == i * step + step && (i + 1) * step <= n * step)
            by (nonlinear_arith)
            requires
                i < n,
                step > 0,
        ;
        let x: u32 = read_le(data, at);
        let y: u32 = read_le(data, at + 4);
        let z: u32 = read_le(data, at + 8);
        if !(is_nan(x) || is_nan(y) || is_nan(z)) {
            s.valid = s.valid + 1;
            if is_less(x, s.min_x) {
                s.min_x = x;
            }
            if is_less(s.max_x, x) {
                s.max_x = x;
            }
            if is_less(y, s.min_y) {
                s.min_y = y;
            }
            if is_less(s.max_y, y) {
                s.max_y = y;
            }
            if is_less(z, s.min_z) {
                s.min_z = z;
            }
            if is_less(s.max_z, z) {
                s.max_z = z;
            }
        }
        at = at + step;
        i = i + 1;
    }
    s
}

/// Every point that has a position lies in the box around them.
pub proof fn box_holds_positions(data: Seq<u8>, step: int, off: int, n: int, i: int)
    requires
        0 <= i < n,
        off == 0 || off == 4 || off == 8,
        has_position(data, step, i),
        0 <= i * step,
        i * step + 12 <= data.len(),
    ensures
        !less(le_value(data, i * step + off) as u32, lowest(data, step, off, n)),
        !less(highest(data, step, off, n), le_value(data, i * step + off) as u32),
        !nan(lowest(data, step, off, n)),
        !nan(highest(data, step, off, n)),
    decreases n,
{
    box_is_number(data, step, off, n - 1);
    if i < n - 1 {
        box_holds_positions(data, step, off, n - 1, i);
    }
}

proof fn box_is_number(data: Seq<u8>, step: int, off: int, n: int)
    ensures
        !nan(lowest(data, step, off, n)),
        !nan(highest(data, step, off, n)),
    decreases n,
{
    if n > 0 {
        box_is_number(data, step, off, n - 1);
    }
}

/// A message announces as many records as its data holds whole ones.
pub proof fn whole_records_are_announced(len: int, point_step: u32)
    requires
        0 <= len <= u32::MAX,
        point_step > 0,
    ensures
        announced_width(len, point_step) * point_step <= len,
        len < announced_width(len, point_step) * point_step + point_step,
{
    let step = point_step as int;
    assert(len / step * step <= len < len / step * step + step && 0 <= len / step <= len)
        by (nonlinear_arith)
        requires
            step > 0,
            len >= 0,
    ;
}

/// Reading a message: it is read where it has its sixteen bytes of header,
/// with records of at least sixteen bytes, and all the records it announces.
/// Each record gives a point with the three numbers it begins with, unless one
/// of those is not a number, and with the number behind its first sixteen
/// bytes as its cluster where it is of twenty bytes or more, else with none.
pub proof fn messages_are_read_record_by_record(m: Seq<u8>, step: int, n: int)
    requires
        n >= 0,
        step >= 16,
        16 + n * step + step <= m.len(),
    ensures
        payload_ok(m) <==> m.len() >= 16 && le_value(m, 12) >= 16 && 16 + le_value(m, 8) * le_value(
            m,
            12,
        ) <= m.len(),
        drawn_records(m, step, 0).len() == 0,
        ({
            let at = 16 + n * step;
            let x = le_value(m, at) as u32;
            let y = le_value(m, at + 4) as u32;
            let z = le_value(m, at + 8) as u32;
            let before = drawn_records(m, step, n);
            let after = drawn_records(m, step, n + 1);
            &&& nan(x) || nan(y) || nan(z) ==> after == before
            &&& !nan(x) && !nan(y) && !nan(z) ==> {
                &&& after.len() == before.len() + 1
                &&& after.drop_last() == before
                &&& after.last().x == x && after.last().y == y && after.last().z == z
                &&& step < 20 ==> after.last().cluster == -1
                &&& step >= 20 ==> after.last().cluster == signed_of(le_value(m, at + 16) as u32)
            }
        }),
{
    let before = drawn_records(m, step, n);
    let after = drawn_records(m, step, n + 1);
    assert(n * step >= 0) by (nonlinear_arith)
        requires
            n >= 0,
            step >= 16,
    ;
    assert(after == before || after.drop_last() =~= before);
}

/// Of a cloud all of whose positions are numbers, every point is drawn, in
/// order, where it is and with its cluster.
pub proof fn numbered_points_are_all_drawn(
    points: Seq<Point>,
    clusters: Seq<i32>,
    n: int,
    i: int,
)
    requires
        0 <= n <= points.len(),
        forall|k: int|
            0 <= k < n ==> !nan((#[trigger] points[k]).x) && !nan(points[k].y) && !nan(points[k].z),
    ensures
        drawn_points(points, cluster_at(clusters), n).len() == n,
        0 <= i < n ==> {
            let d = drawn_points(points, cluster_at(clusters), n)[i];
            &&& d.x == points[i].x
            &&& d.y == points[i].y
            &&& d.z == points[i].z
            &&& d.cluster == clusters[i]
        },
    decreases n,
{
    if n > 0 {
        assert(!nan(points[n - 1].x));
        numbered_points_are_all_drawn(points, clusters, n - 1, i);
    }
}

/// A point without a position is not drawn, and changes nothing for those
/// before it.
pub proof fn points_without_position_are_not_drawn(
    points: Seq<Point>,
    clusters: Seq<i32>,
    n: int,
)
    requires
        0 <= n < points.len(),
        nan(points[n].x) || nan(points[n].y) || nan(points[n].z),
    ensures
        drawn_points(points, cluster_at(clusters), n + 1) == drawn_points(
            points,
            cluster_at(clusters),
            n,
        ),
{
}

/// The records with clusters: of every record of sixteen bytes that has a
/// cluster, the same sixteen bytes, and then the cluster's four.
pub proof fn clusters_stand_behind_their_records(cloud: Seq<u8>, clusters: Seq<i32>, i: int)
    requires
        16 * clusters.len() <= cloud.len(),
        0 <= i < clusters.len(),
    ensures
        segmented_bytes(cloud, clusters).len() == 20 * clusters.len(),
        segmented_bytes(cloud, clusters).subrange(20 * i, 20 * i + 16) == cloud.subrange(
            16 * i,
            16 * i + 16,
        ),
        signed_of(le_value(segmented_bytes(cloud, clusters), 20 * i + 16) as u32) == clusters[i],
{
    let f = clustered_records(cloud, clusters);
    let n = clusters.len() as int;
    let all = segmented_bytes(cloud, clusters);
    assert(cloud.len() as int / 16 >= n);
    assert(all == records(f, n));
    assert forall|k: int| 0 <= k < n implies (#[trigger] f(k)).len() == 20 by {
        assert(cloud.subrange(16 * k, 16 * k + 16).len() == 16);
    }
    record_at(f, n, 20, i);
    let r = all.subrange(20 * i, 20 * i + 20);
    assert(r == f(i));
    assert(all.subrange(20 * i, 20 * i + 16) =~= r.subrange(0, 16));
    assert(r.subrange(0, 16) =~= cloud.subrange(16 * i, 16 * i + 16));
    assert(all.subrange(20 * i + 16, 20 * i + 20) =~= r.subrange(16, 20));
    assert(r.subrange(16, 20) =~= le_bytes(pattern_of(clusters[i])));
    le_bytes_read_back(pattern_of(clusters[i]), all, 20 * i + 16);
    pattern_read_back(clusters[i], 0);
}

/// There are no more records with clusters than whole records and clusters.
pub proof fn clusters_stop_with_the_shorter(cloud: Seq<u8>, clusters: Seq<i32>)
    requires
        cloud.len() < 16 * clusters.len(),
    ensures
        segmented_bytes(cloud, clusters) == segmented_bytes(
            cloud,
            clusters.take(cloud.len() as int / 16),
        ),
{
    let n = cloud.len() as int / 16;
    let f = clustered_records(cloud, clusters);
    let g = clustered_records(cloud, clusters.take(n));
    same_records(f, g, n);
}

proof fn same_records(f: spec_fn(int) -> Seq<u8>, g: spec_fn(int) -> Seq<u8>, n: int)
    requires
        forall|k: int| 0 <= k < n ==> #[trigger] f(k) == g(k),
    ensures
        records(f, n) == records(g, n),
    decreases n,
{
    if n > 0 {
        assert(f(n - 1) == g(n - 1));
        same_records(f, g, n - 1);
    }
}

/// The box around the points of a cloud is no larger than it has to be: each
/// of its sides is the number of a point with a position, or infinity where
/// there is no such point; and the count is of the records whose three first
/// numbers are numbers.
pub proof fn box_is_tight(data: Seq<u8>, step: int, off: int, n: int)
    requires
        0 <= n,
    ensures
        ({
            let placed = |k: int|
                !nan(le_value(data, k * step) as u32) && !nan(le_value(data, k * step + 4) as u32)
                    && !nan(le_value(data, k * step + 8) as u32);
            let count = Set::new(|k: int| 0 <= k < n && placed(k));
            &&& count.finite()
            &&& positions_in(data, step, n) == count.len()
            &&& lowest(data, step, off, n) == 0x7f80_0000 || exists|k: int|
                0 <= k < n && #[trigger] placed(k) && lowest(data, step, off, n) == le_value(
                    data,
                    k * step + off,
                ) as u32
            &&& highest(data, step, off, n) == 0xff80_0000 || exists|k: int|
                0 <= k < n && #[trigger] placed(k) && highest(data, step, off, n) == le_value(
                    data,
                    k * step + off,
                ) as u32
        }),
    decreases n,
{
    let placed = |k: int|
        !nan(le_value(data, k * step) as u32) && !nan(le_value(data, k * step + 4) as u32) && !nan(
            le_value(data, k * step + 8) as u32,
        );
    let count = Set::new(|k: int| 0 <= k < n && placed(k));
    if n == 0 {
        assert(count =~= Set::empty());
    } else {
        box_is_tight(data, step, off, n - 1);
        let rest = Set::new(|k: int| 0 <= k < n - 1 && placed(k));
        assert(placed(n - 1) == has_position(data, step, n - 1));
        if placed(n - 1) {
            assert(count =~= rest.insert(n - 1));
        } else {
            assert(count =~= rest);
        }
        let low = lowest(data, step, off, n - 1);
        let high = highest(data, step, off, n - 1);
        if low != 0x7f80_0000 {
            let k = choose|k: int|
                0 <= k < n - 1 && #[trigger] placed(k) && low == le_value(data, k * step + off) as u32;
            assert(placed(k));
        }
        if high != 0xff80_0000 {
            let k = choose|k: int|
                0 <= k < n - 1 && #[trigger] placed(k) && high == le_value(
                    data,
                    k * step + off,
                ) as u32;
            assert(placed(k));
        }
    }
}

/// The sizes of records, and what a record consists of: four single-precision
/// numbers, one behind the other.
pub proof fn records_are_four_numbers()
    ensures
        POINT_STEP == 16,
        SEG_POINT_STEP == 20,
        point_fields().len() == 4,
        forall|i: int|
            0 <= i < 4 ==> (#[trigger] point_fields()[i]).offset == 4 * i && point_fields()[i].datatype
                == 7 && point_fields()[i].count == 1,
        point_fields()[0].name == "x",
        point_fields()[1].name == "y",
        point_fields()[2].name == "z",
        point_fields()[3].name == "intensity",
{
}

} // verus!
