use rslidar::cloud::{
    build_point_cloud, build_segmented_data, decode_points, encode_points, frame_stats,
    point_clusters, Header, Point, PointCloud2, VizPoint,
};
use rslidar::decoder::Frame;
use rslidar::publish::publish_frame;
use rslidar::range_graph::RangeGraph;

fn point(x: f32, y: f32, z: f32, i: f32) -> Point {
    Point { x: x.to_bits(), y: y.to_bits(), z: z.to_bits(), intensity: i.to_bits() }
}

fn header(sec: i32, nanosec: u32) -> Header {
    Header { stamp_sec: sec, stamp_nanosec: nanosec, frame_id: "f".to_string() }
}

#[test]
fn cloud_of_points() {
    let points = vec![point(1.0, -2.0, 3.5, 7.0), point(f32::NAN, 0.0, 0.0, 0.0)];
    let c = build_point_cloud(&points, -3, 9, "rslidar", true);
    assert_eq!((c.header.stamp_sec, c.header.stamp_nanosec), (-3, 9));
    assert_eq!(c.header.frame_id, "rslidar");
    assert_eq!((c.height, c.width, c.point_step, c.row_step), (1, 2, 16, 32));
    assert!(c.is_dense && !c.is_bigendian);
    let names: Vec<(&str, u32, u8, u32)> =
        c.fields.iter().map(|f| (f.name, f.offset, f.datatype, f.count)).collect();
    assert_eq!(names, vec![("x", 0, 7, 1), ("y", 4, 7, 1), ("z", 8, 7, 1), ("intensity", 12, 7, 1)]);
    assert_eq!(&c.data[0..4], &1.0f32.to_le_bytes());
    assert_eq!(&c.data[4..8], &(-2.0f32).to_le_bytes());
    assert_eq!(&c.data[12..16], &7.0f32.to_le_bytes());
    assert_eq!(c.data.len(), 32);
}

#[test]
fn message_has_a_header() {
    let m = encode_points(&header(-2, 5), 16, &[7u8; 48]);
    assert_eq!(&m[0..4], &(-2i32).to_le_bytes());
    assert_eq!(&m[4..8], &5u32.to_le_bytes());
    assert_eq!(&m[8..12], &3u32.to_le_bytes());
    assert_eq!(&m[12..16], &16u32.to_le_bytes());
    assert_eq!(&m[16..], &[7u8; 48]);
    let m = encode_points(&header(0, 0), 16, &[7u8; 20]);
    assert_eq!((m[8], m.len()), (1, 36));
}

#[test]
fn clusters_are_appended() {
    let d = build_segmented_data(&[1u8; 40], &[-1, 5, 6]);
    let mut expect = vec![1u8; 16];
    expect.extend_from_slice(&(-1i32).to_le_bytes());
    expect.extend_from_slice(&[1u8; 16]);
    expect.extend_from_slice(&5i32.to_le_bytes());
    assert_eq!(d, expect);
    assert_eq!(build_segmented_data(&[1u8; 48], &[3]).len(), 20);
    assert!(build_segmented_data(&[1u8; 15], &[3]).is_empty());
}

#[test]
fn segmented_cloud_is_read_back() {
    let points =
        vec![point(1.0, 2.0, 3.0, 4.0), point(1.0, f32::NAN, 3.0, 4.0), point(5.0, 6.0, 7.0, 8.0)];
    let c = build_point_cloud(&points, 1, 2, "f", false);
    let m = encode_points(&c.header, 20, &build_segmented_data(&c.data, &[4, 5, -1]));
    let viz = |p: &Point, cluster: i32| VizPoint { x: p.x, y: p.y, z: p.z, cluster };
    assert_eq!(decode_points(&m), Some(vec![viz(&points[0], 4), viz(&points[2], -1)]));
    let plain = encode_points(&c.header, 16, &c.data);
    assert_eq!(decode_points(&plain), Some(vec![viz(&points[0], -1), viz(&points[2], -1)]));
}

#[test]
fn malformed_messages_are_refused() {
    let m = encode_points(&header(0, 0), 16, &[0u8; 32]);
    assert_eq!(decode_points(&m).unwrap().len(), 2);
    for n in 0..m.len() {
        assert!(decode_points(&m[..n]).is_none());
    }
    let mut longer = m.clone();
    longer.extend_from_slice(&[0u8; 100]);
    assert_eq!(decode_points(&longer).unwrap().len(), 2);
    let mut narrow = m.clone();
    narrow[12] = 15;
    assert!(decode_points(&narrow).is_none());
    let mut huge = m.clone();
    huge[8..16].copy_from_slice(&[0xff; 8]);
    assert!(decode_points(&huge).is_none());
    let mut step18 = vec![0u8; 16 + 18];
    step18[8] = 1;
    step18[12] = 18;
    step18[32] = 9;
    assert_eq!(decode_points(&step18).unwrap()[0].cluster, -1);
    assert_eq!(decode_points(&[0, 0, 0, 0, 0, 0, 0, 0, 0, 0, 0, 0, 20, 0, 0, 0]), Some(vec![]));
}

#[test]
fn points_have_the_clusters_of_their_cells() {
    let mut g = RangeGraph::new();
    g.insert(1, 100, 0, 0, 0, 1.0f32.to_bits(), 2);
    g.insert(2, 100, 0, 0, 0, 1.0f32.to_bits(), 0);
    g.insert(3, 100, 0, 0, 0, 1.0f32.to_bits(), -1);
    for n in g.nodes.iter_mut() {
        if n.valid {
            n.beta = 10 + n.point_idx;
        }
    }
    assert_eq!(point_clusters(&g.nodes, 4), vec![10, -1, 12, -1]);
    assert!(point_clusters(&RangeGraph::new().nodes, 0).is_empty());
}

#[test]
fn revolution_is_published() {
    let mut g = RangeGraph::new();
    let points = vec![point(1.0, 0.0, 0.0, 9.0), point(2.0, 0.0, 0.0, 9.0)];
    g.insert(0, 0, points[0].x, 0, 0, 1.0f32.to_bits(), 0);
    g.nodes[0].beta = 3;
    let f = Frame { points: points.clone(), stamp: 0, range_graph: g };
    let p = publish_frame(&f, 4, 5, "x", false);
    assert_eq!((p.cloud.height, p.cloud.width), (1, 2));
    assert_eq!((p.cloud.point_step, p.cloud.row_step), (16, 32));
    assert!(!p.cloud.is_bigendian && !p.cloud.is_dense);
    let names: Vec<(&str, u32)> = p.cloud.fields.iter().map(|f| (f.name, f.offset)).collect();
    assert_eq!(names, vec![("x", 0), ("y", 4), ("z", 8), ("intensity", 12)]);
    assert_eq!(p.raw.len(), 16 + 32);
    let seen = decode_points(&p.segmented).unwrap();
    assert_eq!(
        seen,
        vec![
            VizPoint { x: points[0].x, y: 0, z: 0, cluster: 3 },
            VizPoint { x: points[1].x, y: 0, z: 0, cluster: -1 },
        ]
    );
    assert_eq!(decode_points(&p.raw).unwrap().len(), 2);
}

fn cloud(points: &[Point]) -> PointCloud2 {
    build_point_cloud(&points.to_vec(), 0, 0, "f", false)
}

#[test]
fn statistics_of_a_frame() {
    let s = frame_stats(&cloud(&[
        point(1.0, -5.0, 0.5, 0.0),
        point(f32::NAN, 100.0, 100.0, 0.0),
        point(-3.0, 2.0, 9.0, 0.0),
    ]));
    assert_eq!(s.valid, 2);
    assert_eq!((f32::from_bits(s.min_x), f32::from_bits(s.max_x)), (-3.0, 1.0));
    assert_eq!((f32::from_bits(s.min_y), f32::from_bits(s.max_y)), (-5.0, 2.0));
    assert_eq!((f32::from_bits(s.min_z), f32::from_bits(s.max_z)), (0.5, 9.0));
    let e = frame_stats(&cloud(&[point(f32::NAN, 0.0, 0.0, 0.0)]));
    assert_eq!(e.valid, 0);
    assert_eq!(f32::from_bits(e.min_x), f32::INFINITY);
    assert_eq!(f32::from_bits(e.max_z), f32::NEG_INFINITY);
}

#[test]
fn statistics_without_a_whole_record() {
    let mut c = cloud(&[]);
    c.point_step = 4;
    c.data = vec![0; 3];
    assert_eq!(frame_stats(&c).valid, 0);
    c.point_step = 12;
    c.data = vec![0; 13];
    assert_eq!(frame_stats(&c).valid, 1);
}

#[test]
fn unsegmented_revolutions_have_no_clusters() {
    let mut g = RangeGraph::new();
    g.insert(0, 0, 0, 0, 0, 1.0f32.to_bits(), 0);
    let f = Frame { points: vec![point(0.0, 0.0, 0.0, 0.0); 3], stamp: 0, range_graph: g };
    let seen = decode_points(&publish_frame(&f, 0, 0, "x", false).segmented).unwrap();
    assert_eq!(seen.iter().map(|p| p.cluster).collect::<Vec<i32>>(), vec![-1, -1, -1]);
}
