use rslidar::grid::{
    iter_xyz, CloudRecords, FieldInfo, Grid, Place, Ring, Sighting, FREE_SPACE,
    INSCRIBED_INFLATED_OBSTACLE, LETHAL_OBSTACLE, NO_INFORMATION, ORIGIN, RESOLUTION,
};
use rslidar::sync::{stamp_to_ns, Stamped, SyncBuffers, Time};

fn rings(radius: usize, resolution: f64) -> Vec<Ring> {
    (0..=2 * radius * radius)
        .map(|d2| {
            let dist = (d2 as f64).sqrt() * resolution;
            let factor = (-10.0 * (dist - 0.3)).exp();
            Ring { dist: dist.to_bits(), decayed: if dist > 0.3 { (252.0 * factor) as u8 } else { 0 } }
        })
        .collect()
}

fn place(x: f64, y: f64) -> Place {
    Place {
        wx: x.to_bits(),
        wy: y.to_bits(),
        mx: ((x + 25.0) / 0.05) as usize,
        my: ((y + 25.0) / 0.05) as usize,
    }
}

fn small(cells: &[(usize, u8)]) -> Grid {
    let mut g = Grid::new(30, 30, RESOLUTION, ORIGIN, ORIGIN);
    g.clear_to_free();
    for &(i, c) in cells {
        g.cells[i] = c;
    }
    g
}

#[test]
fn new_grid_knows_nothing() {
    let g = Grid::new(4, 3, RESOLUTION, ORIGIN, ORIGIN);
    assert_eq!(g.cells, vec![NO_INFORMATION; 12]);
    assert_eq!(g.to_i8_data(), vec![-1i8; 12]);
}

#[test]
fn places_are_mapped_to_cells() {
    let g = Grid::new(1000, 1000, RESOLUTION, ORIGIN, ORIGIN);
    assert_eq!(g.world_to_map(&place(-25.0, -25.0)), Some((0, 0)));
    assert_eq!(g.world_to_map(&place(0.0, 1.0)), Some((500, 520)));
    assert_eq!(g.world_to_map(&place(-25.01, 0.0)), None);
    assert_eq!(g.world_to_map(&place(0.0, -30.0)), None);
    assert_eq!(g.world_to_map(&place(25.0, 0.0)), None);
    assert_eq!(g.world_to_map(&place(0.0, 25.0)), None);
    assert_eq!(g.world_to_map(&place(f64::NAN, f64::NAN)), Some((0, 0)));
}

#[test]
fn obstacles_are_marked_on_the_grid_only() {
    let mut g = small(&[]);
    g.mark_obstacle(&Place { wx: 0, wy: 0, mx: 3, my: 2 });
    g.mark_obstacle(&Place { wx: 0, wy: 0, mx: 30, my: 2 });
    g.mark_obstacle(&Place { wx: (-26.0f64).to_bits(), wy: 0, mx: 5, my: 5 });
    for i in 0..900 {
        assert_eq!(g.cells[i], if i == 63 { LETHAL_OBSTACLE } else { FREE_SPACE });
    }
    g.clear_to_free();
    assert_eq!(g.cells, vec![FREE_SPACE; 900]);
}

fn reference(cells: &[u8], w: usize, h: usize) -> Vec<u8> {
    let mut out = cells.to_vec();
    for i in 0..cells.len() {
        if cells[i] != LETHAL_OBSTACLE {
            continue;
        }
        let (lx, ly) = ((i % w) as i32, (i / w) as i32);
        for dy in -11..=11i32 {
            for dx in -11..=11i32 {
                let (x, y) = (lx + dx, ly + dy);
                if x < 0 || y < 0 || x as usize >= w || y as usize >= h {
                    continue;
                }
                let dist = ((dx * dx + dy * dy) as f64).sqrt() * 0.05;
                if dist > 0.55 {
                    continue;
                }
                let k = y as usize * w + x as usize;
                if out[k] == LETHAL_OBSTACLE {
                    continue;
                }
                let cost = if dist <= 0.3 {
                    253
                } else {
                    (252.0 * (-10.0 * (dist - 0.3)).exp()) as u8
                };
                if cost > out[k] {
                    out[k] = cost;
                }
            }
        }
    }
    out
}

#[test]
fn obstacles_are_inflated() {
    let mut g = small(&[(0, 254), (435, 254), (437, 254), (899, 254), (500, 255), (501, 100)]);
    let expect = reference(&g.cells, 30, 30);
    g.inflate(11, &rings(11, 0.05));
    assert_eq!(g.cells, expect);
    assert_eq!(g.cells[435], LETHAL_OBSTACLE);
    assert_eq!(g.cells[436], INSCRIBED_INFLATED_OBSTACLE);
    assert_eq!(g.cells[500], NO_INFORMATION);
    assert_eq!(g.cells[428], 152);
    let again = g.cells.clone();
    g.inflate(11, &rings(11, 0.05));
    assert_eq!(g.cells, again);
}

#[test]
fn cells_out_of_reach_keep_their_cost() {
    let mut g = small(&[(0, 254), (29, 7)]);
    g.inflate(11, &rings(11, 0.05));
    assert_eq!(g.cells[29], 7);
    assert_eq!(g.cells[12], FREE_SPACE);
    assert!(g.cells[11] > 0);
}

#[test]
fn costs_are_published_as_signed_bytes() {
    let mut g = Grid::new(3, 2, RESOLUTION, ORIGIN, ORIGIN);
    g.cells = vec![0, 127, 128, 253, 254, 255];
    assert_eq!(g.to_i8_data(), vec![0i8, 127, -128, -3, -2, -1]);
}

fn sighting(z: f32, range: f32, mx: usize, my: usize) -> Sighting {
    Sighting { z: z.to_bits(), range: range.to_bits(), place: Place { wx: 0, wy: 0, mx, my } }
}

#[test]
fn costmap_shows_the_obstacles_of_one_cloud() {
    let mut g = Grid::new(30, 30, RESOLUTION, ORIGIN, ORIGIN);
    let seen = vec![
        sighting(0.0, 3.0, 1, 1),
        sighting(-0.2, 15.0, 28, 1),
        sighting(2.0, 1.0, 1, 28),
        sighting(-0.21, 1.0, 15, 15),
        sighting(2.1, 1.0, 15, 15),
        sighting(1.0, 15.1, 15, 15),
        sighting(1.0, 1.0, 99, 15),
        sighting(f32::NAN, f32::NAN, 28, 28),
    ];
    let mut base = vec![0u8; 900];
    for i in [31, 58, 28 * 30 + 1, 28 * 30 + 28] {
        base[i] = 254;
    }
    let expect = reference(&base, 30, 30);
    let t = Time { sec: 7, nanosec: 8 };
    let m = g.on_synced_pair(&seen, 11, &rings(11, 0.05), t, "map");
    assert_eq!(g.cells, expect);
    assert_eq!(m.data, expect.iter().map(|&c| c as i8).collect::<Vec<i8>>());
    assert_eq!((m.size_x, m.size_y), (30, 30));
    assert_eq!(m.stamp, t);
    assert_eq!(m.frame_id, "map");
    assert_eq!(m.layer, "fused_perception");
    assert_eq!((m.resolution, m.origin_x, m.origin_y), (RESOLUTION, ORIGIN, ORIGIN));
    let m = g.on_synced_pair(&vec![], 11, &rings(11, 0.05), t, "map");
    assert_eq!(m.data, vec![0i8; 900]);
}

fn field(name: &str, offset: u32) -> FieldInfo {
    FieldInfo { name: name.to_string(), offset }
}

#[test]
fn positions_are_read_by_field_names() {
    let mut data = Vec::new();
    for v in [1.0f32, 2.0, 3.0, 4.0, 5.0, 6.0, 7.0, 8.0] {
        data.extend_from_slice(&v.to_le_bytes());
    }
    let plain = CloudRecords { fields: vec![], point_step: 16, data: data.clone() };
    let b = |v: f32| v.to_bits();
    assert_eq!(iter_xyz(&plain), vec![(b(1.0), b(2.0), b(3.0)), (b(5.0), b(6.0), b(7.0))]);
    let named = CloudRecords {
        fields: vec![field("z", 0), field("y", 4), field("x", 12), field("x", 8)],
        point_step: 16,
        data: data.clone(),
    };
    assert_eq!(iter_xyz(&named), vec![(b(4.0), b(2.0), b(1.0)), (b(8.0), b(6.0), b(5.0))]);
}

#[test]
fn records_that_are_cut_off_are_left_out() {
    let data: Vec<u8> = vec![0; 24];
    let none = CloudRecords { fields: vec![], point_step: 0, data: data.clone() };
    assert!(iter_xyz(&none).is_empty());
    let over = CloudRecords { fields: vec![field("z", 16)], point_step: 12, data: data.clone() };
    assert_eq!(iter_xyz(&over).len(), 1);
    let far = CloudRecords { fields: vec![field("x", u32::MAX)], point_step: 12, data };
    assert!(iter_xyz(&far).is_empty());
    let short = CloudRecords { fields: vec![], point_step: 16, data: vec![0; 31] };
    assert_eq!(iter_xyz(&short).len(), 1);
}

fn msg(ns: i64, item: u32) -> Stamped<u32> {
    Stamped {
        stamp: Time {
            sec: ns.div_euclid(1_000_000_000) as i32,
            nanosec: ns.rem_euclid(1_000_000_000) as u32,
        },
        item,
    }
}

#[test]
fn stamps_in_nanoseconds() {
    assert_eq!(stamp_to_ns(&Time { sec: 2, nanosec: 5 }), 2_000_000_005);
    assert_eq!(stamp_to_ns(&Time { sec: -1, nanosec: 999_999_999 }), -1);
    assert_eq!(
        stamp_to_ns(&Time { sec: i32::MIN, nanosec: 0 }),
        i32::MIN as i64 * 1_000_000_000
    );
}

#[test]
fn nearest_pair_within_tolerance_is_taken() {
    let mut s: SyncBuffers<u32, u32> = SyncBuffers::new();
    assert!(s.push_lidar(msg(1_000_000_000, 1)).is_none());
    assert!(s.push_camera(msg(1_050_000_001, 10)).is_none());
    let (l, c) = s.push_lidar(msg(1_060_000_000, 2)).unwrap();
    assert_eq!((l.item, c.item), (2, 10));
    assert!(s.lidar.is_empty() && s.camera.is_empty());
}

#[test]
fn tolerance_is_inclusive() {
    let mut s: SyncBuffers<u32, u32> = SyncBuffers::new();
    assert!(s.push_lidar(msg(0, 1)).is_none());
    assert!(s.push_camera(msg(50_000_001, 2)).is_none());
    assert!(s.push_camera(msg(-50_000_000, 3)).is_some());
    assert_eq!(s.camera.len(), 1);
    assert_eq!(s.camera[0].item, 2);
}

#[test]
fn first_of_equally_near_pairs_is_taken() {
    let mut s: SyncBuffers<u32, u32> = SyncBuffers {
        lidar: vec![msg(100, 1), msg(100, 2)],
        camera: vec![msg(90, 3), msg(110, 4), msg(90, 5)],
    };
    let (l, c) = s.try_match().unwrap();
    assert_eq!((l.item, c.item), (1, 3));
    assert!(s.lidar.is_empty());
    assert_eq!(s.camera.iter().map(|m| m.item).collect::<Vec<u32>>(), vec![4]);
}

#[test]
fn newer_messages_stay() {
    let mut s: SyncBuffers<u32, u32> = SyncBuffers {
        lidar: vec![msg(500, 1), msg(100, 2), msg(300, 3)],
        camera: vec![msg(300, 4)],
    };
    let (l, c) = s.try_match().unwrap();
    assert_eq!((l.item, c.item), (3, 4));
    assert_eq!(s.lidar.iter().map(|m| m.item).collect::<Vec<u32>>(), vec![1]);
}

#[test]
fn full_buffers_drop_the_oldest() {
    let mut s: SyncBuffers<u32, u32> = SyncBuffers::new();
    for i in 0..31u32 {
        assert!(s.push_lidar(msg(i as i64 * 1_000_000_000, i)).is_none());
    }
    assert_eq!(s.lidar.len(), 30);
    assert_eq!(s.lidar[0].item, 1);
    for i in 0..31u32 {
        assert!(s.push_camera(msg(500_000_000 - i as i64 * 1_000_000_000, i)).is_none());
    }
    assert_eq!(s.camera.len(), 30);
    assert_eq!(s.camera[0].item, 1);
    assert!(s.push_camera(msg(0, 99)).is_none());
}
