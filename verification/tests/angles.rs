use rslidar::angle::{
    azimuth_round, compute_block_iter, AzimuthSection, SplitStrategyByAngle,
};
use rslidar::calibration::ChanAngles;
use rslidar::range_graph::RangeGraph;

#[test]
fn azimuths_are_reduced_to_one_turn() {
    for (v, r) in
        [(0, 0), (35999, 35999), (36000, 0), (36001, 1), (-1, 35999), (-36000, 0), (-72001, 35999)]
    {
        assert_eq!(azimuth_round(v), r);
    }
}

#[test]
fn full_circle_section_holds_everything() {
    let s = AzimuthSection::new(0, 36000);
    assert!(s.full_round);
    for a in [-100, 0, 18000, 35999, 70000] {
        assert!(s.contains(a));
    }
}

#[test]
fn plain_section_has_its_start_and_not_its_end() {
    let s = AzimuthSection::new(1000, 2000);
    assert!(!s.full_round && !s.cross_zero);
    assert!(s.contains(1000) && s.contains(1999));
    assert!(!s.contains(999) && !s.contains(2000));
}

#[test]
fn section_across_zero_wraps() {
    let s = AzimuthSection::new(35000, 1000);
    assert!(s.cross_zero);
    assert!(s.contains(35000) && s.contains(0) && s.contains(999) && s.contains(36500));
    assert!(!s.contains(1000) && !s.contains(34999));
    let t = AzimuthSection::new(-1000, 1000);
    assert_eq!((t.start, t.end, t.cross_zero), (35000, 1000, true));
}

#[test]
fn a_revolution_ends_where_the_angle_wraps() {
    let mut s = SplitStrategyByAngle::new(0);
    let seen: Vec<bool> =
        [100, 20000, 35990, 5, 10, 35999, 0, 0].iter().map(|&a| s.new_block(a)).collect();
    assert_eq!(seen, vec![false, false, false, true, false, false, true, false]);
}

#[test]
fn a_split_angle_inside_the_turn() {
    let mut s = SplitStrategyByAngle::new(9000);
    assert!(!s.new_block(8000));
    assert!(s.new_block(9000));
    assert!(!s.new_block(9500));
    assert!(!s.new_block(100));
    assert!(s.new_block(10000));
    assert_eq!(s.prev_angle, 10000);
}

#[test]
fn block_steps_of_single_returns() {
    let az: Vec<i32> = vec![35980, 0, 20, 40, 60, 80, 100, 120, 500, 520, 540, 560];
    let r = compute_block_iter(&az, 20, false);
    assert_eq!(r.az_diffs, vec![20; 12]);
    let mut crossed = vec![false; 11];
    crossed[7] = true;
    assert_eq!(r.crossed, crossed);
    assert_eq!(r.group_of, (0..12).collect::<Vec<usize>>());
}

#[test]
fn block_steps_of_dual_returns() {
    let az: Vec<i32> = vec![0, 0, 21, 21, 40, 40, 900, 900, 920, 920, 950, 950];
    let r = compute_block_iter(&az, 19, true);
    assert_eq!(r.az_diffs, vec![21, 21, 19, 19, 19, 19, 20, 20, 30, 30, 19, 19]);
    assert_eq!(r.crossed, vec![false, false, true, false, false]);
    assert_eq!(r.group_of, vec![0, 0, 1, 1, 2, 2, 3, 3, 4, 4, 5, 5]);
}

#[test]
fn a_step_of_exactly_one_degree_is_not_blind() {
    let az: Vec<i32> = (0..12).map(|i| i * 100).collect();
    let r = compute_block_iter(&az, 7, false);
    assert_eq!(r.crossed, vec![false; 11]);
    assert_eq!(r.az_diffs[0], 100);
    assert_eq!(r.az_diffs[11], 7);
}

#[test]
fn azimuth_gap_is_the_short_way_round() {
    for (a, b, gap) in
        [(0, 0, 0), (10, 35990, 20), (35990, 10, 20), (0, 18000, 18000), (0, 18001, 17999)]
    {
        assert_eq!(RangeGraph::azimuth_gap_centideg(a, b), gap);
    }
}

fn table(f: fn(usize) -> (u8, u16)) -> Vec<u8> {
    let mut t = Vec::new();
    for i in 0..32 {
        let (sign, mag) = f(i);
        t.push(sign);
        t.extend_from_slice(&mag.to_be_bytes());
    }
    t
}

#[test]
fn calibration_orders_rings_by_angle() {
    let vert = table(|i| if i < 16 { (1, 100 * i as u16) } else { (0, 100 * (i as u16 - 15)) });
    let horiz = table(|i| (0, i as u16));
    let c = ChanAngles::from_difop(&vert, &horiz).unwrap();
    assert_eq!(c.vert[3], -300);
    assert_eq!(c.vert[16], 100);
    assert_eq!(c.horiz[31], 31);
    assert_eq!(c.user_chan[15], 0);
    assert_eq!(c.user_chan[0], 15);
    assert_eq!(c.user_chan[31], 31);
    for i in 0..32 {
        for j in 0..32 {
            assert_eq!(c.user_chan[i] < c.user_chan[j], c.vert[i] < c.vert[j]);
        }
    }
}

#[test]
fn equal_angles_share_a_ring() {
    let vert = table(|i| (0, (i as u16 / 2) * 10));
    let c = ChanAngles::from_difop(&vert, &table(|_| (0, 0))).unwrap();
    assert_eq!((c.user_chan[0], c.user_chan[1], c.user_chan[2], c.user_chan[3]), (0, 0, 2, 2));
}

#[test]
fn calibration_bounds() {
    let good = table(|_| (0, 0));
    assert!(ChanAngles::from_difop(&table(|_| (0, 17999)), &good).is_some());
    assert!(ChanAngles::from_difop(&table(|_| (0, 18000)), &good).is_none());
    assert!(ChanAngles::from_difop(&table(|_| (1, 9000)), &good).is_some());
    assert!(ChanAngles::from_difop(&table(|_| (1, 9001)), &good).is_none());
    assert!(ChanAngles::from_difop(&good, &table(|_| (1, 9001))).is_none());
    assert!(ChanAngles::from_difop(&good, &table(|i| (0, if i == 31 { 18000 } else { 5 }))).is_none());
}

#[test]
fn uncalibrated_entries_are_refused() {
    let good = table(|_| (0, 0));
    let bad = table(|i| (if i == 17 { 0xff } else { 0 }, 0));
    assert!(ChanAngles::from_difop(&bad, &good).is_none());
    assert!(ChanAngles::from_difop(&good, &bad).is_none());
    assert!(ChanAngles::from_difop(&table(|_| (0xfe, 5)), &good).is_some());
}

#[test]
fn no_calibration_is_empty() {
    let c = ChanAngles::empty();
    assert!(c.vert.is_empty() && c.horiz.is_empty() && c.user_chan.is_empty());
}
