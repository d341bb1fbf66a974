use rslidar::cloud::build_point_cloud;
use rslidar::config::DriverConfig;
use rslidar::decoder::{Clock, DecoderConfig, Frame, Measured, MeasuredBlock, RsHeliosDecoder};
use rslidar::packet::{parse_difop, parse_msop, MsopPacket};
use rslidar::range_graph::NUM_COLS;

fn difop(rpm: u16, fov: (u16, u16), mode: u8) -> Vec<u8> {
    let mut p = vec![0u8; 1248];
    p[0..8].copy_from_slice(&[0xa5, 0xff, 0x00, 0x5a, 0x11, 0x11, 0x55, 0x55]);
    p[8..10].copy_from_slice(&rpm.to_be_bytes());
    p[32..34].copy_from_slice(&fov.0.to_be_bytes());
    p[34..36].copy_from_slice(&fov.1.to_be_bytes());
    p[300] = mode;
    for i in 0..32u16 {
        let at = 468 + 3 * i as usize;
        p[at + 1..at + 3].copy_from_slice(&(100 * (31 - i)).to_be_bytes());
        let at = 564 + 3 * i as usize;
        p[at] = (i % 2) as u8;
        p[at + 1..at + 3].copy_from_slice(&i.to_be_bytes());
    }
    p
}

fn msop(azimuths: &[u16; 12]) -> Vec<u8> {
    let mut p = vec![0u8; 1248];
    p[0..4].copy_from_slice(&[0x55, 0xaa, 0x05, 0x5a]);
    p[20..26].copy_from_slice(&[0, 0, 0, 0, 1, 2]);
    p[26..30].copy_from_slice(&[0, 0, 3, 4]);
    for (b, az) in azimuths.iter().enumerate() {
        let base = 42 + 100 * b;
        p[base] = 0xff;
        p[base + 1] = 0xee;
        p[base + 2..base + 4].copy_from_slice(&az.to_be_bytes());
        for c in 0..32 {
            let at = base + 4 + 3 * c;
            p[at..at + 2].copy_from_slice(&((1000 * b + c) as u16).to_be_bytes());
            p[at + 2] = (b + c) as u8;
        }
    }
    p
}

fn turning(start: u16) -> [u16; 12] {
    let mut a = [0u16; 12];
    for b in 0..12u16 {
        a[b as usize] = (start + 20 * b) % 36000;
    }
    a
}

fn config(dense: bool, first: bool) -> DecoderConfig {
    DecoderConfig {
        user_layer_bytes: 0,
        tail_layer_bytes: 0,
        wait_for_difop: true,
        use_lidar_clock: true,
        dense_points: dense,
        ts_first_point: first,
        min_distance: 0,
        max_distance: 0,
        start_angle: 0,
        end_angle: 36000,
    }
}

fn measure(pkt: &MsopPacket, t: f64, range: f32) -> Vec<MeasuredBlock> {
    pkt.blocks
        .iter()
        .enumerate()
        .map(|(b, block)| MeasuredBlock {
            ts: (t + b as f64).to_bits(),
            channels: block
                .channels
                .iter()
                .enumerate()
                .map(|(c, ch)| Measured {
                    az_offset: (c / 2) as i32,
                    x: (c as f32).to_bits(),
                    y: (b as f32).to_bits(),
                    z: (c as f32 - 16.0).to_bits(),
                    range: range.to_bits(),
                    intensity: (ch.intensity as f32).to_bits(),
                    ts: (t + b as f64 + c as f64 / 100.0).to_bits(),
                })
                .collect(),
        })
        .collect()
}

fn feed(d: &mut RsHeliosDecoder, raw: &[u8], t: f64, range: f32, low: Option<f32>) -> Vec<Frame> {
    let pkt = d.read_msop(raw).unwrap();
    let m = measure(&pkt, t, range);
    d.decode_msop(&pkt, &m, low.map(|h| h.to_bits()))
}

fn ready(dense: bool, first: bool) -> RsHeliosDecoder {
    let mut d = RsHeliosDecoder::new(config(dense, first));
    d.decode_difop(&difop(600, (0, 36000), 1));
    d
}

#[test]
fn nominal_steps_are_rounded_products() {
    for rps in 1..=1092u32 {
        let i = parse_difop(&difop((rps * 60) as u16, (0, 0), 1)).unwrap();
        assert_eq!(i.rps, rps);
        let step = (36000.0f64 * rps as f64 * (55.56f64 / 1_000_000.0)).round() as i32;
        assert_eq!(i.block_az_diff, step);
    }
    for rpm in [0u16, 59] {
        let i = parse_difop(&difop(rpm, (0, 0), 1)).unwrap();
        assert_eq!((i.rps, i.block_az_diff), (10, 20));
    }
    assert_eq!(parse_difop(&difop(119, (0, 0), 1)).unwrap().rps, 1);
}

#[test]
fn status_packet_fields() {
    let blind = |s: u16, e: u16| parse_difop(&difop(600, (s, e), 1)).unwrap().fov_blind_range;
    assert_eq!(blind(0, 36000), 0);
    assert_eq!(blind(1000, 19000), 18000);
    assert_eq!(blind(35000, 1000), 34000);
    assert_eq!(blind(500, 500), 0);
    assert!(parse_difop(&difop(600, (0, 0), 0)).unwrap().dual_return);
    assert!(!parse_difop(&difop(600, (0, 0), 4)).unwrap().dual_return);
}

#[test]
fn packets_that_are_no_status_are_ignored() {
    let good = difop(600, (0, 0), 0);
    assert!(parse_difop(&good[..1247]).is_none());
    for i in 0..8 {
        let mut bad = good.clone();
        bad[i] ^= 1;
        assert!(parse_difop(&bad).is_none());
        let mut d = RsHeliosDecoder::new(config(false, false));
        d.decode_difop(&bad);
        assert!(!d.angles_ready && !d.dual_return && d.block_az_diff_const == 20);
    }
}

#[test]
fn calibration_is_taken_once() {
    let mut d = RsHeliosDecoder::new(config(false, false));
    assert_eq!((d.block_az_diff_const, d.fov_blind_range, d.rps), (20, 0, 10));
    let mut raw = difop(1200, (0, 18000), 0);
    raw[468] = 0xff;
    d.decode_difop(&raw);
    assert!(!d.angles_ready);
    assert_eq!((d.block_az_diff_const, d.fov_blind_range, d.dual_return), (40, 18000, true));
    d.decode_difop(&difop(600, (0, 36000), 1));
    assert!(d.angles_ready && !d.dual_return);
    assert_eq!((d.chan_angles.vert[0], d.chan_angles.user_chan[0]), (3100, 31));
    assert_eq!((d.chan_angles.horiz[2], d.chan_angles.horiz[3]), (2, -3));
    for r in 0..32 {
        assert_eq!(d.ring_vert[r], 100 * r as i32);
    }
    let mut other = difop(600, (0, 36000), 0);
    other[469] = 1;
    d.decode_difop(&other);
    assert_eq!(d.chan_angles.vert[0], 3100);
    assert!(d.dual_return);
}

#[test]
fn measurement_packet_fields() {
    let p = parse_msop(&msop(&turning(100)), 21, false);
    assert_eq!((p.sec, p.usec), (0x0102, 0x0304));
    assert_eq!(p.blocks.len(), 12);
    assert_eq!(p.blocks[3].azimuth, 160);
    assert_eq!((p.blocks[3].az_diff, p.blocks[11].az_diff), (20, 21));
    assert_eq!((p.blocks[5].channels[7].dist_raw, p.blocks[5].channels[7].intensity), (5007, 12));
    assert_eq!((p.blocks[4].steps_before, p.crossed.len()), (4, 11));
    let p = parse_msop(&msop(&turning(100)), 21, true);
    assert_eq!((p.blocks[4].steps_before, p.crossed.len()), (2, 5));
}

#[test]
fn a_block_without_mark_ends_the_packet() {
    for b in 0..12 {
        let mut raw = msop(&turning(100));
        raw[42 + 100 * b + 1] = 0;
        let p = parse_msop(&raw, 20, false);
        assert_eq!(p.blocks.len(), b);
        assert!(p.is_cut());
    }
    assert!(!parse_msop(&msop(&turning(100)), 20, false).is_cut());
}

#[test]
fn only_measurement_packets_are_read() {
    let d = ready(false, false);
    let raw = msop(&turning(0));
    assert!(d.read_msop(&raw).is_some());
    assert!(d.read_msop(&raw[..1247]).is_none());
    assert!(d.read_msop(&[]).is_none());
    for i in 0..4 {
        let mut bad = raw.clone();
        bad[i] ^= 1;
        assert!(d.read_msop(&bad).is_none());
    }
    assert!(RsHeliosDecoder::new(config(false, false)).read_msop(&raw).is_none());
}

#[test]
fn extra_layers_are_taken_off() {
    let mut cfg = config(false, false);
    cfg.user_layer_bytes = 3;
    cfg.tail_layer_bytes = 2;
    let mut d = RsHeliosDecoder::new(cfg);
    d.decode_difop(&difop(600, (0, 36000), 1));
    let mut raw = vec![1, 2, 3];
    raw.extend(msop(&turning(40)));
    raw.extend([4, 5]);
    assert_eq!(d.read_msop(&raw).unwrap().blocks[0].azimuth, 40);
    assert!(d.read_msop(&raw[1..]).is_none());
    assert!(d.read_msop(&[0, 0]).is_none());
}

#[test]
fn firing_angles_with_calibration() {
    let d = ready(false, false);
    assert_eq!(d.firing_angles(1000, 5, 2), (1005, 1007));
    assert_eq!(d.firing_angles(1000, 5, 3), (1005, 1002));
}

#[test]
fn a_revolution_is_finished_where_the_angle_wraps() {
    let mut d = ready(false, false);
    assert!(feed(&mut d, &msop(&turning(35700)), 0.0, 1.0, None).is_empty());
    assert_eq!(d.points.len(), 384);
    let out = feed(&mut d, &msop(&turning(35940)), 100.0, 1.0, None);
    assert_eq!(out.len(), 1);
    assert_eq!(out[0].points.len(), 384 + 3 * 32);
    assert_eq!(d.points.len(), 9 * 32);
    assert_eq!(f64::from_bits(out[0].stamp), 102.31);
    assert_eq!(f64::from_bits(d.first_point_ts), 103.0);
    assert_eq!(out[0].points[40].intensity, ((1 + 8) as f32).to_bits());
}

#[test]
fn a_revolution_can_be_stamped_with_its_first_point() {
    let mut d = ready(false, true);
    feed(&mut d, &msop(&turning(35940)), 0.0, 1.0, None);
    let out = feed(&mut d, &msop(&turning(35940)), 50.0, 1.0, None);
    assert_eq!(out.len(), 1);
    assert_eq!(f64::from_bits(out[0].stamp), 3.0);
}

#[test]
fn points_out_of_range_are_blank_or_left_out() {
    for dense in [false, true] {
        let mut d = ready(dense, false);
        feed(&mut d, &msop(&turning(100)), 0.0, 500.0, None);
        assert_eq!(d.points.len(), if dense { 0 } else { 384 });
        assert!(d.points.iter().all(|p| f32::from_bits(p.x).is_nan() && p.intensity == 0));
        assert!(d.range_graph.nodes.iter().all(|n| !n.valid));
        let out = feed(&mut d, &msop(&turning(35940)), 0.0, 500.0, None);
        assert_eq!(out.len(), if dense { 0 } else { 1 });
    }
}

#[test]
fn low_points_can_be_left_out() {
    let mut d = ready(true, false);
    feed(&mut d, &msop(&turning(100)), 0.0, 1.0, Some(0.0));
    assert_eq!(d.points.len(), 12 * 16);
    assert!(d.points.iter().all(|p| f32::from_bits(p.z) >= 0.0));
}

#[test]
fn points_outside_the_section_are_left_out() {
    let mut cfg = config(true, false);
    cfg.start_angle = 0;
    cfg.end_angle = 150;
    let mut d = RsHeliosDecoder::new(cfg);
    d.decode_difop(&difop(600, (0, 36000), 1));
    feed(&mut d, &msop(&turning(100)), 0.0, 1.0, None);
    let mut expect = 0;
    for b in 0..12i32 {
        for c in 0..32i32 {
            let h = if c % 2 == 1 { -c } else { c };
            if (100 + 20 * b + c / 2 + h) < 150 {
                expect += 1;
            }
        }
    }
    assert_eq!(d.points.len(), expect);
}

#[test]
fn cells_hold_the_points_they_name() {
    let mut d = ready(false, false);
    feed(&mut d, &msop(&turning(100)), 0.0, 1.0, None);
    let mut seen = vec![false; d.points.len()];
    let mut held = 0;
    for (i, n) in d.range_graph.nodes.iter().enumerate() {
        if n.valid {
            let p = n.point_idx as usize;
            assert!(!seen[p]);
            seen[p] = true;
            held += 1;
            assert_eq!((d.points[p].x, d.points[p].y, d.points[p].z), (n.x, n.y, n.z));
            assert_eq!(i % NUM_COLS, (n.azimuth_centideg / 10) as usize % NUM_COLS);
            assert_eq!(i / NUM_COLS, 31 - p % 32);
        }
    }
    assert!(held > 300);
}

#[test]
fn a_cut_packet_adds_its_first_blocks_only() {
    let mut d = ready(false, false);
    let mut raw = msop(&turning(100));
    raw[42 + 500] = 0;
    assert!(feed(&mut d, &raw, 0.0, 1.0, None).is_empty());
    assert_eq!(d.points.len(), 5 * 32);
}

#[test]
fn configured_limits_reach_the_decoder() {
    let c = DriverConfig::parse("user_layer_bytes: 1\ndense_points: true\n");
    let d = RsHeliosDecoder::new(c.decoder_config(
        0.5f32.to_bits(),
        9.0f32.to_bits(),
        9000,
        27000,
    ));
    assert_eq!(d.cfg.user_layer_bytes, 1);
    assert_eq!((d.distance_section.min, d.distance_section.max), (0.5f32.to_bits(), 9.0f32.to_bits()));
    assert_eq!((d.scan_section.start, d.scan_section.end), (9000, 27000));
    assert!(!d.scan_section.full_round);
}

#[test]
fn packets_are_stamped_by_the_configured_clock() {
    let p = parse_msop(&msop(&turning(0)), 20, false);
    let mut cfg = config(false, false);
    assert_eq!(cfg.clock(&p), Clock::Sensor { sec: 0x0102, usec: 0x0304 });
    cfg.use_lidar_clock = false;
    assert_eq!(cfg.clock(&p), Clock::Host);
}

#[test]
fn a_new_decoder_has_no_calibration() {
    let d = RsHeliosDecoder::new(config(false, false));
    assert!(!d.angles_ready && d.points.is_empty());
    assert!(d.chan_angles.vert.is_empty());
    assert!(d.chan_angles.horiz.is_empty());
    assert!(d.chan_angles.user_chan.is_empty());
    assert_eq!(d.ring_vert, vec![0; 32]);
}

#[test]
fn cloud_and_graph_belong_together() {
    let mut d = ready(false, false);
    let mut frames = Vec::new();
    for k in 0..4u16 {
        frames.extend(feed(&mut d, &msop(&turning(35700 + 60 * k)), k as f64, 1.0, None));
        d.decode_difop(&difop(300, (0, 36000), 1));
    }
    assert!(!frames.is_empty());
    for f in &frames {
        let c = build_point_cloud(&f.points, 0, 0, "f", false);
        let mut seen = vec![false; c.width as usize];
        for n in f.range_graph.nodes.iter().filter(|n| n.valid) {
            let i = n.point_idx as usize;
            assert!(!seen[i]);
            seen[i] = true;
            assert_eq!(&c.data[16 * i..16 * i + 4], &n.x.to_le_bytes());
            assert_eq!(&c.data[16 * i + 4..16 * i + 8], &n.y.to_le_bytes());
            assert_eq!(&c.data[16 * i + 8..16 * i + 12], &n.z.to_le_bytes());
        }
        assert!(seen.iter().any(|&s| s));
    }
}

#[test]
fn extra_layers_change_no_revolution() {
    let mut cfg = config(false, false);
    cfg.user_layer_bytes = 7;
    cfg.tail_layer_bytes = 4;
    let mut plain = ready(false, false);
    let mut layered = RsHeliosDecoder::new(cfg);
    layered.decode_difop(&difop(600, (0, 36000), 1));
    let mut revolutions = 0;
    for k in 0..4u16 {
        let raw = msop(&turning(35700 + 60 * k));
        let mut wrapped = vec![k as u8; 7];
        wrapped.extend(&raw);
        wrapped.extend([9, 8, 7, 6]);
        let a = feed(&mut plain, &raw, k as f64, 1.0, None);
        let b = feed(&mut layered, &wrapped, k as f64, 1.0, None);
        assert_eq!(a.len(), b.len());
        for (f, g) in a.iter().zip(&b) {
            revolutions += 1;
            assert_eq!(f.stamp, g.stamp);
            let bytes = |x: &Frame| build_point_cloud(&x.points, 0, 0, "f", false).data;
            assert_eq!(bytes(f), bytes(g));
            for (m, n) in f.range_graph.nodes.iter().zip(&g.range_graph.nodes) {
                assert_eq!((m.valid, m.point_idx, m.x, m.y, m.z), (n.valid, n.point_idx, n.x, n.y, n.z));
            }
        }
        assert!(layered.read_msop(&raw).is_none() && plain.read_msop(&wrapped).is_none());
    }
    assert!(revolutions > 0);
}
