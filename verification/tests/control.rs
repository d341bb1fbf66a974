use rslidar::cloud::VizPoint;
use rslidar::lifecycle::{
    point_count, transition_label, Action, Event, Phase, RETRY_MS, SETTLE_MS,
};
use rslidar::params::{
    key_tap, knob_step, tune_seg_params, tuning_keys, Key, Knob, SegParams, Tap,
};
use rslidar::view::{is_reported, paint, view_position, Paint};

#[test]
fn node_is_brought_up() {
    let mut p = Phase::start();
    assert_eq!(p.action(), Action::Look);
    p = p.step(Event::Looked(false));
    assert_eq!(p.action(), Action::Rest(RETRY_MS));
    p = p.step(Event::Rested);
    assert_eq!(p, Phase::Waiting(1));
    p = p.step(Event::Looked(true));
    assert_eq!(p.action(), Action::Request(1));
    assert_eq!(transition_label(1), "configure");
    p = p.step(Event::Answered(true));
    assert_eq!(p.action(), Action::Rest(SETTLE_MS));
    p = p.step(Event::Rested);
    assert_eq!(p.action(), Action::Request(3));
    assert_eq!(transition_label(3), "activate");
    p = p.step(Event::Answered(true));
    assert_eq!(p.action(), Action::Watch);
    assert_eq!(p.step(Event::Answered(false)), Phase::Monitoring);
    assert_eq!((RETRY_MS, SETTLE_MS), (200, 500));
}

#[test]
fn refused_transitions_end_the_run() {
    for configured in [false, true] {
        let mut p = Phase::start().step(Event::Looked(true)).step(Event::Answered(configured));
        if configured {
            p = p.step(Event::Rested).step(Event::Answered(false));
        }
        assert_eq!(p, Phase::Failed);
        assert_eq!(p.action(), Action::Fail);
        assert_eq!(p.step(Event::Looked(true)), Phase::Failed);
    }
}

#[test]
fn service_is_looked_for_so_often() {
    let mut p = Phase::start();
    let mut looks = 0;
    while p.action() == Action::Look {
        looks += 1;
        p = p.step(Event::Looked(false)).step(Event::Rested);
    }
    assert_eq!(looks, 150);
    assert_eq!(p.action(), Action::GiveUp);
}

#[test]
fn service_found_at_the_last_look() {
    let mut p = Phase::start();
    for _ in 0..149 {
        p = p.step(Event::Looked(false)).step(Event::Rested);
    }
    assert_eq!(p.step(Event::Looked(true)), Phase::Configuring);
}

#[test]
fn events_out_of_turn_change_nothing() {
    assert_eq!(Phase::Waiting(3).step(Event::Rested), Phase::Waiting(3));
    assert_eq!(Phase::Configuring.step(Event::Looked(true)), Phase::Configuring);
    assert_eq!(Phase::Settling.step(Event::Answered(true)), Phase::Settling);
}

#[test]
fn points_of_a_cloud() {
    assert_eq!(point_count(3, 4), 12);
    assert_eq!(point_count(u32::MAX, u32::MAX), 18446744065119617025);
}

#[test]
fn default_thresholds() {
    let p = SegParams::default();
    assert_eq!(f32::from_bits(p.th_d), 5.0);
    assert_eq!(f32::from_bits(p.th_z_deg), 5.0);
    assert_eq!(f32::from_bits(p.th_d_second), 0.5);
    assert_eq!(f32::from_bits(p.k_deg), 1.0);
    assert_eq!(f32::from_bits(p.z_weight), 1.0);
    assert_eq!(p.min_cluster_points, 10);
    assert_eq!(f32::from_bits(p.min_gap_m), 0.5);
    assert!(p.seg_enabled && !p.height_filter_enabled && p.min_height == 0);
}

#[test]
fn keys_turn_their_knobs() {
    let keys = tuning_keys();
    assert_eq!(keys.len(), 14);
    for (i, &k) in keys.iter().enumerate() {
        assert_eq!(key_tap(k).up, i % 2 == 1);
        assert_eq!(key_tap(k).knob, key_tap(keys[i - i % 2]).knob);
    }
    assert_eq!(key_tap(Key::BracketLeft), Tap { knob: Knob::ThD, up: false });
    assert_eq!(key_tap(Key::KeyM), Tap { knob: Knob::MinGap, up: true });
    assert_eq!(key_tap(Key::Digit9), Tap { knob: Knob::MinClusterPoints, up: false });
}

#[test]
fn steps_of_the_knobs() {
    for (k, s) in [
        (Knob::ThD, 0.5f32),
        (Knob::ThZ, 0.5),
        (Knob::ThDSecond, 0.01),
        (Knob::KDeg, 0.05),
        (Knob::ZWeight, 0.05),
        (Knob::MinGap, 0.01),
    ] {
        assert_eq!(knob_step(k), Some(s.to_bits()));
    }
    assert_eq!(knob_step(Knob::MinClusterPoints), None);
}

#[test]
fn steps_down_stop_at_the_floor() {
    for (k, floor) in [
        (Knob::ThD, 0.01f32),
        (Knob::ThZ, 0.05),
        (Knob::ThDSecond, 0.01),
        (Knob::KDeg, 0.0),
        (Knob::MinGap, 0.0),
    ] {
        for moved in [-1.0f32, f32::NAN, 0.3, f32::NEG_INFINITY] {
            let mut p = SegParams::default();
            tune_seg_params(&mut p, Tap { knob: k, up: false }, moved.to_bits());
            assert_eq!(f32::from_bits(p.get(k)), moved.max(floor));
        }
    }
    let mut p = SegParams::default();
    tune_seg_params(&mut p, Tap { knob: Knob::ZWeight, up: false }, (-1.0f32).to_bits());
    assert_eq!(f32::from_bits(p.z_weight), -1.0);
}

#[test]
fn steps_up_have_no_ceiling() {
    for k in [Knob::ThD, Knob::ThZ, Knob::ThDSecond, Knob::KDeg, Knob::ZWeight, Knob::MinGap] {
        let mut p = SegParams::default();
        tune_seg_params(&mut p, Tap { knob: k, up: true }, 77.0f32.to_bits());
        assert_eq!(f32::from_bits(p.get(k)), 77.0);
        assert_eq!(p.min_cluster_points, 10);
    }
}

#[test]
fn cluster_size_is_counted() {
    let mut p = SegParams::default();
    for _ in 0..12 {
        tune_seg_params(&mut p, Tap { knob: Knob::MinClusterPoints, up: false }, 99);
    }
    assert_eq!(p.min_cluster_points, 0);
    tune_seg_params(&mut p, Tap { knob: Knob::MinClusterPoints, up: true }, 99);
    assert_eq!(p.min_cluster_points, 1);
    assert_eq!(f32::from_bits(p.th_d), 5.0);
}

#[test]
fn axes_are_turned_for_the_view() {
    let p = VizPoint { x: 1.0f32.to_bits(), y: 2.0f32.to_bits(), z: 3.0f32.to_bits(), cluster: 4 };
    assert_eq!(
        view_position(&p),
        (1.0f32.to_bits(), 3.0f32.to_bits(), (-2.0f32).to_bits())
    );
    let mut q = p;
    for _ in 0..4 {
        let (x, y, z) = view_position(&q);
        q = VizPoint { x, y, z, cluster: q.cluster };
    }
    assert_eq!(q, p);
}

#[test]
fn clusters_are_painted() {
    let p = VizPoint { x: 0, y: 0, z: 0, cluster: 5 };
    assert_eq!(paint(&p), Paint::Cluster(5));
    assert_eq!(paint(&VizPoint { cluster: 0, ..p }), Paint::Cluster(0));
    assert_eq!(paint(&VizPoint { cluster: -1, ..p }), Paint::Unclustered);
}

#[test]
fn one_frame_in_thirty_is_reported() {
    let seen: Vec<u64> = (0..100).filter(|&n| is_reported(n)).collect();
    assert_eq!(seen, vec![1, 31, 61, 91]);
}

#[test]
fn low_points_are_filtered_if_configured() {
    let mut p = SegParams::default();
    p.min_height = 3;
    assert_eq!(p.height_floor(), None);
    p.height_filter_enabled = true;
    assert_eq!(p.height_floor(), Some(3));
}

#[test]
fn revolutions_with_points_are_segmented_if_configured() {
    let mut p = SegParams::default();
    assert!(p.segments(1) && !p.segments(0));
    p.seg_enabled = false;
    assert!(!p.segments(1));
}
