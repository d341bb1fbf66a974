use rslidar::capture::{
    next_record, open_capture, playback_rate, CaptureFault, PlayAction, Playback, READ_WINDOW,
};
use rslidar::ethernet::{route_frame, udp_payload_from_eth_frame, RawPacket};

fn frame(vlan: bool, options: usize, proto: u8, port: u16, payload: &[u8]) -> Vec<u8> {
    let mut f = vec![0u8; 12];
    if vlan {
        f.extend_from_slice(&[0x81, 0x00, 0x00, 0x05]);
    }
    f.extend_from_slice(&[0x08, 0x00]);
    let mut ip = vec![0u8; 20 + options];
    ip[0] = 0x40 | ((20 + options) / 4) as u8;
    ip[9] = proto;
    f.extend_from_slice(&ip);
    f.extend_from_slice(&[0xaa, 0xbb]);
    f.extend_from_slice(&port.to_be_bytes());
    f.extend_from_slice(&[0, 0, 0, 0]);
    f.extend_from_slice(payload);
    f
}

#[test]
fn udp_payload_of_plain_and_tagged_frames() {
    for vlan in [false, true] {
        for options in [0usize, 4, 40] {
            let f = frame(vlan, options, 17, 6699, &[1, 2, 3]);
            let (port, payload) = udp_payload_from_eth_frame(&f).unwrap();
            assert_eq!(port, 6699);
            assert_eq!(payload, &[1u8, 2, 3]);
        }
    }
    let empty = frame(false, 0, 17, 1, &[]);
    assert_eq!(udp_payload_from_eth_frame(&empty).unwrap().1.len(), 0);
}

#[test]
fn frames_without_udp_have_no_payload() {
    assert!(udp_payload_from_eth_frame(&frame(false, 0, 6, 80, &[1])).is_none());
    let mut f = frame(false, 0, 17, 80, &[1]);
    f[13] = 6;
    assert!(udp_payload_from_eth_frame(&f).is_none());
    let mut f = frame(true, 0, 17, 80, &[1]);
    f[17] = 6;
    assert!(udp_payload_from_eth_frame(&f).is_none());
    let mut f = frame(false, 0, 17, 80, &[1]);
    f[14] = 0x44;
    assert!(udp_payload_from_eth_frame(&f).is_none());
}

#[test]
fn frames_that_are_cut_short_have_no_payload() {
    for vlan in [false, true] {
        let f = frame(vlan, 0, 17, 80, &[]);
        for n in 0..f.len() {
            assert!(udp_payload_from_eth_frame(&f[..n]).is_none());
        }
        assert!(udp_payload_from_eth_frame(&f).is_some());
    }
}

#[test]
fn frames_are_routed_by_port() {
    let f = frame(false, 0, 17, 6699, &[7]);
    assert!(matches!(route_frame(&f, 6699, 7788), Some(RawPacket::Msop(d)) if d == vec![7]));
    assert!(matches!(route_frame(&f, 7788, 6699), Some(RawPacket::Difop(d)) if d == vec![7]));
    assert!(matches!(route_frame(&f, 6699, 6699), Some(RawPacket::Msop(_))));
    assert!(route_frame(&f, 1, 2).is_none());
    assert!(route_frame(&f[..20], 6699, 7788).is_none());
}

fn word(v: u32, big: bool) -> Vec<u8> {
    if big {
        v.to_be_bytes().to_vec()
    } else {
        v.to_le_bytes().to_vec()
    }
}

fn capture(big: bool, nano: bool, snaplen: u32, records: &[(u32, u32, u32, u32, Vec<u8>)]) -> Vec<u8> {
    let magic = if nano { 0xa1b2_3c4d } else { 0xa1b2_c3d4 };
    let mut c = word(magic, big);
    c.extend_from_slice(&[0; 12]);
    c.extend(word(snaplen, big));
    c.extend(word(1, big));
    for (sec, frac, incl, orig, data) in records {
        for v in [sec, frac, incl, orig] {
            c.extend(word(*v, big));
        }
        c.extend_from_slice(data);
    }
    c
}

#[test]
fn captures_in_every_format() {
    for big in [false, true] {
        for nano in [false, true] {
            let c = capture(
                big,
                nano,
                100,
                &[(5, 250, 3, 3, vec![1, 2, 3]), (6, 999_999, 0, 9, vec![]), (4, 1, 1, 1, vec![9])],
            );
            assert_eq!(open_capture(&c), Ok(()));
            let unit = if nano { 1 } else { 1000 };
            let a = next_record(&c, 24).unwrap().ok().unwrap();
            assert_eq!((a.secs, a.nanos), (5, 250 * unit));
            assert_eq!(a.data, vec![1, 2, 3]);
            assert_eq!(a.next, 43);
            let b = next_record(&c, a.next).unwrap().ok().unwrap();
            assert_eq!((b.secs, b.nanos, b.data.len()), (6, 999_999 * unit, 0));
            let d = next_record(&c, b.next).unwrap().ok().unwrap();
            assert_eq!((d.secs, d.data, d.next), (4, vec![9], c.len()));
            assert!(next_record(&c, c.len()).is_none());
        }
    }
}

#[test]
fn captures_that_do_not_open() {
    let c = capture(false, false, 100, &[]);
    assert_eq!(open_capture(&c), Ok(()));
    assert_eq!(open_capture(&c[..23]), Err(CaptureFault::Incomplete));
    assert_eq!(open_capture(&[]), Err(CaptureFault::Incomplete));
    let mut wrong = c.clone();
    wrong[0] = 0;
    assert_eq!(open_capture(&wrong), Err(CaptureFault::Invalid));
}

fn fault(c: &[u8]) -> CaptureFault {
    match next_record(c, 24) {
        Some(Err(f)) => f,
        _ => panic!("no fault"),
    }
}

#[test]
fn records_that_cannot_be_read() {
    let good = capture(false, false, 100, &[(1, 1, 2, 2, vec![1, 2])]);
    for n in 25..good.len() {
        assert_eq!(fault(&good[..n]), CaptureFault::Incomplete);
    }
    let late = capture(false, false, 100, &[(1, 1_000_000, 0, 0, vec![])]);
    assert_eq!(fault(&late), CaptureFault::Invalid);
    let overflow = capture(false, false, 100, &[(1, u32::MAX, 0, 0, vec![])]);
    assert_eq!(fault(&overflow), CaptureFault::Invalid);
    let late = capture(true, true, 100, &[(1, 1_000_000_000, 0, 0, vec![])]);
    assert_eq!(fault(&late), CaptureFault::Invalid);
    let long = capture(true, false, 1, &[(1, 0, 2, 2, vec![1, 2])]);
    assert_eq!(fault(&long), CaptureFault::Invalid);
    let wire = capture(true, false, 5, &[(1, 0, 2, 6, vec![1, 2])]);
    assert_eq!(fault(&wire), CaptureFault::Invalid);
    let more = capture(true, false, 5, &[(1, 0, 2, 1, vec![1, 2])]);
    assert_eq!(fault(&more), CaptureFault::Invalid);
}

fn record(sec: u32, frac: u32, data: Vec<u8>) -> (u32, u32, u32, u32, Vec<u8>) {
    (sec, frac, data.len() as u32, data.len() as u32, data)
}

fn plays(p: &mut Playback, c: &[u8]) -> (u128, Option<(bool, Vec<u8>)>) {
    match p.step(c, 6699, 7788) {
        PlayAction::Play { offset, packet } => (
            offset,
            packet.map(|q| match q {
                RawPacket::Msop(d) => (true, d),
                RawPacket::Difop(d) => (false, d),
            }),
        ),
        PlayAction::Stop { .. } => panic!("stopped"),
    }
}

fn stops(p: &mut Playback, c: &[u8]) -> Option<CaptureFault> {
    match p.step(c, 6699, 7788) {
        PlayAction::Stop { fault } => fault,
        PlayAction::Play { .. } => panic!("played on"),
    }
}

#[test]
fn playback_is_paced_by_the_first_record() {
    let c = capture(
        false,
        true,
        100,
        &[record(100, 5, vec![]), record(101, 0, vec![]), record(99, 0, vec![]), record(100, 5, vec![])],
    );
    let mut p = Playback::new();
    let offsets: Vec<u128> = (0..4).map(|_| plays(&mut p, &c).0).collect();
    assert_eq!(offsets, vec![0, 999_999_995, 0, 0]);
    assert_eq!(p.t0, Some(100_000_000_005));
    assert_eq!(p.at, c.len());
    assert_eq!(stops(&mut p, &c), None);
    assert_eq!(Playback::wait(10, 4), Some(6));
    assert_eq!(Playback::wait(4, 4), None);
    assert_eq!(Playback::wait(3, 4), None);
}

#[test]
fn routed_records_before_the_first_fault_are_handed_on() {
    let good = [
        record(1, 0, frame(false, 0, 17, 6699, &[1])),
        record(1, 0, frame(false, 0, 17, 80, &[2])),
        record(1, 0, frame(true, 0, 17, 7788, &[3])),
        record(1, 0, vec![0; 4]),
        record(1, 0, frame(false, 0, 17, 6699, &[4])),
    ];
    let mut all = good.to_vec();
    all.push(record(1, 2_000_000, vec![]));
    all.push(record(1, 0, frame(false, 0, 17, 6699, &[5])));
    let c = capture(true, false, 100, &all);
    let mut p = Playback::new();
    let given: Vec<Option<(bool, Vec<u8>)>> = (0..5).map(|_| plays(&mut p, &c).1).collect();
    assert_eq!(
        given,
        vec![Some((true, vec![1])), None, Some((false, vec![3])), None, Some((true, vec![4]))]
    );
    assert_eq!(stops(&mut p, &c), Some(CaptureFault::Invalid));
    assert_eq!(stops(&mut p, &c), Some(CaptureFault::Invalid));
    let cut = &capture(true, false, 100, &good)[..60];
    let mut p = Playback::new();
    assert_eq!(stops(&mut p, cut), Some(CaptureFault::Incomplete));
}

#[test]
fn packets_count_when_they_are_received() {
    let mut p = Playback::new();
    assert!(p.handed_on(true));
    assert!(p.handed_on(true));
    assert!(!p.handed_on(false));
    assert_eq!((p.sent, p.at), (2, 24));
    assert!(Playback::again(false).is_none());
    let q = Playback::again(true).unwrap();
    assert_eq!((q.at, q.t0, q.sent), (24, None, 0));
}

#[test]
fn records_longer_than_the_window_are_cut_short() {
    for (extra, fits) in [(0usize, true), (1, false)] {
        let n = READ_WINDOW - 16 + extra;
        let c = capture(false, false, u32::MAX, &[record(1, 0, vec![7; n])]);
        match next_record(&c, 24) {
            Some(Ok(r)) => assert!(fits && r.data.len() == n),
            Some(Err(f)) => assert!(!fits && f == CaptureFault::Incomplete),
            None => panic!("no record"),
        }
    }
}

#[test]
fn playback_rate_is_positive() {
    for r in [2.0f32, 1.0, 0.25, f32::INFINITY, 1e-40] {
        assert_eq!(playback_rate(r.to_bits()), r.to_bits());
    }
    for r in [0.0f32, -0.0, -1.0, f32::NAN, f32::NEG_INFINITY] {
        assert_eq!(playback_rate(r.to_bits()), 1.0f32.to_bits());
    }
}
