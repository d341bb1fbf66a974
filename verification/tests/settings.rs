use rslidar::config::{default_config_path, find_scalar, scalar_or, DriverConfig};
use rslidar::text::is_white;

#[test]
fn white_space_is_unicode_white_space() {
    for v in 0..=0x10ffffu32 {
        if let Some(c) = char::from_u32(v) {
            assert_eq!(is_white(c), c.is_whitespace());
        }
    }
}

#[test]
fn scalar_is_found_without_comment_and_space() {
    let text = "# head\ncommon:\n  msop_port: 6688   # the port\n\tframe : x\n";
    assert_eq!(find_scalar(text, "msop_port"), Some("6688".to_string()));
    assert_eq!(find_scalar(text, "frame"), None);
    assert_eq!(find_scalar(text, "common"), None);
    assert_eq!(find_scalar(text, "missing"), None);
    assert_eq!(find_scalar("", "a"), None);
    assert_eq!(find_scalar("a:b", "a"), Some("b".to_string()));
}

#[test]
fn first_line_that_says_something_wins() {
    let text = "a:\na: # nothing\na: first\na: second";
    assert_eq!(find_scalar(text, "a"), Some("first".to_string()));
}

#[test]
fn upper_text_wins_over_lower_text() {
    let upper = "x: 1\ny:";
    let lower = "x: 2\ny: 3";
    let both = format!("{upper}\n{lower}");
    assert_eq!(find_scalar(&both, "x"), find_scalar(upper, "x"));
    assert_eq!(find_scalar(&both, "y"), find_scalar(lower, "y"));
}

#[test]
fn carriage_returns_and_inner_spaces() {
    assert_eq!(find_scalar("a: one two \r\nb: 3\r\n", "a"), Some("one two".to_string()));
    assert_eq!(find_scalar("a: one two \r\nb: 3\r\n", "b"), Some("3".to_string()));
    assert_eq!(find_scalar("\u{a0}clé: été # x", "clé"), Some("été".to_string()));
    assert_eq!(find_scalar("ab: 1", "a"), None);
    assert_eq!(find_scalar("a: b: c", "a"), Some("b: c".to_string()));
    assert_eq!(find_scalar(": v", ""), Some("v".to_string()));
}

fn check_u16(s: &str) {
    let text = format!("k: {s}");
    let expect = find_scalar(&text, "k").and_then(|v| v.parse::<u16>().ok()).unwrap_or(77);
    assert_eq!(scalar_or(&text, "k", 77u16), expect);
}

#[test]
fn numbers_read_as_they_are_written() {
    for s in [
        "0", "7", "65535", "65536", "+5", "-5", "-0", "+", "++1", "007", "000000065535", "12a",
        "1 2", "99999999999999999999", "", "٣", "5_0", "0x10",
    ] {
        check_u16(s);
    }
    for n in 0..70000u32 {
        if n % 7 == 0 {
            check_u16(&n.to_string());
        }
    }
    assert_eq!(scalar_or("p: 6699", "p", 1u16), 6699);
}

#[test]
fn words_read_as_they_are_written() {
    for s in ["true", "false", "True", "1", "yes", "", "truefalse"] {
        for default in [true, false] {
            let text = format!("k: {s}");
            let expect =
                find_scalar(&text, "k").and_then(|v| v.parse::<bool>().ok()).unwrap_or(default);
            assert_eq!(scalar_or(&text, "k", default), expect);
        }
    }
    assert!(scalar_or("k: true", "k", false));
    assert!(!scalar_or("k: false", "k", true));
}

#[test]
fn empty_configuration_has_defaults() {
    let c = DriverConfig::parse("");
    assert_eq!(c.host_address, "0.0.0.0");
    assert_eq!(c.lidar_type, "RSHELIOS");
    assert!(c.is_known_lidar());
    assert_eq!((c.msop_port, c.difop_port), (6699, 7788));
    assert_eq!((c.user_layer_bytes, c.tail_layer_bytes), (0, 0));
    assert!(!c.use_lidar_clock && !c.dense_points && !c.ts_first_point && !c.pcap_repeat);
    assert!(c.wait_for_difop);
    assert_eq!(c.frame_id, "rslidar");
    assert!(c.min_distance.is_none() && c.max_distance.is_none());
    assert!(c.start_angle.is_none() && c.end_angle.is_none());
    assert!(c.pcap_path.is_none() && c.pcap_rate.is_none());
}

#[test]
fn full_configuration() {
    let text = "lidar:\n  - driver:\n      lidar_type: RSM1\n      host_address: 10.0.0.1\n      \
                msop_port: 1\n      difop_port: 2\n      user_layer_bytes: 3\n      \
                tail_layer_bytes: 4\n      min_distance: 0.5 # m\n      max_distance: 99\n      \
                use_lidar_clock: true\n      dense_points: true\n      ts_first_point: true\n      \
                start_angle: 10\n      end_angle: 350.5\n      ros_frame_id: /f\n      \
                pcap_path: /a b.pcap\n      pcap_rate: 2.0\n      pcap_repeat: true\n";
    let c = DriverConfig::parse(text);
    assert_eq!(c.lidar_type, "RSM1");
    assert!(!c.is_known_lidar());
    assert_eq!(c.host_address, "10.0.0.1");
    assert_eq!((c.msop_port, c.difop_port), (1, 2));
    assert_eq!((c.user_layer_bytes, c.tail_layer_bytes), (3, 4));
    assert_eq!(c.min_distance, Some("0.5".to_string()));
    assert_eq!(c.max_distance, Some("99".to_string()));
    assert!(c.use_lidar_clock && c.dense_points && c.ts_first_point && c.pcap_repeat);
    assert_eq!(c.start_angle, Some("10".to_string()));
    assert_eq!(c.end_angle, Some("350.5".to_string()));
    assert_eq!(c.frame_id, "/f");
    assert_eq!(c.pcap_path, Some("/a b.pcap".to_string()));
    assert_eq!(c.pcap_rate, Some("2.0".to_string()));
    let d = c.decoder_config(1, 2, 3, 4);
    assert_eq!((d.user_layer_bytes, d.tail_layer_bytes), (3, 4));
    assert_eq!((d.min_distance, d.max_distance, d.start_angle, d.end_angle), (1, 2, 3, 4));
    assert!(d.wait_for_difop && d.use_lidar_clock && d.dense_points && d.ts_first_point);
}

#[test]
fn an_empty_path_means_the_live_sensor() {
    assert!(DriverConfig::parse("pcap_path:   # none\n").pcap_path.is_none());
    assert_eq!(DriverConfig::parse("pcap_path: x.pcap").pcap_path, Some("x.pcap".to_string()));
}

#[test]
fn configuration_path_below_a_directory() {
    for dir in ["/home/me", "/home/me/", "", "rel", "/"] {
        let mut p = std::path::PathBuf::from(dir);
        p.push("src/rslidar/config/config.yaml");
        assert_eq!(default_config_path(dir), p.to_string_lossy().to_string());
    }
}
