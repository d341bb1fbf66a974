use rslidar::bytes::{
    be_u16, be_u32, be_u48, push_all, push_le, read_le, to_pattern, to_signed,
};
use rslidar::capture::REAL_TIME;
use rslidar::decoder::NAN_BITS;
use rslidar::distance::{DistanceSection, DISTANCE_MAX_DEFAULT, DISTANCE_MIN_DEFAULT};
use rslidar::double::{is_double_at_most, is_double_less};
use rslidar::grid::{
    HEIGHT_CELLS, INFLATION_RADIUS, MAX_OBSTACLE_HEIGHT, MIN_OBSTACLE_HEIGHT, OBSTACLE_MAX_RANGE,
    ORIGIN, RESOLUTION, ROBOT_RADIUS, WIDTH_CELLS,
};
use rslidar::params::{FIVE, HALF, HUNDREDTH, ONE, TWENTIETH};
use rslidar::single::{
    is_at_most, is_less, is_nan, negate, INFINITY_BITS, NEG_INFINITY_BITS,
};

fn singles() -> Vec<f32> {
    vec![
        0.0,
        -0.0,
        1.0,
        -1.0,
        0.1,
        -0.2,
        180.0,
        1e-45,
        -1e-45,
        f32::MIN_POSITIVE,
        f32::MAX,
        f32::MIN,
        f32::INFINITY,
        f32::NEG_INFINITY,
        f32::NAN,
        -f32::NAN,
        f32::from_bits(0x7f80_0001),
        f32::from_bits(0xffff_ffff),
    ]
}

#[test]
fn single_order_is_the_numbers_order() {
    for a in singles() {
        assert_eq!(is_nan(a.to_bits()), a.is_nan());
        for b in singles() {
            assert_eq!(is_less(a.to_bits(), b.to_bits()), a < b);
            assert_eq!(is_at_most(a.to_bits(), b.to_bits()), a <= b);
        }
    }
}

#[test]
fn negation_flips_the_sign() {
    for a in singles() {
        assert_eq!(negate(a.to_bits()), (-a).to_bits());
        assert_eq!(negate(negate(a.to_bits())), a.to_bits());
    }
    assert!(is_less(negate(2.0f32.to_bits()), negate(1.0f32.to_bits())));
}

#[test]
fn double_order_is_the_numbers_order() {
    let values: Vec<f64> = vec![
        0.0,
        -0.0,
        0.3,
        0.55,
        -25.0,
        25.0,
        5e-324,
        -5e-324,
        f64::MAX,
        f64::MIN,
        f64::INFINITY,
        f64::NEG_INFINITY,
        f64::NAN,
        -f64::NAN,
    ];
    for &a in values.iter() {
        for &b in values.iter() {
            assert_eq!(is_double_less(a.to_bits(), b.to_bits()), a < b);
            assert_eq!(is_double_at_most(a.to_bits(), b.to_bits()), a <= b);
        }
    }
}

#[test]
fn named_patterns_are_the_numbers() {
    assert_eq!(INFINITY_BITS, f32::INFINITY.to_bits());
    assert_eq!(NEG_INFINITY_BITS, f32::NEG_INFINITY.to_bits());
    assert_eq!(DISTANCE_MIN_DEFAULT, 0.1f32.to_bits());
    assert_eq!(DISTANCE_MAX_DEFAULT, 180.0f32.to_bits());
    assert!(f32::from_bits(NAN_BITS).is_nan());
    assert_eq!(REAL_TIME, 1.0f32.to_bits());
    assert_eq!(FIVE, 5.0f32.to_bits());
    assert_eq!(ONE, 1.0f32.to_bits());
    assert_eq!(HALF, 0.5f32.to_bits());
    assert_eq!(TWENTIETH, 0.05f32.to_bits());
    assert_eq!(HUNDREDTH, 0.01f32.to_bits());
    assert_eq!(MIN_OBSTACLE_HEIGHT, (-0.2f32).to_bits());
    assert_eq!(MAX_OBSTACLE_HEIGHT, 2.0f32.to_bits());
    assert_eq!(OBSTACLE_MAX_RANGE, 15.0f32.to_bits());
    assert_eq!(ROBOT_RADIUS, 0.3f64.to_bits());
    assert_eq!(INFLATION_RADIUS, 0.55f64.to_bits());
    assert_eq!(RESOLUTION, 0.05f64.to_bits());
    assert_eq!(ORIGIN, (-25.0f64).to_bits());
    assert_eq!(WIDTH_CELLS, (50.0f64 / 0.05) as usize);
    assert_eq!(HEIGHT_CELLS, (50.0f64 / 0.05) as usize);
}

#[test]
fn big_endian_values() {
    assert_eq!(be_u16(&[0x12, 0x34, 0x56]), 0x1234);
    assert_eq!(be_u32(&[0x12, 0x34, 0x56, 0x78]), 0x1234_5678);
    assert_eq!(be_u48(&[1, 2, 3, 4, 5, 6, 7]), 0x0102_0304_0506);
    assert_eq!(be_u48(&[0xff; 6]), 0xffff_ffff_ffff);
}

#[test]
fn little_endian_bytes_read_back() {
    let mut buf: Vec<u8> = vec![9];
    push_le(&mut buf, 0x1234_5678);
    assert_eq!(buf, vec![9, 0x78, 0x56, 0x34, 0x12]);
    assert_eq!(read_le(&buf, 1), 0x1234_5678);
    push_all(&mut buf, &[1, 2]);
    assert_eq!(buf.len(), 7);
    assert_eq!(buf[6], 2);
}

#[test]
fn patterns_read_back() {
    for v in [0, 1, -1, 7, -2, i32::MIN, i32::MAX] {
        assert_eq!(to_pattern(v), v as u32);
        assert_eq!(to_signed(to_pattern(v)), v);
    }
}

#[test]
fn distance_defaults_stand_in_for_zero() {
    let s = DistanceSection::new(0, 0);
    assert_eq!((s.min, s.max), (0.1f32.to_bits(), 180.0f32.to_bits()));
    let s = DistanceSection::new((-3.0f32).to_bits(), f32::NAN.to_bits());
    assert_eq!((s.min, s.max), (0.1f32.to_bits(), 180.0f32.to_bits()));
    let s = DistanceSection::new((-3.0f32).to_bits(), 40.0f32.to_bits());
    assert_eq!((s.min, s.max), (0, 40.0f32.to_bits()));
    let s = DistanceSection::new(0.5f32.to_bits(), 0);
    assert_eq!((s.min, s.max), (0.5f32.to_bits(), 0));
    assert!(!s.contains(1.0f32.to_bits()));
}

#[test]
fn distance_limits_are_kept() {
    let s = DistanceSection::new(0.5f32.to_bits(), 2.0f32.to_bits());
    for (d, kept) in
        [(0.5f32, true), (2.0, true), (1.0, true), (0.49, false), (2.01, false), (f32::NAN, false)]
    {
        assert_eq!(s.contains(d.to_bits()), kept);
    }
}
