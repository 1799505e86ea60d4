use dwt::fixed::Fixed;
use dwt::float::Float;
use dwt::wavelet::Haar;
use dwt::{forward, inverse};

const ONE: i64 = 4294967296;

fn from_f64(value: f64) -> Fixed {
    Fixed {
        bits: (value * ONE as f64).round() as i64,
    }
}

fn to_f64(value: Fixed) -> f64 {
    value.bits as f64 / ONE as f64
}

#[test]
fn fixed_arithmetic() {
    let two = Fixed { bits: 2 * ONE };
    let three = Fixed { bits: 3 * ONE };
    assert_eq!(two.plus(three), Fixed { bits: 5 * ONE });
    assert_eq!(two.times(three), Fixed { bits: 6 * ONE });
    assert_eq!(three.negate(), Fixed { bits: -3 * ONE });
    assert_eq!(Fixed::zero(), Fixed { bits: 0 });
    let c = Fixed::frac_1_sqrt_2();
    assert_eq!(c.bits, 3037000500);
    assert!((to_f64(c) - std::f64::consts::FRAC_1_SQRT_2).abs() < 1e-9);
    let half = c.times(c);
    assert!((to_f64(half) - 0.5).abs() < 1e-9);
}

#[test]
fn fixed_arithmetic_saturates() {
    let top = Fixed { bits: i64::MAX };
    let bottom = Fixed { bits: i64::MIN };
    let one = Fixed { bits: ONE };
    assert_eq!(top.plus(one), top);
    assert_eq!(bottom.plus(one.negate()), bottom);
    assert_eq!(bottom.negate(), top);
    let big = Fixed { bits: i64::MAX / 2 };
    assert_eq!(big.times(big), top);
    assert_eq!(big.times(big.negate()), bottom);
}

#[test]
fn forward_haar_fixed_constant() {
    let wavelet = Haar::new::<Fixed>();
    let four = Fixed { bits: 4 * ONE };
    let mut data = vec![four, four, four, four];
    assert!(forward(&mut data, &wavelet, 1).is_ok());
    assert_eq!(data[0].bits, 24296004000);
    assert_eq!(data[1].bits, 24296004000);
    assert_eq!(data[2].bits, 0);
    assert_eq!(data[3].bits, 0);
    assert!((to_f64(data[0]) - 4.0 * std::f64::consts::SQRT_2).abs() < 1e-6);
}

#[test]
fn round_trip_fixed_multi_level() {
    let wavelet = Haar::new::<Fixed>();
    let original = [1.0, 2.0, 3.0, 4.0, 5.0, 6.0, 7.0, 8.0];
    let mut data: Vec<Fixed> = original.iter().map(|&v| from_f64(v)).collect();
    assert!(forward(&mut data, &wavelet, 3).is_ok());
    assert!(inverse(&mut data, &wavelet, 3).is_ok());
    for (a, e) in data.iter().zip(original.iter()) {
        assert!(
            (to_f64(*a) - e).abs() < 1e-4,
            "expected {} near {}",
            to_f64(*a),
            e
        );
    }
}
