use dwt::float::Float;
use dwt::wavelet::Haar;
use dwt::{forward, inverse};

/// A double-precision sample for exercising the engine from the outside.
#[derive(Clone, Copy, Debug, PartialEq)]
struct F64(f64);

impl Float for F64 {
    fn add_spec(self, rhs: Self) -> Self {
        F64(self.0 + rhs.0)
    }

    fn mul_spec(self, rhs: Self) -> Self {
        F64(self.0 * rhs.0)
    }

    fn neg_spec(self) -> Self {
        F64(-self.0)
    }

    fn zero_spec() -> Self {
        F64(0.0)
    }

    fn frac_1_sqrt_2_spec() -> Self {
        F64(std::f64::consts::FRAC_1_SQRT_2)
    }

    fn add_zero_left(_x: Self) {
    }

    fn plus(self, rhs: Self) -> Self {
        F64(self.0 + rhs.0)
    }

    fn times(self, rhs: Self) -> Self {
        F64(self.0 * rhs.0)
    }

    fn negate(self) -> Self {
        F64(-self.0)
    }

    fn zero() -> Self {
        F64(0.0)
    }

    fn frac_1_sqrt_2() -> Self {
        F64(std::f64::consts::FRAC_1_SQRT_2)
    }
}

fn to_samples(values: &[f64]) -> Vec<F64> {
    values.iter().map(|&v| F64(v)).collect()
}

fn assert_close(actual: &[F64], expected: &[f64], tolerance: f64) {
    assert_eq!(actual.len(), expected.len());
    for (a, e) in actual.iter().zip(expected.iter()) {
        assert!(
            (a.0 - e).abs() <= tolerance,
            "expected {} within {} of {}",
            a.0,
            tolerance,
            e
        );
    }
}

#[test]
fn haar_coefficients() {
    let wavelet = Haar::new::<F64>();
    let c = std::f64::consts::FRAC_1_SQRT_2;
    assert_eq!(wavelet.length, 2);
    assert_eq!(wavelet.offset, 0);
    assert_eq!(wavelet.dec_lo, vec![F64(c), F64(c)]);
    assert_eq!(wavelet.dec_hi, vec![F64(c), F64(-c)]);
    assert_eq!(wavelet.rec_lo, vec![F64(c), F64(c)]);
    assert_eq!(wavelet.rec_hi, vec![F64(c), F64(-c)]);
}

#[test]
fn forward_haar_level_one_constant() {
    let wavelet = Haar::new::<F64>();
    let mut data = to_samples(&[4.0, 4.0, 4.0, 4.0]);
    assert!(forward(&mut data, &wavelet, 1).is_ok());
    let expected = 4.0 * std::f64::consts::SQRT_2;
    assert_close(&data, &[expected, expected, 0.0, 0.0], 1e-9);
    assert_close(&data, &[5.65685, 5.65685, 0.0, 0.0], 1e-4);
}

#[test]
fn inverse_haar_level_one_constant() {
    let wavelet = Haar::new::<F64>();
    let mut data = to_samples(&[5.65685, 5.65685, 0.0, 0.0]);
    assert!(inverse(&mut data, &wavelet, 1).is_ok());
    assert_close(&data, &[4.0, 4.0, 4.0, 4.0], 1e-4);
}

#[test]
fn forward_haar_level_one_ramp() {
    let wavelet = Haar::new::<F64>();
    let mut data = to_samples(&[1.0, 2.0, 3.0, 4.0]);
    assert!(forward(&mut data, &wavelet, 1).is_ok());
    let c = std::f64::consts::FRAC_1_SQRT_2;
    assert_close(&data, &[3.0 * c, 7.0 * c, -c, -c], 1e-12);
}

#[test]
fn round_trip_multi_level() {
    let wavelet = Haar::new::<F64>();
    let original = [
        1.0, -2.5, 3.25, 0.0, 42.0, -17.5, 8.0, 9.75, -1.0, 2.0, -3.0, 4.0, -5.0, 6.0, -7.0, 8.5,
    ];
    for level in 0..5 {
        let mut data = to_samples(&original);
        assert!(forward(&mut data, &wavelet, level).is_ok());
        assert!(inverse(&mut data, &wavelet, level).is_ok());
        assert_close(&data, &original, 1e-9);
    }
}

#[test]
fn linearity_of_forward() {
    let wavelet = Haar::new::<F64>();
    let xs = [1.0, -2.0, 3.0, 5.0, -8.0, 13.0, -21.0, 34.0];
    let ys = [0.5, 0.25, -0.125, 4.0, 2.0, -1.0, 0.0, 7.0];
    let a = 2.5;
    let b = -1.25;
    let mut combined: Vec<F64> = xs
        .iter()
        .zip(ys.iter())
        .map(|(&x, &y)| F64(a * x + b * y))
        .collect();
    let mut tx = to_samples(&xs);
    let mut ty = to_samples(&ys);
    assert!(forward(&mut combined, &wavelet, 2).is_ok());
    assert!(forward(&mut tx, &wavelet, 2).is_ok());
    assert!(forward(&mut ty, &wavelet, 2).is_ok());
    for k in 0..combined.len() {
        let expected = a * tx[k].0 + b * ty[k].0;
        assert!((combined[k].0 - expected).abs() <= 1e-9);
    }
}

#[test]
fn multi_level_matches_iterated_single_level() {
    let wavelet = Haar::new::<F64>();
    let original = [9.0, -3.0, 5.0, 1.0, 0.5, 2.5, -4.5, 6.0];
    let mut multi = to_samples(&original);
    assert!(forward(&mut multi, &wavelet, 3).is_ok());

    let mut whole = to_samples(&original);
    assert!(forward(&mut whole, &wavelet, 1).is_ok());
    let mut half: Vec<F64> = whole[..4].to_vec();
    assert!(forward(&mut half, &wavelet, 1).is_ok());
    let mut quarter: Vec<F64> = half[..2].to_vec();
    assert!(forward(&mut quarter, &wavelet, 1).is_ok());
    let mut iterated = quarter.clone();
    iterated.extend_from_slice(&half[2..]);
    iterated.extend_from_slice(&whole[4..]);

    assert_eq!(multi, iterated);
}
