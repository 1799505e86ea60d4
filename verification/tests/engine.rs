use dwt::float::Float;
use dwt::transform::{forward_step, inverse_step, Transform};
use dwt::wavelet::{Haar, Wavelet};
use dwt::{forward, transform, Error, Operation};

/// A double-precision sample for exercising the engine from the outside.
#[derive(Clone, Copy, Debug, PartialEq)]
struct F64(f64);

impl Float for F64 {
    fn add_spec(self, rhs: Self) -> Self {
        F64(self.0 + rhs.0)
    }

    fn mul_spec(self, rhs: Self) -> Self {
        F64(self.0 * rhs.0)
    }

    fn neg_spec(self) -> Self {
        F64(-self.0)
    }

    fn zero_spec() -> Self {
        F64(0.0)
    }

    fn frac_1_sqrt_2_spec() -> Self {
        F64(std::f64::consts::FRAC_1_SQRT_2)
    }

    fn add_zero_left(_x: Self) {
    }

    fn plus(self, rhs: Self) -> Self {
        F64(self.0 + rhs.0)
    }

    fn times(self, rhs: Self) -> Self {
        F64(self.0 * rhs.0)
    }

    fn negate(self) -> Self {
        F64(-self.0)
    }

    fn zero() -> Self {
        F64(0.0)
    }

    fn frac_1_sqrt_2() -> Self {
        F64(std::f64::consts::FRAC_1_SQRT_2)
    }
}

fn to_samples(values: &[f64]) -> Vec<F64> {
    values.iter().map(|&v| F64(v)).collect()
}

fn broken_wavelet() -> Wavelet<F64> {
    let c = std::f64::consts::FRAC_1_SQRT_2;
    Wavelet {
        length: 2,
        offset: 0,
        dec_lo: vec![F64(c)],
        dec_hi: vec![F64(c), F64(-c)],
        rec_lo: vec![F64(c), F64(c)],
        rec_hi: vec![F64(c), F64(-c)],
    }
}

#[test]
fn level_zero_is_a_no_op() {
    let original = [1.0, 2.0, 3.0];
    let mut data = to_samples(&original);
    let wavelet = broken_wavelet();
    assert_eq!(transform(&mut data, Operation::Forward, &wavelet, 0), Ok(()));
    assert_eq!(data, to_samples(&original));
    assert_eq!(transform(&mut data, Operation::Inverse, &wavelet, 0), Ok(()));
    assert_eq!(data, to_samples(&original));
}

#[test]
fn indivisible_length_is_rejected() {
    let wavelet = Haar::new::<F64>();
    let original = [1.0, 2.0, 3.0, 4.0, 5.0, 6.0];
    let mut data = to_samples(&original);
    assert_eq!(
        transform(&mut data, Operation::Forward, &wavelet, 2),
        Err(Error::InvalidLength)
    );
    assert_eq!(data, to_samples(&original));

    let mut odd = to_samples(&[1.0, 2.0, 3.0, 4.0, 5.0]);
    assert_eq!(
        transform(&mut odd, Operation::Inverse, &wavelet, 1),
        Err(Error::InvalidLength)
    );
    assert_eq!(odd, to_samples(&[1.0, 2.0, 3.0, 4.0, 5.0]));
}

#[test]
fn indivisible_length_wins_over_a_broken_wavelet() {
    let wavelet = broken_wavelet();
    let original = [1.0, 2.0, 3.0];
    let mut data = to_samples(&original);
    assert_eq!(
        transform(&mut data, Operation::Forward, &wavelet, 1),
        Err(Error::InvalidLength)
    );
    assert_eq!(data, to_samples(&original));
}

#[test]
fn broken_wavelet_is_rejected() {
    let wavelet = broken_wavelet();
    let original = [1.0, 2.0, 3.0, 4.0];
    let mut data = to_samples(&original);
    assert_eq!(
        transform(&mut data, Operation::Forward, &wavelet, 1),
        Err(Error::InvalidWavelet)
    );
    assert_eq!(data, to_samples(&original));

    let mut offset = Haar::new::<F64>();
    offset.offset = 3;
    let mut other = to_samples(&original);
    assert_eq!(
        transform(&mut other, Operation::Inverse, &offset, 1),
        Err(Error::InvalidWavelet)
    );
    assert_eq!(other, to_samples(&original));
}

#[test]
fn empty_buffer_succeeds_unchanged() {
    let wavelet = Haar::new::<F64>();
    let mut data: Vec<F64> = Vec::new();
    assert_eq!(transform(&mut data, Operation::Forward, &wavelet, 5), Ok(()));
    assert!(data.is_empty());
}

#[test]
fn transform_through_the_trait() {
    let wavelet = Haar::new::<F64>();
    let mut via_trait = to_samples(&[4.0, 4.0, 4.0, 4.0]);
    let mut via_function = via_trait.clone();
    assert_eq!(via_trait.transform(Operation::Forward, &wavelet, 1), Ok(()));
    assert!(forward(&mut via_function, &wavelet, 1).is_ok());
    assert_eq!(via_trait, via_function);
}

#[test]
fn forward_step_matches_single_level() {
    let wavelet = Haar::new::<F64>();
    let mut stepped = to_samples(&[1.0, 2.0, 3.0, 4.0]);
    let mut work = to_samples(&[0.0, 0.0, 0.0, 0.0]);
    forward_step(&mut stepped, &wavelet, 4, &mut work);
    let mut whole = to_samples(&[1.0, 2.0, 3.0, 4.0]);
    assert!(forward(&mut whole, &wavelet, 1).is_ok());
    assert_eq!(stepped, whole);
}

#[test]
fn inverse_step_undoes_forward_step() {
    let wavelet = Haar::new::<F64>();
    let original = [1.0, 2.0, 3.0, 4.0];
    let mut data = to_samples(&original);
    let mut work = to_samples(&[9.0, 9.0, 9.0, 9.0]);
    forward_step(&mut data, &wavelet, 4, &mut work);
    inverse_step(&mut data, &wavelet, 4, &mut work);
    for (a, e) in data.iter().zip(original.iter()) {
        assert!((a.0 - e).abs() <= 1e-12);
    }
}

#[test]
fn forward_step_leaves_the_tail_alone() {
    let wavelet = Haar::new::<F64>();
    let mut data = to_samples(&[1.0, 2.0, 3.0, 4.0, 5.0, 6.0]);
    let mut work = to_samples(&[0.0; 6]);
    forward_step(&mut data, &wavelet, 4, &mut work);
    assert_eq!(data[4], F64(5.0));
    assert_eq!(data[5], F64(6.0));
}
