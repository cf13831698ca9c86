//! The transforms over an exact coefficient type: numbers `a + b sqrt(2)`
//! with rational `a` and `b`, where the Haar filters are exact and
//! reconstruction gives the input back exactly.

use std::cmp::Ordering;
use std::ops::{Add, Div, Mul, Neg, Sub};

use fcwt2::discrete::{circular_downsample, circular_upsample};
use fcwt2::{StationaryWaveletTransform, WaveletFilterBank, WaveletPacketTransform};

fn gcd(a: i128, b: i128) -> i128 {
    if b == 0 {
        a.abs()
    } else {
        gcd(b, a % b)
    }
}

#[derive(Clone, Copy, Debug, PartialEq, Eq)]
struct Rational {
    num: i128,
    den: i128,
}

impl Rational {
    fn new(num: i128, den: i128) -> Self {
        assert!(den != 0);
        let sign = if den < 0 { -1 } else { 1 };
        let g = gcd(num, den).max(1);
        Rational {
            num: sign * num / g,
            den: sign * den / g,
        }
    }

    fn whole(n: i128) -> Self {
        Rational::new(n, 1)
    }

    fn add(self, other: Self) -> Self {
        Rational::new(self.num * other.den + other.num * self.den, self.den * other.den)
    }

    fn mul(self, other: Self) -> Self {
        Rational::new(self.num * other.num, self.den * other.den)
    }

    fn neg(self) -> Self {
        Rational::new(-self.num, self.den)
    }

    fn inverse(self) -> Self {
        Rational::new(self.den, self.num)
    }

    fn signum(self) -> i128 {
        self.num.signum()
    }
}

/// `a + b sqrt(2)`.
#[derive(Clone, Copy, Debug, PartialEq, Eq)]
struct Surd {
    a: Rational,
    b: Rational,
}

impl Surd {
    fn new(a: Rational, b: Rational) -> Self {
        Surd { a, b }
    }

    fn whole(n: i128) -> Self {
        Surd::new(Rational::whole(n), Rational::whole(0))
    }

    fn signum(self) -> i128 {
        let (sa, sb) = (self.a.signum(), self.b.signum());
        if sa >= 0 && sb >= 0 {
            (sa != 0 || sb != 0) as i128
        } else if sa <= 0 && sb <= 0 {
            -1
        } else {
            let a2 = self.a.mul(self.a);
            let b2 = Rational::whole(2).mul(self.b.mul(self.b));
            let difference = a2.add(b2.neg()).signum();
            if difference > 0 {
                sa
            } else {
                sb
            }
        }
    }
}

impl Default for Surd {
    fn default() -> Self {
        Surd::whole(0)
    }
}

impl From<u8> for Surd {
    fn from(n: u8) -> Self {
        Surd::whole(n as i128)
    }
}

impl Add for Surd {
    type Output = Surd;
    fn add(self, other: Surd) -> Surd {
        Surd::new(self.a.add(other.a), self.b.add(other.b))
    }
}

impl Neg for Surd {
    type Output = Surd;
    fn neg(self) -> Surd {
        Surd::new(self.a.neg(), self.b.neg())
    }
}

impl Sub for Surd {
    type Output = Surd;
    fn sub(self, other: Surd) -> Surd {
        self + (-other)
    }
}

impl Mul for Surd {
    type Output = Surd;
    fn mul(self, other: Surd) -> Surd {
        let two = Rational::whole(2);
        Surd::new(
            self.a.mul(other.a).add(two.mul(self.b.mul(other.b))),
            self.a.mul(other.b).add(self.b.mul(other.a)),
        )
    }
}

impl Div for Surd {
    type Output = Surd;
    fn div(self, other: Surd) -> Surd {
        let norm = other
            .a
            .mul(other.a)
            .add(Rational::whole(2).mul(other.b.mul(other.b)).neg());
        let conjugate = Surd::new(other.a, other.b.neg());
        let product = self * conjugate;
        let scale = norm.inverse();
        Surd::new(product.a.mul(scale), product.b.mul(scale))
    }
}

impl PartialOrd for Surd {
    fn partial_cmp(&self, other: &Surd) -> Option<Ordering> {
        Some((*self - *other).signum().cmp(&0))
    }
}

/// `sqrt(2) / 2`.
fn half_root_two() -> Surd {
    Surd::new(Rational::whole(0), Rational::new(1, 2))
}

fn exact_haar() -> WaveletFilterBank<Surd> {
    let h = half_root_two();
    WaveletFilterBank::orthogonal("haar", 1, &[h, h]).unwrap()
}

fn signal() -> Vec<Surd> {
    [3, -1, 4, 1, -5, 9, 2, -6]
        .iter()
        .map(|n| Surd::whole(*n))
        .collect()
}

#[test]
fn exact_type_arithmetic() {
    let h = half_root_two();
    assert_eq!(h * h + h * h, Surd::whole(1));
    assert_eq!(Surd::whole(7) / Surd::whole(2) * Surd::whole(2), Surd::whole(7));
    assert!(h > Surd::whole(0));
    assert!(h < Surd::whole(1));
    assert!(-h < Surd::whole(0));
}

#[test]
fn exact_haar_step_reconstructs() {
    let h = half_root_two();
    let x = signal();
    let (approx, detail) = circular_downsample(&x, &[h, h], &[h, -h]);
    assert_eq!(approx[0], h * Surd::whole(2));
    let rebuilt = circular_upsample(&approx, &detail, &[h, h], &[h, -h]).unwrap();
    assert_eq!(rebuilt, x);
}

#[test]
fn exact_packet_transform_reconstructs() {
    let x = signal();
    let tree = WaveletPacketTransform::with_filter_bank(3, exact_haar())
        .decompose(&x)
        .unwrap();
    assert_eq!(tree.leaves().len(), 8);
    assert_eq!(tree.reconstruct().unwrap(), x);
}

#[test]
fn exact_stationary_transform_reconstructs() {
    let x = signal();
    let transform = StationaryWaveletTransform::with_filter_bank(3, exact_haar());
    let coefficients = transform.decompose(&x).unwrap();
    assert_eq!(transform.reconstruct(&coefficients).unwrap(), x);
}

#[test]
fn exact_stationary_transform_commutes_with_rotation() {
    let x = signal();
    let mut rotated = x.clone();
    rotated.rotate_right(3);
    let transform = StationaryWaveletTransform::with_filter_bank(2, exact_haar());
    let bands = transform.decompose(&x).unwrap();
    let rotated_bands = transform.decompose(&rotated).unwrap();
    for (level, rotated_level) in bands.levels().iter().zip(rotated_bands.levels()) {
        let mut approximation = level.approximation.clone();
        approximation.rotate_right(3);
        let mut detail = level.detail.clone();
        detail.rotate_right(3);
        assert_eq!(approximation, rotated_level.approximation);
        assert_eq!(detail, rotated_level.detail);
    }
}
