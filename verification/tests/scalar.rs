use raytracer::scalar::Scalar;

fn s(v: f64) -> Scalar {
    Scalar::from_bits(v.to_bits())
}

fn f(v: Scalar) -> f64 {
    f64::from_bits(v.to_bits())
}

fn same(got: Scalar, want: f64) -> bool {
    if want.is_nan() {
        got.is_nan()
    } else {
        got.to_bits() == want.to_bits()
    }
}

struct Lcg {
    state: u64,
}

impl Lcg {
    fn next(&mut self) -> u64 {
        self.state = self.state.wrapping_mul(6364136223846793005).wrapping_add(1442695040888963407);
        let hi = self.state >> 32;
        self.state = self.state.wrapping_mul(6364136223846793005).wrapping_add(1442695040888963407);
        (hi << 32) | (self.state >> 32)
    }

    fn pattern(&mut self) -> u64 {
        let special: [u64; 16] = [
            0,
            1 << 63,
            0x7FF0_0000_0000_0000,
            0xFFF0_0000_0000_0000,
            0x7FF8_0000_0000_0000,
            1,
            (1 << 63) | 1,
            1 << 52,
            (1 << 52) - 1,
            1.0f64.to_bits(),
            (-1.0f64).to_bits(),
            2.0f64.to_bits(),
            0.5f64.to_bits(),
            0x7FEF_FFFF_FFFF_FFFF,
            255.0f64.to_bits(),
            3.0f64.to_bits(),
        ];
        let c = self.next() % 10;
        if c == 0 {
            special[(self.next() % 16) as usize]
        } else if c < 4 {
            self.next()
        } else if c < 6 {
            (((self.next() % 2_000_001) as f64 - 1_000_000.0) / 1000.0).to_bits()
        } else if c < 7 {
            ((self.next() % 2001) as f64 - 1000.0).to_bits()
        } else if c < 8 {
            (self.next() & (1 << 63)) | (self.next() >> 11)
        } else {
            let e = 1000 + self.next() % 50;
            (self.next() & (1 << 63)) | (e << 52) | (self.next() >> 12)
        }
    }
}

#[test]
fn sum_matches_hardware() {
    let mut g = Lcg { state: 1 };
    for _ in 0..100000 {
        let a = g.pattern();
        let mut b = g.pattern();
        if g.next() % 3 == 0 {
            let ea = (a >> 52) & 0x7FF;
            let eb = (ea + 70 - g.next() % 141) & 0x7FF;
            b = (b & !(0x7FF << 52)) | (eb << 52);
        }
        let (x, y) = (f64::from_bits(a), f64::from_bits(b));
        assert!(same(Scalar::from_bits(a).plus(Scalar::from_bits(b)), x + y), "{:x} + {:x}", a, b);
        assert!(same(Scalar::from_bits(a).minus(Scalar::from_bits(b)), x - y), "{:x} - {:x}", a, b);
    }
}

#[test]
fn product_matches_hardware() {
    let mut g = Lcg { state: 2 };
    for _ in 0..100000 {
        let a = g.pattern();
        let b = g.pattern();
        let (x, y) = (f64::from_bits(a), f64::from_bits(b));
        assert!(same(Scalar::from_bits(a).times(Scalar::from_bits(b)), x * y), "{:x} * {:x}", a, b);
    }
}

#[test]
fn quotient_matches_hardware() {
    let mut g = Lcg { state: 3 };
    for _ in 0..100000 {
        let a = g.pattern();
        let b = g.pattern();
        let (x, y) = (f64::from_bits(a), f64::from_bits(b));
        assert!(same(Scalar::from_bits(a).over(Scalar::from_bits(b)), x / y), "{:x} / {:x}", a, b);
    }
}

#[test]
fn square_root_matches_hardware() {
    let mut g = Lcg { state: 4 };
    for _ in 0..100000 {
        let a = g.pattern();
        assert!(same(Scalar::from_bits(a).sqrt(), f64::from_bits(a).sqrt()), "sqrt {:x}", a);
    }
}

#[test]
fn order_matches_hardware() {
    let mut g = Lcg { state: 5 };
    for _ in 0..100000 {
        let a = g.pattern();
        let b = if g.next() % 4 == 0 { a ^ (g.next() & (1 << 63)) } else { g.pattern() };
        let (x, y) = (f64::from_bits(a), f64::from_bits(b));
        let (p, q) = (Scalar::from_bits(a), Scalar::from_bits(b));
        assert_eq!(p.less(q), x < y);
        assert_eq!(p.less_eq(q), x <= y);
        assert_eq!(p.greater(q), x > y);
        assert_eq!(p.greater_eq(q), x >= y);
        assert_eq!(p.equals(q), x == y);
        assert_eq!(p.is_nan(), x.is_nan());
        assert_eq!(p.is_finite(), x.is_finite());
        assert_eq!(p.is_infinite(), x.is_infinite());
        assert_eq!(p.is_zero(), x == 0.0);
        assert_eq!(p.is_negative(), x.is_sign_negative());
        assert!(same(p.negated(), -x) || x.is_nan());
        assert!(same(p.abs(), x.abs()) || x.is_nan());
        if !(x == 0.0 && y == 0.0) {
            assert!(same(p.max(q), x.max(y)), "max {:x} {:x}", a, b);
        }
    }
}

#[test]
fn conversions_match_hardware() {
    let mut g = Lcg { state: 6 };
    for _ in 0..100000 {
        let a = g.pattern();
        let x = f64::from_bits(a);
        assert_eq!(Scalar::from_bits(a).to_byte(), x as u8, "byte {:x}", a);
        let n = g.next();
        assert!(same(Scalar::from_u32(n as u32), (n as u32) as f64));
        assert!(same(Scalar::from_i64(n as i64), (n as i64) as f64), "i64 {}", n as i64);
        assert!(same(Scalar::unit_from(n), ((n >> 11) as f64) * (1.0 / 9007199254740992.0)));
        if x.abs() < 4611686018427387904.0 {
            assert_eq!(Scalar::from_bits(a).floor(), Some(x.floor() as i64), "floor {:x}", a);
        } else {
            assert_eq!(Scalar::from_bits(a).floor(), None);
        }
    }
    assert_eq!(s(0.999).to_byte(), 0);
    assert_eq!(s(254.999).to_byte(), 254);
    assert_eq!(s(255.0).to_byte(), 255);
    assert_eq!(s(1e300).to_byte(), 255);
    assert_eq!(s(-3.0).to_byte(), 0);
    assert_eq!(f(Scalar::unit_from(u64::MAX)), 1.0 - 1.0 / 9007199254740992.0);
    assert_eq!(f(Scalar::unit_from(0)), 0.0);
}

#[test]
fn circular_functions_stay_within_two_units_of_hardware() {
    let mut g = Lcg { state: 7 };
    let close = |got: Scalar, want: f64| -> bool {
        let got = f(got);
        if want.is_nan() {
            return got.is_nan();
        }
        let unit = f64::from_bits(want.abs().to_bits() + 1) - want.abs();
        (got - want).abs() <= 2.0 * unit || (got - want).abs() <= 2.3e-16
    };
    for _ in 0..50000 {
        let x = ((g.next() % 16_000_001) as f64 - 8_000_000.0) / 1_000_000.0;
        assert!(close(s(x).sin(), x.sin()), "sin {}", x);
        assert!(close(s(x).cos(), x.cos()), "cos {}", x);
        let y = ((g.next() % 2_000_001) as f64 - 1_000_000.0) / 1_000_000.0;
        assert!(close(s(y).acos(), y.acos()), "acos {}", y);
        let big = ((g.next() % 2_000_001) as f64 - 1_000_000.0) / 1000.0;
        assert!(close(s(big).sin(), big.sin()), "sin {}", big);
        assert!(close(s(big).cos(), big.cos()), "cos {}", big);
    }
    assert_eq!(f(s(0.0).sin()), 0.0);
    assert_eq!(f(s(0.0).cos()), 1.0);
    assert_eq!(f(s(1.0).acos()), 0.0);
    assert_eq!(f(s(-1.0).acos()), std::f64::consts::PI);
    assert!(s(1.5).acos().is_nan());
    assert!(s(f64::INFINITY).sin().is_nan());
    assert!(s(f64::NAN).cos().is_nan());
    assert!(s(2e9).cos().is_nan());
}

#[test]
fn numbers_from_random_bits_lie_in_the_unit_interval() {
    let mut g = Lcg { state: 8 };
    for _ in 0..100000 {
        let v = f(Scalar::unit_from(g.next()));
        assert!(v >= 0.0 && v < 1.0);
    }
    assert!(f(Scalar::unit_from(u64::MAX)) < 1.0);
    assert_eq!(f(Scalar::unit_from(2047)), 0.0);
    assert_eq!(f(Scalar::unit_from(2048)), 1.0 / 9007199254740992.0);
    assert_eq!(f(Scalar::unit_from(1 << 63)), 0.5);
}

#[test]
fn laws_of_arithmetic_hold_of_chosen_numbers() {
    let mut g = Lcg { state: 10 };
    for _ in 0..50000 {
        let a = Scalar::from_bits(g.pattern());
        let b = Scalar::from_bits(g.pattern());
        if !a.is_nan() && !b.is_nan() {
            assert_eq!(a.plus(b).to_bits(), b.plus(a).to_bits());
            assert_eq!(a.times(b).to_bits(), b.times(a).to_bits());
            assert_eq!(a.times(s(1.0)).to_bits(), a.to_bits());
        }
        if a.is_finite() && !a.is_zero() {
            assert_eq!(f(a.over(a)), 1.0);
        }
        if b.is_finite() && b.greater(s(0.0)) && a.less_eq(b) {
            assert!(a.over(b).less_eq(s(1.0)));
        }
    }
}
