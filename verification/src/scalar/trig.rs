//! Sine, cosine and arc cosine, each a fixed sequence of rounded operations:
//! a reduction of the argument to a quarter turn, and a polynomial on it.
use vstd::prelude::*;
use crate::scalar::{Scalar, NAN_BITS, ONE_BITS, TWO_BITS, HALF_BITS, PI_BITS, HALF_PI_BITS};
use crate::scalar::convert::FLOOR_LIMIT_BITS;
use crate::scalar::{HIDDEN_BIT, NEG_ONE_BITS};
use crate::scalar::nearest::{lemma_double, lemma_rounded_is_finite, lemma_sum_is_nearest};
use crate::scalar::round::lemma_rounded_has_sign;
use crate::scalar::value::{lemma_order_is_that_of_values, lemma_weight_increases};
use vstd::arithmetic::power2::*;

verus! {

/// The coefficients of the sine polynomial, lowest first.
pub const SIN1_BITS: u64 = 0xBFC5_5555_5555_5549;

pub const SIN2_BITS: u64 = 0x3F81_1111_1110_F8A6;

pub const SIN3_BITS: u64 = 0xBF2A_01A0_19C1_61D5;

pub const SIN4_BITS: u64 = 0x3EC7_1DE3_57B1_FE7D;

pub const SIN5_BITS: u64 = 0xBE5A_E5E6_8A2B_9CEB;

pub const SIN6_BITS: u64 = 0x3DE5_D93A_5ACF_D57C;

/// The coefficients of the cosine polynomial, lowest first.
pub const COS1_BITS: u64 = 0x3FA5_5555_5555_554C;

pub const COS2_BITS: u64 = 0xBF56_C16C_16C1_5177;

pub const COS3_BITS: u64 = 0x3EFA_01A0_19CB_1590;

pub const COS4_BITS: u64 = 0xBE92_7E4F_809C_52AD;

pub const COS5_BITS: u64 = 0x3E21_EE9E_BDB4_B1C4;

pub const COS6_BITS: u64 = 0xBDA8_FAE9_BE88_38D4;

/// The pattern of the number nearest to 2 / pi.
pub const INV_HALF_PI_BITS: u64 = 0x3FE4_5F30_6DC9_C883;

/// The first 33 bits of pi / 2: its product with a small integer is exact.
pub const HALF_PI_HEAD_BITS: u64 = 0x3FF9_21FB_5440_0000;

/// What pi / 2 has beyond its first 33 bits.
pub const HALF_PI_TAIL_BITS: u64 = 0x3DD0_B461_1A62_6331;

/// What pi / 2 has beyond the number nearest to it.
pub const HALF_PI_LOW_BITS: u64 = 0x3C91_A626_3314_5C07;

/// The pattern of `2^30`, from which on no sine or cosine is taken.
pub const TURN_LIMIT_BITS: u64 = 0x41D0_0000_0000_0000;

/// The pattern of `2^-57`, below which the arc cosine is pi / 2.
pub const TINY_BITS: u64 = 0x3C60_0000_0000_0000;

/// The coefficients of the arc cosine's numerator, lowest first.
pub const UPPER0_BITS: u64 = 0x3FC5_5555_5555_5555;

pub const UPPER1_BITS: u64 = 0xBFD4_D612_03EB_6F7D;

pub const UPPER2_BITS: u64 = 0x3FC9_C155_0E88_4455;

pub const UPPER3_BITS: u64 = 0xBFA4_8228_B568_8F3B;

pub const UPPER4_BITS: u64 = 0x3F49_EFE0_7501_B288;

pub const UPPER5_BITS: u64 = 0x3F02_3DE1_0DFD_F709;

/// The coefficients of the arc cosine's denominator, after its leading 1.
pub const LOWER1_BITS: u64 = 0xC003_3A27_1C8A_2D4B;

pub const LOWER2_BITS: u64 = 0x4000_2AE5_9C59_8AC8;

pub const LOWER3_BITS: u64 = 0xBFE6_066C_1B8D_0159;

pub const LOWER4_BITS: u64 = 0x3FB3_B8C5_B12E_9282;

/// The sine of a number within a quarter turn of zero:
/// `x + x^3 (s1 + x^2 (s2 + x^2 (s3 + ..)))`, the `s` being the coefficients.
pub open spec fn sin_kernel(x: Scalar) -> Scalar {
    let z: Scalar = x.times(x);
    let v: Scalar = z.times(x);
    let r: Scalar = Scalar::from_bits(SIN2_BITS).plus(
        z.times(
            Scalar::from_bits(SIN3_BITS).plus(
                z.times(
                    Scalar::from_bits(SIN4_BITS).plus(
                        z.times(
                            Scalar::from_bits(SIN5_BITS).plus(z.times(Scalar::from_bits(SIN6_BITS))),
                        ),
                    ),
                ),
            ),
        ),
    );
    x.plus(v.times(Scalar::from_bits(SIN1_BITS).plus(z.times(r))))
}

/// The cosine of a number within a quarter turn of zero:
/// `1 - (x^2 / 2 - x^4 (c1 + x^2 (c2 + ..)))`, the `c` being the coefficients.
pub open spec fn cos_kernel(x: Scalar) -> Scalar {
    let z: Scalar = x.times(x);
    let r: Scalar = z.times(
        Scalar::from_bits(COS1_BITS).plus(
            z.times(
                Scalar::from_bits(COS2_BITS).plus(
                    z.times(
                        Scalar::from_bits(COS3_BITS).plus(
                            z.times(
                                Scalar::from_bits(COS4_BITS).plus(
                                    z.times(
                                        Scalar::from_bits(COS5_BITS).plus(
                                            z.times(Scalar::from_bits(COS6_BITS)),
                                        ),
                                    ),
                                ),
                            ),
                        ),
                    ),
                ),
            ),
        ),
    );
    Scalar::from_bits(ONE_BITS).minus(Scalar::from_bits(HALF_BITS).times(z).minus(z.times(r)))
}

/// Whether a sine or cosine is taken of `x`: it is finite and below `2^30`
/// in magnitude, so that the count of quarter turns in it is a small integer.
pub open spec fn turns_counted(x: Scalar) -> bool {
    x.mag() < TURN_LIMIT_BITS && x.times(Scalar::from_bits(INV_HALF_PI_BITS)).plus(
        Scalar::from_bits(HALF_BITS),
    ).mag() < FLOOR_LIMIT_BITS
}

/// The count of quarter turns nearest to `x`.
pub open spec fn quarter_turns(x: Scalar) -> int {
    x.times(Scalar::from_bits(INV_HALF_PI_BITS)).plus(Scalar::from_bits(HALF_BITS)).spec_floor()
}

/// What is left of `x` beyond `n` quarter turns, pi / 2 taken in two parts.
pub open spec fn turn_rest(x: Scalar, n: int) -> Scalar {
    let f: Scalar = Scalar::of_int(n);
    x.minus(f.times(Scalar::from_bits(HALF_PI_HEAD_BITS))).minus(
        f.times(Scalar::from_bits(HALF_PI_TAIL_BITS)),
    )
}

fn sin_of_rest(x: Scalar) -> (r: Scalar)
    ensures
        r == sin_kernel(x),
{
    let z: Scalar = x.times(x);
    let v: Scalar = z.times(x);
    let r: Scalar = Scalar::from_bits(SIN2_BITS).plus(
        z.times(
            Scalar::from_bits(SIN3_BITS).plus(
                z.times(
                    Scalar::from_bits(SIN4_BITS).plus(
                        z.times(
                            Scalar::from_bits(SIN5_BITS).plus(z.times(Scalar::from_bits(SIN6_BITS))),
                        ),
                    ),
                ),
            ),
        ),
    );
    x.plus(v.times(Scalar::from_bits(SIN1_BITS).plus(z.times(r))))
}

fn cos_of_rest(x: Scalar) -> (r: Scalar)
    ensures
        r == cos_kernel(x),
{
    let z: Scalar = x.times(x);
    let r: Scalar = z.times(
        Scalar::from_bits(COS1_BITS).plus(
            z.times(
                Scalar::from_bits(COS2_BITS).plus(
                    z.times(
                        Scalar::from_bits(COS3_BITS).plus(
                            z.times(
                                Scalar::from_bits(COS4_BITS).plus(
                                    z.times(
                                        Scalar::from_bits(COS5_BITS).plus(
                                            z.times(Scalar::from_bits(COS6_BITS)),
                                        ),
                                    ),
                                ),
                            ),
                        ),
                    ),
                ),
            ),
        ),
    );
    Scalar::from_bits(ONE_BITS).minus(Scalar::from_bits(HALF_BITS).times(z).minus(z.times(r)))
}

/// The quarter turns nearest to `x` and what is left beyond them, where a
/// sine or cosine is taken of `x`.
fn reduce(x: Scalar) -> (r: Option<(i64, Scalar)>)
    ensures
        r.is_some() == turns_counted(x),
        r.is_some() ==> r.unwrap().0 == quarter_turns(x) && r.unwrap().1 == turn_rest(
            x,
            quarter_turns(x),
        ) && -0x4000_0000_0000_0000 <= r.unwrap().0 < 0x4000_0000_0000_0000,
{
    if x.magnitude() >= TURN_LIMIT_BITS {
        return None;
    }
    let t: Scalar = x.times(Scalar::from_bits(INV_HALF_PI_BITS)).plus(Scalar::from_bits(HALF_BITS));
    match t.floor() {
        None => None,
        Some(n) => {
            let f: Scalar = Scalar::from_i64(n);
            let rest: Scalar = x.minus(f.times(Scalar::from_bits(HALF_PI_HEAD_BITS))).minus(
                f.times(Scalar::from_bits(HALF_PI_TAIL_BITS)),
            );
            Some((n, rest))
        },
    }
}

/// The ratio of the two polynomials of the arc cosine.
pub open spec fn acos_ratio(z: Scalar) -> Scalar {
    let p: Scalar = z.times(
        Scalar::from_bits(UPPER0_BITS).plus(
            z.times(
                Scalar::from_bits(UPPER1_BITS).plus(
                    z.times(
                        Scalar::from_bits(UPPER2_BITS).plus(
                            z.times(
                                Scalar::from_bits(UPPER3_BITS).plus(
                                    z.times(
                                        Scalar::from_bits(UPPER4_BITS).plus(
                                            z.times(Scalar::from_bits(UPPER5_BITS)),
                                        ),
                                    ),
                                ),
                            ),
                        ),
                    ),
                ),
            ),
        ),
    );
    let q: Scalar = Scalar::from_bits(ONE_BITS).plus(
        z.times(
            Scalar::from_bits(LOWER1_BITS).plus(
                z.times(
                    Scalar::from_bits(LOWER2_BITS).plus(
                        z.times(
                            Scalar::from_bits(LOWER3_BITS).plus(z.times(Scalar::from_bits(LOWER4_BITS))),
                        ),
                    ),
                ),
            ),
        ),
    );
    p.over(q)
}

fn ratio(z: Scalar) -> (r: Scalar)
    ensures
        r == acos_ratio(z),
{
    let p: Scalar = z.times(
        Scalar::from_bits(UPPER0_BITS).plus(
            z.times(
                Scalar::from_bits(UPPER1_BITS).plus(
                    z.times(
                        Scalar::from_bits(UPPER2_BITS).plus(
                            z.times(
                                Scalar::from_bits(UPPER3_BITS).plus(
                                    z.times(
                                        Scalar::from_bits(UPPER4_BITS).plus(
                                            z.times(Scalar::from_bits(UPPER5_BITS)),
                                        ),
                                    ),
                                ),
                            ),
                        ),
                    ),
                ),
            ),
        ),
    );
    let q: Scalar = Scalar::from_bits(ONE_BITS).plus(
        z.times(
            Scalar::from_bits(LOWER1_BITS).plus(
                z.times(
                    Scalar::from_bits(LOWER2_BITS).plus(
                        z.times(
                            Scalar::from_bits(LOWER3_BITS).plus(z.times(Scalar::from_bits(LOWER4_BITS))),
                        ),
                    ),
                ),
            ),
        ),
    );
    p.over(q)
}

impl Scalar {
    /// The sine: NaN where none is taken, else the kernel that the count of
    /// quarter turns selects, on what is left beyond them.
    pub open spec fn spec_sin(self) -> Scalar {
        if !turns_counted(self) {
            Scalar { bits: NAN_BITS }
        } else {
            let n: int = quarter_turns(self);
            let rest: Scalar = turn_rest(self, n);
            if n % 4 == 0 {
                sin_kernel(rest)
            } else if n % 4 == 1 {
                cos_kernel(rest)
            } else if n % 4 == 2 {
                sin_kernel(rest).negated()
            } else {
                cos_kernel(rest).negated()
            }
        }
    }

    /// The cosine: NaN where none is taken, else the kernel that the count
    /// of quarter turns selects, on what is left beyond them.
    pub open spec fn spec_cos(self) -> Scalar {
        if !turns_counted(self) {
            Scalar { bits: NAN_BITS }
        } else {
            let n: int = quarter_turns(self);
            let rest: Scalar = turn_rest(self, n);
            if n % 4 == 0 {
                cos_kernel(rest)
            } else if n % 4 == 1 {
                sin_kernel(rest).negated()
            } else if n % 4 == 2 {
                cos_kernel(rest).negated()
            } else {
                sin_kernel(rest)
            }
        }
    }

    /// The sine of an angle in radians.
    #[verifier::when_used_as_spec(spec_sin)]
    pub fn sin(self) -> (r: Scalar)
        ensures
            r == self.spec_sin(),
    {
        match reduce(self) {
            None => Scalar::nan_value(),
            Some((n, rest)) => {
                let q: u64 = ((n + 0x4000_0000_0000_0000) as u64) % 4;
                if q == 0 {
                    sin_of_rest(rest)
                } else if q == 1 {
                    cos_of_rest(rest)
                } else if q == 2 {
                    sin_of_rest(rest).negated()
                } else {
                    cos_of_rest(rest).negated()
                }
            },
        }
    }

    /// The cosine of an angle in radians.
    #[verifier::when_used_as_spec(spec_cos)]
    pub fn cos(self) -> (r: Scalar)
        ensures
            r == self.spec_cos(),
    {
        match reduce(self) {
            None => Scalar::nan_value(),
            Some((n, rest)) => {
                let q: u64 = ((n + 0x4000_0000_0000_0000) as u64) % 4;
                if q == 0 {
                    cos_of_rest(rest)
                } else if q == 1 {
                    sin_of_rest(rest).negated()
                } else if q == 2 {
                    cos_of_rest(rest).negated()
                } else {
                    sin_of_rest(rest)
                }
            },
        }
    }

    /// The number with the lower 32 bits of the pattern cleared.
    pub open spec fn head(self) -> Scalar {
        Scalar { bits: (self.bits - self.bits % 0x1_0000_0000) as u64 }
    }

    /// The arc cosine. Beyond 1 in magnitude it is NaN, at 1 it is 0 and at
    /// -1 pi. Below 0.5 in magnitude it is pi / 2 less a polynomial ratio in
    /// `x^2`; nearer to 1 it is twice the arc sine of the square root of
    /// `(1 - |x|) / 2`, got from the same ratio.
    pub open spec fn spec_acos(self) -> Scalar {
        let one: Scalar = Scalar::from_bits(ONE_BITS);
        let two: Scalar = Scalar::from_bits(TWO_BITS);
        let half: Scalar = Scalar::from_bits(HALF_BITS);
        let low: Scalar = Scalar::from_bits(HALF_PI_LOW_BITS);
        let half_pi: Scalar = Scalar::from_bits(HALF_PI_BITS);
        if self.nan() || self.mag() > ONE_BITS {
            Scalar { bits: NAN_BITS }
        } else if self.mag() == ONE_BITS {
            if self.negative() {
                Scalar::from_bits(PI_BITS).plus(two.times(low))
            } else {
                Scalar { bits: 0 }
            }
        } else if self.mag() < TINY_BITS {
            half_pi.plus(low)
        } else if self.mag() < HALF_BITS {
            let r: Scalar = acos_ratio(self.times(self));
            half_pi.minus(self.minus(low.minus(self.times(r))))
        } else if self.negative() {
            let z: Scalar = one.plus(self).times(half);
            let s: Scalar = z.sqrt();
            let w: Scalar = acos_ratio(z).times(s).minus(low);
            Scalar::from_bits(PI_BITS).minus(two.times(s.plus(w)))
        } else {
            let z: Scalar = one.minus(self).times(half);
            let s: Scalar = z.sqrt();
            let df: Scalar = s.head();
            let c: Scalar = z.minus(df.times(df)).over(s.plus(df));
            let w: Scalar = acos_ratio(z).times(s).plus(c);
            two.times(df.plus(w))
        }
    }

    /// The arc cosine, in radians.
    #[verifier::when_used_as_spec(spec_acos)]
    pub fn acos(self) -> (r: Scalar)
        ensures
            r == self.spec_acos(),
    {
        let one: Scalar = Scalar::from_bits(ONE_BITS);
        let two: Scalar = Scalar::from_bits(TWO_BITS);
        let half: Scalar = Scalar::from_bits(HALF_BITS);
        let low: Scalar = Scalar::from_bits(HALF_PI_LOW_BITS);
        let half_pi: Scalar = Scalar::from_bits(HALF_PI_BITS);
        let m: u64 = self.magnitude();
        if self.is_nan() || m > ONE_BITS {
            Scalar::nan_value()
        } else if m == ONE_BITS {
            if self.is_negative() {
                Scalar::from_bits(PI_BITS).plus(two.times(low))
            } else {
                Scalar { bits: 0 }
            }
        } else if m < TINY_BITS {
            half_pi.plus(low)
        } else if m < HALF_BITS {
            let r: Scalar = ratio(self.times(self));
            half_pi.minus(self.minus(low.minus(self.times(r))))
        } else if self.is_negative() {
            let z: Scalar = one.plus(self).times(half);
            let s: Scalar = z.sqrt();
            let w: Scalar = ratio(z).times(s).minus(low);
            Scalar::from_bits(PI_BITS).minus(two.times(s.plus(w)))
        } else {
            let z: Scalar = one.minus(self).times(half);
            let s: Scalar = z.sqrt();
            let df: Scalar = Scalar { bits: s.bits - s.bits % 0x1_0000_0000 };
            let c: Scalar = z.minus(df.times(df)).over(s.plus(df));
            let w: Scalar = ratio(z).times(s).plus(c);
            two.times(df.plus(w))
        }
    }
}

/// A step of a polynomial at zero: a finite coefficient that is not zero,
/// with zero times a finite number added, is the coefficient.
proof fn lemma_step_at_zero(c: Scalar, z: Scalar, w: Scalar)
    requires
        c.finite(),
        !c.zero(),
        z.zero(),
        w.finite(),
    ensures
        c.spec_plus(z.spec_times(w)) == c,
        z.spec_times(w).zero(),
{
    reveal(Scalar::spec_times);
    reveal(Scalar::spec_plus);
}

/// The kernel of the cosine is 1 at zero.
proof fn lemma_cos_kernel_at_zero(x: Scalar)
    requires
        x.zero(),
    ensures
        cos_kernel(x) == (Scalar { bits: ONE_BITS }),
{
    let z: Scalar = x.times(x);
    assert(z.zero() && !z.negative()) by {
        reveal(Scalar::spec_times);
    }
    let c6: Scalar = Scalar::from_bits(COS6_BITS);
    let c5: Scalar = Scalar::from_bits(COS5_BITS);
    let c4: Scalar = Scalar::from_bits(COS4_BITS);
    let c3: Scalar = Scalar::from_bits(COS3_BITS);
    let c2: Scalar = Scalar::from_bits(COS2_BITS);
    let c1: Scalar = Scalar::from_bits(COS1_BITS);
    lemma_step_at_zero(c5, z, c6);
    lemma_step_at_zero(c4, z, c5);
    lemma_step_at_zero(c3, z, c4);
    lemma_step_at_zero(c2, z, c3);
    lemma_step_at_zero(c1, z, c2);
    let r: Scalar = z.times(c1);
    let one: Scalar = Scalar::from_bits(ONE_BITS);
    let half: Scalar = Scalar::from_bits(HALF_BITS);
    assert(r.zero() && !r.negative() && z.times(r).zero() && !z.times(r).negative() && half.times(z).zero()
        && !half.times(z).negative()) by {
        reveal(Scalar::spec_times);
    }
    let inner: Scalar = half.times(z).minus(z.times(r));
    assert(inner.zero() && one.minus(inner) == one) by {
        reveal(Scalar::spec_plus);
    }
}

/// The kernel of the sine is zero at zero.
proof fn lemma_sin_kernel_at_zero(x: Scalar)
    requires
        x.zero(),
    ensures
        sin_kernel(x).zero(),
{
    let z: Scalar = x.times(x);
    let v: Scalar = z.times(x);
    assert(z.zero() && v.zero()) by {
        reveal(Scalar::spec_times);
    }
    let s6: Scalar = Scalar::from_bits(SIN6_BITS);
    let s5: Scalar = Scalar::from_bits(SIN5_BITS);
    let s4: Scalar = Scalar::from_bits(SIN4_BITS);
    let s3: Scalar = Scalar::from_bits(SIN3_BITS);
    let s2: Scalar = Scalar::from_bits(SIN2_BITS);
    let s1: Scalar = Scalar::from_bits(SIN1_BITS);
    lemma_step_at_zero(s5, z, s6);
    lemma_step_at_zero(s4, z, s5);
    lemma_step_at_zero(s3, z, s4);
    lemma_step_at_zero(s2, z, s3);
    lemma_step_at_zero(s1, z, s2);
    let last: Scalar = v.times(s1);
    assert(last.zero()) by {
        reveal(Scalar::spec_times);
    }
    assert(x.plus(last).zero()) by {
        reveal(Scalar::spec_plus);
    }
}

/// Zero holds no quarter turn, and all of it is left.
proof fn lemma_turns_of_zero(x: Scalar)
    requires
        x.zero(),
    ensures
        turns_counted(x),
        quarter_turns(x) == 0,
        turn_rest(x, 0).zero(),
{
    let half: Scalar = Scalar::from_bits(HALF_BITS);
    let t: Scalar = x.times(Scalar::from_bits(INV_HALF_PI_BITS)).plus(half);
    assert(t == half) by {
        reveal(Scalar::spec_times);
        reveal(Scalar::spec_plus);
    }
    assert(half.sig() == HIDDEN_BIT && half.exp() == -53 && !half.negative());
    lemma2_to64_rest();
    assert(pow2(53) == 0x20_0000_0000_0000);
    assert((-half.exp()) as nat == 53);
    assert(half.mag_floor() == half.sig() / pow2(53));
    assert(0x10_0000_0000_0000nat / 0x20_0000_0000_0000nat == 0);
    assert(half.spec_floor() == 0);
    let f: Scalar = Scalar::of_int(0);
    assert(f == (Scalar { bits: 0 })) by {
        reveal(Scalar::of_int);
    }
    assert(turn_rest(x, 0).zero()) by {
        reveal(Scalar::spec_times);
        reveal(Scalar::spec_plus);
    }
}

/// The cosine of zero is 1.
pub proof fn lemma_cos_of_zero(x: Scalar)
    requires
        x.zero(),
    ensures
        x.spec_cos() == (Scalar { bits: ONE_BITS }),
{
    lemma_turns_of_zero(x);
    lemma_cos_kernel_at_zero(turn_rest(x, 0));
}

/// The sine of zero is zero.
pub proof fn lemma_sin_of_zero(x: Scalar)
    requires
        x.zero(),
    ensures
        x.spec_sin().zero(),
{
    lemma_turns_of_zero(x);
    lemma_sin_kernel_at_zero(turn_rest(x, 0));
}

/// The arc cosine of 1 is zero.
pub proof fn lemma_acos_of_one()
    ensures
        (Scalar { bits: ONE_BITS }).spec_acos() == (Scalar { bits: 0 }),
{
}

/// Twice what pi / 2 has beyond the number nearest to it is that with its
/// exponent one higher.
proof fn lemma_twice_low()
    ensures
        Scalar::from_bits(TWO_BITS).spec_times(Scalar::from_bits(HALF_PI_LOW_BITS)) == (Scalar {
            bits: 0x3CA1_A626_3314_5C07,
        }),
{
    let two: Scalar = Scalar::from_bits(TWO_BITS);
    let low: Scalar = Scalar::from_bits(HALF_PI_LOW_BITS);
    let twice: Scalar = two.spec_times(low);
    let wanted: Scalar = Scalar { bits: 0x3CA1_A626_3314_5C07 };
    assert(two.sig() == HIDDEN_BIT && two.exp() == -51 && !two.negative());
    assert(low.sig() == 0x11_A626_3314_5C07 && low.exp() == -106 && !low.negative());
    assert(wanted.sig() == 0x11_A626_3314_5C07 && wanted.exp() == -105 && !wanted.negative());
    assert(twice.finite()) by {
        reveal(Scalar::spec_times);
        assert(two.sig() * low.sig() < 0x1_0000_0000_0000_0000_0000_0000_0000) by (nonlinear_arith)
            requires
                two.sig() == 0x10_0000_0000_0000,
                low.sig() == 0x11_A626_3314_5C07,
        ;
        lemma_rounded_is_finite(false, two.sig() * low.sig(), -157, false);
    }
    lemma_double(low);
    lemma_pow2_unfold(969);
    assert(wanted.weight() == 2 * low.weight()) by (nonlinear_arith)
        requires
            wanted.weight() == 0x11_A626_3314_5C07 * pow2(969),
            low.weight() == 0x11_A626_3314_5C07 * pow2(968),
            pow2(969) == 2 * pow2(968),
    ;
    lemma_order_is_that_of_values(twice, wanted);
}

/// The arc cosine of -1 is pi: the number nearest to pi.
pub proof fn lemma_acos_of_minus_one()
    ensures
        (Scalar { bits: NEG_ONE_BITS }).spec_acos() == (Scalar { bits: PI_BITS }),
{
    let pi: Scalar = Scalar::from_bits(PI_BITS);
    let small: Scalar = Scalar { bits: 0x3CA1_A626_3314_5C07 };
    lemma_twice_low();
    let r: Scalar = pi.spec_plus(small);
    assert((Scalar { bits: NEG_ONE_BITS }).spec_acos() == r);
    assert(pi.sig() == 0x19_21FB_5444_2D18 && pi.exp() == -51 && !pi.negative());
    assert(small.sig() == 0x11_A626_3314_5C07 && small.exp() == -105 && !small.negative());
    lemma2_to64_rest();
    let n: nat = pi.sig() * pow2(54) + small.sig();
    assert(0 < n < 0x1_0000_0000_0000_0000_0000_0000_0000_0000) by (nonlinear_arith)
        requires
            n == pi.sig() * pow2(54) + small.sig(),
            pi.sig() == 0x19_21FB_5444_2D18,
            pow2(54) == 0x40_0000_0000_0000,
            small.sig() == 0x11_A626_3314_5C07,
    ;
    assert(r == crate::scalar::round::rounded(false, n, -105, false)) by {
        reveal(Scalar::spec_plus);
        reveal(Scalar::sum_ordered);
    }
    lemma_rounded_is_finite(false, n, -105, false);
    lemma_rounded_has_sign(false, n, -105, false);
    lemma_sum_is_nearest(pi, small, pi);
    // the number above pi lies further from pi than twice what was added
    let next: Scalar = Scalar { bits: 0x4009_21FB_5444_2D19 };
    assert(next.sig() == 0x19_21FB_5444_2D19 && next.exp() == -51);
    lemma_pow2_adds(54, 969);
    let step: nat = pow2(1023);
    assert(next.weight() == pi.weight() + step) by (nonlinear_arith)
        requires
            next.weight() == 0x19_21FB_5444_2D19 * step,
            pi.weight() == 0x19_21FB_5444_2D18 * step,
    ;
    lemma_pow2_pos(969);
    assert(2 * small.weight() < step) by (nonlinear_arith)
        requires
            small.weight() == 0x11_A626_3314_5C07 * pow2(969),
            step == 0x40_0000_0000_0000 * pow2(969),
            pow2(969) > 0,
    ;
    if r.mag() < pi.mag() {
        lemma_weight_increases(r, pi);
    }
    if r.mag() > next.mag() {
        lemma_weight_increases(next, r);
    }
    assert(r.mag() == pi.mag());
}

} // verus!
