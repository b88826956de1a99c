//! Vectors whose length is one without rounding, and the mirror about the
//! plane that such a vector stands on.
use vstd::prelude::*;
use vstd::arithmetic::power2::{pow2, lemma_pow2_unfold, lemma2_to64};
use crate::scalar::{Scalar, INF_BITS, ONE_BITS, TWO_BITS};
use crate::scalar::value::{lemma_weight_increases, lemma_weight_of_zero};
use crate::coord::{
    Vec3d, lemma_double_of_same, lemma_dot_with_first_axis, lemma_dot_with_second_axis,
    lemma_dot_with_third_axis, lemma_reflect_twice_about_first_axis,
    lemma_reflect_twice_about_second_axis, lemma_reflect_twice_about_third_axis,
};

verus! {

/// Whether the length of `n` is one as a real number: its coordinates are
/// finite, and their squares add up to one with nothing rounded.
pub open spec fn exactly_unit(n: Vec3d) -> bool {
    n.x.finite() && n.y.finite() && n.z.finite() && n.x.weight() * n.x.weight() + n.y.weight()
        * n.y.weight() + n.z.weight() * n.z.weight() == pow2(1074) * pow2(1074)
}

/// Whether `n` is the unit vector along an axis, in either sense.
pub open spec fn axis(n: Vec3d) -> bool {
    (n.x.mag() == ONE_BITS && n.y.zero() && n.z.zero()) || (n.x.zero() && n.y.mag() == ONE_BITS
        && n.z.zero()) || (n.x.zero() && n.y.zero() && n.z.mag() == ONE_BITS)
}

/// The square of a natural number, by its half and its last bit.
proof fn lemma_square_by_halves(a: nat)
    ensures
        a * a == 4 * ((a / 2) * (a / 2) + (a / 2) * (a % 2)) + a % 2,
{
    let q: nat = a / 2;
    let r: nat = a % 2;
    assert(a == 2 * q + r);
    assert((2 * q + r) * (2 * q + r) == 4 * (q * q + q * r) + r * r) by (nonlinear_arith);
    assert(r * r == r) by (nonlinear_arith)
        requires
            r == 0 || r == 1,
    ;
}

/// Three squares add up to the square of a power of two only where one of
/// them is that square and the others are zero.
proof fn lemma_three_squares(a: nat, b: nat, c: nat, k: nat)
    requires
        a * a + b * b + c * c == pow2(k) * pow2(k),
    ensures
        (a == pow2(k) && b == 0 && c == 0) || (a == 0 && b == pow2(k) && c == 0) || (a == 0 && b == 0
            && c == pow2(k)),
    decreases k,
{
    if k == 0 {
        lemma2_to64();
        assert(a <= 1 && b <= 1 && c <= 1) by (nonlinear_arith)
            requires
                a * a + b * b + c * c == 1,
        ;
        assert(a * a == a && b * b == b && c * c == c) by (nonlinear_arith)
            requires
                a <= 1 && b <= 1 && c <= 1,
        ;
    } else {
        let p: nat = pow2((k - 1) as nat);
        lemma_pow2_unfold(k);
        assert(pow2(k) == 2 * p);
        assert(pow2(k) * pow2(k) == 4 * (p * p)) by (nonlinear_arith)
            requires
                pow2(k) == 2 * p,
        ;
        lemma_square_by_halves(a);
        lemma_square_by_halves(b);
        lemma_square_by_halves(c);
        let qa: nat = a / 2;
        let qb: nat = b / 2;
        let qc: nat = c / 2;
        let ra: nat = a % 2;
        let rb: nat = b % 2;
        let rc: nat = c % 2;
        let ha: nat = qa * qa + qa * ra;
        let hb: nat = qb * qb + qb * rb;
        let hc: nat = qc * qc + qc * rc;
        assert(4 * (ha + hb + hc) + (ra + rb + rc) == 4 * (p * p));
        assert(ra + rb + rc == 0);
        assert(ha == qa * qa && hb == qb * qb && hc == qc * qc) by (nonlinear_arith)
            requires
                ra == 0 && rb == 0 && rc == 0,
                ha == qa * qa + qa * ra,
                hb == qb * qb + qb * rb,
                hc == qc * qc + qc * rc,
        ;
        lemma_three_squares(qa, qb, qc, (k - 1) as nat);
        assert(a == 2 * qa && b == 2 * qb && c == 2 * qc);
    }
}

/// A finite number whose magnitude is that of 1 has the pattern of 1, the
/// sign left aside.
proof fn lemma_weight_of_one(a: Scalar)
    requires
        a.finite(),
        a.weight() == pow2(1074),
    ensures
        a.mag() == ONE_BITS,
{
    let one: Scalar = Scalar { bits: ONE_BITS };
    assert(one.weight() == pow2(1074)) by {
        crate::scalar::round::lemma_pow2_values();
        vstd::arithmetic::power2::lemma_pow2_adds(52, 1022);
        assert(one.mag() == ONE_BITS);
        assert(one.sig() == 0x10_0000_0000_0000);
        assert(one.exp() == -52);
    }
    if a.mag() < ONE_BITS {
        lemma_weight_increases(a, one);
    }
    if a.mag() > ONE_BITS {
        assert(a.mag() < INF_BITS);
        lemma_weight_increases(one, a);
    }
}

/// The vectors of finite numbers whose length is one as a real number are
/// the unit vectors along the axes, in either sense, and no others.
pub proof fn lemma_exactly_unit_is_axis(n: Vec3d)
    requires
        exactly_unit(n),
    ensures
        axis(n),
{
    lemma_three_squares(n.x.weight(), n.y.weight(), n.z.weight(), 1074);
    lemma_weight_of_zero(n.x);
    lemma_weight_of_zero(n.y);
    lemma_weight_of_zero(n.z);
    if n.x.weight() == pow2(1074) {
        lemma_weight_of_one(n.x);
    }
    if n.y.weight() == pow2(1074) {
        lemma_weight_of_one(n.y);
    }
    if n.z.weight() == pow2(1074) {
        lemma_weight_of_one(n.z);
    }
}

/// Mirrored twice about the plane orthogonal to a vector of length one, a
/// finite vector is the vector it was, as numbers: for every normal whose
/// length is one as a real number, and every vector of which twice the
/// scalar product with the normal is finite.
pub proof fn lemma_reflect_twice(v: Vec3d, n: Vec3d)
    requires
        v.x.finite() && v.y.finite() && v.z.finite(),
        exactly_unit(n),
        Scalar::from_bits(TWO_BITS).times(v.spec_dot(n)).finite(),
    ensures
        v.spec_reflect(n).spec_reflect(n).x.spec_equals(v.x),
        v.spec_reflect(n).spec_reflect(n).y.spec_equals(v.y),
        v.spec_reflect(n).spec_reflect(n).z.spec_equals(v.z),
{
    lemma_exactly_unit_is_axis(n);
    if n.x.mag() == ONE_BITS && n.y.zero() && n.z.zero() {
        lemma_dot_with_first_axis(v, n);
        lemma_double_of_same(v.spec_dot(n), v.x);
        lemma_reflect_twice_about_first_axis(v, n);
    } else if n.x.zero() && n.y.mag() == ONE_BITS && n.z.zero() {
        lemma_dot_with_second_axis(v, n);
        lemma_double_of_same(v.spec_dot(n), v.y);
        lemma_reflect_twice_about_second_axis(v, n);
    } else {
        lemma_dot_with_third_axis(v, n);
        lemma_double_of_same(v.spec_dot(n), v.z);
        lemma_reflect_twice_about_third_axis(v, n);
    }
}

} // verus!
