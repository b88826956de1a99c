//! Points and directions in space.
use vstd::prelude::*;
use crate::scalar::{Scalar, ONE_BITS, TWO_BITS};
use crate::scalar::arith::lemma_over_self_is_one;
use crate::scalar::nearest::{lemma_square_is_not_negative, lemma_sum_stays_positive, lemma_root_of_nonzero, lemma_root_of_one};
use crate::scalar::value::{lemma_times_one, lemma_times_commutes};
use crate::scalar::nearest::lemma_minus_double;

pub mod ops;
pub mod unit;

verus! {

/// A point or a direction: three binary64 coordinates.
#[derive(Debug, PartialEq, Clone, Copy)]
pub struct Vec3d {
    pub x: Scalar,
    pub y: Scalar,
    pub z: Scalar,
}

impl Vec3d {
    /// The squared length, `x * x + y * y + z * z`, summed from the left.
    pub open spec fn spec_normsq(&self) -> Scalar {
        self.x.times(self.x).plus(self.y.times(self.y)).plus(self.z.times(self.z))
    }

    /// The squared length.
    #[verifier::when_used_as_spec(spec_normsq)]
    pub fn normsq(&self) -> (r: Scalar)
        ensures
            r == self.spec_normsq(),
    {
        self.x.times(self.x).plus(self.y.times(self.y)).plus(self.z.times(self.z))
    }

    /// The length: the square root of the squared length.
    pub open spec fn spec_norm(&self) -> Scalar {
        self.spec_normsq().sqrt()
    }

    /// The length.
    #[verifier::when_used_as_spec(spec_norm)]
    pub fn norm(&self) -> (r: Scalar)
        ensures
            r == self.spec_norm(),
    {
        self.normsq().sqrt()
    }

    /// The vector over its length; nothing where the length is zero.
    pub open spec fn spec_normalize(&self) -> Option<Vec3d> {
        if self.spec_norm().zero() {
            None
        } else {
            Some(self.spec_over(self.spec_norm()))
        }
    }

    /// The vector of length one in the same direction. A vector whose
    /// length is zero has none.
    #[verifier::when_used_as_spec(spec_normalize)]
    pub fn normalize(&self) -> (r: Option<Vec3d>)
        ensures
            r == self.spec_normalize(),
            r.is_none() <==> self.spec_norm().zero(),
    {
        let n: Scalar = self.norm();
        if n.is_zero() {
            None
        } else {
            Some(self.over(n))
        }
    }

    /// The scalar product, `x * x' + y * y' + z * z'`, summed from the left.
    pub open spec fn spec_dot(&self, other: Vec3d) -> Scalar {
        self.x.times(other.x).plus(self.y.times(other.y)).plus(self.z.times(other.z))
    }

    /// The scalar product.
    #[verifier::when_used_as_spec(spec_dot)]
    pub fn dot(&self, other: Vec3d) -> (r: Scalar)
        ensures
            r == self.spec_dot(other),
    {
        self.x.times(other.x).plus(self.y.times(other.y)).plus(self.z.times(other.z))
    }

    /// The vector product.
    pub open spec fn spec_cross(&self, other: Vec3d) -> Vec3d {
        Vec3d {
            x: self.y.times(other.z).minus(other.y.times(self.z)),
            y: self.z.times(other.x).minus(other.z.times(self.x)),
            z: self.x.times(other.y).minus(other.x.times(self.y)),
        }
    }

    /// The vector product.
    #[verifier::when_used_as_spec(spec_cross)]
    pub fn cross(&self, other: Vec3d) -> (r: Vec3d)
        ensures
            r == self.spec_cross(other),
    {
        Vec3d {
            x: self.y.times(other.z).minus(other.y.times(self.z)),
            y: self.z.times(other.x).minus(other.z.times(self.x)),
            z: self.x.times(other.y).minus(other.x.times(self.y)),
        }
    }

    /// The sum, coordinate by coordinate.
    pub open spec fn spec_plus(&self, other: Vec3d) -> Vec3d {
        Vec3d { x: self.x.plus(other.x), y: self.y.plus(other.y), z: self.z.plus(other.z) }
    }

    /// The sum of two vectors.
    #[verifier::when_used_as_spec(spec_plus)]
    pub fn plus(&self, other: Vec3d) -> (r: Vec3d)
        ensures
            r == self.spec_plus(other),
    {
        Vec3d { x: self.x.plus(other.x), y: self.y.plus(other.y), z: self.z.plus(other.z) }
    }

    /// The difference, coordinate by coordinate.
    pub open spec fn spec_minus(&self, other: Vec3d) -> Vec3d {
        Vec3d { x: self.x.minus(other.x), y: self.y.minus(other.y), z: self.z.minus(other.z) }
    }

    /// The difference of two vectors.
    #[verifier::when_used_as_spec(spec_minus)]
    pub fn minus(&self, other: Vec3d) -> (r: Vec3d)
        ensures
            r == self.spec_minus(other),
    {
        Vec3d { x: self.x.minus(other.x), y: self.y.minus(other.y), z: self.z.minus(other.z) }
    }

    /// Each coordinate times `k`.
    pub open spec fn spec_times(&self, k: Scalar) -> Vec3d {
        Vec3d { x: self.x.times(k), y: self.y.times(k), z: self.z.times(k) }
    }

    /// The vector scaled by `k`.
    #[verifier::when_used_as_spec(spec_times)]
    pub fn times(&self, k: Scalar) -> (r: Vec3d)
        ensures
            r == self.spec_times(k),
    {
        Vec3d { x: self.x.times(k), y: self.y.times(k), z: self.z.times(k) }
    }

    /// Each coordinate over `k`.
    pub open spec fn spec_over(&self, k: Scalar) -> Vec3d {
        Vec3d { x: self.x.over(k), y: self.y.over(k), z: self.z.over(k) }
    }

    /// The vector divided by `k`.
    #[verifier::when_used_as_spec(spec_over)]
    pub fn over(&self, k: Scalar) -> (r: Vec3d)
        ensures
            r == self.spec_over(k),
    {
        Vec3d { x: self.x.over(k), y: self.y.over(k), z: self.z.over(k) }
    }

    /// The mirror image about the plane orthogonal to `normal`:
    /// `v - n * (2 * (v . n))`.
    pub open spec fn spec_reflect(&self, normal: Vec3d) -> Vec3d {
        self.spec_minus(normal.spec_times(Scalar::from_bits(TWO_BITS).times(self.spec_dot(normal))))
    }

    /// The mirror image of the vector about the plane orthogonal to the
    /// unit vector `normal`.
    #[verifier::when_used_as_spec(spec_reflect)]
    pub fn reflect(&self, normal: Vec3d) -> (r: Vec3d)
        ensures
            r == self.spec_reflect(normal),
    {
        self.minus(normal.times(Scalar::from_bits(TWO_BITS).times(self.dot(normal))))
    }

    /// Whether a coordinate is NaN.
    pub open spec fn spec_has_nan(&self) -> bool {
        self.x.nan() || self.y.nan() || self.z.nan()
    }

    /// Whether a coordinate is NaN.
    #[verifier::when_used_as_spec(spec_has_nan)]
    pub fn has_nan(&self) -> (r: bool)
        ensures
            r == self.spec_has_nan(),
    {
        self.x.is_nan() || self.y.is_nan() || self.z.is_nan()
    }
}

/// The vector whose coordinates are all zero, of either sign, has length
/// zero, and so no direction.
pub proof fn lemma_zero_vector_has_no_direction(v: Vec3d)
    requires
        v.x.zero(),
        v.y.zero(),
        v.z.zero(),
    ensures
        v.spec_norm().zero(),
        v.spec_normalize().is_none(),
{
    reveal(Scalar::spec_times);
    reveal(Scalar::spec_plus);
    reveal(Scalar::spec_sqrt);
}

/// Whether a coordinate is 1 or -1, or NaN.
pub open spec fn unit_or_nan(a: Scalar) -> bool {
    a.mag() == ONE_BITS || a.nan()
}

/// The square of 1 or -1 is 1, and that of NaN is NaN.
proof fn lemma_unit_square(a: Scalar)
    requires
        unit_or_nan(a),
    ensures
        a.nan() ==> a.spec_times(a).nan(),
        !a.nan() ==> a.spec_times(a) == (Scalar { bits: ONE_BITS }),
{
    let one: Scalar = Scalar { bits: ONE_BITS };
    lemma_times_one(one);
    reveal(Scalar::spec_times);
    if !a.nan() {
        assert(a.sig() == one.sig() && a.exp() == one.exp());
    }
}

/// The sum of two numbers that are not negative is not negative, and is
/// zero only where both are.
proof fn lemma_sum_is_not_negative(a: Scalar, b: Scalar)
    requires
        !a.nan() && !b.nan(),
        !a.negative() && !b.negative(),
    ensures
        !a.spec_plus(b).nan(),
        !a.spec_plus(b).negative(),
        a.spec_plus(b).zero() ==> a.zero() && b.zero(),
{
    if !a.zero() {
        lemma_sum_stays_positive(a, b);
    } else if !b.zero() {
        lemma_sum_stays_positive(b, a);
        crate::scalar::value::lemma_plus_commutes(a, b);
    } else {
        reveal(Scalar::spec_plus);
    }
}

/// A vector one of whose coordinates is 1 or -1, or NaN, has a direction,
/// whatever its other coordinates: its length is not zero.
pub proof fn lemma_has_direction(v: Vec3d)
    requires
        unit_or_nan(v.x) || unit_or_nan(v.y) || unit_or_nan(v.z),
    ensures
        !v.spec_norm().zero(),
        v.spec_normalize().is_some(),
{
    let a: Scalar = v.x.times(v.x);
    let b: Scalar = v.y.times(v.y);
    let c: Scalar = v.z.times(v.z);
    lemma_square_is_not_negative(v.x);
    lemma_square_is_not_negative(v.y);
    lemma_square_is_not_negative(v.z);
    if unit_or_nan(v.x) {
        lemma_unit_square(v.x);
    }
    if unit_or_nan(v.y) {
        lemma_unit_square(v.y);
    }
    if unit_or_nan(v.z) {
        lemma_unit_square(v.z);
    }
    let first: Scalar = a.plus(b);
    let second: Scalar = first.plus(c);
    if a.nan() || b.nan() {
        assert(first.nan() && second.nan()) by {
            reveal(Scalar::spec_plus);
        }
    } else {
        lemma_sum_is_not_negative(a, b);
        if c.nan() {
            assert(second.nan()) by {
                reveal(Scalar::spec_plus);
            }
        } else {
            lemma_sum_is_not_negative(first, c);
        }
    }
    assert(!second.zero());
    lemma_root_of_nonzero(second);
}

/// The vector of length 1 along the first axis is its own direction, and
/// so is the one along the third; zeros of either sign stay zeros.
pub proof fn lemma_axis_is_unit(v: Vec3d)
    requires
        (v.x == (Scalar { bits: ONE_BITS }) && v.y.zero() && v.z.zero()) || (v.x.zero() && v.y.zero()
            && v.z == (Scalar { bits: ONE_BITS })),
    ensures
        v.spec_normalize() matches Some(u) && u.x.zero() == v.x.zero() && u.y.zero() && u.z.zero()
            == v.z.zero() && (!v.x.zero() ==> u.x == v.x) && (!v.z.zero() ==> u.z == v.z),
{
    let one: Scalar = Scalar { bits: ONE_BITS };
    lemma_times_one(one);
    lemma_root_of_one();
    lemma_over_self_is_one(one);
    reveal(Scalar::spec_times);
    reveal(Scalar::spec_plus);
    reveal(Scalar::spec_over);
    assert(v.spec_normsq() == one);
}

/// Whether `r` is the number `a`, or its opposite where `flipped`: the
/// same magnitude, with the sign as it should be unless both are zero.
pub open spec fn same_number(r: Scalar, a: Scalar, flipped: bool) -> bool {
    r.mag() == a.mag() && (a.zero() || r.negative() == (a.negative() != flipped))
}

/// A finite number times a zero is a zero.
proof fn lemma_finite_times_zero(a: Scalar, z: Scalar)
    requires
        a.finite(),
        z.zero(),
    ensures
        a.spec_times(z).zero(),
        z.spec_times(a).zero(),
{
    reveal(Scalar::spec_times);
}

/// A finite number with a zero added or taken away is the same number.
proof fn lemma_with_zero(a: Scalar, z: Scalar)
    requires
        a.finite(),
        z.zero(),
    ensures
        same_number(a.spec_plus(z), a, false),
        same_number(z.spec_plus(a), a, false),
        same_number(a.spec_minus(z), a, false),
{
    reveal(Scalar::spec_plus);
}

/// What rounding gives has its magnitude whatever the sign asked for.
proof fn lemma_rounded_magnitude_of_sign(n: nat, x: int, sticky: bool)
    ensures
        crate::scalar::round::rounded(true, n, x, sticky).mag() == crate::scalar::round::rounded(
            false,
            n,
            x,
            sticky,
        ).mag(),
{
    reveal(crate::scalar::round::rounded);
    reveal(crate::scalar::round::rounded_magnitude);
}

/// Twice a number depends on its magnitude alone for its magnitude.
proof fn lemma_double_of_same(a: Scalar, b: Scalar)
    requires
        a.mag() == b.mag(),
    ensures
        (Scalar { bits: TWO_BITS }).spec_times(a).mag() == (Scalar { bits: TWO_BITS }).spec_times(b).mag(),
        (Scalar { bits: TWO_BITS }).spec_times(a).finite() == (Scalar { bits: TWO_BITS }).spec_times(
            b,
        ).finite(),
{
    reveal(Scalar::spec_times);
    if a.finite() && !a.zero() {
        let two: Scalar = Scalar { bits: TWO_BITS };
        lemma_rounded_magnitude_of_sign(two.sig() * a.sig(), two.exp() + a.exp(), false);
    }
}

/// A finite number times 1 or -1 is itself, or its opposite.
proof fn lemma_times_unit(a: Scalar, u: Scalar)
    requires
        a.finite(),
        u.mag() == ONE_BITS,
    ensures
        same_number(a.spec_times(u), a, u.negative()),
        same_number(u.spec_times(a), a, u.negative()),
        a.spec_times(u).finite(),
        u.spec_times(a).finite(),
{
    let one: Scalar = Scalar { bits: ONE_BITS };
    lemma_times_one(a);
    lemma_times_commutes(a, u);
    reveal(Scalar::spec_times);
    assert(u.sig() == one.sig() && u.exp() == one.exp());
    if !a.zero() {
        lemma_rounded_magnitude_of_sign(a.sig() * one.sig(), a.exp() + one.exp(), false);
        crate::scalar::round::lemma_rounded_has_sign(
            a.negative() != u.negative(),
            a.sig() * one.sig(),
            a.exp() + one.exp(),
            false,
        );
    }
}

/// A coordinate less the axis times twice the scalar product is the
/// coordinate negated, as numbers.
proof fn lemma_mirror_coordinate(a: Scalar, u: Scalar, along: Scalar)
    requires
        a.finite(),
        u.mag() == ONE_BITS,
        along.finite(),
        same_number(along, a, u.negative()),
        (Scalar { bits: TWO_BITS }).spec_times(a).finite(),
    ensures
        same_number(a.spec_minus(u.spec_times((Scalar { bits: TWO_BITS }).spec_times(along))), a, true),
{
    let two: Scalar = Scalar { bits: TWO_BITS };
    let twice: Scalar = two.spec_times(along);
    let whole: Scalar = two.spec_times(a);
    lemma_double_of_same(along, a);
    crate::scalar::nearest::lemma_double(along);
    crate::scalar::nearest::lemma_double(a);
    lemma_times_unit(twice, u);
    let part: Scalar = u.spec_times(twice);
    if a.zero() {
        assert(twice.zero()) by {
            reveal(Scalar::spec_times);
        }
        lemma_with_zero(a, part);
    } else {
        crate::scalar::value::lemma_weight_of_zero(a);
        crate::scalar::value::lemma_weight_of_zero(whole);
        assert(!whole.zero());
        assert(part.mag() == whole.mag());
        assert(part.negative() == whole.negative());
        assert(part == whole);
        lemma_minus_double(a);
    }
}

/// A coordinate less a zero of the axis times a finite number is the
/// coordinate, as numbers.
proof fn lemma_keep_coordinate(a: Scalar, z: Scalar, twice: Scalar)
    requires
        a.finite(),
        z.zero(),
        twice.finite(),
    ensures
        same_number(a.spec_minus(z.spec_times(twice)), a, false),
{
    lemma_finite_times_zero(twice, z);
    lemma_with_zero(a, z.spec_times(twice));
}

/// The scalar product of a finite vector with the unit vector along the
/// first axis, in either sense, is its first coordinate, or the
/// opposite of it.
proof fn lemma_dot_with_first_axis(v: Vec3d, n: Vec3d)
    requires
        v.x.finite() && v.y.finite() && v.z.finite(),
        n.x.mag() == ONE_BITS && n.y.zero() && n.z.zero(),
    ensures
        same_number(v.spec_dot(n), v.x, n.x.negative()),
        v.spec_dot(n).finite(),
{
    let tx: Scalar = v.x.times(n.x);
    let ty: Scalar = v.y.times(n.y);
    let tz: Scalar = v.z.times(n.z);
    lemma_times_unit(v.x, n.x);
    lemma_finite_times_zero(v.y, n.y);
    lemma_finite_times_zero(v.z, n.z);
    lemma_with_zero(tx, ty);
    lemma_with_zero(tx.plus(ty), tz);
    assert(v.spec_dot(n) == tx.plus(ty).plus(tz));
}

/// Mirrored about the plane orthogonal to the first axis, a finite
/// vector has its first coordinate negated and the others as they
/// were, as numbers: where twice that coordinate is finite. The normal is
/// the unit vector along the axis, in either sense.
pub proof fn lemma_reflect_about_first_axis(v: Vec3d, n: Vec3d)
    requires
        v.x.finite() && v.y.finite() && v.z.finite(),
        Scalar::from_bits(TWO_BITS).times(v.x).finite(),
        n.x.mag() == ONE_BITS && n.y.zero() && n.z.zero(),
    ensures
        same_number(v.spec_reflect(n).x, v.x, true),
        same_number(v.spec_reflect(n).y, v.y, false),
        same_number(v.spec_reflect(n).z, v.z, false),
{
    let along: Scalar = v.spec_dot(n);
    lemma_dot_with_first_axis(v, n);
    let twice: Scalar = Scalar::from_bits(TWO_BITS).times(along);
    lemma_double_of_same(along, v.x);
    lemma_mirror_coordinate(v.x, n.x, along);
    lemma_keep_coordinate(v.y, n.y, twice);
    lemma_keep_coordinate(v.z, n.z, twice);
}

/// Mirrored twice about the plane orthogonal to the first axis, a
/// finite vector is the vector it was, as numbers: where twice its
/// first coordinate is finite.
pub proof fn lemma_reflect_twice_about_first_axis(v: Vec3d, n: Vec3d)
    requires
        v.x.finite() && v.y.finite() && v.z.finite(),
        Scalar::from_bits(TWO_BITS).times(v.x).finite(),
        n.x.mag() == ONE_BITS && n.y.zero() && n.z.zero(),
    ensures
        v.spec_reflect(n).spec_reflect(n).x.spec_equals(v.x),
        v.spec_reflect(n).spec_reflect(n).y.spec_equals(v.y),
        v.spec_reflect(n).spec_reflect(n).z.spec_equals(v.z),
{
    let once: Vec3d = v.spec_reflect(n);
    lemma_reflect_about_first_axis(v, n);
    lemma_double_of_same(once.x, v.x);
    lemma_reflect_about_first_axis(once, n);
}

/// The scalar product of a finite vector with the unit vector along the
/// second axis, in either sense, is its second coordinate, or the
/// opposite of it.
proof fn lemma_dot_with_second_axis(v: Vec3d, n: Vec3d)
    requires
        v.x.finite() && v.y.finite() && v.z.finite(),
        n.y.mag() == ONE_BITS && n.x.zero() && n.z.zero(),
    ensures
        same_number(v.spec_dot(n), v.y, n.y.negative()),
        v.spec_dot(n).finite(),
{
    let tx: Scalar = v.x.times(n.x);
    let ty: Scalar = v.y.times(n.y);
    let tz: Scalar = v.z.times(n.z);
    lemma_times_unit(v.y, n.y);
    lemma_finite_times_zero(v.x, n.x);
    lemma_finite_times_zero(v.z, n.z);
    lemma_with_zero(ty, tx);
    lemma_with_zero(tx.plus(ty), tz);
    assert(v.spec_dot(n) == tx.plus(ty).plus(tz));
}

/// Mirrored about the plane orthogonal to the second axis, a finite
/// vector has its second coordinate negated and the others as they
/// were, as numbers: where twice that coordinate is finite. The normal is
/// the unit vector along the axis, in either sense.
pub proof fn lemma_reflect_about_second_axis(v: Vec3d, n: Vec3d)
    requires
        v.x.finite() && v.y.finite() && v.z.finite(),
        Scalar::from_bits(TWO_BITS).times(v.y).finite(),
        n.y.mag() == ONE_BITS && n.x.zero() && n.z.zero(),
    ensures
        same_number(v.spec_reflect(n).x, v.x, false),
        same_number(v.spec_reflect(n).y, v.y, true),
        same_number(v.spec_reflect(n).z, v.z, false),
{
    let along: Scalar = v.spec_dot(n);
    lemma_dot_with_second_axis(v, n);
    let twice: Scalar = Scalar::from_bits(TWO_BITS).times(along);
    lemma_double_of_same(along, v.y);
    lemma_mirror_coordinate(v.y, n.y, along);
    lemma_keep_coordinate(v.x, n.x, twice);
    lemma_keep_coordinate(v.z, n.z, twice);
}

/// Mirrored twice about the plane orthogonal to the second axis, a
/// finite vector is the vector it was, as numbers: where twice its
/// second coordinate is finite.
pub proof fn lemma_reflect_twice_about_second_axis(v: Vec3d, n: Vec3d)
    requires
        v.x.finite() && v.y.finite() && v.z.finite(),
        Scalar::from_bits(TWO_BITS).times(v.y).finite(),
        n.y.mag() == ONE_BITS && n.x.zero() && n.z.zero(),
    ensures
        v.spec_reflect(n).spec_reflect(n).x.spec_equals(v.x),
        v.spec_reflect(n).spec_reflect(n).y.spec_equals(v.y),
        v.spec_reflect(n).spec_reflect(n).z.spec_equals(v.z),
{
    let once: Vec3d = v.spec_reflect(n);
    lemma_reflect_about_second_axis(v, n);
    lemma_double_of_same(once.y, v.y);
    lemma_reflect_about_second_axis(once, n);
}

/// The scalar product of a finite vector with the unit vector along the
/// third axis, in either sense, is its third coordinate, or the
/// opposite of it.
proof fn lemma_dot_with_third_axis(v: Vec3d, n: Vec3d)
    requires
        v.x.finite() && v.y.finite() && v.z.finite(),
        n.z.mag() == ONE_BITS && n.x.zero() && n.y.zero(),
    ensures
        same_number(v.spec_dot(n), v.z, n.z.negative()),
        v.spec_dot(n).finite(),
{
    let tx: Scalar = v.x.times(n.x);
    let ty: Scalar = v.y.times(n.y);
    let tz: Scalar = v.z.times(n.z);
    lemma_times_unit(v.z, n.z);
    lemma_finite_times_zero(v.x, n.x);
    lemma_finite_times_zero(v.y, n.y);
    lemma_with_zero(tx, ty);
    lemma_with_zero(tz, tx.plus(ty));
    assert(v.spec_dot(n) == tx.plus(ty).plus(tz));
}

/// Mirrored about the plane orthogonal to the third axis, a finite
/// vector has its third coordinate negated and the others as they
/// were, as numbers: where twice that coordinate is finite. The normal is
/// the unit vector along the axis, in either sense.
pub proof fn lemma_reflect_about_third_axis(v: Vec3d, n: Vec3d)
    requires
        v.x.finite() && v.y.finite() && v.z.finite(),
        Scalar::from_bits(TWO_BITS).times(v.z).finite(),
        n.z.mag() == ONE_BITS && n.x.zero() && n.y.zero(),
    ensures
        same_number(v.spec_reflect(n).x, v.x, false),
        same_number(v.spec_reflect(n).y, v.y, false),
        same_number(v.spec_reflect(n).z, v.z, true),
{
    let along: Scalar = v.spec_dot(n);
    lemma_dot_with_third_axis(v, n);
    let twice: Scalar = Scalar::from_bits(TWO_BITS).times(along);
    lemma_double_of_same(along, v.z);
    lemma_mirror_coordinate(v.z, n.z, along);
    lemma_keep_coordinate(v.x, n.x, twice);
    lemma_keep_coordinate(v.y, n.y, twice);
}

/// Mirrored twice about the plane orthogonal to the third axis, a
/// finite vector is the vector it was, as numbers: where twice its
/// third coordinate is finite.
pub proof fn lemma_reflect_twice_about_third_axis(v: Vec3d, n: Vec3d)
    requires
        v.x.finite() && v.y.finite() && v.z.finite(),
        Scalar::from_bits(TWO_BITS).times(v.z).finite(),
        n.z.mag() == ONE_BITS && n.x.zero() && n.y.zero(),
    ensures
        v.spec_reflect(n).spec_reflect(n).x.spec_equals(v.x),
        v.spec_reflect(n).spec_reflect(n).y.spec_equals(v.y),
        v.spec_reflect(n).spec_reflect(n).z.spec_equals(v.z),
{
    let once: Vec3d = v.spec_reflect(n);
    lemma_reflect_about_third_axis(v, n);
    lemma_double_of_same(once.z, v.z);
    lemma_reflect_about_third_axis(once, n);
}

/// 1 or -1 over 1 is itself.
proof fn lemma_unit_over_one(a: Scalar)
    requires
        a.mag() == ONE_BITS,
    ensures
        a.spec_over(Scalar { bits: ONE_BITS }) == a,
{
    let one: Scalar = Scalar { bits: ONE_BITS };
    lemma_over_self_is_one(one);
    reveal(Scalar::spec_over);
    assert(a.sig() == one.sig() && a.exp() == one.exp());
    let k: nat = crate::scalar::round::lead(one.sig());
    let top: nat = one.sig() * vstd::arithmetic::power2::pow2(k);
    let q: nat = top / one.sig();
    let st: bool = top % one.sig() != 0;
    let e: int = one.exp() - k - one.exp();
    lemma_rounded_magnitude_of_sign(q, e, st);
    crate::scalar::round::lemma_rounded_has_sign(a.negative(), q, e, st);
    let r: Scalar = a.spec_over(one);
    assert(r == crate::scalar::round::rounded(a.negative(), q, e, st));
    assert(r.mag() == ONE_BITS);
}

/// A vector of length 1 along the first or the second axis, in either
/// sense, is its own direction; zeros of either sign stay zeros.
pub proof fn lemma_axis_direction(v: Vec3d)
    requires
        (v.x.mag() == ONE_BITS && v.y.zero() && v.z.zero()) || (v.x.zero() && v.y.mag() == ONE_BITS
            && v.z.zero()),
    ensures
        v.spec_normalize() matches Some(u) && u.x.mag() == v.x.mag() && u.y.mag() == v.y.mag() && u.z.zero()
            && u.x.finite() && u.y.finite(),
{
    let one: Scalar = Scalar { bits: ONE_BITS };
    let zero: Scalar = Scalar { bits: 0 };
    let a: Scalar = v.x.times(v.x);
    let b: Scalar = v.y.times(v.y);
    let c: Scalar = v.z.times(v.z);
    if v.x.mag() == ONE_BITS {
        lemma_unit_square(v.x);
        lemma_unit_over_one(v.x);
        assert(a == one);
        assert(b == zero && c == zero) by {
            reveal(Scalar::spec_times);
        }
    } else {
        lemma_unit_square(v.y);
        lemma_unit_over_one(v.y);
        assert(b == one);
        assert(a == zero && c == zero) by {
            reveal(Scalar::spec_times);
        }
    }
    assert(a.plus(b) == one && one.plus(c) == one) by {
        reveal(Scalar::spec_plus);
    }
    lemma_root_of_one();
    assert(v.spec_normsq() == one);
    assert(v.spec_norm() == one);
    assert forall|z: Scalar| z.zero() implies (#[trigger] z.spec_over(one)).zero() by {
        reveal(Scalar::spec_over);
    }
}

} // verus!
