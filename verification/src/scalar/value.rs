//! What the patterns stand for: the value of a finite number, and the laws
//! that tie the order and the quotient of patterns to it.
use vstd::prelude::*;
use vstd::arithmetic::power2::*;
use vstd::arithmetic::div_mod::*;
use vstd::arithmetic::mul::*;
use crate::scalar::{Scalar, HIDDEN_BIT, INF_BITS, ONE_BITS};
use crate::scalar::round::{rounded, rounded_magnitude, lead, lemma_pow2_values, lemma_lead_bounds, lemma_lead_unique, TWO_127, TWO_64};

verus! {

impl Scalar {
    /// `2^1074` times the magnitude of a finite number, which is an
    /// integer: the significand, shifted by the exponent above the lowest.
    pub open spec fn weight(self) -> nat {
        self.sig() * pow2((self.exp() + 1074) as nat)
    }

    /// `2^1074` times the value of a finite number.
    pub open spec fn scaled(self) -> int {
        if self.negative() {
            -(self.weight() as int)
        } else {
            self.weight() as int
        }
    }
}

/// A power of two with a larger exponent is larger, and the other way
/// round.
pub proof fn lemma_pow2_order(a: nat, b: nat)
    ensures
        a < b <==> pow2(a) < pow2(b),
        a <= b <==> pow2(a) <= pow2(b),
{
    if a < b {
        lemma_pow2_strictly_increases(a, b);
    }
    if b < a {
        lemma_pow2_strictly_increases(b, a);
    }
}

/// Of two finite numbers the one with the larger pattern, the sign left
/// aside, has the larger magnitude.
pub proof fn lemma_weight_increases(a: Scalar, b: Scalar)
    requires
        a.mag() < b.mag() < INF_BITS,
    ensures
        a.weight() < b.weight(),
{
    lemma_pow2_values();
    let fa: nat = a.mag() / (HIDDEN_BIT as nat);
    let fb: nat = b.mag() / (HIDDEN_BIT as nat);
    let ea: nat = (a.exp() + 1074) as nat;
    let eb: nat = (b.exp() + 1074) as nat;
    let sa: nat = a.sig();
    let sb: nat = b.sig();
    let pa: nat = pow2(ea);
    let pb: nat = pow2(eb);
    lemma_pow2_pos(ea);
    lemma_pow2_pos(eb);
    if fa == fb {
        assert(ea == eb);
        assert(sa < sb);
        assert(sa * pa < sb * pa) by (nonlinear_arith)
            requires
                sa < sb,
                pa > 0,
        ;
    } else {
        assert(fa < fb);
        assert(sb >= HIDDEN_BIT);
        if fa == 0 {
            assert(ea == 0);
            assert(sa * pa == sa);
            assert(sb * pb >= sb) by (nonlinear_arith)
                requires
                    pb >= 1,
            ;
        } else {
            assert(eb >= ea + 1);
            lemma_pow2_order(ea + 1, eb);
            lemma_pow2_unfold(ea + 1);
            assert(sa * pa < sb * pb) by (nonlinear_arith)
                requires
                    sa < 2 * HIDDEN_BIT,
                    sb >= HIDDEN_BIT,
                    pb >= 2 * pa,
                    pa > 0,
            ;
        }
    }
}

/// Only the zeros have no magnitude.
pub proof fn lemma_weight_of_zero(a: Scalar)
    requires
        a.finite(),
    ensures
        a.weight() == 0 <==> a.zero(),
{
    lemma_pow2_pos((a.exp() + 1074) as nat);
    let s: nat = a.sig();
    let p: nat = pow2((a.exp() + 1074) as nat);
    if a.zero() {
        assert(s == 0);
        assert(s * p == 0) by (nonlinear_arith)
            requires
                s == 0,
        ;
    } else {
        assert(s > 0);
        assert(s * p > 0) by (nonlinear_arith)
            requires
                s > 0,
                p > 0,
        ;
    }
}

/// Finite numbers are ordered as their values are.
pub proof fn lemma_order_is_that_of_values(a: Scalar, b: Scalar)
    requires
        a.finite(),
        b.finite(),
    ensures
        a.spec_less(b) <==> a.scaled() < b.scaled(),
        a.spec_less_eq(b) <==> a.scaled() <= b.scaled(),
        a.spec_equals(b) <==> a.scaled() == b.scaled(),
{
    lemma_weight_of_zero(a);
    lemma_weight_of_zero(b);
    if a.mag() < b.mag() {
        lemma_weight_increases(a, b);
    }
    if b.mag() < a.mag() {
        lemma_weight_increases(b, a);
    }
}

/// The magnitude that rounding gives to a value of at most `2^63 * 2^x`
/// with `x` below -63, and so below 1, is at most that of 1.
proof fn lemma_rounded_below_one(q: nat, x: int, sticky: bool)
    requires
        TWO_64 / 2 <= q < TWO_64,
        x <= -64,
    ensures
        rounded_magnitude(q, x, sticky) <= ONE_BITS,
{
    reveal(rounded_magnitude);
    lemma_pow2_values();
    let e: int = x + 1086;
    let shift: nat = if e >= 1 {
        11
    } else if e >= -53 {
        (12 - e) as nat
    } else {
        65
    };
    let p: nat = pow2(shift);
    lemma_pow2_order(11, shift);
    lemma_pow2_pos(shift);
    lemma_div_is_ordered_by_denominator(q as int, pow2(11) as int, p as int);
    assert(q / p <= q / 0x800);
    if e < 1 {
        lemma_pow2_order(12, shift);
        lemma_div_is_ordered_by_denominator(q as int, pow2(12) as int, p as int);
    }
}

/// The magnitude that rounding gives to `2^63 * 2^-63`, which is 1, is
/// that of 1.
proof fn lemma_rounded_one()
    ensures
        rounded_magnitude((TWO_64 / 2) as nat, -63, false) == ONE_BITS,
{
    reveal(rounded_magnitude);
    lemma_pow2_values();
}

/// A number at most as large as a finite number above zero, over that
/// number, is at most 1.
pub proof fn lemma_quotient_at_most_one(x: Scalar, m: Scalar)
    requires
        m.finite(),
        m.spec_greater(Scalar { bits: 0 }),
        x.spec_less_eq(m),
    ensures
        x.spec_over(m).spec_less_eq(Scalar { bits: ONE_BITS }),
{
    reveal(Scalar::spec_over);
    reveal(rounded);
    reveal(rounded_magnitude);
    lemma_pow2_values();
    if x.infinite() || x.zero() {
    } else if x.negative() {
        let k: nat = lead(x.sig());
        let a: nat = x.sig() * pow2(k);
        let r: Scalar = rounded(true, a / m.sig(), x.exp() - k - m.exp(), a % m.sig() != 0);
        assert(r.negative());
    } else {
        lemma_order_is_that_of_values(x, m);
        let sx: nat = x.sig();
        let sm: nat = m.sig();
        let k: nat = lead(sx);
        let a: nat = sx * pow2(k);
        lemma_lead_bounds(sx);
        let ax: nat = (x.exp() + 1074) as nat;
        let am: nat = (m.exp() + 1074) as nat;
        let px: nat = pow2(ax);
        let pm: nat = pow2(am);
        let pk: nat = pow2(k);
        lemma_pow2_pos(ax);
        lemma_pow2_pos(am);
        lemma_pow2_pos(k);
        assert(sx * px <= sm * pm);
        // the exponents lie at least as far apart as the leading bits
        lemma_pow2_adds(am, k);
        assert(a * px <= sm * pow2(am + k)) by (nonlinear_arith)
            requires
                sx * px <= sm * pm,
                a == sx * pk,
                pow2(am + k) == pm * pk,
                pk > 0,
        ;
        if am + k < ax {
            lemma_pow2_order(am + k, ax);
            assert(false) by (nonlinear_arith)
                requires
                    a * px <= sm * pow2(am + k),
                    pow2(am + k) < px,
                    a >= TWO_127,
                    sm < 2 * HIDDEN_BIT,
                    px > 0,
            ;
        }
        let d: nat = (am + k - ax) as nat;
        let pd: nat = pow2(d);
        lemma_pow2_adds(d, ax);
        lemma_pow2_pos(d);
        assert(a <= sm * pd) by (nonlinear_arith)
            requires
                a * px <= sm * pow2(am + k),
                pow2(am + k) == pd * px,
                px > 0,
        ;
        let q: nat = a / sm;
        assert(sm * pd == pd * sm) by (nonlinear_arith);
        lemma_div_is_ordered(a as int, (pd * sm) as int, sm as int);
        lemma_div_multiples_vanish(pd as int, sm as int);
        assert(q <= pd);
        lemma_div_non_zero(a as int, sm as int);
        lemma_div_nonincreasing(a as int, sm as int);
        assert(0 < q < 2 * TWO_127);
        let e: int = x.exp() - k - m.exp();
        assert(e == -d);
        let k2: nat = lead(q);
        lemma_lead_bounds(q);
        let t: nat = q * pow2(k2);
        let big: nat = t / (TWO_64 as nat);
        assert(TWO_64 / 2 <= big < TWO_64);
        let xx: int = e - k2 + 64;
        lemma_pow2_adds(d, k2);
        lemma_pow2_pos(k2);
        if q == pd {
            lemma_fundamental_div_mod(a as int, sm as int);
            assert(a >= sm * q) by (nonlinear_arith)
                requires
                    a == sm * q + a % sm,
                    a % sm >= 0,
            ;
            assert(a % sm == 0);
            lemma_pow2_order(d + k2, 127);
            lemma_pow2_order(127, d + k2);
            lemma_pow2_order(d + k2, 128);
            lemma_pow2_adds(127, 1);
            assert(d + k2 == 127);
            assert(t == TWO_127);
            lemma_rounded_one();
        } else {
            assert(pd * pow2(k2) > TWO_127) by (nonlinear_arith)
                requires
                    q < pd,
                    q * pow2(k2) >= TWO_127,
                    pow2(k2) > 0,
            ;
            lemma_pow2_order(127, d + k2);
            assert(d + k2 >= 128);
            lemma_rounded_below_one(big, xx, a % sm != 0 || t % (TWO_64 as nat) != 0);
        }
    }
}

/// Rounding leaves a number as it is: the value of a finite number that is
/// not zero, given by its significand and its exponent, rounds to that
/// number.
pub proof fn lemma_rounding_keeps_numbers(c: Scalar)
    requires
        c.finite(),
        !c.zero(),
    ensures
        rounded(c.negative(), c.sig(), c.exp(), false) == c,
{
    reveal(rounded);
    reveal(rounded_magnitude);
    lemma_pow2_values();
    let s: nat = c.sig();
    let k: nat = lead(s);
    lemma_lead_bounds(s);
    let t: nat = s * pow2(k);
    lemma_pow2_pos(k);
    // the significand has at most 53 bits: its lead is 75 or more
    assert(k >= 75) by {
        if k < 75 {
            lemma_pow2_order(k, 74);
            lemma2_to64();
            lemma_pow2_adds(64, 10);
            assert(s * pow2(k) < TWO_127) by (nonlinear_arith)
                requires
                    s < 2 * HIDDEN_BIT,
                    pow2(k) <= pow2(74),
                    pow2(74) == 0x400_0000_0000_0000_0000,
            ;
        }
    }
    let j: nat = (k - 64) as nat;
    lemma_pow2_adds(j, 64);
    lemma_pow2_pos(j);
    assert(t == (s * pow2(j)) * TWO_64) by (nonlinear_arith)
        requires
            t == s * pow2(k),
            pow2(k) == pow2(j) * TWO_64,
    ;
    lemma_div_multiples_vanish((s * pow2(j)) as int, TWO_64 as int);
    lemma_mod_multiples_basic((s * pow2(j)) as int, TWO_64 as int);
    let q: nat = t / (TWO_64 as nat);
    assert(q == s * pow2(j));
    assert(t % (TWO_64 as nat) == 0);
    let x: int = c.exp() - k + 64;
    let e: int = x + 1086;
    if c.mag() >= HIDDEN_BIT {
        // a normal number: the leading bit of the significand is bit 52
        assert(k == 75) by {
            lemma_pow2_adds(64, 11);
            lemma_pow2_adds(11, 64);
            assert(TWO_127 <= s * pow2(75) < 2 * TWO_127) by (nonlinear_arith)
                requires
                    HIDDEN_BIT <= s < 2 * HIDDEN_BIT,
                    pow2(75) == 0x800 * TWO_64,
            ;
            lemma_lead_unique(s, 75);
        }
        assert(q == s * 0x800);
        assert(e == c.mag() / (HIDDEN_BIT as nat));
    } else {
        // a subnormal number: the shift undoes the lead
        assert(e == 76 - k);
        assert(k >= 76) by {
            if k == 75 {
                lemma_pow2_adds(64, 11);
                assert(s * pow2(75) < TWO_127) by (nonlinear_arith)
                    requires
                        s < HIDDEN_BIT,
                        pow2(75) == 0x800 * TWO_64,
                ;
            }
        }
        assert(12 - e == j);
        assert(s * pow2(j) == pow2(j) * s) by (nonlinear_arith);
        lemma_div_multiples_vanish(s as int, pow2(j) as int);
        lemma_mod_multiples_basic(s as int, pow2(j) as int);
        assert(q / pow2(j) == s);
        assert(q % pow2(j) == 0);
    }
}

/// The product does not depend on the order of its factors.
pub proof fn lemma_times_commutes(a: Scalar, b: Scalar)
    ensures
        a.spec_times(b) == b.spec_times(a),
{
    reveal(Scalar::spec_times);
    lemma_mul_is_commutative(a.sig() as int, b.sig() as int);
}

/// The sum does not depend on the order of its terms.
pub proof fn lemma_plus_commutes(a: Scalar, b: Scalar)
    ensures
        a.spec_plus(b) == b.spec_plus(a),
{
    reveal(Scalar::spec_plus);
    reveal(Scalar::sum_ordered);
    lemma_pow2_values();
    if a.finite() && b.finite() && !a.zero() && !b.zero() && a.mag() == b.mag() {
        assert(a.sig() == b.sig());
        assert(a.exp() == b.exp());
        assert(a.sig() * pow2(0) == a.sig());
    }
}

/// A number times 1 is that number.
pub proof fn lemma_times_one(a: Scalar)
    requires
        !a.nan(),
    ensures
        a.spec_times(Scalar { bits: ONE_BITS }) == a,
{
    reveal(Scalar::spec_times);
    let one: Scalar = Scalar { bits: ONE_BITS };
    lemma_pow2_values();
    assert(one.sig() == HIDDEN_BIT);
    assert(one.exp() == -52);
    if a.finite() && !a.zero() {
        lemma_rounding_keeps_numbers(a);
        lemma_rounded_scales(a.negative(), a.sig(), a.exp(), 52);
        assert(a.sig() * one.sig() == a.sig() * pow2(52));
    }
}

/// A value rounds to the same number however it is written: `n * 2^x` and
/// `(n * 2^j) * 2^(x - j)` round alike, where the latter stays below
/// `2^128`.
pub proof fn lemma_rounded_scales(negative: bool, n: nat, x: int, j: nat)
    requires
        0 < n,
        n * pow2(j) < 2 * TWO_127,
    ensures
        rounded(negative, n * pow2(j), x - j, false) == rounded(negative, n, x, false),
{
    reveal(rounded);
    lemma_pow2_pos(j);
    let w: nat = n * pow2(j);
    assert(n <= w) by (nonlinear_arith)
        requires
            w == n * pow2(j),
            pow2(j) >= 1,
    ;
    lemma_lead_bounds(n);
    lemma_lead_bounds(w);
    let k: nat = lead(n);
    let kw: nat = lead(w);
    assert(k >= j) by {
        if k < j {
            lemma_pow2_order(k + 1, j);
            lemma_pow2_unfold(k + 1);
            assert(false) by (nonlinear_arith)
                requires
                    n * pow2(k) >= TWO_127,
                    pow2(j) >= 2 * pow2(k),
                    n * pow2(j) < 2 * TWO_127,
            ;
        }
    }
    let rest: nat = (k - j) as nat;
    lemma_pow2_adds(j, rest);
    assert(w * pow2(rest) == n * pow2(k)) by (nonlinear_arith)
        requires
            w == n * pow2(j),
            pow2(k) == pow2(j) * pow2(rest),
    ;
    lemma_lead_unique(w, rest);
    assert(kw == rest);
}

/// The number that 64 bits stand for lies in `[0, 1)`: it is finite, it is
/// not negative, and it is below 1.
pub proof fn lemma_unit_is_below_one(x: u64)
    ensures
        Scalar::unit_of(x).finite(),
        !Scalar::unit_of(x).negative(),
        Scalar::unit_of(x).spec_less(Scalar { bits: ONE_BITS }),
{
    reveal(Scalar::unit_of);
    reveal(rounded);
    reveal(rounded_magnitude);
    lemma_pow2_values();
    let v: nat = (x / 2048) as nat;
    if v != 0 {
        let k: nat = lead(v);
        lemma_lead_bounds(v);
        lemma_pow2_pos(k);
        assert(k >= 75) by {
            if k < 75 {
                lemma_pow2_order(k, 74);
                lemma2_to64();
                lemma_pow2_adds(64, 10);
                assert(v * pow2(k) < TWO_127) by (nonlinear_arith)
                    requires
                        v < 2 * HIDDEN_BIT,
                        pow2(k) <= pow2(74),
                        pow2(74) == 0x400_0000_0000_0000_0000,
                ;
            }
        }
        let j: nat = (k - 75) as nat;
        lemma_pow2_adds(j, 75);
        lemma_pow2_adds(11, 64);
        lemma_pow2_pos(j);
        let t: nat = v * pow2(k);
        let m: nat = v * pow2(j);
        assert(t == (m * 0x800) * TWO_64) by (nonlinear_arith)
            requires
                t == v * pow2(k),
                m == v * pow2(j),
                pow2(k) == pow2(j) * pow2(75),
                pow2(75) == 0x800 * TWO_64,
        ;
        lemma_div_multiples_vanish((m * 0x800) as int, TWO_64 as int);
        let q: nat = t / (TWO_64 as nat);
        assert(q == m * 0x800);
        assert(q / 0x800 == m);
        assert(q % 0x800 == 0);
        assert(m < 2 * HIDDEN_BIT) by (nonlinear_arith)
            requires
                (m * 0x800) * TWO_64 < 2 * TWO_127,
        ;
        let e: int = -53 - k + 64 + 1086;
        assert(1 <= e <= 1022);
    }
}

} // verus!
