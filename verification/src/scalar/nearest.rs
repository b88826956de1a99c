//! Rounding gives the nearest number: no finite number lies nearer to the
//! value that is rounded than the number that rounding returns.
use vstd::prelude::*;
use vstd::arithmetic::power2::*;
use vstd::arithmetic::div_mod::*;
use crate::scalar::{Scalar, HIDDEN_BIT, INF_BITS, ONE_BITS, TWO_BITS};
use crate::scalar::round::{rounded, rounded_magnitude, lead, lemma_pow2_values, lemma_lead_bounds, lemma_lead_unique, lemma_rounded_has_sign, TWO_64, TWO_127};
use crate::scalar::arith::{isqrt, is_isqrt, lemma_isqrt_unique};
use crate::scalar::wide::{rounded_wide, LIMB};
use crate::scalar::value::{lemma_pow2_order, lemma_weight_increases, lemma_weight_of_zero};
use vstd::arithmetic::mul::*;

verus! {

/// How far apart two integers are.
pub open spec fn apart(a: nat, b: nat) -> nat {
    if a >= b {
        (a - b) as nat
    } else {
        (b - a) as nat
    }
}

/// The number of places by which rounding shortens a significand of 64
/// bits whose last place is worth `2^x`: eleven, and more where the result
/// is subnormal.
pub open spec fn places_dropped(x: int) -> nat {
    if x + 1086 >= 1 {
        11
    } else {
        (-(x + 1074)) as nat
    }
}

/// The exponent, above the lowest, of the numbers among which rounding
/// chooses.
pub open spec fn grid(x: int) -> nat {
    if x + 1086 >= 1 {
        (x + 1085) as nat
    } else {
        0
    }
}

/// The magnitude of the pattern `base * 2^52 + m`, where `m` is a
/// significand with its leading bit, or `2^53`, or the significand of a
/// subnormal number.
proof fn lemma_weight_of_pattern(base: nat, m: nat)
    requires
        base * HIDDEN_BIT + m < INF_BITS,
        HIDDEN_BIT <= m <= 2 * HIDDEN_BIT || (base == 0 && m < HIDDEN_BIT),
    ensures
        (Scalar { bits: (base * HIDDEN_BIT + m) as u64 }).weight() == m * pow2(base),
        (Scalar { bits: (base * HIDDEN_BIT + m) as u64 }).mag() == base * HIDDEN_BIT + m,
{
    lemma_pow2_values();
    let c: Scalar = Scalar { bits: (base * HIDDEN_BIT + m) as u64 };
    assert(c.mag() == base * HIDDEN_BIT + m);
    if m == 2 * HIDDEN_BIT {
        assert(c.mag() / (HIDDEN_BIT as nat) == base + 2);
        assert(c.sig() == HIDDEN_BIT);
        assert(c.exp() + 1074 == base + 1);
        lemma_pow2_unfold(base + 1);
        assert(HIDDEN_BIT * (2 * pow2(base)) == (2 * HIDDEN_BIT) * pow2(base)) by (nonlinear_arith);
    } else if m >= HIDDEN_BIT {
        assert(c.mag() / (HIDDEN_BIT as nat) == base + 1);
        assert(c.sig() == m);
        assert(c.exp() + 1074 == base);
    } else {
        assert(c.sig() == m);
    }
}

/// What rounding does to the significand: with `p` the weight of the
/// places dropped, the significand kept is the quotient by `p` or one
/// more, and differs from the value by at most half of `p`. The value is
/// `q` and a fraction below `width`, of which `q` is a multiple.
proof fn lemma_kept_is_within_half(q: nat, p: nat, fnum: nat, den: nat, width: nat, kept: nat)
    requires
        width >= 1,
        p >= 2,
        p % (2 * width) == 0,
        q % width == 0,
        den > 0,
        fnum < width * den,
        ({
            let m: nat = q / p;
            let rem: nat = q % p;
            let half: nat = p / 2;
            let up: bool = rem > half || (rem == half && (fnum > 0 || m % 2 == 1));
            kept == (if up { (m + 1) as nat } else { m })
        }),
    ensures
        2 * apart(kept * p * den, q * den + fnum) <= p * den,
{
    let m: nat = q / p;
    let rem: nat = q % p;
    let half: nat = p / 2;
    lemma_fundamental_div_mod(q as int, p as int);
    assert(q == p * m + rem);
    assert(0 <= rem < p);
    // the places dropped, their half and what is left are multiples of
    // the width
    let h: nat = p / (2 * width);
    lemma_fundamental_div_mod(p as int, (2 * width) as int);
    assert(p == (2 * width) * h);
    assert(p == 2 * (width * h)) by (nonlinear_arith)
        requires
            p == (2 * width) * h,
    ;
    assert(half == width * h);
    assert(p == width * (2 * h)) by (nonlinear_arith)
        requires
            p == (2 * width) * h,
    ;
    assert(h > 0) by (nonlinear_arith)
        requires
            p == (2 * width) * h,
            p >= 2,
    ;
    lemma_mod_mod(q as int, width as int, (2 * h) as int);
    assert(rem % width == 0);
    let rho: nat = rem / width;
    lemma_fundamental_div_mod(rem as int, width as int);
    assert(rem == width * rho);
    let up: bool = rem > half || (rem == half && (fnum > 0 || m % 2 == 1));
    if up {
        assert(kept * p * den - (q * den + fnum) == (p - rem) * den - fnum) by (nonlinear_arith)
            requires
                kept == m + 1,
                q == p * m + rem,
        ;
        assert(rho >= h && rho < 2 * h) by (nonlinear_arith)
            requires
                rem == width * rho,
                half == width * h,
                p == width * (2 * h),
                rem >= half,
                rem < p,
                width >= 1,
        ;
        assert((p - rem) * den >= width * den) by (nonlinear_arith)
            requires
                rem == width * rho,
                p == width * (2 * h),
                rho < 2 * h,
                den > 0,
                width >= 1,
        ;
        assert(2 * ((p - rem) * den) <= p * den) by (nonlinear_arith)
            requires
                2 * (p - rem) <= p,
                den > 0,
        ;
    } else {
        assert((q * den + fnum) - kept * p * den == rem * den + fnum) by (nonlinear_arith)
            requires
                kept == m,
                q == p * m + rem,
        ;
        if rem == half {
            assert(fnum == 0);
            assert(2 * (rem * den) == p * den) by (nonlinear_arith)
                requires
                    p == 2 * rem,
            ;
        } else {
            assert(rho + 1 <= h) by (nonlinear_arith)
                requires
                    rem == width * rho,
                    half == width * h,
                    rem < half,
                    width >= 1,
            ;
            assert(2 * (rem * den + fnum) <= p * den) by (nonlinear_arith)
                requires
                    rem == width * rho,
                    p == 2 * (width * h),
                    rho + 1 <= h,
                    fnum < width * den,
                    den > 0,
                    width >= 1,
            ;
        }
    }
}

/// A multiple of `p * den` other than the one that rounding keeps is at
/// least as far from the value as that one.
proof fn lemma_other_multiples_are_no_nearer(kept: nat, other: nat, p: nat, den: nat, exact: nat)
    requires
        den > 0,
        p > 0,
        2 * apart(kept * p * den, exact) <= p * den,
    ensures
        apart(kept * p * den, exact) <= apart(other * p * den, exact),
{
    assert(p * den > 0) by (nonlinear_arith)
        requires
            p > 0,
            den > 0,
    ;
    if other != kept {
        assert(apart(other * p * den, kept * p * den) >= p * den) by (nonlinear_arith)
            requires
                other != kept,
                p * den > 0,
                apart(other * p * den, kept * p * den) == (if other * p * den >= kept * p * den {
                    other * p * den - kept * p * den
                } else {
                    kept * p * den - other * p * den
                }) as nat,
        ;
    }
}

/// Rounding gives the nearest number. Let a value be `(q + fnum / den) *
/// 2^x`, with `q` of 64 bits, and let rounding give a finite number. Then
/// no finite number `c` is nearer to the value than that number. The
/// fraction is below 1, or else below `width`, a power of two up to
/// `2^10` of which `q` is a multiple. All three are compared as integers:
/// times `2^1074`, times the weight of the places dropped, and times
/// `den`.
pub proof fn lemma_rounded_magnitude_is_nearest(
    q: nat,
    x: int,
    fnum: nat,
    den: nat,
    width: nat,
    c: Scalar,
)
    requires
        TWO_64 / 2 <= q < TWO_64,
        den > 0,
        width >= 1,
        0x400int % (width as int) == 0,
        q % width == 0,
        fnum < width * den,
        c.finite(),
        rounded_magnitude(q, x, fnum > 0) < INF_BITS,
    ensures
        ({
            let r: Scalar = Scalar { bits: rounded_magnitude(q, x, fnum > 0) as u64 };
            let scale: nat = pow2(places_dropped(x)) * den;
            let exact: nat = (q * den + fnum) * pow2(grid(x));
            apart(r.weight() * scale, exact) <= apart(c.weight() * scale, exact)
        }),
{
    reveal(rounded_magnitude);
    lemma_pow2_values();
    let e: int = x + 1086;
    let shift: nat = if e >= 1 {
        11
    } else if e >= -53 {
        (12 - e) as nat
    } else {
        65
    };
    let p: nat = pow2(shift);
    let m: nat = q / p;
    let rem: nat = q % p;
    let half: nat = p / 2;
    let up: bool = rem > half || (rem == half && (fnum > 0 || m % 2 == 1));
    let kept: nat = if up { (m + 1) as nat } else { m };
    let base: nat = if e >= 1 { (e - 1) as nat } else { 0 };
    let mag: nat = (base * HIDDEN_BIT + kept) as nat;
    let r: Scalar = Scalar { bits: mag as u64 };
    let sd: nat = places_dropped(x);
    let sc: nat = pow2(sd);
    let scale: nat = sc * den;
    let g: nat = pow2(grid(x));
    let exact: nat = (q * den + fnum) * g;
    let wc: nat = c.weight();
    lemma_pow2_pos(shift);
    lemma_pow2_pos(sd);
    lemma_pow2_pos(grid(x));
    lemma_pow2_order(11, shift);
    lemma_pow2_unfold(shift);
    lemma_div_is_ordered_by_denominator(q as int, pow2(11) as int, p as int);
    assert(m <= q / 0x800);
    // the places dropped are a multiple of twice the width
    lemma_pow2_adds(11, (shift - 11) as nat);
    let cofactor: nat = (0x400int / (width as int)) as nat;
    lemma_fundamental_div_mod(0x400, width as int);
    assert(0x400 == width * cofactor);
    assert(p == (2 * width) * (cofactor * pow2((shift - 11) as nat))) by (nonlinear_arith)
        requires
            p == 0x800 * pow2((shift - 11) as nat),
            0x400 == width * cofactor,
    ;
    lemma_mod_multiples_basic((cofactor * pow2((shift - 11) as nat)) as int, (2 * width) as int);
    assert(((cofactor * pow2((shift - 11) as nat)) * (2 * width)) == p) by (nonlinear_arith)
        requires
            p == (2 * width) * (cofactor * pow2((shift - 11) as nat)),
    ;
    assert(p % (2 * width) == 0);
    assert(width <= 0x400) by (nonlinear_arith)
        requires
            0x400 == width * cofactor,
            width >= 1,
    ;
    assert(fnum < 0x400 * den) by (nonlinear_arith)
        requires
            fnum < width * den,
            width <= 0x400,
            den > 0,
    ;
    if e < -53 {
        // the value lies below a quarter of the smallest number
        lemma_small_mod(q, p);
        lemma_basic_div(q as int, p as int);
        assert(m == 0 && rem == q);
        assert(kept == 0);
        lemma_weight_of_pattern(0, 0);
        assert(r.weight() == 0);
        assert(exact == q * den + fnum) by (nonlinear_arith)
            requires
                exact == (q * den + fnum) * g,
                g == 1,
        ;
        assert(q * den + fnum < 2 * TWO_64 * den) by (nonlinear_arith)
            requires
                q < TWO_64,
                fnum < 0x400 * den,
        ;
        if wc > 0 {
            lemma_pow2_order(66, sd);
            lemma_pow2_adds(2, 64);
            assert(wc * scale >= 4 * TWO_64 * den) by (nonlinear_arith)
                requires
                    wc >= 1,
                    scale == sc * den,
                    sc >= 4 * TWO_64,
                    den > 0,
            ;
        } else {
            assert(wc * scale == 0) by (nonlinear_arith)
                requires
                    wc == 0,
            ;
        }
        assert(r.weight() * scale == 0) by (nonlinear_arith)
            requires
                r.weight() == 0,
        ;
    } else if e < 1 {
        // a subnormal result: every number is a whole multiple of the
        // smallest
        assert(sd == shift);
        lemma_pow2_order(12, shift);
        lemma_div_is_ordered_by_denominator(q as int, pow2(12) as int, p as int);
        assert(m <= q / 0x1000);
        lemma_weight_of_pattern(0, kept);
        assert(r.weight() == kept);
        assert(g == 1);
        assert(exact == q * den + fnum) by (nonlinear_arith)
            requires
                exact == (q * den + fnum) * g,
                g == 1,
        ;
        lemma_kept_is_within_half(q, p, fnum, den, width, kept);
        assert(kept * scale == kept * p * den) by (nonlinear_arith)
            requires
                scale == p * den,
        ;
        assert(wc * scale == wc * p * den) by (nonlinear_arith)
            requires
                scale == p * den,
        ;
        lemma_other_multiples_are_no_nearer(kept, wc, p, den, exact);
    } else {
        // a normal result: the numbers of its binade are the multiples of
        // `g`, and those below the binade lie below the value
        assert(sd == 11 && p == 0x800 && sc == 0x800);
        assert(HIDDEN_BIT <= m < 2 * HIDDEN_BIT);
        lemma_weight_of_pattern(base, kept);
        assert(r.weight() == kept * g);
        lemma_kept_is_within_half(q, p, fnum, den, width, kept);
        let inner: nat = q * den + fnum;
        let ec: nat = (c.exp() + 1074) as nat;
        lemma_pow2_pos(ec);
        assert(r.weight() * scale == (kept * p * den) * g) by (nonlinear_arith)
            requires
                r.weight() == kept * g,
                scale == p * den,
        ;
        if ec >= base {
            let j: nat = c.sig() * pow2((ec - base) as nat);
            lemma_pow2_adds((ec - base) as nat, base);
            assert(wc == j * g) by (nonlinear_arith)
                requires
                    wc == c.sig() * pow2(ec),
                    pow2(ec) == pow2((ec - base) as nat) * g,
                    j == c.sig() * pow2((ec - base) as nat),
            ;
            assert(wc * scale == (j * p * den) * g) by (nonlinear_arith)
                requires
                    wc == j * g,
                    scale == p * den,
            ;
            lemma_other_multiples_are_no_nearer(kept, j, p, den, inner);
            lemma_apart_scales(kept * p * den, j * p * den, inner, g);
        } else {
            // below the binade
            lemma_pow2_order(ec + 1, base);
            lemma_pow2_unfold(ec + 1);
            assert(wc * scale < (HIDDEN_BIT * p * den) * g) by (nonlinear_arith)
                requires
                    wc == c.sig() * pow2(ec),
                    c.sig() < 2 * HIDDEN_BIT,
                    2 * pow2(ec) <= g,
                    scale == p * den,
                    pow2(ec) > 0,
                    den > 0,
                    p > 0,
            ;
            assert(HIDDEN_BIT * p * den <= inner) by (nonlinear_arith)
                requires
                    p == 0x800,
                    q >= TWO_64 / 2,
                    inner == q * den + fnum,
                    den > 0,
            ;
            lemma_other_multiples_are_no_nearer(kept, HIDDEN_BIT as nat, p, den, inner);
            lemma_apart_scales(kept * p * den, (HIDDEN_BIT * p * den) as nat, inner, g);
            assert((HIDDEN_BIT * p * den) * g <= inner * g) by (nonlinear_arith)
                requires
                    HIDDEN_BIT * p * den <= inner,
                    g > 0,
            ;
        }
    }
}

/// Scaling all three by `g` keeps which of two integers is nearer to a
/// third.
proof fn lemma_apart_scales(a: nat, b: nat, exact: nat, g: nat)
    requires
        apart(a, exact) <= apart(b, exact),
    ensures
        apart(a * g, exact * g) <= apart(b * g, exact * g),
        apart(a * g, exact * g) == apart(a, exact) * g,
        apart(b * g, exact * g) == apart(b, exact) * g,
{
    assert(apart(a * g, exact * g) == apart(a, exact) * g) by (nonlinear_arith)
        requires
            g >= 0,
            apart(a * g, exact * g) == (if a * g >= exact * g { a * g - exact * g } else { exact * g - a * g }) as nat,
            apart(a, exact) == (if a >= exact { a - exact } else { exact - a }) as nat,
    ;
    assert(apart(b * g, exact * g) == apart(b, exact) * g) by (nonlinear_arith)
        requires
            g >= 0,
            apart(b * g, exact * g) == (if b * g >= exact * g { b * g - exact * g } else { exact * g - b * g }) as nat,
            apart(b, exact) == (if b >= exact { b - exact } else { exact - b }) as nat,
    ;
    assert(apart(a, exact) * g <= apart(b, exact) * g) by (nonlinear_arith)
        requires
            apart(a, exact) <= apart(b, exact),
            g >= 0,
    ;
}

/// The power of two by which magnitudes are scaled to compare them, as
/// integers, with a value whose last place is worth `2^x`.
pub open spec fn weight_shift(x: int) -> nat {
    if x + 1074 < 0 {
        (-(x + 1074)) as nat
    } else {
        0
    }
}

/// The power of two by which a value whose last place is worth `2^x` is
/// scaled to compare it, as an integer, with magnitudes.
pub open spec fn value_shift(x: int) -> nat {
    if x + 1074 >= 0 {
        (x + 1074) as nat
    } else {
        0
    }
}

/// Which of two integers is nearer to a third does not change when all
/// are scaled by `g`.
pub proof fn lemma_nearer_at_any_scale(wr: nat, wc: nat, scale: nat, exact: nat, g: nat)
    requires
        g > 0,
    ensures
        apart(wr * (scale * g), exact * g) <= apart(wc * (scale * g), exact * g) <==> apart(
            wr * scale,
            exact,
        ) <= apart(wc * scale, exact),
{
    assert(wr * (scale * g) == (wr * scale) * g) by (nonlinear_arith);
    assert(wc * (scale * g) == (wc * scale) * g) by (nonlinear_arith);
    let a: nat = wr * scale;
    let b: nat = wc * scale;
    assert(apart(a * g, exact * g) == apart(a, exact) * g) by (nonlinear_arith)
        requires
            g > 0,
            apart(a * g, exact * g) == (if a * g >= exact * g { a * g - exact * g } else { exact * g - a * g }) as nat,
            apart(a, exact) == (if a >= exact { a - exact } else { exact - a }) as nat,
    ;
    assert(apart(b * g, exact * g) == apart(b, exact) * g) by (nonlinear_arith)
        requires
            g > 0,
            apart(b * g, exact * g) == (if b * g >= exact * g { b * g - exact * g } else { exact * g - b * g }) as nat,
            apart(b, exact) == (if b >= exact { b - exact } else { exact - b }) as nat,
    ;
    let da: nat = apart(a, exact);
    let db: nat = apart(b, exact);
    assert(da * g <= db * g <==> da <= db) by (nonlinear_arith)
        requires
            g > 0,
    ;
}

/// Rounding gives the nearest number. Let a value be `(n + fnum / den) *
/// 2^x`, with `n` of at least 54 bits unless the fraction is zero, and let
/// rounding give a finite number. Then no finite number `c` is nearer to
/// the value than that number. The magnitudes are compared as integers:
/// times `2^1074` and times `den`, and times the power of two that makes
/// the value an integer.
pub proof fn lemma_rounded_is_nearest(negative: bool, n: nat, x: int, fnum: nat, den: nat, c: Scalar)
    requires
        0 < n < 2 * TWO_127,
        den > 0,
        fnum < den,
        fnum > 0 ==> n >= 2 * HIDDEN_BIT,
        c.finite(),
        rounded(negative, n, x, fnum > 0).finite(),
    ensures
        ({
            let r: Scalar = rounded(negative, n, x, fnum > 0);
            let scale: nat = den * pow2(weight_shift(x));
            let exact: nat = (n * den + fnum) * pow2(value_shift(x));
            apart(r.weight() * scale, exact) <= apart(c.weight() * scale, exact)
        }),
{
    reveal(rounded);
    lemma_pow2_values();
    let k: nat = lead(n);
    lemma_lead_bounds(n);
    let pk: nat = pow2(k);
    lemma_pow2_pos(k);
    let t: nat = n * pk;
    let q: nat = t / (TWO_64 as nat);
    let low: nat = t % (TWO_64 as nat);
    let xx: int = x - k + 64;
    let den2: nat = (TWO_64 * den) as nat;
    let fnum2: nat = low * den + fnum * pk;
    lemma_fundamental_div_mod(t as int, TWO_64 as int);
    assert(t == TWO_64 * q + low);
    let width: nat = if fnum > 0 && k > 64 { pow2((k - 64) as nat) } else { 1 };
    if fnum > 0 && k > 64 {
        // the significand is shifted beyond 64 bits: its low places are
        // zero, and the fraction is spread over the places beyond
        let j: nat = (k - 64) as nat;
        assert(j <= 10) by {
            if j > 10 {
                lemma_pow2_order(75, k);
                lemma_pow2_adds(11, 64);
                assert(n * pk >= 2 * TWO_127) by (nonlinear_arith)
                    requires
                        n >= 2 * HIDDEN_BIT,
                        pk >= 0x800 * TWO_64,
                ;
            }
        }
        lemma_pow2_adds(j, 64);
        lemma_pow2_pos(j);
        assert(t == (n * width) * TWO_64) by (nonlinear_arith)
            requires
                t == n * pk,
                pk == width * TWO_64,
        ;
        lemma_div_multiples_vanish((n * width) as int, TWO_64 as int);
        lemma_mod_multiples_basic((n * width) as int, TWO_64 as int);
        assert(q == n * width);
        assert(low == 0);
        lemma_mod_multiples_basic(n as int, width as int);
        assert(q % width == 0);
        lemma2_to64();
        lemma_pow2_adds(j, (10 - j) as nat);
        lemma_mod_multiples_basic(pow2((10 - j) as nat) as int, width as int);
        assert(pow2((10 - j) as nat) * width == 0x400) by (nonlinear_arith)
            requires
                0x400 == width * pow2((10 - j) as nat),
        ;
        assert(0x400int % (width as int) == 0);
        assert(fnum2 < width * den2) by (nonlinear_arith)
            requires
                fnum2 == low * den + fnum * pk,
                low == 0,
                pk == width * TWO_64,
                den2 == TWO_64 * den,
                fnum < den,
                width > 0,
        ;
    } else if fnum > 0 {
        // the low places of the shifted significand are a multiple of the
        // shift, so that the fraction stays a fraction
        let rest: nat = pow2((64 - k) as nat);
        lemma_pow2_adds(k, (64 - k) as nat);
        lemma_pow2_pos((64 - k) as nat);
        lemma_truncate_middle(n as int, pk as int, rest as int);
        assert(pk * n == n * pk) by (nonlinear_arith);
        assert(low == pk * (n % rest));
        assert(n % rest <= rest - 1);
        assert(fnum2 < den2) by (nonlinear_arith)
            requires
                fnum2 == low * den + fnum * pk,
                low == pk * (n % rest),
                n % rest <= rest - 1,
                pk * rest == TWO_64,
                fnum < den,
                den2 == TWO_64 * den,
                pk > 0,
        ;
        assert(width * den2 == den2) by (nonlinear_arith)
            requires
                width == 1,
        ;
    } else {
        assert(fnum2 == low * den) by (nonlinear_arith)
            requires
                fnum2 == low * den + fnum * pk,
                fnum == 0,
        ;
        assert(fnum2 < den2) by (nonlinear_arith)
            requires
                fnum2 == low * den,
                low < TWO_64,
                den2 == TWO_64 * den,
                den > 0,
        ;
        assert(width * den2 == den2) by (nonlinear_arith)
            requires
                width == 1,
        ;
    }
    assert(fnum2 > 0 <==> (fnum > 0 || low != 0)) by (nonlinear_arith)
        requires
            fnum2 == low * den + fnum * pk,
            den > 0,
            pk > 0,
    ;
    let mag: nat = rounded_magnitude(q, xx, fnum2 > 0);
    let r: Scalar = rounded(negative, n, x, fnum > 0);
    assert(r == Scalar::with_sign(mag, negative));
    reveal(rounded_magnitude);
    assert(mag <= INF_BITS);
    assert(r.mag() == mag);
    assert(mag < INF_BITS);
    let plain: Scalar = Scalar { bits: mag as u64 };
    assert(plain.mag() == mag);
    assert(r.weight() == plain.weight());
    lemma_rounded_magnitude_is_nearest(q, xx, fnum2, den2, width, c);
    let sd: nat = places_dropped(xx);
    let gr: nat = grid(xx);
    let scale1: nat = pow2(sd) * den2;
    let inner: nat = n * den + fnum;
    let exact1: nat = (q * den2 + fnum2) * pow2(gr);
    assert(q * den2 + fnum2 == inner * pk) by (nonlinear_arith)
        requires
            den2 == TWO_64 * den,
            fnum2 == low * den + fnum * pk,
            n * pk == TWO_64 * q + low,
            inner == n * den + fnum,
    ;
    let ws: nat = weight_shift(x);
    let vs: nat = value_shift(x);
    let scale: nat = den * pow2(ws);
    let exact: nat = inner * pow2(vs);
    lemma_pow2_adds(sd, 64);
    lemma_pow2_adds(k, gr);
    assert(scale1 == den * pow2(sd + 64)) by (nonlinear_arith)
        requires
            scale1 == pow2(sd) * den2,
            den2 == TWO_64 * den,
            pow2(sd + 64) == pow2(sd) * TWO_64,
    ;
    assert(exact1 == inner * pow2(k + gr)) by (nonlinear_arith)
        requires
            exact1 == (q * den2 + fnum2) * pow2(gr),
            q * den2 + fnum2 == inner * pk,
            pow2(k + gr) == pk * pow2(gr),
    ;
    assert(sd + 64 - ws == k + gr - vs);
    if sd + 64 >= ws {
        let d: nat = (sd + 64 - ws) as nat;
        lemma_pow2_adds(ws, d);
        lemma_pow2_adds(vs, d);
        lemma_pow2_pos(d);
        assert(scale1 == scale * pow2(d)) by (nonlinear_arith)
            requires
                scale1 == den * pow2(sd + 64),
                pow2(sd + 64) == pow2(ws) * pow2(d),
                scale == den * pow2(ws),
        ;
        assert(exact1 == exact * pow2(d)) by (nonlinear_arith)
            requires
                exact1 == inner * pow2(k + gr),
                pow2(k + gr) == pow2(vs) * pow2(d),
                exact == inner * pow2(vs),
        ;
        lemma_nearer_at_any_scale(plain.weight(), c.weight(), scale, exact, pow2(d));
    } else {
        let d: nat = (ws - (sd + 64)) as nat;
        lemma_pow2_adds(sd + 64, d);
        lemma_pow2_adds(k + gr, d);
        lemma_pow2_pos(d);
        assert(scale == scale1 * pow2(d)) by (nonlinear_arith)
            requires
                scale1 == den * pow2(sd + 64),
                pow2(ws) == pow2(sd + 64) * pow2(d),
                scale == den * pow2(ws),
        ;
        assert(exact == exact1 * pow2(d)) by (nonlinear_arith)
            requires
                exact1 == inner * pow2(k + gr),
                pow2(vs) == pow2(k + gr) * pow2(d),
                exact == inner * pow2(vs),
        ;
        lemma_nearer_at_any_scale(plain.weight(), c.weight(), scale1, exact1, pow2(d));
    }
}

/// How far apart two integers of either sign are.
pub open spec fn gap(a: int, b: int) -> int {
    if a >= b {
        a - b
    } else {
        b - a
    }
}

/// A number that is nearest in magnitude, among the finite numbers, to a
/// value that has its sign is nearest to it among the finite numbers of
/// either sign.
proof fn lemma_nearest_with_sign(r: Scalar, c: Scalar, zero: Scalar, scale: nat, exact: nat, negative: bool)
    requires
        r.negative() == negative,
        zero.weight() == 0,
        apart(r.weight() * scale, exact) <= apart(c.weight() * scale, exact),
        apart(r.weight() * scale, exact) <= apart(zero.weight() * scale, exact),
    ensures
        gap(r.scaled() * scale, if negative { -(exact as int) } else { exact as int }) <= gap(
            c.scaled() * scale,
            if negative { -(exact as int) } else { exact as int },
        ),
{
    let wr: nat = r.weight();
    let wc: nat = c.weight();
    assert(zero.weight() * scale == 0) by (nonlinear_arith)
        requires
            zero.weight() == 0,
    ;
    assert((-(wr as int)) * scale == -((wr * scale) as int)) by (nonlinear_arith);
    assert((-(wc as int)) * scale == -((wc * scale) as int)) by (nonlinear_arith);
    assert((wr as int) * scale == (wr * scale) as int) by (nonlinear_arith);
    assert((wc as int) * scale == (wc * scale) as int) by (nonlinear_arith);
}

/// The product is the nearest number: where the product of two finite
/// numbers is finite, no finite number is nearer to the exact product of
/// their values than the product returned. The values are compared as
/// integers, all times `2^2148`.
pub proof fn lemma_product_is_nearest(a: Scalar, b: Scalar, c: Scalar)
    requires
        a.finite(),
        b.finite(),
        c.finite(),
        a.spec_times(b).finite(),
    ensures
        gap(a.spec_times(b).scaled() * pow2(1074), a.scaled() * b.scaled()) <= gap(
            c.scaled() * pow2(1074),
            a.scaled() * b.scaled(),
        ),
{
    reveal(Scalar::spec_times);
    lemma_pow2_values();
    lemma_pow2_pos(1074);
    let r: Scalar = a.spec_times(b);
    let negative: bool = a.negative() != b.negative();
    let wa: nat = a.weight();
    let wb: nat = b.weight();
    lemma_weight_of_zero(a);
    lemma_weight_of_zero(b);
    lemma_weight_of_zero(r);
    let signed: int = a.scaled() * b.scaled();
    assert(signed == (if negative { -((wa * wb) as int) } else { (wa * wb) as int })) by (nonlinear_arith)
        requires
            a.scaled() == (if a.negative() { -(wa as int) } else { wa as int }),
            b.scaled() == (if b.negative() { -(wb as int) } else { wb as int }),
            negative == (a.negative() != b.negative()),
            signed == a.scaled() * b.scaled(),
    ;
    let zero: Scalar = Scalar { bits: 0 };
    lemma_weight_of_zero(zero);
    if a.zero() || b.zero() {
        assert(wa * wb == 0) by (nonlinear_arith)
            requires
                wa == 0 || wb == 0,
        ;
        assert(r.weight() == 0);
        assert(r.scaled() * pow2(1074) == 0) by (nonlinear_arith)
            requires
                r.scaled() == 0,
        ;
    } else {
        let n: nat = a.sig() * b.sig();
        let x: int = a.exp() + b.exp();
        assert(0 < n < 2 * TWO_127) by (nonlinear_arith)
            requires
                0 < a.sig() < 2 * HIDDEN_BIT,
                0 < b.sig() < 2 * HIDDEN_BIT,
                n == a.sig() * b.sig(),
        ;
        lemma_rounded_has_sign(negative, n, x, false);
        lemma_rounded_is_nearest(negative, n, x, 0, 1, c);
        lemma_rounded_is_nearest(negative, n, x, 0, 1, zero);
        let ws: nat = weight_shift(x);
        let vs: nat = value_shift(x);
        let g: nat = pow2((1074 - ws) as nat);
        lemma_pow2_pos((1074 - ws) as nat);
        lemma_pow2_adds(ws, (1074 - ws) as nat);
        lemma_pow2_adds(vs, (1074 - ws) as nat);
        let ea: nat = (a.exp() + 1074) as nat;
        let eb: nat = (b.exp() + 1074) as nat;
        lemma_pow2_adds(ea, eb);
        assert(vs + (1074 - ws) == ea + eb);
        let scale: nat = pow2(ws);
        let exact: nat = n * pow2(vs);
        assert(1 * pow2(ws) == scale);
        assert((n * 1 + 0) * pow2(vs) == exact) by (nonlinear_arith)
            requires
                exact == n * pow2(vs),
        ;
        assert(wa * wb == exact * g) by (nonlinear_arith)
            requires
                wa == a.sig() * pow2(ea),
                wb == b.sig() * pow2(eb),
                n == a.sig() * b.sig(),
                exact == n * pow2(vs),
                pow2(vs) * g == pow2(ea) * pow2(eb),
        ;
        assert(scale * g == pow2(1074));
        lemma_nearer_at_any_scale(r.weight(), c.weight(), scale, exact, g);
        lemma_nearer_at_any_scale(r.weight(), zero.weight(), scale, exact, g);
        lemma_nearest_with_sign(r, c, zero, pow2(1074), wa * wb, negative);
    }
}

/// The quotient is the nearest number: where the quotient of two finite
/// numbers that are not zero is finite, no finite number is nearer to the
/// exact quotient of their values than the quotient returned. The values
/// are compared as integers, all times `2^2148` and times the magnitude
/// of the divisor.
pub proof fn lemma_quotient_is_nearest(a: Scalar, b: Scalar, c: Scalar)
    requires
        a.finite(),
        b.finite(),
        c.finite(),
        !a.zero(),
        !b.zero(),
        a.spec_over(b).finite(),
    ensures
        apart(a.spec_over(b).weight() * b.weight(), a.weight() * pow2(1074)) <= apart(
            c.weight() * b.weight(),
            a.weight() * pow2(1074),
        ),
        a.spec_over(b).negative() == (a.negative() != b.negative()),
{
    reveal(Scalar::spec_over);
    lemma_pow2_values();
    let r: Scalar = a.spec_over(b);
    let negative: bool = a.negative() != b.negative();
    let sa: nat = a.sig();
    let sb: nat = b.sig();
    let k: nat = lead(sa);
    lemma_lead_bounds(sa);
    let pk: nat = pow2(k);
    lemma_pow2_pos(k);
    let top: nat = sa * pk;
    let n: nat = top / sb;
    let fnum: nat = top % sb;
    let x: int = a.exp() - k - b.exp();
    lemma_fundamental_div_mod(top as int, sb as int);
    assert(top == sb * n + fnum);
    lemma_div_nonincreasing(top as int, sb as int);
    assert(n >= TWO_64 / 2) by (nonlinear_arith)
        requires
            top == sb * n + fnum,
            fnum < sb,
            sb < 2 * HIDDEN_BIT,
            top >= TWO_127,
    ;
    lemma_rounded_has_sign(negative, n, x, fnum != 0);
    lemma_rounded_is_nearest(negative, n, x, fnum, sb, c);
    let ws: nat = weight_shift(x);
    let vs: nat = value_shift(x);
    let scale1: nat = sb * pow2(ws);
    let exact1: nat = (n * sb + fnum) * pow2(vs);
    assert(n * sb + fnum == top) by (nonlinear_arith)
        requires
            top == sb * n + fnum,
    ;
    let ea: nat = (a.exp() + 1074) as nat;
    let eb: nat = (b.exp() + 1074) as nat;
    let scale: nat = b.weight();
    let exact: nat = a.weight() * pow2(1074);
    lemma_pow2_adds(ea, 1074);
    lemma_pow2_adds(k, vs);
    assert(exact == sa * pow2(ea + 1074)) by (nonlinear_arith)
        requires
            exact == a.weight() * pow2(1074),
            a.weight() == sa * pow2(ea),
            pow2(ea + 1074) == pow2(ea) * pow2(1074),
    ;
    assert(exact1 == sa * pow2(k + vs)) by (nonlinear_arith)
        requires
            exact1 == top * pow2(vs),
            top == sa * pk,
            pow2(k + vs) == pk * pow2(vs),
    ;
    assert(eb - ws == ea + 1074 - (k + vs));
    if eb >= ws {
        let d: nat = (eb - ws) as nat;
        lemma_pow2_adds(ws, d);
        lemma_pow2_adds(k + vs, d);
        lemma_pow2_pos(d);
        assert(scale == scale1 * pow2(d)) by (nonlinear_arith)
            requires
                scale == sb * pow2(eb),
                scale1 == sb * pow2(ws),
                pow2(eb) == pow2(ws) * pow2(d),
        ;
        assert(exact == exact1 * pow2(d)) by (nonlinear_arith)
            requires
                exact == sa * pow2(ea + 1074),
                exact1 == sa * pow2(k + vs),
                pow2(ea + 1074) == pow2(k + vs) * pow2(d),
        ;
        lemma_nearer_at_any_scale(r.weight(), c.weight(), scale1, exact1, pow2(d));
    } else {
        let d: nat = (ws - eb) as nat;
        lemma_pow2_adds(eb, d);
        lemma_pow2_adds(ea + 1074, d);
        lemma_pow2_pos(d);
        assert(scale1 == scale * pow2(d)) by (nonlinear_arith)
            requires
                scale == sb * pow2(eb),
                scale1 == sb * pow2(ws),
                pow2(ws) == pow2(eb) * pow2(d),
        ;
        assert(exact1 == exact * pow2(d)) by (nonlinear_arith)
            requires
                exact == sa * pow2(ea + 1074),
                exact1 == sa * pow2(k + vs),
                pow2(k + vs) == pow2(ea + 1074) * pow2(d),
        ;
        lemma_nearer_at_any_scale(r.weight(), c.weight(), scale, exact, pow2(d));
    }
}

/// The sum of two finite numbers that are not zero, the first at least as
/// large in magnitude as the second, is the nearest number.
proof fn lemma_ordered_sum_is_nearest(hi: Scalar, lo: Scalar, c: Scalar)
    requires
        hi.finite(),
        lo.finite(),
        c.finite(),
        !hi.zero(),
        !lo.zero(),
        hi.mag() >= lo.mag(),
        Scalar::sum_ordered(hi, lo).finite(),
    ensures
        gap(Scalar::sum_ordered(hi, lo).scaled(), hi.scaled() + lo.scaled()) <= gap(
            c.scaled(),
            hi.scaled() + lo.scaled(),
        ),
{
    reveal(Scalar::sum_ordered);
    lemma_pow2_values();
    let r: Scalar = Scalar::sum_ordered(hi, lo);
    let sh: nat = hi.sig();
    let sl: nat = lo.sig();
    let d: nat = (hi.exp() - lo.exp()) as nat;
    let u: nat = (lo.exp() + 1074) as nat;
    let pd: nat = pow2(d);
    let pu: nat = pow2(u);
    lemma_pow2_pos(d);
    lemma_pow2_pos(u);
    lemma_pow2_adds(d, u);
    let wh: nat = hi.weight();
    let wl: nat = lo.weight();
    assert(wh == (sh * pd) * pu) by (nonlinear_arith)
        requires
            wh == sh * pow2(d + u),
            pow2(d + u) == pd * pu,
    ;
    if hi.mag() > lo.mag() {
        lemma_weight_increases(lo, hi);
    }
    assert(wh >= wl);
    let same: bool = hi.negative() == lo.negative();
    let negative: bool = hi.negative();
    let total: nat = if same { wh + wl } else { (wh - wl) as nat };
    assert(hi.scaled() + lo.scaled() == (if negative { -(total as int) } else { total as int }));
    let zero: Scalar = Scalar { bits: 0 };
    lemma_weight_of_zero(zero);
    if d <= 64 {
        let big: nat = sh * pd;
        let n: int = if same { (big + sl) as int } else { big - sl };
        lemma_pow2_order(d, 64);
        assert(big < 2 * HIDDEN_BIT * TWO_64) by (nonlinear_arith)
            requires
                big == sh * pd,
                sh < 2 * HIDDEN_BIT,
                pd <= TWO_64,
        ;
        assert(total == n * pu) by (nonlinear_arith)
            requires
                wh == big * pu,
                wl == sl * pu,
                total == (if same { (wh + wl) as int } else { wh - wl }),
                n == (if same { (big + sl) as int } else { big - sl }),
        ;
        assert(n >= 0) by (nonlinear_arith)
            requires
                n * pu >= 0,
                pu > 0,
        ;
        if n == 0 {
            assert(r == zero);
            assert(total == 0);
        } else {
            let m: nat = n as nat;
            lemma_rounded_has_sign(negative, m, lo.exp(), false);
            lemma_rounded_is_nearest(negative, m, lo.exp(), 0, 1, c);
            lemma_rounded_is_nearest(negative, m, lo.exp(), 0, 1, zero);
            assert(weight_shift(lo.exp()) == 0);
            assert(value_shift(lo.exp()) == u);
            assert((m * 1 + 0) * pu == total) by (nonlinear_arith)
                requires
                    total == m * pu,
            ;
            assert(1 * pow2(0) == 1);
            lemma_nearest_with_sign(r, c, zero, 1, total, negative);
            assert(r.scaled() * 1 == r.scaled());
            assert(c.scaled() * 1 == c.scaled());
        }
    } else {
        let x: int = hi.exp() - 12;
        let den: nat = pow2((d - 12) as nat);
        lemma_pow2_pos((d - 12) as nat);
        lemma_pow2_adds(12, (d - 12) as nat);
        lemma_pow2_order(53, (d - 12) as nat);
        assert(sh >= HIDDEN_BIT);
        let n: nat = if same { 4096 * sh } else { (4096 * sh - 1) as nat };
        let fnum: nat = if same { sl } else { (den - sl) as nat };
        lemma_rounded_has_sign(negative, n, x, true);
        lemma_rounded_is_nearest(negative, n, x, fnum, den, c);
        lemma_rounded_is_nearest(negative, n, x, fnum, den, zero);
        assert(weight_shift(x) == 0);
        let vs: nat = value_shift(x);
        assert(vs == u + d - 12);
        lemma_pow2_adds(u, (d - 12) as nat);
        let inner: nat = n * den + fnum;
        assert(inner == (if same { (sh * pd + sl) as int } else { sh * pd - sl })) by (nonlinear_arith)
            requires
                inner == n * den + fnum,
                n == (if same { (4096 * sh) as int } else { 4096 * sh - 1 }),
                fnum == (if same { sl as int } else { den - sl }),
                pd == 4096 * den,
        ;
        assert(inner * pow2(vs) == total * den) by (nonlinear_arith)
            requires
                inner == (if same { (sh * pd + sl) as int } else { sh * pd - sl }),
                pow2(vs) == pu * den,
                wh == (sh * pd) * pu,
                wl == sl * pu,
                total == (if same { (wh + wl) as int } else { wh - wl }),
        ;
        assert(den * pow2(0) == 1 * den);
        lemma_nearer_at_any_scale(r.weight(), c.weight(), 1, total, den);
        lemma_nearer_at_any_scale(r.weight(), zero.weight(), 1, total, den);
        lemma_nearest_with_sign(r, c, zero, 1, total, negative);
        assert(r.scaled() * 1 == r.scaled());
        assert(c.scaled() * 1 == c.scaled());
    }
}

/// The sum is the nearest number: where the sum of two finite numbers is
/// finite, no finite number is nearer to the exact sum of their values
/// than the sum returned. The values are compared as integers, all times
/// `2^1074`.
pub proof fn lemma_sum_is_nearest(a: Scalar, b: Scalar, c: Scalar)
    requires
        a.finite(),
        b.finite(),
        c.finite(),
        a.spec_plus(b).finite(),
    ensures
        gap(a.spec_plus(b).scaled(), a.scaled() + b.scaled()) <= gap(
            c.scaled(),
            a.scaled() + b.scaled(),
        ),
{
    reveal(Scalar::spec_plus);
    lemma_weight_of_zero(a);
    lemma_weight_of_zero(b);
    if a.zero() && b.zero() {
        lemma_weight_of_zero(a.spec_plus(b));
    } else if a.zero() || b.zero() {
    } else if a.mag() < b.mag() {
        lemma_ordered_sum_is_nearest(b, a, c);
    } else {
        lemma_ordered_sum_is_nearest(a, b, c);
    }
}

/// The difference is the nearest number: where the difference of two
/// finite numbers is finite, no finite number is nearer to the exact
/// difference of their values than the difference returned.
pub proof fn lemma_difference_is_nearest(a: Scalar, b: Scalar, c: Scalar)
    requires
        a.finite(),
        b.finite(),
        c.finite(),
        a.spec_minus(b).finite(),
    ensures
        gap(a.spec_minus(b).scaled(), a.scaled() - b.scaled()) <= gap(
            c.scaled(),
            a.scaled() - b.scaled(),
        ),
{
    let opposite: Scalar = b.spec_negated();
    assert(opposite.mag() == b.mag());
    assert(opposite.weight() == b.weight());
    lemma_weight_of_zero(b);
    assert(opposite.scaled() == -b.scaled());
    lemma_sum_is_nearest(a, opposite, c);
}

/// An integer below `2^53` in magnitude is a number: the number that
/// stands for it has its value.
pub proof fn lemma_small_integers_are_exact(n: int)
    requires
        -2 * HIDDEN_BIT < n < 2 * HIDDEN_BIT,
    ensures
        Scalar::of_int(n).finite(),
        Scalar::of_int(n).scaled() == n * pow2(1074),
{
    reveal(Scalar::of_int);
    reveal(rounded);
    reveal(rounded_magnitude);
    lemma_pow2_values();
    let r: Scalar = Scalar::of_int(n);
    if n == 0 {
        lemma_weight_of_zero(r);
    } else {
        let v: nat = (if n < 0 { -n } else { n }) as nat;
        let k: nat = lead(v);
        lemma_lead_bounds(v);
        lemma_pow2_pos(k);
        assert(k >= 75) by {
            if k < 75 {
                lemma_pow2_order(k, 74);
                lemma2_to64();
                lemma_pow2_adds(64, 10);
                assert(v * pow2(k) < TWO_127) by (nonlinear_arith)
                    requires
                        v < 2 * HIDDEN_BIT,
                        pow2(k) <= pow2(74),
                        pow2(74) == 0x400_0000_0000_0000_0000,
                ;
            }
        }
        let j: nat = (k - 75) as nat;
        lemma_pow2_adds(j, 75);
        lemma_pow2_adds(11, 64);
        lemma_pow2_pos(j);
        let t: nat = v * pow2(k);
        let m: nat = v * pow2(j);
        assert(t == (m * 0x800) * TWO_64) by (nonlinear_arith)
            requires
                t == v * pow2(k),
                m == v * pow2(j),
                pow2(k) == pow2(j) * pow2(75),
                pow2(75) == 0x800 * TWO_64,
        ;
        lemma_div_multiples_vanish((m * 0x800) as int, TWO_64 as int);
        lemma_mod_multiples_basic((m * 0x800) as int, TWO_64 as int);
        let q: nat = t / (TWO_64 as nat);
        assert(q == m * 0x800);
        assert(q / 0x800 == m);
        assert(q % 0x800 == 0);
        assert(HIDDEN_BIT <= m < 2 * HIDDEN_BIT) by (nonlinear_arith)
            requires
                TWO_127 <= (m * 0x800) * TWO_64 < 2 * TWO_127,
        ;
        let base: nat = (1074 - j) as nat;
        assert(k <= 127);
        assert(64 - k + 1086 - 1 == base);
        lemma_weight_of_pattern(base, m);
        lemma_pow2_adds(j, base);
        assert(m * pow2(base) == v * pow2(1074)) by (nonlinear_arith)
            requires
                m == v * pow2(j),
                pow2(1074) == pow2(j) * pow2(base),
        ;
        let plain: Scalar = Scalar { bits: (base * HIDDEN_BIT + m) as u64 };
        assert(r.mag() == plain.mag());
        assert(r.weight() == plain.weight());
        assert(r.negative() == (n < 0));
        assert((-(v as int)) * pow2(1074) == -((v * pow2(1074)) as int)) by (nonlinear_arith);
    }
}

/// A tie goes to the even number: where the value `q * 2^x` lies halfway
/// between the two numbers nearest to it, rounding gives the one whose
/// pattern is even.
pub proof fn lemma_ties_go_to_even(q: nat, x: int)
    requires
        TWO_64 / 2 <= q < TWO_64,
        x + 1086 >= -53,
        q % pow2(places_dropped(x)) == pow2(places_dropped(x)) / 2,
        rounded_magnitude(q, x, false) < INF_BITS,
    ensures
        rounded_magnitude(q, x, false) % 2 == 0,
{
    reveal(rounded_magnitude);
    lemma_pow2_values();
    let e: int = x + 1086;
    let shift: nat = if e >= 1 { 11 } else { (12 - e) as nat };
    assert(shift == places_dropped(x));
    let p: nat = pow2(shift);
    let m: nat = q / p;
    let rem: nat = q % p;
    let half: nat = p / 2;
    assert(rem == half);
    let up: bool = rem > half || (rem == half && (false || m % 2 == 1));
    assert(up == (m % 2 == 1));
    let kept: nat = if up { (m + 1) as nat } else { m };
    let base: nat = if e >= 1 { (e - 1) as nat } else { 0 };
    let mag: nat = (base * HIDDEN_BIT + kept) as nat;
    assert(rounded_magnitude(q, x, false) == mag);
    lemma_even_pattern(base, m, kept);
}

/// A pattern whose significand was rounded up from an odd one, or left at
/// an even one, is even.
proof fn lemma_even_pattern(base: nat, m: nat, kept: nat)
    requires
        kept == m + 1 && m % 2 == 1 || kept == m && m % 2 == 0,
    ensures
        ((base * HIDDEN_BIT + kept) as nat) % 2 == 0,
{
    assert(kept % 2 == 0);
    assert(base * HIDDEN_BIT == 2 * (base * 0x8_0000_0000_0000));
}

/// Rounding to a normal number, seen from the other numbers: the number
/// halfway between the one that rounding gives and any larger number lies
/// at or above the value that was rounded, and the number halfway to any
/// smaller number at or below it. The value lies between `q * 2^x` and
/// `(q + 1) * 2^x`, and is above the former where `sticky`.
proof fn lemma_rounded_magnitude_splits(q: nat, x: int, sticky: bool, c: Scalar)
    requires
        TWO_64 / 2 <= q < TWO_64,
        x + 1086 >= 1,
        c.finite(),
        rounded_magnitude(q, x, sticky) < INF_BITS,
    ensures
        ({
            let r: Scalar = Scalar { bits: rounded_magnitude(q, x, sticky) as u64 };
            let g: nat = pow2(grid(x));
            &&& c.weight() > r.weight() ==> (c.weight() + r.weight()) * 0x800 >= 2 * (q + (if sticky {
                1nat
            } else {
                0nat
            })) * g
            &&& c.weight() < r.weight() ==> (c.weight() + r.weight()) * 0x800 <= 2 * q * g
        }),
{
    reveal(rounded_magnitude);
    lemma_pow2_values();
    let e: int = x + 1086;
    let p: nat = 0x800;
    let m: nat = q / p;
    let rem: nat = q % p;
    let half: nat = 0x400;
    let up: bool = rem > half || (rem == half && (sticky || m % 2 == 1));
    let kept: nat = if up { (m + 1) as nat } else { m };
    let base: nat = (e - 1) as nat;
    let g: nat = pow2(base);
    lemma_pow2_pos(base);
    let r: Scalar = Scalar { bits: (base * HIDDEN_BIT + kept) as u64 };
    assert(HIDDEN_BIT <= m < 2 * HIDDEN_BIT);
    lemma_weight_of_pattern(base, kept);
    let wr: nat = r.weight();
    let wc: nat = c.weight();
    assert(wr == kept * g);
    let extra: nat = if sticky { 1 } else { 0 };
    assert(q == p * m + rem);
    // in units of the last place of `q`: the kept significand and half a
    // step enclose the value
    assert(2 * (kept * p) + p >= 2 * (q + extra));
    assert(2 * (kept * p) <= 2 * q + p);
    let ec: nat = (c.exp() + 1074) as nat;
    lemma_pow2_pos(ec);
    if ec >= base {
        let j: nat = c.sig() * pow2((ec - base) as nat);
        lemma_pow2_adds((ec - base) as nat, base);
        assert(wc == j * g) by (nonlinear_arith)
            requires
                wc == c.sig() * pow2(ec),
                pow2(ec) == pow2((ec - base) as nat) * g,
                j == c.sig() * pow2((ec - base) as nat),
        ;
        if wc > wr {
            assert(j >= kept + 1) by (nonlinear_arith)
                requires
                    j * g > kept * g,
                    g > 0,
            ;
            assert((wc + wr) * 0x800 >= 2 * (q + extra) * g) by (nonlinear_arith)
                requires
                    wc == j * g,
                    wr == kept * g,
                    j >= kept + 1,
                    2 * (kept * 0x800) + 0x800 >= 2 * (q + extra),
                    g > 0,
            ;
        }
        if wc < wr {
            assert(j + 1 <= kept) by (nonlinear_arith)
                requires
                    j * g < kept * g,
                    g > 0,
            ;
            assert((wc + wr) * 0x800 <= 2 * q * g) by (nonlinear_arith)
                requires
                    wc == j * g,
                    wr == kept * g,
                    j + 1 <= kept,
                    2 * (kept * 0x800) <= 2 * q + 0x800,
                    g > 0,
            ;
        }
    } else {
        // below the binade: at most the largest number below it
        lemma_pow2_order(ec + 1, base);
        lemma_pow2_unfold(ec + 1);
        assert(2 * wc <= (2 * HIDDEN_BIT - 1) * g) by (nonlinear_arith)
            requires
                wc == c.sig() * pow2(ec),
                c.sig() <= 2 * HIDDEN_BIT - 1,
                2 * pow2(ec) <= g,
                pow2(ec) > 0,
        ;
        assert(wc < wr) by (nonlinear_arith)
            requires
                2 * wc <= (2 * HIDDEN_BIT - 1) * g,
                wr == kept * g,
                kept >= HIDDEN_BIT,
                g > 0,
        ;
        assert((wc + wr) * 0x800 <= 2 * q * g) by (nonlinear_arith)
            requires
                2 * wc <= (2 * HIDDEN_BIT - 1) * g,
                wr == kept * g,
                2 * (kept * 0x800) <= 2 * q + 0x800,
                q >= HIDDEN_BIT * 0x800,
                g > 0,
        ;
    }
}

/// The square root is the nearest number: of any other finite number, the
/// number halfway between it and the root returned lies on its side of
/// the exact root, or on the root. Squares are compared in place of
/// roots, as integers, all times `2^2148`.
pub proof fn lemma_root_is_nearest(a: Scalar, c: Scalar)
    requires
        a.finite(),
        !a.negative() || a.zero(),
        c.finite(),
    ensures
        a.spec_sqrt().finite(),
        ({
            let sum: nat = c.weight() + a.spec_sqrt().weight();
            &&& c.weight() > a.spec_sqrt().weight() ==> sum * sum >= 4 * (a.weight() * pow2(1074))
            &&& c.weight() < a.spec_sqrt().weight() ==> sum * sum <= 4 * (a.weight() * pow2(1074))
        }),
{
    reveal(Scalar::spec_sqrt);
    lemma_pow2_values();
    let r: Scalar = a.spec_sqrt();
    let wc: nat = c.weight();
    let sum: nat = wc + r.weight();
    if a.zero() {
        lemma_weight_of_zero(a);
        assert(a.weight() * pow2(1074) == 0) by (nonlinear_arith)
            requires
                a.weight() == 0,
        ;
        assert(sum * sum >= 0) by (nonlinear_arith);
    } else {
        reveal(rounded);
        let sg: nat = a.sig();
        let k: nat = lead(sg);
        lemma_lead_bounds(sg);
        let top: nat = sg * pow2(k);
        let x: int = a.exp() - k;
        let even: bool = x % 2 == 0;
        let n: nat = if even { top } else { top / 2 };
        let xe: int = if even { x } else { x + 1 };
        let y: int = xe / 2;
        assert(xe == 2 * y);
        let s: nat = isqrt(n);
        // the leading bit of the significand is shifted by 75 places or
        // more: the shifted significand is even
        lemma_pow2_pos(k);
        assert(k >= 1) by {
            if k == 0 {
                assert(sg * pow2(0) == sg);
            }
        }
        lemma_pow2_unfold(k);
        assert(top == 2 * (sg * pow2((k - 1) as nat))) by (nonlinear_arith)
            requires
                top == sg * pow2(k),
                pow2(k) == 2 * pow2((k - 1) as nat),
        ;
        assert(TWO_127 / 2 <= n < 2 * TWO_127);
        assert(!even ==> 2 * n == top);
        // the root of a number of 127 or 128 bits has 64 bits
        let low: nat = (TWO_64 / 2) as nat;
        assert(is_isqrt(low, (TWO_127 / 2) as nat)) by (nonlinear_arith)
            requires
                low == TWO_64 / 2,
        ;
        lemma_root_exists(n);
        assert(is_isqrt(s, n));
        assert(s >= TWO_64 / 2) by (nonlinear_arith)
            requires
                n >= TWO_127 / 2,
                n < (s + 1) * (s + 1),
        ;
        assert(s < TWO_64) by (nonlinear_arith)
            requires
                s * s <= n,
                n < 2 * TWO_127,
        ;
        let sticky: bool = s * s != n;
        lemma_pow2_adds(64, 63);
        assert(TWO_127 <= s * pow2(64) < 2 * TWO_127) by (nonlinear_arith)
            requires
                TWO_64 / 2 <= s < TWO_64,
                pow2(64) == TWO_64,
        ;
        lemma_lead_unique(s, 64);
        let t: nat = s * pow2(64);
        lemma_div_multiples_vanish(s as int, TWO_64 as int);
        lemma_mod_multiples_basic(s as int, TWO_64 as int);
        assert(t == TWO_64 * s) by (nonlinear_arith)
            requires
                t == s * pow2(64),
                pow2(64) == TWO_64,
        ;
        assert(t / (TWO_64 as nat) == s);
        assert(t % (TWO_64 as nat) == 0);
        let mag: nat = rounded_magnitude(s, y, sticky);
        assert(r == Scalar::with_sign(mag, false));
        // the root of a finite number is far from the largest
        assert(-602 <= y <= 486);
        assert(mag < INF_BITS) by {
            reveal(rounded_magnitude);
        }
        let plain: Scalar = Scalar { bits: mag as u64 };
        assert(r == plain);
        lemma_rounded_magnitude_splits(s, y, sticky, c);
        let g: nat = pow2(grid(y));
        let extra: nat = if sticky { 1 } else { 0 };
        // the value of the number, times 2^2148, in the units of the root
        let ea: nat = (a.exp() + 1074) as nat;
        let twice: nat = (2 * (y + 1085)) as nat;
        assert(grid(y) == y + 1085);
        lemma_pow2_adds(grid(y), grid(y));
        lemma_pow2_adds(ea, 1074);
        lemma_pow2_adds(11, 11);
        assert(pow2(22) == 0x800 * 0x800);
        // sig * 2^(exp + 2148) = n * 2^(xe + 2148), and 2 * grid = xe + 2148 + 22
        let shift: nat = (xe + 2148) as nat;
        lemma_pow2_adds(shift, 22);
        assert(twice == shift + 22);
        if even {
            lemma_pow2_adds(k, shift);
            assert(ea + 1074 == k + shift);
        } else {
            lemma_pow2_adds((k - 1) as nat, shift);
            assert(ea + 1074 == (k - 1) + shift);
        }
        assert(a.weight() * pow2(1074) == n * pow2(shift)) by (nonlinear_arith)
            requires
                a.weight() == sg * pow2(ea),
                pow2(ea + 1074) == pow2(ea) * pow2(1074),
                even ==> n == sg * pow2(k) && pow2(ea + 1074) == pow2(k) * pow2(shift),
                !even ==> n == sg * pow2((k - 1) as nat) && pow2(ea + 1074) == pow2((k - 1) as nat)
                    * pow2(shift),
        ;
        let unit: nat = pow2(shift);
        lemma_pow2_pos(shift);
        assert(g * g == unit * (0x800 * 0x800)) by (nonlinear_arith)
            requires
                pow2(twice) == g * g,
                pow2(twice) == unit * pow2(22),
                pow2(22) == 0x800 * 0x800,
        ;
        if wc > r.weight() {
            let bound: nat = 2 * (s + extra) * g;
            assert(sum * 0x800 >= bound);
            assert((sum * 0x800) * (sum * 0x800) >= bound * bound) by (nonlinear_arith)
                requires
                    sum * 0x800 >= bound,
            ;
            assert((s + extra) * (s + extra) >= n) by (nonlinear_arith)
                requires
                    s * s <= n < (s + 1) * (s + 1),
                    extra == (if s * s != n { 1nat } else { 0nat }),
            ;
            assert(sum * sum >= 4 * (n * unit)) by (nonlinear_arith)
                requires
                    (sum * 0x800) * (sum * 0x800) >= bound * bound,
                    bound == 2 * (s + extra) * g,
                    (s + extra) * (s + extra) >= n,
                    g * g == unit * (0x800 * 0x800),
                    unit > 0,
            ;
        }
        if wc < r.weight() {
            let bound: nat = 2 * s * g;
            assert(sum * 0x800 <= bound);
            assert((sum * 0x800) * (sum * 0x800) <= bound * bound) by (nonlinear_arith)
                requires
                    sum * 0x800 <= bound,
            ;
            assert(sum * sum <= 4 * (n * unit)) by (nonlinear_arith)
                requires
                    (sum * 0x800) * (sum * 0x800) <= bound * bound,
                    bound == 2 * s * g,
                    s * s <= n,
                    g * g == unit * (0x800 * 0x800),
                    unit > 0,
            ;
        }
    }
}

/// Every number has an integer square root.
proof fn lemma_root_exists(n: nat)
    ensures
        is_isqrt(isqrt(n), n),
    decreases n,
{
    // the largest `s` with `s * s <= n`, found by counting up
    lemma_root_from(n, 0);
}

/// From a number whose square is at most `n` on, there is an integer
/// square root of `n`.
proof fn lemma_root_from(n: nat, s: nat)
    requires
        s * s <= n,
    ensures
        is_isqrt(isqrt(n), n),
    decreases n - s * s,
{
    if (s + 1) * (s + 1) <= n {
        assert((s + 1) * (s + 1) > s * s) by (nonlinear_arith);
        lemma_root_from(n, s + 1);
    } else {
        assert(is_isqrt(s, n));
    }
}

/// What is rounded from a value below `2^1023` is finite: a value
/// `n * 2^x` with `n` below `2^128` and `x` at most 895.
pub proof fn lemma_rounded_is_finite(negative: bool, n: nat, x: int, sticky: bool)
    requires
        0 < n < 2 * TWO_127,
        x <= 895,
    ensures
        rounded(negative, n, x, sticky).finite(),
{
    reveal(rounded);
    reveal(rounded_magnitude);
    lemma_pow2_values();
    let k: nat = lead(n);
    lemma_lead_bounds(n);
    let t: nat = n * pow2(k);
    let q: nat = t / (TWO_64 as nat);
    assert(TWO_64 / 2 <= q < TWO_64);
    let xx: int = x - k + 64;
    let e: int = xx + 1086;
    assert(e <= 2045);
    let shift: nat = if e >= 1 {
        11
    } else if e >= -53 {
        (12 - e) as nat
    } else {
        65
    };
    let p: nat = pow2(shift);
    lemma_pow2_order(11, shift);
    lemma_pow2_pos(shift);
    lemma_div_is_ordered_by_denominator(q as int, pow2(11) as int, p as int);
    assert(q / p <= q / 0x800);
}

/// The pattern of 1 is the whole number 1.
pub proof fn lemma_one_is_whole()
    ensures
        Scalar::of_int(1) == (Scalar { bits: ONE_BITS }),
        Scalar::of_int(0) == (Scalar { bits: 0 }),
{
    reveal(Scalar::of_int);
    let one: Scalar = Scalar { bits: ONE_BITS };
    let r: Scalar = Scalar::of_int(1);
    lemma_small_integers_are_exact(1);
    lemma_pow2_values();
    lemma_rounded_has_sign(false, 1, 0, false);
    assert(one.sig() == HIDDEN_BIT);
    assert(one.exp() == -52);
    lemma_pow2_adds(52, 1022);
    assert(one.weight() == 1 * pow2(1074));
    crate::scalar::value::lemma_order_is_that_of_values(r, one);
}

/// A number times itself is not negative.
pub proof fn lemma_square_is_not_negative(a: Scalar)
    ensures
        a.spec_times(a).nan() || !a.spec_times(a).negative(),
{
    reveal(Scalar::spec_times);
    if a.finite() && !a.zero() {
        lemma_rounded_has_sign(false, a.sig() * a.sig(), a.exp() + a.exp(), false);
    }
}

/// Zero times a number is zero, or NaN where the number is not finite.
pub proof fn lemma_zero_times(z: Scalar, a: Scalar)
    requires
        z.zero() || z.nan(),
    ensures
        z.spec_times(a).zero() || z.spec_times(a).nan(),
        a.spec_times(z).zero() || a.spec_times(z).nan(),
{
    reveal(Scalar::spec_times);
}

/// A number with a zero added is that number, and NaN with a NaN added.
pub proof fn lemma_plus_zero(a: Scalar, z: Scalar)
    requires
        !a.nan(),
        !a.zero(),
        z.zero() || z.nan(),
    ensures
        z.zero() ==> a.spec_plus(z) == a && z.spec_plus(a) == a,
        z.nan() ==> a.spec_plus(z).nan() && z.spec_plus(a).nan(),
{
    reveal(Scalar::spec_plus);
}

/// The sum of two numbers that are not negative, the first of them not
/// zero, is not zero and not negative.
pub proof fn lemma_sum_stays_positive(a: Scalar, b: Scalar)
    requires
        !a.nan(),
        !b.nan(),
        !a.negative(),
        !b.negative(),
        !a.zero(),
    ensures
        !a.spec_plus(b).nan(),
        !a.spec_plus(b).negative(),
        !a.spec_plus(b).zero(),
{
    reveal(Scalar::spec_plus);
    let r: Scalar = a.spec_plus(b);
    if a.finite() && b.finite() && !b.zero() {
        reveal(Scalar::sum_ordered);
        lemma_pow2_values();
        let hi: Scalar = if a.mag() < b.mag() { b } else { a };
        let lo: Scalar = if a.mag() < b.mag() { a } else { b };
        let d: int = hi.exp() - lo.exp();
        if d <= 64 {
            lemma_pow2_pos(d as nat);
            let n: nat = hi.sig() * pow2(d as nat) + lo.sig();
            lemma_rounded_has_sign(false, n, lo.exp(), false);
        } else {
            lemma_rounded_has_sign(false, 4096 * hi.sig(), hi.exp() - 12, true);
        }
        assert(!r.negative() && !r.nan());
        if r.zero() {
            lemma_sum_is_nearest(a, b, a);
            lemma_weight_of_zero(a);
            lemma_weight_of_zero(b);
            lemma_weight_of_zero(r);
        }
    }
}

/// The square root of 1 is 1.
pub proof fn lemma_root_of_one()
    ensures
        (Scalar { bits: ONE_BITS }).spec_sqrt() == (Scalar { bits: ONE_BITS }),
{
    reveal(Scalar::spec_sqrt);
    reveal(rounded);
    reveal(rounded_magnitude);
    lemma_pow2_values();
    let one: Scalar = Scalar { bits: ONE_BITS };
    assert(one.sig() == HIDDEN_BIT);
    assert(one.exp() == -52);
    lemma_pow2_adds(11, 64);
    lemma_pow2_adds(52, 75);
    lemma_lead_unique(HIDDEN_BIT as nat, 75);
    let top: nat = (HIDDEN_BIT * pow2(75)) as nat;
    assert(top == TWO_127);
    let n: nat = (TWO_127 / 2) as nat;
    assert(top / 2 == n);
    let s: nat = (TWO_64 / 2) as nat;
    assert(is_isqrt(s, n)) by (nonlinear_arith)
        requires
            s == 0x8000_0000_0000_0000,
            n == 0x4000_0000_0000_0000_0000_0000_0000_0000,
    ;
    lemma_isqrt_unique(n, s);
    assert(s * s == n) by (nonlinear_arith)
        requires
            s == 0x8000_0000_0000_0000,
            n == 0x4000_0000_0000_0000_0000_0000_0000_0000,
    ;
    lemma_pow2_adds(63, 64);
    lemma_lead_unique(s, 64);
    assert(s * pow2(64) == TWO_127);
}

/// Only a zero has a zero for its square root.
pub proof fn lemma_root_of_nonzero(a: Scalar)
    requires
        !a.zero(),
    ensures
        !a.spec_sqrt().zero(),
{
    reveal(Scalar::spec_sqrt);
    if a.finite() && !a.negative() {
        let tiny: Scalar = Scalar { bits: 1 };
        lemma_pow2_values();
        assert(tiny.sig() == 1 && tiny.exp() == -1074);
        assert(tiny.weight() == 1);
        lemma_root_is_nearest(a, tiny);
        let r: Scalar = a.spec_sqrt();
        lemma_weight_of_zero(r);
        lemma_weight_of_zero(a);
        if r.zero() {
            lemma_pow2_pos(1074);
            assert(a.weight() * pow2(1074) >= 1) by (nonlinear_arith)
                requires
                    a.weight() >= 1,
                    pow2(1074) >= 1,
            ;
        }
    }
}

/// Rounding a whole number of any size gives the nearest number. Let a
/// value be `(n + fnum / den) * 2^x`, with `n` of at least 54 bits unless
/// the fraction is zero, and let rounding give a finite number. Then no
/// finite number `c` is nearer to the value than that number, compared as
/// `lemma_rounded_is_nearest` compares them.
pub proof fn lemma_rounded_wide_is_nearest(negative: bool, n: nat, x: int, fnum: nat, den: nat, c: Scalar)
    requires
        0 < n,
        den > 0,
        fnum < den,
        fnum > 0 ==> n >= 2 * HIDDEN_BIT,
        c.finite(),
        rounded_wide(negative, n, x, fnum > 0).finite(),
    ensures
        ({
            let r: Scalar = rounded_wide(negative, n, x, fnum > 0);
            let scale: nat = den * pow2(weight_shift(x));
            let exact: nat = (n * den + fnum) * pow2(value_shift(x));
            apart(r.weight() * scale, exact) <= apart(c.weight() * scale, exact)
        }),
    decreases n,
{
    if n < 2 * TWO_127 {
        lemma_rounded_is_nearest(negative, n, x, fnum, den, c);
    } else {
        let base: nat = LIMB as nat;
        let q: nat = n / base;
        let low: nat = n % base;
        lemma_fundamental_div_mod(n as int, base as int);
        assert(n == base * q + low);
        let fnum2: nat = low * den + fnum;
        let den2: nat = base * den;
        assert(fnum2 < den2) by (nonlinear_arith)
            requires
                fnum2 == low * den + fnum,
                den2 == base * den,
                low + 1 <= base,
                fnum < den,
        ;
        assert(fnum2 > 0 <==> (fnum > 0 || low != 0)) by (nonlinear_arith)
            requires
                fnum2 == low * den + fnum,
                den > 0,
        ;
        assert(q >= 2 * HIDDEN_BIT && q < n);
        let r: Scalar = rounded_wide(negative, n, x, fnum > 0);
        assert(r == rounded_wide(negative, q, x + 32, fnum2 > 0));
        lemma_rounded_wide_is_nearest(negative, q, x + 32, fnum2, den2, c);
        let inner: nat = n * den + fnum;
        assert(q * den2 + fnum2 == inner) by (nonlinear_arith)
            requires
                n == base * q + low,
                fnum2 == low * den + fnum,
                den2 == base * den,
                inner == n * den + fnum,
        ;
        lemma_pow2_values();
        let u: int = x + 1074;
        let scale: nat = den * pow2(weight_shift(x));
        let exact: nat = inner * pow2(value_shift(x));
        let scale2: nat = den2 * pow2(weight_shift(x + 32));
        let exact2: nat = inner * pow2(value_shift(x + 32));
        if u >= 0 {
            lemma_pow2_adds(u as nat, 32);
            assert(scale2 == scale * base) by (nonlinear_arith)
                requires
                    scale2 == den2 * 1,
                    den2 == base * den,
                    scale == den * 1,
            ;
            assert(exact2 == exact * base) by (nonlinear_arith)
                requires
                    exact2 == inner * pow2((u + 32) as nat),
                    pow2((u + 32) as nat) == pow2(u as nat) * base,
                    exact == inner * pow2(u as nat),
            ;
            lemma_nearer_at_any_scale(r.weight(), c.weight(), scale, exact, base);
        } else if u + 32 <= 0 {
            lemma_pow2_adds((-u - 32) as nat, 32);
            assert(scale2 == scale) by (nonlinear_arith)
                requires
                    scale2 == den2 * pow2((-u - 32) as nat),
                    den2 == base * den,
                    scale == den * pow2((-u) as nat),
                    pow2((-u) as nat) == pow2((-u - 32) as nat) * base,
            ;
            assert(exact2 == exact);
        } else {
            let g: nat = pow2((u + 32) as nat);
            lemma_pow2_adds((-u) as nat, (u + 32) as nat);
            lemma_pow2_pos((u + 32) as nat);
            assert(scale2 == scale * g) by (nonlinear_arith)
                requires
                    scale2 == den2 * 1,
                    den2 == base * den,
                    scale == den * pow2((-u) as nat),
                    base == pow2((-u) as nat) * g,
            ;
            assert(exact2 == exact * g) by (nonlinear_arith)
                requires
                    exact2 == inner * g,
                    exact == inner * 1,
            ;
            lemma_nearer_at_any_scale(r.weight(), c.weight(), scale, exact, g);
        }
    }
}

/// A value of at most 53 bits, its last place not below the lowest, is
/// rounded to itself: where `n * 2^x` rounds to a finite number, that
/// number has its value.
pub proof fn lemma_rounded_exact(negative: bool, n: nat, x: int)
    requires
        0 < n < 2 * HIDDEN_BIT,
        x >= -1074,
        rounded(negative, n, x, false).finite(),
    ensures
        rounded(negative, n, x, false).weight() == n * pow2((x + 1074) as nat),
        rounded(negative, n, x, false).negative() == negative,
{
    reveal(rounded);
    reveal(rounded_magnitude);
    lemma_pow2_values();
    let r: Scalar = rounded(negative, n, x, false);
    let k: nat = lead(n);
    lemma_lead_bounds(n);
    lemma_pow2_pos(k);
    assert(k >= 75) by {
        if k < 75 {
            lemma_pow2_order(k, 74);
            lemma2_to64();
            lemma_pow2_adds(64, 10);
            assert(n * pow2(k) < TWO_127) by (nonlinear_arith)
                requires
                    n < 2 * HIDDEN_BIT,
                    pow2(k) <= pow2(74),
                    pow2(74) == 0x400_0000_0000_0000_0000,
            ;
        }
    }
    let j: nat = (k - 75) as nat;
    lemma_pow2_adds(j, 75);
    lemma_pow2_adds(11, 64);
    lemma_pow2_pos(j);
    let t: nat = n * pow2(k);
    let m: nat = n * pow2(j);
    assert(t == (m * 0x800) * TWO_64) by (nonlinear_arith)
        requires
            t == n * pow2(k),
            m == n * pow2(j),
            pow2(k) == pow2(j) * pow2(75),
            pow2(75) == 0x800 * TWO_64,
    ;
    lemma_div_multiples_vanish((m * 0x800) as int, TWO_64 as int);
    lemma_mod_multiples_basic((m * 0x800) as int, TWO_64 as int);
    let q: nat = t / (TWO_64 as nat);
    assert(q == m * 0x800);
    assert(HIDDEN_BIT <= m < 2 * HIDDEN_BIT) by (nonlinear_arith)
        requires
            TWO_127 <= (m * 0x800) * TWO_64 < 2 * TWO_127,
    ;
    let xx: int = x - k + 64;
    let e: int = xx + 1086;
    let u: nat = (x + 1074) as nat;
    if e >= 1 {
        assert(q / 0x800 == m);
        assert(q % 0x800 == 0);
        let base: nat = (e - 1) as nat;
        assert(base + j == u);
        lemma_weight_of_pattern(base, m);
        lemma_pow2_adds(j, base);
        assert(m * pow2(base) == n * pow2(u)) by (nonlinear_arith)
            requires
                m == n * pow2(j),
                pow2(u) == pow2(j) * pow2(base),
        ;
        let plain: Scalar = Scalar { bits: (base * HIDDEN_BIT + m) as u64 };
        assert(r.mag() == plain.mag());
        assert(r.weight() == plain.weight());
    } else {
        // a subnormal result: the places dropped are those of the shift
        let shift: nat = (12 - e) as nat;
        assert(e >= -53);
        assert(shift + u == k - 64);
        let p: nat = pow2(shift);
        lemma_pow2_pos(shift);
        lemma_pow2_pos(u);
        lemma_pow2_adds(shift, u);
        lemma_pow2_adds((k - 64) as nat, 64);
        let w: nat = n * pow2(u);
        assert(q == w * p) by (nonlinear_arith)
            requires
                q == m * 0x800,
                m == n * pow2(j),
                pow2(k) == pow2(j) * pow2(75),
                pow2(75) == 0x800 * TWO_64,
                pow2(k) == pow2((k - 64) as nat) * TWO_64,
                pow2((k - 64) as nat) == p * pow2(u),
                w == n * pow2(u),
        ;
        assert(w * p == p * w) by (nonlinear_arith);
        lemma_div_multiples_vanish(w as int, p as int);
        lemma_mod_multiples_basic(w as int, p as int);
        assert(q / p == w);
        assert(q % p == 0);
        lemma_pow2_order(12, shift);
        lemma_div_is_ordered_by_denominator(q as int, pow2(12) as int, p as int);
        assert(w <= q / 0x1000);
        lemma_weight_of_pattern(0, w);
        let plain: Scalar = Scalar { bits: w as u64 };
        assert(r.mag() == plain.mag());
        assert(r.weight() == plain.weight());
    }
}

/// Twice a number is exact: where twice a finite number is finite, it has
/// twice its value.
pub proof fn lemma_double(a: Scalar)
    requires
        a.finite(),
        (Scalar { bits: TWO_BITS }).spec_times(a).finite(),
    ensures
        (Scalar { bits: TWO_BITS }).spec_times(a).scaled() == 2 * a.scaled(),
        (Scalar { bits: TWO_BITS }).spec_times(a).negative() == a.negative(),
{
    reveal(Scalar::spec_times);
    lemma_pow2_values();
    let two: Scalar = Scalar { bits: TWO_BITS };
    let r: Scalar = two.spec_times(a);
    assert(two.sig() == HIDDEN_BIT && two.exp() == -51 && !two.negative());
    lemma_weight_of_zero(a);
    lemma_weight_of_zero(r);
    if !a.zero() {
        let n: nat = a.sig();
        assert(HIDDEN_BIT * n == n * pow2(52)) by (nonlinear_arith)
            requires
                pow2(52) == HIDDEN_BIT,
        ;
        assert(n * pow2(52) < 2 * TWO_127) by (nonlinear_arith)
            requires
                n < 2 * HIDDEN_BIT,
                pow2(52) == 0x10_0000_0000_0000,
        ;
        crate::scalar::value::lemma_rounded_scales(a.negative(), n, a.exp() + 1, 52);
        lemma_rounded_exact(a.negative(), n, a.exp() + 1);
        let u: nat = (a.exp() + 1074) as nat;
        lemma_pow2_unfold(u + 1);
        assert(n * pow2(u + 1) == 2 * (n * pow2(u))) by (nonlinear_arith)
            requires
                pow2(u + 1) == 2 * pow2(u),
        ;
    }
}

/// A number less twice itself is its opposite: where twice a finite number
/// is finite, the difference equals the number negated, as numbers.
pub proof fn lemma_minus_double(a: Scalar)
    requires
        a.finite(),
        (Scalar { bits: TWO_BITS }).spec_times(a).finite(),
    ensures
        a.spec_minus((Scalar { bits: TWO_BITS }).spec_times(a)).spec_equals(a.spec_negated()),
        a.spec_minus((Scalar { bits: TWO_BITS }).spec_times(a)).mag() == a.mag(),
{
    let two: Scalar = Scalar { bits: TWO_BITS };
    let twice: Scalar = two.spec_times(a);
    lemma_double(a);
    lemma_weight_of_zero(a);
    lemma_weight_of_zero(twice);
    reveal(Scalar::spec_plus);
    let back: Scalar = twice.spec_negated();
    assert(back.mag() == twice.mag() && back.negative() != twice.negative());
    assert(back.sig() == twice.sig() && back.exp() == twice.exp());
    if !a.zero() {
        lemma_pow2_values();
        let r: Scalar = a.spec_plus(back);
        assert(twice.weight() == 2 * a.weight());
        if a.mag() >= twice.mag() {
            if a.mag() > twice.mag() {
                lemma_weight_increases(twice, a);
            }
        }
        assert(a.mag() < back.mag());
        assert(r == Scalar::sum_ordered(back, a));
        reveal(Scalar::sum_ordered);
        let d: int = back.exp() - a.exp();
        assert(d >= 0);
        let u: nat = (a.exp() + 1074) as nat;
        let pd: nat = pow2(d as nat);
        let pu: nat = pow2(u);
        lemma_pow2_pos(d as nat);
        lemma_pow2_pos(u);
        lemma_pow2_adds(d as nat, u);
        assert(back.sig() * pd == 2 * a.sig()) by (nonlinear_arith)
            requires
                back.sig() * pow2((d + u) as nat) == 2 * (a.sig() * pu),
                pow2((d + u) as nat) == pd * pu,
                pu > 0,
        ;
        if d > 64 {
            lemma_pow2_order(65, d as nat);
            lemma_pow2_adds(1, 64);
            assert(false) by (nonlinear_arith)
                requires
                    back.sig() * pd == 2 * a.sig(),
                    back.sig() >= 1,
                    pd >= 2 * TWO_64,
                    a.sig() < 2 * HIDDEN_BIT,
            ;
        }
        let opposite: Scalar = a.spec_negated();
        crate::scalar::value::lemma_rounding_keeps_numbers(opposite);
        assert(opposite.sig() == a.sig() && opposite.exp() == a.exp());
        assert(r == opposite);
    }
}

/// A whole number below `2^53` times a power of two within the range of
/// the numbers is a number: it is finite and not negative, and has that
/// value.
pub proof fn lemma_scaled_whole_is_exact(a: nat, x: int)
    requires
        a < 2 * HIDDEN_BIT,
        -1074 <= x <= 895,
    ensures
        Scalar::scaled_whole(a, x).finite(),
        !Scalar::scaled_whole(a, x).negative(),
        Scalar::scaled_whole(a, x).weight() == a * pow2((x + 1074) as nat),
        a > 0 ==> !Scalar::scaled_whole(a, x).zero() && x - 53 < Scalar::scaled_whole(a, x).exp() <= x,
{
    let r: Scalar = Scalar::scaled_whole(a, x);
    let u: nat = (x + 1074) as nat;
    lemma_pow2_values();
    lemma_pow2_pos(u);
    if a == 0 {
        lemma_weight_of_zero(r);
        assert(0 * pow2(u) == 0);
    } else {
        lemma_rounded_is_finite(false, a, x, false);
        lemma_rounded_exact(false, a, x);
        lemma_weight_of_zero(r);
        assert(a * pow2(u) > 0) by (nonlinear_arith)
            requires
                a > 0,
                pow2(u) > 0,
        ;
        let e: nat = (r.exp() + 1074) as nat;
        let sg: nat = r.sig();
        lemma_pow2_pos(e);
        if r.exp() > x {
            // a normal number has a significand of 53 bits: too many
            lemma_pow2_order(u + 1, e);
            lemma_pow2_unfold(u + 1);
            assert(sg >= HIDDEN_BIT);
            assert(false) by (nonlinear_arith)
                requires
                    sg * pow2(e) == a * pow2(u),
                    pow2(e) >= 2 * pow2(u),
                    sg >= HIDDEN_BIT,
                    a < 2 * HIDDEN_BIT,
                    pow2(u) > 0,
            ;
        }
        if r.exp() <= x - 53 {
            lemma_pow2_order(e + 53, u);
            lemma_pow2_adds(e, 53);
            assert(false) by (nonlinear_arith)
                requires
                    sg * pow2(e) == a * pow2(u),
                    pow2(u) >= pow2(e) * 0x20_0000_0000_0000,
                    sg < 2 * HIDDEN_BIT,
                    a >= 1,
                    pow2(e) > 0,
            ;
        }
    }
}

/// The sum of two finite numbers above zero whose exponents are at most 64
/// apart and at most 895 is finite and not negative.
proof fn lemma_near_sum_is_finite(p: Scalar, q: Scalar)
    requires
        p.finite() && q.finite(),
        !p.zero() && !q.zero(),
        !p.negative() && !q.negative(),
        p.exp() <= 895 && q.exp() <= 895,
        -64 <= p.exp() - q.exp() <= 64,
    ensures
        p.spec_plus(q).finite(),
        !p.spec_plus(q).negative(),
{
    reveal(Scalar::spec_plus);
    reveal(Scalar::sum_ordered);
    lemma_pow2_values();
    let hi: Scalar = if p.mag() < q.mag() { q } else { p };
    let lo: Scalar = if p.mag() < q.mag() { p } else { q };
    let d: int = hi.exp() - lo.exp();
    assert(p.spec_plus(q) == Scalar::sum_ordered(hi, lo));
    assert(0 <= d <= 64);
    let pd: nat = pow2(d as nat);
    lemma_pow2_order(d as nat, 64);
    lemma_pow2_pos(d as nat);
    let n: nat = hi.sig() * pd + lo.sig();
    assert(0 < n < 2 * TWO_127) by (nonlinear_arith)
        requires
            n == hi.sig() * pd + lo.sig(),
            hi.sig() < 2 * HIDDEN_BIT,
            0 < lo.sig() < 2 * HIDDEN_BIT,
            pd <= TWO_64,
    ;
    lemma_rounded_is_finite(false, n, lo.exp(), false);
    lemma_rounded_has_sign(false, n, lo.exp(), false);
}

/// The sum of two whole numbers times the same power of two is their sum
/// as integers times that power, as long as the sum stays below `2^53`.
pub proof fn lemma_sum_of_scaled(a: nat, b: nat, x: int)
    requires
        a + b < 2 * HIDDEN_BIT,
        -1074 <= x <= 895,
    ensures
        Scalar::scaled_whole(a, x).spec_plus(Scalar::scaled_whole(b, x)) == Scalar::scaled_whole(a + b, x),
{
    let p: Scalar = Scalar::scaled_whole(a, x);
    let q: Scalar = Scalar::scaled_whole(b, x);
    let z: Scalar = Scalar::scaled_whole(a + b, x);
    lemma_scaled_whole_is_exact(a, x);
    lemma_scaled_whole_is_exact(b, x);
    lemma_scaled_whole_is_exact(a + b, x);
    let unit: nat = pow2((x + 1074) as nat);
    if a == 0 || b == 0 {
        assert(p.spec_plus(q) == z) by {
            reveal(Scalar::spec_plus);
        }
    } else {
        let r: Scalar = p.spec_plus(q);
        lemma_near_sum_is_finite(p, q);
        lemma_sum_is_nearest(p, q, z);
        assert(p.scaled() + q.scaled() == z.scaled()) by (nonlinear_arith)
            requires
                p.scaled() == a * unit,
                q.scaled() == b * unit,
                z.scaled() == (a + b) * unit,
        ;
        assert(r.scaled() == z.scaled());
        crate::scalar::value::lemma_order_is_that_of_values(r, z);
        lemma_weight_of_zero(r);
        lemma_weight_of_zero(z);
    }
}

/// A whole number is itself times `2^0`.
pub proof fn lemma_whole_is_scaled(a: nat)
    ensures
        Scalar::of_int(a as int) == Scalar::scaled_whole(a, 0),
{
    reveal(Scalar::of_int);
}

/// The sum of two whole numbers is their sum as integers, as long as it
/// stays below `2^53`.
pub proof fn lemma_sum_of_integers(a: nat, b: nat)
    requires
        a + b < 2 * HIDDEN_BIT,
    ensures
        Scalar::of_int(a as int).spec_plus(Scalar::of_int(b as int)) == Scalar::of_int((a + b) as int),
{
    lemma_whole_is_scaled(a);
    lemma_whole_is_scaled(b);
    lemma_whole_is_scaled(a + b);
    lemma_sum_of_scaled(a, b, 0);
}

} // verus!
