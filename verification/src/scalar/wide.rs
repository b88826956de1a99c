//! Whole numbers of any size, held as limbs of 32 bits, the lowest first,
//! and their rounding to binary64 numbers.
use vstd::prelude::*;
use vstd::arithmetic::power2::*;
use crate::scalar::Scalar;
use crate::scalar::round::{rounded, round, TWO_127};

verus! {

/// The weight of a limb: `2^32`.
pub const LIMB: u64 = 0x1_0000_0000;

/// The whole number that the limbs from place `from` on stand for, the
/// limb at `from` being the lowest.
pub open spec fn wide_from(limbs: Seq<u32>, from: int) -> nat
    decreases limbs.len() - from,
{
    if 0 <= from < limbs.len() {
        limbs[from] as nat + LIMB as nat * wide_from(limbs, from + 1)
    } else {
        0
    }
}

/// The whole number that the limbs stand for.
pub open spec fn wide(limbs: Seq<u32>) -> nat {
    wide_from(limbs, 0)
}

/// `2^(32 n)`, the weight of the limb at place `n`.
pub open spec fn limb_weight(n: nat) -> nat
    decreases n,
{
    if n == 0 {
        1
    } else {
        LIMB as nat * limb_weight((n - 1) as nat)
    }
}

/// One more limb on top adds its value at the weight of its place.
proof fn lemma_wide_push(limbs: Seq<u32>, top: u32, from: int)
    requires
        0 <= from <= limbs.len(),
    ensures
        wide_from(limbs.push(top), from) == wide_from(limbs, from) + top * limb_weight(
            (limbs.len() - from) as nat,
        ),
    decreases limbs.len() - from,
{
    let longer: Seq<u32> = limbs.push(top);
    if from < limbs.len() {
        lemma_wide_push(limbs, top, from + 1);
        let rest: nat = wide_from(limbs, from + 1);
        let w: nat = limb_weight((limbs.len() - from - 1) as nat);
        assert(longer[from] == limbs[from]);
        assert(limb_weight((limbs.len() - from) as nat) == LIMB as nat * w);
        assert(LIMB as nat * (rest + top * w) == LIMB as nat * rest + top * (LIMB as nat * w))
            by (nonlinear_arith);
    } else {
        assert(wide_from(longer, from + 1) == 0);
        assert(limb_weight(0) == 1);
        assert(top * limb_weight(0) == top);
    }
}

/// A limb changed below a place leaves the number from that place on as it
/// was.
proof fn lemma_wide_update(limbs: Seq<u32>, at: int, value: u32, from: int)
    requires
        0 <= at < from,
        at < limbs.len(),
    ensures
        wide_from(limbs.update(at, value), from) == wide_from(limbs, from),
    decreases limbs.len() - from,
{
    if from < limbs.len() {
        lemma_wide_update(limbs, at, value, from + 1);
    }
}

/// Limbs that are all zero from a place on stand for zero from there on.
proof fn lemma_wide_zero(limbs: Seq<u32>, from: int)
    requires
        0 <= from,
        forall|i: int| from <= i < limbs.len() ==> limbs[i] == 0,
    ensures
        wide_from(limbs, from) == 0,
    decreases limbs.len() - from,
{
    if from < limbs.len() {
        lemma_wide_zero(limbs, from + 1);
    }
}

/// A limb that is not zero at or above a place makes the number from that
/// place on at least 1.
proof fn lemma_wide_positive(limbs: Seq<u32>, from: int, at: int)
    requires
        0 <= from <= at < limbs.len(),
        limbs[at] != 0,
    ensures
        wide_from(limbs, from) >= 1,
    decreases at - from,
{
    if from < at {
        lemma_wide_positive(limbs, from + 1, at);
        let rest: nat = wide_from(limbs, from + 1);
        assert(LIMB as nat * rest >= 1) by (nonlinear_arith)
            requires
                rest >= 1,
        ;
    }
}

/// The number times `m`, with `add` added.
pub fn times_small(limbs: &Vec<u32>, m: u32, add: u32) -> (r: Vec<u32>)
    ensures
        wide(r@) == wide(limbs@) * m + add,
        r@.len() <= limbs@.len() + 1,
{
    let mut out: Vec<u32> = Vec::new();
    let mut carry: u64 = add as u64;
    let mut i: usize = 0;
    let ghost mut weight: nat = 1;
    proof {
        assert(wide(out@) == 0);
        assert(limbs@.take(0) =~= Seq::<u32>::empty());
        assert(wide(limbs@.take(0)) == 0);
    }
    while i < limbs.len()
        invariant
            0 <= i <= limbs@.len(),
            out@.len() == i,
            carry < LIMB,
            weight == limb_weight(i as nat),
            wide(out@) + carry * weight == wide(limbs@.take(i as int)) * m + add,
        decreases limbs@.len() - i,
    {
        assert(limbs@[i as int] * m + carry < 0x1_0000_0000_0000_0000) by (nonlinear_arith)
            requires
                limbs@[i as int] <= 0xFFFF_FFFF,
                m <= 0xFFFF_FFFF,
                carry < 0x1_0000_0000,
        ;
        let cur: u64 = (limbs[i] as u64) * (m as u64) + carry;
        let low: u32 = (cur % LIMB) as u32;
        let next: u64 = cur / LIMB;
        proof {
            let before: Seq<u32> = limbs@.take(i as int);
            assert(limbs@.take(i + 1) =~= before.push(limbs@[i as int]));
            lemma_wide_push(before, limbs@[i as int], 0);
            lemma_wide_push(out@, low, 0);
            let v: nat = wide(before);
            let o: nat = wide(out@);
            let x: nat = limbs@[i as int] as nat;
            assert(limb_weight((i + 1) as nat) == LIMB as nat * weight);
            assert(o + low * weight + next * (LIMB as nat * weight) == (v + x * weight) * m + add)
                by (nonlinear_arith)
                requires
                    o + carry * weight == v * m + add,
                    cur == x * m + carry,
                    cur == low + next * LIMB,
            ;
            weight = LIMB as nat * weight;
        }
        out.push(low);
        carry = next;
        i = i + 1;
    }
    proof {
        assert(limbs@.take(i as int) =~= limbs@);
        lemma_wide_push(out@, carry as u32, 0);
        if carry == 0 {
            assert(carry * weight == 0);
        }
    }
    if carry != 0 {
        out.push(carry as u32);
    }
    out
}

/// The number over `m`, and what is left.
pub fn over_small(limbs: &Vec<u32>, m: u32) -> (r: (Vec<u32>, u32))
    requires
        m > 0,
    ensures
        wide(r.0@) * m + r.1 == wide(limbs@),
        r.1 < m,
        r.0@.len() == limbs@.len(),
{
    let mut out: Vec<u32> = limbs.clone();
    let mut rem: u64 = 0;
    let mut i: usize = limbs.len();
    proof {
        assert(wide_from(limbs@, i as int) == 0);
        assert(wide_from(out@, i as int) == 0);
    }
    while i > 0
        invariant
            0 <= i <= limbs@.len(),
            out@.len() == limbs@.len(),
            m > 0,
            rem < m,
            wide_from(limbs@, i as int) == wide_from(out@, i as int) * m + rem,
        decreases i,
    {
        i = i - 1;
        assert(rem * LIMB + limbs@[i as int] < 0x1_0000_0000_0000_0000) by (nonlinear_arith)
            requires
                rem < m,
                m <= 0xFFFF_FFFF,
                limbs@[i as int] <= 0xFFFF_FFFF,
        ;
        let cur: u64 = rem * LIMB + (limbs[i] as u64);
        let q: u64 = cur / (m as u64);
        let left: u64 = cur % (m as u64);
        proof {
            vstd::arithmetic::div_mod::lemma_fundamental_div_mod(cur as int, m as int);
            assert(cur == q * m + left) by (nonlinear_arith)
                requires
                    cur == m * q + left,
            ;
            assert(cur < m * LIMB) by (nonlinear_arith)
                requires
                    cur == rem * LIMB + limbs@[i as int],
                    rem + 1 <= m,
                    limbs@[i as int] < LIMB,
            ;
            assert(q < LIMB) by (nonlinear_arith)
                requires
                    cur < m * LIMB,
                    cur == q * m + left,
                    m > 0,
                    left >= 0,
            ;
            lemma_wide_update(out@, i as int, q as u32, i + 1);
            let above: nat = wide_from(out@, i + 1);
            assert(limbs@[i as int] + LIMB as nat * (above * m + rem) == (q + LIMB as nat * above) * m
                + left) by (nonlinear_arith)
                requires
                    cur == rem * LIMB + limbs@[i as int],
                    cur == q * m + left,
            ;
        }
        out.set(i, q as u32);
        rem = left;
    }
    (out, rem as u32)
}

/// The number nearest to a value that lies between `n * 2^x` and
/// `(n + 1) * 2^x`, for a whole number `n` of any size that is not zero:
/// what lies below the highest 128 bits of `n` only makes the value
/// inexact.
pub open spec fn rounded_wide(negative: bool, n: nat, x: int, sticky: bool) -> Scalar
    decreases n,
{
    if n >= 2 * TWO_127 {
        rounded_wide(negative, n / (LIMB as nat), x + 32, sticky || n % (LIMB as nat) != 0)
    } else {
        rounded(negative, n, x, sticky)
    }
}

/// Rounds a value between `n * 2^x` and `(n + 1) * 2^x`, for the whole
/// number `n` that the limbs stand for, which is not zero.
pub fn round_wide(negative: bool, limbs: &Vec<u32>, x: i64, sticky: bool) -> (r: Scalar)
    requires
        wide(limbs@) > 0,
        limbs@.len() <= 0x1000_0000,
        -0x80_0000_0000 <= x <= 0x80_0000_0000,
    ensures
        r == rounded_wide(negative, wide(limbs@), x as int, sticky),
{
    // the limbs that count: those up to the highest that is not zero
    let mut top: usize = limbs.len();
    proof {
        if forall|i: int| 0 <= i < limbs@.len() ==> limbs@[i] == 0 {
            lemma_wide_zero(limbs@, 0);
        }
    }
    while top > 0 && limbs[top - 1] == 0
        invariant
            0 <= top <= limbs@.len(),
            forall|i: int| top <= i < limbs@.len() ==> limbs@[i] == 0,
            exists|i: int| 0 <= i < limbs@.len() && limbs@[i] != 0,
        decreases top,
    {
        top = top - 1;
    }
    let mut from: usize = 0;
    let mut st: bool = sticky;
    let mut xx: i64 = x;
    while top - from > 4
        invariant
            0 <= from <= top <= limbs@.len(),
            limbs@.len() <= 0x1000_0000,
            top > 0,
            limbs@[top - 1] != 0,
            forall|i: int| top <= i < limbs@.len() ==> limbs@[i] == 0,
            xx == x + 32 * from,
            -0x80_0000_0000 <= x <= 0x80_0000_0000,
            wide_from(limbs@, from as int) > 0,
            rounded_wide(negative, wide_from(limbs@, from as int), xx as int, st) == rounded_wide(
                negative,
                wide(limbs@),
                x as int,
                sticky,
            ),
        decreases top - from,
    {
        proof {
            lemma_wide_positive(limbs@, from + 4, top - 1);
            lemma_wide_positive(limbs@, from + 1, top - 1);
            lemma_four_limbs(limbs@, from as int);
            let rest: nat = wide_from(limbs@, from + 1);
            let n: nat = wide_from(limbs@, from as int);
            assert(n == limbs@[from as int] + LIMB as nat * rest);
            vstd::arithmetic::div_mod::lemma_fundamental_div_mod_converse(
                n as int,
                LIMB as int,
                rest as int,
                limbs@[from as int] as int,
            );
        }
        if limbs[from] != 0 {
            st = true;
        }
        from = from + 1;
        xx = xx + 32;
    }
    proof {
        lemma_wide_zero(limbs@, top as int);
        lemma_four_limbs(limbs@, from as int);
        if top - from == 4 {
        } else {
            lemma_wide_zero(limbs@, from + 4);
            if from + 3 >= top {
                lemma_wide_zero(limbs@, from + 3);
            }
            if from + 2 >= top {
                lemma_wide_zero(limbs@, from + 2);
            }
            if from + 1 >= top {
                lemma_wide_zero(limbs@, from + 1);
            }
        }
        lemma_wide_zero(limbs@, from + 4);
    }
    let mut n: u128 = 0;
    let mut k: usize = top;
    while k > from
        invariant
            from <= k <= top,
            top - from <= 4,
            top <= limbs@.len(),
            n == wide_from(limbs@, k as int),
            forall|i: int| top <= i < limbs@.len() ==> limbs@[i] == 0,
            n < limb_weight((top - k) as nat),
            top - k <= 4,
        decreases k,
    {
        proof {
            lemma_weights();
            let w: nat = limb_weight((top - k) as nat);
            assert(limb_weight((top - k + 1) as nat) == LIMB as nat * w);
            assert(wide_from(limbs@, k - 1) == limbs@[k - 1] + LIMB as nat * wide_from(limbs@, k as int));
            assert(n * LIMB + limbs@[k - 1] < LIMB as nat * w) by (nonlinear_arith)
                requires
                    n + 1 <= w,
                    limbs@[k - 1] < LIMB,
            ;
        }
        k = k - 1;
        n = n * (LIMB as u128) + (limbs[k] as u128);
    }
    round(negative, n, xx, st)
}

/// The weights of the lowest five limbs.
proof fn lemma_weights()
    ensures
        limb_weight(0) == 1,
        limb_weight(1) == 0x1_0000_0000,
        limb_weight(2) == 0x1_0000_0000_0000_0000,
        limb_weight(3) == 0x1_0000_0000_0000_0000_0000_0000,
        limb_weight(4) == 0x1_0000_0000_0000_0000_0000_0000_0000_0000,
{
    reveal_with_fuel(limb_weight, 6);
}

/// The number from a place on is its lowest four limbs and, above them,
/// `2^128` times the number four places on.
proof fn lemma_four_limbs(limbs: Seq<u32>, from: int)
    requires
        0 <= from,
    ensures
        wide_from(limbs, from) >= 0x1_0000_0000_0000_0000_0000_0000_0000_0000 * wide_from(limbs, from + 4),
        wide_from(limbs, from + 4) == 0 ==> wide_from(limbs, from) < 0x1_0000_0000_0000_0000_0000_0000_0000_0000,
{
    reveal_with_fuel(wide_from, 5);
    let a: nat = wide_from(limbs, from + 4);
    let b: nat = wide_from(limbs, from + 3);
    let c: nat = wide_from(limbs, from + 2);
    let d: nat = wide_from(limbs, from + 1);
    let e: nat = wide_from(limbs, from);
    assert(b >= LIMB as nat * a);
    assert(c >= LIMB as nat * b);
    assert(d >= LIMB as nat * c);
    assert(e >= LIMB as nat * d);
    if a == 0 {
        assert(b < LIMB);
        assert(c < LIMB as nat * LIMB as nat) by (nonlinear_arith)
            requires
                c < LIMB + LIMB as nat * b,
                b < LIMB,
                c == c,
        ;
    }
}

/// Whether the limbs stand for zero.
pub fn is_zero_wide(limbs: &Vec<u32>) -> (r: bool)
    ensures
        r == (wide(limbs@) == 0),
{
    let mut i: usize = 0;
    while i < limbs.len()
        invariant
            0 <= i <= limbs@.len(),
            forall|k: int| 0 <= k < i ==> limbs@[k] == 0,
        decreases limbs@.len() - i,
    {
        if limbs[i] != 0 {
            proof {
                lemma_wide_positive(limbs@, 0, i as int);
            }
            return false;
        }
        i = i + 1;
    }
    proof {
        lemma_wide_zero(limbs@, 0);
    }
    true
}

} // verus!
