//! Decimal numbers in text, as binary64 numbers.
//!
//! A number is an optional sign and then either one of the words `inf`,
//! `infinity` and `nan`, in any case, or digits with at most one point
//! among them and, after an `e` or `E`, an optional sign and the digits of
//! a power of ten. The digits without the point are read as a whole
//! number of any size, and the number is that whole number times the
//! power of ten that the point and the exponent give, rounded once.
use vstd::prelude::*;
use vstd::arithmetic::power2::*;
use vstd::arithmetic::div_mod::*;
use crate::scalar::{Scalar, INF_BITS, NAN_BITS};
use crate::scalar::wide::{wide, rounded_wide, round_wide, times_small, over_small, is_zero_wide};
use crate::scalar::nearest::{apart, lemma_rounded_wide_is_nearest, lemma_nearer_at_any_scale};

verus! {

/// The longest text that is read as a number, in bytes.
pub const TEXT_LIMIT: usize = 0x1_0000;

/// `10^18`: the power of ten that is written counts up to it.
pub const DIGITS_LIMIT: u128 = 1_000_000_000_000_000_000;

/// The power of ten beyond which every number that is not zero is
/// infinite, and below whose negative every number is zero.
pub const POWER_LIMIT: i64 = 400;

/// Whether a byte is a decimal digit.
pub open spec fn is_digit(b: u8) -> bool {
    48 <= b <= 57
}

/// A letter in lower case, and any other byte as it is.
pub open spec fn lower(b: u8) -> u8 {
    if 65 <= b <= 90 {
        (b + 32) as u8
    } else {
        b
    }
}

/// The place where the run of digits that starts at `from` ends.
pub open spec fn digit_run(text: Seq<u8>, from: int) -> int
    decreases text.len() - from,
{
    if 0 <= from < text.len() && is_digit(text[from]) {
        digit_run(text, from + 1)
    } else {
        from
    }
}

/// The integer that the digits of `text` from `from` up to `to` spell when
/// they are written behind the integer `before`.
pub open spec fn appended(text: Seq<u8>, from: int, to: int, before: nat) -> nat
    decreases to - from,
{
    if to <= from {
        before
    } else {
        (10 * appended(text, from, to - 1, before) + (text[to - 1] - 48)) as nat
    }
}

/// `10^k`.
pub open spec fn ten_to(k: nat) -> nat
    decreases k,
{
    if k == 0 {
        1
    } else {
        10 * ten_to((k - 1) as nat)
    }
}

/// Whether `text` from `from` on is the word `inf` or `infinity`, in any
/// case.
pub open spec fn spells_infinity(text: Seq<u8>, from: int) -> bool {
    (text.len() - from == 3 && lower(text[from]) == 105 && lower(text[from + 1]) == 110 && lower(
        text[from + 2],
    ) == 102) || (text.len() - from == 8 && lower(text[from]) == 105 && lower(text[from + 1])
        == 110 && lower(text[from + 2]) == 102 && lower(text[from + 3]) == 105 && lower(
        text[from + 4],
    ) == 110 && lower(text[from + 5]) == 105 && lower(text[from + 6]) == 116 && lower(
        text[from + 7],
    ) == 121)
}

/// Whether `text` from `from` on is the word `nan`, in any case.
pub open spec fn spells_nan(text: Seq<u8>, from: int) -> bool {
    text.len() - from == 3 && lower(text[from]) == 110 && lower(text[from + 1]) == 97 && lower(
        text[from + 2],
    ) == 110
}

/// The number of bits by which a whole number is shifted up before it is
/// divided by `10^-e`: 128 and four for each power of ten, in steps of 32.
pub open spec fn shift_for(e: int) -> nat {
    (32 * (4 + (-e + 7) / 8)) as nat
}

/// The number nearest to `d * 10^e`, where `d` has `digits` digits. A
/// number that is not zero is infinite from `10^400` on, and zero where
/// it is below `10^-400`. Else `d` is multiplied by the power of ten and
/// rounded, or shifted up, divided by the power of ten and rounded, what
/// is left over making it inexact.
#[verifier::opaque]
pub open spec fn decimal(negative: bool, d: nat, digits: nat, e: int) -> Scalar {
    if d == 0 {
        Scalar::with_sign(0, negative)
    } else if e > POWER_LIMIT {
        Scalar::with_sign(INF_BITS as nat, negative)
    } else if e + digits < -POWER_LIMIT {
        Scalar::with_sign(0, negative)
    } else if e >= 0 {
        rounded_wide(negative, d * ten_to(e as nat), 0, false)
    } else {
        let s: nat = shift_for(e);
        let x: nat = d * pow2(s);
        let p: nat = ten_to((-e) as nat);
        rounded_wide(negative, x / p, -s, x % p != 0)
    }
}

/// The number that the digits `d`, `digits` of them with `places` behind
/// the point, spell with what follows them from `mantissa_end` on: nothing,
/// or an `e` and a power of ten, with or without a sign. There is none
/// where something else follows.
#[verifier::opaque]
pub open spec fn powered(
    text: Seq<u8>,
    negative: bool,
    d: nat,
    digits: nat,
    places: int,
    mantissa_end: int,
) -> Option<Scalar> {
    let has_power: bool = mantissa_end < text.len() && lower(text[mantissa_end]) == 101;
    let power_signed: bool = mantissa_end + 1 < text.len() && (text[mantissa_end + 1] == 43
        || text[mantissa_end + 1] == 45);
    let power_negative: bool = mantissa_end + 1 < text.len() && text[mantissa_end + 1] == 45;
    let power: int = if power_signed { mantissa_end + 2 } else { mantissa_end + 1 };
    let power_end: int = digit_run(text, power);
    let x: nat = appended(text, power, power_end, 0);
    if !has_power {
        if mantissa_end == text.len() {
            Some(decimal(negative, d, digits, -places))
        } else {
            None
        }
    } else if power_end == power || power_end != text.len() {
        None
    } else if power_negative {
        Some(decimal(negative, d, digits, -x - places))
    } else {
        Some(decimal(negative, d, digits, x - places))
    }
}

/// The number that `text` spells, where it spells one. A text of more than
/// `2^16` bytes is not read.
#[verifier::opaque]
pub open spec fn parsed(text: Seq<u8>) -> Option<Scalar> {
    let signed: bool = text.len() > 0 && (text[0] == 43 || text[0] == 45);
    let negative: bool = text.len() > 0 && text[0] == 45;
    let start: int = if signed { 1 } else { 0 };
    let whole_end: int = digit_run(text, start);
    let pointed: bool = whole_end < text.len() && text[whole_end] == 46;
    let fraction: int = if pointed { whole_end + 1 } else { whole_end };
    let mantissa_end: int = digit_run(text, fraction);
    let places: int = mantissa_end - fraction;
    let digits: int = (whole_end - start) + places;
    let d: nat = appended(text, fraction, mantissa_end, appended(text, start, whole_end, 0));
    if text.len() > TEXT_LIMIT {
        None
    } else if spells_infinity(text, start) {
        Some(Scalar::with_sign(INF_BITS as nat, negative))
    } else if spells_nan(text, start) {
        Some(Scalar { bits: NAN_BITS })
    } else if digits == 0 {
        None
    } else {
        powered(text, negative, d, digits as nat, places, mantissa_end)
    }
}

fn lower_case(b: u8) -> (r: u8)
    ensures
        r == lower(b),
{
    if 65 <= b && b <= 90 {
        b + 32
    } else {
        b
    }
}

/// `n`, and `limit` where `n` is `limit` or more.
pub open spec fn capped(n: nat, limit: nat) -> nat {
    if n < limit {
        n
    } else {
        limit
    }
}

/// Reads the run of digits that starts at `from`, behind an integer of
/// which `before` is what `limit` leaves. What is `limit` or more is given
/// as `limit`.
fn read_digits(
    text: &Vec<u8>,
    from: usize,
    before: u128,
    limit: u128,
    Ghost(before_all): Ghost<nat>,
) -> (r: (usize, u128))
    requires
        from <= text@.len(),
        limit <= DIGITS_LIMIT,
        before == capped(before_all, limit as nat),
    ensures
        r.0 == digit_run(text@, from as int),
        from <= r.0 <= text@.len(),
        r.1 == capped(appended(text@, from as int, r.0 as int, before_all), limit as nat),
{
    let mut i: usize = from;
    let mut acc: u128 = before;
    while i < text.len() && 48 <= text[i] && text[i] <= 57
        invariant
            from <= i <= text@.len(),
            limit <= DIGITS_LIMIT,
            digit_run(text@, from as int) == digit_run(text@, i as int),
            acc == capped(appended(text@, from as int, i as int, before_all), limit as nat),
        decreases text@.len() - i,
    {
        let digit: u128 = (text[i] - 48) as u128;
        let next: u128 = 10 * acc + digit;
        proof {
            assert(appended(text@, from as int, i + 1, before_all) == 10 * appended(
                text@,
                from as int,
                i as int,
                before_all,
            ) + digit);
        }
        acc = if next < limit { next } else { limit };
        i = i + 1;
    }
    (i, acc)
}

fn is_infinity(text: &Vec<u8>, from: usize) -> (r: bool)
    requires
        from <= text@.len(),
    ensures
        r == spells_infinity(text@, from as int),
{
    let n: usize = text.len() - from;
    if n == 3 {
        lower_case(text[from]) == 105 && lower_case(text[from + 1]) == 110 && lower_case(
            text[from + 2],
        ) == 102
    } else if n == 8 {
        lower_case(text[from]) == 105 && lower_case(text[from + 1]) == 110 && lower_case(
            text[from + 2],
        ) == 102 && lower_case(text[from + 3]) == 105 && lower_case(text[from + 4]) == 110
            && lower_case(text[from + 5]) == 105 && lower_case(text[from + 6]) == 116 && lower_case(
            text[from + 7],
        ) == 121
    } else {
        false
    }
}

fn is_nan_word(text: &Vec<u8>, from: usize) -> (r: bool)
    requires
        from <= text@.len(),
    ensures
        r == spells_nan(text@, from as int),
{
    text.len() - from == 3 && lower_case(text[from]) == 110 && lower_case(text[from + 1]) == 97
        && lower_case(text[from + 2]) == 110
}

/// Reads the run of digits that starts at `from` behind the whole number
/// that `before` stands for.
fn read_wide_digits(text: &Vec<u8>, from: usize, before: Vec<u32>) -> (r: (usize, Vec<u32>))
    requires
        from <= text@.len(),
    ensures
        r.0 == digit_run(text@, from as int),
        from <= r.0 <= text@.len(),
        wide(r.1@) == appended(text@, from as int, r.0 as int, wide(before@)),
        r.1@.len() <= before@.len() + (r.0 - from),
{
    let mut i: usize = from;
    let mut acc: Vec<u32> = before;
    while i < text.len() && 48 <= text[i] && text[i] <= 57
        invariant
            from <= i <= text@.len(),
            digit_run(text@, from as int) == digit_run(text@, i as int),
            wide(acc@) == appended(text@, from as int, i as int, wide(before@)),
            acc@.len() <= before@.len() + (i - from),
        decreases text@.len() - i,
    {
        let digit: u32 = (text[i] - 48) as u32;
        proof {
            assert(appended(text@, from as int, i + 1, wide(before@)) == 10 * appended(
                text@,
                from as int,
                i as int,
                wide(before@),
            ) + digit);
        }
        acc = times_small(&acc, 10, digit);
        i = i + 1;
    }
    (i, acc)
}

/// A power of ten is at most as many powers of sixteen.
proof fn lemma_ten_to_bound(k: nat)
    ensures
        1 <= ten_to(k) <= pow2(4 * k),
    decreases k,
{
    lemma2_to64();
    if k > 0 {
        lemma_ten_to_bound((k - 1) as nat);
        lemma_pow2_adds(4, 4 * (k - 1) as nat);
        assert(10 * ten_to((k - 1) as nat) <= 16 * pow2(4 * (k - 1) as nat)) by (nonlinear_arith)
            requires
                ten_to((k - 1) as nat) <= pow2(4 * (k - 1) as nat),
        ;
    }
}

/// The number nearest to `d * 10^e` for the whole number `d` that the
/// limbs stand for, of which `e` is given exactly, or else on the same
/// side beyond the powers of ten that count.
fn from_decimal(
    negative: bool,
    limbs: Vec<u32>,
    digits: usize,
    e: i64,
    Ghost(e_all): Ghost<int>,
) -> (r: Scalar)
    requires
        digits <= TEXT_LIMIT,
        limbs@.len() <= TEXT_LIMIT + 1,
        -2_000_000_000_000_000_000 <= e <= 2_000_000_000_000_000_000,
        e == e_all || (e > POWER_LIMIT && e_all > POWER_LIMIT) || (e + digits < -POWER_LIMIT && e_all
            + digits < -POWER_LIMIT),
    ensures
        r == decimal(negative, wide(limbs@), digits as nat, e_all),
{
    reveal(decimal);
    let ghost d: nat = wide(limbs@);
    if is_zero_wide(&limbs) {
        Scalar::signed(0, negative)
    } else if e > POWER_LIMIT {
        Scalar::signed(INF_BITS, negative)
    } else if e + (digits as i64) < -POWER_LIMIT {
        Scalar::signed(0, negative)
    } else if e >= 0 {
        let mut acc: Vec<u32> = limbs;
        let mut i: i64 = 0;
        proof {
            assert(ten_to(0) == 1);
            assert(d * 1 == d);
        }
        while i < e
            invariant
                0 <= i <= e <= POWER_LIMIT,
                d > 0,
                wide(acc@) == d * ten_to(i as nat),
                acc@.len() <= TEXT_LIMIT + 1 + i,
            decreases e - i,
        {
            proof {
                assert(d * ten_to((i + 1) as nat) == (d * ten_to(i as nat)) * 10) by (nonlinear_arith)
                    requires
                        ten_to((i + 1) as nat) == 10 * ten_to(i as nat),
                ;
            }
            acc = times_small(&acc, 10, 0);
            i = i + 1;
        }
        proof {
            lemma_ten_to_bound(e as nat);
            assert(d * ten_to(e as nat) > 0) by (nonlinear_arith)
                requires
                    d > 0,
                    ten_to(e as nat) >= 1,
            ;
        }
        round_wide(negative, &acc, 0, false)
    } else {
        let k: i64 = -e;
        let steps: i64 = 2 * (4 + (k + 7) / 8);
        let ghost s: nat = shift_for(e as int);
        assert(s == 16 * steps);
        let mut acc: Vec<u32> = limbs;
        let mut i: i64 = 0;
        proof {
            lemma2_to64();
            assert(d * 1 == d);
        }
        while i < steps
            invariant
                0 <= i <= steps <= 0x100_0000,
                d > 0,
                wide(acc@) == d * pow2((16 * i) as nat),
                acc@.len() <= TEXT_LIMIT + 1 + i,
            decreases steps - i,
        {
            proof {
                lemma2_to64();
                lemma_pow2_adds((16 * i) as nat, 16);
                assert(d * pow2((16 * (i + 1)) as nat) == (d * pow2((16 * i) as nat)) * 0x10000)
                    by (nonlinear_arith)
                    requires
                        pow2((16 * (i + 1)) as nat) == pow2((16 * i) as nat) * 0x10000,
                ;
            }
            acc = times_small(&acc, 0x10000, 0);
            i = i + 1;
        }
        let ghost x: nat = d * pow2(s);
        let mut sticky: bool = false;
        let mut j: i64 = 0;
        while j < k
            invariant
                0 <= j <= k,
                wide(acc@) == x / ten_to(j as nat),
                sticky == (x % ten_to(j as nat) != 0),
                acc@.len() <= TEXT_LIMIT + 1 + steps,
            decreases k - j,
        {
            let (quotient, left) = over_small(&acc, 10);
            proof {
                let p: nat = ten_to(j as nat);
                lemma_ten_to_bound(j as nat);
                assert(ten_to((j + 1) as nat) == 10 * p);
                lemma_fundamental_div_mod_converse(
                    wide(acc@) as int,
                    10,
                    wide(quotient@) as int,
                    left as int,
                );
                lemma_div_denominator(x as int, p as int, 10);
                lemma_breakdown(x as int, p as int, 10);
                assert(p * 10 == 10 * p);
                let digit: nat = (x / p) % 10;
                assert(digit == left);
                assert(x % (p * 10) == p * digit + x % p);
                assert(p * digit == 0 <==> digit == 0) by (nonlinear_arith)
                    requires
                        p >= 1,
                ;
            }
            acc = quotient;
            if left != 0 {
                sticky = true;
            }
            j = j + 1;
        }
        proof {
            // the quotient is not zero: the shift outweighs the power of ten
            let p: nat = ten_to(k as nat);
            lemma_ten_to_bound(k as nat);
            lemma_pow2_order_of(4 * k as nat, s);
            assert(x >= p) by (nonlinear_arith)
                requires
                    x == d * pow2(s),
                    d >= 1,
                    p <= pow2(s),
            ;
            lemma_div_non_zero(x as int, p as int);
        }
        round_wide(negative, &acc, -(16 * steps), sticky)
    }
}

/// A power of two with a larger exponent is at least as large.
proof fn lemma_pow2_order_of(a: nat, b: nat)
    requires
        a <= b,
    ensures
        pow2(a) <= pow2(b),
{
    if a < b {
        lemma_pow2_strictly_increases(a, b);
    }
}

/// Reads what follows the digits of a number, and gives the number.
fn read_power(
    text: &Vec<u8>,
    negative: bool,
    limbs: Vec<u32>,
    digits: usize,
    places: usize,
    mantissa_end: usize,
) -> (r: Option<Scalar>)
    requires
        text@.len() <= TEXT_LIMIT,
        mantissa_end <= text@.len(),
        places <= digits <= TEXT_LIMIT,
        limbs@.len() <= TEXT_LIMIT + 1,
    ensures
        r == powered(text@, negative, wide(limbs@), digits as nat, places as int, mantissa_end as int),
{
    reveal(powered);
    let n: usize = text.len();
    let has_power: bool = mantissa_end < n && lower_case(text[mantissa_end]) == 101;
    if !has_power {
        if mantissa_end == n {
            return Some(from_decimal(negative, limbs, digits, -(places as i64), Ghost(-(places as int))));
        } else {
            return None;
        }
    }
    let power_signed: bool = mantissa_end + 1 < n && (text[mantissa_end + 1] == 43 || text[mantissa_end
        + 1] == 45);
    let power_negative: bool = mantissa_end + 1 < n && text[mantissa_end + 1] == 45;
    let power: usize = if power_signed { mantissa_end + 2 } else { mantissa_end + 1 };
    let (power_end, x) = read_digits(text, power, 0, DIGITS_LIMIT, Ghost(0));
    let ghost x_all: nat = appended(text@, power as int, power_end as int, 0);
    if power_end == power || power_end != n {
        return None;
    }
    if power_negative {
        Some(from_decimal(negative, limbs, digits, -(x as i64) - (places as i64), Ghost(-x_all - places)))
    } else {
        Some(from_decimal(negative, limbs, digits, (x as i64) - (places as i64), Ghost(x_all - places)))
    }
}

impl Scalar {
    /// Reads a decimal number, of any number of digits and with any power
    /// of ten. There is none where the text is no number, and none where
    /// it is longer than `2^16` bytes.
    pub fn parse(text: &Vec<u8>) -> (r: Option<Scalar>)
        ensures
            r == parsed(text@),
    {
        reveal(parsed);
        let n: usize = text.len();
        if n > TEXT_LIMIT {
            return None;
        }
        let signed: bool = n > 0 && (text[0] == 43 || text[0] == 45);
        let negative: bool = n > 0 && text[0] == 45;
        let start: usize = if signed { 1 } else { 0 };
        if is_infinity(text, start) {
            return Some(Scalar::signed(INF_BITS, negative));
        }
        if is_nan_word(text, start) {
            return Some(Scalar::nan_value());
        }
        let none: Vec<u32> = Vec::new();
        assert(wide(none@) == 0);
        let (whole_end, whole) = read_wide_digits(text, start, none);
        let pointed: bool = whole_end < n && text[whole_end] == 46;
        let fraction: usize = if pointed { whole_end + 1 } else { whole_end };
        let (mantissa_end, limbs) = read_wide_digits(text, fraction, whole);
        let places: usize = mantissa_end - fraction;
        let digits: usize = (whole_end - start) + places;
        if digits == 0 {
            return None;
        }
        read_power(text, negative, limbs, digits, places, mantissa_end)
    }
}

/// A decimal number is read as the nearest number: where `d * 10^e`, not
/// zero and between `10^-400` and `10^400`, is read as a finite number, no
/// finite number is nearer to it than the one read. The magnitudes are
/// compared as integers, all times `2^1074`, and times `10^-e` where `e`
/// is negative.
pub proof fn lemma_decimal_is_nearest(negative: bool, d: nat, digits: nat, e: int, c: Scalar)
    requires
        d > 0,
        e <= POWER_LIMIT,
        e + digits >= -POWER_LIMIT,
        c.finite(),
        decimal(negative, d, digits, e).finite(),
    ensures
        e >= 0 ==> apart(decimal(negative, d, digits, e).weight(), d * ten_to(e as nat) * pow2(1074))
            <= apart(c.weight(), d * ten_to(e as nat) * pow2(1074)),
        e < 0 ==> apart(
            decimal(negative, d, digits, e).weight() * ten_to((-e) as nat),
            d * pow2(1074),
        ) <= apart(c.weight() * ten_to((-e) as nat), d * pow2(1074)),
{
    reveal(decimal);
    lemma2_to64();
    let r: Scalar = decimal(negative, d, digits, e);
    if e >= 0 {
        let p: nat = ten_to(e as nat);
        lemma_ten_to_bound(e as nat);
        let n: nat = d * p;
        assert(n > 0) by (nonlinear_arith)
            requires
                n == d * p,
                d > 0,
                p >= 1,
        ;
        lemma_rounded_wide_is_nearest(negative, n, 0, 0, 1, c);
        assert((n * 1 + 0) * pow2(1074) == d * p * pow2(1074)) by (nonlinear_arith)
            requires
                n == d * p,
        ;
        assert(1 * pow2(0) == 1);
        assert(r.weight() * 1 == r.weight());
        assert(c.weight() * 1 == c.weight());
    } else {
        let k: nat = (-e) as nat;
        let s: nat = shift_for(e);
        let x: nat = d * pow2(s);
        let p: nat = ten_to(k);
        lemma_ten_to_bound(k);
        let n: nat = x / p;
        let fnum: nat = x % p;
        lemma_fundamental_div_mod(x as int, p as int);
        assert(x == p * n + fnum);
        // the quotient has more than 128 bits
        assert(s >= 4 * k + 128);
        lemma_pow2_adds(4 * k, (s - 4 * k) as nat);
        lemma_pow2_order_of(128, (s - 4 * k) as nat);
        lemma_pow2_adds(64, 64);
        let rest: nat = pow2((s - 4 * k) as nat);
        assert(n >= 0x20_0000_0000_0000) by (nonlinear_arith)
            requires
                x == d * pow2(s),
                pow2(s) == pow2(4 * k) * rest,
                p <= pow2(4 * k),
                rest >= 0x1_0000_0000_0000_0000 * 0x1_0000_0000_0000_0000,
                d >= 1,
                p >= 1,
                x == p * n + fnum,
                fnum < p,
        ;
        lemma_rounded_wide_is_nearest(negative, n, -s, fnum, p, c);
        assert(n * p + fnum == x) by (nonlinear_arith)
            requires
                x == p * n + fnum,
        ;
        let target: nat = d * pow2(1074);
        if s >= 1074 {
            let g: nat = pow2((s - 1074) as nat);
            lemma_pow2_adds(1074, (s - 1074) as nat);
            lemma_pow2_pos((s - 1074) as nat);
            assert(x * pow2(0) == target * g) by (nonlinear_arith)
                requires
                    x == d * pow2(s),
                    pow2(s) == pow2(1074) * g,
                    target == d * pow2(1074),
                    pow2(0) == 1,
            ;
            lemma_nearer_at_any_scale(r.weight(), c.weight(), p, target, g);
        } else {
            lemma_pow2_adds(s, (1074 - s) as nat);
            assert(x * pow2((1074 - s) as nat) == target) by (nonlinear_arith)
                requires
                    x == d * pow2(s),
                    pow2(1074) == pow2(s) * pow2((1074 - s) as nat),
                    target == d * pow2(1074),
            ;
            assert(p * pow2(0) == p);
        }
    }
}

} // verus!
