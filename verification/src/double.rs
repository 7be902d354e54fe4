//! Quotients of whole numbers in double precision, and how they are written.
//!
//! A number is a fraction whose lower part is a power of two. A quotient is the
//! nearest number whose upper part has 53 binary digits, and so is a hundredfold.
use crate::text::{decimal, push_decimal};
use vstd::prelude::*;

verus! {

/// The least number with 53 binary digits.
pub const LEAST: u64 = 4503599627370496;

/// Sixty binary digits begin here.
pub const SIXTY: u64 = 576460752303423488;

/// `num / den` rounded to a whole number, halves to the even one.
pub open spec fn rounded(num: nat, den: nat) -> nat {
    let q = num / den;
    let r = num % den;
    if 2 * r > den || (2 * r == den && q % 2 == 1) {
        q + 1
    } else {
        q
    }
}

/// `num / den` rounded to a whole number, halves to the even one.
pub fn round_even(num: u128, den: u128) -> (r: u128)
    requires
        0 < den < 0x1_0000_0000_0000_0000_0000_0000,
        num < 0x1_0000_0000_0000_0000_0000_0000,
    ensures
        r == rounded(num as nat, den as nat),
{
    let q = num / den;
    let rest = num % den;
    assert(q <= num) by (nonlinear_arith)
        requires
            q == num / den,
            den > 0,
    ;
    if 2 * rest > den || (2 * rest == den && q % 2 == 1) {
        q + 1
    } else {
        q
    }
}

/// The number nearest to `p / den`, over `d`: both are doubled until the
/// quotient has 53 binary digits.
pub open spec fn nearest(p: nat, den: nat, d: nat) -> (nat, nat)
    decreases (if p >= LEAST * den { 0 } else { LEAST * den - p }),
{
    if p == 0 || p >= LEAST * den {
        (rounded(p, den), d)
    } else {
        nearest(2 * p, den, 2 * d)
    }
}

/// `a / b` in double precision.
pub open spec fn quotient(a: nat, b: nat) -> (nat, nat) {
    nearest(a, b, 1)
}

proof fn lemma_rounded_bounds(p: nat, den: nat, lo: nat, hi: nat)
    requires
        den > 0,
        lo * den <= p < hi * den,
    ensures
        lo <= rounded(p, den) <= hi,
{
    let q = p / den;
    assert(lo <= q < hi) by (nonlinear_arith)
        requires
            q == p / den,
            den > 0,
            lo * den <= p < hi * den,
    ;
}

/// `a / b` in double precision.
pub fn divide(a: u32, b: u32) -> (r: (u64, u128))
    requires
        a > 0,
        b > 0,
    ensures
        (r.0 as nat, r.1 as nat) == quotient(a as nat, b as nat),
        LEAST <= r.0 <= 2 * LEAST,
        1048576 <= r.1 <= 0x20_0000_0000_0000_0000_0000,
{
    let den: u128 = b as u128;
    let goal: u128 = (LEAST as u128) * den;
    let mut p: u128 = a as u128;
    let mut d: u128 = 1;
    assert(goal <= LEAST * 0xFFFF_FFFF) by (nonlinear_arith)
        requires
            goal == LEAST * den,
            den <= 0xFFFF_FFFF,
    ;
    while p < goal
        invariant
            0 < a,
            0 < den == b,
            goal == LEAST * den,
            goal <= LEAST * 0xFFFF_FFFF,
            p == a * d,
            0 < p < 2 * goal,
            0 < d <= p,
            nearest(a as nat, b as nat, 1) == nearest(p as nat, b as nat, d as nat),
        decreases (if p >= goal { 0 } else { goal - p }),
    {
        assert(a * (2 * d) == 2 * (a * d)) by (nonlinear_arith);
        p = 2 * p;
        d = 2 * d;
    }
    proof {
        assert(p < (2 * LEAST) * den) by (nonlinear_arith)
            requires
                p < 2 * goal,
                goal == LEAST * den,
        ;
        lemma_rounded_bounds(p as nat, den as nat, LEAST as nat, (2 * LEAST) as nat);
        assert(d >= 1048576) by (nonlinear_arith)
            requires
                p == a * d,
                p >= LEAST,
                a <= 0xFFFF_FFFF,
        ;
    }
    let m = round_even(p, den);
    (m as u64, d)
}

/// A hundred times `x`, in double precision.
pub open spec fn hundredfold(x: (nat, nat)) -> (nat, nat) {
    let k: nat = if x.0 * 100 >= SIXTY {
        128
    } else {
        64
    };
    (rounded(x.0 * 100, k) * k, x.1)
}

/// What percentage `value` is of `total`, in double precision.
pub open spec fn percentage(value: nat, total: nat) -> (nat, nat) {
    if value == 0 || total == 0 {
        (0, 1)
    } else {
        hundredfold(quotient(value, total))
    }
}

/// What percentage `value` is of `total`, in double precision.
pub fn percent(value: u32, total: u32) -> (r: (u64, u128))
    ensures
        (r.0 as nat, r.1 as nat) == percentage(value as nat, total as nat),
        r.0 <= 1152921504606846976,
        0 < r.1 <= 0x20_0000_0000_0000_0000_0000,
{
    if value == 0 || total == 0 {
        return (0, 1);
    }
    let x = divide(value, total);
    let wide: u128 = (x.0 as u128) * 100;
    if wide >= SIXTY as u128 {
        let m = round_even(wide, 128);
        proof {
            lemma_rounded_bounds(wide as nat, 128, 0, (2 * LEAST) as nat);
        }
        ((m * 128) as u64, x.1)
    } else {
        let m = round_even(wide, 64);
        proof {
            lemma_rounded_bounds(wide as nat, 64, 0, (2 * LEAST) as nat);
        }
        ((m * 64) as u64, x.1)
    }
}

/// The whole part of a number.
pub open spec fn whole_part(x: (nat, nat)) -> nat {
    x.0 / x.1
}

/// The number without a fraction, as it is written.
pub open spec fn whole_text(x: (nat, nat)) -> Seq<char> {
    decimal(rounded(x.0, x.1))
}

/// The number with one digit behind the point, as it is written.
pub open spec fn tenths_text(x: (nat, nat)) -> Seq<char> {
    let t = rounded(10 * x.0, x.1);
    decimal(t / 10) + "."@ + decimal(t % 10)
}

/// Appends a number without a fraction.
pub fn push_whole(out: &mut String, m: u64, d: u128)
    requires
        0 < d < 0x1_0000_0000_0000_0000_0000_0000,
    ensures
        final(out)@ == old(out)@ + whole_text((m as nat, d as nat)),
{
    let t = round_even(m as u128, d);
    proof {
        lemma_rounded_le(m as nat, d as nat);
    }
    push_decimal(out, t as u64);
}

proof fn lemma_rounded_le(num: nat, den: nat)
    requires
        den > 0,
    ensures
        rounded(num, den) <= num,
{
    let q = num / den;
    let r = num % den;
    assert(num == q * den + r) by (nonlinear_arith)
        requires
            q == num / den,
            r == num % den,
            den > 0,
    ;
    assert(q <= num) by (nonlinear_arith)
        requires
            q == num / den,
            den > 0,
    ;
    if 2 * r > den || (2 * r == den && q % 2 == 1) {
        assert(q + 1 <= num) by (nonlinear_arith)
            requires
                num == q * den + r,
                den > 0,
                r > 0,
        ;
    }
}

/// Appends a number with one digit behind the point.
pub fn push_tenths(out: &mut String, m: u64, d: u128)
    requires
        0 < d < 0x1_0000_0000_0000_0000_0000_0000,
        m <= 1152921504606846976,
    ensures
        final(out)@ == old(out)@ + tenths_text((m as nat, d as nat)),
{
    let t = round_even((m as u128) * 10, d);
    proof {
        lemma_rounded_le((m * 10) as nat, d as nat);
    }
    let tenths: u64 = t as u64;
    push_decimal(out, tenths / 10);
    let ghost head = out@;
    out.append(".");
    push_decimal(out, tenths % 10);
    assert(out@ =~= old(out)@ + tenths_text((m as nat, d as nat)));
}

/// Rounding is to the nearest whole number: it is off by half at most, and of two that are as
/// near the even one is taken.
pub proof fn rounding_is_to_the_nearest(num: nat, den: nat)
    requires
        den > 0,
    ensures
        2 * (rounded(num, den) * den - num) <= den,
        2 * (num - rounded(num, den) * den) <= den,
        2 * (rounded(num, den) * den - num) == den || 2 * (num - rounded(num, den) * den) == den ==> rounded(num, den) % 2 == 0,
{
    let q = num / den;
    let r = num % den;
    assert(num == q * den + r && 0 <= r < den) by (nonlinear_arith)
        requires
            den > 0,
            q == num / den,
            r == num % den,
    ;
    assert((q + 1) * den == q * den + den) by (nonlinear_arith);
    if rounded(num, den) == q {
        assert(2 * (num - q * den) == 2 * r);
    }
}

/// A quotient is the nearest number with 53 binary digits: off by half of the last of them at
/// most.
pub proof fn a_quotient_is_the_nearest_number(a: nat, b: nat)
    requires
        b > 0,
    ensures
        ({
            let (m, d) = quotient(a, b);
            &&& d >= 1
            &&& 2 * (m * b - a * d) <= b
            &&& 2 * (a * d - m * b) <= b
            &&& a > 0 ==> m >= LEAST
            &&& a == 0 ==> m == 0
        }),
{
    lemma_nearest(a, a, b, 1);
}

proof fn lemma_nearest(a: nat, p: nat, b: nat, d: nat)
    requires
        b > 0,
        d >= 1,
        p == a * d,
    ensures
        ({
            let (m, e) = nearest(p, b, d);
            &&& e >= 1
            &&& 2 * (m * b - a * e) <= b
            &&& 2 * (a * e - m * b) <= b
            &&& p > 0 ==> m >= LEAST
            &&& p == 0 ==> m == 0
        }),
    decreases (if p >= LEAST * b { 0 } else { LEAST * b - p }),
{
    if p == 0 || p >= LEAST * b {
        rounding_is_to_the_nearest(p, b);
        if p > 0 {
            let m = rounded(p, b);
            assert(p / b >= LEAST) by (nonlinear_arith)
                requires
                    p >= LEAST * b,
                    b > 0,
            ;
        } else {
            assert(0nat / b == 0 && 0nat % b == 0) by (nonlinear_arith)
                requires
                    b > 0,
            ;
        }
    } else {
        assert(2 * p == a * (2 * d)) by (nonlinear_arith)
            requires
                p == a * d,
        ;
        lemma_nearest(a, 2 * p, b, 2 * d);
    }
}

/// A percentage is a hundred times the quotient, up to its last binary digits.
pub proof fn a_percentage_is_a_hundredfold(value: nat, total: nat)
    requires
        value > 0,
        total > 0,
    ensures
        ({
            let (m, d) = percentage(value, total);
            &&& d >= 1
            &&& m * total - 100 * value * d <= 114 * total
            &&& 100 * value * d - m * total <= 114 * total
        }),
        percentage(0, total) == (0nat, 1nat),
        percentage(value, 0) == (0nat, 1nat),
{
    let (q, d) = quotient(value, total);
    a_quotient_is_the_nearest_number(value, total);
    let k: nat = if q * 100 >= SIXTY {
        128
    } else {
        64
    };
    rounding_is_to_the_nearest(q * 100, k);
    let m = rounded(q * 100, k) * k;
    assert(percentage(value, total) == (m, d));
    assert(m - 100 * q <= 64 && 100 * q - m <= 64);
    assert(m * total - 100 * value * d == (m - 100 * q) * total + 100 * (q * total - value * d)) by (nonlinear_arith);
    assert((m - 100 * q) * total <= 64 * total && (100 * q - m) * total <= 64 * total) by (nonlinear_arith)
        requires
            m - 100 * q <= 64,
            100 * q - m <= 64,
            total > 0,
    ;
    assert((100 * q - m) * total == -((m - 100 * q) * total)) by (nonlinear_arith);
}

} // verus!
