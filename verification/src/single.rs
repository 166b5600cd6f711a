//! Single-precision binary floating-point arithmetic on the non-negative values that colour
//! blending computes with, carried out exactly in integers.
//!
//! A value `x` is held as the integer `x * 2^47` (its "fixed" form). Every value that the
//! blend computes is either 0 or at least `2^-24`, so it is a whole number in this form, and
//! rounding to 24 significant bits, ties to even, is what single precision does to it.
use vstd::prelude::*;

verus! {

/// `1.0` in fixed form.
pub open spec fn fix_one() -> int {
    0x8000_0000_0000
}

/// `2^k`.
pub open spec fn two_to(k: nat) -> int
    decreases k,
{
    if k == 0 {
        1
    } else {
        2 * two_to((k - 1) as nat)
    }
}

/// `2^k` is positive.
pub proof fn lemma_two_to_pos(k: nat)
    ensures
        two_to(k) >= 1,
    decreases k,
{
    if k > 0 {
        lemma_two_to_pos((k - 1) as nat);
    }
}

/// The exponent, counted from `k`, at which `p / q` has 24 significant bits: the least
/// `e >= k` with `p < q * 2^e * 2^24`.
pub open spec fn sig_exp(p: int, q: int, k: nat) -> nat
    decreases p - q * two_to(k),
{
    if q <= 0 || p < q * two_to(k) * 0x100_0000 {
        k
    } else {
        proof {
            lemma_two_to_pos(k);
            assert(q * two_to(k + 1) == 2 * (q * two_to(k))) by (nonlinear_arith)
                requires
                    two_to(k + 1) == 2 * two_to(k),
            ;
            assert(q * two_to(k) >= 1) by (nonlinear_arith)
                requires
                    q >= 1,
                    two_to(k) >= 1,
            ;
        }
        sig_exp(p, q, k + 1)
    }
}

/// `p / q` rounded to 24 significant bits, ties to the even neighbour.
pub open spec fn round_sig(p: int, q: int) -> int {
    let k = sig_exp(p, q, 0);
    let unit = q * two_to(k);
    let m0 = p / unit;
    let rem = p % unit;
    let m = if rem > unit - rem || (rem == unit - rem && m0 % 2 == 1) {
        m0 + 1
    } else {
        m0
    };
    m * two_to(k)
}

/// Single-precision `a + b`.
pub open spec fn fl_add(a: int, b: int) -> int {
    round_sig(a + b, 1)
}

/// Single-precision `a - b` (never below zero: the blend only subtracts smaller values).
pub open spec fn fl_sub(a: int, b: int) -> int {
    if a >= b {
        round_sig(a - b, 1)
    } else {
        0
    }
}

/// Single-precision `a * b`.
pub open spec fn fl_mul(a: int, b: int) -> int {
    round_sig(a * b, fix_one())
}

/// Single-precision `a / b`.
pub open spec fn fl_div(a: int, b: int) -> int {
    round_sig(a * fix_one(), b)
}

/// A small whole number as a value.
pub open spec fn fl_int(n: int) -> int {
    n * fix_one()
}

/// A value rounded to the nearest whole number (halves away from zero), saturated at 255.
pub open spec fn fl_to_u8(a: int) -> u8 {
    let n = (a + fix_one() / 2) / fix_one();
    if n > 255 {
        255
    } else {
        n as u8
    }
}

proof fn lemma_sig_exp_step(p: int, q: int, k: nat)
    requires
        q >= 1,
        !(p < q * two_to(k) * 0x100_0000),
    ensures
        sig_exp(p, q, k) == sig_exp(p, q, k + 1),
{
}

/// The exponent that `sig_exp` finds from `j` on puts `p / q` below `2^24` units and, unless
/// it is 0, at or above `2^23` units.
proof fn lemma_sig_exp_bounds(p: int, q: int, j: nat)
    requires
        q >= 1,
        p >= 0,
        j == 0 || p >= q * two_to((j - 1) as nat) * 0x100_0000,
    ensures
        p < q * two_to(sig_exp(p, q, j)) * 0x100_0000,
        sig_exp(p, q, j) == 0 || p >= q * two_to((sig_exp(p, q, j) - 1) as nat) * 0x100_0000,
    decreases p - q * two_to(j),
{
    if !(p < q * two_to(j) * 0x100_0000) {
        lemma_two_to_pos(j);
        assert(q * two_to(j + 1) == 2 * (q * two_to(j))) by (nonlinear_arith)
            requires
                two_to(j + 1) == 2 * two_to(j),
        ;
        assert(q * two_to(j) >= 1) by (nonlinear_arith)
            requires
                q >= 1,
                two_to(j) >= 1,
        ;
        lemma_sig_exp_bounds(p, q, j + 1);
    }
}

/// Rounding `p / q` to 24 significant bits is off by less than one unit in the last place:
/// `round_sig(p, q) * q` lies within `q + p / 2^23` of `p`.
pub proof fn lemma_round_sig_bounds(p: int, q: int)
    requires
        q >= 1,
        p >= 0,
    ensures
        round_sig(p, q) >= 0,
        0x80_0000 * (round_sig(p, q) * q) >= 0x80_0000 * (p - q) - p,
        0x80_0000 * (round_sig(p, q) * q) <= 0x80_0000 * (p + q) + p,
{
    let k = sig_exp(p, q, 0);
    lemma_sig_exp_bounds(p, q, 0);
    lemma_two_to_pos(k);
    let t = two_to(k);
    let unit = q * t;
    assert(unit >= 1) by (nonlinear_arith)
        requires
            q >= 1,
            t >= 1,
            unit == q * t,
    ;
    let m0 = p / unit;
    let rem = p % unit;
    vstd::arithmetic::div_mod::lemma_fundamental_div_mod(p, unit);
    let m = if rem > unit - rem || (rem == unit - rem && m0 % 2 == 1) {
        m0 + 1
    } else {
        m0
    };
    assert(round_sig(p, q) == m * t);
    assert(0x80_0000 * unit <= 0x80_0000 * q + p) by {
        if k > 0 {
            assert(t == 2 * two_to((k - 1) as nat));
            assert(0x80_0000 * unit <= p) by (nonlinear_arith)
                requires
                    unit == q * t,
                    t == 2 * two_to((k - 1) as nat),
                    p >= q * two_to((k - 1) as nat) * 0x100_0000,
            ;
        }
    }
    assert(m0 >= 0) by (nonlinear_arith)
        requires
            p >= 0,
            unit >= 1,
            m0 == p / unit,
    ;
    assert(m * t * q == m * unit && m * t >= 0) by (nonlinear_arith)
        requires
            unit == q * t,
            m >= 0,
            t >= 1,
    ;
    assert(m * unit >= m0 * unit && m * unit <= m0 * unit + unit) by (nonlinear_arith)
        requires
            m0 <= m <= m0 + 1,
            unit >= 1,
    ;
}

/// Rounds `p / q` to 24 significant bits, ties to even.
pub fn round_sig_exec(p: u128, q: u128) -> (r: u128)
    requires
        1 <= q,
        p < 0x4000_0000_0000_0000_0000_0000_0000_0000,
    ensures
        r == round_sig(p as int, q as int),
        r * q <= 2 * p + q,
{
    let hi: u128 = p / 0x100_0000;
    let ghost mut k: nat = 0;
    let mut unit: u128 = q;
    let mut scale: u128 = 1;
    while hi >= unit
        invariant
            1 <= q,
            hi == p / 0x100_0000,
            p < 0x4000_0000_0000_0000_0000_0000_0000_0000,
            scale == two_to(k),
            unit == q * scale,
            1 <= scale <= unit,
            sig_exp(p as int, q as int, k) == sig_exp(p as int, q as int, 0),
            k > 0 ==> unit <= 2 * hi,
        decreases p + 1 - unit,
    {
        proof {
            assert(!(p < q * two_to(k) * 0x100_0000));
            lemma_sig_exp_step(p as int, q as int, k);
        }
        assert(unit * 2 == q * (scale * 2)) by (nonlinear_arith)
            requires
                unit == q * scale,
        ;
        unit = unit * 2;
        scale = scale * 2;
        proof {
            k = k + 1;
        }
    }
    assert(sig_exp(p as int, q as int, k) == k);
    let m0: u128 = p / unit;
    let rem: u128 = p % unit;
    assert(m0 <= 0x100_0000) by (nonlinear_arith)
        requires
            m0 == p / unit,
            unit >= 1,
            hi < unit,
            hi == p / 0x100_0000,
    ;
    let m: u128 = if rem > unit - rem || (rem == unit - rem && m0 % 2 == 1) {
        m0 + 1
    } else {
        m0
    };
    assert(m * scale <= 0x100_0001 * scale) by (nonlinear_arith)
        requires
            m <= 0x100_0001,
    ;
    assert(scale <= 0x80_0000_0000_0000_0000_0000_0000) by (nonlinear_arith)
        requires
            scale <= unit,
            k > 0 ==> unit <= 2 * hi,
            k == 0 ==> scale == 1,
            hi == p / 0x100_0000,
            p < 0x4000_0000_0000_0000_0000_0000_0000_0000,
    ;
    let r = m * scale;
    assert(r * q <= 2 * p + q) by (nonlinear_arith)
        requires
            r == m * scale,
            unit == q * scale,
            m <= m0 + 1,
            m0 == p / unit,
            unit >= 1,
            k == 0 ==> unit == q,
            k > 0 ==> unit <= 2 * hi,
            hi == p / 0x100_0000,
    ;
    r
}

/// Single-precision `a + b`.
pub fn fl_add_exec(a: u128, b: u128) -> (r: u128)
    requires
        a + b < 0x4000_0000_0000_0000_0000_0000_0000_0000,
    ensures
        r == fl_add(a as int, b as int),
        r <= 2 * (a + b) + 1,
{
    round_sig_exec(a + b, 1)
}

/// Single-precision `a - b`, or 0 when `b > a`.
pub fn fl_sub_exec(a: u128, b: u128) -> (r: u128)
    requires
        a < 0x4000_0000_0000_0000_0000_0000_0000_0000,
    ensures
        r == fl_sub(a as int, b as int),
        r <= 2 * a + 1,
{
    if a >= b {
        round_sig_exec(a - b, 1)
    } else {
        0
    }
}

/// Single-precision `a * b`.
pub fn fl_mul_exec(a: u128, b: u128) -> (r: u128)
    requires
        a * b < 0x4000_0000_0000_0000_0000_0000_0000_0000,
    ensures
        r == fl_mul(a as int, b as int),
        r * fix_one() <= 2 * (a * b) + fix_one(),
{
    round_sig_exec(a * b, 0x8000_0000_0000)
}

/// Single-precision `a / b`.
pub fn fl_div_exec(a: u128, b: u128) -> (r: u128)
    requires
        1 <= b,
        a * fix_one() < 0x4000_0000_0000_0000_0000_0000_0000_0000,
    ensures
        r == fl_div(a as int, b as int),
        r * b <= 2 * a * fix_one() + b,
{
    let r = round_sig_exec(a * 0x8000_0000_0000, b);
    assert(2 * (a * fix_one()) == 2 * a * fix_one()) by (nonlinear_arith);
    r
}

/// A value rounded to the nearest whole number, saturated at 255.
pub fn fl_to_u8_exec(a: u128) -> (r: u8)
    requires
        a < 0x4000_0000_0000_0000_0000_0000_0000_0000,
    ensures
        r == fl_to_u8(a as int),
{
    let n = (a + 0x4000_0000_0000) / 0x8000_0000_0000;
    if n > 255 {
        255
    } else {
        n as u8
    }
}

} // verus!
