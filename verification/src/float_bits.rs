//! IEEE 754 numbers as bit patterns.
//!
//! The library holds a double as the `u64` of its bits and a single as the `u32`
//! of its bits. Order and equality of such numbers, and the two conversions that
//! the query rules need, are functions on those integers.

use vstd::prelude::*;
use vstd::arithmetic::power2::*;

verus! {

/// The sign bit of a double.
pub const F64_SIGN: u64 = 0x8000_0000_0000_0000;

/// The bits of positive infinity as a double.
pub const F64_INFINITY: u64 = 0x7FF0_0000_0000_0000;

/// The bits of `1.0` as a double.
pub const F64_ONE: u64 = 0x3FF0_0000_0000_0000;

/// The sign bit of a single.
pub const F32_SIGN: u32 = 0x8000_0000;

/// The bits of positive infinity as a single.
pub const F32_INFINITY: u32 = 0x7F80_0000;

/// The bits of `1.0` as a single.
pub const F32_ONE: u32 = 0x3F80_0000;

/// The bits of `0.5` as a single.
pub const F32_HALF: u32 = 0x3F00_0000;

/// The bits of a double without its sign.
pub open spec fn f64_magnitude(b: u64) -> int {
    if b >= F64_SIGN {
        b - F64_SIGN
    } else {
        b as int
    }
}

/// Whether the double is not a number.
pub open spec fn f64_is_nan(b: u64) -> bool {
    f64_magnitude(b) > F64_INFINITY
}

/// An integer that orders doubles as their values do; both zeros are 0.
pub open spec fn f64_key(b: u64) -> int {
    if b >= F64_SIGN {
        -f64_magnitude(b)
    } else {
        f64_magnitude(b)
    }
}

/// `a < b` on doubles: false where either is not a number.
pub open spec fn f64_lt(a: u64, b: u64) -> bool {
    !f64_is_nan(a) && !f64_is_nan(b) && f64_key(a) < f64_key(b)
}

/// `a == b` on doubles: false where either is not a number, true of the two zeros.
pub open spec fn f64_eq(a: u64, b: u64) -> bool {
    !f64_is_nan(a) && !f64_is_nan(b) && f64_key(a) == f64_key(b)
}

/// `a <= b` on doubles.
pub open spec fn f64_le(a: u64, b: u64) -> bool {
    f64_lt(a, b) || f64_eq(a, b)
}

/// The bits of a single without its sign.
pub open spec fn f32_magnitude(b: u32) -> int {
    if b >= F32_SIGN {
        b - F32_SIGN
    } else {
        b as int
    }
}

/// Whether the single is not a number.
pub open spec fn f32_is_nan(b: u32) -> bool {
    f32_magnitude(b) > F32_INFINITY
}

/// An integer that orders singles as their values do; both zeros are 0.
pub open spec fn f32_key(b: u32) -> int {
    if b >= F32_SIGN {
        -f32_magnitude(b)
    } else {
        f32_magnitude(b)
    }
}

/// `a < b` on singles: false where either is not a number.
pub open spec fn f32_lt(a: u32, b: u32) -> bool {
    !f32_is_nan(a) && !f32_is_nan(b) && f32_key(a) < f32_key(b)
}

/// Whether the double `b` is not a number.
pub fn double_is_nan(b: u64) -> (r: bool)
    ensures
        r == f64_is_nan(b),
{
    if b >= F64_SIGN {
        b - F64_SIGN > F64_INFINITY
    } else {
        b > F64_INFINITY
    }
}

/// `a < b` on doubles.
pub fn double_less(a: u64, b: u64) -> (r: bool)
    ensures
        r == f64_lt(a, b),
{
    if double_is_nan(a) || double_is_nan(b) {
        false
    } else if a >= F64_SIGN && b >= F64_SIGN {
        a > b
    } else if a >= F64_SIGN {
        a - F64_SIGN > 0 || b > 0
    } else if b >= F64_SIGN {
        false
    } else {
        a < b
    }
}

/// `a == b` on doubles.
pub fn double_equal(a: u64, b: u64) -> (r: bool)
    ensures
        r == f64_eq(a, b),
{
    if double_is_nan(a) || double_is_nan(b) {
        false
    } else if a >= F64_SIGN && b < F64_SIGN {
        a == F64_SIGN && b == 0
    } else if a < F64_SIGN && b >= F64_SIGN {
        a == 0 && b == F64_SIGN
    } else {
        a == b
    }
}

/// Whether the single `b` is not a number.
pub fn single_is_nan(b: u32) -> (r: bool)
    ensures
        r == f32_is_nan(b),
{
    if b >= F32_SIGN {
        b - F32_SIGN > F32_INFINITY
    } else {
        b > F32_INFINITY
    }
}

/// `a < b` on singles.
pub fn single_less(a: u32, b: u32) -> (r: bool)
    ensures
        r == f32_lt(a, b),
{
    if single_is_nan(a) || single_is_nan(b) {
        false
    } else if a >= F32_SIGN && b >= F32_SIGN {
        a > b
    } else if a >= F32_SIGN {
        a - F32_SIGN > 0 || b > 0
    } else if b >= F32_SIGN {
        false
    } else {
        a < b
    }
}

/// The exponent of the leading one bit of `m`.
pub open spec fn log2(m: nat) -> nat
    decreases m,
{
    if m <= 1 {
        0
    } else {
        1 + log2(m / 2)
    }
}

/// The leading one bit of a positive number is where `log2` says.
pub proof fn lemma_log2_bounds(m: nat)
    requires
        m > 0,
    ensures
        pow2(log2(m)) <= m < pow2(log2(m) + 1),
    decreases m,
{
    lemma2_to64();
    if m > 1 {
        lemma_log2_bounds(m / 2);
        lemma_pow2_unfold(log2(m));
        lemma_pow2_unfold(log2(m) + 1);
        assert(log2(m) == 1 + log2(m / 2));
        assert((log2(m) - 1) as nat == log2(m / 2));
        assert((log2(m) + 1 - 1) as nat == log2(m / 2) + 1);
    }
}

/// The mantissa field, before the carry of rounding, of the double nearest to a
/// positive integer: its 53 leading bits, to nearest, ties to even.
pub open spec fn rounded_significand(m: nat) -> nat {
    let e = log2(m);
    if e <= 52 {
        m * pow2((52 - e) as nat)
    } else {
        let unit = pow2((e - 52) as nat);
        let q = m / unit;
        let r = m % unit;
        if 2 * r > unit || (2 * r == unit && q % 2 == 1) {
            q + 1
        } else {
            q
        }
    }
}

/// The bits of the double nearest to a natural number.
pub open spec fn nat_to_f64(m: nat) -> nat {
    if m == 0 {
        0
    } else {
        (log2(m) + 1022) * 0x10_0000_0000_0000 + rounded_significand(m)
    }
}

/// The bits of the double nearest to an integer, ties to even.
pub open spec fn int_to_f64(n: i64) -> u64 {
    if n < 0 {
        (F64_SIGN + nat_to_f64((-n) as nat)) as u64
    } else {
        nat_to_f64(n as nat) as u64
    }
}

fn power_of_two(n: u64) -> (p: u64)
    requires
        n < 64,
    ensures
        p == pow2(n as nat),
    decreases n,
{
    proof {
        lemma2_to64();
    }
    if n == 0 {
        1
    } else {
        let h = power_of_two(n - 1);
        proof {
            lemma_pow2_unfold(n as nat);
            lemma2_to64_rest();
            if n < 63 {
                lemma_pow2_strictly_increases(n as nat, 63);
            }
        }
        2 * h
    }
}

proof fn lemma_log2_of_u63(m: nat)
    requires
        0 < m <= 0x8000_0000_0000_0000,
    ensures
        log2(m) <= 63,
{
    lemma_log2_bounds(m);
    lemma2_to64();
    lemma2_to64_rest();
    if log2(m) > 63 {
        lemma_pow2_strictly_increases(63, log2(m));
    }
}

proof fn lemma_significand_bounds(m: nat)
    requires
        0 < m <= 0x8000_0000_0000_0000,
    ensures
        0x10_0000_0000_0000 <= rounded_significand(m) <= 0x20_0000_0000_0000,
{
    lemma_log2_bounds(m);
    lemma_log2_of_u63(m);
    let e = log2(m);
    lemma2_to64();
    lemma2_to64_rest();
    if e <= 52 {
        let s = pow2((52 - e) as nat);
        lemma_pow2_adds(e, (52 - e) as nat);
        lemma_pow2_adds(e + 1, (52 - e) as nat);
        assert(pow2(e) * s <= m * s) by (nonlinear_arith)
            requires
                pow2(e) <= m,
        ;
        assert(m * s <= pow2(e + 1) * s) by (nonlinear_arith)
            requires
                m <= pow2(e + 1),
        ;
        assert(e + (52 - e) as nat == 52);
        assert(e + 1 + (52 - e) as nat == 53);
        assert(pow2(52) == 0x10_0000_0000_0000);
        assert(pow2(53) == 0x20_0000_0000_0000);
    } else {
        let u = pow2((e - 52) as nat);
        lemma_pow2_pos((e - 52) as nat);
        lemma_pow2_adds(52, (e - 52) as nat);
        lemma_pow2_adds(53, (e - 52) as nat);
        assert(52 + (e - 52) as nat == e);
        assert(53 + (e - 52) as nat == e + 1);
        assert(0x10_0000_0000_0000 * u <= m);
        assert(m < 0x20_0000_0000_0000 * u);
        assert(m / u >= 0x10_0000_0000_0000) by (nonlinear_arith)
            requires
                0x10_0000_0000_0000 * u <= m,
                u > 0,
        ;
        assert(m / u < 0x20_0000_0000_0000) by (nonlinear_arith)
            requires
                m < 0x20_0000_0000_0000 * u,
                u > 0,
        ;
    }
}

fn magnitude_to_double(m: u64) -> (b: u64)
    requires
        m <= 0x8000_0000_0000_0000,
    ensures
        b == nat_to_f64(m as nat),
        b < F64_INFINITY,
{
    if m == 0 {
        return 0;
    }
    let mut e: u64 = 0;
    let mut t: u64 = m;
    proof {
        lemma_log2_of_u63(m as nat);
    }
    while t > 1
        invariant
            t > 0,
            log2(m as nat) == e + log2(t as nat),
            log2(m as nat) <= 63,
        decreases t,
    {
        t = t / 2;
        e += 1;
    }
    proof {
        assert(e == log2(m as nat));
        lemma_significand_bounds(m as nat);
        lemma_log2_bounds(m as nat);
        lemma2_to64();
        lemma2_to64_rest();
    }
    let s: u64 = if e <= 52 {
        m * power_of_two(52 - e)
    } else {
        let unit = power_of_two(e - 52);
        proof {
            lemma_pow2_pos((e - 52) as nat);
        }
        let q = m / unit;
        let r = m % unit;
        proof {
            if e - 52 < 62 {
                lemma_pow2_strictly_increases((e - 52) as nat, 62);
            }
        }
        if r > unit - r || (r == unit - r && q % 2 == 1) {
            q + 1
        } else {
            q
        }
    };
    assert(s == rounded_significand(m as nat));
    (e + 1022) * 0x10_0000_0000_0000 + s
}

/// The double nearest to an integer.
pub fn double_of_int(n: i64) -> (b: u64)
    ensures
        b == int_to_f64(n),
        !f64_is_nan(b),
{
    if n >= 0 {
        magnitude_to_double(n as u64)
    } else {
        let m: u64 = if n == i64::MIN {
            0x8000_0000_0000_0000
        } else {
            (-n) as u64
        };
        F64_SIGN + magnitude_to_double(m)
    }
}

/// The bits of the double that equals the single with the given magnitude:
/// infinity stays infinity, a subnormal single is a normal double, and zero is zero.
pub open spec fn widened(m: nat) -> nat {
    if m >= F32_INFINITY {
        (F64_INFINITY + (m - F32_INFINITY) * 0x2000_0000) as nat
    } else if m >= 0x80_0000 {
        (m * 0x2000_0000 + 896 * 0x10_0000_0000_0000) as nat
    } else if m == 0 {
        0
    } else {
        let e = log2(m);
        ((e + 873) * 0x10_0000_0000_0000 + m * pow2((52 - e) as nat)) as nat
    }
}

/// The bits of the double that equals a single. What is not a number stays so.
pub open spec fn f32_to_f64(b: u32) -> u64 {
    if b >= F32_SIGN {
        (F64_SIGN + widened((b - F32_SIGN) as nat)) as u64
    } else {
        widened(b as nat) as u64
    }
}

fn widen_magnitude(m: u32) -> (b: u64)
    requires
        m < F32_SIGN,
    ensures
        b == widened(m as nat),
        b < F64_SIGN,
{
    if m >= F32_INFINITY {
        F64_INFINITY + (m - F32_INFINITY) as u64 * 0x2000_0000
    } else if m >= 0x80_0000 {
        m as u64 * 0x2000_0000 + 896 * 0x10_0000_0000_0000
    } else if m == 0 {
        0
    } else {
        let mut e: u64 = 0;
        let mut t: u32 = m;
        proof {
            lemma_log2_bounds(m as nat);
            lemma2_to64();
            if log2(m as nat) > 22 {
                lemma_pow2_strictly_increases(22, log2(m as nat));
                if log2(m as nat) > 23 {
                    lemma_pow2_strictly_increases(23, log2(m as nat));
                }
            }
        }
        while t > 1
            invariant
                t > 0,
                log2(m as nat) == e + log2(t as nat),
                log2(m as nat) <= 22,
            decreases t,
        {
            t = t / 2;
            e += 1;
        }
        proof {
            lemma_significand_bounds(m as nat);
            lemma2_to64();
            lemma2_to64_rest();
        }
        let s: u64 = m as u64 * power_of_two(52 - e);
        (e + 873) * 0x10_0000_0000_0000 + s
    }
}

/// The double that equals a single.
pub fn double_of_single(b: u32) -> (r: u64)
    ensures
        r == f32_to_f64(b),
{
    if b >= F32_SIGN {
        F64_SIGN + widen_magnitude(b - F32_SIGN)
    } else {
        widen_magnitude(b)
    }
}

} // verus!
