//! The order of numbers that are held as bits, and what conversions keep of it.

use vstd::arithmetic::power2::*;
use vstd::prelude::*;

use crate::float_bits;

verus! {

/// The order of singles. Of two positive numbers the one with the lesser bits is less, of
/// two negative ones that with the greater bits, and a negative number is less than a
/// positive one unless both are zero. What is not a number is less than nothing, and
/// nothing is less than it.
pub proof fn lemma_single_order(a: u32, b: u32)
    ensures
        a <= 0x7F80_0000 && b <= 0x7F80_0000 ==> (float_bits::f32_lt(a, b) <==> a < b),
        0x8000_0000 <= a <= 0xFF80_0000 && 0x8000_0000 <= b <= 0xFF80_0000 ==> (float_bits::f32_lt(a, b) <==> b < a),
        0x8000_0000 <= a <= 0xFF80_0000 && b <= 0x7F80_0000 ==> (float_bits::f32_lt(a, b) <==> a != 0x8000_0000 || b
            != 0) && !float_bits::f32_lt(b, a),
        0x7F80_0000 < a < 0x8000_0000 || 0xFF80_0000 < a ==> float_bits::f32_is_nan(a) && !float_bits::f32_lt(a, b)
            && !float_bits::f32_lt(b, a),
        float_bits::f32_is_nan(a) ==> 0x7F80_0000 < a < 0x8000_0000 || 0xFF80_0000 < a,
{
}

/// The order of doubles, as that of singles; two numbers are equal where neither is less.
pub proof fn lemma_double_order(a: u64, b: u64)
    ensures
        a <= 0x7FF0_0000_0000_0000 && b <= 0x7FF0_0000_0000_0000 ==> (float_bits::f64_lt(a, b) <==> a < b),
        0x8000_0000_0000_0000 <= a <= 0xFFF0_0000_0000_0000 && 0x8000_0000_0000_0000 <= b <= 0xFFF0_0000_0000_0000
            ==> (float_bits::f64_lt(a, b) <==> b < a),
        0x8000_0000_0000_0000 <= a <= 0xFFF0_0000_0000_0000 && b <= 0x7FF0_0000_0000_0000 ==> (float_bits::f64_lt(a, b)
            <==> a != 0x8000_0000_0000_0000 || b != 0) && !float_bits::f64_lt(b, a),
        0x7FF0_0000_0000_0000 < a < 0x8000_0000_0000_0000 || 0xFFF0_0000_0000_0000 < a ==> float_bits::f64_is_nan(a)
            && !float_bits::f64_lt(a, b) && !float_bits::f64_lt(b, a) && !float_bits::f64_eq(a, b),
        float_bits::f64_is_nan(a) ==> 0x7FF0_0000_0000_0000 < a < 0x8000_0000_0000_0000 || 0xFFF0_0000_0000_0000 < a,
        !float_bits::f64_is_nan(a) && !float_bits::f64_is_nan(b) ==> (float_bits::f64_eq(a, b) <==> !float_bits::f64_lt(
            a,
            b,
        ) && !float_bits::f64_lt(b, a)),
        float_bits::f64_le(a, b) <==> float_bits::f64_lt(a, b) || float_bits::f64_eq(a, b),
{
}

proof fn lemma_widened_small(m: nat)
    requires
        0 < m < 0x80_0000,
    ensures
        float_bits::log2(m) <= 22,
        0x10_0000_0000_0000 <= m * pow2((52 - float_bits::log2(m)) as nat) < 0x20_0000_0000_0000,
        float_bits::widened(m) == (float_bits::log2(m) + 873) * 0x10_0000_0000_0000 + m * pow2(
            (52 - float_bits::log2(m)) as nat,
        ),
{
    let e = float_bits::log2(m);
    float_bits::lemma_log2_bounds(m);
    lemma2_to64();
    lemma2_to64_rest();
    if e > 22 {
        if e > 23 {
            lemma_pow2_strictly_increases(23, e);
        }
        assert(pow2(23) == 0x80_0000);
    }
    let s = pow2((52 - e) as nat);
    lemma_pow2_adds(e, (52 - e) as nat);
    lemma_pow2_adds(e + 1, (52 - e) as nat);
    lemma_pow2_pos((52 - e) as nat);
    assert(pow2(52) == 0x10_0000_0000_0000);
    assert(pow2(53) == 0x20_0000_0000_0000);
    assert(pow2(e) * s <= m * s) by (nonlinear_arith)
        requires
            pow2(e) <= m,
            s > 0,
    ;
    assert(m * s < pow2(e + 1) * s) by (nonlinear_arith)
        requires
            m < pow2(e + 1),
            s > 0,
    ;
}

proof fn lemma_log2_grows(m: nat, n: nat)
    requires
        0 < m <= n,
    ensures
        float_bits::log2(m) <= float_bits::log2(n),
{
    float_bits::lemma_log2_bounds(m);
    float_bits::lemma_log2_bounds(n);
    let a = float_bits::log2(m);
    let b = float_bits::log2(n);
    if b < a {
        if b + 1 < a {
            lemma_pow2_strictly_increases(b + 1, a);
        }
    }
}

proof fn lemma_widened_grows(m: nat, n: nat)
    requires
        m < n < 0x8000_0000,
    ensures
        float_bits::widened(m) < float_bits::widened(n),
        n <= 0x7F80_0000 ==> float_bits::widened(n) <= 0x7FF0_0000_0000_0000,
        n > 0x7F80_0000 ==> float_bits::widened(n) > 0x7FF0_0000_0000_0000,
        float_bits::widened(n) < 0x8000_0000_0000_0000,
{
    if 0 < n < 0x80_0000 {
        lemma_widened_small(n);
    }
    if 0 < m < 0x80_0000 {
        lemma_widened_small(m);
        if n < 0x80_0000 {
            lemma_log2_grows(m, n);
            let a = float_bits::log2(m);
            let b = float_bits::log2(n);
            if a == b {
                let s = pow2((52 - a) as nat);
                lemma_pow2_pos((52 - a) as nat);
                assert(m * s < n * s) by (nonlinear_arith)
                    requires
                        m < n,
                        s > 0,
                ;
            }
        }
    }
}

/// A single keeps its place when it becomes a double: it is less than another exactly where
/// the one double is less than the other, and what is not a number stays none.
pub proof fn lemma_widening_keeps_order(a: u32, b: u32)
    ensures
        float_bits::f32_lt(a, b) <==> float_bits::f64_lt(float_bits::f32_to_f64(a), float_bits::f32_to_f64(b)),
        float_bits::f32_is_nan(a) <==> float_bits::f64_is_nan(float_bits::f32_to_f64(a)),
{
    let m = float_bits::f32_magnitude(a) as nat;
    let n = float_bits::f32_magnitude(b) as nat;
    assert(float_bits::widened(0) == 0);
    if m > 0 {
        lemma_widened_grows(0, m);
    }
    if n > 0 {
        lemma_widened_grows(0, n);
    }
    if m < n {
        lemma_widened_grows(m, n);
    }
    if n < m {
        lemma_widened_grows(n, m);
    }
}

proof fn lemma_nat_double_bounds(m: nat)
    requires
        0 < m <= 0x8000_0000_0000_0000,
    ensures
        float_bits::log2(m) <= 63,
        0x10_0000_0000_0000 <= float_bits::rounded_significand(m) <= 0x20_0000_0000_0000,
{
    float_bits::lemma_log2_bounds(m);
    let e = float_bits::log2(m);
    lemma2_to64();
    lemma2_to64_rest();
    if e > 63 {
        lemma_pow2_strictly_increases(63, e);
    }
    if e <= 52 {
        let s = pow2((52 - e) as nat);
        lemma_pow2_adds(e, (52 - e) as nat);
        lemma_pow2_adds(e + 1, (52 - e) as nat);
        assert(pow2(52) == 0x10_0000_0000_0000 && pow2(53) == 0x20_0000_0000_0000);
        assert(pow2(e) * s <= m * s) by (nonlinear_arith)
            requires
                pow2(e) <= m,
        ;
        assert(m * s <= pow2(e + 1) * s) by (nonlinear_arith)
            requires
                m <= pow2(e + 1),
        ;
    } else {
        let u = pow2((e - 52) as nat);
        lemma_pow2_pos((e - 52) as nat);
        lemma_pow2_adds(52, (e - 52) as nat);
        lemma_pow2_adds(53, (e - 52) as nat);
        assert(52 + (e - 52) as nat == e);
        assert(53 + (e - 52) as nat == e + 1);
        assert(m / u >= 0x10_0000_0000_0000) by (nonlinear_arith)
            requires
                0x10_0000_0000_0000 * u <= m,
                u > 0,
        ;
        assert(m / u < 0x20_0000_0000_0000) by (nonlinear_arith)
            requires
                m < 0x20_0000_0000_0000 * u,
                u > 0,
        ;
    }
}

proof fn lemma_nat_double_grows(m: nat, n: nat)
    requires
        m <= n <= 0x8000_0000_0000_0000,
    ensures
        float_bits::nat_to_f64(m) <= float_bits::nat_to_f64(n),
        m < n <= 0x20_0000_0000_0000 ==> float_bits::nat_to_f64(m) < float_bits::nat_to_f64(n),
        float_bits::nat_to_f64(n) <= 0x7FF0_0000_0000_0000,
        n > 0 ==> float_bits::nat_to_f64(n) > 0,
{
    if n > 0 {
        lemma_nat_double_bounds(n);
    }
    if m > 0 {
        lemma_nat_double_bounds(m);
        lemma_log2_grows(m, n);
        float_bits::lemma_log2_bounds(m);
        float_bits::lemma_log2_bounds(n);
        lemma2_to64();
        lemma2_to64_rest();
        let a = float_bits::log2(m);
        let b = float_bits::log2(n);
        if a == b {
            if a <= 52 {
                let s = pow2((52 - a) as nat);
                lemma_pow2_pos((52 - a) as nat);
                assert(m * s <= n * s) by (nonlinear_arith)
                    requires
                        m <= n,
                ;
                if m < n {
                    assert(m * s < n * s) by (nonlinear_arith)
                        requires
                            m < n,
                            s > 0,
                    ;
                }
            } else {
                let u = pow2((a - 52) as nat);
                lemma_pow2_pos((a - 52) as nat);
                lemma_rounding_grows(m, n, u);
                if n <= 0x20_0000_0000_0000 && m < n {
                    if a > 53 {
                        lemma_pow2_strictly_increases(53, a);
                    }
                    assert(pow2(53) == 0x20_0000_0000_0000);
                }
            }
        } else if m < n <= 0x20_0000_0000_0000 {
            if a > 52 {
                if a > 53 {
                    lemma_pow2_strictly_increases(53, a);
                }
                assert(pow2(53) == 0x20_0000_0000_0000);
            }
            let s = pow2((52 - a) as nat);
            lemma_pow2_pos((52 - a) as nat);
            lemma_pow2_adds(a + 1, (52 - a) as nat);
            assert(m * s < pow2(a + 1) * s) by (nonlinear_arith)
                requires
                    m < pow2(a + 1),
                    s > 0,
            ;
            assert(pow2(53) == 0x20_0000_0000_0000);
        }
    }
}

proof fn lemma_rounding_grows(m: nat, n: nat, u: nat)
    requires
        m <= n,
        u > 0,
    ensures
        ({
            let up = |x: nat| 2 * (x % u) > u || (2 * (x % u) == u && (x / u) % 2 == 1);
            (m / u) + (if up(m) {
                1int
            } else {
                0int
            }) <= (n / u) + (if up(n) {
                1int
            } else {
                0int
            })
        }),
{
    vstd::arithmetic::div_mod::lemma_fundamental_div_mod(m as int, u as int);
    vstd::arithmetic::div_mod::lemma_fundamental_div_mod(n as int, u as int);
    vstd::arithmetic::div_mod::lemma_div_is_ordered(m as int, n as int, u as int);
}

/// An integer keeps its place when it becomes a double, as far as a double can tell: a lesser
/// one never becomes greater, different ones of at most fifty-three bits stay apart, and the
/// result is always a number.
pub proof fn lemma_integers_keep_order(x: i64, y: i64)
    ensures
        !float_bits::f64_is_nan(float_bits::int_to_f64(x)),
        x <= y ==> !float_bits::f64_lt(float_bits::int_to_f64(y), float_bits::int_to_f64(x)),
        -0x20_0000_0000_0000 <= x < y <= 0x20_0000_0000_0000 ==> float_bits::f64_lt(
            float_bits::int_to_f64(x),
            float_bits::int_to_f64(y),
        ),
{
    let m: nat = if x < 0 {
        (-x) as nat
    } else {
        x as nat
    };
    let n: nat = if y < 0 {
        (-y) as nat
    } else {
        y as nat
    };
    lemma_nat_double_grows(0, m);
    lemma_nat_double_grows(0, n);
    if m <= n {
        lemma_nat_double_grows(m, n);
    }
    if n <= m {
        lemma_nat_double_grows(n, m);
    }
}

} // verus!
