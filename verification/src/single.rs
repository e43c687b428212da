//! Single-precision arithmetic on whole numbers.

use crate::binary;
use vstd::arithmetic::power2::*;
use vstd::prelude::*;

verus! {

/// The single-precision value nearest to an integer. It is an integer again.
pub open spec fn rounded(n: int) -> int {
    binary::integer(24, n).round()
}

/// The powers of two that the bounds below need.
pub proof fn lemma_powers()
    ensures
        pow2(8) == 0x100,
        pow2(16) == 0x1_0000,
        pow2(23) == 0x80_0000,
        pow2(24) == 0x100_0000,
        pow2(33) == 0x2_0000_0000,
{
    lemma2_to64();
    lemma2_to64_rest();
}

/// The mantissa and exponent of a small integer in single precision.
pub proof fn lemma_range(n: int)
    requires
        -0x1_0000_0000 <= n <= 0x1_0000_0000,
    ensures
        -0x100_0000 <= binary::integer(24, n).m <= 0x100_0000,
        -23 <= binary::integer(24, n).e <= 9,
        n != 0 ==> binary::abs(binary::integer(24, n).m) >= 0x80_0000,
        n < 0 <==> binary::integer(24, n).m < 0,
        n == 0 <==> binary::integer(24, n).m == 0,
{
    lemma_powers();
    lemma2_to64();
    if n != 0 {
        binary::lemma_nearest_mantissa(24, n, 1);
        binary::lemma_scale_integer(24, binary::abs(n), 0, 33);
    }
}

/// Single precision moves an integer of 32 bits by at most 256.
pub proof fn lemma_error(n: int)
    requires
        -0x1_0000_0000 <= n <= 0x1_0000_0000,
    ensures
        n - 256 <= rounded(n) <= n + 256,
{
    lemma_powers();
    lemma_range(n);
    if n == 0 {
        binary::lemma_round_sign(binary::integer(24, 0));
    } else {
        let v = binary::abs(n);
        let z = binary::integer(24, v as int);
        lemma_range(v as int);
        assert(rounded(n) == if n < 0 {
            -z.round()
        } else {
            z.round()
        });
        let s = pow2(30) as int;
        lemma_pow2_pos(30);
        binary::lemma_integer_error(24, v, -30);
        binary::lemma_round_at(z, -30);
        let r = z.round();
        let a = z.at(-30);
        let d = a - v * s;
        assert(binary::abs(d) <= 256 * s) by (nonlinear_arith)
            requires
                0x100_0000 * binary::abs(d) <= v * s,
                v <= 0x1_0000_0000,
                s > 0,
        ;
        assert(v - 257 < r < v + 257) by (nonlinear_arith)
            requires
                2 * a - s <= 2 * (r * s) <= 2 * a + s,
                -256 * s <= a - v * s <= 256 * s,
                s > 0,
        ;
    }
}

/// Single precision holds every integer of 24 bits.
pub proof fn lemma_exact(n: int)
    requires
        -0x100_0000 <= n <= 0x100_0000,
    ensures
        binary::integer(24, n).at(-30) == n * pow2(30),
        rounded(n) == n,
{
    lemma_powers();
    lemma_range(n);
    lemma_pow2_pos(30);
    let x = binary::integer(24, n);
    let h = pow2(30) as int;
    let g = pow2((x.e + 30) as nat) as int;
    if n == 0 {
        assert(x.m * g == n * h) by (nonlinear_arith)
            requires
                x.m == 0,
                n == 0,
        ;
    } else {
        let v = binary::abs(n);
        let y = binary::integer(24, v as int);
        lemma_range(v as int);
        binary::lemma_exact_integer_at(24, v, -30);
        assert(x.e == y.e && x.m == if n < 0 {
            -y.m
        } else {
            y.m
        });
        if n < 0 {
            assert(x.m * g == n * h) by (nonlinear_arith)
                requires
                    y.m * g == v * h,
                    x.m == -y.m,
                    n == -v,
            ;
        }
    }
    binary::lemma_signed_round_at(x, -30);
    lemma_nearest_whole(rounded(n), n, h);
}

/// Only one integer is within a half of `n`.
pub proof fn lemma_nearest_whole(r: int, n: int, h: int)
    requires
        h > 0,
        2 * (n * h) - h <= 2 * (r * h) <= 2 * (n * h) + h,
    ensures
        r == n,
{
    assert(r == n) by (nonlinear_arith)
        requires
            h > 0,
            2 * (n * h) - h <= 2 * (r * h) <= 2 * (n * h) + h,
    ;
}

/// The exponent of a quotient.
pub proof fn lemma_quotient(n: int, d: int)
    requires
        -0x1_0000_0000 <= n <= 0x1_0000_0000,
        0 < d <= 0xffff,
    ensures
        -80 <= binary::quotient(24, binary::integer(24, n), binary::integer(24, d)).e <= 40,
{
    lemma_powers();
    lemma2_to64();
    lemma_range(n);
    lemma_range(d);
    let x = binary::integer(24, n);
    let y = binary::integer(24, d);
    if n != 0 {
        lemma_mantissa_quotient(binary::abs(x.m), y.m as nat);
        binary::lemma_nearest_mantissa(24, x.m, y.m as nat);
    }
}

/// The exponent of a quotient of mantissas.
pub proof fn lemma_mantissa_quotient(a: nat, b: nat)
    requires
        0x80_0000 <= a <= 0x100_0000,
        0x80_0000 <= b <= 0x100_0000,
    ensures
        -24 <= binary::scale(24, a, b) <= -22,
{
    lemma_powers();
    lemma2_to64();
    assert(binary::down(-1) == 2 && binary::up(-1) == 1 && binary::down(2) == 1 && binary::up(2)
        == 4);
    assert(!binary::below(a, b, 1, -1)) by {
        assert(a * 2 >= 1 * (b * 1));
    }
    assert(binary::below(a, b, 1, 2)) by {
        assert(a * 1 < 1 * (b * 4));
    }
    binary::lemma_scale_between(24, a, b, -1, 2);
}

/// An integer of more than 24 bits is rounded to a mantissa of 24 bits with a positive
/// exponent.
pub proof fn lemma_wide(n: int)
    requires
        n < -0x100_0000 || n > 0x100_0000,
    ensures
        ({
            let z = binary::integer(24, n);
            &&& 0x80_0000 <= binary::abs(z.m) <= 0x100_0000
            &&& z.e >= 1
            &&& n < 0 <==> z.m < 0
            &&& rounded(n) == z.m * pow2(z.e as nat)
        }),
{
    lemma_powers();
    let z = binary::integer(24, n);
    let v = binary::abs(n);
    binary::lemma_nearest_mantissa(24, n, 1);
    binary::lemma_pow2_exceeds(v);
    binary::lemma_scale_integer(24, v, 24, v);
    let u = pow2(z.e as nat) as int;
    let a = binary::abs(z.m) * u;
    assert(2 * binary::abs(z.m) * u == 2 * a) by (nonlinear_arith)
        requires
            a == binary::abs(z.m) * u,
    ;
    assert((2 * a + 1) / 2 == a);
    assert(z.m < 0 ==> -a == z.m * u) by (nonlinear_arith)
        requires
            a == binary::abs(z.m) * u,
            z.m < 0 ==> binary::abs(z.m) == -z.m,
    ;
}

/// Rounding does not depend on the scale.
pub proof fn lemma_scaled(n: int, t: nat)
    ensures
        rounded(n * pow2(t)) == rounded(n) * pow2(t),
{
    lemma_powers();
    lemma2_to64();
    let h = pow2(t) as int;
    lemma_pow2_pos(t);
    binary::lemma_nearest_scaled(24, n, 1, t);
    let z = binary::integer(24, n);
    let y = binary::integer(24, n * h);
    assert(y == z.shift(t as int));
    if n < -0x100_0000 || n > 0x100_0000 {
        lemma_wide(n);
        let s = n * h;
        assert(s < -0x100_0000 || s > 0x100_0000) by (nonlinear_arith)
            requires
                s == n * h,
                h >= 1,
                n < -0x100_0000 || n > 0x100_0000,
        ;
        lemma_wide(s);
        lemma_pow2_adds(z.e as nat, t);
        let u = pow2(z.e as nat) as int;
        assert(z.m * (u * h) == (z.m * u) * h) by (nonlinear_arith);
    } else {
        lemma_exact(n);
        lemma_range(n);
        // y is n 2^t, in units of 2^-30
        let o = pow2(30) as int;
        lemma_pow2_pos(30);
        if n == 0 {
            assert(0 * h == 0);
        } else {
            lemma_pow2_adds((z.e + 30) as nat, t);
            let g = pow2((z.e + 30) as nat) as int;
            let s = n * h;
            assert(z.m * (g * h) == s * o) by (nonlinear_arith)
                requires
                    z.m * g == n * o,
                    s == n * h,
            ;
            binary::lemma_signed_round_at(y, -30);
            lemma_nearest_whole(y.round(), s, o);
        }
    }
}

/// What is far below a value of 24 bits is lost when it is added.
pub proof fn lemma_lost(m: int, e: nat, b: int)
    requires
        0x80_0000 <= binary::abs(m) <= 0x100_0000,
        e >= 4,
        binary::abs(b) * 16 < pow2(e),
    ensures
        rounded(m * pow2(e) + b) == m * pow2(e),
{
    if m > 0 {
        lemma_lost_positive(m as nat, e, b);
    } else {
        lemma_lost_positive((-m) as nat, e, -b);
        let u = pow2(e) as int;
        assert((-m) * u == -(m * u)) by (nonlinear_arith);
        lemma_negated(m * u + b);
    }
}

/// Rounding does not depend on the sign.
pub proof fn lemma_negated(n: int)
    ensures
        rounded(-n) == -rounded(n),
{
    lemma_powers();
    if n != 0 {
        binary::lemma_nearest_mantissa(24, n, 1);
        binary::lemma_nearest_mantissa(24, -n, 1);
    } else {
        binary::lemma_round_sign(binary::integer(24, 0));
    }
}

proof fn lemma_rounds_to(n: nat, k: nat, q: nat, r: int)
    requires
        k > 0,
        q > 0,
        n == q * pow2(k) + r,
        -(pow2(k) as int) < 2 * r < pow2(k),
        0x80_0000 * pow2(k) <= n < 0x100_0000 * pow2(k),
        n > 0x100_0000,
    ensures
        rounded(n as int) == q * pow2(k),
{
    lemma_powers();
    let u = pow2(k);
    assert(n * 1 == n && 1 * u == u);
    assert(binary::is_scale(24, n, 1, k as int));
    binary::lemma_scale_unique(24, n, 1, k as int);
    binary::lemma_round_even_near(q, u, r);
    lemma_wide(n as int);
}

proof fn lemma_lost_positive(m: nat, e: nat, b: int)
    requires
        0x80_0000 <= m <= 0x100_0000,
        e >= 4,
        binary::abs(b) * 16 < pow2(e),
    ensures
        rounded(m * pow2(e) + b) == m * pow2(e),
{
    lemma_powers();
    lemma2_to64();
    binary::lemma_pow2_mono(4, e);
    let u = pow2(e) as int;
    let n = m * u + b;
    assert(n > 0x100_0000) by (nonlinear_arith)
        requires
            n == m * u + b,
            m >= 0x80_0000,
            u >= 16,
            -u < 16 * b,
    ;
    if n < 0x80_0000 * u {
        // only just below a power of two, where the steps are half as wide
        assert(m == 0x80_0000) by (nonlinear_arith)
            requires
                m * u + b < 0x80_0000 * u,
                m >= 0x80_0000,
                -u < 16 * b,
                u > 0,
        ;
        lemma_pow2_adds((e - 1) as nat, 1);
        lemma_rounds_to(n as nat, (e - 1) as nat, 2 * m, b);
    } else if n >= 0x100_0000 * u {
        // at a power of two or just above, where they are twice as wide
        assert(m == 0x100_0000) by (nonlinear_arith)
            requires
                m * u + b >= 0x100_0000 * u,
                m <= 0x100_0000,
                16 * b < u,
                u > 0,
        ;
        lemma_pow2_adds(e, 1);
        lemma_rounds_to(n as nat, e + 1, 0x80_0000, b);
    } else {
        lemma_rounds_to(n as nat, e, m, b);
    }
}

/// Single precision moves an integer by at most one part in `2^24`.
pub proof fn lemma_relative(n: int)
    ensures
        0x100_0000 * binary::abs(rounded(n) - n) <= binary::abs(n),
{
    lemma_powers();
    lemma2_to64();
    if -0x100_0000 <= n <= 0x100_0000 {
        lemma_exact(n);
    } else {
        lemma_wide(n);
        let z = binary::integer(24, n);
        assert(z.shift(0) == z);
        binary::lemma_signed_error(24, n, 0, 0);
        assert(n * pow2(0) == n) by (nonlinear_arith)
            requires
                pow2(0) == 1,
        ;
    }
}

/// Single precision keeps the order of integers.
pub proof fn lemma_ordered(m: int, n: int)
    requires
        m <= n,
    ensures
        rounded(m) <= rounded(n),
{
    if m != 0 {
        binary::lemma_nearest_exponent(24, m);
    }
    if n != 0 {
        binary::lemma_nearest_exponent(24, n);
    }
    binary::lemma_nearest_ordered(24, m, n, 1, -30);
    binary::lemma_round_ordered(binary::integer(24, m), binary::integer(24, n), -30);
}

/// The integer nearest to a quotient of samples and channels, in single precision.
pub proof fn lemma_nearest_quotient(n: int, d: int)
    requires
        0 < d <= 128,
        -0x8000 * d <= n <= 0x8000 * d,
    ensures
        2 * binary::abs(
            d * binary::quotient(24, binary::integer(24, n), binary::integer(24, d)).round() - n,
        ) <= d,
{
    lemma_powers();
    let x = binary::integer(24, n);
    let y = binary::integer(24, d);
    let z = binary::quotient(24, x, y);
    if n == 0 {
        binary::lemma_round_sign(z);
        assert(d * 0 == 0);
    } else if n > 0 {
        lemma_positive_quotient(n, d);
    } else {
        let u = binary::integer(24, -n);
        lemma_positive_quotient(-n, d);
        binary::lemma_nearest_negated(24, n);
        assert(u == x.negated());
        binary::lemma_quotient_negated(24, x, y);
        binary::lemma_round_negated(z);
        let r = z.round();
        assert(d * (-r) == -(d * r)) by (nonlinear_arith);
    }
}

proof fn lemma_positive_quotient(n: int, d: int)
    requires
        0 < d <= 128,
        0 < n <= 0x8000 * d,
    ensures
        2 * binary::abs(
            d * binary::quotient(24, binary::integer(24, n), binary::integer(24, d)).round() - n,
        ) <= d,
{
    lemma_powers();
    lemma2_to64();
    let x = binary::integer(24, n);
    let y = binary::integer(24, d);
    let z = binary::quotient(24, x, y);
    lemma_range(n);
    lemma_range(d);
    lemma_quotient(n, d);
    binary::lemma_nearest_mantissa(24, x.m, y.m as nat);
    binary::lemma_exact_integer_at(24, n as nat, -100);
    binary::lemma_exact_integer_at(24, d as nat, -100);
    binary::lemma_quotient_error(24, x, y, -100);
    binary::lemma_round_at(z, -100);
    let h = pow2(100) as int;
    lemma_pow2_pos(100);
    let q = z.at(-100);
    let r = z.round();
    let delta = q * d - n * h;
    assert(q * (d * h) - (n * h) * h == delta * h) by (nonlinear_arith)
        requires
            delta == q * d - n * h,
    ;
    binary::lemma_abs_product(delta, h);
    let e = binary::abs(delta) as int;
    assert(0x100_0000 * e <= n * h) by (nonlinear_arith)
        requires
            0x100_0000 * (e * h) <= (n * h) * h,
            h > 0,
    ;
    assert(512 * e <= d * h) by (nonlinear_arith)
        requires
            0x100_0000 * e <= n * h,
            n <= 0x8000 * d,
            h > 0,
    ;
    assert(2 * e < h) by (nonlinear_arith)
        requires
            512 * e <= d * h,
            d <= 128,
            h > 0,
    ;
    let c = 2 * (d * r - n);
    assert(c * h == d * (2 * (r * h)) - 2 * (n * h)) by (nonlinear_arith)
        requires
            c == 2 * (d * r - n),
    ;
    assert(d * (2 * q - h) <= d * (2 * (r * h)) <= d * (2 * q + h)) by (nonlinear_arith)
        requires
            2 * q - h <= 2 * (r * h) <= 2 * q + h,
            d > 0,
    ;
    assert(d * (2 * q + h) == 2 * (q * d) + d * h && d * (2 * q - h) == 2 * (q * d) - d * h)
        by (nonlinear_arith);
    assert(-d - 1 < c < d + 1) by (nonlinear_arith)
        requires
            -(d * h) - h < c * h < d * h + h,
            h > 0,
    ;
}

} // verus!
