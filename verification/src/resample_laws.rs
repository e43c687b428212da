//! Laws of resampling: how long the output is, where its samples come from, and how far
//! rounding can move them.

use crate::binary;
use crate::resample;
use crate::resample::TARGET_RATE;
use vstd::arithmetic::power2::*;
use vstd::prelude::*;

verus! {

/// The unit in which the error bounds below are stated is `2^-300`: every value that
/// resampling meets is a whole number of these.
spec fn unit() -> int {
    pow2(300) as int
}

spec fn step_units(rate: nat) -> int {
    resample::ratio(rate).at(-300)
}

proof fn lemma_ratio_error(rate: nat)
    requires
        0 < rate < 0x1_0000_0000,
    ensures
        unit() > 0,
        step_units(rate) > 0,
        pow2(53) * binary::abs(16000 * step_units(rate) - rate * unit()) <= rate * unit(),
{
    resample::lemma_powers();
    lemma_pow2_pos(300);
    resample::lemma_ratio_range(rate);
    let x = binary::integer(53, rate as int);
    let y = binary::integer(53, 16000);
    binary::lemma_integer_range(rate as int, 32);
    binary::lemma_integer_range(16000, 14);
    binary::lemma_small_integer_at(rate, -300);
    binary::lemma_small_integer_at(16000, -300);
    binary::lemma_quotient_error(53, x, y, -300);
    let s = unit();
    let r = step_units(rate);
    let g = pow2((resample::ratio(rate).e + 300) as nat) as int;
    lemma_pow2_pos((resample::ratio(rate).e + 300) as nat);
    assert(r > 0) by (nonlinear_arith)
        requires
            r == resample::ratio(rate).m * g,
            resample::ratio(rate).m > 0,
            g > 0,
    ;
    let t = pow2(53);
    let delta = 16000 * r - rate * s;
    assert(r * (16000 * s) - (rate * s) * s == delta * s) by (nonlinear_arith)
        requires
            delta == 16000 * r - rate * s,
    ;
    binary::lemma_abs_product(delta, s);
    let exact = rate * s;
    assert(t * binary::abs(delta) <= exact) by (nonlinear_arith)
        requires
            t * (binary::abs(delta) * s) <= exact * s,
            s > 0,
    ;
}

proof fn lemma_target_error(len: nat, rate: nat) -> (r: (int, int))
    requires
        0 < rate < 0x1_0000_0000,
        0 < len < pow2(64),
    ensures
        ({
            let (l, q) = r;
            let s = unit();
            &&& l > 0
            &&& q > 0
            &&& pow2(53) * binary::abs(l - len * s) <= len * s
            &&& pow2(53) * binary::abs(q * step_units(rate) - l * s) <= l * s
            &&& 2 * q - s <= 2 * (resample::target_len(len, rate) * s) <= 2 * q + s
        }),
{
    resample::lemma_ratio_range(rate);
    resample::lemma_target_range(len, rate);
    binary::lemma_integer_range(len as int, 64);
    lemma_pow2_pos(52);
    let x = binary::integer(53, len as int);
    let y = resample::ratio(rate);
    let z = binary::quotient(53, x, y);
    binary::lemma_quotient_range(x, y, -52, 11, -66, -33);
    binary::lemma_integer_error(53, len, -300);
    binary::lemma_quotient_error(53, x, y, -300);
    binary::lemma_round_at(z, -300);
    lemma_positive_at(x);
    lemma_positive_at(z);
    (x.at(-300), z.at(-300))
}

proof fn lemma_positive_at(x: binary::Dyadic)
    requires
        x.m > 0,
        x.e >= -300,
    ensures
        x.at(-300) > 0,
{
    let g = pow2((x.e + 300) as nat) as int;
    lemma_pow2_pos((x.e + 300) as nat);
    assert(x.m * g > 0) by (nonlinear_arith)
        requires
            x.m > 0,
            g > 0,
    ;
}

/// A product of two rounded factors, divided by a third.
proof fn lemma_upper_chain(t: int, s: int, r: int, l: int, q: int, a: int, b: int)
    requires
        t > 1,
        s > 0,
        r > 0,
        q >= 0,
        t * l <= a * s * (t + 1),
        t * (q * r) <= l * s * (t + 1),
        16000 * t * r >= b * s * (t - 1),
    ensures
        (t - 1) * t * (b * q) <= 16000 * a * s * ((t + 1) * (t + 1)),
{
    let v = t + 1;
    assert(t * (t * (q * r)) <= (a * s * v) * (s * v)) by (nonlinear_arith)
        requires
            t * l <= a * s * v,
            t * (q * r) <= l * s * v,
            t > 0,
            s > 0,
            v > 0,
    ;
    assert((b * s * (t - 1)) * (t * q) <= (16000 * t * r) * (t * q)) by (nonlinear_arith)
        requires
            16000 * t * r >= b * s * (t - 1),
            t > 0,
            q >= 0,
    ;
    assert((16000 * t * r) * (t * q) == 16000 * (t * (t * (q * r)))) by (nonlinear_arith);
    assert((b * s * (t - 1)) * (t * q) == s * ((t - 1) * t * (b * q))) by (nonlinear_arith);
    assert(16000 * ((a * s * v) * (s * v)) == s * (16000 * a * s * (v * v))) by (nonlinear_arith);
    let x = (t - 1) * t * (b * q);
    let y = 16000 * a * s * (v * v);
    assert(x <= y) by (nonlinear_arith)
        requires
            s * x <= s * y,
            s > 0,
    ;
}

proof fn lemma_lower_chain(t: int, s: int, r: int, l: int, q: int, a: int, b: int)
    requires
        t > 1,
        s > 0,
        r > 0,
        q >= 0,
        t * l >= a * s * (t - 1),
        t * (q * r) >= l * s * (t - 1),
        16000 * t * r <= b * s * (t + 1),
    ensures
        (t + 1) * t * (b * q) >= 16000 * a * s * ((t - 1) * (t - 1)),
{
    let v = t - 1;
    assert(t * (t * (q * r)) >= (a * s * v) * (s * v)) by (nonlinear_arith)
        requires
            t * l >= a * s * v,
            t * (q * r) >= l * s * v,
            t > 0,
            s > 0,
            v > 0,
    ;
    assert((b * s * (t + 1)) * (t * q) >= (16000 * t * r) * (t * q)) by (nonlinear_arith)
        requires
            16000 * t * r <= b * s * (t + 1),
            t > 0,
            q >= 0,
    ;
    assert((16000 * t * r) * (t * q) == 16000 * (t * (t * (q * r)))) by (nonlinear_arith);
    assert((b * s * (t + 1)) * (t * q) == s * ((t + 1) * t * (b * q))) by (nonlinear_arith);
    assert(16000 * ((a * s * v) * (s * v)) == s * (16000 * a * s * (v * v))) by (nonlinear_arith);
    let x = (t + 1) * t * (b * q);
    let y = 16000 * a * s * (v * v);
    assert(x >= y) by (nonlinear_arith)
        requires
            s * x >= s * y,
            s > 0,
    ;
}

/// A value that is off by at most one part in `t` lies between these bounds.
proof fn lemma_error_bounds(t: int, x: int, exact: int)
    requires
        t > 0,
        t * binary::abs(x - exact) <= exact,
    ensures
        exact * (t - 1) <= t * x <= exact * (t + 1),
{
    let d = binary::abs(x - exact) as int;
    assert(t * x - t * exact <= t * d && t * exact - t * x <= t * d) by (nonlinear_arith)
        requires
            -d <= x - exact <= d,
            t > 0,
    ;
    assert(exact * (t - 1) == t * exact - exact) by (nonlinear_arith);
    assert(exact * (t + 1) == t * exact + exact) by (nonlinear_arith);
}

/// How far the length before it is rounded is from the exact one.
proof fn lemma_length_error(len: nat, rate: nat) -> (q: int)
    requires
        0 < rate < 0x1_0000_0000,
        0 < len < pow2(64),
    ensures
        ({
            let t = 0x20_0000_0000_0000int;
            let s = unit();
            let x = 16000 * (len as int) * s;
            let y = rate * q;
            &&& s > 0
            &&& (t - 1) * t * y <= x * ((t + 1) * (t + 1))
            &&& (t + 1) * t * y >= x * ((t - 1) * (t - 1))
            &&& 2 * q - s <= 2 * (resample::target_len(len, rate) * s) <= 2 * q + s
        }),
{
    resample::lemma_powers();
    lemma_ratio_error(rate);
    let (l, q) = lemma_target_error(len, rate);
    let t = pow2(53) as int;
    let s = unit();
    let r = step_units(rate);
    let a = len as int;
    let b = rate as int;
    lemma_error_bounds(t, l, a * s);
    lemma_error_bounds(t, q * r, l * s);
    lemma_error_bounds(t, 16000 * r, b * s);
    assert(t * (16000 * r) == 16000 * t * r) by (nonlinear_arith);
    lemma_upper_chain(t, s, r, l, q, a, b);
    lemma_lower_chain(t, s, r, l, q, a, b);
    q
}

/// A recording of up to `2^36` samples is brought to the nearest whole number of samples
/// that lasts as long: the length is off by at most half a sample.
pub proof fn lemma_length_nearest(len: nat, rate: nat)
    requires
        0 < rate < 0x1_0000_0000,
        0 < len <= 0x10_0000_0000,
    ensures
        2 * (len * TARGET_RATE) - rate <= 2 * (rate * resample::target_len(len, rate)) <= 2 * (len
            * TARGET_RATE) + rate,
{
    resample::lemma_powers();
    let q = lemma_length_error(len, rate);
    let t = 0x20_0000_0000_0000int;
    let s = unit();
    let a = len as int;
    let b = rate as int;
    let n = resample::target_len(len, rate);
    let x = 16000 * a * s;
    let y = b * q;
    let z = b * s;
    assert(0 <= x <= 16000 * (0x10_0000_0000 * s)) by (nonlinear_arith)
        requires
            x == 16000 * a * s,
            0 < a <= 0x10_0000_0000,
            s > 0,
    ;
    assert(-s < 2 * y - 2 * x < s) by (nonlinear_arith)
        requires
            (t - 1) * t * y <= x * ((t + 1) * (t + 1)),
            (t + 1) * t * y >= x * ((t - 1) * (t - 1)),
            0 <= x <= 16000 * (0x10_0000_0000 * s),
            t == 0x20_0000_0000_0000,
            s > 0,
    ;
    assert(2 * (n * s) * b <= (2 * q + s) * b && (2 * q - s) * b <= 2 * (n * s) * b)
        by (nonlinear_arith)
        requires
            2 * q - s <= 2 * (n * s) <= 2 * q + s,
            b > 0,
    ;
    assert(2 * (n * s) * b == s * (2 * (b * n))) by (nonlinear_arith);
    assert((2 * q + s) * b == 2 * y + z && (2 * q - s) * b == 2 * y - z) by (nonlinear_arith)
        requires
            y == b * q,
            z == b * s,
    ;
    let v = 2 * (b * n);
    let hi = 2 * (a * 16000) + b + 1;
    let lo = 2 * (a * 16000) - b - 1;
    assert(s * hi == 2 * x + z + s && s * lo == 2 * x - z - s) by (nonlinear_arith)
        requires
            x == 16000 * a * s,
            z == b * s,
            hi == 2 * (a * 16000) + b + 1,
            lo == 2 * (a * 16000) - b - 1,
    ;
    assert(lo < v < hi) by (nonlinear_arith)
        requires
            s * lo < s * v < s * hi,
            s > 0,
    ;
}

/// The output lasts as long as the input: scaled by the source rate, its length differs
/// from the input's, scaled by the target rate, by less than one sample.
pub proof fn lemma_duration_kept(len: nat, rate: nat)
    requires
        0 < rate < 0x1_0000_0000,
        0 < len < pow2(64),
        len * TARGET_RATE <= rate * 0x2_0000_0000_0000,
    ensures
        len * TARGET_RATE - rate < rate * resample::target_len(len, rate) < len * TARGET_RATE + rate,
{
    resample::lemma_powers();
    let q = lemma_length_error(len, rate);
    let t = 0x20_0000_0000_0000int;
    let s = unit();
    let a = len as int;
    let b = rate as int;
    let x = 16000 * a * s;
    let y = b * q;
    let z = b * s;
    assert(x <= z * 0x2_0000_0000_0000) by (nonlinear_arith)
        requires
            a * 16000 <= b * 0x2_0000_0000_0000,
            x == 16000 * a * s,
            z == b * s,
            s > 0,
    ;
    assert(x >= 0) by (nonlinear_arith)
        requires
            x == 16000 * a * s,
            a > 0,
            s > 0,
    ;
    assert(4 * y <= 4 * x + z) by (nonlinear_arith)
        requires
            (t - 1) * t * y <= x * ((t + 1) * (t + 1)),
            0 <= x <= z * 0x2_0000_0000_0000,
            t == 0x20_0000_0000_0000,
    ;
    assert(4 * y >= 4 * x - z) by (nonlinear_arith)
        requires
            (t + 1) * t * y >= x * ((t - 1) * (t - 1)),
            0 <= x <= z * 0x2_0000_0000_0000,
            t == 0x20_0000_0000_0000,
    ;
    let n = resample::target_len(len, rate);
    assert(2 * (n * s) * b <= (2 * q + s) * b && (2 * q - s) * b <= 2 * (n * s) * b)
        by (nonlinear_arith)
        requires
            2 * q - s <= 2 * (n * s) <= 2 * q + s,
            b > 0,
    ;
    assert(2 * (n * s) * b == 2 * (s * (b * n))) by (nonlinear_arith);
    assert((2 * q + s) * b == 2 * y + z && (2 * q - s) * b == 2 * y - z) by (nonlinear_arith)
        requires
            y == b * q,
            z == b * s,
    ;
    assert(x + z == s * (16000 * a + b) && x - z == s * (16000 * a - b)) by (nonlinear_arith)
        requires
            x == 16000 * a * s,
            z == b * s,
    ;
    let v = b * n;
    let hi = 16000 * a + b;
    let lo = 16000 * a - b;
    assert(z > 0) by (nonlinear_arith)
        requires
            z == b * s,
            b > 0,
            s > 0,
    ;
    assert(lo < v < hi) by (nonlinear_arith)
        requires
            s * lo < s * v < s * hi,
            s > 0,
    ;
}

/// A moderate recording is covered.
pub proof fn lemma_moderate_covered(len: nat, rate: nat)
    requires
        0 < rate < 0x1_0000_0000,
        0 < len < pow2(64),
        resample::moderate(len, rate),
    ensures
        resample::covered(len, rate),
{
    resample::lemma_powers();
    lemma_duration_kept(len, rate);
    let n = resample::target_len(len, rate);
    let b = rate as int;
    let hi = isize::MAX as int;
    assert(2 * n <= hi) by (nonlinear_arith)
        requires
            b * n <= len * 16000 + b,
            2 * (len * 16000 + b) <= b * hi,
            b > 0,
    ;
    assert forall|i: nat| i < n implies #[trigger] resample::source_index(i, rate) < len by {
        lemma_index_below(len, rate, i);
    }
}

/// A moderate recording has a source sample for each output sample.
pub proof fn lemma_index_below(len: nat, rate: nat, i: nat)
    requires
        0 < rate < 0x1_0000_0000,
        0 < len < pow2(64),
        len * TARGET_RATE <= rate * 0x2_0000_0000_0000,
        i < resample::target_len(len, rate),
        i < pow2(64),
    ensures
        resample::source_index(i, rate) < len,
{
    resample::lemma_powers();
    lemma2_to64();
    resample::lemma_position_range(i, rate);
    let p = resample::position(i, rate);
    if i == 0 {
        let m = resample::ratio(rate).m;
        assert(0 * m == 0) by (nonlinear_arith);
        assert(p.m * binary::up(p.e) == 0) by (nonlinear_arith)
            requires
                p.m == 0,
        ;
        assert(p.floor() == 0);
    } else {
        resample::lemma_ratio_range(rate);
        lemma_ratio_error(rate);
        let (l, q) = lemma_target_error(len, rate);
        let x = binary::integer(53, i as int);
        binary::lemma_integer_range(i as int, 64);
        binary::lemma_product_range(x, resample::ratio(rate), -52, 11, -66, -33);
        binary::lemma_integer_error(53, i, -300);
        binary::lemma_product_error(53, x, resample::ratio(rate), -300);
        binary::lemma_floor_at(p, -300);
        let t = pow2(53) as int;
        let s = unit();
        let r = step_units(rate);
        let w = x.at(-300);
        let v = p.at(-300);
        lemma_error_bounds(t, l, len * s);
        lemma_error_bounds(t, q * r, l * s);
        lemma_error_bounds(t, 16000 * r, rate * s);
        lemma_error_bounds(t, w, i * s);
        lemma_error_bounds(t, v * s, w * r);
        let n = resample::target_len(len, rate);
        assert(2 * (i * s) <= 2 * q - s) by (nonlinear_arith)
            requires
                i <= n - 1,
                2 * (n * s) <= 2 * q + s,
                s > 0,
        ;
        lemma_position_chain(t, s, r, l, q, i as int, w, v, len as int, rate as int);
        let c = p.floor();
        assert(c < len) by (nonlinear_arith)
            requires
                c * s <= v,
                v < len * s,
                s > 0,
        ;
    }
}

proof fn lemma_position_chain(
    t: int,
    s: int,
    r: int,
    l: int,
    q: int,
    i: int,
    w: int,
    v: int,
    a: int,
    b: int,
)
    requires
        t == 0x20_0000_0000_0000,
        s > 0,
        r > 0,
        a > 0,
        b > 0,
        a * 16000 <= b * 0x2_0000_0000_0000,
        t * (16000 * r) >= b * s * (t - 1),
        t * l <= a * s * (t + 1),
        t * (q * r) <= l * s * (t + 1),
        t * w <= i * s * (t + 1),
        t * (v * s) <= w * r * (t + 1),
        2 * (i * s) <= 2 * q - s,
    ensures
        v < a * s,
{
    let z = t + 1;
    // t^2 v <= i r z^2
    assert(t * (t * (v * s)) <= (i * s * z) * (r * z)) by (nonlinear_arith)
        requires
            t * w <= i * s * z,
            t * (v * s) <= w * r * z,
            t > 0,
            r > 0,
            z > 0,
    ;
    let x1 = t * (t * v);
    let y1 = i * (r * (z * z));
    assert(s * x1 == t * (t * (v * s))) by (nonlinear_arith)
        requires
            x1 == t * (t * v),
    ;
    let rz = r * z;
    assert(rz * z == r * (z * z)) by (nonlinear_arith)
        requires
            rz == r * z,
    ;
    assert(s * (i * (rz * z)) == (i * s * z) * rz) by (nonlinear_arith);
    assert(x1 <= y1) by (nonlinear_arith)
        requires
            s * x1 <= s * y1,
            s > 0,
    ;
    // 2 s t^2 v <= (2 q - s) r z^2
    let k = z * z;
    assert(k > 0) by (nonlinear_arith)
        requires
            k == z * z,
            z > 0,
    ;
    assert(2 * s * x1 <= (2 * q - s) * (r * k)) by (nonlinear_arith)
        requires
            x1 <= i * (r * k),
            2 * (i * s) <= 2 * q - s,
            r > 0,
            k > 0,
            s > 0,
    ;
    // 2 t^3 v <= (2 l z - t r) z^2
    let x2 = 2 * (t * x1);
    let y2 = (2 * (l * z) - t * r) * k;
    let m0 = 2 * s * x1;
    let m1 = (2 * q - s) * (r * k);
    let m2 = 2 * (t * (q * r)) - s * (t * r);
    let m3 = 2 * (l * s * z) - s * (t * r);
    assert(t * m0 <= t * m1) by (nonlinear_arith)
        requires
            m0 <= m1,
            t > 0,
    ;
    assert(t * m1 == m2 * k) by {
        let e = r * k;
        assert((2 * q - s) * e == 2 * (q * e) - s * e) by (nonlinear_arith);
        let e1 = q * e;
        let e2 = s * e;
        assert(t * (2 * e1 - e2) == 2 * (t * e1) - t * e2) by (nonlinear_arith);
        assert(t * (q * (r * k)) == (t * (q * r)) * k) by (nonlinear_arith);
        assert(t * (s * (r * k)) == (s * (t * r)) * k) by (nonlinear_arith);
        let e3 = t * (q * r);
        let e4 = s * (t * r);
        assert((2 * e3 - e4) * k == 2 * (e3 * k) - e4 * k) by (nonlinear_arith);
    }
    assert(m2 * k <= m3 * k) by (nonlinear_arith)
        requires
            m2 <= m3,
            k > 0,
    ;
    assert(t * m0 == s * x2) by (nonlinear_arith)
        requires
            m0 == 2 * s * x1,
            x2 == 2 * (t * x1),
    ;
    assert(m3 * k == s * y2) by (nonlinear_arith)
        requires
            m3 == 2 * (l * s * z) - s * (t * r),
            y2 == (2 * (l * z) - t * r) * k,
    ;
    assert(x2 <= y2) by (nonlinear_arith)
        requires
            s * x2 <= s * y2,
            s > 0,
    ;
    // 2 t^4 v <= (2 a s z^2 - t^2 r) z^2
    assert(t * x2 <= (2 * (a * s * k) - t * (t * r)) * k) by (nonlinear_arith)
        requires
            x2 <= (2 * (l * z) - t * r) * k,
            t * l <= a * s * z,
            k == z * z,
            t > 0,
            k > 0,
            z > 0,
    ;
    // 10 a s < t r
    assert(10 * (a * s) < t * r) by (nonlinear_arith)
        requires
            t * (16000 * r) >= b * s * (t - 1),
            a * 16000 <= b * 0x2_0000_0000_0000,
            t == 0x20_0000_0000_0000,
            s > 0,
            b > 0,
    ;
    let g = a * s;
    let h = t * r;
    assert(g > 0) by (nonlinear_arith)
        requires
            g == a * s,
            a > 0,
            s > 0,
    ;
    // (2 g z^2 - t h) z^2 < 2 t^4 g
    assert((2 * (g * k) - t * h) * k < 2 * (t * (t * (t * (t * g))))) by {
        let kk = 0x20_0000_0000_0001int * 0x20_0000_0000_0001int;
        assert(k == kk);
        let tt = 0x20_0000_0000_0000int;
        assert((2 * (g * kk) - tt * h) * kk == 2 * (g * (kk * kk)) - tt * (h * kk))
            by (nonlinear_arith);
        assert(2 * (g * (kk * kk)) - tt * (h * kk) < 2 * (tt * (tt * (tt * (tt * g)))));
        assert(t == tt);
    }
    assert(t * x2 == 2 * (t * (t * (t * (t * v))))) by (nonlinear_arith)
        requires
            x2 == 2 * (t * x1),
            x1 == t * (t * v),
    ;
    assert(v < g) by (nonlinear_arith)
        requires
            2 * (t * (t * (t * (t * v)))) < 2 * (t * (t * (t * (t * g)))),
            t == 0x20_0000_0000_0000,
    ;
}

/// A sample is its own double.
proof fn lemma_sample_at(s: i16)
    ensures
        binary::full_width(binary::integer(53, s as int), -52, -37),
        binary::integer(53, s as int).at(-300) == s * unit(),
{
    resample::lemma_powers();
    lemma2_to64();
    binary::lemma_integer_range(s as int, 16);
    let x = binary::integer(53, s as int);
    let h = unit();
    let g = pow2((x.e + 300) as nat) as int;
    if s == 0 {
        assert(x.m * g == s * h) by (nonlinear_arith)
            requires
                x.m == 0,
                s == 0,
        ;
    } else if s > 0 {
        binary::lemma_small_integer_at(s as nat, -300);
    } else {
        let n = -(s as int);
        let y = binary::integer(53, n);
        binary::lemma_small_integer_at(n as nat, -300);
        assert(y.m == -x.m && y.e == x.e);
        assert(x.m * g == s * h) by (nonlinear_arith)
            requires
                y.m * g == n * h,
                y.m == -x.m,
                n == -(s as int),
        ;
    }
}

/// A double from zero to one, in units.
proof fn lemma_weight_at(w: binary::Dyadic)
    requires
        binary::full_width(w, -105, -53),
        w.m >= 0,
    ensures
        0 <= w.at(-300) <= unit(),
        w.negated().at(-300) == -w.at(-300),
{
    resample::lemma_powers();
    let g = pow2((w.e + 300) as nat) as int;
    lemma_pow2_pos((w.e + 300) as nat);
    assert((-w.m) * g == -(w.m * g)) by (nonlinear_arith);
    if w.m == 0 {
        assert(w.m * g == 0) by (nonlinear_arith)
            requires
                w.m == 0,
        ;
        lemma_pow2_pos(300);
    } else {
        binary::lemma_pow2_mono((w.e + 300) as nat, 247);
        lemma_pow2_adds(53, 247);
        assert(0 <= w.m * g <= pow2(53) * pow2(247)) by (nonlinear_arith)
            requires
                0 <= w.m <= pow2(53),
                0 <= g <= pow2(247),
        ;
    }
}

/// What is left of a relative error when a common factor is taken out.
proof fn lemma_scaled_error(t: int, h: int, p: int, c: int, s: int)
    requires
        t > 0,
        h > 0,
        c >= 0,
        t * binary::abs(p * h - c * (s * h)) <= binary::abs(c * (s * h)),
    ensures
        t * binary::abs(p - c * s) <= c * binary::abs(s),
{
    let delta = p - c * s;
    assert(p * h - c * (s * h) == delta * h) by (nonlinear_arith)
        requires
            delta == p - c * s,
    ;
    binary::lemma_abs_product(delta, h);
    let k = c * h;
    assert(c * (s * h) == s * k) by (nonlinear_arith)
        requires
            k == c * h,
    ;
    assert(k >= 0) by (nonlinear_arith)
        requires
            k == c * h,
            c >= 0,
            h > 0,
    ;
    binary::lemma_abs_product(s, k);
    let d = binary::abs(delta) as int;
    let a = binary::abs(s) as int;
    assert(t * d <= c * a) by (nonlinear_arith)
        requires
            t * (d * h) <= a * k,
            k == c * h,
            h > 0,
    ;
}

/// Rounding errors leave a blend far less than half a step from the exact one.
proof fn lemma_blend_error(h: int, w: int, c: int, p0: int, p1: int, b: int, s0: int, s1: int)
    requires
        0 <= w <= h,
        0 < h,
        -0x8000 <= s0 <= 0x7fff,
        -0x8000 <= s1 <= 0x7fff,
        0 <= c,
        0x20_0000_0000_0000 * binary::abs(c - (h - w)) <= h - w,
        0x20_0000_0000_0000 * binary::abs(p0 - c * s0) <= c * binary::abs(s0),
        0x20_0000_0000_0000 * binary::abs(p1 - w * s1) <= w * binary::abs(s1),
        0x20_0000_0000_0000 * binary::abs(b - (p0 + p1)) <= binary::abs(p0 + p1),
    ensures
        0x20_0000_0000_0000 * binary::abs(b - ((h - w) * s0 + w * s1)) <= 0x3_0000 * h,
{
    let x0 = (h - w) * s0;
    let x1 = w * s1;
    let y0 = c * s0;
    let off = c - (h - w);
    assert(c <= 2 * h);
    assert(y0 - x0 == off * s0) by (nonlinear_arith)
        requires
            y0 == c * s0,
            x0 == (h - w) * s0,
            off == c - (h - w),
    ;
    assert(-0x8000 * binary::abs(off) <= off * s0 <= 0x8000 * binary::abs(off)) by (nonlinear_arith)
        requires
            -0x8000 <= s0 <= 0x7fff,
            -binary::abs(off) <= off <= binary::abs(off),
    ;
    assert(c * binary::abs(s0) <= 0x8000 * c) by (nonlinear_arith)
        requires
            binary::abs(s0) <= 0x8000,
            c >= 0,
    ;
    assert(w * binary::abs(s1) <= 0x8000 * w) by (nonlinear_arith)
        requires
            binary::abs(s1) <= 0x8000,
            w >= 0,
    ;
    assert(-0x8000 * (h - w) <= x0 <= 0x8000 * (h - w)) by (nonlinear_arith)
        requires
            x0 == (h - w) * s0,
            -0x8000 <= s0 <= 0x7fff,
            w <= h,
    ;
    assert(-0x8000 * w <= x1 <= 0x8000 * w) by (nonlinear_arith)
        requires
            x1 == w * s1,
            -0x8000 <= s1 <= 0x7fff,
            w >= 0,
    ;
}

/// The blend of two samples, rounded, is hardly more than a half away from the exact one.
proof fn lemma_blend_near(s0: i16, s1: i16, w: binary::Dyadic)
    requires
        binary::full_width(w, -105, -53),
        w.m >= 0,
    ensures
        ({
            let h = unit();
            let exact = (h - w.at(-300)) * s0 + w.at(-300) * s1;
            let r = resample::blend(s0, s1, w).round();
            0x20_0000_0000_0000 * binary::abs(2 * (r * h) - 2 * exact) <= 0x20_0000_0006_0000 * h
        }),
{
    resample::lemma_powers();
    lemma_pow2_pos(300);
    let h = unit();
    let one = binary::integer(53, 1);
    let c = binary::difference(53, one, w);
    let a0 = binary::integer(53, s0 as int);
    let a1 = binary::integer(53, s1 as int);
    let p0 = binary::product(53, c, a0);
    let p1 = binary::product(53, w, a1);
    let b = binary::sum(53, p0, p1);
    lemma_weight_at(w);
    lemma_sample_at(s0);
    lemma_sample_at(s1);
    binary::lemma_one();
    binary::lemma_small_integer_at(1, -300);
    binary::lemma_complement_range(w);
    binary::lemma_sum_error(53, one, w.negated(), -300);
    binary::lemma_product_range(c, a0, -105, -52, -52, -37);
    binary::lemma_product_range(w, a1, -105, -53, -52, -37);
    binary::lemma_signed_product_error(53, c, a0, -300);
    binary::lemma_signed_product_error(53, w, a1, -300);
    binary::lemma_sum_error(53, p0, p1, -300);
    let t = pow2(53) as int;
    let cc = c.at(-300);
    let ww = w.at(-300);
    let gc = pow2((c.e + 300) as nat) as int;
    assert(cc >= 0) by (nonlinear_arith)
        requires
            cc == c.m * gc,
            c.m >= 0,
            gc >= 0,
    ;
    lemma_scaled_error(t, h, p0.at(-300), cc, s0 as int);
    lemma_scaled_error(t, h, p1.at(-300), ww, s1 as int);
    let bb = b.at(-300);
    lemma_blend_error(h, ww, cc, p0.at(-300), p1.at(-300), bb, s0 as int, s1 as int);
    let f = if p0.e < p1.e {
        p0.e
    } else {
        p1.e
    };
    let n = p0.at(f) + p1.at(f);
    if n != 0 {
        binary::lemma_nearest_exponent(53, n);
    }
    binary::lemma_signed_round_at(b, -300);
}

/// The blend of two samples, rounded, lies between them, and is the first of them where
/// the second has no weight.
proof fn lemma_blend_between(s0: i16, s1: i16, w: binary::Dyadic)
    requires
        binary::full_width(w, -105, -53),
        w.m >= 0,
    ensures
        s0 <= s1 ==> s0 <= resample::blend(s0, s1, w).round() <= s1,
        s1 <= s0 ==> s1 <= resample::blend(s0, s1, w).round() <= s0,
        w.at(-300) == 0 ==> resample::blend(s0, s1, w).round() == s0,
{
    lemma_pow2_pos(300);
    lemma_weight_at(w);
    lemma_blend_near(s0, s1, w);
    let h = unit();
    let ww = w.at(-300);
    let r = resample::blend(s0, s1, w).round();
    let exact = (h - ww) * s0 + ww * s1;
    let lo = if s0 <= s1 {
        s0 as int
    } else {
        s1 as int
    };
    let hi = if s0 <= s1 {
        s1 as int
    } else {
        s0 as int
    };
    assert(lo * h <= exact <= hi * h) by (nonlinear_arith)
        requires
            exact == (h - ww) * s0 + ww * s1,
            0 <= ww <= h,
            lo <= s0 <= hi,
            lo <= s1 <= hi,
    ;
    assert(lo <= r <= hi) by (nonlinear_arith)
        requires
            lo * h <= exact <= hi * h,
            -h < r * h - exact < h,
            h > 0,
    ;
    if ww == 0 {
        assert(exact == h * s0) by (nonlinear_arith)
            requires
                exact == (h - ww) * s0 + ww * s1,
                ww == 0,
        ;
        assert(r == s0) by (nonlinear_arith)
            requires
                exact == h * s0,
                -h < r * h - exact < h,
                h > 0,
        ;
    }
}

/// Every output sample lies between the two source samples that it falls between, so
/// resampling adds no peak and never clips.
pub proof fn lemma_output_between(input: Seq<i16>, rate: nat, i: nat)
    requires
        0 < rate < 0x1_0000_0000,
        i < pow2(64),
        resample::source_index(i, rate) < input.len(),
    ensures
        ({
            let s0 = input[resample::source_index(i, rate)];
            let s1 = input[resample::next_index(i, rate, input.len())];
            let r = resample::output_sample(input, rate, i);
            s0 <= r <= s1 || s1 <= r <= s0
        }),
{
    resample::lemma_position_range(i, rate);
    binary::lemma_fraction_range(resample::position(i, rate));
    lemma_blend_between(
        input[resample::source_index(i, rate)],
        input[resample::next_index(i, rate, input.len())],
        resample::weight(i, rate),
    );
}

/// Resampling keeps to the range of its input. Silence stays silence, and a constant
/// signal stays that constant.
pub proof fn lemma_range_kept(input: Seq<i16>, rate: nat, lo: i16, hi: i16, i: int)
    requires
        rate < 0x1_0000_0000,
        input.len() <= usize::MAX,
        resample::resamplable(input.len(), rate),
        forall|k: int| 0 <= k < input.len() ==> lo <= #[trigger] input[k] <= hi,
        0 <= i < resample::resampled(input, rate).len(),
    ensures
        lo <= resample::resampled(input, rate)[i] <= hi,
{
    if rate != TARGET_RATE {
        resample::lemma_powers();
        if !resample::covered(input.len(), rate) {
            lemma_moderate_covered(input.len(), rate);
        }
        lemma_target_positive(input.len(), rate);
        assert(resample::source_index(i as nat, rate) < input.len());
        lemma_output_between(input, rate, i as nat);
        resample::lemma_position_range(i as nat, rate);
        let p = resample::position(i as nat, rate);
        binary::lemma_floor_sign(p);
    }
}

/// How far rounding moves a position.
proof fn lemma_position_error(i: nat, rate: nat)
    requires
        0 < rate < 0x1_0000_0000,
        i <= 0x20_0000_0000_0000,
    ensures
        0x20_0000_0000_0000 * binary::abs(
            16000 * resample::position(i, rate).at(-300) - (i * rate) * unit(),
        ) <= 3 * ((i * rate) * unit()),
        resample::position(i, rate).at(-300) >= 0,
{
    resample::lemma_powers();
    lemma2_to64();
    resample::lemma_position_range(i, rate);
    let p = resample::position(i, rate);
    let s = unit();
    let r = step_units(rate);
    let v = p.at(-300);
    let d = (i * rate) as int;
    let g = pow2((p.e + 300) as nat) as int;
    assert(v >= 0) by (nonlinear_arith)
        requires
            v == p.m * g,
            p.m >= 0,
            g >= 0,
    ;
    if i == 0 {
        let m = resample::ratio(rate).m;
        assert(0 * m == 0) by (nonlinear_arith);
        assert(p.m * g == 0) by (nonlinear_arith)
            requires
                p.m == 0,
        ;
        assert(d * s == 0) by (nonlinear_arith)
            requires
                d == 0 * rate,
        ;
    } else {
        resample::lemma_ratio_range(rate);
        lemma_ratio_error(rate);
        let x = binary::integer(53, i as int);
        binary::lemma_integer_range(i as int, 64);
        binary::lemma_small_integer_at(i, -300);
        binary::lemma_product_range(x, resample::ratio(rate), -52, 11, -66, -33);
        binary::lemma_signed_product_error(53, x, resample::ratio(rate), -300);
        let t = 0x20_0000_0000_0000int;
        let n = i as int;
        assert((n * s) * r == r * (n * s)) by (nonlinear_arith);
        lemma_scaled_error(t, s, v, r, n);
        let e1 = v - r * n;
        let e2 = 16000 * r - rate * s;
        let exact = d * s;
        assert(n * e2 == 16000 * (r * n) - exact) by (nonlinear_arith)
            requires
                e2 == 16000 * r - rate * s,
                exact == (n * rate) * s,
        ;
        binary::lemma_abs_product(e2, n);
        assert(e2 * n == n * e2) by (nonlinear_arith);
        let d2 = binary::abs(e2) as int;
        let step = rate * s;
        assert(step * n == exact) by (nonlinear_arith)
            requires
                step == rate * s,
                exact == (n * rate) * s,
        ;
        assert(t * (d2 * n) <= step * n) by (nonlinear_arith)
            requires
                t * d2 <= step,
                n > 0,
        ;
        assert(exact >= 0) by (nonlinear_arith)
            requires
                exact == (n * rate) * s,
                n > 0,
                s > 0,
        ;
        assert(r * n * 1 == r * binary::abs(n));
    }
}

/// What linear interpolation gives at output sample `i`, times the target rate.
pub open spec fn interpolated(input: Seq<i16>, rate: nat, i: nat) -> int {
    let at = (i * rate) as int;
    let low = at / 16000;
    let past = at % 16000;
    let high = if low + 1 < input.len() {
        low + 1
    } else {
        input.len() - 1
    };
    (16000 - past) * input[low] + past * input[high]
}

/// Of a recording of up to `2^20` samples, every output sample is a nearest integer to what
/// exact linear interpolation gives there.
pub proof fn lemma_nearest_sample(input: Seq<i16>, rate: nat, i: nat)
    requires
        0 < rate < 0x1_0000_0000,
        0 < input.len() <= 0x10_0000,
        resample::resamplable(input.len(), rate),
        i < resample::resampled(input, rate).len(),
    ensures
        (i * rate) as int / 16000 < input.len(),
        2 * binary::abs(
            16000 * resample::resampled(input, rate)[i as int] - interpolated(input, rate, i),
        ) <= 16000,
{
    lemma_sample_error(input, rate, i);
    let slack = interpolation_slack(input.len());
    assert(slack < 0x20_0000_0000_0000);
    let a = binary::abs(
        16000 * resample::resampled(input, rate)[i as int] - interpolated(input, rate, i),
    ) as int;
    assert(0x20_0000_0000_0000 * (2 * a - 16000) <= slack);
}

/// How far rounding can move an output sample, times the target rate and `2^53`.
pub open spec fn interpolation_slack(len: nat) -> int {
    32000 * 0x3_0000 + 0x1_fffe * (16000 + 48000 * (len as int))
}

/// The weight that rounding leaves, against the exact one.
proof fn lemma_near_sample(input: Seq<i16>, rate: nat, i: nat)
    requires
        0 < rate < 0x1_0000_0000,
        rate != TARGET_RATE,
        0 < input.len() <= 0x4_0000_0000,
        i * rate < 16000 * input.len(),
        i <= i * rate,
    ensures
        0x20_0000_0000_0000 * (2 * binary::abs(
            16000 * resample::output_sample(input, rate, i) - interpolated(input, rate, i),
        ) - 16000) <= interpolation_slack(input.len()),
{
    resample::lemma_powers();
    lemma2_to64();
    let len = input.len() as int;
    let d = (i * rate) as int;
    let k = d / 16000;
    let f = d % 16000;
    let t = 0x20_0000_0000_0000int;
    let h = unit();
    lemma_pow2_pos(300);
    lemma_position_error(i, rate);
    resample::lemma_position_range(i, rate);
    let p = resample::position(i, rate);
    let v = p.at(-300);
    let q = p.floor();
    binary::lemma_floor_at(p, -300);
    binary::lemma_floor_sign(p);
    let err = 16000 * v - d * h;
    assert(t * binary::abs(err) <= 3 * (16000 * (len * h))) by {
        assert(d * h <= 16000 * (len * h)) by (nonlinear_arith)
            requires
                d < 16000 * len,
                h > 0,
        ;
    }
    assert(len * h <= 0x4_0000_0000 * h) by (nonlinear_arith)
        requires
            len <= 0x4_0000_0000,
            h > 0,
    ;
    assert(binary::abs(err) < h);
    // the floor is k, or k - 1 where the exact position is whole
    assert(q <= k) by {
        assert(16000 * q <= d) by (nonlinear_arith)
            requires
                q * h <= v,
                16000 * v < d * h + h,
                h > 0,
        ;
    }
    assert(16000 * (q + 1) >= d) by (nonlinear_arith)
        requires
            v < (q + 1) * h,
            16000 * v > d * h - h,
            h > 0,
    ;
    // the weight
    let w = resample::weight(i, rate);
    binary::lemma_fraction_range(p);
    let y = binary::integer(53, q);
    binary::lemma_integer_range(q, 64);
    let gy = pow2((y.e + 300) as nat) as int;
    assert(y.at(-300) == q * h) by {
        if q == 0 {
            assert(y.m * gy == 0 && q * h == 0) by (nonlinear_arith)
                requires
                    y.m == 0,
                    q == 0,
            ;
        } else {
            binary::lemma_small_integer_at(q as nat, -300);
        }
    }
    assert((-y.m) * gy == -(y.m * gy)) by (nonlinear_arith);
    binary::lemma_sum_error(53, p, y.negated(), -300);
    let ww = w.at(-300);
    assert((q + 1) * h == q * h + h) by (nonlinear_arith);
    assert(t * binary::abs(ww - (v - q * h)) <= h);
    let s0 = input[q];
    let s1 = input[resample::next_index(i, rate, input.len())];
    lemma_blend_between(s0, s1, w);
    lemma_blend_near(s0, s1, w);
    let r = resample::blend(s0, s1, w).round();
    let e = (h - ww) * s0 + ww * s1;
    let x = interpolated(input, rate, i);
    if q == k {
        let off = 16000 * ww - f * h;
        assert(d * h == 16000 * (q * h) + f * h) by (nonlinear_arith)
            requires
                d == 16000 * q + f,
        ;
        assert(off == 16000 * (ww - (v - q * h)) + err);
        lemma_cross(h, ww, f, s0 as int, s1 as int);
        lemma_interpolation_error(h, len, off, s0 as int, s1 as int, r, e, x);
    } else {
        assert(q == k - 1 && f == 0);
        assert(s1 == input[k]);
        let off = 16000 * (h - ww);
        assert(d * h == 16000 * (q * h) + 16000 * h) by (nonlinear_arith)
            requires
                d == 16000 * (q + 1),
        ;
        assert(off == -(16000 * (ww - (v - q * h)) + err));
        assert(x == 16000 * s1);
        assert(16000 * e - x * h == off * (s0 - s1)) by (nonlinear_arith)
            requires
                e == (h - ww) * s0 + ww * s1,
                x == 16000 * s1,
                off == 16000 * (h - ww),
        ;
        lemma_interpolation_error(h, len, off, s1 as int, s0 as int, r, e, x);
    }
}

proof fn lemma_cross(h: int, w: int, f: int, s0: int, s1: int)
    ensures
        16000 * ((h - w) * s0 + w * s1) - ((16000 - f) * s0 + f * s1) * h == (16000 * w - f * h)
            * (s1 - s0),
{
    let m = s1 - s0;
    let a = h * s0;
    let b = w * m;
    let c = f * m;
    assert((h - w) * s0 + w * s1 == a + b) by (nonlinear_arith)
        requires
            a == h * s0,
            b == w * (s1 - s0),
    ;
    assert((16000 - f) * s0 + f * s1 == 16000 * s0 + c) by (nonlinear_arith)
        requires
            c == f * (s1 - s0),
    ;
    assert((16000 * s0 + c) * h == 16000 * a + c * h) by (nonlinear_arith)
        requires
            a == h * s0,
    ;
    assert((16000 * w - f * h) * m == 16000 * b - c * h) by (nonlinear_arith)
        requires
            b == w * m,
            c == f * m,
    ;
}

proof fn lemma_interpolation_error(
    h: int,
    len: int,
    off: int,
    s0: int,
    s1: int,
    r: int,
    e: int,
    x: int,
)
    requires
        h > 0,
        0 < len,
        -0x8000 <= s0 <= 0x7fff,
        -0x8000 <= s1 <= 0x7fff,
        0x20_0000_0000_0000 * binary::abs(off) <= 16000 * h + 3 * (16000 * (len * h)),
        16000 * e - x * h == off * (s1 - s0),
        0x20_0000_0000_0000 * binary::abs(2 * (r * h) - 2 * e) <= 0x20_0000_0006_0000 * h,
    ensures
        0x20_0000_0000_0000 * (2 * binary::abs(16000 * r - x) - 16000) <= interpolation_slack(
            len as nat,
        ),
{
    let o = binary::abs(off) as int;
    let m = off * (s1 - s0);
    assert(-0xffff * o <= m <= 0xffff * o) by (nonlinear_arith)
        requires
            m == off * (s1 - s0),
            -0xffff <= s1 - s0 <= 0xffff,
            -o <= off <= o,
    ;
    let u = r * h;
    let y = x * h;
    let c = 16000 * r - x;
    assert(c * h == 16000 * u - y) by (nonlinear_arith)
        requires
            c == 16000 * r - x,
            u == r * h,
            y == x * h,
    ;
    binary::lemma_abs_product(c, h);
    let a = binary::abs(c) as int;
    let lh = len * h;
    let t = 0x20_0000_0000_0000int;
    let g = binary::abs(2 * u - 2 * e) as int;
    assert(t * g <= 0x20_0000_0006_0000 * h);
    assert(2 * (a * h) <= 16000 * g + 2 * (0xffff * o));
    assert(t * (2 * (a * h)) <= 16000 * (t * g) + 0x1_fffe * (t * o));
    assert(0x20_0000_0000_0000 * (2 * (a * h)) <= 0x20_0000_0000_0000 * (16000 * h) + 32000
        * (0x3_0000 * h) + 0x1_fffe * (16000 * h + 48000 * lh));
    let slack = interpolation_slack(len as nat);
    assert(slack * h == 32000 * (0x3_0000 * h) + 0x1_fffe * (16000 * h + 48000 * lh))
        by (nonlinear_arith)
        requires
            slack == 32000 * 0x3_0000 + 0x1_fffe * (16000 + 48000 * len),
            lh == len * h,
    ;
    let excess = 0x20_0000_0000_0000 * (2 * a - 16000);
    assert(excess * h == 0x20_0000_0000_0000 * (2 * (a * h)) - 0x20_0000_0000_0000 * (16000 * h))
        by (nonlinear_arith)
        requires
            excess == 0x20_0000_0000_0000 * (2 * a - 16000),
    ;
    assert(excess <= slack) by (nonlinear_arith)
        requires
            excess * h <= slack * h,
            h > 0,
    ;
}

/// The output has the nearest whole number of samples to what lasts as long as the input: it
/// is off by at most half a sample.
pub proof fn lemma_output_length(input: Seq<i16>, rate: nat)
    requires
        0 < rate < 0x1_0000_0000,
        0 < input.len() <= 0x10_0000_0000,
    ensures
        2 * binary::abs(
            rate * resample::resampled(input, rate).len() - 16000 * input.len(),
        ) <= rate,
        rate == 16000 ==> resample::resampled(input, rate) == input,
{
    resample::lemma_powers();
    if rate != TARGET_RATE {
        lemma_target_positive(input.len(), rate);
        lemma_length_nearest(input.len(), rate);
    } else {
        let n = input.len();
        assert(rate * n == 16000 * n);
    }
}

/// Of a recording of up to `2^34` samples, every output sample is less than one away from
/// what exact linear interpolation gives there.
pub proof fn lemma_close_sample(input: Seq<i16>, rate: nat, i: nat)
    requires
        0 < rate < 0x1_0000_0000,
        0 < input.len() <= 0x4_0000_0000,
        resample::resamplable(input.len(), rate),
        i < resample::resampled(input, rate).len(),
    ensures
        (i * rate) as int / 16000 < input.len(),
        binary::abs(
            16000 * resample::resampled(input, rate)[i as int] - interpolated(input, rate, i),
        ) < 16000,
{
    lemma_sample_error(input, rate, i);
    let slack = interpolation_slack(input.len());
    assert(slack < 15000 * 0x20_0000_0000_0000);
    let a = binary::abs(
        16000 * resample::resampled(input, rate)[i as int] - interpolated(input, rate, i),
    ) as int;
    assert(0x20_0000_0000_0000 * (2 * a - 16000) <= slack);
}

/// How far an output sample is from exact interpolation.
proof fn lemma_sample_error(input: Seq<i16>, rate: nat, i: nat)
    requires
        0 < rate < 0x1_0000_0000,
        0 < input.len() <= 0x4_0000_0000,
        resample::resamplable(input.len(), rate),
        i < resample::resampled(input, rate).len(),
    ensures
        (i * rate) as int / 16000 < input.len(),
        0x20_0000_0000_0000 * (2 * binary::abs(
            16000 * resample::resampled(input, rate)[i as int] - interpolated(input, rate, i),
        ) - 16000) <= interpolation_slack(input.len()),
{
    resample::lemma_powers();
    lemma2_to64();
    let len = input.len();
    let d = (i * rate) as int;
    if rate == TARGET_RATE {
        assert(d == 16000 * i) by (nonlinear_arith)
            requires
                d == i * rate,
                rate == 16000,
        ;
        let low = i as int;
        let high = if low + 1 < len {
            low + 1
        } else {
            len - 1
        };
        assert(d / 16000 == low && d % 16000 == 0);
        assert(0 * input[high] == 0);
        assert(interpolated(input, rate, i) == (16000 - 0) * input[low] + 0 * input[high]);
    } else {
        lemma_target_positive(len, rate);
        lemma_length_nearest(len, rate);
        let n = resample::target_len(len, rate);
        assert(d <= rate * n - rate) by (nonlinear_arith)
            requires
                d == i * rate,
                i <= n - 1,
        ;
        assert(0 <= d && i <= d) by (nonlinear_arith)
            requires
                d == i * rate,
                rate >= 1,
        ;
        assert(d < 16000 * len);
        lemma_near_sample(input, rate, i);
    }
}

/// Samples with their signs turned round.
pub open spec fn inverted(input: Seq<i16>) -> Seq<i16> {
    Seq::new(input.len(), |k: int| (-input[k]) as i16)
}

proof fn lemma_blend_inverted(s0: i16, s1: i16, w: binary::Dyadic)
    requires
        s0 > i16::MIN,
        s1 > i16::MIN,
    ensures
        resample::blend((-s0) as i16, (-s1) as i16, w).round() == -resample::blend(
            s0,
            s1,
            w,
        ).round(),
{
    let c = binary::difference(53, binary::integer(53, 1), w);
    let a0 = binary::integer(53, s0 as int);
    let a1 = binary::integer(53, s1 as int);
    binary::lemma_nearest_negated(53, s0 as int);
    binary::lemma_nearest_negated(53, s1 as int);
    binary::lemma_product_negated(53, c, a0);
    binary::lemma_product_negated(53, w, a1);
    binary::lemma_sum_negated(53, binary::product(53, c, a0), binary::product(53, w, a1));
    binary::lemma_round_negated(resample::blend(s0, s1, w));
}

/// Turning the signs of the input round turns those of the output round. The most negative
/// sample has no counterpart, so the input holds none.
pub proof fn lemma_inverted(input: Seq<i16>, rate: nat, i: int)
    requires
        rate < 0x1_0000_0000,
        input.len() <= usize::MAX,
        resample::resamplable(input.len(), rate),
        forall|k: int| 0 <= k < input.len() ==> #[trigger] input[k] > i16::MIN,
        0 <= i < resample::resampled(input, rate).len(),
    ensures
        resample::resampled(inverted(input), rate).len() == resample::resampled(input, rate).len(),
        resample::resampled(inverted(input), rate)[i] == -resample::resampled(input, rate)[i],
{
    if rate != TARGET_RATE {
        let j = i as nat;
        lemma_index_inside(input.len(), rate, j);
        resample::lemma_position_range(j, rate);
        binary::lemma_fraction_range(resample::position(j, rate));
        let s0 = input[resample::source_index(j, rate)];
        let s1 = input[resample::next_index(j, rate, input.len())];
        let w = resample::weight(j, rate);
        lemma_blend_inverted(s0, s1, w);
        lemma_blend_between(s0, s1, w);
    }
}

/// Every output sample of a recording that can be resampled has a source sample.
proof fn lemma_index_inside(len: nat, rate: nat, i: nat)
    requires
        rate < 0x1_0000_0000,
        rate != TARGET_RATE,
        0 < len <= usize::MAX,
        resample::resamplable(len, rate),
        i < resample::target_len(len, rate) as nat,
    ensures
        0 < rate,
        i < pow2(64),
        0 <= resample::source_index(i, rate) < len,
        0 <= resample::next_index(i, rate, len) < len,
        i < resample::target_len(len, rate),
{
    resample::lemma_powers();
    lemma_target_positive(len, rate);
    if !resample::covered(len, rate) {
        lemma_moderate_covered(len, rate);
    }
    assert(resample::source_index(i, rate) < len);
    resample::lemma_position_range(i, rate);
    binary::lemma_floor_sign(resample::position(i, rate));
}

/// The product of a value that is not negative with a sample, in units of `2^-700`, does not
/// fall when the sample grows.
proof fn lemma_product_ordered(x: binary::Dyadic, a: i16, b: i16)
    requires
        -300 <= x.e,
        x.m >= 0,
        a <= b,
    ensures
        ({
            let y = binary::product(53, x, binary::integer(53, a as int));
            let z = binary::product(53, x, binary::integer(53, b as int));
            &&& -700 <= y.e
            &&& -700 <= z.e
            &&& y.at(-700) <= z.at(-700)
        }),
{
    let h = unit();
    let ya = binary::integer(53, a as int);
    let yb = binary::integer(53, b as int);
    lemma_sample_at(a);
    lemma_sample_at(b);
    binary::lemma_product_at(53, x, ya, -300);
    binary::lemma_product_at(53, x, yb, -300);
    let g = pow2((x.e + 300) as nat) as int;
    let v = x.at(-300);
    let m = v * (a * h);
    let n = v * (b * h);
    lemma_pow2_pos(300);
    assert(m <= n) by (nonlinear_arith)
        requires
            m == v * (a * h),
            n == v * (b * h),
            v == x.m * g,
            x.m >= 0,
            g >= 0,
            a <= b,
            h > 0,
    ;
    lemma_ordered_at(m, n, -600);
}

/// Rounding keeps the order of two integers, and of their multiples of `2^k`.
proof fn lemma_ordered_at(m: int, n: int, k: int)
    requires
        m <= n,
        k <= 0,
    ensures
        ({
            let x = binary::nearest(53, m, 1).shift(k);
            let y = binary::nearest(53, n, 1).shift(k);
            &&& k - 100 <= x.e
            &&& k - 100 <= y.e
            &&& x.at(k - 100) <= y.at(k - 100)
        }),
{
    let x = binary::nearest(53, m, 1);
    let y = binary::nearest(53, n, 1);
    lemma_pow2_pos(52);
    if m != 0 {
        binary::lemma_nearest_exponent(53, m);
        binary::lemma_nearest_mantissa(53, m, 1);
    }
    if n != 0 {
        binary::lemma_nearest_exponent(53, n);
        binary::lemma_nearest_mantissa(53, n, 1);
    }
    binary::lemma_nearest_ordered(53, m, n, 1, -100);
    binary::lemma_shift_at(x, k, -100);
    binary::lemma_shift_at(y, k, -100);
}

proof fn lemma_blend_ordered(a0: i16, a1: i16, b0: i16, b1: i16, w: binary::Dyadic)
    requires
        binary::full_width(w, -105, -53),
        w.m >= 0,
        a0 <= b0,
        a1 <= b1,
    ensures
        resample::blend(a0, a1, w).round() <= resample::blend(b0, b1, w).round(),
{
    let c = binary::difference(53, binary::integer(53, 1), w);
    binary::lemma_complement_range(w);
    lemma_product_ordered(c, a0, b0);
    lemma_product_ordered(w, a1, b1);
    let pa = binary::product(53, c, binary::integer(53, a0 as int));
    let qa = binary::product(53, w, binary::integer(53, a1 as int));
    let pb = binary::product(53, c, binary::integer(53, b0 as int));
    let qb = binary::product(53, w, binary::integer(53, b1 as int));
    binary::lemma_sum_at(53, pa, qa, -700);
    binary::lemma_sum_at(53, pb, qb, -700);
    lemma_ordered_at(pa.at(-700) + qa.at(-700), pb.at(-700) + qb.at(-700), -700);
    binary::lemma_round_ordered(
        resample::blend(a0, a1, w),
        resample::blend(b0, b1, w),
        -800,
    );
}

/// Larger samples give no smaller output.
pub proof fn lemma_ordered(a: Seq<i16>, b: Seq<i16>, rate: nat, i: int)
    requires
        rate < 0x1_0000_0000,
        a.len() <= usize::MAX,
        a.len() == b.len(),
        resample::resamplable(a.len(), rate),
        forall|k: int| 0 <= k < a.len() ==> #[trigger] a[k] <= b[k],
        0 <= i < resample::resampled(a, rate).len(),
    ensures
        resample::resampled(b, rate).len() == resample::resampled(a, rate).len(),
        resample::resampled(a, rate)[i] <= resample::resampled(b, rate)[i],
{
    if rate != TARGET_RATE {
        let j = i as nat;
        lemma_index_inside(a.len(), rate, j);
        resample::lemma_position_range(j, rate);
        binary::lemma_fraction_range(resample::position(j, rate));
        let low = resample::source_index(j, rate);
        let high = resample::next_index(j, rate, a.len());
        lemma_blend_ordered(a[low], a[high], b[low], b[high], resample::weight(j, rate));
    }
}

/// A longer recording has no shorter output.
pub proof fn lemma_length_ordered(a: nat, b: nat, rate: nat)
    requires
        0 < rate < 0x1_0000_0000,
        0 < a <= b < pow2(64),
    ensures
        resample::target_len(a, rate) <= resample::target_len(b, rate),
{
    resample::lemma_powers();
    resample::lemma_ratio_range(rate);
    resample::lemma_target_range(a, rate);
    resample::lemma_target_range(b, rate);
    let r = resample::ratio(rate);
    let x = binary::integer(53, a as int);
    let y = binary::integer(53, b as int);
    binary::lemma_integer_range(a as int, 64);
    binary::lemma_integer_range(b as int, 64);
    lemma_ordered_at(a as int, b as int, 0);
    assert(x.shift(0) == x && y.shift(0) == y);
    let d = r.m as nat;
    let m = x.at(-100);
    let n = y.at(-100);
    binary::lemma_nearest_scaled(53, x.m, d, (x.e + 100) as nat);
    binary::lemma_nearest_scaled(53, y.m, d, (y.e + 100) as nat);
    let u = binary::nearest(53, m, d);
    let v = binary::nearest(53, n, d);
    let k = -100 - r.e;
    let p = binary::quotient(53, x, r);
    let q = binary::quotient(53, y, r);
    binary::lemma_quotient_range(x, r, -52, 11, -66, -33);
    binary::lemma_quotient_range(y, r, -52, 11, -66, -33);
    assert(p == u.shift(k));
    assert(q == v.shift(k));
    binary::lemma_nearest_ordered(53, m, n, d, -200);
    binary::lemma_shift_at(u, k, -200);
    binary::lemma_shift_at(v, k, -200);
    binary::lemma_round_ordered(p, q, k - 200);
}

/// Audio that is appended leaves the output before it as it was: every output sample that
/// falls before the last source sample stays the same.
pub proof fn lemma_appended(input: Seq<i16>, more: Seq<i16>, rate: nat, i: int)
    requires
        rate < 0x1_0000_0000,
        (input + more).len() <= usize::MAX,
        resample::resamplable(input.len(), rate),
        0 <= i < resample::resampled(input, rate).len(),
        rate == TARGET_RATE || resample::source_index(i as nat, rate) + 1 < input.len(),
    ensures
        i < resample::resampled(input + more, rate).len(),
        resample::resampled(input + more, rate)[i] == resample::resampled(input, rate)[i],
{
    if rate != TARGET_RATE {
        resample::lemma_powers();
        lemma_index_inside(input.len(), rate, i as nat);
        lemma_length_ordered(input.len(), (input + more).len(), rate);
    }
}

/// A rate that is `k` times the target has a ratio of exactly `k`.
proof fn lemma_whole_ratio(k: nat)
    requires
        0 < k,
        k * TARGET_RATE < 0x1_0000_0000,
    ensures
        resample::ratio(k * TARGET_RATE as nat).at(-300) == k * unit(),
{
    resample::lemma_powers();
    lemma2_to64();
    let rate = k * TARGET_RATE as nat;
    let x = binary::integer(53, rate as int);
    let y = binary::integer(53, 16000);
    binary::lemma_scale_integer(53, rate, 13, 32);
    binary::lemma_scale_integer(53, 16000, 13, 14);
    binary::lemma_integer_range(rate as int, 32);
    binary::lemma_integer_range(16000, 14);
    resample::lemma_ratio_range(rate);
    binary::lemma_exact_integer_at(53, rate, x.e);
    binary::lemma_exact_integer_at(53, 16000, -39);
    assert(x.m * pow2(0) == x.m) by (nonlinear_arith)
        requires
            pow2(0) == 1,
    ;
    assert(y.m * pow2(0) == y.m) by (nonlinear_arith)
        requires
            pow2(0) == 1,
    ;
    let c = (x.e + 39) as nat;
    lemma_pow2_adds((-x.e) as nat, c);
    let g = pow2((-x.e) as nat);
    let z = pow2(c);
    let o = pow2(39);
    assert(x.m * z == k * y.m) by (nonlinear_arith)
        requires
            x.m == (k * 16000) * g,
            y.m == 16000 * o,
            o == g * z,
    ;
    let q = binary::nearest(53, x.m, y.m as nat);
    let r = resample::ratio(rate);
    binary::lemma_nearest_mantissa(53, x.m, y.m as nat);
    assert(r.e == q.e + c);
    binary::lemma_nearest_exact(53, x.m as nat, y.m as nat, k, c, -300);
    lemma_pow2_adds((q.e + 300) as nat, c);
    let h = pow2((q.e + 300) as nat);
    assert(q.m * (h * z) == (q.m * h) * z) by (nonlinear_arith);
}

/// Where the ratio is `k`, output sample `i` falls on source sample `k * i`.
proof fn lemma_whole_position(k: nat, i: nat)
    requires
        0 < k,
        k * TARGET_RATE < 0x1_0000_0000,
        k * i <= 0x20_0000_0000_0000,
    ensures
        resample::source_index(i, k * TARGET_RATE as nat) == k * i,
        resample::weight(i, k * TARGET_RATE as nat).at(-300) == 0,
{
    resample::lemma_powers();
    lemma2_to64();
    let rate = k * TARGET_RATE as nat;
    let s = unit();
    lemma_pow2_pos(300);
    resample::lemma_ratio_range(rate);
    lemma_whole_ratio(k);
    let r = resample::ratio(rate);
    let p = resample::position(i, rate);
    let j = k * i;
    assert(i <= j) by (nonlinear_arith)
        requires
            j == k * i,
            k > 0,
    ;
    resample::lemma_position_range(i, rate);
    assert(p.at(-300) == j * s) by {
        if i == 0 {
            assert(0 * r.m == 0) by (nonlinear_arith);
            let g = pow2((p.e + 300) as nat);
            assert(p.m * g == 0) by (nonlinear_arith)
                requires
                    p.m == 0,
            ;
            assert(j * s == 0) by (nonlinear_arith)
                requires
                    j == k * 0,
            ;
        } else {
            lemma_whole_product(k, i);
        }
    }
    binary::lemma_floor_at(p, -300);
    let q = p.floor();
    assert(q == j) by (nonlinear_arith)
        requires
            q * s <= j * s < (q + 1) * s,
            s > 0,
    ;
    let y = binary::integer(53, j as int);
    let z = y.negated();
    lemma_pow2_adds(53, 1);
    binary::lemma_integer_range(j as int, 54);
    let g = pow2((y.e + 300) as nat) as int;
    assert(y.at(-300) == j * s) by {
        if j == 0 {
            assert(y.m * g == 0 && j * s == 0) by (nonlinear_arith)
                requires
                    y.m == 0,
                    j == 0,
            ;
        } else {
            binary::lemma_small_integer_at(j, -300);
        }
    }
    assert((-y.m) * g == -(y.m * g)) by (nonlinear_arith);
    binary::lemma_sum_error(53, p, z, -300);
}

/// Where output sample `i` falls, for a ratio of `k`.
proof fn lemma_whole_product(k: nat, i: nat)
    requires
        0 < k,
        0 < i,
        k * TARGET_RATE < 0x1_0000_0000,
        k * i <= 0x20_0000_0000_0000,
        i <= 0x20_0000_0000_0000,
    ensures
        resample::position(i, k * TARGET_RATE as nat).at(-300) == (k * i) * unit(),
{
    resample::lemma_powers();
    lemma2_to64();
    let rate = k * TARGET_RATE as nat;
    let s = unit();
    let r = resample::ratio(rate);
    let x = binary::integer(53, i as int);
    let p = resample::position(i, rate);
    let j = k * i;
    assert(j > 0) by (nonlinear_arith)
        requires
            j == k * i,
            k > 0,
            i > 0,
    ;
    resample::lemma_ratio_range(rate);
    lemma_whole_ratio(k);
    resample::lemma_position_range(i, rate);
    lemma_pow2_adds(53, 1);
    binary::lemma_integer_range(i as int, 54);
    binary::lemma_small_integer_at(i, -300);
    let n = x.m * r.m;
    let shift = x.e + r.e;
    let a = pow2((x.e + 300) as nat) as int;
    let b = pow2((r.e + 300) as nat) as int;
    let t = pow2((-shift) as nat) as int;
    let u = pow2((shift + 600) as nat) as int;
    let v = pow2(600) as int;
    lemma_pow2_adds((x.e + 300) as nat, (r.e + 300) as nat);
    lemma_pow2_adds((-shift) as nat, (shift + 600) as nat);
    lemma_pow2_adds(300, 300);
    lemma_pow2_pos((shift + 600) as nat);
    assert(n * u == (j * t) * u) by (nonlinear_arith)
        requires
            x.m * a == i * s,
            r.m * b == k * s,
            n == x.m * r.m,
            a * b == u,
            s * s == t * u,
            j == k * i,
    ;
    assert(n == j * t) by (nonlinear_arith)
        requires
            n * u == (j * t) * u,
            u > 0,
    ;
    let y = binary::integer(53, n);
    binary::lemma_integer_exact(53, j, (-shift) as nat);
    assert(p == y.shift(shift));
    lemma_position_positive(i, rate);
    assert(y.m != 0);
    binary::lemma_at_integer(y, n, -300 - shift);
    lemma_pow2_adds((-shift) as nat, (300 + shift) as nat);
    let w = pow2((300 + shift) as nat) as int;
    assert((j * t) * w == j * s) by (nonlinear_arith)
        requires
            s == t * w,
    ;
}

proof fn lemma_position_positive(i: nat, rate: nat)
    requires
        0 < i < pow2(64),
        0 < rate < 0x1_0000_0000,
    ensures
        resample::position(i, rate).m > 0,
{
    resample::lemma_powers();
    resample::lemma_ratio_range(rate);
    resample::lemma_position_range(i, rate);
    binary::lemma_integer_range(i as int, 64);
    binary::lemma_product_range(binary::integer(53, i as int), resample::ratio(rate), -52, 11, -66, -33);
}

/// A rate that is `k` times the target is brought down by taking every `k`-th sample.
pub proof fn lemma_every_kth_sample(input: Seq<i16>, k: nat, i: int)
    requires
        1 < k,
        k * TARGET_RATE < 0x1_0000_0000,
        input.len() <= usize::MAX,
        resample::resamplable(input.len(), k * TARGET_RATE as nat),
        0 <= i < resample::resampled(input, k * TARGET_RATE as nat).len(),
        k * i <= 0x20_0000_0000_0000,
    ensures
        k * i < input.len(),
        resample::resampled(input, k * TARGET_RATE as nat)[i] == input[k * i],
{
    resample::lemma_powers();
    let rate = k * TARGET_RATE as nat;
    lemma_target_positive(input.len(), rate);
    if !resample::covered(input.len(), rate) {
        lemma_moderate_covered(input.len(), rate);
    }
    assert(resample::source_index(i as nat, rate) < input.len());
    lemma_whole_position(k, i as nat);
    resample::lemma_position_range(i as nat, rate);
    binary::lemma_fraction_range(resample::position(i as nat, rate));
    lemma_blend_between(
        input[resample::source_index(i as nat, rate)],
        input[resample::next_index(i as nat, rate, input.len())],
        resample::weight(i as nat, rate),
    );
}

/// A recording of `c` times `k` samples at `k` times the target rate is brought down to
/// `c` samples.
pub proof fn lemma_whole_length(c: nat, k: nat)
    requires
        0 < c,
        0 < k,
        k * TARGET_RATE < 0x1_0000_0000,
        k * c < pow2(64),
        c <= 0x2_0000_0000_0000,
    ensures
        resample::target_len(k * c, k * TARGET_RATE as nat) == c,
{
    let len = k * c;
    let rate = k * TARGET_RATE as nat;
    assert(len * 16000 == rate * c && len > 0) by (nonlinear_arith)
        requires
            len == k * c,
            rate == k * 16000,
            k > 0,
            c > 0,
    ;
    assert(rate * c <= rate * 0x2_0000_0000_0000) by (nonlinear_arith)
        requires
            c <= 0x2_0000_0000_0000,
    ;
    lemma_duration_kept(len, rate);
    let n = resample::target_len(len, rate);
    assert(n == c) by (nonlinear_arith)
        requires
            rate * c - rate < rate * n < rate * c + rate,
            rate > 0,
    ;
}

proof fn lemma_target_positive(len: nat, rate: nat)
    requires
        0 < len < pow2(64),
        0 < rate < 0x1_0000_0000,
    ensures
        resample::target_len(len, rate) >= 0,
{
    resample::lemma_ratio_range(rate);
    let x = binary::integer(53, len as int);
    binary::lemma_integer_range(len as int, 64);
    binary::lemma_quotient_range(x, resample::ratio(rate), -52, 11, -66, -33);
    binary::lemma_round_sign(binary::quotient(53, x, resample::ratio(rate)));
}

} // verus!
