//! Binary floating-point arithmetic, carried out exactly on integers.
//!
//! A value is `m * 2^e`. Every operation is stated as the exact rational result
//! rounded to the nearest value with a `p`-bit mantissa, ties going to the even
//! mantissa. With `p` 53 that is IEEE 754 double precision, and with `p` 24 single
//! precision, for as long as results stay clear of overflow and of the subnormal
//! range; nothing in this crate comes near either.

use vstd::arithmetic::div_mod::*;
use vstd::arithmetic::power2::*;
use vstd::prelude::*;

verus! {

/// The mantissa width of a double.
pub const DOUBLE: u32 = 53;

/// The mantissa width of a single.
pub const SINGLE: u32 = 24;

/// The number `m * 2^e`.
pub ghost struct Dyadic {
    pub m: int,
    pub e: int,
}

/// `2^k` for a positive `k`, else one.
pub open spec fn up(k: int) -> nat {
    if k > 0 {
        pow2(k as nat)
    } else {
        1
    }
}

/// `2^-k` for a negative `k`, else one.
pub open spec fn down(k: int) -> nat {
    if k < 0 {
        pow2((-k) as nat)
    } else {
        1
    }
}

/// Whether `n / d < c * 2^k`.
pub open spec fn below(n: nat, d: nat, c: nat, k: int) -> bool {
    n * down(k) < c * (d * up(k))
}

/// Whether `2^(p - 1) <= (n / d) / 2^k < 2^p`: dividing by `2^k` leaves `p` bits
/// before the binary point.
pub open spec fn is_scale(p: nat, n: nat, d: nat, k: int) -> bool {
    &&& !below(n, d, pow2((p - 1) as nat), k)
    &&& below(n, d, pow2(p), k)
}

/// The one `k` that `is_scale` admits for a positive `n / d`.
pub open spec fn scale(p: nat, n: nat, d: nat) -> int {
    choose|k: int| is_scale(p, n, d, k)
}

/// The integer nearest to `a / b`, the even one of two that are equally near.
pub open spec fn round_even(a: nat, b: nat) -> nat {
    let q = a / b;
    let r = a % b;
    if 2 * r < b {
        q
    } else if 2 * r > b {
        q + 1
    } else {
        q + q % 2
    }
}

/// The absolute value of `n`.
pub open spec fn abs(n: int) -> nat {
    if n < 0 {
        (-n) as nat
    } else {
        n as nat
    }
}

/// The value with a `p`-bit mantissa that is nearest to `n / d`.
pub open spec fn nearest(p: nat, n: int, d: nat) -> Dyadic {
    if n == 0 {
        Dyadic { m: 0, e: 0 }
    } else {
        let k = scale(p, abs(n), d);
        let m = round_even(abs(n) * down(k), d * up(k));
        Dyadic {
            m: if n < 0 {
                -m
            } else {
                m as int
            },
            e: k,
        }
    }
}

impl Dyadic {
    /// `self * 2^k`. Zero keeps its exponent.
    pub open spec fn shift(self, k: int) -> Dyadic {
        if self.m == 0 {
            self
        } else {
            Dyadic { m: self.m, e: self.e + k }
        }
    }

    /// `-self`.
    pub open spec fn negated(self) -> Dyadic {
        Dyadic { m: -self.m, e: self.e }
    }

    /// The integer `self / 2^f`, for an `f` not above the exponent.
    pub open spec fn at(self, f: int) -> int {
        self.m * pow2((self.e - f) as nat)
    }

    /// The greatest integer not above `self`.
    pub open spec fn floor(self) -> int {
        (self.m * up(self.e)) / (down(self.e) as int)
    }

    /// The integer nearest to `self`, the one further from zero of two that are
    /// equally near.
    pub open spec fn round(self) -> int {
        let a = (2 * abs(self.m) * up(self.e) + down(self.e)) / (2 * down(self.e));
        if self.m < 0 {
            -a
        } else {
            a as int
        }
    }
}

/// The integer `n` as a `p`-bit value.
pub open spec fn integer(p: nat, n: int) -> Dyadic {
    nearest(p, n, 1)
}

/// `x * y`, rounded.
pub open spec fn product(p: nat, x: Dyadic, y: Dyadic) -> Dyadic {
    nearest(p, x.m * y.m, 1).shift(x.e + y.e)
}

/// `x / y` for a positive `y`, rounded.
pub open spec fn quotient(p: nat, x: Dyadic, y: Dyadic) -> Dyadic {
    nearest(p, x.m, y.m as nat).shift(x.e - y.e)
}

/// `x + y`, rounded.
pub open spec fn sum(p: nat, x: Dyadic, y: Dyadic) -> Dyadic {
    let f = if x.e < y.e {
        x.e
    } else {
        y.e
    };
    nearest(p, x.at(f) + y.at(f), 1).shift(f)
}

/// `x - y`, rounded.
pub open spec fn difference(p: nat, x: Dyadic, y: Dyadic) -> Dyadic {
    sum(p, x, y.negated())
}

proof fn lemma_up_down(k: int)
    ensures
        up(k) > 0,
        down(k) > 0,
        k >= 0 ==> up(k + 1) == 2 * up(k) && down(k + 1) == down(k),
        k < 0 ==> down(k) == 2 * down(k + 1) && up(k + 1) == up(k),
{
    if k > 0 {
        lemma_pow2_pos(k as nat);
        lemma_pow2_unfold((k + 1) as nat);
    } else if k == 0 {
        lemma_pow2_unfold(1);
        lemma2_to64();
    } else {
        lemma_pow2_pos((-k) as nat);
        lemma_pow2_unfold((-k) as nat);
        lemma2_to64();
    }
}

/// Doubling the bound is the same as raising its exponent by one.
proof fn lemma_below_step(n: nat, d: nat, c: nat, k: int)
    ensures
        below(n, d, 2 * c, k) <==> below(n, d, c, k + 1),
{
    lemma_up_down(k);
    let u = up(k);
    let w = down(k);
    if k >= 0 {
        assert(c * (d * (2 * u)) == (2 * c) * (d * u)) by (nonlinear_arith);
    } else {
        let w1 = down(k + 1);
        assert(n * (2 * w1) == 2 * (n * w1)) by (nonlinear_arith);
        assert((2 * c) * (d * u) == 2 * (c * (d * u))) by (nonlinear_arith);
    }
}

proof fn lemma_below_mono_step(n: nat, d: nat, c: nat, k: int)
    requires
        below(n, d, c, k),
    ensures
        below(n, d, c, k + 1),
{
    lemma_below_step(n, d, c, k);
    lemma_up_down(k);
    let t = d * up(k);
    assert(c * t <= (2 * c) * t) by (nonlinear_arith);
}

proof fn lemma_below_mono(n: nat, d: nat, c: nat, k: int, j: int)
    requires
        below(n, d, c, k),
        k <= j,
    ensures
        below(n, d, c, j),
    decreases j - k,
{
    if k < j {
        lemma_below_mono_step(n, d, c, k);
        lemma_below_mono(n, d, c, k + 1, j);
    }
}

proof fn lemma_half(p: nat)
    requires
        p > 0,
    ensures
        pow2(p) == 2 * pow2((p - 1) as nat),
        pow2((p - 1) as nat) > 0,
{
    lemma_pow2_unfold(p);
    lemma_pow2_pos((p - 1) as nat);
}

/// At most one exponent leaves `p` bits before the binary point.
pub proof fn lemma_scale_unique(p: nat, n: nat, d: nat, k: int)
    requires
        p > 0,
        is_scale(p, n, d, k),
    ensures
        scale(p, n, d) == k,
{
    let j = scale(p, n, d);
    assert(is_scale(p, n, d, j));
    let c = pow2((p - 1) as nat);
    lemma_half(p);
    lemma_below_step(n, d, c, k);
    lemma_below_step(n, d, c, j);
    if j < k {
        lemma_below_mono(n, d, c, j + 1, k);
    } else if k < j {
        lemma_below_mono(n, d, c, k + 1, j);
    }
}

proof fn lemma_find_scale(p: nat, n: nat, d: nat, lo: int, hi: int) -> (k: int)
    requires
        p > 0,
        lo < hi,
        !below(n, d, pow2((p - 1) as nat), lo),
        below(n, d, pow2((p - 1) as nat), hi),
    ensures
        is_scale(p, n, d, k),
        lo <= k < hi,
    decreases hi - lo,
{
    let c = pow2((p - 1) as nat);
    lemma_half(p);
    if below(n, d, c, lo + 1) {
        lemma_below_step(n, d, c, lo);
        lo
    } else {
        lemma_find_scale(p, n, d, lo + 1, hi)
    }
}

/// A power of two exceeds its exponent.
pub proof fn lemma_pow2_exceeds(n: nat)
    ensures
        pow2(n) > n,
    decreases n,
{
    if n == 0 {
        lemma_pow2_pos(0);
    } else {
        lemma_pow2_exceeds((n - 1) as nat);
        lemma_pow2_unfold(n);
    }
}

/// Every positive rational has such an exponent.
pub proof fn lemma_scale_exists(p: nat, n: nat, d: nat)
    requires
        p > 0,
        n > 0,
        d > 0,
    ensures
        is_scale(p, n, d, scale(p, n, d)),
{
    let c = pow2((p - 1) as nat);
    lemma_half(p);
    let hi = n as int + 1;
    assert(below(n, d, c, hi)) by {
        lemma_pow2_exceeds(hi as nat);
        let u = pow2(hi as nat);
        assert(c * (d * u) > n) by (nonlinear_arith)
            requires
                c >= 1,
                d >= 1,
                u > n,
        ;
    }
    let lo = -((c * d) as int) - 1;
    assert(c * d >= 0) by (nonlinear_arith)
        requires
            c >= 1,
            d >= 1,
    ;
    assert(!below(n, d, c, lo)) by {
        lemma_pow2_exceeds((-lo) as nat);
        let w = pow2((-lo) as nat);
        assert(n * w >= c * d) by (nonlinear_arith)
            requires
                n >= 1,
                w > c * d,
                c * d >= 0,
        ;
    }
    let k = lemma_find_scale(p, n, d, lo, hi);
}

/// What `n / d` lies between bounds its exponent.
pub proof fn lemma_scale_bounds(p: nat, n: nat, d: nat, lo: int, hi: int)
    requires
        p > 0,
        n > 0,
        d > 0,
        !below(n, d, pow2((p - 1) as nat), lo),
        below(n, d, pow2(p), hi),
    ensures
        lo <= scale(p, n, d) <= hi,
{
    lemma_scale_exists(p, n, d);
    let k = scale(p, n, d);
    let c = pow2((p - 1) as nat);
    lemma_half(p);
    lemma_below_step(n, d, c, k);
    lemma_below_step(n, d, c, hi);
    if k < lo {
        lemma_below_mono(n, d, c, k + 1, lo);
    }
    if hi < k {
        lemma_below_mono(n, d, c, hi + 1, k);
    }
}

/// With `p`-bit scaling, the rounded mantissa has `p` bits, or is the next power of two.
pub proof fn lemma_round_even_bounds(a: nat, b: nat, c: nat)
    requires
        b > 0,
        c * b <= a < 2 * c * b,
    ensures
        c <= round_even(a, b) <= 2 * c,
{
    let q = (a / b) as int;
    lemma_fundamental_div_mod(a as int, b as int);
    lemma_mod_bound(a as int, b as int);
    let r = (a % b) as int;
    assert(q >= c) by (nonlinear_arith)
        requires
            a == b * q + r,
            r < b,
            c * b <= a,
            b > 0,
    ;
    assert(q < 2 * c) by (nonlinear_arith)
        requires
            a == b * q + r,
            0 <= r,
            a < 2 * c * b,
            b > 0,
    ;
}

/// The candidate exponent that bit lengths give is the right one or one too small.
proof fn lemma_candidate(p: nat, n: nat, d: nat, ln: nat, ld: nat)
    requires
        p > 0,
        ln > 0,
        ld > 0,
        pow2((ln - 1) as nat) <= n < pow2(ln),
        pow2((ld - 1) as nat) <= d < pow2(ld),
    ensures
        !below(n, d, pow2((p - 1) as nat), ln - ld - p),
        below(n, d, pow2(p), ln - ld - p + 1),
        d * up(ln - ld - p) < pow2(ld) + pow2(ln),
        n * down(ln - ld - p) < pow2(ld + p) + pow2(ln),
{
    let k = ln - ld - p;
    lemma_half(p);
    lemma_half(ld);
    lemma_half(ln);
    let c = pow2((p - 1) as nat);
    let dl = pow2((ld - 1) as nat);
    let nl = pow2((ln - 1) as nat);
    lemma_up_down(k);
    lemma_below_step(n, d, pow2(p), k);
    if k >= 0 {
        let u = up(k);
        assert(c * (dl * u) * 2 == nl) by {
            lemma_pow2_adds((ld - 1) as nat, k as nat);
            lemma_pow2_adds((p - 1) as nat, (ld - 1 + k) as nat);
            if k == 0 {
                lemma2_to64();
            }
            lemma_half((ln - 1) as nat);
        }
        assert(c * (d * u) <= nl) by (nonlinear_arith)
            requires
                d < 2 * dl,
                c * (dl * u) * 2 == nl,
                c >= 1,
                u >= 1,
        ;
        assert(2 * nl <= (4 * c) * (d * u)) by (nonlinear_arith)
            requires
                dl <= d,
                c * (dl * u) * 2 == nl,
                c >= 1,
                u >= 1,
        ;
        assert(d * u < 2 * nl) by (nonlinear_arith)
            requires
                c * (d * u) <= nl,
                c >= 1,
                nl >= 1,
                d * u >= 0,
        ;
    } else {
        let w = down(k);
        assert(nl * w == 2 * c * dl) by {
            lemma_pow2_adds((ln - 1) as nat, (-k) as nat);
            lemma_pow2_adds(p, (ld - 1) as nat);
        }
        assert(c * d <= n * w) by (nonlinear_arith)
            requires
                nl <= n,
                d < 2 * dl,
                nl * w == 2 * c * dl,
                w >= 1,
                c >= 1,
        ;
        assert(n * w < (4 * c) * d) by (nonlinear_arith)
            requires
                n < 2 * nl,
                dl <= d,
                nl * w == 2 * c * dl,
                w >= 1,
                c >= 1,
        ;
        lemma_pow2_adds(ld, p);
        assert((4 * c) * dl == pow2(ld) * pow2(p)) by (nonlinear_arith)
            requires
                pow2(ld) == 2 * dl,
                pow2(p) == 2 * c,
        ;
        assert(n * w < 4 * c * dl) by (nonlinear_arith)
            requires
                n < 2 * nl,
                nl * w == 2 * c * dl,
                w >= 1,
        ;
    }
}

/// `n / d < 2^j * 2^k` and `n / d < 2^(j + k)` say the same.
pub proof fn lemma_below_power(n: nat, d: nat, j: nat, k: int)
    ensures
        below(n, d, pow2(j), k) <==> below(n, d, 1, k + j),
    decreases j,
{
    if j == 0 {
        lemma2_to64();
    } else {
        lemma_half(j);
        lemma_below_step(n, d, pow2((j - 1) as nat), k);
        lemma_below_power(n, d, (j - 1) as nat, k + 1);
    }
}

/// A value between `2^a` and `2^b` has its `p`-bit exponent between `a` and `b`, both
/// lowered by the mantissa's width.
pub proof fn lemma_scale_between(p: nat, n: nat, d: nat, a: int, b: int)
    requires
        p > 0,
        n > 0,
        d > 0,
        !below(n, d, 1, a),
        below(n, d, 1, b),
    ensures
        a - p + 1 <= scale(p, n, d) <= b - p,
{
    lemma_below_power(n, d, (p - 1) as nat, a - p + 1);
    lemma_below_power(n, d, p, b - p);
    lemma_scale_bounds(p, n, d, a - p + 1, b - p);
}

/// The exponent of an integer between `2^a` and `2^b`.
pub proof fn lemma_scale_integer(p: nat, n: nat, a: nat, b: nat)
    requires
        p > 0,
        pow2(a) <= n < pow2(b),
    ensures
        a - p + 1 <= scale(p, n, 1) <= b - p,
{
    lemma_pow2_pos(a);
    lemma2_to64();
    lemma_scale_between(p, n, 1, a as int, b as int);
}

/// A rounded value other than zero has a mantissa of `p` bits, or the next power of two.
pub proof fn lemma_nearest_mantissa(p: nat, n: int, d: nat)
    requires
        p > 0,
        n != 0,
        d > 0,
    ensures
        pow2((p - 1) as nat) <= abs(nearest(p, n, d).m) <= pow2(p),
        nearest(p, n, d).m < 0 <==> n < 0,
        nearest(p, n, d).e == scale(p, abs(n), d),
{
    let k = scale(p, abs(n), d);
    lemma_scale_exists(p, abs(n), d);
    lemma_up_down(k);
    lemma_half(p);
    let b = d * up(k);
    let c = pow2((p - 1) as nat);
    assert(b > 0) by (nonlinear_arith)
        requires
            b == d * up(k),
            d > 0,
            up(k) > 0,
    ;
    lemma_round_even_bounds(abs(n) * down(k), b, c);
}

/// Zero, or a double of full width with its exponent between `lo` and `hi`.
pub open spec fn full_width(x: Dyadic, lo: int, hi: int) -> bool {
    ||| x.m == 0 && x.e == 0
    ||| pow2(52) <= abs(x.m) <= pow2(53) && lo <= x.e <= hi
}

/// An integer of `b` bits is zero or a double of full width.
pub proof fn lemma_integer_range(n: int, b: nat)
    requires
        abs(n) < pow2(b),
    ensures
        full_width(integer(53, n), -52, b - 53),
        integer(53, n).m < 0 <==> n < 0,
        integer(53, n).m == 0 <==> n == 0,
{
    if n != 0 {
        lemma2_to64();
        lemma_scale_integer(53, abs(n), 0, b);
        lemma_nearest_mantissa(53, n, 1);
        lemma_pow2_pos(52);
    }
}

/// The exponents of a product.
pub proof fn lemma_product_range(x: Dyadic, y: Dyadic, lx: int, hx: int, ly: int, hy: int)
    requires
        full_width(x, lx, hx),
        full_width(y, ly, hy),
    ensures
        full_width(product(53, x, y), lx + ly + 52, hx + hy + 54),
        product(53, x, y).m == 0 <==> x.m == 0 || y.m == 0,
{
    let n = x.m * y.m;
    if x.m == 0 || y.m == 0 {
        assert(n == 0) by (nonlinear_arith)
            requires
                n == x.m * y.m,
                x.m == 0 || y.m == 0,
        ;
    } else {
        let a = pow2(52);
        let b = pow2(53);
        lemma_pow2_adds(52, 52);
        lemma_pow2_adds(53, 53);
        lemma_pow2_strictly_increases(106, 107);
        lemma_pow2_pos(52);
        lemma_abs_product(x.m, y.m);
        let u = abs(x.m);
        let v = abs(y.m);
        assert(a * a <= u * v <= b * b) by (nonlinear_arith)
            requires
                0 < a <= u <= b,
                a <= v <= b,
        ;
        lemma_scale_integer(53, abs(n), 104, 107);
        lemma_pow2_pos(104);
        lemma_nearest_mantissa(53, n, 1);
    }
}

/// The absolute value of a product.
pub proof fn lemma_abs_product(x: int, y: int)
    ensures
        abs(x * y) == abs(x) * abs(y),
{
    assert(abs(x * y) == abs(x) * abs(y)) by (nonlinear_arith);
}

/// The exponents of a quotient.
pub proof fn lemma_quotient_range(x: Dyadic, y: Dyadic, lx: int, hx: int, ly: int, hy: int)
    requires
        full_width(x, lx, hx),
        full_width(y, ly, hy),
        x.m > 0,
        y.m > 0,
    ensures
        full_width(quotient(53, x, y), lx - hy - 53, hx - ly - 51),
        quotient(53, x, y).m > 0,
{
    let n = x.m as nat;
    let d = y.m as nat;
    lemma_half(53);
    lemma2_to64();
    assert(down(-1) == 2 && up(-1) == 1 && down(2) == 1 && up(2) == 4);
    assert(!below(n, d, 1, -1)) by {
        assert(n * 2 >= 1 * (d * 1));
    }
    assert(below(n, d, 1, 2)) by {
        assert(n * 1 < 1 * (d * 4));
    }
    lemma_scale_between(53, n, d, -1, 2);
    lemma_nearest_mantissa(53, n as int, d);
}

proof fn lemma_round_even_exact(q: nat, b: nat)
    requires
        b > 0,
    ensures
        round_even(q * b, b) == q,
{
    lemma_div_by_multiple(q as int, b as int);
    lemma_mod_multiples_basic(q as int, b as int);
}

/// What is less than a half away from an integer is rounded to it.
pub proof fn lemma_round_even_near(q: nat, b: nat, r: int)
    requires
        q > 0,
        -(b as int) < 2 * r < b,
    ensures
        q * b + r >= 0,
        round_even((q * b + r) as nat, b) == q,
{
    let a = q * b + r;
    assert(q * b >= b) by (nonlinear_arith)
        requires
            q > 0,
    ;
    if r >= 0 {
        assert(b * q == q * b) by (nonlinear_arith);
        lemma_fundamental_div_mod_converse(a, b as int, q as int, r);
    } else {
        let d = (q - 1) as int;
        assert(b * d == q * b - b) by (nonlinear_arith)
            requires
                d == q - 1,
        ;
        lemma_fundamental_div_mod_converse(a, b as int, d, b + r);
    }
}

proof fn lemma_round_even_scaled(a: nat, b: nat, c: nat)
    requires
        b > 0,
        c > 0,
    ensures
        round_even(a * c, b * c) == round_even(a, b),
{
    let q = (a / b) as int;
    let r = (a % b) as int;
    lemma_fundamental_div_mod(a as int, b as int);
    lemma_mod_bound(a as int, b as int);
    let d = (b * c) as int;
    let n = (a * c) as int;
    assert(n == q * d + r * c) by (nonlinear_arith)
        requires
            a == b * q + r,
            d == b * c,
            n == a * c,
    ;
    assert(0 <= r * c < d) by (nonlinear_arith)
        requires
            0 <= r < b,
            c > 0,
            d == b * c,
    ;
    lemma_fundamental_div_mod_converse(n, d, q, r * c);
    assert(2 * (r * c) < d <==> 2 * r < b) by (nonlinear_arith)
        requires
            d == b * c,
            c > 0,
    ;
    assert(2 * (r * c) > d <==> 2 * r > b) by (nonlinear_arith)
        requires
            d == b * c,
            c > 0,
    ;
}

proof fn lemma_below_scaled(v: nat, d: nat, c: nat, k: int, t: nat)
    ensures
        below(v * pow2(t), d, c, k + t) <==> below(v, d, c, k),
{
    let z = pow2(t);
    lemma_pow2_pos(t);
    lemma2_to64();
    lemma_up_down(k);
    lemma_up_down(k + t);
    let w = down(k + t);
    let u = up(k + t);
    let x = down(k);
    let y = up(k);
    assert(z * w * y == u * x) by {
        if k >= 0 {
            lemma_pow2_adds(k as nat, t);
            assert(z * 1 * y == u * 1) by (nonlinear_arith)
                requires
                    u == y * z,
            ;
        } else if k + t >= 0 {
            lemma_pow2_adds((-k) as nat, (k + t) as nat);
            assert(z * 1 * 1 == u * x) by (nonlinear_arith)
                requires
                    z == x * u,
            ;
        } else {
            lemma_pow2_adds((-k - t) as nat, t);
            assert(z * w * 1 == 1 * x) by (nonlinear_arith)
                requires
                    x == w * z,
            ;
        }
    }
    let a = v * z * w;
    assert(a * y == (v * x) * u) by (nonlinear_arith)
        requires
            a == v * z * w,
            z * w * y == u * x,
    ;
    let b = v * x;
    let e = c * d;
    assert(c * (d * u) == e * u && c * (d * y) == e * y) by (nonlinear_arith)
        requires
            e == c * d,
    ;
    assert(a < e * u <==> b < e * y) by (nonlinear_arith)
        requires
            a * y == b * u,
            y > 0,
            u > 0,
    ;
}

/// Rounding does not depend on the scale.
pub proof fn lemma_nearest_scaled(p: nat, n: int, d: nat, t: nat)
    requires
        p > 0,
        d > 0,
    ensures
        nearest(p, n * pow2(t), d) == nearest(p, n, d).shift(t as int),
{
    let z = pow2(t);
    lemma_pow2_pos(t);
    let v = abs(n);
    let s = n * z;
    lemma_abs_product(n, z as int);
    if n == 0 {
        assert(s == 0) by (nonlinear_arith)
            requires
                s == 0 * z,
        ;
    } else {
        assert(s != 0 && (s < 0 <==> n < 0)) by (nonlinear_arith)
            requires
                s == n * z,
                z > 0,
                n != 0,
        ;
        let k = scale(p, v, d);
        lemma_scale_exists(p, v, d);
        lemma_nearest_mantissa(p, n, d);
        lemma_pow2_pos((p - 1) as nat);
        lemma_below_scaled(v, d, pow2(p), k, t);
        lemma_below_scaled(v, d, pow2((p - 1) as nat), k, t);
        let big = v * z;
        lemma_scale_unique(p, big, d, k + t);
        lemma2_to64();
        lemma_up_down(k);
        lemma_up_down(k + t);
        let w = down(k + t);
        let u = up(k + t);
        let x = down(k);
        let y = up(k);
        assert(round_even(big * w, d * u) == round_even(v * x, d * y)) by {
            if k >= 0 {
                assert(u == y * z) by {
                    if k > 0 {
                        lemma_pow2_adds(k as nat, t);
                    } else {
                        assert(1 * z == z);
                    }
                }
                assert(big * 1 == v * z && v * 1 == v);
                assert(d * u == (d * y) * z && d * y > 0) by (nonlinear_arith)
                    requires
                        u == y * z,
                        d > 0,
                        y > 0,
                ;
                lemma_round_even_scaled(v, d * y, z);
            } else if k + t >= 0 {
                lemma_pow2_adds((-k) as nat, (k + t) as nat);
                assert(big * 1 == (v * x) * u) by (nonlinear_arith)
                    requires
                        big == v * z,
                        z == x * u,
                ;
                assert(d * 1 == d);
                lemma_round_even_scaled(v * x, d, u);
            } else {
                lemma_pow2_adds((-k - t) as nat, t);
                assert(big * w == v * x) by (nonlinear_arith)
                    requires
                        big == v * z,
                        x == w * z,
                ;
            }
        }
    }
}

/// Rounding to an integer keeps the order.
proof fn lemma_round_even_ordered(a: nat, c: nat, b: nat)
    requires
        b > 0,
        a <= c,
    ensures
        round_even(a, b) <= round_even(c, b),
{
    lemma_fundamental_div_mod(a as int, b as int);
    lemma_fundamental_div_mod(c as int, b as int);
    lemma_mod_bound(a as int, b as int);
    lemma_mod_bound(c as int, b as int);
    lemma_div_is_ordered(a as int, c as int, b as int);
    let q = a / b;
    let r = c / b;
    if q == r {
        assert(a % b <= c % b);
    }
}

/// Rounding to `p` bits keeps the order of positive quotients, in units of `2^f`.
proof fn lemma_positive_ordered(p: nat, m: nat, n: nat, d: nat, f: int)
    requires
        p > 0,
        d > 0,
        0 < m <= n,
        f <= nearest(p, m as int, d).e,
        f <= nearest(p, n as int, d).e,
    ensures
        nearest(p, m as int, d).at(f) <= nearest(p, n as int, d).at(f),
{
    let x = nearest(p, m as int, d);
    let y = nearest(p, n as int, d);
    lemma_scale_exists(p, m, d);
    lemma_scale_exists(p, n, d);
    lemma_nearest_mantissa(p, m as int, d);
    lemma_nearest_mantissa(p, n as int, d);
    lemma_half(p);
    let j = x.e;
    let k = y.e;
    lemma_up_down(j);
    lemma_up_down(k);
    let half = pow2((p - 1) as nat) as int;
    let a = pow2((j - f) as nat) as int;
    let b = pow2((k - f) as nat) as int;
    lemma_pow2_pos((j - f) as nat);
    lemma_pow2_pos((k - f) as nat);
    if j == k {
        let w = down(k);
        let u = d * up(k);
        assert(m * w <= n * w) by (nonlinear_arith)
            requires
                m <= n,
        ;
        assert(u > 0) by (nonlinear_arith)
            requires
                u == d * up(k),
                d > 0,
                up(k) > 0,
        ;
        lemma_round_even_ordered(m * w, n * w, u);
        assert(x.m * a <= y.m * a) by (nonlinear_arith)
            requires
                x.m <= y.m,
                a > 0,
        ;
    } else if j < k {
        lemma_pow2_mono((j - f + 1) as nat, (k - f) as nat);
        lemma_pow2_adds((j - f) as nat, 1);
        lemma2_to64();
        assert(x.m * a <= y.m * b) by (nonlinear_arith)
            requires
                x.m <= 2 * half,
                y.m >= half,
                b >= 2 * a,
                a > 0,
                half > 0,
        ;
    } else {
        // n is below 2^p 2^k, which is at most 2^(p - 1) 2^j, and that is at most m
        lemma_below_mono(n, d, pow2(p), k, j - 1);
        assert(below(n, d, pow2(p), j - 1));
        lemma_below_step(n, d, pow2((p - 1) as nat), j - 1);
        let w = down(j);
        assert(m * w <= n * w) by (nonlinear_arith)
            requires
                m <= n,
        ;
    }
}

/// Rounding to `p` bits keeps the order, in units of `2^f`.
pub proof fn lemma_nearest_ordered(p: nat, m: int, n: int, d: nat, f: int)
    requires
        p > 0,
        d > 0,
        m <= n,
        f <= 0,
        f <= nearest(p, m, d).e,
        f <= nearest(p, n, d).e,
    ensures
        nearest(p, m, d).at(f) <= nearest(p, n, d).at(f),
{
    let x = nearest(p, m, d);
    let y = nearest(p, n, d);
    let a = pow2((x.e - f) as nat) as int;
    let b = pow2((y.e - f) as nat) as int;
    lemma_pow2_pos((p - 1) as nat);
    if m != 0 {
        lemma_nearest_mantissa(p, m, d);
    }
    if n != 0 {
        lemma_nearest_mantissa(p, n, d);
    }
    if m > 0 {
        lemma_positive_ordered(p, m as nat, n as nat, d, f);
    } else if n < 0 {
        lemma_positive_ordered(p, (-n) as nat, (-m) as nat, d, f);
        let u = nearest(p, -m, d);
        let v = nearest(p, -n, d);
        assert(u == x.negated() && v == y.negated());
        assert((-x.m) * a == -(x.m * a)) by (nonlinear_arith);
        assert((-y.m) * b == -(y.m * b)) by (nonlinear_arith);
    } else {
        assert(x.m <= 0 <= y.m);
        assert(x.m * a <= 0 <= y.m * b) by (nonlinear_arith)
            requires
                x.m <= 0 <= y.m,
                a >= 0,
                b >= 0,
        ;
    }
}

/// An integer of at most `p` significant bits is rounded to itself.
pub proof fn lemma_integer_exact(p: nat, j: nat, t: nat)
    requires
        p > 0,
        0 < j <= pow2(p),
    ensures
        ({
            let n = j * pow2(t);
            let y = integer(p, n as int);
            y.m * up(y.e) == n * down(y.e)
        }),
{
    let n = j * pow2(t);
    lemma_pow2_pos(t);
    assert(n > 0) by (nonlinear_arith)
        requires
            n == j * pow2(t),
            j > 0,
            pow2(t) > 0,
    ;
    let k = scale(p, n, 1);
    lemma_scale_exists(p, n, 1);
    let a = n * down(k);
    let y = integer(p, n as int);
    assert(1 * up(k) == up(k));
    assert(y.e == k && y.m == round_even(a, up(k)));
    if k <= 0 {
        assert(a * 1 == a);
        lemma_round_even_exact(a, 1);
    } else {
        let b = pow2(k as nat);
        assert(a == n * 1 == n);
        lemma_pow2_pos(k as nat);
        lemma_half(p);
        let c = pow2((p - 1) as nat);
        assert(n >= c * b);
        if k <= t {
            let g = pow2((t - k) as nat);
            lemma_pow2_adds((t - k) as nat, k as nat);
            assert(n == (j * g) * b) by (nonlinear_arith)
                requires
                    n == j * pow2(t),
                    pow2(t) == g * b,
            ;
            lemma_round_even_exact(j * g, b);
        } else {
            let h = pow2((k - t) as nat);
            lemma_pow2_adds((k - t) as nat, t);
            lemma_half((k - t) as nat);
            let s = pow2((k - t - 1) as nat);
            let z = pow2(t);
            assert(j >= c * h) by (nonlinear_arith)
                requires
                    j * z >= c * b,
                    b == h * z,
                    z > 0,
            ;
            assert(s == 1) by (nonlinear_arith)
                requires
                    j >= c * h,
                    h == 2 * s,
                    s > 0,
                    j <= 2 * c,
                    c > 0,
            ;
            assert(j == 2 * c) by (nonlinear_arith)
                requires
                    j >= c * h,
                    h == 2 * s,
                    s == 1,
                    j <= 2 * c,
            ;
            assert(n == c * b) by (nonlinear_arith)
                requires
                    n == j * z,
                    j == 2 * c,
                    b == h * z,
                    h == 2 * s,
                    s == 1,
            ;
            lemma_round_even_exact(c, b);
        }
    }
}

/// A quotient that is `j / 2^c`, with `j` of at most `p` significant bits, is rounded to
/// itself.
pub proof fn lemma_nearest_exact(p: nat, n: nat, d: nat, j: nat, c: nat, f: int)
    requires
        p > 0,
        n > 0,
        d > 0,
        0 < j <= pow2(p),
        n * pow2(c) == j * d,
        f <= 0,
        f <= nearest(p, n as int, d).e,
    ensures
        nearest(p, n as int, d).at(f) * pow2(c) == j * pow2((-f) as nat),
{
    let k = scale(p, n, d);
    lemma_scale_exists(p, n, d);
    lemma_half(p);
    let y = nearest(p, n as int, d);
    let w = down(k);
    let u = up(k);
    let a = n * w;
    let b = d * u;
    lemma_up_down(k);
    lemma2_to64();
    let half = pow2((p - 1) as nat);
    let z = pow2(c);
    let h = pow2((k - f) as nat);
    let o = pow2((-f) as nat);
    lemma_pow2_pos(c);
    assert(b > 0) by (nonlinear_arith)
        requires
            b == d * u,
            d > 0,
            u > 0,
    ;
    if c <= -k {
        let g = pow2((-k - c) as nat);
        lemma_pow2_adds((-k - c) as nat, c);
        lemma_pow2_adds((-k) as nat, (k - f) as nat);
        assert(w == g * z);
        assert(a == (j * g) * b) by (nonlinear_arith)
            requires
                a == n * w,
                w == g * z,
                n * z == j * d,
                b == d * 1,
        ;
        lemma_round_even_exact(j * g, b);
        assert((j * g) * h * z == j * o) by (nonlinear_arith)
            requires
                o == (g * z) * h,
        ;
    } else {
        let v = pow2((c + k) as nat);
        lemma_half((c + k) as nat);
        let rest = pow2((c + k - 1) as nat);
        assert(w * v == z * u) by {
            if k <= 0 {
                lemma_pow2_adds((-k) as nat, (c + k) as nat);
            } else {
                lemma_pow2_adds(c, k as nat);
            }
        }
        assert(a * v == j * b) by (nonlinear_arith)
            requires
                a == n * w,
                w * v == z * u,
                n * z == j * d,
                b == d * u,
        ;
        assert(a >= half * b);
        assert(j >= half * v) by (nonlinear_arith)
            requires
                a * v == j * b,
                a >= half * b,
                b > 0,
                v > 0,
        ;
        assert(rest == 1) by (nonlinear_arith)
            requires
                j >= half * v,
                v == 2 * rest,
                rest > 0,
                half > 0,
                j <= 2 * half,
        ;
        assert(j == 2 * half && a == half * b) by (nonlinear_arith)
            requires
                j >= half * v,
                v == 2,
                j <= 2 * half,
                a * v == j * b,
        ;
        lemma_round_even_exact(half, b);
        lemma_pow2_adds((k - f) as nat, c);
        lemma_pow2_adds((c + k) as nat, (-f) as nat);
        assert(half * h * z == j * o) by (nonlinear_arith)
            requires
                h * z == v * o,
                j == 2 * half,
                v == 2,
        ;
    }
}

/// Aligning at `f` a value that is the integer `n`.
pub proof fn lemma_at_integer(y: Dyadic, n: int, f: int)
    requires
        y.m * up(y.e) == n * down(y.e),
        f <= y.e,
        f <= 0,
    ensures
        y.at(f) == n * pow2((-f) as nat),
{
    let g = pow2((y.e - f) as nat) as int;
    let h = pow2((-f) as nat) as int;
    if y.e <= 0 {
        let w = down(y.e) as int;
        lemma2_to64();
        lemma_pow2_adds((y.e - f) as nat, (-y.e) as nat);
        assert(y.m * g == n * h) by (nonlinear_arith)
            requires
                y.m * 1 == n * w,
                h == g * w,
        ;
    } else {
        let u = up(y.e) as int;
        lemma_pow2_adds(y.e as nat, (-f) as nat);
        assert(y.m * g == n * h) by (nonlinear_arith)
            requires
                y.m * u == n * 1,
                g == u * h,
        ;
    }
}

/// The floor of a double bounds its exponent.
pub proof fn lemma_floor_exponent(x: Dyadic)
    requires
        pow2(52) <= x.m <= pow2(53),
    ensures
        x.floor() >= 0,
        x.floor() > 0 ==> x.e >= -53,
        x.floor() < pow2(64) ==> x.e <= 11,
{
    lemma_pow2_pos(52);
    lemma_up_down(x.e);
    if x.e >= 0 {
        let u = up(x.e);
        assert(x.m * u >= 0) by (nonlinear_arith)
            requires
                x.m > 0,
                u > 0,
        ;
        lemma_div_basics(x.m * u);
        if x.e > 11 {
            lemma_pow2_mono(12, x.e as nat);
            lemma_pow2_adds(52, 12);
            assert(x.m * u >= pow2(52) * pow2(12)) by (nonlinear_arith)
                requires
                    x.m >= pow2(52),
                    u >= pow2(12),
            ;
        }
    } else {
        let w = down(x.e) as int;
        assert(x.m * 1 == x.m);
        lemma_div_pos_is_pos(x.m, w);
        if x.e < -53 {
            lemma_pow2_strictly_increases(53, (-x.e) as nat);
            lemma_basic_div(x.m, w);
        }
    }
}

/// The floor of a value that is not negative is not negative.
pub proof fn lemma_floor_sign(x: Dyadic)
    requires
        x.m >= 0,
    ensures
        x.floor() >= 0,
{
    lemma_up_down(x.e);
    let a = x.m * up(x.e);
    assert(a >= 0) by (nonlinear_arith)
        requires
            a == x.m * up(x.e),
            x.m >= 0,
    ;
    lemma_div_pos_is_pos(a, down(x.e) as int);
}

/// Rounding to an integer keeps the sign.
pub proof fn lemma_round_sign(x: Dyadic)
    ensures
        x.m >= 0 ==> x.round() >= 0,
        x.m <= 0 ==> x.round() <= 0,
{
    lemma_up_down(x.e);
    let a = 2 * abs(x.m) * up(x.e);
    assert(a >= 0) by (nonlinear_arith)
        requires
            a == 2 * abs(x.m) * up(x.e),
    ;
    lemma_div_pos_is_pos((a + down(x.e)) as int, 2 * down(x.e) as int);
    if x.m == 0 {
        assert(a == 0) by (nonlinear_arith)
            requires
                a == 2 * 0 * up(x.e),
        ;
        lemma_basic_div(down(x.e) as int, 2 * down(x.e) as int);
    }
}

/// Taking its floor away from a double leaves zero or a double between zero and one.
pub proof fn lemma_fraction_range(x: Dyadic)
    requires
        full_width(x, -66, 72),
        x.m >= 0,
    ensures
        full_width(difference(53, x, integer(53, x.floor())), -105, -53),
        difference(53, x, integer(53, x.floor())).m >= 0,
{
    lemma2_to64();
    lemma2_to64_rest();
    let q = x.floor();
    let y = integer(53, q);
    let d = difference(53, x, y);
    lemma_pow2_pos(52);
    if x.m == 0 {
        assert(0 * up(0) == 0);
        assert(q == 0);
        assert(0 * pow2(0) == 0 && (-0) * pow2(0) == 0);
    } else {
        lemma_floor_exponent(x);
        lemma_up_down(x.e);
        let z = y.negated();
        let f = if x.e < y.e {
            x.e
        } else {
            y.e
        };
        let n = x.at(f) + z.at(f);
        assert(z.at(f) == -y.at(f)) by (nonlinear_arith)
            requires
                z.at(f) == (-y.m) * pow2((y.e - f) as nat),
                y.at(f) == y.m * pow2((y.e - f) as nat),
        ;
        assert(d == nearest(53, n, 1).shift(f));
        if x.e >= 0 {
            lemma_whole_difference(x);
        } else {
            lemma_split_difference(x);
            if n != 0 {
                assert(below(n as nat, 1, 1, -f)) by {
                    assert(n * 1 == n);
                    assert(1 * (1 * up(-f)) == up(-f));
                }
                if q == 0 {
                    assert(y.at(f) == 0) by (nonlinear_arith)
                        requires
                            y.at(f) == 0 * pow2((y.e - f) as nat),
                    ;
                    assert(x.at(f) == x.m) by (nonlinear_arith)
                        requires
                            x.at(f) == x.m * pow2(0),
                            pow2(0) == 1,
                    ;
                    assert(!below(n as nat, 1, 1, 52)) by {
                        assert(n * 1 == n);
                        assert(1 * (1 * up(52)) == up(52));
                    }
                    lemma_scale_between(53, n as nat, 1, 52, -f);
                } else {
                    lemma_integer_range(q, 64);
                    assert(!below(n as nat, 1, 1, 0)) by {
                        assert(n * 1 == n);
                    }
                    lemma_scale_between(53, n as nat, 1, 0, -f);
                }
                lemma_nearest_mantissa(53, n, 1);
            }
        }
    }
}

proof fn lemma_whole_difference(x: Dyadic)
    requires
        pow2(52) <= x.m <= pow2(53),
        x.e >= 0,
    ensures
        ({
            let y = integer(53, x.floor());
            let f = if x.e < y.e {
                x.e
            } else {
                y.e
            };
            x.at(f) == y.at(f)
        }),
{
    lemma2_to64();
    let u = pow2(x.e as nat) as int;
    let q = x.m * u;
    assert(up(x.e) == u && down(x.e) == 1);
    lemma_div_basics(q);
    assert(x.floor() == q);
    let y = integer(53, q);
    lemma_pow2_pos(52);
    lemma_integer_exact(53, x.m as nat, x.e as nat);
    lemma_pow2_pos(x.e as nat);
    lemma_pow2_exceeds(q as nat);
    assert(q >= x.m) by (nonlinear_arith)
        requires
            q == x.m * u,
            x.m > 0,
            u >= 1,
    ;
    lemma_scale_integer(53, q as nat, 52, q as nat);
    let f = if x.e < y.e {
        x.e
    } else {
        y.e
    };
    let v = pow2(y.e as nat) as int;
    assert(y.m * v == q) by {
        assert(q * 1 == q);
    }
    let g = pow2(f as nat) as int;
    lemma_pow2_pos(f as nat);
    let a = pow2((x.e - f) as nat) as int;
    let b = pow2((y.e - f) as nat) as int;
    lemma_pow2_adds((x.e - f) as nat, f as nat);
    lemma_pow2_adds((y.e - f) as nat, f as nat);
    assert(x.m * a == y.m * b) by (nonlinear_arith)
        requires
            x.m * u == y.m * v,
            u == a * g,
            v == b * g,
            g > 0,
    ;
}

proof fn lemma_split_difference(x: Dyadic)
    requires
        pow2(52) <= x.m <= pow2(53),
        x.e < 0,
    ensures
        ({
            let y = integer(53, x.floor());
            let f = if x.e < y.e {
                x.e
            } else {
                y.e
            };
            f < 0 && 0 <= x.at(f) - y.at(f) < pow2((-f) as nat)
        }),
{
    lemma2_to64();
    lemma_half(53);
    let w = pow2((-x.e) as nat) as int;
    lemma_half((-x.e) as nat);
    assert(x.m * 1 == x.m);
    let q = x.floor();
    assert(q == x.m / w);
    let r = x.m % w;
    lemma_fundamental_div_mod(x.m, w);
    lemma_mod_bound(x.m, w);
    lemma_div_pos_is_pos(x.m, w);
    assert(2 * q <= x.m) by (nonlinear_arith)
        requires
            x.m == w * q + r,
            w >= 2,
            r >= 0,
            q >= 0,
    ;
    let y = integer(53, q);
    if q > 0 {
        assert(q * pow2(0) == q) by (nonlinear_arith)
            requires
                pow2(0) == 1,
        ;
        lemma_integer_exact(53, q as nat, 0);
        lemma_scale_integer(53, q as nat, 0, 53);
    } else {
        assert(0 * up(0) == 0 && 0 * down(0) == 0);
    }
    let f = if x.e < y.e {
        x.e
    } else {
        y.e
    };
    lemma_at_integer(y, q, f);
    let h = pow2((-f) as nat) as int;
    let a = pow2((x.e - f) as nat) as int;
    lemma_pow2_pos((x.e - f) as nat);
    lemma_pow2_adds((x.e - f) as nat, (-x.e) as nat);
    assert(x.m * a == q * h + r * a) by (nonlinear_arith)
        requires
            x.m == w * q + r,
            h == a * w,
    ;
    assert(0 <= r * a < h) by (nonlinear_arith)
        requires
            0 <= r < w,
            h == a * w,
            a > 0,
    ;
}

/// One as a double.
pub proof fn lemma_one()
    ensures
        integer(53, 1) == (Dyadic { m: pow2(52) as int, e: -52 }),
{
    lemma2_to64();
    lemma_scale_integer(53, 1, 0, 1);
    let w = pow2(52);
    lemma_pow2_pos(52);
    assert(w * 1 == w && 1 * w == w);
    lemma_round_even_exact(w, 1);
}

/// What a double from zero to one leaves of one.
pub proof fn lemma_complement_range(w: Dyadic)
    requires
        full_width(w, -105, -53),
        w.m >= 0,
    ensures
        full_width(difference(53, integer(53, 1), w), -105, -52),
        difference(53, integer(53, 1), w).m >= 0,
{
    lemma2_to64();
    lemma2_to64_rest();
    lemma_one();
    let one = integer(53, 1);
    let z = w.negated();
    let d = difference(53, one, w);
    if w.m == 0 {
        let g = pow2(52);
        assert(z.at(-52) == 0) by (nonlinear_arith)
            requires
                z.at(-52) == (-0) * pow2(52),
        ;
        assert(one.at(-52) == g) by (nonlinear_arith)
            requires
                one.at(-52) == g * pow2(0),
                pow2(0) == 1,
        ;
        assert(d == nearest(53, g as int, 1).shift(-52));
        lemma_scale_integer(53, g, 52, 53);
        lemma_nearest_mantissa(53, g as int, 1);
    } else {
        let f = w.e;
        let h = pow2((-f) as nat) as int;
        lemma_pow2_adds(52, (-52 - f) as nat);
        assert(one.at(f) == h);
        assert(z.at(f) == -w.m) by (nonlinear_arith)
            requires
                z.at(f) == (-w.m) * pow2(0),
                pow2(0) == 1,
        ;
        let n = h - w.m;
        assert(d == nearest(53, n, 1).shift(f));
        lemma_pow2_mono(53, (-f) as nat);
        if n != 0 {
            assert(below(n as nat, 1, 1, -f)) by {
                assert(n * 1 == n);
                assert(1 * (1 * up(-f)) == up(-f));
            }
            if f == -53 {
                assert(!below(n as nat, 1, 1, 0)) by {
                    assert(n * 1 == n);
                }
                lemma_scale_between(53, n as nat, 1, 0, -f);
            } else {
                lemma_half((-f) as nat);
                lemma_pow2_mono(53, (-f - 1) as nat);
                assert(!below(n as nat, 1, 1, -f - 1)) by {
                    assert(n * 1 == n);
                    assert(1 * (1 * up(-f - 1)) == up(-f - 1));
                }
                lemma_scale_between(53, n as nat, 1, -f - 1, -f);
            }
            lemma_nearest_mantissa(53, n, 1);
        }
    }
}

/// Rounding moves an integer quotient by at most a half.
proof fn lemma_round_even_error(a: nat, b: nat)
    requires
        b > 0,
    ensures
        2 * abs(round_even(a, b) * b - a) <= b,
{
    let q = (a / b) as int;
    let r = (a % b) as int;
    lemma_fundamental_div_mod(a as int, b as int);
    lemma_mod_bound(a as int, b as int);
    assert(a == b * q + r);
    assert(q * b == b * q) by (nonlinear_arith);
    assert((q + 1) * b == b * q + b) by (nonlinear_arith);
}

/// The relative error of rounding is at most one part in `2^p`. Both sides are measured
/// in units of `2^f`.
pub proof fn lemma_nearest_error(p: nat, n: nat, d: nat, s: int, f: int)
    requires
        p > 0,
        n > 0,
        d > 0,
        f <= s,
        f <= nearest(p, n as int, d).shift(s).e,
    ensures
        ({
            let z = nearest(p, n as int, d).shift(s);
            let x = n * pow2((s - f) as nat);
            pow2(p) * abs(z.at(f) * d - x) <= x
        }),
{
    let y = nearest(p, n as int, d);
    let k = y.e;
    lemma_scale_exists(p, n, d);
    lemma_nearest_mantissa(p, n as int, d);
    lemma_half(p);
    let c = pow2((p - 1) as nat);
    let m = y.m;
    let a = n * down(k);
    let b = d * up(k);
    lemma_up_down(k);
    assert(b > 0) by (nonlinear_arith)
        requires
            b == d * up(k),
            d > 0,
            up(k) > 0,
    ;
    lemma_round_even_error(a, b);
    let err = m * b - a;
    assert(2 * abs(err) <= b);
    assert(c * b <= a);
    assert((2 * c) * abs(err) <= a) by (nonlinear_arith)
        requires
            2 * abs(err) <= b,
            c * b <= a,
            c > 0,
    ;
    let z = y.shift(s);
    assert(z.e == k + s);
    let g = pow2((k + s - f) as nat);
    lemma_pow2_pos((k + s - f) as nat);
    let t = pow2((s - f) as nat);
    lemma_pow2_pos((s - f) as nat);
    let x = n * t;
    let delta = z.at(f) * d - x;
    if k >= 0 {
        let u = up(k);
        assert(g == u * t) by {
            if k == 0 {
                assert(1 * t == t);
            } else {
                lemma_pow2_adds(k as nat, (s - f) as nat);
            }
        }
        assert(delta == err * t) by (nonlinear_arith)
            requires
                delta == (m * g) * d - n * t,
                g == u * t,
                err == m * (d * u) - n * 1,
        ;
        lemma_abs_product(err, t as int);
        assert((2 * c) * abs(delta) <= x) by (nonlinear_arith)
            requires
                abs(delta) == abs(err) * t,
                (2 * c) * abs(err) <= n * 1,
                x == n * t,
                t > 0,
        ;
    } else {
        let w = down(k);
        assert(t == w * g) by {
            lemma_pow2_adds((-k) as nat, (k + s - f) as nat);
        }
        assert(delta == err * g) by (nonlinear_arith)
            requires
                delta == (m * g) * d - n * t,
                t == w * g,
                err == m * (d * 1) - n * w,
        ;
        lemma_abs_product(err, g as int);
        assert((2 * c) * abs(delta) <= x) by (nonlinear_arith)
            requires
                abs(delta) == abs(err) * g,
                (2 * c) * abs(err) <= n * w,
                x == n * t,
                t == w * g,
                g > 0,
        ;
    }
}

/// The relative error of taking an integer for a `p`-bit value, in units of `2^f`.
pub proof fn lemma_integer_error(p: nat, n: nat, f: int)
    requires
        p > 0,
        n > 0,
        f <= 0,
        f <= integer(p, n as int).e,
    ensures
        pow2(p) * abs(integer(p, n as int).at(f) - n * pow2((-f) as nat)) <= n * pow2((-f) as nat),
{
    lemma_nearest_error(p, n, 1, 0, f);
    let z = integer(p, n as int);
    lemma_nearest_mantissa(p, n as int, 1);
    lemma_half(p);
    assert(z.shift(0) == z);
    assert(z.at(f) * 1 == z.at(f));
}

/// The relative error of rounding a scaled integer of either sign, in units of `2^f`.
pub proof fn lemma_signed_error(p: nat, n: int, s: int, f: int)
    requires
        p > 0,
        f <= s,
        n != 0 ==> f <= nearest(p, n, 1).shift(s).e,
    ensures
        ({
            let x = n * pow2((s - f) as nat);
            pow2(p) * abs(nearest(p, n, 1).shift(s).at(f) - x) <= abs(x)
        }),
{
    let z = nearest(p, n, 1).shift(s);
    let t = pow2((s - f) as nat) as int;
    let x = n * t;
    if n == 0 {
        assert(x == 0) by (nonlinear_arith)
            requires
                x == 0 * t,
        ;
        let g = pow2((0 - f) as nat);
        assert(z.at(f) == 0) by (nonlinear_arith)
            requires
                z.at(f) == 0 * g,
        ;
        assert(pow2(p) * 0 == 0);
    } else if n > 0 {
        lemma_nearest_mantissa(p, n, 1);
        lemma_nearest_error(p, n as nat, 1, s, f);
        assert(z.at(f) * 1 == z.at(f));
        assert(x >= 0) by (nonlinear_arith)
            requires
                x == n * t,
                n > 0,
                t >= 0,
        ;
    } else {
        let y = nearest(p, -n, 1).shift(s);
        lemma_nearest_mantissa(p, n, 1);
        lemma_nearest_mantissa(p, -n, 1);
        lemma_pow2_pos((p - 1) as nat);
        assert(y.e == z.e && y.m == -z.m);
        lemma_nearest_error(p, (-n) as nat, 1, s, f);
        assert(y.at(f) * 1 == y.at(f));
        let g = pow2((z.e - f) as nat);
        assert(y.at(f) == -z.at(f)) by (nonlinear_arith)
            requires
                y.at(f) == y.m * g,
                z.at(f) == z.m * g,
                y.m == -z.m,
        ;
        assert((-n) * t == -x) by (nonlinear_arith)
            requires
                x == n * t,
        ;
        assert(x <= 0) by (nonlinear_arith)
            requires
                x == n * t,
                n < 0,
                t >= 0,
        ;
    }
}

/// Rounding to `p` bits does not depend on the sign.
pub proof fn lemma_nearest_negated(p: nat, n: int)
    ensures
        nearest(p, -n, 1) == nearest(p, n, 1).negated(),
{
}

/// A quotient of a negated number.
pub proof fn lemma_quotient_negated(p: nat, x: Dyadic, y: Dyadic)
    ensures
        quotient(p, x.negated(), y) == quotient(p, x, y).negated(),
{
}

/// A product with one factor negated.
pub proof fn lemma_product_negated(p: nat, x: Dyadic, y: Dyadic)
    ensures
        product(p, x, y.negated()) == product(p, x, y).negated(),
{
    let n = x.m * y.m;
    assert(x.m * (-y.m) == -n) by (nonlinear_arith)
        requires
            n == x.m * y.m,
    ;
    lemma_nearest_negated(p, n);
}

/// A product with the other factor negated.
pub proof fn lemma_negated_product(p: nat, x: Dyadic, y: Dyadic)
    ensures
        product(p, x.negated(), y) == product(p, x, y).negated(),
{
    let n = x.m * y.m;
    assert((-x.m) * y.m == -n) by (nonlinear_arith)
        requires
            n == x.m * y.m,
    ;
    lemma_nearest_negated(p, n);
}

/// A sum with both terms negated.
pub proof fn lemma_sum_negated(p: nat, x: Dyadic, y: Dyadic)
    ensures
        sum(p, x.negated(), y.negated()) == sum(p, x, y).negated(),
{
    let f = if x.e < y.e {
        x.e
    } else {
        y.e
    };
    let a = pow2((x.e - f) as nat) as int;
    let b = pow2((y.e - f) as nat) as int;
    assert((-x.m) * a == -(x.m * a)) by (nonlinear_arith);
    assert((-y.m) * b == -(y.m * b)) by (nonlinear_arith);
    lemma_nearest_negated(p, x.at(f) + y.at(f));
}

/// Rounding to an integer does not depend on the sign.
pub proof fn lemma_round_negated(x: Dyadic)
    ensures
        x.negated().round() == -x.round(),
{
    if x.m == 0 {
        lemma_round_sign(x);
    }
}

/// An integer has no more than `p - 1` bits of its value behind the binary point.
pub proof fn lemma_nearest_exponent(p: nat, n: int)
    requires
        p > 0,
        n != 0,
    ensures
        nearest(p, n, 1).e > -p,
{
    lemma2_to64();
    lemma_pow2_exceeds(abs(n));
    lemma_scale_integer(p, abs(n), 0, abs(n));
}

/// The relative error of a product of values of either sign, in units of `2^f`.
pub proof fn lemma_signed_product_error(p: nat, x: Dyadic, y: Dyadic, f: int)
    requires
        p > 0,
        f <= 0,
        f <= x.e,
        f <= y.e,
        f <= x.e + y.e,
        f <= product(p, x, y).e,
    ensures
        ({
            let exact = x.at(f) * y.at(f);
            pow2(p) * abs(product(p, x, y).at(f) * pow2((-f) as nat) - exact) <= abs(exact)
        }),
{
    let z = product(p, x, y);
    let n = x.m * y.m;
    lemma_signed_error(p, n, x.e + y.e, f);
    let h = pow2((-f) as nat) as int;
    lemma_pow2_pos((-f) as nat);
    let g = pow2((x.e + y.e - f) as nat) as int;
    let a = pow2((x.e - f) as nat) as int;
    let b = pow2((y.e - f) as nat) as int;
    lemma_pow2_adds((x.e + y.e - f) as nat, (-f) as nat);
    lemma_pow2_adds((x.e - f) as nat, (y.e - f) as nat);
    let exact = x.at(f) * y.at(f);
    let part = n * g;
    assert(exact == part * h) by (nonlinear_arith)
        requires
            exact == (x.m * a) * (y.m * b),
            part == (x.m * y.m) * g,
            a * b == g * h,
    ;
    let delta = z.at(f) - part;
    let t = pow2(p);
    lemma_abs_product(delta, h);
    lemma_abs_product(part, h);
    assert(delta * h == z.at(f) * h - exact) by (nonlinear_arith)
        requires
            delta == z.at(f) - part,
            exact == part * h,
    ;
    assert(t * abs(delta * h) <= abs(exact)) by (nonlinear_arith)
        requires
            abs(delta * h) == abs(delta) * h,
            abs(exact) == abs(part) * h,
            t * abs(delta) <= abs(part),
            h > 0,
    ;
}

/// The relative error of a product of positive values, in units of `2^f`.
pub proof fn lemma_product_error(p: nat, x: Dyadic, y: Dyadic, f: int)
    requires
        p > 0,
        x.m > 0,
        y.m > 0,
        f <= 0,
        f <= x.e,
        f <= y.e,
        f <= x.e + y.e,
        f <= product(p, x, y).e,
    ensures
        ({
            let exact = x.at(f) * y.at(f);
            pow2(p) * abs(product(p, x, y).at(f) * pow2((-f) as nat) - exact) <= exact
        }),
{
    lemma_signed_product_error(p, x, y, f);
    let a = pow2((x.e - f) as nat) as int;
    let b = pow2((y.e - f) as nat) as int;
    let exact = x.at(f) * y.at(f);
    assert(exact >= 0) by (nonlinear_arith)
        requires
            exact == (x.m * a) * (y.m * b),
            x.m > 0,
            y.m > 0,
            a >= 0,
            b >= 0,
    ;
}

/// The relative error of a sum, in units of `2^f`.
pub proof fn lemma_sum_error(p: nat, x: Dyadic, y: Dyadic, f: int)
    requires
        p > 0,
        f <= x.e - p,
        f <= y.e - p,
    ensures
        ({
            let exact = x.at(f) + y.at(f);
            pow2(p) * abs(sum(p, x, y).at(f) - exact) <= abs(exact)
        }),
{
    let s = if x.e < y.e {
        x.e
    } else {
        y.e
    };
    let n = x.at(s) + y.at(s);
    if n != 0 {
        lemma_nearest_exponent(p, n);
        lemma_nearest_mantissa(p, n, 1);
        lemma_pow2_pos((p - 1) as nat);
    }
    lemma_signed_error(p, n, s, f);
    let t = pow2((s - f) as nat) as int;
    let a = pow2((x.e - s) as nat) as int;
    let b = pow2((y.e - s) as nat) as int;
    lemma_pow2_adds((x.e - s) as nat, (s - f) as nat);
    lemma_pow2_adds((y.e - s) as nat, (s - f) as nat);
    let c = pow2((x.e - f) as nat) as int;
    let d = pow2((y.e - f) as nat) as int;
    assert(n * t == x.m * c + y.m * d) by (nonlinear_arith)
        requires
            n == x.m * a + y.m * b,
            c == a * t,
            d == b * t,
    ;
}

/// The relative error of a quotient, in units of `2^f`.
pub proof fn lemma_quotient_error(p: nat, x: Dyadic, y: Dyadic, f: int)
    requires
        p > 0,
        x.m > 0,
        y.m > 0,
        f <= 0,
        f <= x.e,
        f <= y.e,
        f <= x.e - y.e,
        f <= quotient(p, x, y).e,
    ensures
        ({
            let exact = x.at(f) * pow2((-f) as nat);
            pow2(p) * abs(quotient(p, x, y).at(f) * y.at(f) - exact) <= exact
        }),
{
    let z = quotient(p, x, y);
    lemma_nearest_error(p, x.m as nat, y.m as nat, x.e - y.e, f);
    let h = pow2((-f) as nat) as int;
    let g = pow2((x.e - y.e - f) as nat) as int;
    let a = pow2((x.e - f) as nat) as int;
    let b = pow2((y.e - f) as nat) as int;
    lemma_pow2_pos((y.e - f) as nat);
    lemma_pow2_adds((x.e - y.e - f) as nat, (y.e - f) as nat);
    lemma_pow2_adds((x.e - f) as nat, (-f) as nat);
    let exact = x.at(f) * h;
    assert(exact == x.m * g * b) by (nonlinear_arith)
        requires
            exact == (x.m * a) * h,
            a * h == g * b,
    ;
    let delta = z.at(f) * y.m - x.m * g;
    let t = pow2(p);
    lemma_abs_product(delta, b);
    assert(delta * b == z.at(f) * y.at(f) - exact) by (nonlinear_arith)
        requires
            delta == z.at(f) * y.m - x.m * g,
            y.at(f) == y.m * b,
            exact == x.m * g * b,
    ;
    assert(t * abs(delta * b) <= exact) by (nonlinear_arith)
        requires
            abs(delta * b) == abs(delta) * b,
            t * abs(delta) <= x.m * g,
            exact == x.m * g * b,
            b > 0,
    ;
}

/// Rounding to an integer moves a value by at most a half.
pub proof fn lemma_round_at(x: Dyadic, f: int)
    requires
        x.m >= 0,
        f <= 0,
        f <= x.e,
    ensures
        2 * x.at(f) - pow2((-f) as nat) <= 2 * (x.round() * pow2((-f) as nat)) <= 2 * x.at(f)
            + pow2((-f) as nat),
{
    let h = pow2((-f) as nat) as int;
    let g = pow2((x.e - f) as nat) as int;
    lemma_pow2_pos((-f) as nat);
    lemma_pow2_pos((x.e - f) as nat);
    let r = x.round();
    if x.e >= 0 {
        let u = up(x.e) as int;
        let a = x.m * u;
        assert(2 * x.m * u == 2 * a) by (nonlinear_arith)
            requires
                a == x.m * u,
        ;
        assert((2 * a + 1) / 2 == a);
        assert(r == a);
        assert(g == u * h) by {
            if x.e == 0 {
                assert(1 * h == h);
            } else {
                lemma_pow2_adds(x.e as nat, (-f) as nat);
            }
        }
        assert(r * h == x.m * g) by (nonlinear_arith)
            requires
                r == x.m * u,
                g == u * h,
        ;
    } else {
        let w = down(x.e) as int;
        lemma_pow2_adds((-x.e) as nat, (x.e - f) as nat);
        lemma_pow2_pos((-x.e) as nat);
        let a = 2 * x.m + w;
        assert(2 * x.m * 1 == 2 * x.m);
        assert(r == a / (2 * w));
        lemma_fundamental_div_mod(a, 2 * w);
        lemma_mod_bound(a, 2 * w);
        let rest = a % (2 * w);
        assert(2 * (r * h) == (a - rest) * g) by (nonlinear_arith)
            requires
                a == (2 * w) * r + rest,
                h == w * g,
        ;
        assert(a * g == 2 * (x.m * g) + h) by (nonlinear_arith)
            requires
                a == 2 * x.m + w,
                h == w * g,
        ;
        assert((a - rest) * g == a * g - rest * g) by (nonlinear_arith);
        assert(0 <= rest * g < 2 * h) by (nonlinear_arith)
            requires
                0 <= rest < 2 * w,
                h == w * g,
                g > 0,
        ;
    }
}

/// Rounding to an integer moves a value of either sign by at most a half.
pub proof fn lemma_signed_round_at(x: Dyadic, f: int)
    requires
        f <= 0,
        f <= x.e,
    ensures
        2 * x.at(f) - pow2((-f) as nat) <= 2 * (x.round() * pow2((-f) as nat)) <= 2 * x.at(f)
            + pow2((-f) as nat),
{
    if x.m >= 0 {
        lemma_round_at(x, f);
    } else {
        let y = x.negated();
        lemma_round_at(y, f);
        let h = pow2((-f) as nat) as int;
        let g = pow2((x.e - f) as nat) as int;
        assert(y.at(f) == -x.at(f)) by (nonlinear_arith)
            requires
                y.at(f) == (-x.m) * g,
                x.at(f) == x.m * g,
        ;
        let r = x.round();
        assert(y.round() * h == -(r * h)) by (nonlinear_arith)
            requires
                y.round() == -r,
        ;
    }
}

/// Rounding a value that is not negative to an integer, in units of `2^f`.
proof fn lemma_round_formula(x: Dyadic, f: int)
    requires
        x.m >= 0,
        f <= 0,
        f <= x.e,
    ensures
        x.round() == (2 * x.at(f) + pow2((-f) as nat)) / (2 * pow2((-f) as nat) as int),
{
    let h = pow2((-f) as nat) as int;
    let g = pow2((x.e - f) as nat) as int;
    lemma_pow2_pos((-f) as nat);
    lemma_pow2_pos((x.e - f) as nat);
    let r = x.round();
    let n = 2 * x.at(f) + h;
    if x.e >= 0 {
        let u = up(x.e) as int;
        let a = x.m * u;
        assert(2 * x.m * u == 2 * a) by (nonlinear_arith)
            requires
                a == x.m * u,
        ;
        assert((2 * a + 1) / 2 == a);
        assert(g == u * h) by {
            if x.e == 0 {
                assert(1 * h == h);
            } else {
                lemma_pow2_adds(x.e as nat, (-f) as nat);
            }
        }
        assert(n == r * (2 * h) + h) by (nonlinear_arith)
            requires
                n == 2 * (x.m * g) + h,
                r == x.m * u,
                g == u * h,
        ;
        lemma_fundamental_div_mod_converse(n, 2 * h, r, h);
    } else {
        let w = down(x.e) as int;
        lemma_pow2_adds((-x.e) as nat, (x.e - f) as nat);
        lemma_pow2_pos((-x.e) as nat);
        let a = 2 * x.m + w;
        assert(2 * x.m * 1 == 2 * x.m);
        lemma_fundamental_div_mod(a, 2 * w);
        lemma_mod_bound(a, 2 * w);
        let rest = a % (2 * w);
        assert(n == a * g) by (nonlinear_arith)
            requires
                n == 2 * (x.m * g) + h,
                a == 2 * x.m + w,
                h == w * g,
        ;
        assert(a * g == r * (2 * h) + rest * g) by (nonlinear_arith)
            requires
                a == (2 * w) * r + rest,
                h == w * g,
        ;
        assert(0 <= rest * g < 2 * h) by (nonlinear_arith)
            requires
                0 <= rest < 2 * w,
                h == w * g,
                g > 0,
        ;
        lemma_fundamental_div_mod_converse(n, 2 * h, r, rest * g);
    }
}

/// Rounding to an integer keeps the order.
pub proof fn lemma_round_ordered(x: Dyadic, y: Dyadic, f: int)
    requires
        f <= 0,
        f <= x.e,
        f <= y.e,
        x.at(f) <= y.at(f),
    ensures
        x.round() <= y.round(),
{
    let h = pow2((-f) as nat) as int;
    lemma_pow2_pos((-f) as nat);
    let a = pow2((x.e - f) as nat) as int;
    let b = pow2((y.e - f) as nat) as int;
    lemma_pow2_pos((x.e - f) as nat);
    lemma_pow2_pos((y.e - f) as nat);
    lemma_round_sign(x);
    lemma_round_sign(y);
    assert((x.m < 0 <==> x.m * a < 0) && (y.m < 0 <==> y.m * b < 0)) by (nonlinear_arith)
        requires
            a > 0,
            b > 0,
    ;
    if x.m >= 0 {
        lemma_round_formula(x, f);
        lemma_round_formula(y, f);
        lemma_div_is_ordered(2 * x.at(f) + h, 2 * y.at(f) + h, 2 * h);
    } else if y.m < 0 {
        let u = x.negated();
        let v = y.negated();
        assert((-x.m) * a == -(x.m * a)) by (nonlinear_arith);
        assert((-y.m) * b == -(y.m * b)) by (nonlinear_arith);
        lemma_round_formula(u, f);
        lemma_round_formula(v, f);
        lemma_div_is_ordered(2 * v.at(f) + h, 2 * u.at(f) + h, 2 * h);
        lemma_round_negated(x);
        lemma_round_negated(y);
    }
}

/// A product, from its factors in units of `2^f`.
pub proof fn lemma_product_at(p: nat, x: Dyadic, y: Dyadic, f: int)
    requires
        p > 0,
        f <= x.e,
        f <= y.e,
    ensures
        product(p, x, y) == nearest(p, x.at(f) * y.at(f), 1).shift(2 * f),
{
    let n = x.m * y.m;
    let t = (x.e + y.e - 2 * f) as nat;
    lemma_nearest_scaled(p, n, 1, t);
    lemma_pow2_adds((x.e - f) as nat, (y.e - f) as nat);
    let a = pow2((x.e - f) as nat) as int;
    let b = pow2((y.e - f) as nat) as int;
    assert(n * (a * b) == (x.m * a) * (y.m * b)) by (nonlinear_arith)
        requires
            n == x.m * y.m,
    ;
}

/// A sum, from its terms in units of `2^f`.
pub proof fn lemma_sum_at(p: nat, x: Dyadic, y: Dyadic, f: int)
    requires
        p > 0,
        f <= x.e,
        f <= y.e,
    ensures
        sum(p, x, y) == nearest(p, x.at(f) + y.at(f), 1).shift(f),
{
    let s = if x.e < y.e {
        x.e
    } else {
        y.e
    };
    let n = x.at(s) + y.at(s);
    lemma_nearest_scaled(p, n, 1, (s - f) as nat);
    let t = pow2((s - f) as nat) as int;
    let a = pow2((x.e - s) as nat) as int;
    let b = pow2((y.e - s) as nat) as int;
    lemma_pow2_adds((x.e - s) as nat, (s - f) as nat);
    lemma_pow2_adds((y.e - s) as nat, (s - f) as nat);
    let c = pow2((x.e - f) as nat) as int;
    let d = pow2((y.e - f) as nat) as int;
    assert(n * t == x.m * c + y.m * d) by (nonlinear_arith)
        requires
            n == x.m * a + y.m * b,
            c == a * t,
            d == b * t,
    ;
}

/// A shifted value, in units that are shifted as well.
pub proof fn lemma_shift_at(x: Dyadic, k: int, f: int)
    requires
        f <= x.e,
        k + f <= 0,
        x.m == 0 ==> x.e == 0,
    ensures
        x.shift(k).at(k + f) == x.at(f),
        k + f <= x.shift(k).e,
{
    if x.m == 0 {
        let a = pow2((x.e - (k + f)) as nat) as int;
        let b = pow2((x.e - f) as nat) as int;
        assert(0 * a == 0 && 0 * b == 0) by (nonlinear_arith);
    }
}

/// The floor is at most the value, and less than one below it.
pub proof fn lemma_floor_at(x: Dyadic, f: int)
    requires
        x.m >= 0,
        f <= 0,
        f <= x.e,
    ensures
        x.floor() * pow2((-f) as nat) <= x.at(f) < (x.floor() + 1) * pow2((-f) as nat),
{
    let h = pow2((-f) as nat) as int;
    let g = pow2((x.e - f) as nat) as int;
    lemma_pow2_pos((-f) as nat);
    lemma_pow2_pos((x.e - f) as nat);
    let q = x.floor();
    if x.e >= 0 {
        let u = up(x.e) as int;
        lemma_div_basics(x.m * u);
        assert(g == u * h) by {
            if x.e == 0 {
                assert(1 * h == h);
            } else {
                lemma_pow2_adds(x.e as nat, (-f) as nat);
            }
        }
        assert(q * h == x.m * g && q * h < (q + 1) * h) by (nonlinear_arith)
            requires
                q == x.m * u,
                g == u * h,
                h > 0,
        ;
    } else {
        let w = down(x.e) as int;
        lemma_pow2_adds((-x.e) as nat, (x.e - f) as nat);
        lemma_pow2_pos((-x.e) as nat);
        assert(x.m * 1 == x.m);
        lemma_fundamental_div_mod(x.m, w);
        lemma_mod_bound(x.m, w);
        let rest = x.m % w;
        assert(q * h <= x.m * g < (q + 1) * h) by (nonlinear_arith)
            requires
                x.m == w * q + rest,
                0 <= rest < w,
                h == w * g,
                g > 0,
        ;
    }
}

/// An integer of at most `p` bits is its own `p`-bit value.
pub proof fn lemma_exact_integer_at(p: nat, n: nat, f: int)
    requires
        p > 0,
        0 < n <= pow2(p),
        f <= 0,
        f <= integer(p, n as int).e,
    ensures
        integer(p, n as int).at(f) == n * pow2((-f) as nat),
{
    lemma2_to64();
    assert(n * pow2(0) == n) by (nonlinear_arith)
        requires
            pow2(0) == 1,
    ;
    lemma_integer_exact(p, n, 0);
    lemma_at_integer(integer(p, n as int), n as int, f);
}

/// A small integer is its own double.
pub proof fn lemma_small_integer_at(n: nat, f: int)
    requires
        0 < n <= pow2(53),
        f <= -52,
    ensures
        integer(53, n as int).at(f) == n * pow2((-f) as nat),
{
    lemma_half(54);
    lemma_pow2_pos(53);
    lemma_integer_range(n as int, 54);
    lemma_exact_integer_at(53, n, f);
}

proof fn lemma_mantissa(p: nat)
    requires
        0 < p <= 53,
    ensures
        pow2(p) <= 0x20_0000_0000_0000,
{
    lemma2_to64_rest();
    if p < 53 {
        lemma_pow2_strictly_increases(p, 53);
    }
}

proof fn lemma_sizes(p: nat, ln: nat, ld: nat)
    requires
        0 < p <= 53,
        ln > 0,
        ld > 0,
        pow2((ln - 1) as nat) < pow2(126),
        pow2((ld - 1) as nat) < pow2(64),
    ensures
        ln <= 126,
        ld <= 64,
        pow2(ln) <= pow2(126),
        pow2(ld) <= pow2(64),
        pow2(ld + p) <= pow2(117),
        2 * (pow2(117) + pow2(126)) <= u128::MAX,
        2 * (pow2(64) + pow2(126)) <= u128::MAX,
{
    lemma_big_powers();
    if ln > 126 {
        lemma_pow2_mono(126, (ln - 1) as nat);
    }
    if ld > 64 {
        lemma_pow2_mono(64, (ld - 1) as nat);
    }
    lemma_pow2_mono(ln, 126);
    lemma_pow2_mono(ld, 64);
    lemma_pow2_mono(ld + p, 117);
}

proof fn lemma_big_powers()
    ensures
        pow2(64) == 0x1_0000_0000_0000_0000,
        pow2(117) == 0x20_0000_0000_0000_0000_0000_0000_0000,
        pow2(126) == 0x4000_0000_0000_0000_0000_0000_0000_0000,
{
    lemma2_to64();
    lemma2_to64_rest();
    lemma_pow2_adds(64, 53);
    lemma_pow2_adds(64, 62);
}

/// Powers of two grow with the exponent.
pub proof fn lemma_pow2_mono(a: nat, b: nat)
    requires
        a <= b,
    ensures
        0 < pow2(a) <= pow2(b),
{
    lemma_pow2_pos(a);
    if a < b {
        lemma_pow2_strictly_increases(a, b);
    }
}

proof fn lemma_shl(k: u32)
    requires
        k <= 126,
    ensures
        (1u128 << k) == pow2(k as nat),
    decreases k,
{
    if k == 0 {
        assert(1u128 << 0u32 == 1u128) by (bit_vector);
        lemma2_to64();
    } else {
        let j = (k - 1) as u32;
        lemma_shl(j);
        lemma_pow2_unfold(k as nat);
        assert((1u128 << k) == 2 * (1u128 << j)) by (bit_vector)
            requires
                0 < k <= 126,
                j == k - 1,
        ;
    }
}

/// `2^k`.
pub fn power(k: u32) -> (r: u128)
    requires
        k <= 126,
    ensures
        r == pow2(k as nat),
        r > 0,
{
    proof {
        lemma_shl(k);
        lemma_pow2_pos(k as nat);
    }
    1u128 << k
}

proof fn lemma_length_step(n: nat, x: nat, r: nat, s: nat)
    requires
        x * pow2(r) <= n < (x + 1) * pow2(r),
    ensures
        (x / pow2(s)) * pow2(r + s) <= n < (x / pow2(s) + 1) * pow2(r + s),
{
    lemma_pow2_adds(r, s);
    lemma_pow2_pos(s);
    lemma_pow2_pos(r);
    let c = pow2(s);
    let b = pow2(r);
    let q = x / c;
    lemma_fundamental_div_mod(x as int, c as int);
    lemma_mod_bound(x as int, c as int);
    assert(c * q <= x && x + 1 <= c * q + c);
    assert(q * (b * c) <= x * b) by (nonlinear_arith)
        requires
            c * q <= x,
            b > 0,
    ;
    assert((x + 1) * b <= (q + 1) * (b * c)) by (nonlinear_arith)
        requires
            x + 1 <= c * q + c,
            b > 0,
    ;
}

/// The number of bits that a positive `n` takes.
fn bit_length(n: u128) -> (r: u32)
    requires
        0 < n < pow2(127),
    ensures
        1 <= r <= 127,
        pow2((r - 1) as nat) <= n < pow2(r as nat),
{
    let mut x: u128 = n;
    let mut r: u32 = 0;
    let mut w: u32 = 128;
    proof {
        lemma_pow2_strictly_increases(127, 128);
        lemma2_to64();
    }
    while w > 1
        invariant
            w == 128 || w == 64 || w == 32 || w == 16 || w == 8 || w == 4 || w == 2 || w == 1,
            r + w <= 128,
            1 <= x < pow2(w as nat),
            x * pow2(r as nat) <= n < (x + 1) * pow2(r as nat),
        decreases w,
    {
        let s: u32 = w / 2;
        let c = power(s);
        proof {
            lemma_length_step(n as nat, x as nat, r as nat, s as nat);
            lemma_pow2_adds(s as nat, s as nat);
            lemma_fundamental_div_mod(x as int, c as int);
            lemma_mod_bound(x as int, c as int);
            let q = x as int / c as int;
            let rest = x as int % c as int;
            if x >= c {
                assert(q >= 1) by (nonlinear_arith)
                    requires
                        x as int == c as int * q + rest,
                        rest < c as int,
                        x >= c,
                        c > 0,
                ;
            }
            assert(q < c as int) by (nonlinear_arith)
                requires
                    x as int == c as int * q + rest,
                    0 <= rest,
                    x < c as int * c as int,
                    c > 0,
            ;
        }
        if x >= c {
            x = x / c;
            r = r + s;
        }
        w = s;
    }
    proof {
        assert(x == 1);
        lemma_pow2_unfold((r + 1) as nat);
        if r >= 127 {
            lemma_pow2_adds(127, (r - 127) as nat);
            lemma_pow2_pos((r - 127) as nat);
            assert(pow2(127) <= pow2(127) * pow2((r - 127) as nat)) by (nonlinear_arith)
                requires
                    pow2((r - 127) as nat) >= 1,
            ;
        }
    }
    r + 1
}

/// Numerator and denominator of `(n / d) / 2^k`.
fn scaled(n: u128, d: u128, k: i32) -> (r: (u128, u128))
    requires
        -126 <= k <= 126,
        n * down(k as int) <= u128::MAX,
        d * up(k as int) <= u128::MAX,
    ensures
        r.0 == n * down(k as int),
        r.1 == d * up(k as int),
{
    if k > 0 {
        (n, d * power(k as u32))
    } else if k < 0 {
        (n * power((-k) as u32), d)
    } else {
        (n, d)
    }
}

/// The `p`-bit mantissa and the exponent of the value nearest to `n / d`.
fn round_ratio(p: u32, n: u128, d: u128) -> (r: (u64, i32))
    requires
        0 < p <= 53,
        0 < n < pow2(126),
        0 < d < pow2(64),
    ensures
        r.0 == nearest(p as nat, n as int, d as nat).m,
        r.1 == nearest(p as nat, n as int, d as nat).e,
        pow2((p - 1) as nat) <= r.0 <= pow2(p as nat),
        -117 <= r.1 <= 126 - p,
{
    proof {
        lemma_pow2_strictly_increases(126, 127);
        lemma_pow2_strictly_increases(64, 127);
    }
    let ln = bit_length(n);
    let ld = bit_length(d);
    let k0: i32 = ln as i32 - ld as i32 - p as i32;
    proof {
        lemma_candidate(p as nat, n as nat, d as nat, ln as nat, ld as nat);
        lemma_half(p as nat);
        lemma_sizes(p as nat, ln as nat, ld as nat);
        lemma_up_down(k0 as int);
        let c = pow2((p - 1) as nat);
        let t = d * up(k0 as int);
        assert((2 * c) * t == 2 * (c * t)) by (nonlinear_arith);
        assert(d * (2 * up(k0 as int)) == 2 * t) by (nonlinear_arith)
            requires
                t == d * up(k0 as int),
        ;
        assert(n * down(k0 + 1) <= n * down(k0 as int)) by (nonlinear_arith)
            requires
                down(k0 + 1) <= down(k0 as int),
        ;
        lemma_below_step(n as nat, d as nat, c, k0 as int);
    }
    let (a0, b0) = scaled(n, d, k0);
    let k: i32 = if a0 < power(p) * b0 {
        k0
    } else {
        k0 + 1
    };
    let (a, b) = scaled(n, d, k);
    proof {
        let c = pow2((p - 1) as nat);
        assert(is_scale(p as nat, n as nat, d as nat, k as int));
        lemma_scale_unique(p as nat, n as nat, d as nat, k as int);
        lemma_up_down(k as int);
        let u = up(k as int);
        assert(d * u > 0) by (nonlinear_arith)
            requires
                d > 0,
                u > 0,
        ;
        lemma_round_even_bounds(a as nat, b as nat, c);
        lemma_mantissa(p as nat);
    }
    let q: u128 = a / b;
    let rest: u128 = a % b;
    let m: u128 = if rest < b - rest {
        q
    } else if rest > b - rest {
        q + 1
    } else {
        q + q % 2
    };
    (m as u64, k)
}

proof fn lemma_limit()
    ensures
        pow2(53) == MANTISSA_LIMIT,
        MANTISSA_LIMIT < pow2(64),
        MANTISSA_LIMIT < pow2(126),
{
    lemma2_to64();
    lemma2_to64_rest();
    lemma_pow2_mono(64, 126);
}

proof fn lemma_product_size(x: int, y: int)
    requires
        -MANTISSA_LIMIT <= x <= MANTISSA_LIMIT,
        -MANTISSA_LIMIT <= y <= MANTISSA_LIMIT,
    ensures
        abs(x * y) < pow2(126),
        i128::MIN < x * y <= i128::MAX,
{
    lemma_big_powers();
    let l = MANTISSA_LIMIT as int;
    assert(-(l * l) <= x * y <= l * l) by (nonlinear_arith)
        requires
            -l <= x <= l,
            -l <= y <= l,
            l >= 0,
    ;
    lemma_limit();
    lemma_pow2_adds(53, 53);
    lemma_pow2_strictly_increases(106, 126);
}

proof fn lemma_aligned_size(x: int, k: nat)
    requires
        -MANTISSA_LIMIT <= x <= MANTISSA_LIMIT,
        k <= 120,
        x == 0 || k <= 72,
    ensures
        2 * abs(x * pow2(k)) <= pow2(126),
        k == 0 ==> x * pow2(k) == x,
        0 < pow2(k) <= i128::MAX,
{
    lemma_big_powers();
    lemma_limit();
    lemma_pow2_mono(k, 126);
    lemma2_to64();
    if k == 0 {
        assert(x * pow2(k) == x) by (nonlinear_arith)
            requires
                pow2(k) == 1,
        ;
    }
    if x != 0 {
        lemma_pow2_mono(k, 72);
        lemma_pow2_adds(53, 72);
        lemma_half(126);
        let c = pow2(k) as int;
        let t = pow2(72) as int;
        let l = MANTISSA_LIMIT as int;
        assert(-(l * t) <= x * c <= l * t) by (nonlinear_arith)
            requires
                -l <= x <= l,
                0 < c <= t,
        ;
    } else {
        assert(0 * pow2(k) == 0);
    }
}

/// A value `mantissa * 2^exponent`.
#[derive(Clone, Copy, Debug)]
pub struct Binary {
    pub mantissa: i64,
    pub exponent: i32,
}

impl View for Binary {
    type V = Dyadic;

    open spec fn view(&self) -> Dyadic {
        Dyadic { m: self.mantissa as int, e: self.exponent as int }
    }
}

/// The largest mantissa that an operation takes.
pub const MANTISSA_LIMIT: i64 = 0x20_0000_0000_0000;

/// The largest exponent, up or down, that an operation takes.
pub const EXPONENT_LIMIT: i32 = 1000;

impl Binary {
    /// Whether the operations below take this value.
    pub open spec fn in_limits(self) -> bool {
        &&& -MANTISSA_LIMIT <= self.mantissa <= MANTISSA_LIMIT
        &&& -EXPONENT_LIMIT <= self.exponent <= EXPONENT_LIMIT
    }

    /// The `p`-bit value nearest to `(n / d) * 2^k`.
    fn nearest(p: u32, n: i128, d: u128, k: i32) -> (r: Binary)
        requires
            0 < p <= 53,
            abs(n as int) < pow2(126),
            0 < d < pow2(64),
            -3 * EXPONENT_LIMIT <= k <= 3 * EXPONENT_LIMIT,
        ensures
            r@ == nearest(p as nat, n as int, d as nat).shift(k as int),
            -MANTISSA_LIMIT <= r.mantissa <= MANTISSA_LIMIT,
            n == 0 || k - 117 <= r.exponent <= k + 126 - p,
            n == 0 ==> r.exponent == 0,
    {
        proof {
            lemma_mantissa(p as nat);
            lemma_big_powers();
            lemma_half(p as nat);
        }
        if n == 0 {
            Binary { mantissa: 0, exponent: 0 }
        } else if n > 0 {
            let (m, e) = round_ratio(p, n as u128, d);
            Binary { mantissa: m as i64, exponent: e + k }
        } else {
            let (m, e) = round_ratio(p, (-n) as u128, d);
            Binary { mantissa: -(m as i64), exponent: e + k }
        }
    }

    /// The integer `n` as a `p`-bit value.
    pub fn integer(p: u32, n: i128) -> (r: Binary)
        requires
            0 < p <= 53,
            abs(n as int) < pow2(126),
        ensures
            r@ == integer(p as nat, n as int),
            r.in_limits(),
    {
        proof {
            lemma2_to64();
            lemma_pow2_mono(1, 64);
        }
        Binary::nearest(p, n, 1, 0)
    }

    /// `self * other`, rounded to `p` bits.
    pub fn times(self, p: u32, other: Binary) -> (r: Binary)
        requires
            0 < p <= 53,
            self.in_limits(),
            other.in_limits(),
        ensures
            r@ == product(p as nat, self@, other@),
            -MANTISSA_LIMIT <= r.mantissa <= MANTISSA_LIMIT,
            r.exponent == 0 || r.exponent >= self.exponent + other.exponent - 117,
    {
        proof {
            lemma_product_size(self.mantissa as int, other.mantissa as int);
            lemma2_to64();
            lemma_pow2_mono(1, 64);
        }
        Binary::nearest(
            p,
            self.mantissa as i128 * other.mantissa as i128,
            1,
            self.exponent + other.exponent,
        )
    }

    /// `self / other`, rounded to `p` bits.
    pub fn over(self, p: u32, other: Binary) -> (r: Binary)
        requires
            0 < p <= 53,
            self.in_limits(),
            other.in_limits(),
            other.mantissa > 0,
        ensures
            r@ == quotient(p as nat, self@, other@),
            -MANTISSA_LIMIT <= r.mantissa <= MANTISSA_LIMIT,
            r.exponent == 0 || self.exponent - other.exponent - 117 <= r.exponent <= self.exponent
                - other.exponent + 126 - p,
    {
        proof {
            lemma_limit();
        }
        Binary::nearest(
            p,
            self.mantissa as i128,
            other.mantissa as u128,
            self.exponent - other.exponent,
        )
    }

    /// `self + other`, rounded to `p` bits.
    pub fn plus(self, p: u32, other: Binary) -> (r: Binary)
        requires
            0 < p <= 53,
            self.in_limits(),
            other.in_limits(),
            -120 <= self.exponent - other.exponent <= 120,
            self.mantissa == 0 || self.exponent - other.exponent <= 72,
            other.mantissa == 0 || other.exponent - self.exponent <= 72,
        ensures
            r@ == sum(p as nat, self@, other@),
            -MANTISSA_LIMIT <= r.mantissa <= MANTISSA_LIMIT,
            r.exponent == 0 || r.exponent >= self.exponent - 237,
            r.exponent <= 0 || r.exponent <= self.exponent + 126 - p && r.exponent
                <= other.exponent + 126 - p,
    {
        let f: i32 = if self.exponent < other.exponent {
            self.exponent
        } else {
            other.exponent
        };
        proof {
            lemma_aligned_size(self.mantissa as int, (self.exponent - f) as nat);
            lemma_aligned_size(other.mantissa as int, (other.exponent - f) as nat);
            lemma2_to64();
            lemma_pow2_mono(1, 64);
            lemma_big_powers();
            lemma_limit();
        }
        let a: i128 = self.mantissa as i128 * power((self.exponent - f) as u32) as i128;
        let b: i128 = other.mantissa as i128 * power((other.exponent - f) as u32) as i128;
        Binary::nearest(p, a + b, 1, f)
    }

    /// `self - other`, rounded to `p` bits.
    pub fn minus(self, p: u32, other: Binary) -> (r: Binary)
        requires
            0 < p <= 53,
            self.in_limits(),
            other.in_limits(),
            -120 <= self.exponent - other.exponent <= 120,
            self.mantissa == 0 || self.exponent - other.exponent <= 72,
            other.mantissa == 0 || other.exponent - self.exponent <= 72,
        ensures
            r@ == difference(p as nat, self@, other@),
            -MANTISSA_LIMIT <= r.mantissa <= MANTISSA_LIMIT,
            r.exponent == 0 || r.exponent >= self.exponent - 237,
            r.exponent <= 0 || r.exponent <= self.exponent + 126 - p && r.exponent
                <= other.exponent + 126 - p,
    {
        self.plus(p, Binary { mantissa: -other.mantissa, exponent: other.exponent })
    }

    /// The greatest integer not above `self`, which is not negative.
    pub fn floor(self) -> (r: u128)
        requires
            self.in_limits(),
            self.mantissa >= 0,
            self.exponent <= 72,
        ensures
            r == self@.floor(),
    {
        let m: u128 = self.mantissa as u128;
        if self.exponent >= 0 {
            proof {
                lemma_aligned_size(self.mantissa as int, self.exponent as nat);
                lemma2_to64();
                lemma_big_powers();
            }
            m * power(self.exponent as u32)
        } else if self.exponent >= -126 {
            m / power((-self.exponent) as u32)
        } else {
            proof {
                lemma_limit();
                lemma_pow2_mono(126, (-self.exponent) as nat);
                lemma_basic_div(m as int, pow2((-self.exponent) as nat) as int);
            }
            0
        }
    }

    /// The integer nearest to `self`, the one further from zero of two that are
    /// equally near.
    pub fn round(self) -> (r: i128)
        requires
            self.in_limits(),
            self.exponent <= 72,
        ensures
            r == self@.round(),
    {
        let m: u128 = if self.mantissa < 0 {
            (-(self.mantissa as i128)) as u128
        } else {
            self.mantissa as u128
        };
        let a: u128 = if self.exponent >= 0 {
            proof {
                lemma_aligned_size(self.mantissa as int, self.exponent as nat);
                lemma_aligned_size(m as int, self.exponent as nat);
                lemma2_to64();
                lemma_big_powers();
                let t = m * up(self.exponent as int);
                assert(2 * m * up(self.exponent as int) == 2 * t) by (nonlinear_arith)
                    requires
                        t == m * up(self.exponent as int),
                ;
            }
            m * power(self.exponent as u32)
        } else if self.exponent >= -125 {
            let c = power((-self.exponent) as u32);
            proof {
                lemma_big_powers();
                lemma_limit();
                lemma_pow2_mono((-self.exponent) as nat, 125);
                lemma_half(126);
                lemma_div_nonincreasing(2 * m + c, 2 * c as int);
            }
            (2 * m + c) / (2 * c)
        } else {
            proof {
                lemma_limit();
                lemma_big_powers();
                lemma_pow2_mono(126, (-self.exponent) as nat);
                let c = pow2((-self.exponent) as nat) as int;
                lemma_basic_div(2 * m as int + c, 2 * c);
            }
            0
        };
        proof {
            assert(abs(self.mantissa as int) == m);
            let s = (2 * m) * up(self.exponent as int);
            let w = down(self.exponent as int);
            if self.exponent < 0 {
                assert(s == 2 * m) by (nonlinear_arith)
                    requires
                        s == (2 * m) * up(self.exponent as int),
                        up(self.exponent as int) == 1,
                ;
            }
            if self.exponent >= 0 {
                assert((2 * a + 1) / 2 == a as int);
            }
            assert(a == (s + w) / (2 * w as int));
            assert(a <= i128::MAX);
        }
        if self.mantissa < 0 {
            -(a as i128)
        } else {
            a as i128
        }
    }
}

/// Half way between two mantissas it is the even one that is taken.
pub proof fn lemma_tie_to_even(p: nat, j: nat, k: nat)
    requires
        p > 0,
        k > 0,
        pow2((p - 1) as nat) <= j < pow2(p),
    ensures
        ({
            let x = nearest(p, ((2 * j + 1) * pow2((k - 1) as nat)) as int, 1);
            &&& x.e == k
            &&& x.m == j || x.m == j + 1
            &&& x.m % 2 == 0
        }),
{
    let h = pow2((k - 1) as nat);
    let b = pow2(k);
    lemma_half(k);
    lemma_pow2_pos((k - 1) as nat);
    let n = (2 * j + 1) * h;
    let q = pow2((p - 1) as nat);
    let t = pow2(p);
    assert(n == j * b + h) by (nonlinear_arith)
        requires
            n == (2 * j + 1) * h,
            b == 2 * h,
    ;
    assert(q * b <= n < t * b) by (nonlinear_arith)
        requires
            n == j * b + h,
            b == 2 * h,
            h > 0,
            q <= j,
            j + 1 <= t,
    ;
    assert(n * 1 == n && 1 * b == b);
    assert(is_scale(p, n, 1, k as int));
    lemma_scale_unique(p, n, 1, k as int);
    assert(b * j == j * b) by (nonlinear_arith);
    lemma_fundamental_div_mod_converse(n as int, b as int, j as int, h as int);
    assert(n > 0) by (nonlinear_arith)
        requires
            n == j * b + h,
            h > 0,
    ;
}

/// Half way between two integers it is the one further from zero that is taken.
pub proof fn lemma_half_away(j: int)
    ensures
        j >= 0 ==> (Dyadic { m: 2 * j + 1, e: -1 }).round() == j + 1,
        j < 0 ==> (Dyadic { m: 2 * j + 1, e: -1 }).round() == j,
{
    lemma2_to64();
    let x = Dyadic { m: 2 * j + 1, e: -1 };
    assert(up(-1) == 1 && down(-1) == 2);
    let a = abs(x.m) as int;
    assert(2 * a * 1 == 2 * a);
    assert((2 * a + 2) / 4 == if j >= 0 {
        j + 1
    } else {
        -j
    });
}

} // verus!
