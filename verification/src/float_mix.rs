//! Mixing of interleaved single-precision frames down to mono.
//!
//! A sample is given by its bits, as IEEE 754 lays them out.

use crate::binary;
use crate::binary::{Binary, SINGLE};
use crate::downmix;
use crate::resample;
use crate::resample::to_sample;
use crate::single;
use vstd::arithmetic::power2::*;
use vstd::prelude::*;

verus! {

/// A single-precision number. A finite one is counted in units of `2^-149`, of which
/// every one is a whole number.
pub ghost enum Level {
    Finite(int),
    /// Beyond the range, below zero or above.
    Infinite(bool),
    NotANumber,
}

/// The size of a finite number, in units of `2^-149`.
pub open spec fn magnitude(exponent: int, fraction: int) -> int {
    if exponent == 0 {
        fraction
    } else {
        (0x80_0000 + fraction) * pow2((exponent - 1) as nat)
    }
}

/// What the bits of a single-precision number say.
pub open spec fn level(bits: u32) -> Level {
    let negative = bits >= 0x8000_0000;
    let exponent = bits as int / 0x80_0000 % 0x100;
    let fraction = bits as int % 0x80_0000;
    if exponent == 0xff {
        if fraction == 0 {
            Level::Infinite(negative)
        } else {
            Level::NotANumber
        }
    } else if negative {
        Level::Finite(-magnitude(exponent, fraction))
    } else {
        Level::Finite(magnitude(exponent, fraction))
    }
}

/// `n` units, rounded to single precision.
pub open spec fn narrowed(n: int) -> Level {
    if binary::abs(single::rounded(n)) >= pow2(277) {
        Level::Infinite(n < 0)
    } else {
        Level::Finite(single::rounded(n))
    }
}

/// `x + y`, rounded.
pub open spec fn plus(x: Level, y: Level) -> Level {
    match (x, y) {
        (Level::Finite(a), Level::Finite(b)) => narrowed(a + b),
        (Level::Infinite(a), Level::Finite(_)) => Level::Infinite(a),
        (Level::Finite(_), Level::Infinite(b)) => Level::Infinite(b),
        (Level::Infinite(a), Level::Infinite(b)) => if a == b {
            Level::Infinite(a)
        } else {
            Level::NotANumber
        },
        _ => Level::NotANumber,
    }
}

/// The sum of a frame, added up from its first sample on.
pub open spec fn total_f32(frame: Seq<u32>) -> Level
    decreases frame.len(),
{
    if frame.len() == 0 {
        Level::Finite(0)
    } else {
        plus(total_f32(frame.drop_last()), level(frame.last()))
    }
}

/// `total / channels` in units of `2^-149`, rounded. The range of exponents is not bounded
/// below: a share that is too small for it is silence in any case.
pub open spec fn share(total: int, channels: nat) -> binary::Dyadic {
    binary::quotient(24, binary::integer(24, total), binary::integer(24, channels as int))
}

/// Whether a number of units is one or more, or minus one or less.
pub open spec fn full_scale(x: binary::Dyadic) -> bool {
    binary::abs(x.m) * binary::up(x.e) >= pow2(149) * binary::down(x.e)
}

/// The sample for a number of units: 32767 stands for one.
pub open spec fn scaled(x: binary::Dyadic) -> i16 {
    if full_scale(x) {
        peak(x.m < 0)
    } else {
        resample::clamp(
            binary::product(24, x.shift(-149), binary::integer(24, 32767)).round(),
        )
    }
}

/// The sample for one, or for minus one.
pub open spec fn peak(negative: bool) -> i16 {
    if negative {
        (-32767) as i16
    } else {
        32767
    }
}

/// The sample for the average of a frame whose sum is `total`.
pub open spec fn average(total: Level, channels: nat) -> i16 {
    match total {
        Level::Finite(n) => scaled(share(n, channels)),
        Level::Infinite(negative) => peak(negative),
        Level::NotANumber => 0,
    }
}

/// The average of each whole frame.
pub open spec fn mono_f32(data: Seq<u32>, channels: nat) -> Seq<i16> {
    Seq::new(
        data.len() / channels,
        |k: int| average(total_f32(downmix::frame(data, channels, k)), channels),
    )
}

/// A number under way: `mantissa * 2^exponent` units.
#[derive(Clone, Copy)]
enum Sum {
    Finite { mantissa: i64, exponent: u32 },
    Infinite(bool),
    NotANumber,
}

impl Sum {
    spec fn view(self) -> Level {
        match self {
            Sum::Finite { mantissa, exponent } => Level::Finite(mantissa * pow2(exponent as nat)),
            Sum::Infinite(negative) => Level::Infinite(negative),
            Sum::NotANumber => Level::NotANumber,
        }
    }

    /// The mantissa has no more than 24 bits, and no fewer if the exponent can be lowered.
    spec fn normal(self) -> bool {
        match self {
            Sum::Finite { mantissa, exponent } => {
                &&& -0x100_0000 <= mantissa <= 0x100_0000
                &&& exponent > 0 ==> binary::abs(mantissa as int) >= 0x80_0000
                &&& exponent <= 253
                &&& binary::abs(mantissa * pow2(exponent as nat)) < pow2(277)
            },
            _ => true,
        }
    }
}

/// Which numbers are too large for single precision.
proof fn lemma_overflow(m: int, e: nat)
    requires
        binary::abs(m) <= 0x100_0000,
        e > 0 ==> binary::abs(m) >= 0x80_0000,
    ensures
        binary::abs(m * pow2(e)) >= pow2(277) <==> e >= 254 || e == 253 && binary::abs(m)
            == 0x100_0000,
{
    single::lemma_powers();
    lemma2_to64();
    lemma_pow2_pos(e);
    let u = pow2(e) as int;
    let a = binary::abs(m) as int;
    binary::lemma_abs_product(m, u);
    lemma_pow2_adds(23, 254);
    lemma_pow2_adds(24, 253);
    if e >= 254 {
        binary::lemma_pow2_mono(254, e);
        assert(a * u >= pow2(23) * pow2(254)) by (nonlinear_arith)
            requires
                a >= 0x80_0000,
                pow2(23) == 0x80_0000,
                u >= pow2(254),
        ;
    } else {
        binary::lemma_pow2_mono(e, 253);
        lemma_pow2_pos(253);
        let t = pow2(253) as int;
        if e == 253 {
            if a < 0x100_0000 {
                assert(a * t < 0x100_0000 * t) by (nonlinear_arith)
                    requires
                        a < 0x100_0000,
                        t > 0,
                ;
            }
        } else {
            binary::lemma_pow2_mono(e, 252);
            lemma_pow2_adds(252, 1);
            assert(a * u < 0x100_0000 * t) by (nonlinear_arith)
                requires
                    a <= 0x100_0000,
                    2 * u <= t,
                    u > 0,
            ;
        }
    }
}

/// The number with these parts, or what it overflows to.
fn bounded(mantissa: i64, exponent: u32) -> (r: Sum)
    requires
        -0x100_0000 <= mantissa <= 0x100_0000,
        exponent > 0 ==> binary::abs(mantissa as int) >= 0x80_0000,
        exponent <= 1000,
    ensures
        r.normal(),
        r.view() == if binary::abs(mantissa * pow2(exponent as nat)) >= pow2(277) {
            Level::Infinite(mantissa < 0)
        } else {
            Level::Finite(mantissa * pow2(exponent as nat))
        },
{
    proof {
        lemma_overflow(mantissa as int, exponent as nat);
    }
    if exponent >= 254 || exponent == 253 && (mantissa == 0x100_0000 || mantissa == -0x100_0000) {
        Sum::Infinite(mantissa < 0)
    } else {
        Sum::Finite { mantissa, exponent }
    }
}

/// The number that the bits of a sample say.
fn decode(bits: u32) -> (r: Sum)
    ensures
        r.view() == level(bits),
        r.normal(),
{
    let negative = bits >= 0x8000_0000;
    let exponent: u32 = bits / 0x80_0000 % 0x100;
    let fraction: u32 = bits % 0x80_0000;
    if exponent == 0xff {
        if fraction == 0 {
            Sum::Infinite(negative)
        } else {
            Sum::NotANumber
        }
    } else {
        let size: i64 = if exponent == 0 {
            fraction as i64
        } else {
            0x80_0000 + fraction as i64
        };
        let shift: u32 = if exponent == 0 {
            0
        } else {
            exponent - 1
        };
        let mantissa: i64 = if negative {
            -size
        } else {
            size
        };
        proof {
            lemma2_to64();
            lemma_overflow(mantissa as int, shift as nat);
            let u = pow2(shift as nat) as int;
            assert(size * 1 == size);
            assert((-size) * u == -(size * u)) by (nonlinear_arith);
        }
        Sum::Finite { mantissa, exponent: shift }
    }
}

/// `n * 2^f` units, rounded.
fn settle(n: i128, f: u32) -> (r: Sum)
    requires
        -0x4_0000_0000_0000_0000 < n < 0x4_0000_0000_0000_0000,
        f <= 253,
    ensures
        r.view() == narrowed(n * pow2(f as nat)),
        r.normal(),
{
    let ghost value = n * pow2(f as nat);
    proof {
        single::lemma_powers();
        lemma2_to64();
        single::lemma_scaled(n as int, f as nat);
        lemma_pow2_pos(f as nat);
        let u = pow2(f as nat) as int;
        assert(value < 0 <==> n < 0) by (nonlinear_arith)
            requires
                value == n * u,
                u > 0,
        ;
    }
    if -0x100_0000 <= n && n <= 0x100_0000 {
        let mut m: i64 = n as i64;
        let mut e: u32 = if m == 0 {
            0
        } else {
            f
        };
        proof {
            single::lemma_exact(n as int);
            if n == 0 {
                assert(0 * pow2(f as nat) == 0);
            }
        }
        while e > 0 && -0x80_0000 < m && m < 0x80_0000
            invariant
                -0x100_0000 <= m <= 0x100_0000,
                e <= 253,
                m * pow2(e as nat) == value,
                m < 0 <==> n < 0,
            decreases e,
        {
            proof {
                lemma2_to64();
                lemma_pow2_adds((e - 1) as nat, 1);
                let u = pow2((e - 1) as nat) as int;
                assert(m * (u * 2) == (2 * m) * u) by (nonlinear_arith);
            }
            m = 2 * m;
            e = e - 1;
        }
        bounded(m, e)
    } else {
        let ghost z = binary::integer(24, n as int);
        proof {
            binary::lemma_pow2_mono(66, 126);
            lemma_pow2_adds(64, 2);
            single::lemma_wide(n as int);
            binary::lemma_scale_integer(24, binary::abs(n as int), 0, 66);
            lemma_pow2_adds(z.e as nat, f as nat);
            let a = pow2(z.e as nat) as int;
            let b = pow2(f as nat) as int;
            assert((z.m * a) * b == z.m * (a * b)) by (nonlinear_arith);
        }
        let wide = Binary::integer(SINGLE, n);
        bounded(wide.mantissa, f + wide.exponent as u32)
    }
}

proof fn lemma_gap(hm: int, he: nat, lm: int, le: nat)
    requires
        binary::abs(hm) >= 0x80_0000,
        binary::abs(hm) <= 0x100_0000,
        binary::abs(lm) <= 0x100_0000,
        he > le + 40,
    ensures
        single::rounded(hm * pow2(he) + lm * pow2(le)) == hm * pow2(he),
{
    single::lemma_powers();
    lemma_pow2_pos(le);
    binary::lemma_pow2_mono(le + 41, he);
    lemma_pow2_adds(41, le);
    lemma2_to64();
    lemma2_to64_rest();
    let u = pow2(le) as int;
    binary::lemma_abs_product(lm, u);
    let a = binary::abs(lm) as int;
    assert(a * u * 16 < 0x200_0000_0000 * u) by (nonlinear_arith)
        requires
            0 <= a <= 0x100_0000,
            u > 0,
    ;
    single::lemma_lost(hm, he, lm * u);
}

/// The sum of two finite numbers, the first of which has the greater exponent.
fn add_finite(hm: i64, he: u32, lm: i64, le: u32) -> (r: Sum)
    requires
        le <= he,
        (Sum::Finite { mantissa: hm, exponent: he }).normal(),
        (Sum::Finite { mantissa: lm, exponent: le }).normal(),
    ensures
        r.view() == narrowed(hm * pow2(he as nat) + lm * pow2(le as nat)),
        r.normal(),
{
    let gap: u32 = he - le;
    if gap > 40 {
        proof {
            lemma_gap(hm as int, he as nat, lm as int, le as nat);
        }
        Sum::Finite { mantissa: hm, exponent: he }
    } else {
        proof {
            lemma_pow2_adds(gap as nat, le as nat);
            binary::lemma_pow2_mono(gap as nat, 40);
            lemma2_to64();
            lemma2_to64_rest();
            let a = pow2(gap as nat) as int;
            let u = pow2(le as nat) as int;
            assert((hm * a + lm) * u == hm * (a * u) + lm * u) by (nonlinear_arith);
            assert(-0x100_0000 * 0x100_0000_0000 <= hm * a <= 0x100_0000 * 0x100_0000_0000)
                by (nonlinear_arith)
                requires
                    -0x100_0000 <= hm <= 0x100_0000,
                    0 <= a <= 0x100_0000_0000,
            ;
        }
        settle(hm as i128 * binary::power(gap) as i128 + lm as i128, le)
    }
}

/// `x + y`, rounded.
fn add_sums(x: Sum, y: Sum) -> (r: Sum)
    requires
        x.normal(),
        y.normal(),
    ensures
        r.view() == plus(x.view(), y.view()),
        r.normal(),
{
    match (x, y) {
        (
            Sum::Finite { mantissa: a, exponent: d },
            Sum::Finite { mantissa: b, exponent: e },
        ) => if d < e {
            add_finite(b, e, a, d)
        } else {
            add_finite(a, d, b, e)
        },
        (Sum::Infinite(a), Sum::Finite { .. }) => Sum::Infinite(a),
        (Sum::Finite { .. }, Sum::Infinite(b)) => Sum::Infinite(b),
        (Sum::Infinite(a), Sum::Infinite(b)) => if a == b {
            Sum::Infinite(a)
        } else {
            Sum::NotANumber
        },
        _ => Sum::NotANumber,
    }
}

/// Whether a number of units is one or more, or minus one or less.
fn reaches_full_scale(x: Binary) -> (r: bool)
    requires
        x.in_limits(),
        x.mantissa != 0,
    ensures
        r == full_scale(x@),
        !r ==> x.exponent < 149,
{
    let m: u128 = if x.mantissa < 0 {
        (-(x.mantissa as i128)) as u128
    } else {
        x.mantissa as u128
    };
    let e: i32 = x.exponent;
    proof {
        assert(m == binary::abs(x.mantissa as int));
        assert(pow2(149) * 1 == pow2(149) && m * 1 == m);
    }
    if e >= 149 {
        proof {
            binary::lemma_pow2_mono(149, e as nat);
            let u = pow2(e as nat) as int;
            assert(m * u >= u) by (nonlinear_arith)
                requires
                    m >= 1,
                    u >= 0,
            ;
        }
        true
    } else if e < 90 {
        proof {
            lemma_below_full_scale(m as nat, e as int);
        }
        false
    } else {
        proof {
            lemma_pow2_adds((149 - e) as nat, e as nat);
            lemma_pow2_pos(e as nat);
            let u = pow2(e as nat) as int;
            let g = pow2((149 - e) as nat) as int;
            assert(m * u >= g * u <==> m >= g) by (nonlinear_arith)
                requires
                    u > 0,
            ;
        }
        m >= binary::power((149 - e) as u32)
    }
}

proof fn lemma_below_full_scale(m: nat, e: int)
    requires
        m <= binary::MANTISSA_LIMIT,
        e < 90,
    ensures
        m * binary::up(e) < pow2(149) * binary::down(e),
{
    lemma2_to64();
    lemma2_to64_rest();
    lemma_pow2_adds(53, 90);
    binary::lemma_pow2_mono(143, 149);
    binary::lemma_pow2_mono(53, 149);
    lemma_pow2_pos(90);
    lemma_pow2_pos(149);
    let u = binary::up(e) as int;
    let w = binary::down(e) as int;
    if e > 0 {
        binary::lemma_pow2_mono(e as nat, 89);
        lemma_pow2_adds(89, 1);
        lemma_pow2_pos(89);
        let b = pow2(89) as int;
        assert(m * u < pow2(53) * pow2(90)) by (nonlinear_arith)
            requires
                m <= pow2(53),
                0 <= u <= b,
                pow2(90) == b * 2,
                b > 0,
                pow2(53) > 0,
        ;
    } else {
        assert(w >= 1) by {
            if e < 0 {
                lemma_pow2_pos((-e) as nat);
            }
        }
        binary::lemma_pow2_mono(54, 149);
        let t = pow2(149) as int;
        assert(t * w >= t) by (nonlinear_arith)
            requires
                w >= 1,
                t > 0,
        ;
        assert(m * 1 == m);
    }
}

/// The sample for the average of a frame whose sum is `total`.
fn finish(total: Sum, channels: u16) -> (r: i16)
    requires
        total.normal(),
        channels > 0,
    ensures
        r == average(total.view(), channels as nat),
{
    match total {
        Sum::NotANumber => 0,
        Sum::Infinite(negative) => if negative {
            -32767
        } else {
            32767
        },
        Sum::Finite { mantissa, exponent } => {
            proof {
                single::lemma_powers();
                binary::lemma_pow2_mono(33, 126);
                single::lemma_range(mantissa as int);
                single::lemma_range(channels as int);
                single::lemma_range(32767);
                binary::lemma_nearest_scaled(24, mantissa as int, 1, exponent as nat);
            }
            let divisor = Binary::integer(SINGLE, channels as i128);
            if mantissa == 0 {
                proof {
                    lemma_silent(share(mantissa * pow2(exponent as nat), channels as nat));
                }
                return 0;
            }
            let whole = Binary::integer(SINGLE, mantissa as i128);
            let units = Binary {
                mantissa: whole.mantissa,
                exponent: whole.exponent + exponent as i32,
            };
            let average = units.over(SINGLE, divisor);
            proof {
                binary::lemma_nearest_mantissa(24, units.mantissa as int, divisor.mantissa as nat);
            }
            if reaches_full_scale(average) {
                return if average.mantissa < 0 {
                    -32767
                } else {
                    32767
                };
            }
            let value = Binary { mantissa: average.mantissa, exponent: average.exponent - 149 };
            let one = Binary::integer(SINGLE, 32767);
            let product = value.times(SINGLE, one);
            proof {
                lemma_product_exponent(value@, one@);
            }
            to_sample(product.round())
        },
    }
}

proof fn lemma_silent(x: binary::Dyadic)
    requires
        x.m == 0,
        x.e == 0,
    ensures
        scaled(x) == 0,
{
    lemma_pow2_pos(149);
    let one = binary::integer(24, 32767);
    assert(0 * one.m == 0);
    assert(0 * binary::up(0) == 0);
    let p = binary::product(24, x.shift(-149), one);
    binary::lemma_round_sign(p);
}

proof fn lemma_product_exponent(x: binary::Dyadic, y: binary::Dyadic)
    requires
        binary::abs(x.m) <= binary::MANTISSA_LIMIT,
        binary::abs(y.m) <= 0x100_0000,
        x.e <= 0,
        y.e <= 9,
    ensures
        binary::product(24, x, y).e <= 72,
{
    lemma2_to64();
    lemma2_to64_rest();
    let n = x.m * y.m;
    if n != 0 {
        lemma_pow2_adds(53, 24);
        lemma_pow2_adds(77, 1);
        binary::lemma_abs_product(x.m, binary::abs(y.m) as int);
        let a = binary::abs(x.m) as int;
        let b = binary::abs(y.m) as int;
        assert(binary::abs(n) == a * b) by (nonlinear_arith)
            requires
                n == x.m * y.m,
                a == binary::abs(x.m),
                b == binary::abs(y.m),
        ;
        assert(a * b <= pow2(53) * pow2(24)) by (nonlinear_arith)
            requires
                0 <= a <= pow2(53),
                0 <= b <= pow2(24),
        ;
        binary::lemma_scale_integer(24, binary::abs(n), 0, 78);
    }
}

/// The sum of the frame that starts at `start`.
fn sum_frame(data: &[u32], start: usize, channels: u16) -> (r: Sum)
    requires
        start + channels <= data@.len(),
    ensures
        r.view() == total_f32(data@.subrange(start as int, start + channels)),
        r.normal(),
{
    let len: usize = data.len();
    let mut total = Sum::Finite { mantissa: 0, exponent: 0 };
    proof {
        assert(0 * pow2(0) == 0);
        lemma_pow2_pos(277);
        assert(data@.subrange(start as int, start as int) == Seq::<u32>::empty());
    }
    let mut c: u16 = 0;
    while c < channels
        invariant
            c <= channels,
            start + channels <= len,
            len == data@.len(),
            total.normal(),
            total.view() == total_f32(data@.subrange(start as int, start + c)),
        decreases channels - c,
    {
        let ghost next = data@.subrange(start as int, start + c + 1);
        assert(next.drop_last() == data@.subrange(start as int, start + c));
        total = add_sums(total, decode(data[start + c as usize]));
        c = c + 1;
    }
    total
}

/// Appends to `buffer` the mono mix of interleaved single-precision samples, which are
/// given by their bits. Samples of a last, incomplete frame are left out.
pub fn append_f32(buffer: &mut Vec<i16>, data: &[u32], channels: u16)
    requires
        channels > 0,
    ensures
        final(buffer)@ == old(buffer)@ + mono_f32(data@, channels as nat),
{
    let frames: usize = data.len() / channels as usize;
    let mut k: usize = 0;
    let mut start: usize = 0;
    let ghost before = buffer@;
    assert(before + Seq::<i16>::empty() == before);
    while k < frames
        invariant
            channels > 0,
            frames == data@.len() / (channels as nat),
            data@.len() <= usize::MAX,
            k <= frames,
            start == k * channels,
            start <= data@.len(),
            buffer@ == before + mono_f32(data@, channels as nat).subrange(0, k as int),
        decreases frames - k,
    {
        proof {
            downmix::lemma_frame_inside(data@.len(), channels as nat, k as nat);
        }
        let r: i16 = finish(sum_frame(data, start, channels), channels);
        proof {
            let mono = mono_f32(data@, channels as nat);
            assert(mono[k as int] == r);
            assert(mono.subrange(0, k + 1) == mono.subrange(0, k as int).push(r));
        }
        buffer.push(r);
        start = start + channels as usize;
        k = k + 1;
    }
    proof {
        let mono = mono_f32(data@, channels as nat);
        assert(mono.subrange(0, mono.len() as int) == mono);
    }
}

/// How a recording of single-precision samples is cut into deliveries makes no
/// difference, as long as each holds whole frames.
pub proof fn lemma_deliveries_f32(a: Seq<u32>, b: Seq<u32>, channels: nat)
    requires
        channels > 0,
        a.len() % channels == 0,
    ensures
        mono_f32(a + b, channels) == mono_f32(a, channels) + mono_f32(b, channels),
{
    downmix::lemma_frames_concat(a.len(), b.len(), channels, 0);
    let left = mono_f32(a + b, channels);
    let right = mono_f32(a, channels) + mono_f32(b, channels);
    assert forall|k: int| 0 <= k < left.len() implies left[k] == right[k] by {
        downmix::lemma_frame_concat(a, b, channels, k);
    }
    assert(left =~= right);
}

/// Full scale is `2^149` units, in whatever units.
proof fn lemma_full_scale_at(x: binary::Dyadic, f: int)
    requires
        f <= x.e,
        f <= 0,
    ensures
        full_scale(x) <==> binary::abs(x.at(f)) >= pow2((149 - f) as nat),
{
    let u = binary::up(x.e) as int;
    let w = binary::down(x.e) as int;
    let g = pow2((x.e - f) as nat) as int;
    let h = pow2((149 - f) as nat) as int;
    let t = pow2(149) as int;
    let a = binary::abs(x.m) as int;
    lemma2_to64();
    lemma_pow2_pos((x.e - f) as nat);
    binary::lemma_abs_product(x.m, g);
    if x.e >= 0 {
        let o = pow2((-f) as nat) as int;
        lemma_pow2_pos((-f) as nat);
        lemma_pow2_adds(x.e as nat, (-f) as nat);
        lemma_pow2_adds(149, (-f) as nat);
        assert(a * g < h <==> a * u < t * 1) by (nonlinear_arith)
            requires
                g == u * o,
                h == t * o,
                o > 0,
        ;
    } else {
        lemma_pow2_adds((-x.e) as nat, (x.e - f) as nat);
        lemma_pow2_adds(149, (-f) as nat);
        assert(a * g < h <==> a * 1 < t * w) by (nonlinear_arith)
            requires
                h == t * (w * g),
                g > 0,
        ;
    }
}

/// A mix never goes beyond 32767 on either side: the most negative sample is not used.
pub proof fn lemma_mix_symmetric(total: Level, channels: nat)
    ensures
        -32767 <= average(total, channels) <= 32767,
{
    if let Level::Finite(n) = total {
        if !full_scale(share(n, channels)) {
            lemma_scaled_within(share(n, channels));
        }
    }
}

proof fn lemma_scaled_within(x: binary::Dyadic)
    requires
        !full_scale(x),
    ensures
        -32767 <= scaled(x) <= 32767,
        scaled(x) == binary::product(24, x.shift(-149), binary::integer(24, 32767)).round(),
{
    single::lemma_powers();
    lemma2_to64();
    let y = x.shift(-149);
    let c = binary::integer(24, 32767);
    let p = binary::product(24, y, c);
    let lowest = if x.e < 0 {
        x.e
    } else {
        0
    };
    let f = lowest - 300;
    let h = pow2((-f) as nat) as int;
    lemma_pow2_pos((-f) as nat);
    single::lemma_range(32767);
    binary::lemma_exact_integer_at(24, 32767, f);
    if x.m == 0 {
        assert(0 * c.m == 0);
        binary::lemma_round_sign(p);
    } else {
        lemma_full_scale_at(x, f + 149);
        let n = y.m * c.m;
        assert(n != 0) by (nonlinear_arith)
            requires
                n == y.m * c.m,
                y.m != 0,
                c.m != 0,
        ;
        binary::lemma_nearest_exponent(24, n);
        binary::lemma_nearest_mantissa(24, n, 1);
        binary::lemma_signed_product_error(24, y, c, f);
        binary::lemma_signed_round_at(p, f);
        let a = y.at(f);
        let b = p.at(f);
        let r = p.round();
        assert(binary::abs(a) < h);
        binary::lemma_abs_product(a, 32767 * h);
        assert(a * (32767 * h) == (32767 * a) * h) by (nonlinear_arith);
        let delta = b - 32767 * a;
        assert(b * h - (32767 * a) * h == delta * h) by (nonlinear_arith)
            requires
                delta == b - 32767 * a,
        ;
        binary::lemma_abs_product(delta, h);
        let d = binary::abs(delta) as int;
        let s = binary::abs(a) as int;
        assert(s * (32767 * h) == (32767 * s) * h) by (nonlinear_arith);
        assert(0x100_0000 * d <= 32767 * s) by (nonlinear_arith)
            requires
                0x100_0000 * (d * h) <= (32767 * s) * h,
                h > 0,
        ;
        assert(-32768 < r < 32768) by (nonlinear_arith)
            requires
                2 * b - h <= 2 * (r * h) <= 2 * b + h,
                -d <= b - 32767 * a <= d,
                0x100_0000 * d <= 32767 * s,
                -s <= a <= s,
                0 <= s < h,
        ;
    }
}

/// What the parts of a number's bits say: a sign, an exponent of eight bits and a fraction of
/// 23. One is the number with the exponent 127 and no fraction.
pub proof fn lemma_level(negative: bool, exponent: u32, fraction: u32)
    requires
        exponent <= 0xff,
        fraction < 0x80_0000,
    ensures
        ({
            let sign: int = if negative {
                0x8000_0000
            } else {
                0
            };
            let bits = (sign + exponent * 0x80_0000 + fraction) as u32;
            let size = if exponent == 0 {
                fraction as int
            } else {
                (0x80_0000 + fraction) * pow2((exponent - 1) as nat)
            };
            level(bits) == if exponent < 0xff {
                Level::Finite(if negative { -size } else { size })
            } else if fraction == 0 {
                Level::Infinite(negative)
            } else {
                Level::NotANumber
            }
        }),
        level(0x3f80_0000) == Level::Finite(pow2(149) as int),
{
    single::lemma_powers();
    lemma_pow2_adds(23, 126);
    assert(0x3f80_0000int / 0x80_0000 % 0x100 == 127 && 0x3f80_0000int % 0x80_0000 == 0);
}

/// The exact sum of a frame of finite numbers, in units.
pub open spec fn exact_total_f32(frame: Seq<u32>) -> int
    decreases frame.len(),
{
    if frame.len() == 0 {
        0
    } else {
        exact_total_f32(frame.drop_last()) + match level(frame.last()) {
            Level::Finite(n) => n,
            _ => 0,
        }
    }
}

/// Whether every number of a frame is finite and lies from `lo` to `hi` units.
pub open spec fn within(frame: Seq<u32>, lo: int, hi: int) -> bool {
    forall|c: int|
        0 <= c < frame.len() ==> match level(#[trigger] frame[c]) {
            Level::Finite(n) => lo <= n <= hi,
            _ => false,
        }
}

proof fn lemma_within_last(frame: Seq<u32>, lo: int, hi: int)
    requires
        frame.len() > 0,
        within(frame, lo, hi),
    ensures
        within(frame.drop_last(), lo, hi),
        level(frame.last()) matches Level::Finite(n) && lo <= n <= hi,
{
    let rest = frame.drop_last();
    assert forall|c: int| 0 <= c < rest.len() implies match level(#[trigger] rest[c]) {
        Level::Finite(n) => lo <= n <= hi,
        _ => false,
    } by {
        assert(rest[c] == frame[c]);
    }
    assert(frame[frame.len() - 1] == frame.last());
}

proof fn lemma_exact_between(frame: Seq<u32>, lo: int, hi: int)
    requires
        within(frame, lo, hi),
    ensures
        lo * frame.len() <= exact_total_f32(frame) <= hi * frame.len(),
    decreases frame.len(),
{
    if frame.len() > 0 {
        lemma_within_last(frame, lo, hi);
        lemma_exact_between(frame.drop_last(), lo, hi);
        let n = frame.len() as int;
        assert(lo * n == lo * (n - 1) + lo && hi * n == hi * (n - 1) + hi) by (nonlinear_arith);
    } else {
        assert(lo * 0 == 0 && hi * 0 == 0);
    }
}

/// How far adding up numbers of up to `u` units in single precision goes astray.
proof fn lemma_total_near(frame: Seq<u32>, u: int) -> (t: int)
    requires
        frame.len() <= 64,
        0 < u <= pow2(160),
        within(frame, -u, u),
    ensures
        total_f32(frame) == Level::Finite(t),
        ({
            let c = frame.len() as int;
            0x100_0000 * binary::abs(t - exact_total_f32(frame)) <= (c * (c + 3)) * u
        }),
    decreases frame.len(),
{
    if frame.len() == 0 {
        assert((0int * 3) * u == 0) by (nonlinear_arith);
        0
    } else {
        let rest = frame.drop_last();
        lemma_within_last(frame, -u, u);
        let before = lemma_total_near(rest, u);
        lemma_exact_between(rest, -u, u);
        let n = match level(frame.last()) {
            Level::Finite(n) => n,
            _ => 0,
        };
        let c = rest.len() as int;
        let s = exact_total_f32(rest);
        let bound = (c * (c + 3)) * u;
        assert(bound <= (63 * 66) * u && bound >= 0) by (nonlinear_arith)
            requires
                bound == (c * (c + 3)) * u,
                0 <= c <= 63,
                u > 0,
        ;
        let low = -u;
        assert(low * c == -(u * c) && low * rest.len() == low * c) by (nonlinear_arith)
            requires
                low == -u,
                c == rest.len(),
        ;
        assert(-(u * c) <= s <= u * c);
        let m = before + n;
        single::lemma_relative(m);
        let t = single::rounded(m);
        assert(0x100_0000 * binary::abs(before - s) <= bound);
        assert(bound <= 4158 * u);
        assert(binary::abs(before - s) <= u);
        assert(u * c + u + u == (c + 2) * u) by (nonlinear_arith);
        assert(binary::abs(m) <= (c + 2) * u);
        let next = c + 1;
        assert((next * (next + 3)) * u == bound + (2 * c + 4) * u) by (nonlinear_arith)
            requires
                bound == (c * (c + 3)) * u,
                next == c + 1,
        ;
        assert((2 * c + 4) * u == 2 * ((c + 2) * u)) by (nonlinear_arith);
        assert((c + 2) * u >= 0) by (nonlinear_arith)
            requires
                c >= 0,
                u > 0,
        ;
        assert((c + 2) * u <= 65 * u) by (nonlinear_arith)
            requires
                c <= 63,
                u > 0,
        ;
        lemma2_to64();
        lemma_pow2_adds(160, 64);
        binary::lemma_pow2_mono(224, 277);
        lemma_pow2_pos(160);
        assert(binary::abs(t) < pow2(277)) by {
            let p = pow2(160) as int;
            assert(binary::abs(t) <= 200 * u);
            assert(200 * u < p * pow2(64)) by (nonlinear_arith)
                requires
                    0 < u <= p,
                    pow2(64) == 0x1_0000_0000_0000_0000,
            ;
        }
        t
    }
}

/// The share of a channel, against the exact one, in units of `2^-200`.
proof fn lemma_share_near(t: int, c: int)
    requires
        0 < t < pow2(277),
        0 < c <= 64,
    ensures
        ({
            let q = share(t, c as nat);
            let h = pow2(200) as int;
            &&& q.m > 0
            &&& -40 <= q.e
            &&& 0x100_0000 * binary::abs(q.at(-200) * c - t * h) <= 3 * (t * h)
        }),
{
    single::lemma_powers();
    lemma2_to64();
    let x = binary::integer(24, t);
    let y = binary::integer(24, c);
    let q = share(t, c as nat);
    let h = pow2(200) as int;
    lemma_pow2_pos(200);
    single::lemma_range(c);
    binary::lemma_nearest_exponent(24, t);
    binary::lemma_nearest_mantissa(24, t, 1);
    single::lemma_mantissa_quotient(x.m as nat, y.m as nat);
    binary::lemma_nearest_mantissa(24, x.m, y.m as nat);
    assert(x.shift(0) == x);
    binary::lemma_signed_error(24, t, 0, -200);
    binary::lemma_exact_integer_at(24, c as nat, -200);
    binary::lemma_scale_integer(24, c as nat, 0, 7);
    binary::lemma_quotient_error(24, x, y, -200);
    let xx = x.at(-200);
    let qq = q.at(-200);
    let delta = qq * c - xx;
    assert(qq * (c * h) - xx * h == delta * h) by (nonlinear_arith)
        requires
            delta == qq * c - xx,
    ;
    binary::lemma_abs_product(delta, h);
    let e = binary::abs(delta) as int;
    assert(0x100_0000 * e <= xx) by (nonlinear_arith)
        requires
            0x100_0000 * (e * h) <= xx * h,
            h > 0,
    ;
    let exact = t * h;
    assert(exact > 0) by (nonlinear_arith)
        requires
            exact == t * h,
            t > 0,
            h > 0,
    ;
    assert(0x100_0000 * binary::abs(xx - exact) <= exact);
}

/// The sample for a positive sum, against the exact average.
proof fn lemma_positive_near(t: int, c: int, w: int)
    requires
        0 < t,
        0 < c <= 64,
        0 <= w <= 0x1_0000,
        0x100_0000 * (t - c * pow2(149)) <= w * (c * pow2(149)),
    ensures
        512 * binary::abs(
            average(Level::Finite(t), c as nat) * (c * pow2(149)) - 32767 * t,
        ) <= (266 + w) * (c * pow2(149)),
{
    single::lemma_powers();
    lemma2_to64();
    let u = pow2(149) as int;
    let h = pow2(200) as int;
    let g = pow2(349) as int;
    lemma_pow2_pos(149);
    lemma_pow2_pos(200);
    lemma_pow2_adds(149, 200);
    let full = c * u;
    assert(full > 0) by (nonlinear_arith)
        requires
            full == c * u,
            c > 0,
            u > 0,
    ;
    let slack = w * full;
    assert(0 <= slack <= 0x1_0000 * full) by (nonlinear_arith)
        requires
            slack == w * full,
            0 <= w <= 0x1_0000,
            full > 0,
    ;
    assert((266 + w) * full == 266 * full + slack) by (nonlinear_arith)
        requires
            slack == w * full,
    ;
    assert(t < 2 * full);
    assert(t < pow2(277)) by {
        assert(full <= 64 * u) by (nonlinear_arith)
            requires
                full == c * u,
                c <= 64,
                u > 0,
        ;
        lemma_pow2_adds(149, 8);
        binary::lemma_pow2_mono(157, 277);
    }
    lemma_share_near(t, c);
    let q = share(t, c as nat);
    let qq = q.at(-200);
    let th = t * h;
    lemma_full_scale_at(q, -200);
    let gq = pow2((q.e + 200) as nat) as int;
    lemma_pow2_pos((q.e + 200) as nat);
    assert(qq > 0) by (nonlinear_arith)
        requires
            qq == q.m * gq,
            q.m > 0,
            gq > 0,
    ;
    let fh = full * h;
    assert(fh == c * g) by (nonlinear_arith)
        requires
            fh == full * h,
            full == c * u,
            g == u * h,
    ;
    assert(th < 2 * fh && fh > 0 && th > 0) by (nonlinear_arith)
        requires
            th == t * h,
            fh == full * h,
            0 < t < 2 * full,
            full > 0,
            h > 0,
    ;
    let qc = qq * c;
    let r = average(Level::Finite(t), c as nat) as int;
    let target = r * full - 32767 * t;
    assert(target * h == r * fh - 32767 * th) by (nonlinear_arith)
        requires
            target == r * full - 32767 * t,
            fh == full * h,
            th == t * h,
    ;
    if full_scale(q) {
        assert(qc >= fh) by (nonlinear_arith)
            requires
                qc == qq * c,
                qq >= g,
                fh == c * g,
                c > 0,
        ;
        assert(r == 32767);
        // the sum is hardly less than full, and hardly more
        assert(0x100_0000 * (fh - th) <= 3 * th);
        assert(0x100_0000 * (full - t) <= 3 * t) by (nonlinear_arith)
            requires
                0x100_0000 * (fh - th) <= 3 * th,
                fh == full * h,
                th == t * h,
                h > 0,
        ;
        assert(target == 32767 * full - 32767 * t);
        assert(512 * binary::abs(target) <= slack + 6 * full);
    } else {
        lemma_scaled_within(q);
        let one = binary::integer(24, 32767);
        single::lemma_range(32767);
        let y = q.shift(-149);
        let p = binary::product(24, y, one);
        binary::lemma_exact_integer_at(24, 32767, -349);
        binary::lemma_shift_at(q, -149, -200);
        let n = y.m * one.m;
        assert(n != 0) by (nonlinear_arith)
            requires
                n == y.m * one.m,
                y.m != 0,
                one.m != 0,
        ;
        binary::lemma_nearest_exponent(24, n);
        binary::lemma_nearest_mantissa(24, n, 1);
        binary::lemma_signed_product_error(24, y, one, -349);
        binary::lemma_signed_round_at(p, -349);
        let pp = p.at(-349);
        let delta = pp - 32767 * qq;
        lemma_pow2_pos(349);
        assert(pp * g - qq * (32767 * g) == delta * g) by (nonlinear_arith)
            requires
                delta == pp - 32767 * qq,
        ;
        binary::lemma_abs_product(delta, g);
        let w = 32767 * qq;
        assert(qq * (32767 * g) == w * g) by (nonlinear_arith)
            requires
                w == 32767 * qq,
        ;
        binary::lemma_abs_product(w, g);
        let e = binary::abs(delta) as int;
        assert(0x100_0000 * e <= w) by (nonlinear_arith)
            requires
                0x100_0000 * (e * g) <= w * g,
                g > 0,
        ;
        assert(qq < g);
        assert(r == p.round());
        // all in units, times the number of channels
        assert(0x100_0000 * (e * c) <= 32767 * qc) by (nonlinear_arith)
            requires
                0x100_0000 * e <= 32767 * qq,
                qc == qq * c,
                c > 0,
        ;
        assert(-(e * c) <= pp * c - 32767 * qc <= e * c) by (nonlinear_arith)
            requires
                -e <= pp - 32767 * qq <= e,
                qc == qq * c,
                c > 0,
        ;
        assert((2 * pp - g) * c <= (2 * (r * g)) * c <= (2 * pp + g) * c) by (nonlinear_arith)
            requires
                2 * pp - g <= 2 * (r * g) <= 2 * pp + g,
                c > 0,
        ;
        assert((2 * (r * g)) * c == 2 * (r * fh)) by (nonlinear_arith)
            requires
                fh == c * g,
        ;
        assert((2 * pp + g) * c == 2 * (pp * c) + fh && (2 * pp - g) * c == 2 * (pp * c) - fh)
            by (nonlinear_arith)
            requires
                fh == c * g,
        ;
        assert(512 * binary::abs(target * h) <= 266 * fh);
        binary::lemma_abs_product(target, h);
        let d = binary::abs(target) as int;
        assert(512 * d <= 266 * full) by (nonlinear_arith)
            requires
                512 * (d * h) <= 266 * (full * h),
                h > 0,
        ;
    }
}

proof fn lemma_scaled_negated(x: binary::Dyadic)
    requires
        x.m != 0,
    ensures
        scaled(x.negated()) == -scaled(x),
{
    let one = binary::integer(24, 32767);
    if !full_scale(x) {
        lemma_scaled_within(x);
        lemma_scaled_within(x.negated());
        let y = x.shift(-149);
        assert(x.negated().shift(-149) == y.negated());
        binary::lemma_negated_product(24, y, one);
        binary::lemma_round_negated(binary::product(24, y, one));
    }
}

/// The sample for a sum of the other sign.
proof fn lemma_average_negated(t: int, c: nat)
    requires
        0 < c <= 0xffff,
    ensures
        average(Level::Finite(-t), c) == -average(Level::Finite(t), c),
{
    let x = binary::integer(24, t);
    let y = binary::integer(24, c as int);
    binary::lemma_nearest_negated(24, t);
    binary::lemma_quotient_negated(24, x, y);
    single::lemma_powers();
    single::lemma_range(c as int);
    if t == 0 {
        lemma_silent(share(0, c));
    } else {
        binary::lemma_nearest_mantissa(24, t, 1);
        binary::lemma_nearest_mantissa(24, x.m, y.m as nat);
        lemma_scaled_negated(share(t, c));
    }
}

/// The sample for a sum, against the exact average.
proof fn lemma_average_near(t: int, c: int, w: int)
    requires
        0 < c <= 64,
        0 <= w <= 0x1_0000,
        0x100_0000 * (binary::abs(t) - c * pow2(149)) <= w * (c * pow2(149)),
    ensures
        512 * binary::abs(
            average(Level::Finite(t), c as nat) * (c * pow2(149)) - 32767 * t,
        ) <= (266 + w) * (c * pow2(149)),
{
    let full = c * pow2(149);
    let r = average(Level::Finite(t), c as nat) as int;
    if t > 0 {
        lemma_positive_near(t, c, w);
    } else if t < 0 {
        lemma_positive_near(-t, c, w);
        lemma_average_negated(t, c as nat);
        assert((-r) * full == -(r * full)) by (nonlinear_arith);
    } else {
        lemma_average_negated(0, c as nat);
        lemma_pow2_pos(149);
        assert(full >= 0) by (nonlinear_arith)
            requires
                full == c * pow2(149),
                c > 0,
        ;
        assert(0 * full == 0 && (266 + w) * full >= 0) by (nonlinear_arith)
            requires
                full >= 0,
                w >= 0,
        ;
    }
}

/// What the sum of a frame comes to when an average beyond one on either side is taken for
/// one.
pub open spec fn clipped(total: int, full: int) -> int {
    if total > full {
        full
    } else if total < -full {
        -full
    } else {
        total
    }
}

/// A sum that is at least full, less some slack, is mixed to nearly the largest sample.
proof fn lemma_clipped_high(t: int, c: int, w: int)
    requires
        0 < c <= 64,
        0 <= w <= 0x1_0000,
        0x100_0000 * (c * pow2(149) - t) <= w * (c * pow2(149)),
    ensures
        512 * (32767 - average(Level::Finite(t), c as nat)) <= 266 + 2 * w,
{
    let u = pow2(149) as int;
    lemma_pow2_pos(149);
    let full = c * u;
    assert(full > 0) by (nonlinear_arith)
        requires
            full == c * u,
            c > 0,
            u > 0,
    ;
    let slack = w * full;
    assert(0 <= slack <= 0x1_0000 * full) by (nonlinear_arith)
        requires
            slack == w * full,
            0 <= w <= 0x1_0000,
            full > 0,
    ;
    let s = if t < full {
        t
    } else {
        full
    };
    assert(s > 0);
    lemma_positive_near(s, c, w);
    lemma_share_ordered(s, t, c);
    lemma_scaled_ordered(share(s, c as nat), share(t, c as nat));
    let r = average(Level::Finite(s), c as nat) as int;
    let k = 266 + 2 * w;
    assert(k * full == (266 + w) * full + slack) by (nonlinear_arith)
        requires
            k == 266 + 2 * w,
            slack == w * full,
    ;
    let gap = 512 * (32767 - r);
    assert(gap * full == 512 * (32767 * full) - 512 * (r * full)) by (nonlinear_arith)
        requires
            gap == 512 * (32767 - r),
    ;
    assert(gap <= k) by (nonlinear_arith)
        requires
            gap * full <= k * full,
            full > 0,
    ;
}

proof fn lemma_clipped_near(t: int, s: int, c: int, w: int)
    requires
        0 < c <= 64,
        0 <= w <= 0x1_0000,
        0x100_0000 * binary::abs(t - s) <= w * (c * pow2(149)),
    ensures
        512 * binary::abs(
            average(Level::Finite(t), c as nat) * (c * pow2(149)) - 32767 * clipped(
                s,
                c * pow2(149),
            ),
        ) <= (266 + 2 * w) * (c * pow2(149)),
{
    let u = pow2(149) as int;
    lemma_pow2_pos(149);
    let full = c * u;
    assert(full > 0) by (nonlinear_arith)
        requires
            full == c * u,
            c > 0,
            u > 0,
    ;
    let slack = w * full;
    let k = 266 + 2 * w;
    assert(k * full == (266 + w) * full + slack) by (nonlinear_arith)
        requires
            k == 266 + 2 * w,
            slack == w * full,
    ;
    let r = average(Level::Finite(t), c as nat) as int;
    lemma_mix_symmetric(Level::Finite(t), c as nat);
    if s > full {
        lemma_clipped_high(t, c, w);
        let gap = 32767 - r;
        assert(r * full - 32767 * full == -(gap * full)) by (nonlinear_arith)
            requires
                gap == 32767 - r,
        ;
        assert(0 <= 512 * (gap * full) <= k * full) by (nonlinear_arith)
            requires
                0 <= 512 * gap <= k,
                full > 0,
        ;
    } else if s < -full {
        lemma_clipped_high(-t, c, w);
        lemma_average_negated(t, c as nat);
        let gap = 32767 + r;
        assert(r * full + 32767 * full == gap * full) by (nonlinear_arith)
            requires
                gap == 32767 + r,
        ;
        assert(0 <= 512 * (gap * full) <= k * full) by (nonlinear_arith)
            requires
                0 <= 512 * gap <= k,
                full > 0,
        ;
    } else {
        lemma_average_near(t, c, w);
    }
}

/// Of up to 64 channels with samples from `-loudest` to `loudest`, a mix is 32767 times the
/// average of its frame, where an average beyond one on either side is taken for one. It is
/// off by hardly more than a half for samples up to one, and by little more for louder ones.
/// (A sample is counted in units of `2^-149`.)
pub proof fn lemma_mix_f32(data: Seq<u32>, channels: nat, k: int, loudest: nat)
    requires
        0 < channels <= 64,
        0 <= k < mono_f32(data, channels).len(),
        1 <= loudest <= 500,
        within(
            data.subrange(k * channels, k * channels + channels),
            -((loudest * pow2(149)) as int),
            (loudest * pow2(149)) as int,
        ),
    ensures
        mono_f32(data, channels).len() * channels <= data.len() < (mono_f32(data, channels).len()
            + 1) * channels,
        ({
            let total = exact_total_f32(data.subrange(k * channels, k * channels + channels));
            let r = mono_f32(data, channels)[k] as int;
            let one = channels * pow2(149);
            512 * binary::abs(r * one - 32767 * clipped(total, one as int)) <= (266 + 2 * (loudest
                * (channels + 3))) * one
        }),
{
    downmix::lemma_mix_length(data.len(), channels);
    downmix::lemma_frame_inside(data.len(), channels, k as nat);
    let f = downmix::frame(data, channels, k);
    assert(f =~= data.subrange(k * channels, k * channels + channels));
    let u = pow2(149) as int;
    lemma_pow2_pos(149);
    let m = (loudest * pow2(149)) as int;
    let l = loudest as int;
    assert(0 < m <= 500 * u) by (nonlinear_arith)
        requires
            m == l * u,
            1 <= l <= 500,
            u > 0,
    ;
    lemma2_to64();
    lemma_pow2_adds(149, 11);
    assert(pow2(11) == 2048);
    assert(m <= pow2(160));
    let t = lemma_total_near(f, m);
    let c = channels as int;
    let s = exact_total_f32(f);
    let full = c * u;
    let w = l * (c + 3);
    assert(0 <= w <= 0x1_0000) by (nonlinear_arith)
        requires
            w == l * (c + 3),
            1 <= l <= 500,
            0 < c <= 64,
    ;
    assert((c * (c + 3)) * m == w * full) by (nonlinear_arith)
        requires
            m == l * u,
            full == c * u,
            w == l * (c + 3),
    ;
    lemma_clipped_near(t, s, c, w);
    assert(loudest * (channels + 3) == w);
}

/// Of up to 64 channels with samples from minus one to one, a mix stays within one of the
/// range of its frame times 32767. A frame of equal samples is mixed to that sample, and one
/// channel to itself.
pub proof fn lemma_mix_between_f32(data: Seq<u32>, channels: nat, k: int, lo: int, hi: int)
    requires
        0 < channels <= 64,
        0 <= k < mono_f32(data, channels).len(),
        -(pow2(149) as int) <= lo,
        hi <= pow2(149),
        within(data.subrange(k * channels, k * channels + channels), lo, hi),
    ensures
        ({
            let r = mono_f32(data, channels)[k] as int;
            let one = pow2(149) as int;
            &&& 512 * (32767 * lo - r * one) <= (272 + 2 * channels) * one
            &&& 512 * (r * one - 32767 * hi) <= (272 + 2 * channels) * one
            &&& 32767 * lo - one < r * one < 32767 * hi + one
        }),
{
    let f = data.subrange(k * channels, k * channels + channels);
    let u = pow2(149) as int;
    lemma_pow2_pos(149);
    assert(1 * u == u);
    assert forall|c: int| 0 <= c < f.len() implies match level(#[trigger] f[c]) {
        Level::Finite(n) => -u <= n <= u,
        _ => false,
    } by {
        assert(match level(f[c]) {
            Level::Finite(n) => lo <= n <= hi,
            _ => false,
        });
    }
    assert(within(f, -u, u));
    downmix::lemma_frame_inside(data.len(), channels, k as nat);
    lemma_mix_f32(data, channels, k, 1);
    lemma_exact_between(f, lo, hi);
    lemma_exact_between(f, -u, u);
    let c = channels as int;
    let s = exact_total_f32(f);
    let r = mono_f32(data, channels)[k] as int;
    let m = 272 + 2 * c;
    let full = c * u;
    let low = -u;
    assert(f.len() == c);
    assert(low * c == -full && u * c == full) by (nonlinear_arith)
        requires
            low == -u,
            full == c * u,
    ;
    assert(clipped(s, full) == s);
    assert(1 * (c + 3) == c + 3);
    assert(m * full == c * (m * u)) by (nonlinear_arith)
        requires
            full == c * u,
    ;
    assert(r * full == c * (r * u)) by (nonlinear_arith)
        requires
            full == c * u,
    ;
    assert(hi * c == c * hi && lo * c == c * lo) by (nonlinear_arith);
    let a = 512 * (32767 * lo - r * u);
    let b = 512 * (r * u - 32767 * hi);
    let mu = m * u;
    assert(c * a == 512 * (32767 * (c * lo) - c * (r * u))) by (nonlinear_arith)
        requires
            a == 512 * (32767 * lo - r * u),
    ;
    assert(c * b == 512 * (c * (r * u) - 32767 * (c * hi))) by (nonlinear_arith)
        requires
            b == 512 * (r * u - 32767 * hi),
    ;
    assert(a <= mu && b <= mu) by (nonlinear_arith)
        requires
            c * a <= c * mu,
            c * b <= c * mu,
            c > 0,
    ;
    assert(mu <= 400 * u) by (nonlinear_arith)
        requires
            mu == m * u,
            m <= 400,
            u > 0,
    ;
}

/// The bits of the number with the other sign.
pub open spec fn flipped(bits: u32) -> u32 {
    if bits >= 0x8000_0000 {
        (bits - 0x8000_0000) as u32
    } else {
        (bits + 0x8000_0000) as u32
    }
}

/// The number with the other sign.
pub open spec fn opposite(x: Level) -> Level {
    match x {
        Level::Finite(n) => Level::Finite(-n),
        Level::Infinite(negative) => Level::Infinite(!negative),
        Level::NotANumber => Level::NotANumber,
    }
}

proof fn lemma_flipped(bits: u32)
    ensures
        level(flipped(bits)) == opposite(level(bits)),
{
    let other = flipped(bits);
    assert(other as int % 0x80_0000 == bits as int % 0x80_0000);
    assert(other as int / 0x80_0000 % 0x100 == bits as int / 0x80_0000 % 0x100);
}

proof fn lemma_opposite_total(a: Seq<u32>, b: Seq<u32>)
    requires
        a.len() == b.len(),
        forall|i: int| 0 <= i < a.len() ==> b[i] == flipped(#[trigger] a[i]),
    ensures
        total_f32(b) == opposite(total_f32(a)),
    decreases a.len(),
{
    if a.len() > 0 {
        lemma_opposite_total(a.drop_last(), b.drop_last());
        assert(b[b.len() - 1] == flipped(a[a.len() - 1]));
        lemma_flipped(a.last());
        let x = total_f32(a.drop_last());
        let y = level(a.last());
        if x is Finite && y is Finite {
            let n = x->Finite_0 + y->Finite_0;
            single::lemma_negated(n);
            if n == 0 {
                lemma_pow2_pos(277);
                single::lemma_exact(0);
            }
        }
    }
}

/// Turning the signs of the samples round turns that of the mix round.
pub proof fn lemma_inverted_f32(a: Seq<u32>, b: Seq<u32>, channels: nat, k: int)
    requires
        0 < channels <= 0xffff,
        a.len() == b.len(),
        forall|i: int| 0 <= i < a.len() ==> b[i] == flipped(#[trigger] a[i]),
        0 <= k < mono_f32(a, channels).len(),
    ensures
        mono_f32(b, channels)[k] == -mono_f32(a, channels)[k],
{
    downmix::lemma_frame_inside(a.len(), channels, k as nat);
    let f = downmix::frame(a, channels, k);
    let g = downmix::frame(b, channels, k);
    assert forall|i: int| 0 <= i < f.len() implies g[i] == flipped(#[trigger] f[i]) by {
        assert(f[i] == a[k * channels + i]);
    }
    lemma_opposite_total(f, g);
    if let Level::Finite(t) = total_f32(f) {
        lemma_average_negated(t, channels);
    }
}

/// Whether `x` is no greater than `y`. What is not a number is comparable to nothing.
pub open spec fn at_most(x: Level, y: Level) -> bool {
    match (x, y) {
        (Level::Finite(a), Level::Finite(b)) => a <= b,
        (Level::NotANumber, _) => false,
        (_, Level::NotANumber) => false,
        (Level::Infinite(a), Level::Infinite(b)) => a || !b,
        (Level::Infinite(a), Level::Finite(_)) => a,
        (Level::Finite(_), Level::Infinite(b)) => !b,
    }
}

proof fn lemma_narrowed_ordered(m: int, n: int)
    requires
        m <= n,
    ensures
        at_most(narrowed(m), narrowed(n)),
{
    single::lemma_ordered(m, n);
    single::lemma_relative(m);
    single::lemma_relative(n);
    lemma_pow2_pos(277);
}

proof fn lemma_total_ordered(a: Seq<u32>, b: Seq<u32>)
    requires
        a.len() == b.len(),
        forall|i: int|
            0 <= i < a.len() ==> {
                &&& level(#[trigger] a[i]) is Finite
                &&& level(b[i]) is Finite
                &&& at_most(level(a[i]), level(b[i]))
            },
    ensures
        at_most(total_f32(a), total_f32(b)),
    decreases a.len(),
{
    if a.len() > 0 {
        let x = a.drop_last();
        let y = b.drop_last();
        assert forall|i: int| 0 <= i < x.len() implies {
            &&& level(#[trigger] x[i]) is Finite
            &&& level(y[i]) is Finite
            &&& at_most(level(x[i]), level(y[i]))
        } by {
            assert(x[i] == a[i]);
        }
        lemma_total_ordered(x, y);
        assert(a[a.len() - 1] == a.last());
        let s = total_f32(x);
        let t = total_f32(y);
        let m = level(a.last());
        let n = level(b.last());
        assert(at_most(m, n));
        if s is Finite && t is Finite {
            lemma_narrowed_ordered(s->Finite_0 + m->Finite_0, t->Finite_0 + n->Finite_0);
        }
    }
}

/// Shares keep the order of sums.
proof fn lemma_share_ordered(m: int, n: int, c: int)
    requires
        m <= n,
        0 < c <= 0xffff,
    ensures
        ({
            let x = share(m, c as nat);
            let y = share(n, c as nat);
            &&& -300 <= x.e
            &&& -300 <= y.e
            &&& x.at(-300) <= y.at(-300)
            &&& x.m == 0 ==> x.e == 0
            &&& y.m == 0 ==> y.e == 0
        }),
{
    single::lemma_powers();
    let a = binary::integer(24, m);
    let b = binary::integer(24, n);
    let d = binary::integer(24, c);
    single::lemma_range(c);
    if m != 0 {
        binary::lemma_nearest_exponent(24, m);
        binary::lemma_nearest_mantissa(24, m, 1);
        single::lemma_mantissa_quotient(binary::abs(a.m), d.m as nat);
        binary::lemma_nearest_mantissa(24, a.m, d.m as nat);
    }
    if n != 0 {
        binary::lemma_nearest_exponent(24, n);
        binary::lemma_nearest_mantissa(24, n, 1);
        single::lemma_mantissa_quotient(binary::abs(b.m), d.m as nat);
        binary::lemma_nearest_mantissa(24, b.m, d.m as nat);
    }
    binary::lemma_nearest_ordered(24, m, n, 1, -100);
    let p = a.at(-100);
    let q = b.at(-100);
    binary::lemma_nearest_scaled(24, a.m, d.m as nat, (a.e + 100) as nat);
    binary::lemma_nearest_scaled(24, b.m, d.m as nat, (b.e + 100) as nat);
    let u = binary::nearest(24, p, d.m as nat);
    let v = binary::nearest(24, q, d.m as nat);
    let k = -100 - d.e;
    let f = -200 + d.e;
    assert(share(m, c as nat) == u.shift(k));
    assert(share(n, c as nat) == v.shift(k));
    binary::lemma_nearest_ordered(24, p, q, d.m as nat, f);
    binary::lemma_shift_at(u, k, f);
    binary::lemma_shift_at(v, k, f);
}

proof fn lemma_scaled_ordered(x: binary::Dyadic, y: binary::Dyadic)
    requires
        -300 <= x.e,
        -300 <= y.e,
        x.m == 0 ==> x.e == 0,
        y.m == 0 ==> y.e == 0,
        x.at(-300) <= y.at(-300),
    ensures
        scaled(x) <= scaled(y),
{
    let a = pow2((x.e + 300) as nat) as int;
    let b = pow2((y.e + 300) as nat) as int;
    lemma_pow2_pos((x.e + 300) as nat);
    lemma_pow2_pos((y.e + 300) as nat);
    assert((x.m < 0 <==> x.m * a < 0) && (y.m < 0 <==> y.m * b < 0)) by (nonlinear_arith)
        requires
            a > 0,
            b > 0,
    ;
    lemma_full_scale_at(x, -300);
    lemma_full_scale_at(y, -300);
    if !full_scale(x) {
        lemma_scaled_within(x);
    }
    if !full_scale(y) {
        lemma_scaled_within(y);
    }
    if !full_scale(x) && !full_scale(y) {
        single::lemma_powers();
        let one = binary::integer(24, 32767);
        let v = x.shift(-149);
        let w = y.shift(-149);
        single::lemma_range(32767);
        binary::lemma_exact_integer_at(24, 32767, -449);
        binary::lemma_shift_at(x, -149, -300);
        binary::lemma_shift_at(y, -149, -300);
        binary::lemma_product_at(24, v, one, -449);
        binary::lemma_product_at(24, w, one, -449);
        let h = pow2(449) as int;
        lemma_pow2_pos(449);
        let m = v.at(-449) * (32767 * h);
        let n = w.at(-449) * (32767 * h);
        assert(m <= n) by (nonlinear_arith)
            requires
                m == v.at(-449) * (32767 * h),
                n == w.at(-449) * (32767 * h),
                v.at(-449) <= w.at(-449),
                h > 0,
        ;
        let p = binary::nearest(24, m, 1);
        let q = binary::nearest(24, n, 1);
        if m != 0 {
            binary::lemma_nearest_exponent(24, m);
            binary::lemma_nearest_mantissa(24, m, 1);
        }
        if n != 0 {
            binary::lemma_nearest_exponent(24, n);
            binary::lemma_nearest_mantissa(24, n, 1);
        }
        binary::lemma_nearest_ordered(24, m, n, 1, -100);
        binary::lemma_shift_at(p, -898, -100);
        binary::lemma_shift_at(q, -898, -100);
        binary::lemma_round_ordered(p.shift(-898), q.shift(-898), -998);
    }
}

/// Larger samples give no smaller mix, however many channels there are.
pub proof fn lemma_ordered_f32(a: Seq<u32>, b: Seq<u32>, channels: nat, k: int)
    requires
        0 < channels <= 0xffff,
        a.len() == b.len(),
        forall|i: int|
            0 <= i < a.len() ==> {
                &&& level(#[trigger] a[i]) is Finite
                &&& level(b[i]) is Finite
                &&& at_most(level(a[i]), level(b[i]))
            },
        0 <= k < mono_f32(a, channels).len(),
    ensures
        mono_f32(a, channels)[k] <= mono_f32(b, channels)[k],
{
    downmix::lemma_frame_inside(a.len(), channels, k as nat);
    let f = downmix::frame(a, channels, k);
    let g = downmix::frame(b, channels, k);
    assert forall|i: int| 0 <= i < f.len() implies {
        &&& level(#[trigger] f[i]) is Finite
        &&& level(g[i]) is Finite
        &&& at_most(level(f[i]), level(g[i]))
    } by {
        assert(f[i] == a[k * channels + i]);
    }
    lemma_total_ordered(f, g);
    let s = total_f32(f);
    let t = total_f32(g);
    lemma_mix_symmetric(s, channels);
    lemma_mix_symmetric(t, channels);
    if s is Finite && t is Finite {
        let m = s->Finite_0;
        let n = t->Finite_0;
        lemma_share_ordered(m, n, channels as int);
        lemma_scaled_ordered(share(m, channels), share(n, channels));
    }
}

/// Whether a number is one or more.
pub open spec fn at_least_one(x: Level) -> bool {
    match x {
        Level::Finite(n) => n >= pow2(149),
        Level::Infinite(negative) => !negative,
        Level::NotANumber => false,
    }
}

proof fn lemma_loud_total(frame: Seq<u32>)
    requires
        frame.len() <= 0xffff,
        forall|i: int| 0 <= i < frame.len() ==> at_least_one(level(#[trigger] frame[i])),
    ensures
        match total_f32(frame) {
            Level::Finite(t) => t >= frame.len() * pow2(149),
            Level::Infinite(negative) => !negative,
            Level::NotANumber => false,
        },
    decreases frame.len(),
{
    let u = pow2(149) as int;
    lemma_pow2_pos(149);
    if frame.len() == 0 {
        assert(0 * u == 0);
    } else {
        let rest = frame.drop_last();
        assert forall|i: int| 0 <= i < rest.len() implies at_least_one(
            level(#[trigger] rest[i]),
        ) by {
            assert(rest[i] == frame[i]);
        }
        lemma_loud_total(rest);
        assert(frame[frame.len() - 1] == frame.last());
        if total_f32(rest) is Finite && level(frame.last()) is Finite {
            let m = total_f32(rest)->Finite_0 + level(frame.last())->Finite_0;
            let c = frame.len() as int;
            assert(c * u == (c - 1) * u + u) by (nonlinear_arith);
            single::lemma_ordered(c * u, m);
            single::lemma_scaled(c, 149);
            single::lemma_exact(c);
            assert(c * u >= 0) by (nonlinear_arith)
                requires
                    c > 0,
                    u > 0,
            ;
        }
    }
}

/// The share of a full sum is full scale.
proof fn lemma_full_share(c: int)
    requires
        0 < c <= 0xffff,
    ensures
        share(c * pow2(149), c as nat).at(-300) == pow2(449),
{
    single::lemma_powers();
    lemma2_to64();
    let d = binary::integer(24, c);
    single::lemma_range(c);
    binary::lemma_nearest_scaled(24, c, 1, 149);
    let m = d.m as nat;
    single::lemma_mantissa_quotient(m, m);
    binary::lemma_nearest_mantissa(24, d.m, m);
    assert(m * pow2(0) == 1 * m) by (nonlinear_arith)
        requires
            pow2(0) == 1,
    ;
    let z = binary::nearest(24, d.m, m);
    binary::lemma_nearest_exact(24, m, m, 1, 0, -449);
    assert(z.at(-449) * 1 == z.at(-449));
    assert(share(c * pow2(149), c as nat) == z.shift(149));
    binary::lemma_shift_at(z, 149, -449);
}

/// A frame of samples of one or more is mixed to the largest sample, however many channels
/// there are.
pub proof fn lemma_loud(data: Seq<u32>, channels: nat, k: int)
    requires
        0 < channels <= 0xffff,
        0 <= k < mono_f32(data, channels).len(),
        forall|i: int|
            k * channels <= i < k * channels + channels ==> at_least_one(
                level(#[trigger] data[i]),
            ),
    ensures
        mono_f32(data, channels)[k] == 32767,
{
    downmix::lemma_frame_inside(data.len(), channels, k as nat);
    let f = downmix::frame(data, channels, k);
    assert forall|i: int| 0 <= i < f.len() implies at_least_one(level(#[trigger] f[i])) by {
        assert(f[i] == data[k * channels + i]);
    }
    lemma_loud_total(f);
    if let Level::Finite(t) = total_f32(f) {
        let c = channels as int;
        let u = pow2(149) as int;
        lemma_full_share(c);
        lemma_share_ordered(c * u, t, c);
        let q = share(t, channels);
        lemma_full_scale_at(q, -300);
        lemma_pow2_pos(449);
        let g = pow2((q.e + 300) as nat) as int;
        assert(q.m > 0) by (nonlinear_arith)
            requires
                q.m * g > 0,
                g >= 0,
        ;
    }
}

proof fn lemma_not_a_number_total(frame: Seq<u32>, c: int)
    requires
        0 <= c < frame.len(),
        level(frame[c]) is NotANumber,
    ensures
        total_f32(frame) is NotANumber,
    decreases frame.len(),
{
    if c < frame.len() - 1 {
        assert(frame.drop_last()[c] == frame[c]);
        lemma_not_a_number_total(frame.drop_last(), c);
    }
}

/// A frame with a sample that is not a number is silent.
pub proof fn lemma_not_a_number(data: Seq<u32>, channels: nat, k: int, c: int)
    requires
        0 < channels,
        0 <= k < mono_f32(data, channels).len(),
        0 <= c < channels,
        level(data[k * channels + c]) is NotANumber,
    ensures
        mono_f32(data, channels)[k] == 0,
{
    downmix::lemma_frame_inside(data.len(), channels, k as nat);
    let f = downmix::frame(data, channels, k);
    assert(f[c] == data[k * channels + c]);
    lemma_not_a_number_total(f, c);
}

} // verus!
