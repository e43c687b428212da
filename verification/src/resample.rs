//! Resampling of captured audio to the rate that the transcription service takes.

use crate::binary;
use crate::binary::{Binary, DOUBLE};
use crate::resample_laws;
use vstd::arithmetic::power2::*;
use vstd::prelude::*;

verus! {

/// The rate that audio is resampled to, in samples per second.
pub const TARGET_RATE: u32 = 16000;

/// How many source samples one output sample stands for.
pub open spec fn ratio(rate: nat) -> binary::Dyadic {
    binary::quotient(53, binary::integer(53, rate as int), binary::integer(53, TARGET_RATE as int))
}

/// The number of output samples for `len` source samples.
pub open spec fn target_len(len: nat, rate: nat) -> int {
    binary::quotient(53, binary::integer(53, len as int), ratio(rate)).round()
}

/// Where output sample `i` falls among the source samples.
pub open spec fn position(i: nat, rate: nat) -> binary::Dyadic {
    binary::product(53, binary::integer(53, i as int), ratio(rate))
}

/// The source sample at or before output sample `i`.
pub open spec fn source_index(i: nat, rate: nat) -> int {
    position(i, rate).floor()
}

/// How far output sample `i` lies past `source_index`.
pub open spec fn weight(i: nat, rate: nat) -> binary::Dyadic {
    binary::difference(53, position(i, rate), binary::integer(53, source_index(i, rate)))
}

/// The point that divides the step from `s0` to `s1` at `w`.
pub open spec fn blend(s0: i16, s1: i16, w: binary::Dyadic) -> binary::Dyadic {
    binary::sum(
        53,
        binary::product(
            53,
            binary::difference(53, binary::integer(53, 1), w),
            binary::integer(53, s0 as int),
        ),
        binary::product(53, w, binary::integer(53, s1 as int)),
    )
}

/// The sample nearest to `n`.
pub open spec fn clamp(n: int) -> i16 {
    if n < i16::MIN {
        i16::MIN
    } else if n > i16::MAX {
        i16::MAX
    } else {
        n as i16
    }
}

/// The index after `source_index`, or the last one.
pub open spec fn next_index(i: nat, rate: nat, len: nat) -> int {
    let next = source_index(i, rate) + 1;
    if next < len {
        next
    } else {
        len - 1
    }
}

/// Output sample `i`.
pub open spec fn output_sample(input: Seq<i16>, rate: nat, i: nat) -> i16 {
    clamp(
        blend(
            input[source_index(i, rate)],
            input[next_index(i, rate, input.len())],
            weight(i, rate),
        ).round(),
    )
}

/// The samples of `input`, taken at `rate`, at the target rate.
pub open spec fn resampled(input: Seq<i16>, rate: nat) -> Seq<i16> {
    if rate == TARGET_RATE || input.len() == 0 {
        input
    } else {
        Seq::new(
            target_len(input.len(), rate) as nat,
            |i: int| output_sample(input, rate, i as nat),
        )
    }
}

/// Every output sample falls on a source sample, and the output fits in memory.
pub open spec fn covered(len: nat, rate: nat) -> bool {
    &&& 2 * target_len(len, rate) <= isize::MAX
    &&& forall|i: nat| i < target_len(len, rate) ==> #[trigger] source_index(i, rate) < len
}

/// A recording for which rounding errors cannot add up to a whole source sample.
pub open spec fn moderate(len: nat, rate: nat) -> bool {
    &&& len * TARGET_RATE <= rate * 0x2_0000_0000_0000
    &&& 2 * (len * TARGET_RATE + rate) <= rate * isize::MAX
}

/// Whether `len` samples taken at `rate` can be brought to the target rate.
pub open spec fn resamplable(len: nat, rate: nat) -> bool {
    ||| rate == TARGET_RATE
    ||| len == 0
    ||| rate > 0 && moderate(len, rate)
    ||| rate > 0 && covered(len, rate)
}

/// The powers of two that the bounds below need.
pub proof fn lemma_powers()
    ensures
        pow2(13) == 8192,
        pow2(14) == 16384,
        pow2(15) == 0x8000,
        pow2(16) == 0x1_0000,
        pow2(32) == 0x1_0000_0000,
        pow2(52) == 0x10_0000_0000_0000,
        pow2(53) == 0x20_0000_0000_0000,
        pow2(64) == 0x1_0000_0000_0000_0000,
{
    lemma2_to64();
    lemma2_to64_rest();
}

/// The ratio is a double of moderate size.
pub proof fn lemma_ratio_range(rate: nat)
    requires
        0 < rate < 0x1_0000_0000,
    ensures
        binary::full_width(ratio(rate), -66, -33),
        ratio(rate).m > 0,
{
    lemma_powers();
    binary::lemma_integer_range(rate as int, 32);
    binary::lemma_scale_integer(53, 16000, 13, 14);
    binary::lemma_integer_range(16000, 14);
    binary::lemma_nearest_mantissa(53, 16000, 1);
    let x = binary::integer(53, rate as int);
    binary::lemma_quotient_range(x, binary::integer(53, 16000), -52, -21, -39, -39);
}

/// The length before it is rounded is a double of moderate size.
pub proof fn lemma_target_range(len: nat, rate: nat)
    requires
        0 < len < pow2(64),
        0 < rate < 0x1_0000_0000,
    ensures
        binary::full_width(
            binary::quotient(53, binary::integer(53, len as int), ratio(rate)),
            -72,
            26,
        ),
{
    lemma_powers();
    lemma_ratio_range(rate);
    binary::lemma_integer_range(len as int, 64);
    binary::lemma_quotient_range(binary::integer(53, len as int), ratio(rate), -52, 11, -66, -33);
}

/// A position is zero or a double of moderate size.
pub proof fn lemma_position_range(i: nat, rate: nat)
    requires
        i < pow2(64),
        0 < rate < 0x1_0000_0000,
    ensures
        binary::full_width(position(i, rate), -66, 32),
        position(i, rate).m >= 0,
{
    lemma_powers();
    lemma_ratio_range(rate);
    binary::lemma_integer_range(i as int, 64);
    binary::lemma_product_range(binary::integer(53, i as int), ratio(rate), -52, 11, -66, -33);
    if i > 0 {
        let x = binary::integer(53, i as int);
        let y = ratio(rate);
        assert(x.m * y.m > 0) by (nonlinear_arith)
            requires
                x.m > 0,
                y.m > 0,
        ;
        binary::lemma_nearest_mantissa(53, x.m * y.m, 1);
    }
}

/// `n`, brought into the range of a sample.
pub fn to_sample(n: i128) -> (r: i16)
    ensures
        r == clamp(n as int),
{
    if n < i16::MIN as i128 {
        i16::MIN
    } else if n > i16::MAX as i128 {
        i16::MAX
    } else {
        n as i16
    }
}

/// The sample at `w` between `s0` and `s1`.
fn interpolate(s0: i16, s1: i16, w: Binary) -> (r: i16)
    requires
        binary::full_width(w@, -105, -53),
        w.mantissa >= 0,
    ensures
        r == clamp(blend(s0, s1, w@).round()),
{
    proof {
        lemma_powers();
        lemma2_to64();
        binary::lemma_one();
        binary::lemma_complement_range(w@);
        binary::lemma_integer_range(s0 as int, 16);
        binary::lemma_integer_range(s1 as int, 16);
        binary::lemma_pow2_mono(16, 126);
        let c = binary::difference(53, binary::integer(53, 1), w@);
        let a = binary::integer(53, s0 as int);
        let b = binary::integer(53, s1 as int);
        binary::lemma_product_range(c, a, -105, -52, -52, -37);
        binary::lemma_product_range(w@, b, -105, -53, -52, -37);
    }
    let rest = Binary::integer(DOUBLE, 1).minus(DOUBLE, w);
    let left = rest.times(DOUBLE, Binary::integer(DOUBLE, s0 as i128));
    let right = w.times(DOUBLE, Binary::integer(DOUBLE, s1 as i128));
    let blended = left.plus(DOUBLE, right);
    to_sample(blended.round())
}

/// Whether `len` samples taken at `rate` are sure to be brought to the target rate.
pub fn can_resample(len: usize, rate: u32) -> (r: bool)
    ensures
        r == (rate == TARGET_RATE || len == 0 || rate > 0 && moderate(len as nat, rate as nat)),
        r ==> resamplable(len as nat, rate as nat),
{
    if rate == TARGET_RATE || len == 0 {
        return true;
    }
    let scaled: u128 = len as u128 * TARGET_RATE as u128;
    let wide: u128 = rate as u128;
    assert(wide * (isize::MAX as u128) <= u128::MAX) by (nonlinear_arith)
        requires
            wide <= u32::MAX,
            isize::MAX <= 0x7fff_ffff_ffff_ffff,
    ;
    rate > 0 && scaled <= wide * 0x2_0000_0000_0000 && 2 * (scaled + wide) <= wide
        * isize::MAX as u128
}

/// Brings mono samples taken at `source_rate` to 16 kHz by linear interpolation in
/// double precision.
pub fn resample_mono_to_16k(input: &[i16], source_rate: u32) -> (output: Vec<i16>)
    requires
        resamplable(input@.len(), source_rate as nat),
    ensures
        output@ == resampled(input@, source_rate as nat),
{
    if source_rate == TARGET_RATE {
        return vstd::slice::slice_to_vec(input);
    }
    let count: usize = input.len();
    if count == 0 {
        return Vec::new();
    }
    let ghost len = input@.len();
    let ghost rate = source_rate as nat;
    proof {
        lemma_powers();
        if !covered(len, rate) {
            resample_laws::lemma_moderate_covered(len, rate);
        }
        lemma_ratio_range(rate);
        lemma_target_range(len, rate);
        binary::lemma_integer_range(rate as int, 32);
        binary::lemma_integer_range(16000, 14);
        binary::lemma_integer_range(len as int, 64);
        binary::lemma_pow2_mono(64, 126);
        binary::lemma_pow2_mono(32, 126);
        binary::lemma_pow2_mono(14, 126);
    }
    let step = Binary::integer(DOUBLE, source_rate as i128).over(
        DOUBLE,
        Binary::integer(DOUBLE, TARGET_RATE as i128),
    );
    let length = Binary::integer(DOUBLE, count as i128).over(DOUBLE, step).round();
    proof {
        let exact = binary::quotient(53, binary::integer(53, len as int), ratio(rate));
        binary::lemma_round_sign(exact);
        assert(length == target_len(len, rate));
    }
    let target: usize = length as usize;
    let mut output: Vec<i16> = Vec::with_capacity(target);
    let mut i: usize = 0;
    while i < target
        invariant
            count == input@.len(),
            len == input@.len(),
            0 < len,
            rate == source_rate,
            0 < rate,
            i <= target,
            target == target_len(len, rate),
            covered(len, rate),
            step@ == ratio(rate),
            binary::full_width(ratio(rate), -66, -33),
            ratio(rate).m > 0,
            output@ == Seq::new(i as nat, |j: int| output_sample(input@, rate, j as nat)),
        decreases target - i,
    {
        proof {
            lemma_powers();
            lemma_position_range(i as nat, rate);
            binary::lemma_integer_range(i as int, 64);
            binary::lemma_pow2_mono(64, 126);
            assert(source_index(i as nat, rate) < len);
            binary::lemma_fraction_range(position(i as nat, rate));
            let x = position(i as nat, rate);
            if x.m != 0 {
                binary::lemma_floor_exponent(x);
            }
        }
        let at = Binary::integer(DOUBLE, i as i128).times(DOUBLE, step);
        let low: usize = at.floor() as usize;
        let high: usize = if low + 1 < count {
            low + 1
        } else {
            count - 1
        };
        proof {
            binary::lemma_integer_range(low as int, 64);
        }
        let w = at.minus(DOUBLE, Binary::integer(DOUBLE, low as i128));
        output.push(interpolate(input[low], input[high], w));
        i = i + 1;
    }
    output
}

} // verus!
