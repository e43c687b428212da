//! Mixing of interleaved frames down to mono.

use crate::binary;
use crate::binary::{Binary, SINGLE};
use crate::resample;
use crate::resample::to_sample;
use crate::single;
use vstd::arithmetic::div_mod::*;
use vstd::arithmetic::power2::*;
use vstd::prelude::*;

verus! {

/// Frame `k` of interleaved `data`.
pub open spec fn frame<T>(data: Seq<T>, channels: nat, k: int) -> Seq<T> {
    data.subrange(k * channels, (k + 1) * channels)
}

/// `n / d`, rounded towards zero.
pub open spec fn truncated(n: int, d: nat) -> int {
    if n < 0 {
        -((-n) / (d as int))
    } else {
        n / (d as int)
    }
}

/// The sum of a frame.
pub open spec fn total_i16(frame: Seq<i16>) -> int
    decreases frame.len(),
{
    if frame.len() == 0 {
        0
    } else {
        total_i16(frame.drop_last()) + frame.last()
    }
}

/// The average of each whole frame, rounded towards zero.
pub open spec fn mono_i16(data: Seq<i16>, channels: nat) -> Seq<i16> {
    Seq::new(
        data.len() / channels,
        |k: int| truncated(total_i16(frame(data, channels, k)), channels) as i16,
    )
}

proof fn lemma_total_bound(frame: Seq<i16>)
    ensures
        -0x8000 * frame.len() <= total_i16(frame) <= 0x7fff * frame.len(),
    decreases frame.len(),
{
    if frame.len() > 0 {
        lemma_total_bound(frame.drop_last());
    }
}

/// A whole frame lies inside the data.
pub proof fn lemma_frame_inside(len: nat, channels: nat, k: nat)
    requires
        channels > 0,
        k < len / channels,
    ensures
        0 <= k * channels,
        (k + 1) * channels <= len,
        (k + 1) * channels == k * channels + channels,
{
    let q = len / channels;
    lemma_fundamental_div_mod(len as int, channels as int);
    lemma_mod_bound(len as int, channels as int);
    assert((k + 1) * channels <= q * channels) by (nonlinear_arith)
        requires
            k + 1 <= q,
    ;
    assert(channels * q == q * channels) by (nonlinear_arith);
    assert((k + 1) * channels == k * channels + channels) by (nonlinear_arith);
    assert(0 <= k * channels) by (nonlinear_arith);
}

/// The average of the frame that starts at `start`.
fn average_i16(data: &[i16], start: usize, channels: u16) -> (r: i16)
    requires
        channels > 0,
        start + channels <= data@.len(),
    ensures
        r == truncated(total_i16(data@.subrange(start as int, start + channels)), channels as nat),
{
    let len: usize = data.len();
    let mut total: i32 = 0;
    let mut c: u16 = 0;
    assert(data@.subrange(start as int, start as int) == Seq::<i16>::empty());
    while c < channels
        invariant
            c <= channels,
            start + channels <= len,
            len == data@.len(),
            total == total_i16(data@.subrange(start as int, start + c)),
        decreases channels - c,
    {
        let ghost next = data@.subrange(start as int, start + c + 1);
        proof {
            assert(next.drop_last() == data@.subrange(start as int, start + c));
            lemma_total_bound(next);
            assert(next.last() == data@[start + c]);
        }
        total = total + data[start + c as usize] as i32;
        c = c + 1;
    }
    let ghost whole = data@.subrange(start as int, start + channels);
    proof {
        lemma_total_bound(whole);
        lemma_average_bound(total as int, channels as int);
    }
    if total < 0 {
        let magnitude: u32 = (-(total as i64)) as u32;
        (-((magnitude / channels as u32) as i32)) as i16
    } else {
        (total as u32 / channels as u32) as i16
    }
}

proof fn lemma_average_bound(total: int, channels: int)
    requires
        channels > 0,
        -0x8000 * channels <= total <= 0x7fff * channels,
    ensures
        total < 0 ==> 0 <= (-total) / channels <= 0x8000,
        total >= 0 ==> 0 <= total / channels <= 0x7fff,
{
    if total < 0 {
        lemma_div_is_ordered(-total, 0x8000 * channels, channels);
        lemma_div_by_multiple(0x8000, channels);
        lemma_div_pos_is_pos(-total, channels);
    } else {
        lemma_div_is_ordered(total, 0x7fff * channels, channels);
        lemma_div_by_multiple(0x7fff, channels);
        lemma_div_pos_is_pos(total, channels);
    }
}

/// Appends to `buffer` the mono mix of interleaved 16-bit samples. Samples of a last,
/// incomplete frame are left out.
pub fn append_i16(buffer: &mut Vec<i16>, data: &[i16], channels: u16)
    requires
        channels > 0,
    ensures
        final(buffer)@ == old(buffer)@ + mono_i16(data@, channels as nat),
{
    let frames: usize = data.len() / channels as usize;
    let mut k: usize = 0;
    let mut start: usize = 0;
    let ghost before = buffer@;
    assert(before + Seq::<i16>::empty() == before);
    while k < frames
        invariant
            channels > 0,
            frames == data@.len() / (channels as nat),
            data@.len() <= usize::MAX,
            k <= frames,
            start == k * channels,
            start <= data@.len(),
            buffer@ == before + mono_i16(data@, channels as nat).subrange(0, k as int),
        decreases frames - k,
    {
        proof {
            lemma_frame_inside(data@.len(), channels as nat, k as nat);
        }
        let r = average_i16(data, start, channels);
        proof {
            let mono = mono_i16(data@, channels as nat);
            assert(mono[k as int] == r);
            assert(mono.subrange(0, k + 1) == mono.subrange(0, k as int).push(r));
        }
        buffer.push(r);
        start = start + channels as usize;
        k = k + 1;
    }
    proof {
        let mono = mono_i16(data@, channels as nat);
        assert(mono.subrange(0, mono.len() as int) == mono);
    }
}

/// The sum of a frame of unsigned samples about their midpoint, added up in single
/// precision.
pub open spec fn total_u16(frame: Seq<u16>) -> int
    decreases frame.len(),
{
    if frame.len() == 0 {
        0
    } else {
        single::rounded(total_u16(frame.drop_last()) + (frame.last() - 0x8000))
    }
}

/// The average of a frame of unsigned samples, in single precision.
pub open spec fn average_u16(frame: Seq<u16>) -> i16 {
    resample::clamp(
        binary::quotient(
            24,
            binary::integer(24, total_u16(frame)),
            binary::integer(24, frame.len() as int),
        ).round(),
    )
}

/// The average of each whole frame of unsigned samples.
pub open spec fn mono_u16(data: Seq<u16>, channels: nat) -> Seq<i16> {
    Seq::new(data.len() / channels, |k: int| average_u16(frame(data, channels, k)))
}

proof fn lemma_total_u16_bound(frame: Seq<u16>)
    requires
        frame.len() <= 0xffff,
    ensures
        -33024 * frame.len() <= total_u16(frame) <= 33024 * frame.len(),
    decreases frame.len(),
{
    if frame.len() > 0 {
        lemma_total_u16_bound(frame.drop_last());
        single::lemma_error(total_u16(frame.drop_last()) + (frame.last() - 0x8000));
    }
}

/// The average of the frame of unsigned samples that starts at `start`.
fn mix_u16(data: &[u16], start: usize, channels: u16) -> (r: i16)
    requires
        channels > 0,
        start + channels <= data@.len(),
    ensures
        r == average_u16(data@.subrange(start as int, start + channels)),
{
    let len: usize = data.len();
    let mut total: i128 = 0;
    let mut c: u16 = 0;
    assert(data@.subrange(start as int, start as int) == Seq::<u16>::empty());
    while c < channels
        invariant
            c <= channels,
            start + channels <= len,
            len == data@.len(),
            total == total_u16(data@.subrange(start as int, start + c)),
        decreases channels - c,
    {
        let ghost prior = data@.subrange(start as int, start + c);
        let ghost next = data@.subrange(start as int, start + c + 1);
        proof {
            assert(next.drop_last() == prior);
            lemma_total_u16_bound(prior);
            assert(next.last() == data@[start + c]);
            single::lemma_range(total + (next.last() - 0x8000));
            binary::lemma_pow2_mono(33, 126);
            single::lemma_powers();
        }
        let sample: u16 = data[start + c as usize];
        total = Binary::integer(SINGLE, total + (sample as i128 - 0x8000)).round();
        c = c + 1;
    }
    let ghost whole = data@.subrange(start as int, start + channels);
    proof {
        lemma_total_u16_bound(whole);
        single::lemma_range(total as int);
        single::lemma_range(channels as int);
        binary::lemma_pow2_mono(33, 126);
        single::lemma_powers();
        single::lemma_quotient(total as int, channels as int);
    }
    let average = Binary::integer(SINGLE, total).over(
        SINGLE,
        Binary::integer(SINGLE, channels as i128),
    );
    to_sample(average.round())
}

/// Appends to `buffer` the mono mix of interleaved unsigned 16-bit samples. Samples of a
/// last, incomplete frame are left out.
pub fn append_u16(buffer: &mut Vec<i16>, data: &[u16], channels: u16)
    requires
        channels > 0,
    ensures
        final(buffer)@ == old(buffer)@ + mono_u16(data@, channels as nat),
{
    let frames: usize = data.len() / channels as usize;
    let mut k: usize = 0;
    let mut start: usize = 0;
    let ghost before = buffer@;
    assert(before + Seq::<i16>::empty() == before);
    while k < frames
        invariant
            channels > 0,
            frames == data@.len() / (channels as nat),
            data@.len() <= usize::MAX,
            k <= frames,
            start == k * channels,
            start <= data@.len(),
            buffer@ == before + mono_u16(data@, channels as nat).subrange(0, k as int),
        decreases frames - k,
    {
        proof {
            lemma_frame_inside(data@.len(), channels as nat, k as nat);
        }
        let r = mix_u16(data, start, channels);
        proof {
            let mono = mono_u16(data@, channels as nat);
            assert(mono[k as int] == r);
            assert(mono.subrange(0, k + 1) == mono.subrange(0, k as int).push(r));
        }
        buffer.push(r);
        start = start + channels as usize;
        k = k + 1;
    }
    proof {
        let mono = mono_u16(data@, channels as nat);
        assert(mono.subrange(0, mono.len() as int) == mono);
    }
}

/// How many frames two deliveries hold, the first of which holds whole frames.
pub proof fn lemma_frames_concat(a: nat, b: nat, channels: nat, k: nat)
    requires
        channels > 0,
        a % channels == 0,
    ensures
        (a + b) / channels == a / channels + b / channels,
        k < a / channels ==> (k + 1) * channels <= a,
        k * channels + (a / channels) * channels == (k + a / channels) * channels,
        (a / channels) * channels == a,
{
    let q = a / channels;
    let d = channels as int;
    lemma_fundamental_div_mod(a as int, d);
    lemma_fundamental_div_mod(b as int, d);
    lemma_mod_bound(b as int, d);
    let r = b / channels;
    let rest = b % channels;
    assert(d * q == q * d && d * (q + r) == d * q + d * r) by (nonlinear_arith);
    assert((q + r) * d == d * (q + r)) by (nonlinear_arith);
    lemma_fundamental_div_mod_converse((a + b) as int, d, (q + r) as int, rest as int);
    if k < q {
        lemma_frame_inside(a, channels, k);
    }
    assert(k * d + q * d == (k + q) * d) by (nonlinear_arith);
}

/// Which frames two deliveries hold, the first of which holds whole frames.
pub proof fn lemma_frame_concat<T>(a: Seq<T>, b: Seq<T>, channels: nat, k: int)
    requires
        channels > 0,
        a.len() % channels == 0,
        0 <= k < (a + b).len() / channels,
    ensures
        (a + b).len() / channels == a.len() / channels + b.len() / channels,
        k < a.len() / channels ==> frame(a + b, channels, k) == frame(a, channels, k),
        k >= a.len() / channels ==> frame(a + b, channels, k) == frame(
            b,
            channels,
            k - a.len() / channels,
        ),
{
    let q = a.len() / channels;
    lemma_frames_concat(a.len(), b.len(), channels, 0);
    if k < q {
        lemma_frames_concat(a.len(), b.len(), channels, k as nat);
        assert(0 <= k * channels <= (k + 1) * channels) by (nonlinear_arith)
            requires
                k >= 0,
        ;
        assert(frame(a + b, channels, k) =~= frame(a, channels, k));
    } else {
        let j = k - q;
        lemma_frames_concat(a.len(), b.len(), channels, j as nat);
        lemma_frames_concat(a.len(), b.len(), channels, (j + 1) as nat);
        lemma_frame_inside(b.len(), channels, j as nat);
        assert(frame(a + b, channels, k) =~= frame(b, channels, j));
    }
}

/// How a recording is cut into deliveries makes no difference, as long as each holds whole
/// frames: the mix of two deliveries is the mix of one after the mix of the other.
pub proof fn lemma_deliveries_i16(a: Seq<i16>, b: Seq<i16>, channels: nat)
    requires
        channels > 0,
        a.len() % channels == 0,
    ensures
        mono_i16(a + b, channels) == mono_i16(a, channels) + mono_i16(b, channels),
{
    lemma_frames_concat(a.len(), b.len(), channels, 0);
    let left = mono_i16(a + b, channels);
    let right = mono_i16(a, channels) + mono_i16(b, channels);
    assert forall|k: int| 0 <= k < left.len() implies left[k] == right[k] by {
        lemma_frame_concat(a, b, channels, k);
    }
    assert(left =~= right);
}

/// How a recording of unsigned samples is cut into deliveries makes no difference, as long
/// as each holds whole frames.
pub proof fn lemma_deliveries_u16(a: Seq<u16>, b: Seq<u16>, channels: nat)
    requires
        channels > 0,
        a.len() % channels == 0,
    ensures
        mono_u16(a + b, channels) == mono_u16(a, channels) + mono_u16(b, channels),
{
    lemma_frames_concat(a.len(), b.len(), channels, 0);
    let left = mono_u16(a + b, channels);
    let right = mono_u16(a, channels) + mono_u16(b, channels);
    assert forall|k: int| 0 <= k < left.len() implies left[k] == right[k] by {
        lemma_frame_concat(a, b, channels, k);
    }
    assert(left =~= right);
}

proof fn lemma_total_between(frame: Seq<i16>, lo: i16, hi: i16)
    requires
        forall|c: int| 0 <= c < frame.len() ==> lo <= #[trigger] frame[c] <= hi,
    ensures
        lo * frame.len() <= total_i16(frame) <= hi * frame.len(),
    decreases frame.len(),
{
    if frame.len() > 0 {
        lemma_total_between(frame.drop_last(), lo, hi);
        let n = frame.len() as int;
        assert(lo * n == lo * (n - 1) + lo) by (nonlinear_arith);
        assert(hi * n == hi * (n - 1) + hi) by (nonlinear_arith);
        assert(lo <= frame[n - 1] <= hi);
    }
}

/// The mix of a frame lies in the range of its samples.
pub proof fn lemma_average_between(frame: Seq<i16>, lo: i16, hi: i16)
    requires
        frame.len() > 0,
        forall|c: int| 0 <= c < frame.len() ==> lo <= #[trigger] frame[c] <= hi,
    ensures
        lo <= truncated(total_i16(frame), frame.len()) <= hi,
{
    lemma_total_between(frame, lo, hi);
    let total = total_i16(frame);
    let n = frame.len() as int;
    assert(frame[0] == frame[0]);
    if total < 0 {
        let q = (-total) / n;
        lemma_fundamental_div_mod(-total, n);
        lemma_mod_bound(-total, n);
        let r = (-total) % n;
        assert(lo <= -q <= hi) by (nonlinear_arith)
            requires
                -total == n * q + r,
                0 <= r < n,
                lo * n <= total <= hi * n,
        ;
    } else {
        let q = total / n;
        lemma_fundamental_div_mod(total, n);
        lemma_mod_bound(total, n);
        let r = total % n;
        assert(lo <= q <= hi) by (nonlinear_arith)
            requires
                total == n * q + r,
                0 <= r < n,
                lo * n <= total <= hi * n,
        ;
    }
}

/// A recording of one channel is its own mix.
pub proof fn lemma_one_channel_i16(data: Seq<i16>)
    ensures
        mono_i16(data, 1) == data,
{
    assert forall|k: int| 0 <= k < data.len() implies mono_i16(data, 1)[k] == data[k] by {
        let f = frame(data, 1, k);
        assert(f =~= seq![data[k]]);
        assert(f.drop_last() =~= Seq::empty());
        assert(total_i16(f.drop_last()) == 0);
        lemma_div_basics(data[k] as int);
        lemma_div_basics(-(data[k] as int));
    }
    assert(mono_i16(data, 1) =~= data);
}

/// The sum of a frame of unsigned samples about their midpoint.
pub open spec fn exact_total_u16(frame: Seq<u16>) -> int
    decreases frame.len(),
{
    if frame.len() == 0 {
        0
    } else {
        exact_total_u16(frame.drop_last()) + (frame.last() - 0x8000)
    }
}

/// Adding up in single precision loses nothing for frames of up to 512 channels.
pub proof fn lemma_total_u16_exact(frame: Seq<u16>)
    requires
        frame.len() <= 512,
    ensures
        total_u16(frame) == exact_total_u16(frame),
        -0x8000 * frame.len() <= total_u16(frame) <= 0x8000 * frame.len(),
    decreases frame.len(),
{
    if frame.len() > 0 {
        lemma_total_u16_exact(frame.drop_last());
        single::lemma_exact(total_u16(frame.drop_last()) + (frame.last() - 0x8000));
    }
}

/// Dividing by one in single precision changes nothing.
proof fn lemma_single_over_one(n: int)
    requires
        -0x8000 <= n <= 0x7fff,
    ensures
        binary::quotient(24, binary::integer(24, n), binary::integer(24, 1)).round() == n,
{
    single::lemma_powers();
    lemma2_to64();
    single::lemma_range(n);
    single::lemma_exact(n);
    let x = binary::integer(24, n);
    let y = binary::integer(24, 1);
    binary::lemma_scale_integer(24, 1, 0, 1);
    binary::lemma_exact_integer_at(24, 1, -23);
    assert(y.e == -23 && y.m == 0x80_0000) by {
        assert(y.m * pow2(0) == y.m) by (nonlinear_arith)
            requires
                pow2(0) == 1,
        ;
    }
    let z = binary::quotient(24, x, y);
    let h = pow2(100) as int;
    lemma_pow2_pos(100);
    if n == 0 {
        binary::lemma_round_sign(z);
    } else {
        let a = binary::abs(x.m);
        let q = binary::nearest(24, a as int, 0x80_0000);
        single::lemma_quotient(n, 1);
        binary::lemma_nearest_mantissa(24, x.m, 0x80_0000);
        binary::lemma_nearest_mantissa(24, a as int, 0x80_0000);
        assert(z.e == q.e + x.e + 23);
        binary::lemma_nearest_exact(24, a, 0x80_0000, a, 23, -123 - x.e);
        // z is x again, in units of 2^-100
        let g = pow2((z.e + 100) as nat) as int;
        let c = pow2((x.e + 100) as nat) as int;
        lemma_pow2_adds((x.e + 100) as nat, 23);
        let t = pow2(23) as int;
        assert(q.m * g == a * c) by (nonlinear_arith)
            requires
                (q.m * g) * t == a * (c * t),
                t > 0,
        ;
        assert(z.m == if x.m < 0 {
            -q.m
        } else {
            q.m
        });
        assert(z.at(-100) == x.m * c) by (nonlinear_arith)
            requires
                z.at(-100) == z.m * g,
                q.m * g == a * c,
                x.m < 0 ==> z.m == -q.m && a == -x.m,
                x.m >= 0 ==> z.m == q.m && a == x.m,
        ;
        let d = pow2((x.e + 30) as nat) as int;
        let e = pow2(70) as int;
        lemma_pow2_adds((x.e + 30) as nat, 70);
        lemma_pow2_adds(30, 70);
        assert(x.m * c == n * h) by (nonlinear_arith)
            requires
                x.m * d == n * pow2(30),
                c == d * e,
                h == pow2(30) * e,
        ;
        binary::lemma_signed_round_at(z, -100);
        single::lemma_nearest_whole(z.round(), n, h);
    }
}

/// A recording of one channel of unsigned samples is mixed to the same samples about
/// their midpoint.
pub proof fn lemma_one_channel_u16(data: Seq<u16>, k: int)
    requires
        0 <= k < data.len(),
    ensures
        mono_u16(data, 1).len() == data.len(),
        mono_u16(data, 1)[k] == data[k] - 0x8000,
{
    let f = frame(data, 1, k);
    assert(f =~= seq![data[k]]);
    assert(f.drop_last() =~= Seq::empty());
    assert(exact_total_u16(f.drop_last()) == 0);
    lemma_total_u16_exact(f);
    lemma_single_over_one(data[k] - 0x8000);
}

/// The sum of a frame is that of its parts.
pub proof fn lemma_total_i16(a: Seq<i16>, b: Seq<i16>, x: i16)
    ensures
        total_i16(Seq::empty()) == 0,
        total_i16(seq![x]) == x,
        total_i16(a + b) == total_i16(a) + total_i16(b),
    decreases b.len(),
{
    assert(seq![x].drop_last() =~= Seq::empty());
    assert(total_i16(seq![x].drop_last()) == 0);
    if b.len() == 0 {
        assert(a + b =~= a);
    } else {
        assert((a + b).drop_last() =~= a + b.drop_last());
        lemma_total_i16(a, b.drop_last(), x);
    }
}

/// The exact sum of a frame of unsigned samples about their midpoint is that of its parts.
pub proof fn lemma_total_u16(a: Seq<u16>, b: Seq<u16>, x: u16)
    ensures
        exact_total_u16(Seq::empty()) == 0,
        exact_total_u16(seq![x]) == x - 0x8000,
        exact_total_u16(a + b) == exact_total_u16(a) + exact_total_u16(b),
    decreases b.len(),
{
    assert(seq![x].drop_last() =~= Seq::empty());
    assert(exact_total_u16(seq![x].drop_last()) == 0);
    if b.len() == 0 {
        assert(a + b =~= a);
    } else {
        assert((a + b).drop_last() =~= a + b.drop_last());
        lemma_total_u16(a, b.drop_last(), x);
    }
}

/// How many samples a mix has: one for each whole frame.
pub proof fn lemma_mix_length(len: nat, channels: nat)
    requires
        channels > 0,
    ensures
        (len / channels) * channels <= len < (len / channels + 1) * channels,
{
    lemma_fundamental_div_mod(len as int, channels as int);
    lemma_mod_bound(len as int, channels as int);
    let q = len / channels;
    assert(channels * q == q * channels && (q + 1) * channels == q * channels + channels)
        by (nonlinear_arith);
}

/// A mix has a sample for each whole frame. It is the average of the frame, cut towards zero:
/// it is on the same side of zero as the sum, no further from it than the average, and less
/// than one nearer.
pub proof fn lemma_mix_i16(data: Seq<i16>, channels: nat, k: int)
    requires
        0 < channels <= 0xffff,
        0 <= k < mono_i16(data, channels).len(),
    ensures
        mono_i16(data, channels).len() * channels <= data.len() < (mono_i16(data, channels).len()
            + 1) * channels,
        ({
            let total = total_i16(data.subrange(k * channels, k * channels + channels));
            let r = mono_i16(data, channels)[k] as int;
            &&& total >= 0 ==> 0 <= channels * r <= total < channels * r + channels
            &&& total <= 0 ==> channels * r - channels < total <= channels * r <= 0
        }),
{
    lemma_mix_length(data.len(), channels);
    lemma_frame_inside(data.len(), channels, k as nat);
    let f = frame(data, channels, k);
    assert(f =~= data.subrange(k * channels, k * channels + channels));
    let total = total_i16(f);
    lemma_total_bound(f);
    let d = channels as int;
    lemma_average_bound(total, d);
    let r = mono_i16(data, channels)[k] as int;
    if total < 0 {
        let q = (-total) / d;
        lemma_fundamental_div_mod(-total, d);
        lemma_mod_bound(-total, d);
        assert(r == -q);
        assert(d * r == -(d * q)) by (nonlinear_arith)
            requires
                r == -q,
        ;
    } else {
        let q = total / d;
        lemma_fundamental_div_mod(total, d);
        lemma_mod_bound(total, d);
        assert(r == q);
    }
}

/// A mix stays in the range of its frame.
pub proof fn lemma_mix_between_i16(data: Seq<i16>, channels: nat, k: int, lo: i16, hi: i16)
    requires
        0 < channels <= 0xffff,
        0 <= k < mono_i16(data, channels).len(),
        forall|i: int|
            k * channels <= i < k * channels + channels ==> lo <= #[trigger] data[i] <= hi,
    ensures
        lo <= mono_i16(data, channels)[k] <= hi,
{
    lemma_frame_inside(data.len(), channels, k as nat);
    let f = frame(data, channels, k);
    assert forall|c: int| 0 <= c < f.len() implies lo <= #[trigger] f[c] <= hi by {
        assert(f[c] == data[k * channels + c]);
    }
    lemma_average_between(f, lo, hi);
    lemma_total_bound(f);
    lemma_average_bound(total_i16(f), channels as int);
}

/// Two channels are mixed to half of their sum, cut towards zero.
pub proof fn lemma_stereo_i16(data: Seq<i16>, k: int)
    requires
        0 <= k < mono_i16(data, 2).len(),
    ensures
        2 * k + 1 < data.len(),
        ({
            let total = data[2 * k] + data[2 * k + 1];
            let r = mono_i16(data, 2)[k] as int;
            2 * r == total || 2 * r == total - 1 && total > 0 || 2 * r == total + 1 && total < 0
        }),
{
    lemma_mix_i16(data, 2, k);
    let f = data.subrange(k * 2, k * 2 + 2);
    assert(f =~= seq![data[2 * k]] + seq![data[2 * k + 1]]);
    lemma_total_i16(seq![data[2 * k]], seq![data[2 * k + 1]], data[2 * k]);
    lemma_total_i16(Seq::empty(), Seq::empty(), data[2 * k + 1]);
}

/// A mix of unsigned samples has a sample for each whole frame. For up to 128 channels it is
/// an integer nearest to the average of the frame about the midpoint.
pub proof fn lemma_mix_u16(data: Seq<u16>, channels: nat, k: int)
    requires
        0 < channels <= 128,
        0 <= k < mono_u16(data, channels).len(),
    ensures
        mono_u16(data, channels).len() * channels <= data.len() < (mono_u16(data, channels).len()
            + 1) * channels,
        ({
            let total = exact_total_u16(data.subrange(k * channels, k * channels + channels));
            let r = mono_u16(data, channels)[k] as int;
            2 * binary::abs(channels * r - total) <= channels
        }),
{
    lemma_mix_length(data.len(), channels);
    lemma_frame_inside(data.len(), channels, k as nat);
    let f = frame(data, channels, k);
    assert(f =~= data.subrange(k * channels, k * channels + channels));
    lemma_total_u16_exact(f);
    lemma_total_u16_below(f);
    let total = total_u16(f);
    let d = channels as int;
    single::lemma_nearest_quotient(total, d);
    let q = binary::quotient(24, binary::integer(24, total), binary::integer(24, d)).round();
    assert(-0x8000 <= q <= 0x7fff) by (nonlinear_arith)
        requires
            -d <= 2 * (d * q - total) <= d,
            -0x8000 * d <= total <= 0x7fff * d,
            d > 0,
    ;
}

proof fn lemma_total_u16_below(frame: Seq<u16>)
    ensures
        exact_total_u16(frame) <= 0x7fff * frame.len(),
    decreases frame.len(),
{
    if frame.len() > 0 {
        lemma_total_u16_below(frame.drop_last());
    }
}

/// Two channels of unsigned samples are mixed to half of their sum about the midpoint, to the
/// nearest integer.
pub proof fn lemma_stereo_u16(data: Seq<u16>, k: int)
    requires
        0 <= k < mono_u16(data, 2).len(),
    ensures
        2 * k + 1 < data.len(),
        -1 <= 2 * mono_u16(data, 2)[k] - (data[2 * k] + data[2 * k + 1] - 0x1_0000) <= 1,
{
    lemma_mix_u16(data, 2, k);
    let f = data.subrange(k * 2, k * 2 + 2);
    assert(f =~= seq![data[2 * k]] + seq![data[2 * k + 1]]);
    lemma_total_u16(seq![data[2 * k]], seq![data[2 * k + 1]], data[2 * k]);
    lemma_total_u16(Seq::empty(), Seq::empty(), data[2 * k + 1]);
}

} // verus!
