use voice_prompt::resample::{can_resample, resample_mono_to_16k, to_sample};

/// The same computation in hardware doubles.
fn in_doubles(input: &[i16], source_rate: u32) -> Vec<i16> {
    if source_rate == 16000 {
        return input.to_vec();
    }
    if input.is_empty() {
        return Vec::new();
    }
    let ratio = source_rate as f64 / 16000.0_f64;
    let target_len = ((input.len() as f64) / ratio).round() as usize;
    let mut output = Vec::with_capacity(target_len);
    for i in 0..target_len {
        let src_pos = i as f64 * ratio;
        let idx0 = src_pos.floor() as usize;
        let idx1 = (idx0 + 1).min(input.len() - 1);
        let frac = src_pos - idx0 as f64;
        let s0 = input[idx0] as f64;
        let s1 = input[idx1] as f64;
        let sample = (1.0 - frac) * s0 + frac * s1;
        output.push(sample.round().clamp(i16::MIN as f64, i16::MAX as f64) as i16);
    }
    output
}

/// Samples that look like noise.
fn noise(len: usize, seed: u64) -> Vec<i16> {
    let mut state = seed;
    let mut samples = Vec::new();
    for _ in 0..len {
        state = state.wrapping_mul(6364136223846793005).wrapping_add(1442695040888963407);
        samples.push((state >> 48) as i16);
    }
    samples
}

#[test]
fn the_target_rate_changes_nothing() {
    let input = vec![1, -2, i16::MAX, i16::MIN];
    assert_eq!(resample_mono_to_16k(&input, 16000), input);
}

#[test]
fn nothing_in_nothing_out() {
    assert_eq!(resample_mono_to_16k(&[], 48000), Vec::<i16>::new());
    assert_eq!(resample_mono_to_16k(&[], 0), Vec::<i16>::new());
}

#[test]
fn every_third_sample_of_48_khz() {
    let input = noise(300, 1);
    let output = resample_mono_to_16k(&input, 48000);
    assert_eq!(output.len(), 100);
    for i in 0..100 {
        assert_eq!(output[i], input[3 * i]);
    }
}

#[test]
fn half_the_rate_is_interpolated() {
    assert_eq!(resample_mono_to_16k(&[0, 100, 200], 8000), vec![0, 50, 100, 150, 200, 200]);
    assert_eq!(resample_mono_to_16k(&[0, 1, 0, -1], 8000), vec![0, 1, 1, 1, 0, -1, -1, -1]);
}

#[test]
fn exact_values_for_44100_hz() {
    let input: Vec<i16> = vec![0, 1000, 2000, 3000, 4000, 5000, 6000, 7000, 8000, 9000, 10000];
    assert_eq!(resample_mono_to_16k(&input, 44100), vec![0, 2756, 5513, 8269]);
}

#[test]
fn every_rate_agrees_with_doubles() {
    let rates = [
        1, 7, 8000, 11025, 12000, 15999, 16001, 22050, 24000, 32000, 44100, 47999, 48000, 88200,
        96000, 176400, 192000, 384000, 1_000_003, 4_294_967_295,
    ];
    let mut seed = 3;
    for &rate in rates.iter() {
        let longest = if rate < 100 { 3 } else { 700 };
        for &len in [1, 2, 3, 10, 441, 700].iter() {
            if len <= longest {
                seed += 1;
                let input = noise(len, seed);
                assert_eq!(resample_mono_to_16k(&input, rate), in_doubles(&input, rate));
            }
        }
    }
}

#[test]
fn many_rates_agree_with_doubles() {
    let mut rate: u32 = 5000;
    while rate < 60000 {
        let input = noise(97, rate as u64);
        assert_eq!(resample_mono_to_16k(&input, rate), in_doubles(&input, rate));
        rate += 331;
    }
}

#[test]
fn extremes_agree_with_doubles() {
    let mut input = Vec::new();
    for i in 0..400 {
        input.push(if i % 2 == 0 { i16::MIN } else { i16::MAX });
    }
    for &rate in [8000, 11025, 44100, 22050, 17000].iter() {
        assert_eq!(resample_mono_to_16k(&input, rate), in_doubles(&input, rate));
    }
}

#[test]
fn the_duration_is_kept() {
    for &rate in [8000u32, 11025, 22050, 44100, 48000, 96000].iter() {
        let output = resample_mono_to_16k(&noise(1000, 9), rate);
        let scaled = output.len() as i64 * rate as i64;
        assert!((scaled - 16_000_000).abs() <= rate as i64);
    }
}

#[test]
fn silence_stays_silence() {
    assert!(resample_mono_to_16k(&[0; 500], 44100).iter().all(|&s| s == 0));
}

#[test]
fn a_constant_stays_that_constant() {
    for &level in [i16::MIN, -1, 1, 12345, i16::MAX].iter() {
        assert!(resample_mono_to_16k(&[level; 200], 44100).iter().all(|&s| s == level));
        assert!(resample_mono_to_16k(&[level; 200], 11025).iter().all(|&s| s == level));
    }
}

#[test]
fn output_lies_between_its_neighbours() {
    let input = noise(500, 77);
    let output = resample_mono_to_16k(&input, 44100);
    for (i, &s) in output.iter().enumerate() {
        let low = i * 44100 / 16000;
        let a = input[low];
        let b = input[(low + 1).min(input.len() - 1)];
        assert!(a.min(b) <= s && s <= a.max(b));
    }
}

#[test]
fn recordings_of_any_usual_size_can_be_resampled() {
    assert!(can_resample(0, 0));
    assert!(!can_resample(1, 0));
    assert!(can_resample(48000 * 3600 * 24, 48000));
    assert!(can_resample(usize::MAX, 16000));
    assert!(!can_resample(usize::MAX, 8000));
}

#[test]
fn samples_are_clamped() {
    assert_eq!(to_sample(40000), i16::MAX);
    assert_eq!(to_sample(-40000), i16::MIN);
    assert_eq!(to_sample(-5), -5);
}

#[test]
fn the_length_is_the_nearest_one() {
    for &rate in [7999u32, 8000, 11025, 22050, 32000, 44100, 48000, 96000].iter() {
        for len in 1..300usize {
            let n = resample_mono_to_16k(&vec![0; len], rate).len() as i64;
            let off = n * rate as i64 - len as i64 * 16000;
            assert!(2 * off.abs() <= rate as i64);
        }
    }
}

#[test]
fn output_is_nearest_to_exact_interpolation() {
    for &rate in [8000u32, 11025, 15999, 22050, 32000, 44100, 48000].iter() {
        let input = noise(600, rate as u64);
        for (i, &s) in resample_mono_to_16k(&input, rate).iter().enumerate() {
            let at = i as i64 * rate as i64;
            let low = (at / 16000) as usize;
            let past = at % 16000;
            let high = (low + 1).min(input.len() - 1);
            let exact = (16000 - past) * input[low] as i64 + past * input[high] as i64;
            assert!(2 * (16000 * s as i64 - exact).abs() <= 16000);
        }
    }
}

#[test]
fn turned_signs_turn_the_output() {
    let input: Vec<i16> = noise(500, 31).iter().map(|&s| s.max(-32767)).collect();
    let turned: Vec<i16> = input.iter().map(|&s| -s).collect();
    let output = resample_mono_to_16k(&input, 44100);
    let expected: Vec<i16> = output.iter().map(|&s| -s).collect();
    assert_eq!(resample_mono_to_16k(&turned, 44100), expected);
}

#[test]
fn larger_samples_give_no_smaller_output() {
    let low = noise(500, 51);
    let high: Vec<i16> =
        low.iter().enumerate().map(|(i, &s)| s.saturating_add((i % 3) as i16)).collect();
    for &rate in [8000, 11025, 44100].iter() {
        let a = resample_mono_to_16k(&low, rate);
        let b = resample_mono_to_16k(&high, rate);
        assert_eq!(a.len(), b.len());
        assert!(a.iter().zip(b.iter()).all(|(x, y)| x <= y));
    }
}

#[test]
fn appended_audio_leaves_earlier_output() {
    let whole = noise(800, 71);
    for &rate in [8000usize, 11025, 44100, 48000].iter() {
        let early = resample_mono_to_16k(&whole[..500], rate as u32);
        let late = resample_mono_to_16k(&whole, rate as u32);
        assert!(early.len() <= late.len());
        for (i, &s) in early.iter().enumerate() {
            if i * rate / 16000 + 1 < 500 {
                assert_eq!(s, late[i]);
            }
        }
    }
}
