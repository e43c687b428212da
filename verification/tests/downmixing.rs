use voice_prompt::downmix::{append_i16, append_u16};

/// The same computation in hardware singles.
fn in_singles(data: &[u16], channels: usize) -> Vec<i16> {
    let mut mono = Vec::new();
    for frame in data.chunks_exact(channels) {
        let sum: f32 = frame.iter().map(|&s| s as f32 - 32768.0).sum();
        let avg = sum / (channels as f32);
        mono.push(avg.clamp(-32768.0, 32767.0).round() as i16);
    }
    mono
}

fn noise(len: usize, seed: u64) -> Vec<u16> {
    let mut state = seed;
    let mut samples = Vec::new();
    for _ in 0..len {
        state = state.wrapping_mul(6364136223846793005).wrapping_add(1442695040888963407);
        samples.push((state >> 48) as u16);
    }
    samples
}

fn mix_i16(data: &[i16], channels: u16) -> Vec<i16> {
    let mut buffer = Vec::new();
    append_i16(&mut buffer, data, channels);
    buffer
}

fn mix_u16(data: &[u16], channels: u16) -> Vec<i16> {
    let mut buffer = Vec::new();
    append_u16(&mut buffer, data, channels);
    buffer
}

#[test]
fn averages_round_towards_zero() {
    assert_eq!(mix_i16(&[1, 2, -1, -2, 3, 5], 2), vec![1, -1, 4]);
    assert_eq!(mix_i16(&[i16::MIN, i16::MIN, i16::MAX, i16::MAX], 2), vec![i16::MIN, i16::MAX]);
    assert_eq!(mix_i16(&[-1, -1, 0], 3), vec![0]);
}

#[test]
fn an_incomplete_frame_is_left_out() {
    assert_eq!(mix_i16(&[10, 20, 30], 2), vec![15]);
    assert_eq!(mix_i16(&[10], 2), Vec::<i16>::new());
    assert_eq!(mix_u16(&[32768, 32770, 1], 2), vec![1]);
}

#[test]
fn one_channel_is_its_own_mix() {
    let data = vec![i16::MIN, -1, 0, 1, i16::MAX];
    assert_eq!(mix_i16(&data, 1), data);
    assert_eq!(mix_u16(&[0, 32767, 32768, 65535], 1), vec![i16::MIN, -1, 0, i16::MAX]);
}

#[test]
fn samples_are_appended() {
    let mut buffer = vec![7];
    append_i16(&mut buffer, &[1, 3], 2);
    append_u16(&mut buffer, &[32768, 32768], 2);
    assert_eq!(buffer, vec![7, 2, 0]);
}

#[test]
fn deliveries_add_up() {
    let data: Vec<i16> = noise(60, 5).iter().map(|&s| s as i16).collect();
    let unsigned = noise(60, 6);
    let mut parts = Vec::new();
    append_i16(&mut parts, &data[..24], 4);
    append_i16(&mut parts, &data[24..], 4);
    assert_eq!(parts, mix_i16(&data, 4));
    let mut parts = Vec::new();
    append_u16(&mut parts, &unsigned[..12], 3);
    append_u16(&mut parts, &unsigned[12..], 3);
    assert_eq!(parts, mix_u16(&unsigned, 3));
}

#[test]
fn the_mix_stays_in_the_range_of_its_frame() {
    let data: Vec<i16> = noise(600, 8).iter().map(|&s| s as i16).collect();
    let mono = mix_i16(&data, 6);
    for (k, frame) in data.chunks_exact(6).enumerate() {
        assert!(*frame.iter().min().unwrap() <= mono[k]);
        assert!(mono[k] <= *frame.iter().max().unwrap());
    }
}

#[test]
fn halves_round_away_from_zero() {
    assert_eq!(mix_u16(&[32768, 32769], 2), vec![1]);
    assert_eq!(mix_u16(&[32768, 32767], 2), vec![-1]);
}

#[test]
fn unsigned_frames_agree_with_singles() {
    for channels in 1..12 {
        let data = noise(channels * 100, channels as u64);
        assert_eq!(mix_u16(&data, channels as u16), in_singles(&data, channels));
    }
}

#[test]
fn wide_unsigned_frames_agree_with_singles() {
    for &channels in [511usize, 512, 513, 1000, 4097, 65535].iter() {
        let data = noise(channels * 2, channels as u64);
        assert_eq!(mix_u16(&data, channels as u16), in_singles(&data, channels));
        let loud = vec![65535u16; channels];
        assert_eq!(mix_u16(&loud, channels as u16), in_singles(&loud, channels));
        let low = vec![0u16; channels];
        assert_eq!(mix_u16(&low, channels as u16), in_singles(&low, channels));
    }
}
