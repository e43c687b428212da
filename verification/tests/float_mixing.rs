use voice_prompt::float_mix::append_f32;

/// The same computation in hardware singles.
fn in_singles(data: &[f32], channels: usize) -> Vec<i16> {
    let mut mono = Vec::new();
    for frame in data.chunks_exact(channels) {
        let sum: f32 = frame.iter().sum();
        let avg = sum / (channels as f32);
        mono.push((avg.clamp(-1.0, 1.0) * 32767.0).round() as i16);
    }
    mono
}

fn mix(data: &[f32], channels: u16) -> Vec<i16> {
    let bits: Vec<u32> = data.iter().map(|s| s.to_bits()).collect();
    let mut buffer = Vec::new();
    append_f32(&mut buffer, &bits, channels);
    buffer
}

struct Noise(u64);

impl Noise {
    fn bits(&mut self) -> u32 {
        self.0 = self.0.wrapping_mul(6364136223846793005).wrapping_add(1442695040888963407);
        (self.0 >> 32) as u32
    }

    fn level(&mut self) -> f32 {
        (self.bits() as i32) as f32 / 2147483648.0
    }
}

#[test]
fn one_stands_for_the_largest_sample() {
    assert_eq!(mix(&[0.0, -0.0, 1.0, -1.0, 0.5, -0.5], 1), vec![0, 0, 32767, -32767, 16384, -16384]);
    assert_eq!(mix(&[2.0, -3.5, 1e30, -1e30], 1), vec![32767, -32767, 32767, -32767]);
    assert_eq!(mix(&[1.0, 0.0, 0.25, 0.75], 2), vec![16384, 16384]);
}

#[test]
fn frames_that_are_not_numbers_are_silent() {
    assert_eq!(mix(&[f32::NAN], 1), vec![0]);
    assert_eq!(mix(&[f32::INFINITY, f32::NEG_INFINITY], 2), vec![0]);
    assert_eq!(mix(&[f32::INFINITY, 0.0, 1.0, f32::NEG_INFINITY], 2), vec![32767, -32767]);
    assert_eq!(mix(&[f32::MAX, f32::MAX, -f32::MAX, -f32::MAX], 4), vec![32767]);
    assert_eq!(mix(&[f32::MAX, -f32::MAX, f32::MIN_POSITIVE], 3), vec![0]);
}

#[test]
fn ordinary_frames_agree_with_singles() {
    let mut noise = Noise(41);
    for channels in 1..10usize {
        let data: Vec<f32> = (0..channels * 500).map(|_| noise.level()).collect();
        assert_eq!(mix(&data, channels as u16), in_singles(&data, channels));
    }
}

#[test]
fn quiet_and_loud_frames_agree_with_singles() {
    let mut noise = Noise(97);
    for channels in 1..8usize {
        let mut data: Vec<f32> = Vec::new();
        for _ in 0..channels * 300 {
            let shift = (noise.bits() % 60) as i32 - 40;
            data.push(noise.level() * (2.0f32).powi(shift));
        }
        assert_eq!(mix(&data, channels as u16), in_singles(&data, channels));
    }
}

#[test]
fn arbitrary_bits_agree_with_singles() {
    let mut noise = Noise(7);
    for channels in 1..7usize {
        let data: Vec<f32> = (0..channels * 3000).map(|_| f32::from_bits(noise.bits())).collect();
        assert_eq!(mix(&data, channels as u16), in_singles(&data, channels));
    }
}

#[test]
fn cancelling_frames_agree_with_singles() {
    let mut noise = Noise(23);
    let mut data: Vec<f32> = Vec::new();
    for _ in 0..2000 {
        let big = noise.level() * (2.0f32).powi((noise.bits() % 120) as i32);
        let near = f32::from_bits(big.to_bits() ^ (noise.bits() % 4));
        data.push(big);
        data.push(noise.level());
        data.push(-near);
    }
    assert_eq!(mix(&data, 3), in_singles(&data, 3));
}

#[test]
fn wide_frames_agree_with_singles() {
    let mut noise = Noise(3);
    for &channels in [100usize, 1023, 65535].iter() {
        let data: Vec<f32> = (0..channels * 2).map(|_| noise.level()).collect();
        assert_eq!(mix(&data, channels as u16), in_singles(&data, channels));
    }
}

#[test]
fn float_deliveries_add_up() {
    let mut noise = Noise(5);
    let data: Vec<u32> = (0..60).map(|_| noise.level().to_bits()).collect();
    let mut whole = vec![9];
    append_f32(&mut whole, &data, 4);
    let mut parts = vec![9];
    append_f32(&mut parts, &data[..24], 4);
    append_f32(&mut parts, &data[24..], 4);
    assert_eq!(parts, whole);
    assert_eq!(whole.len(), 16);
}

#[test]
fn the_most_negative_sample_is_not_used() {
    let mut noise = Noise(11);
    let data: Vec<f32> = (0..5000).map(|_| noise.level() * 1.5).collect();
    assert!(mix(&data, 1).iter().all(|&s| s > i16::MIN));
}
