use voice_prompt::binary::{Binary, DOUBLE, SINGLE};

fn double(x: Binary) -> f64 {
    x.mantissa as f64 * (2.0f64).powi(x.exponent)
}

fn noise(seed: &mut u64) -> u64 {
    *seed = seed.wrapping_mul(6364136223846793005).wrapping_add(1442695040888963407);
    *seed >> 11
}

#[test]
fn integers_round_to_even() {
    assert_eq!(double(Binary::integer(DOUBLE, 0)), 0.0);
    assert_eq!(double(Binary::integer(DOUBLE, -7)), -7.0);
    assert_eq!(double(Binary::integer(DOUBLE, 9007199254740993)), 9007199254740992.0);
    assert_eq!(double(Binary::integer(DOUBLE, 9007199254740995)), 9007199254740996.0);
    assert_eq!(double(Binary::integer(SINGLE, 16777217)), 16777216.0);
    assert_eq!(double(Binary::integer(SINGLE, 16777219)), 16777220.0);
    for n in [1i128, 3, 0x7fff_ffff_ffff_ffff, 0x1234_5678_9abc_def0, 0xffff_ffff_ffff_ffff] {
        assert_eq!(double(Binary::integer(DOUBLE, n)), n as f64);
        assert_eq!(double(Binary::integer(SINGLE, n)), n as f32 as f64);
    }
}

#[test]
fn operations_agree_with_doubles() {
    let mut seed = 17;
    for round in 0..2000u32 {
        let a = (noise(&mut seed) >> (round % 50)) as i128 + 1;
        let b = (noise(&mut seed) >> (round % 41)) as i128 + 1;
        let x = Binary::integer(DOUBLE, a);
        let y = Binary::integer(DOUBLE, -b);
        let z = Binary::integer(DOUBLE, b);
        assert_eq!(double(x.times(DOUBLE, y)), a as f64 * -(b as f64));
        assert_eq!(double(x.over(DOUBLE, z)), a as f64 / b as f64);
        assert_eq!(double(y.over(DOUBLE, x)), -(b as f64) / a as f64);
        assert_eq!(double(x.plus(DOUBLE, y)), a as f64 - b as f64);
        assert_eq!(double(x.minus(DOUBLE, y)), a as f64 + b as f64);
        let q = x.over(DOUBLE, z);
        assert_eq!(q.floor() as f64, (a as f64 / b as f64).floor());
        assert_eq!(q.round() as f64, (a as f64 / b as f64).round());
        let n = y.over(DOUBLE, x);
        assert_eq!(n.round() as f64, (-(b as f64) / a as f64).round());
    }
}

#[test]
fn halves_round_away() {
    let two = Binary::integer(DOUBLE, 2);
    assert_eq!(Binary::integer(DOUBLE, 5).over(DOUBLE, two).round(), 3);
    assert_eq!(Binary::integer(DOUBLE, -5).over(DOUBLE, two).round(), -3);
    assert_eq!(Binary::integer(DOUBLE, 1).over(DOUBLE, Binary::integer(DOUBLE, 3)).round(), 0);
}
