use voxtype::float32::Float32;

fn of(x: f32) -> Float32 {
    Float32::from_bits(x.to_bits())
}

fn agree(mine: Float32, theirs: f32, what: &str, a: f32, b: f32) {
    let same = if theirs.is_nan() { mine.is_nan() } else { mine.to_bits() == theirs.to_bits() };
    assert!(
        same,
        "{} of {:e} ({:#x}) and {:e} ({:#x}): {:#x} instead of {:#x}",
        what,
        a,
        a.to_bits(),
        b,
        b.to_bits(),
        mine.to_bits(),
        theirs.to_bits()
    );
}

fn check_pair(a: f32, b: f32) {
    let (x, y) = (of(a), of(b));
    agree(x.add(y), a + b, "sum", a, b);
    agree(x.mul(y), a * b, "product", a, b);
    agree(x.div(y), a / b, "quotient", a, b);
    assert_eq!(x.lt(y), a < b, "{:e} < {:e}", a, b);
    assert_eq!(x.ge(y), a >= b, "{:e} >= {:e}", a, b);
    assert_eq!(
        x.total_rank() < y.total_rank(),
        a.total_cmp(&b) == std::cmp::Ordering::Less,
        "rank of {:#x} and {:#x}",
        a.to_bits(),
        b.to_bits()
    );
    let max = f32::from_bits(x.max(y).to_bits());
    let min = f32::from_bits(x.min(y).to_bits());
    assert!(max == a.max(b) || max.is_nan() && a.max(b).is_nan());
    assert!(min == a.min(b) || min.is_nan() && a.min(b).is_nan());
}

fn check_one(a: f32) {
    let x = of(a);
    agree(x.sqrt(), a.sqrt(), "root", a, a);
    assert_eq!(x.is_nan(), a.is_nan());
    assert_eq!(x.is_zero(), a == 0.0);
    assert_eq!(x.truncate(), a as u64, "{:e} truncated", a);
    assert_eq!(x.round(), a.round() as u64, "{:e} rounded", a);
    agree(
        x.clamp(of(0.45), of(0.75)),
        a.clamp(0.45, 0.75),
        "clamp",
        a,
        a,
    );
}

fn special() -> Vec<f32> {
    let bits: Vec<u32> = vec![
        0x0000_0000, 0x8000_0000, 0x0000_0001, 0x8000_0001, 0x0000_0002, 0x007f_ffff, 0x0080_0000,
        0x0080_0001, 0x00ff_ffff, 0x0100_0000, 0x3400_0000, 0x3eff_ffff, 0x3f00_0000, 0x3f00_0001,
        0x3f7f_ffff, 0x3f80_0000, 0x3f80_0001, 0x3fc0_0000, 0x4000_0000, 0x4040_0000, 0x4b00_0000,
        0x4b7f_ffff, 0x4b80_0000, 0x4b80_0001, 0x5f7f_ffff, 0x5f80_0000, 0x5f00_0000, 0x7f00_0000,
        0x7f7f_fffe, 0x7f7f_ffff, 0x7f80_0000, 0xff80_0000, 0x7fc0_0000, 0xffc0_0000, 0xbf80_0000,
        0xc000_0000, 0xff7f_ffff, 0x3e38_51ec, 0x3dcc_cccd, 0x467a_0000,
    ];
    bits.into_iter().map(f32::from_bits).collect()
}

struct Numbers {
    state: u64,
}

impl Numbers {
    fn next(&mut self) -> u32 {
        self.state = self
            .state
            .wrapping_mul(6364136223846793005)
            .wrapping_add(1442695040888963407);
        (self.state >> 32) as u32
    }
}

#[test]
fn special_values_agree_with_the_machine() {
    let all = special();
    for a in &all {
        check_one(*a);
        for b in &all {
            check_pair(*a, *b);
        }
    }
}

#[test]
fn random_bit_patterns_agree_with_the_machine() {
    let mut numbers = Numbers { state: 42 };
    for _ in 0..100_000 {
        let a = f32::from_bits(numbers.next());
        let b = f32::from_bits(numbers.next());
        check_one(a);
        check_pair(a, b);
    }
}

#[test]
fn neighbouring_exponents_agree_with_the_machine() {
    let mut numbers = Numbers { state: 7 };
    for _ in 0..100_000 {
        let exponent = 100 + numbers.next() % 60;
        let shift = numbers.next() % 30;
        let a = f32::from_bits(
            (numbers.next() & 0x807f_ffff) | (exponent << 23),
        );
        let b = f32::from_bits(
            (numbers.next() & 0x807f_ffff) | ((exponent + shift - 15) << 23),
        );
        check_one(a);
        check_pair(a, b);
    }
}

#[test]
fn subnormal_numbers_agree_with_the_machine() {
    let mut numbers = Numbers { state: 11 };
    for _ in 0..50_000 {
        let a = f32::from_bits(numbers.next() & 0x81ff_ffff);
        let b = f32::from_bits(numbers.next() & 0x81ff_ffff);
        check_one(a);
        check_pair(a, b);
        let c = f32::from_bits((numbers.next() & 0x807f_ffff) | 0x3f00_0000);
        check_pair(a, c);
        check_pair(c, a);
    }
}

#[test]
fn integers_agree_with_the_machine() {
    let mut numbers = Numbers { state: 3 };
    for shift in 0..64 {
        for _ in 0..200 {
            let v = (((numbers.next() as u64) << 32) | numbers.next() as u64) >> shift;
            assert_eq!(Float32::from_u64(v).to_bits(), (v as f32).to_bits(), "{}", v);
        }
    }
    for v in [0u64, 1, 2, 16_777_215, 16_777_216, 16_777_217, 16_777_219, u64::MAX, u64::MAX - 1] {
        assert_eq!(Float32::from_u64(v).to_bits(), (v as f32).to_bits(), "{}", v);
    }
}

#[test]
fn halves_round_away_from_zero() {
    for (x, r) in [(0.5f32, 1u64), (1.5, 2), (2.5, 3), (0.49999997, 0), (-0.5, 0), (-3.0, 0)] {
        assert_eq!(of(x).round(), r, "{}", x);
    }
    assert_eq!(of(f32::INFINITY).round(), u64::MAX);
    assert_eq!(of(f32::NAN).truncate(), 0);
}

#[test]
fn exact_values() {
    assert_eq!(of(0.1).add(of(0.2)).to_bits(), 0x3e99_999a);
    assert_eq!(of(1.0).div(of(3.0)).to_bits(), 0x3eaa_aaab);
    assert_eq!(of(2.0).sqrt().to_bits(), 0x3fb5_04f3);
    assert_eq!(of(1.5).mul(of(1.5)).to_bits(), 0x4010_0000);
}
