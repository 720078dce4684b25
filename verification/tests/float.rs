use gaussian_blur::float::repr::F32;

fn f(x: f32) -> F32 {
    F32::from_bits(x.to_bits())
}

fn same(got: F32, want: f32) -> bool {
    if want.is_nan() {
        got.to_bits() == 0x7fc0_0000
    } else {
        got.to_bits() == want.to_bits()
    }
}

struct Lcg(u64);

impl Lcg {
    fn next(&mut self) -> u32 {
        self.0 = self.0.wrapping_mul(6364136223846793005).wrapping_add(1442695040888963407);
        (self.0 >> 32) as u32
    }
}

fn samples() -> Vec<f32> {
    let mut v = vec![
        0.0,
        -0.0,
        1.0,
        -1.0,
        0.5,
        255.0,
        f32::MAX,
        f32::MIN,
        f32::MIN_POSITIVE,
        f32::INFINITY,
        f32::NEG_INFINITY,
        f32::NAN,
        f32::EPSILON,
        f32::from_bits(1),
        f32::from_bits(2),
        f32::from_bits(3),
        f32::from_bits(0x7f_ffff),
        f32::from_bits(0x80_0001),
        f32::from_bits(0x0100_0000),
        16777216.0,
        16777215.0,
        8388607.5,
        2147483648.0,
        -2147483648.0,
        2147483520.0,
        4294967296.0,
        18446744073709551616.0,
        9223372036854775808.0,
        2.5,
        -2.5,
        0.49999997,
    ];
    let mut g = Lcg(42);
    for _ in 0..300 {
        v.push(f32::from_bits(g.next()));
    }
    for _ in 0..200 {
        let e = 100 + g.next() % 60;
        v.push(f32::from_bits((g.next() & 0x807f_ffff) | (e << 23)));
    }
    v
}

#[test]
fn arithmetic_is_rounded_like_the_hardware_does() {
    let v = samples();
    for &a in &v {
        for &b in &v {
            assert!(same(f(a).plus(f(b)), a + b), "{} + {}", a, b);
            assert!(same(f(a).minus(f(b)), a - b), "{} - {}", a, b);
            assert!(same(f(a).times(f(b)), a * b), "{} * {}", a, b);
            assert!(same(f(a).over(f(b)), a / b), "{} / {}", a, b);
            assert_eq!(f(a).lt(f(b)), a < b);
            assert_eq!(f(a).le(f(b)), a <= b);
        }
    }
}

#[test]
fn roots_and_conversions_agree_with_the_hardware() {
    let mut g = Lcg(7);
    let mut v = samples();
    for _ in 0..20000 {
        v.push(f32::from_bits(g.next()));
    }
    for &a in &v {
        assert!(same(f(a).sqrt(), a.sqrt()), "sqrt {}", a);
        assert_eq!(f(a).to_u8(), a as u8);
        assert_eq!(f(a).ceil_to_i32(), a.ceil() as i32);
        assert_eq!(f(a).floor_to_usize(), a.floor() as usize);
        assert_eq!(f(a).round_to_count(3), a.round().max(0.0).min(3.0) as u32);
        if a.is_nan() {
            assert_eq!(f(a).clamp(f(0.0), f(1.0)), f(a));
        } else {
            assert!(same(f(a).clamp(f(0.0), f(1.0)), a.clamp(0.0, 1.0)));
            assert!(same(f(a).negate(), -a));
        }
    }
    for _ in 0..20000 {
        let n = ((g.next() as u64) << 32 | g.next() as u64) >> (g.next() % 64);
        assert!(same(F32::from_u64(n), n as f32));
        let i = (g.next() as i32) >> (g.next() % 32);
        assert!(same(F32::from_i32(i), i as f32));
    }
    for b in 0..=255u8 {
        assert!(same(F32::from_u8(b), b as f32));
    }
}

fn cut(x: f64) -> f32 {
    let near = x as f32;
    if (near as f64).abs() > x.abs() {
        f32::from_bits(near.to_bits() - 1)
    } else {
        near
    }
}

#[test]
fn cut_results_are_never_above_the_exact_ones() {
    let mut g = Lcg(7);
    for _ in 0..20000 {
        // Numbers from two to the power of minus 20 to two to the power of 20, of either sign.
        let mut number = || {
            let n = g.next();
            f32::from_bits((n & 0x807f_ffff) | ((107 + n % 40) << 23))
        };
        let (a, b) = (number(), number());
        assert!(same(f(a).times_cut(f(b)), cut(a as f64 * b as f64)), "{} * {}", a, b);
        // The exact sum has at most 64 bits: compare in whole units of two to the power of -43.
        let scale = 2f64.powi(43);
        let exact = (a as f64 * scale) as i128 + (b as f64 * scale) as i128;
        let got = f32::from_bits(f(a).plus_cut(f(b)).to_bits());
        let value = (got as f64 * scale) as i128;
        assert!(value.abs() <= exact.abs() && (value < 0) == (exact < 0) || exact == 0);
        let next = f32::from_bits(got.to_bits() + 1);
        assert!(value == exact || ((next as f64 * scale) as i128).abs() > exact.abs());
    }
    assert!(same(f(1.0).plus_cut(f(1e-30)), 1.0));
    assert!(same(f(1.0).plus_cut(f(-1e-30)), f32::from_bits(0x3f7f_ffff)));
    assert!(same(f(0.0).plus_cut(f(-0.0)), 0.0));
    assert!(same(f(-0.0).plus_cut(f(-0.0)), -0.0));
    assert!(same(f(f32::INFINITY).plus_cut(f(f32::NEG_INFINITY)), f32::NAN));
    assert!(same(f(f32::INFINITY).times_cut(f(0.0)), f32::NAN));
    assert!(same(f(f32::INFINITY).times_cut(f(-2.0)), f32::NEG_INFINITY));
    assert!(same(f(f32::NAN).plus_cut(f(1.0)), f32::NAN));
    assert!(same(f(f32::from_bits(3)).times_cut(f(0.5)), f32::from_bits(1)));
}
