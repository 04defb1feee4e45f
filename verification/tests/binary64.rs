use sculk_vibrations::binary64::binary32::Binary32;
use sculk_vibrations::binary64::Binary64;

fn wrap(v: f64) -> Binary64 {
    Binary64 { bits: v.to_bits() }
}

/// Bit patterns that are equal, or two NaNs.
fn same(a: Binary64, b: f64) -> bool {
    let a = f64::from_bits(a.bits);
    (a.is_nan() && b.is_nan()) || a.to_bits() == b.to_bits()
}

struct Patterns {
    state: u64,
}

impl Patterns {
    fn raw(&mut self) -> u64 {
        self.state ^= self.state << 13;
        self.state ^= self.state >> 7;
        self.state ^= self.state << 17;
        self.state
    }

    /// A number of any kind: any pattern, a moderate one, a short one, or one
    /// of the special ones.
    fn number(&mut self) -> f64 {
        let kind = self.raw() % 6;
        let bits = self.raw();
        match kind {
            0 => f64::from_bits(bits),
            1 => {
                let exponent = 1023 - 40 + self.raw() % 80;
                f64::from_bits((bits & 0x800f_ffff_ffff_ffff) | (exponent << 52))
            }
            2 => (bits % 2000) as f64 / 16.0 - 60.0,
            3 => f64::from_bits(bits & 0x800f_ffff_ffff_ffff),
            4 => {
                let exponent = 1023 - 2 + self.raw() % 5;
                let low = if self.raw() % 2 == 0 { 0 } else { bits & 7 };
                f64::from_bits((exponent << 52) | ((bits >> 3) & 0x0008_0000_0000_0000) | low)
            }
            _ => {
                let table = [
                    0.0,
                    -0.0,
                    1.0,
                    -1.0,
                    0.5,
                    15.0,
                    16.0,
                    8.0,
                    f64::INFINITY,
                    f64::NEG_INFINITY,
                    f64::NAN,
                    f64::MAX,
                    f64::MIN_POSITIVE,
                    5e-324,
                    4503599627370496.0,
                    9007199254740993.0,
                ];
                table[(bits % 16) as usize]
            }
        }
    }
}

#[test]
fn sums_and_products_match_native_arithmetic() {
    let mut patterns = Patterns { state: 0x9e37_79b9_7f4a_7c15 };
    for _ in 0..200_000 {
        let a = patterns.number();
        let b = patterns.number();
        assert!(same(wrap(a).add_to(wrap(b)), a + b), "{a:e} + {b:e}");
        assert!(same(wrap(a).subtract(wrap(b)), a - b), "{a:e} - {b:e}");
        assert!(same(wrap(a).multiply(wrap(b)), a * b), "{a:e} * {b:e}");
        assert!(same(wrap(a).divide(wrap(b)), a / b), "{a:e} / {b:e}");
    }
}

#[test]
fn close_sums_cancel_as_native_arithmetic() {
    let mut patterns = Patterns { state: 12345 };
    for _ in 0..100_000 {
        let a = patterns.number();
        let b = f64::from_bits(a.to_bits() ^ (patterns.raw() & 0x7));
        assert!(same(wrap(a).subtract(wrap(b)), a - b), "{a:e} - {b:e}");
        let c = f64::from_bits(a.to_bits() ^ (patterns.raw() & 0x0070_0000_0000_0001));
        assert!(same(wrap(a).subtract(wrap(c)), a - c), "{a:e} - {c:e}");
        assert!(same(wrap(a).add_to(wrap(c)), a + c), "{a:e} + {c:e}");
    }
}

#[test]
fn roots_match_native_arithmetic() {
    let mut patterns = Patterns { state: 77 };
    for _ in 0..100_000 {
        let a = patterns.number();
        assert!(same(wrap(a).square_root(), a.sqrt()), "root of {a:e}");
    }
    for n in 0..2000u32 {
        let a = f64::from(n);
        assert!(same(wrap(a).square_root(), a.sqrt()));
        assert!(same(wrap(a * a).square_root(), a));
    }
}

#[test]
fn comparisons_match_native_arithmetic() {
    let mut patterns = Patterns { state: 991 };
    for _ in 0..100_000 {
        let a = patterns.number();
        let b = if patterns.raw() % 4 == 0 { a } else { patterns.number() };
        assert_eq!(wrap(a).is_above(wrap(b)), a > b);
        assert_eq!(wrap(a).is_at_most(wrap(b)), a <= b);
        assert_eq!(wrap(a).is_nan(), a.is_nan());
        assert!(same(wrap(a).negate(), -a));
    }
}

#[test]
fn integer_conversions_match_native_arithmetic() {
    let mut patterns = Patterns { state: 4711 };
    for _ in 0..100_000 {
        let a = patterns.number();
        assert_eq!(wrap(a).to_floor_i32(), a.floor() as i32, "floor of {a:e}");
        assert_eq!(wrap(a).to_ceil_within(u32::MAX), a.ceil().max(1.0) as u32, "ceil of {a:e}");
        assert_eq!(wrap(a).to_ceil_within(0x7fff_ffff), a.ceil().max(1.0) as i32 as u32);
        let v = patterns.raw() as i32;
        assert!(same(Binary64::from_integer(v), f64::from(v)));
    }
    assert!(same(Binary64::from_integer(i32::MIN), -2147483648.0));
    assert!(same(Binary64::from_integer(0), 0.0));
    assert_eq!(wrap(-0.25).to_floor_between(-7, 7), -1);
    assert_eq!(wrap(1e300).to_floor_between(-7, 7), 7);
    assert_eq!(wrap(f64::NEG_INFINITY).to_floor_between(-7, 7), -7);
}

#[test]
fn shorter_format_matches_native_arithmetic() {
    let mut patterns = Patterns { state: 31337 };
    for _ in 0..200_000 {
        let a = if patterns.raw() % 2 == 0 {
            patterns.number()
        } else {
            let exponent = 1023 - 160 + patterns.raw() % 300;
            f64::from_bits((patterns.raw() & 0x800f_ffff_ffff_ffff) | (exponent << 52))
        };
        let short = Binary32::narrow(wrap(a));
        let native = a as f32;
        assert!(
            (native.is_nan() && f32::from_bits(short.bits).is_nan()) || short.bits == native.to_bits(),
            "{a:e} as binary32"
        );
        let b = f32::from_bits(patterns.raw() as u32);
        assert!(same(Binary32 { bits: b.to_bits() }.widen(), f64::from(b)), "{b:e} widened");
    }
}
