use caliper::scalar::decimal::parse_number;
use caliper::scalar::fixed::{show_fixed, show_scientific};
use caliper::scalar::show::show_number;
use caliper::scalar::{Scalar, Single, Vec3};

fn s(x: f64) -> Scalar {
    Scalar { bits: x.to_bits() }
}

fn f(x: Scalar) -> f64 {
    f64::from_bits(x.bits)
}

struct Bits(u64);

impl Bits {
    fn next(&mut self) -> u64 {
        self.0 = self.0.wrapping_add(0x9E37_79B9_7F4A_7C15);
        let mut z = self.0;
        z = (z ^ (z >> 30)).wrapping_mul(0xBF58_476D_1CE4_E5B9);
        z = (z ^ (z >> 27)).wrapping_mul(0x94D0_49BB_1331_11EB);
        z ^ (z >> 31)
    }

    /// Any bit pattern, or an everyday number.
    fn number(&mut self) -> f64 {
        let z = self.next();
        if z % 3 == 0 {
            f64::from_bits(self.next())
        } else {
            (self.next() as i64 as f64) / (1u64 << (z % 64)) as f64
        }
    }
}

fn same(a: Scalar, b: f64) {
    if b.is_nan() {
        assert!(a.is_nan());
    } else {
        assert_eq!(a.bits, b.to_bits(), "{} vs {}", f(a), b);
    }
}

const EDGES: [f64; 14] = [
    0.0,
    -0.0,
    1.0,
    -1.0,
    f64::MIN_POSITIVE,
    5e-324,
    -5e-324,
    f64::MAX,
    f64::MIN,
    f64::INFINITY,
    f64::NEG_INFINITY,
    f64::NAN,
    0.1,
    9007199254740993.0,
];

fn pairs() -> Vec<(f64, f64)> {
    let mut out = Vec::new();
    for a in EDGES {
        for b in EDGES {
            out.push((a, b));
        }
    }
    let mut g = Bits(1);
    for _ in 0..20_000 {
        out.push((g.number(), g.number()));
    }
    out
}

#[test]
fn sums_and_products_round_as_the_machine() {
    for (a, b) in pairs() {
        same(s(a).add(s(b)), a + b);
        same(s(a).sub(s(b)), a - b);
        same(s(a).mul(s(b)), a * b);
        same(s(a).div(s(b)), a / b);
    }
}

#[test]
fn roots_round_as_the_machine() {
    for (a, _) in pairs() {
        same(s(a).sqrt(), a.sqrt());
    }
}

#[test]
fn order_is_that_of_the_machine() {
    for (a, b) in pairs() {
        assert_eq!(s(a).lt(s(b)), a < b);
        assert_eq!(s(a).le(s(b)), a <= b);
        assert_eq!(s(a).gt(s(b)), a > b);
        assert_eq!(s(a).ge(s(b)), a >= b);
        assert_eq!(s(a).same(s(b)), a == b);
        assert_eq!(s(a).sorts_before(s(b)), a.total_cmp(&b).is_lt());
        if !a.is_nan() && !b.is_nan() && a != b {
            same(s(a).max(s(b)), a.max(b));
            same(s(a).min(s(b)), a.min(b));
        }
        same(s(a).abs(), a.abs());
        same(s(a).neg(), -a);
        same(s(a).signum(), a.signum());
        assert_eq!(s(a).is_finite(), a.is_finite());
    }
}

#[test]
fn conversions_are_those_of_the_machine() {
    for (a, b) in pairs() {
        assert_eq!(s(a).ceil_usize(), a.ceil() as usize);
        assert_eq!(s(a).floor_usize(), a.floor() as usize);
        assert_eq!(s(a).round_i64(), a.round() as i64);
        let k = b.to_bits();
        same(Scalar::from_u64(k), k as f64);
        same(Scalar::from_i64(k as i64), k as i64 as f64);
        same(Scalar::from_f32_bits(k as u32), f32::from_bits(k as u32) as f64);
    }
}

fn read(t: &str) -> Option<f64> {
    parse_number(&t.chars().collect()).map(f)
}

#[test]
fn decimals_are_read_exactly() {
    let texts = [
        "0", "-0", "1", "-1.5", "+2", ".5", "5.", "1e3", "1E-3", "123456789.123456789e-20",
        "1.7976931348623157e308", "1e309", "5e-324", "2e-324", "0.1", "9007199254740993",
        "2.2250738585072011e-308", "inf", "-infinity", "1e-400",
    ];
    for t in texts {
        let want: f64 = t.parse().unwrap();
        assert_eq!(read(t).unwrap().to_bits(), want.to_bits(), "{t}");
    }
    assert!(read("nan").unwrap().is_nan());
    for t in ["", ".", "e5", "1e", "--1", "1x", " 1", "0x10"] {
        assert!(read(t).is_none() && t.parse::<f64>().is_err(), "{t}");
    }
}

#[test]
fn numbers_are_shown_as_the_machine_shows_them() {
    for (a, _) in pairs().into_iter().take(3000) {
        let shown: String = show_number(s(a)).iter().collect();
        assert_eq!(shown, a.to_string());
    }
}

#[test]
fn shown_numbers_read_back() {
    for (a, _) in pairs().into_iter().take(1000) {
        if a.is_finite() {
            let shown: String = show_number(s(a)).iter().collect();
            assert_eq!(read(&shown).unwrap().to_bits(), a.to_bits());
        }
    }
}

#[test]
fn arithmetic_keeps_order() {
    let mut g = Bits(9);
    for _ in 0..5_000 {
        let (mut a, mut b, c) = (g.number(), g.number(), g.number());
        if a > b {
            (a, b) = (b, a);
        }
        let (x, y) = (s(a).add(s(c)), s(b).add(s(c)));
        assert!(x.is_nan() || y.is_nan() || a.is_nan() || b.is_nan() || x.le(y));
        let d = s(c).abs();
        let z = s(a).add(d);
        assert!(z.is_nan() || s(a).le(z));
        let (p, q) = (s(a).abs(), s(a).abs().add(d));
        let (u, w) = (p.mul(d), q.mul(d));
        assert!(u.is_nan() || w.is_nan() || u.le(w));
    }
}

#[test]
fn vectors_follow_their_formulas() {
    let v = |x: f64, y: f64, z: f64| Vec3::new(s(x), s(y), s(z));
    assert_eq!(v(1.0, 0.0, 0.0).cross(v(0.0, 1.0, 0.0)), v(0.0, 0.0, 1.0));
    assert_eq!(v(1.0, 2.0, 3.0).dot(v(4.0, 5.0, 6.0)), s(32.0));
    assert_eq!(v(2.0, 3.0, 6.0).norm(), s(7.0));
    assert_eq!(v(1.0, 2.0, 3.0).plus(v(1.0, 1.0, 1.0)), v(2.0, 3.0, 4.0));
    assert_eq!(v(1.0, 2.0, 3.0).minus(v(1.0, 1.0, 1.0)), v(0.0, 1.0, 2.0));
    assert_eq!(v(1.0, 2.0, 3.0).scaled(s(2.0)), v(2.0, 4.0, 6.0));
    assert_eq!(v(2.0, 4.0, 6.0).over(s(2.0)), v(1.0, 2.0, 3.0));
}

#[test]
fn singles_are_the_nearest() {
    let narrow = |x: f64| Single::from_scalar(Scalar { bits: x.to_bits() }).bits;
    for x in [
        0.0, -0.0, 0.1, -0.3, 1.0, 1.0 + 1e-8, 3.4028234e38, 3.4028235677973366e38, 1e39, -1e300,
        1e-38, 1e-40, -1e-45, 7.006492321624085e-46, 7.1e-46, 1e-60, 5e-324, f64::INFINITY,
    ] {
        assert_eq!(narrow(x), (x as f32).to_bits(), "{x}");
    }
    let mut z: u64 = 1;
    for _ in 0..2000 {
        z = z.wrapping_mul(6364136223846793005).wrapping_add(1442695040888963407);
        let x = f64::from_bits((z >> 12) | (0x37F + (z & 0xFF)) << 52);
        assert_eq!(narrow(x), (x as f32).to_bits(), "{x}");
        let y = Single { bits: (x as f32).to_bits() }.widen();
        assert_eq!(f64::from_bits(y.bits), x as f32 as f64);
    }
    assert!(f32::from_bits(narrow(f64::NAN)).is_nan());
}

#[test]
fn numbers_are_rounded_for_people() {
    let text = |c: Vec<char>| c.into_iter().collect::<String>();
    let check = |x: f64| {
        for k in [1usize, 3, 4] {
            assert_eq!(text(show_fixed(s(x), k)), format!("{x:.k$}"), "{x} {k}");
        }
        assert_eq!(text(show_scientific(s(x), 4)), format!("{x:.4e}"), "{x}");
        assert_eq!(text(show_scientific(s(x), 2)), format!("{x:.2e}"), "{x}");
    };
    for x in [
        0.0, -0.0, 0.25, -0.75, 0.35, 0.05, 0.15, 2.5, 999.96, 9.9999e5, 1e-5, 4.9e-324, 1e22, 1e300, 0.0625,
        -12.34565, 99999.5, 1.00005, f64::NAN, f64::INFINITY, f64::NEG_INFINITY, 123456789.0, 5e-5,
    ] {
        check(x);
    }
    let mut z: u64 = 7;
    for _ in 0..150 {
        z = z.wrapping_mul(6364136223846793005).wrapping_add(1442695040888963407);
        check(((z >> 11) as f64 / (1u64 << 53) as f64 - 0.5) * 2000.0);
    }
}
