use std::time::Duration;

use vllm_top::binary64::Binary64;
use vllm_top::decimal::parse_literal;
use vllm_top::fixed::fixed;

fn num(x: f64) -> Binary64 {
    Binary64::from_bits(x.to_bits())
}

fn float(x: Binary64) -> f64 {
    f64::from_bits(x.bits)
}

fn same_bits(got: Binary64, want: f64) -> bool {
    (float(got).is_nan() && want.is_nan()) || got.bits == want.to_bits()
}

/// A fixed stream of patterns that visits every exponent.
struct Stream {
    state: u64,
}

impl Stream {
    fn next(&mut self) -> u64 {
        self.state = self
            .state
            .wrapping_mul(6364136223846793005)
            .wrapping_add(1442695040888963407);
        let x = self.state;
        x ^ (x >> 29)
    }

    fn pattern(&mut self) -> f64 {
        f64::from_bits(self.next())
    }

    fn near(&mut self, x: f64) -> f64 {
        // a neighbour in exponent, to meet cancellation and ties
        let e = (x.to_bits() >> 52) & 0x7ff;
        let shift = self.next() % 120;
        let f = (e + 60).saturating_sub(shift).clamp(0, 2046);
        f64::from_bits((self.next() & 0x800f_ffff_ffff_ffff) | (f << 52))
    }
}

const EDGES: [f64; 22] = [
    0.0,
    -0.0,
    1.0,
    -1.0,
    0.5,
    0.1,
    3.0,
    10.0,
    f64::MIN_POSITIVE,
    f64::MAX,
    f64::MIN,
    f64::INFINITY,
    f64::NEG_INFINITY,
    f64::NAN,
    5e-324,
    -5e-324,
    2.2250738585072009e-308,
    9007199254740991.0,
    9007199254740992.0,
    9007199254740993.0,
    1.7976931348623155e308,
    1e22,
];

fn check_pair(a: f64, b: f64) {
    let (x, y) = (num(a), num(b));
    assert!(same_bits(x.plus(y), a + b), "{a:e} + {b:e}");
    assert!(same_bits(x.minus(y), a - b), "{a:e} - {b:e}");
    assert!(same_bits(x.times(y), a * b), "{a:e} * {b:e}");
    assert!(same_bits(x.over(y), a / b), "{a:e} / {b:e}");
    assert_eq!(x.lt(y), a < b, "{a:e} < {b:e}");
    assert_eq!(x.le(y), a <= b, "{a:e} <= {b:e}");
    assert_eq!(x.same(y), a == b, "{a:e} == {b:e}");
    if !(a == 0.0 && b == 0.0) {
        assert!(same_bits(x.max(y), a.max(b)), "{a:e} max {b:e}");
        assert!(same_bits(x.min(y), a.min(b)), "{a:e} min {b:e}");
    }
}

#[test]
fn arithmetic_agrees_with_the_hardware_on_edge_cases() {
    for a in EDGES {
        for b in EDGES {
            check_pair(a, b);
        }
    }
}

#[test]
fn arithmetic_agrees_with_the_hardware_on_many_patterns() {
    let mut s = Stream { state: 7 };
    for _ in 0..60_000 {
        let a = s.pattern();
        check_pair(a, s.pattern());
        check_pair(a, s.near(a));
        check_pair(a, f64::from_bits(a.to_bits().wrapping_add(s.next() % 5)));
    }
}

#[test]
fn conversions_agree_with_the_hardware() {
    let mut s = Stream { state: 11 };
    for i in 0..60_000u64 {
        let n = s.next() >> (i % 64);
        assert_eq!(Binary64::from_u64(n).bits, (n as f64).to_bits(), "{n}");
        let d = Duration::from_nanos(n);
        assert_eq!(
            Binary64::from_nanos(n).bits,
            d.as_secs_f64().to_bits(),
            "{n} ns"
        );
        let x = s.near(1024.0);
        assert_eq!(num(x).to_u64(), x as u64, "{x:e}");
        assert!(same_bits(num(x).ceil(), x.ceil()), "{x:e}");
        let y = s.pattern();
        assert_eq!(num(y).to_u64(), y as u64, "{y:e}");
        assert!(same_bits(num(y).ceil(), y.ceil()), "{y:e}");
        let z = (s.next() % 4_000_000_000) as f64 / 7.0;
        assert_eq!(
            u128::from(num(z).to_nanos()),
            Duration::from_secs_f64(z).as_nanos(),
            "{z:e}"
        );
    }
    for x in EDGES {
        assert_eq!(num(x).to_u64(), x as u64, "{x:e}");
        assert!(same_bits(num(x).ceil(), x.ceil()), "{x:e}");
        assert_eq!(num(x).is_nan(), x.is_nan());
        assert_eq!(num(x).is_finite(), x.is_finite());
        assert_eq!(num(x).is_infinite(), x.is_infinite());
        assert!(same_bits(num(x).negated(), -x));
    }
    assert_eq!(float(num(3.0).clamp(num(0.0), num(1.0))), 1.0);
    assert_eq!(float(num(-3.0).clamp(num(0.0), num(1.0))), 0.0);
    assert!(float(num(f64::NAN).clamp(num(0.0), num(1.0))).is_nan());
}

fn check_literal(s: &str) {
    let chars: Vec<char> = s.chars().collect();
    let got = parse_literal(&chars);
    match s.parse::<f64>() {
        Ok(want) => {
            let got = got.unwrap_or_else(|| panic!("{s} was refused"));
            assert!(same_bits(got, want), "{s} gave {:e}", float(got));
        }
        Err(_) => assert!(got.is_none(), "{s} was taken"),
    }
}

#[test]
fn literals_agree_with_the_standard_parser() {
    for s in [
        "0", "-0", "+0", "1", "1.", ".5", ".", "", "-", "+", "e5", "1e", "1e+", "1e-3", "1E3",
        "1e400", "-1e400", "1e-400", "1e-324", "5e-324", "2.5e-324", "2.4703282292062327e-324",
        "2.4703282292062328e-324", "1.7976931348623157e308", "1.7976931348623158e308",
        "1.7976931348623159e308", "9007199254740993", "9007199254740992.5", "0.1", "0.25", "inf",
        "Inf", "+Inf", "-inf", "INFINITY", "infinit", "nan", "NaN", "-NaN", "nanx", "1.2.3",
        "1e5.5", "0x10", "1_000", " 1", "1 ", "1e99999999999999999999", "1e-99999999999999999999",
        "0e99999999999999999999", "00000000000000000000000000001", "1.952826e+06",
        "2.2250738585072011e-308", "2.2250738585072012e-308", "123456789012345678901234567890",
        "0.000000000000000000000000000000000000000000000000123456789", "1e22", "1e23",
        "8.988465674311579e307", "4.35e-316", "６", "1,5",
    ] {
        check_literal(s);
    }
}

#[test]
fn literals_agree_with_the_standard_parser_on_many_numbers() {
    let mut s = Stream { state: 23 };
    for i in 0..4_000u64 {
        let x = s.pattern();
        if x.is_finite() {
            check_literal(&format!("{x:e}"));
            check_literal(&format!("{x:.17e}"));
        }
        let digits = s.next() >> (i % 60);
        let e = (s.next() % 700) as i64 - 350;
        check_literal(&format!("{digits}e{e}"));
        check_literal(&format!("0.{digits}"));
        check_literal(&format!("{digits}.{}", s.next()));
    }
}

#[test]
fn fixed_text_agrees_with_the_standard_formatter() {
    let mut s = Stream { state: 41 };
    let check = |x: f64| {
        assert_eq!(fixed(num(x), 0), format!("{x:.0}"), "{x:e}");
        assert_eq!(fixed(num(x), 1), format!("{x:.1}"), "{x:e}");
        assert_eq!(fixed(num(x), 2), format!("{x:.2}"), "{x:e}");
    };
    for x in EDGES {
        check(x);
    }
    for x in [0.05, 0.15, 0.25, 0.35, 0.5, 1.5, 2.5, 0.005, 0.015, 0.125, 999.5, 999.95, 1e15] {
        check(x);
        check(-x);
    }
    for _ in 0..20_000 {
        check(s.near(64.0));
    }
    for _ in 0..300 {
        check(s.pattern());
    }
}
