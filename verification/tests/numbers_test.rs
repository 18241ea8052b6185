//! Numbers as text, against the standard library.

use lemmalog::confidence::Conf;
use lemmalog::decimal::parse_float;
use lemmalog::notation::{fixed_to_text, shortest_to_text};
use lemmalog::scan::{count_bytes, count_words, is_white, split_lines, trim_text};
use lemmalog::text::{int_to_text, parse_int, str_eq, to_chars};

fn read(s: &str) -> Option<u64> {
    parse_float(&to_chars(s))
}

#[test]
fn floats_read_like_the_standard_library() {
    for s in [
        "0", "1", "0.9", "0.8", "1.0", ".5", "5.", "1e-3", "1E3", "+0.25", "-0.25", "-0", "0.1", "0.3", "1e400", "1e-400",
        "inf", "-inf", "Infinity", "NaN", "nan", "123456789.123456789", "0.30000000000000004", "2.2250738585072014e-308",
        "4.9e-324", "2.4703282292062327e-324", "2.4703282292062328e-324", "1.7976931348623157e308", "1.7976931348623159e308",
        "9007199254740993", "00000.50000", "1e+2",
    ] {
        let want = s.parse::<f64>().unwrap();
        let got = read(s).unwrap();
        if want.is_nan() {
            assert!(f64::from_bits(got).is_nan(), "{s}");
        } else {
            assert_eq!(got, want.to_bits(), "{s}");
        }
    }
    for s in ["", ".", "e5", "1e", "--1", "1.2.3", "0x10", " 1", "1 ", "+", "-", "infi", "1e+", "1_000"] {
        assert!(s.parse::<f64>().is_err(), "{s}");
        assert!(read(s).is_none(), "{s}");
    }
}

#[test]
fn confidences_print_like_the_standard_library() {
    let mut x: f64 = 1.0;
    for i in 0..10u64 {
        x = x * 0.57;
        let noise = (i * 2654435761 % 1000) as f64 / 1000.0;
        for v in [x, noise, x * noise, 1.0 / (i + 1) as f64] {
            let c = Conf::from_bits(v.to_bits());
            assert_eq!(shortest_to_text(&c), format!("{v}"));
            assert_eq!(fixed_to_text(&c, 2), format!("{v:.2}"));
            assert_eq!(fixed_to_text(&c, 3), format!("{v:.3}"));
            assert_eq!(read(&shortest_to_text(&c)), Some(v.to_bits()));
        }
    }
    for v in [0.0, -0.0, 1.0, 0.5, 0.125, 0.005, 0.015, 0.995, 0.9995, 1e-20, 5e-324] {
        let c = Conf::from_bits(f64::to_bits(v));
        assert_eq!(shortest_to_text(&c), format!("{v}"));
        assert_eq!(fixed_to_text(&c, 2), format!("{v:.2}"));
        assert_eq!(fixed_to_text(&c, 0), format!("{v:.0}"));
    }
    let nan = Conf::from_bits(f64::NAN.to_bits());
    assert_eq!(nan.bits(), 0);
    assert_eq!(shortest_to_text(&nan), "0");
}

#[test]
fn confidences_multiply_like_the_standard_library() {
    let mut seed: u64 = 12345;
    for _ in 0..500 {
        seed = seed.wrapping_mul(6364136223846793005).wrapping_add(1442695040888963407);
        let a = (seed >> 11) as f64 / (1u64 << 53) as f64;
        seed = seed.wrapping_mul(6364136223846793005).wrapping_add(1442695040888963407);
        let b = (seed >> 11) as f64 / (1u64 << 53) as f64;
        let p = Conf::from_bits(a.to_bits()).times(&Conf::from_bits(b.to_bits()));
        assert_eq!(p.bits(), (a * b).to_bits());
    }
    for (a, b) in [(1.0, 1.0), (0.0, 0.5), (5e-324, 0.5), (1e-200, 1e-200), (-0.0, 0.5), (0.9, 0.9)] {
        let p = Conf::from_bits(f64::to_bits(a)).times(&Conf::from_bits(f64::to_bits(b)));
        assert_eq!(p.bits(), (a * b).clamp(0.0, 1.0).to_bits());
    }
}

#[test]
fn confidences_are_clamped() {
    for v in [-1.0, -0.0, 0.0, 0.5, 1.0, 1.5, f64::INFINITY, f64::NEG_INFINITY] {
        assert_eq!(Conf::from_bits(f64::to_bits(v)).bits(), v.clamp(0.0, 1.0).to_bits(), "{v}");
    }
}

#[test]
fn white_space_is_that_of_the_standard_library() {
    for n in 0..=0x10FFFFu32 {
        if let Some(c) = char::from_u32(n) {
            assert_eq!(is_white(c), c.is_whitespace(), "{n:#x}");
        }
    }
}

#[test]
fn texts_are_scanned_like_the_standard_library() {
    for s in ["", " ", "a", "  a b  ", "a\n", "a\r\nb", "a\n\nb", "\n", "\r\n", "a\rb", "\u{3000}x\u{a0}", "h\u{e9}llo w\u{f6}rld \u{1F600}"] {
        assert_eq!(trim_text(s), s.trim(), "{s:?}");
        assert_eq!(split_lines(s), s.lines().map(|l| l.to_string()).collect::<Vec<_>>(), "{s:?}");
        assert_eq!(count_bytes(s), s.len() as u128, "{s:?}");
        assert_eq!(count_words(s), s.split_whitespace().count(), "{s:?}");
    }
}

#[test]
fn integers_read_and_print() {
    for i in [0i64, 1, -1, 9, 10, 42, -42, i64::MAX, i64::MIN, 1234567890] {
        let t = int_to_text(i);
        assert_eq!(t, i.to_string());
        let v = to_chars(&t);
        assert_eq!(parse_int(&v, 0, v.len()), Some(i));
    }
    for s in ["", "-", "+", "9223372036854775808", "-9223372036854775809", "1a", "a1", "1-"] {
        let v = to_chars(s);
        assert!(s.parse::<i64>().is_err());
        assert_eq!(parse_int(&v, 0, v.len()), None, "{s}");
    }
    let v = to_chars("+7");
    assert_eq!(parse_int(&v, 0, v.len()), Some(7));
    assert!(str_eq("a", "a") && !str_eq("a", "b"));
}
