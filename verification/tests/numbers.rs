use comicinfo_generator::decimal::{
    pad_with_zeros, parse_i32, parse_u64, text_of_i64, text_of_u64,
};
use comicinfo_generator::naming::{key_of_number, natural_order, natural_sort_key};
use comicinfo_generator::natural::{Natural, Relation};
use comicinfo_generator::number::{parse_number, Number};
use comicinfo_generator::worker::halve_rating;

/// The double-precision number that a value stands for.
fn double(n: Number) -> f64 {
    match n {
        Number::Nan => f64::NAN,
        Number::Real { negative, ordinal } => {
            let size = f64::from_bits(ordinal);
            if negative {
                -size
            } else {
                size
            }
        }
    }
}

/// A stream of numbers that looks random and is always the same.
fn next(state: &mut u64) -> u64 {
    *state = state.wrapping_mul(6364136223846793005).wrapping_add(1442695040888963407);
    *state >> 11
}

fn assert_parsed_alike(text: &str) {
    match (parse_number(text), text.parse::<f64>()) {
        (Some(a), Ok(b)) => {
            let a = double(a);
            assert!(
                a.to_bits() == b.to_bits() || (a.is_nan() && b.is_nan()),
                "{text}: {a} is not {b}"
            );
        }
        (None, Err(_)) => {}
        (a, b) => panic!("{text}: {a:?} is not {b:?}"),
    }
}

fn assert_written_alike(n: f64, places: usize) {
    let text = format!("{n:?}");
    let written = parse_number(&text).unwrap().to_text(places as u8);
    assert_eq!(written, format!("{n:.places$}"), "{text} with {places} places");
}

#[test]
fn numbers_are_parsed_like_doubles() {
    for text in [
        "0", "1", "01", "10", "1.5", "2.50", ".5", "5.", "0.1", "0.2", "0.3", "3.14159", "1e3", "1E3",
        "1e+3", "1e-3", "12.5e2", "-1", "+1", "-0", "-0.0", "1e308", "1e309", "1e-323", "4.9e-324",
        "2.4e-324", "2.5e-324", "1e-400", "1e400", "-1e400", "inf", "-inf", "infinity", "Infinity",
        "INF", "nan", "NaN", "-nan", "+inf", "9007199254740993", "9007199254740992.5",
        "9007199254740993.0000000000000000000001", "179769313486231570814527423731704356798070e267",
        "179769313486231580793728971405301e276", "2.2250738585072011e-308", "2.2250738585072014e-308",
        "0.000000000000000000000000000000000000000000000000001",
        "123456789012345678901234567890", "1e99999999999999999999", "1e-99999999999999999999",
        "0e99999999999999999999", "0.0e400",
    ] {
        assert_parsed_alike(text);
    }
}

#[test]
fn texts_that_are_no_numbers_are_refused() {
    for text in [
        "", " ", "1 ", " 1", ".", "-", "+", "e", "e5", "1e", "1e+", "1e-", "1.2.3", "--1", "+-1", "0x10",
        "1_000", "1,5", "one", "infin", "na", "infinityy", "1f", "\u{661}", "1.\u{661}", ".e1", "1e1.5",
    ] {
        assert_eq!(parse_number(text), None, "{text:?}");
        assert!(text.parse::<f64>().is_err(), "{text:?}");
    }
}

#[test]
fn random_numbers_are_parsed_like_doubles() {
    let mut state = 1;
    for i in 0..1500u32 {
        let digits = next(&mut state) % 1_000_000_000_000;
        let exponent = (next(&mut state) % 660) as i64 - 340;
        let fraction = next(&mut state) % 100_000;
        let text = match i % 4 {
            0 => format!("{digits}.{fraction}"),
            1 => format!("{digits}e{exponent}"),
            2 => format!("{digits}{fraction}.{digits}e{exponent}"),
            _ => format!("{:?}", f64::from_bits(next(&mut state) << 1)),
        };
        assert_parsed_alike(&text);
    }
}

#[test]
fn halfway_cases_are_rounded_to_even() {
    // Halfway between two neighbours, and a little to both sides.
    for text in [
        "9007199254740993",
        "9007199254740995",
        "4503599627370496.5",
        "4503599627370497.5",
        "4503599627370496.49999999999999999999999999",
        "4503599627370496.50000000000000000000000001",
    ] {
        assert_parsed_alike(text);
    }
}

#[test]
fn a_number_with_hundreds_of_digits_is_infinite() {
    let digits = "9".repeat(400);
    assert_parsed_alike(&digits);
    assert_eq!(
        parse_number(&digits),
        Some(Number::Real { negative: false, ordinal: 0x7ff0_0000_0000_0000 })
    );
    assert_eq!(key_of_number(&digits), format!("0{:020.6}", digits.parse::<f64>().unwrap()));
}

#[test]
fn numbers_are_written_like_doubles() {
    for n in [
        0.0, 0.5, 1.5, 2.5, 0.05, 0.15, 0.25, 0.35, 0.45, 1.05, 2.675, 1e21, 1e22, 123456789.987654321,
        1e-7, 5e-324, 1.7976931348623157e308, 4.35, 9.95, 9.949999999999999, 0.049999999999999996, -0.0,
        -1.25, -0.05,
    ] {
        for places in [1, 2, 6, 18] {
            assert_written_alike(n, places);
        }
    }
    let mut state = 7;
    for _ in 0..400 {
        let n = f64::from_bits((next(&mut state) << 10) % 0x7ff0_0000_0000_0000);
        if n.abs() < 1e60 {
            assert_written_alike(n, 6);
        }
        let small = (next(&mut state) % 1_000_000) as f64 / 997.0;
        assert_written_alike(small, 1);
        assert_written_alike(small, 6);
    }
    assert_eq!(parse_number("inf").unwrap().to_text(1), format!("{:.1}", f64::INFINITY));
    assert_eq!(parse_number("-inf").unwrap().to_text(1), format!("{:.1}", f64::NEG_INFINITY));
    assert_eq!(parse_number("nan").unwrap().to_text(1), format!("{:.1}", f64::NAN));
}

#[test]
fn numbers_are_compared_by_value() {
    let at_most = |a: &str, b: &str| parse_number(a).unwrap().is_at_most(&parse_number(b).unwrap());
    assert!(at_most("2", "10"));
    assert!(!at_most("10", "2"));
    assert!(at_most("2.5", "2.50"));
    assert!(at_most("-0", "0") && at_most("0", "-0"));
    assert!(at_most("-inf", "inf"));
    assert!(at_most("-2", "-1") && !at_most("-1", "-2"));
    assert!(!at_most("nan", "nan") && !at_most("nan", "1") && !at_most("1", "nan"));
}

#[test]
fn ratings_are_halved_like_doubles() {
    for text in [
        "0", "1", "3", "5", "7.3", "8.5", "9.99", "10", "11", "100", "-1", "-0", "0.1", "inf", "-inf",
        "1e308", "4e-324", "3e-323", "6.66",
    ] {
        let n: f64 = text.parse().unwrap();
        let halved = halve_rating(parse_number(text).unwrap());
        let expected = (n / 10.0 * 5.0).clamp(0.0, 5.0);
        assert_eq!(double(halved).to_bits(), expected.to_bits(), "{text}");
        assert_eq!(halved.to_text(1), format!("{expected:.1}"), "{text}");
    }
    assert_eq!(halve_rating(Number::Nan), Number::Nan);
    let mut state = 3;
    for _ in 0..500 {
        let n = (next(&mut state) % 20_000) as f64 / 1000.0;
        let halved = halve_rating(parse_number(&format!("{n:?}")).unwrap());
        assert_eq!(double(halved), (n / 10.0 * 5.0).clamp(0.0, 5.0), "{n}");
    }
}

#[test]
fn whole_numbers_have_their_value() {
    assert_eq!(double(Number::whole(0)), 0.0);
    assert_eq!(double(Number::whole(5)), 5.0);
    assert_eq!(double(Number::whole(4294967295)), 4294967295.0);
}

#[test]
fn sort_keys_hold_words_and_numbers() {
    assert_eq!(
        natural_sort_key("Episode 2.5 Extra"),
        vec!["1episode ", "00000000000002.500000", "1 extra"]
    );
    assert_eq!(natural_sort_key("10"), vec!["00000000000010.000000"]);
    assert_eq!(natural_sort_key(""), Vec::<String>::new());
    for digits in ["1", "2.5", "0010", "123456789012345678", "99999999999999999999999"] {
        let n: f64 = digits.parse().unwrap();
        assert_eq!(key_of_number(digits), format!("0{n:020.6}"));
    }
}

#[test]
fn natural_order_is_stable_and_by_value() {
    let names = vec![
        "b 10.cbz".to_string(),
        "b 9.cbz".to_string(),
        "a.cbz".to_string(),
        "b 09.cbz".to_string(),
        "B 1.5.cbz".to_string(),
    ];
    assert_eq!(natural_order(&names), vec![2, 4, 1, 3, 0]);
}

#[test]
fn integers_are_read_and_written() {
    assert_eq!(text_of_u64(0), "0");
    assert_eq!(text_of_u64(u64::MAX), u64::MAX.to_string());
    assert_eq!(text_of_i64(i64::MIN), i64::MIN.to_string());
    assert_eq!(text_of_i64(-7), "-7");
    for text in ["0", "7", "-7", "+7", "2147483647", "2147483648", "-2147483648", "-2147483649", "", "-", "1 ", "a", "007"] {
        assert_eq!(parse_i32(text), text.parse::<i32>().ok(), "{text:?}");
    }
    for text in ["0", "+1", "-1", "18446744073709551615", "18446744073709551616", "", "+", "01"] {
        assert_eq!(parse_u64(text), text.parse::<u64>().ok(), "{text:?}");
    }
    assert_eq!(pad_with_zeros("7", 3), "007");
    assert_eq!(pad_with_zeros("1234", 3), "1234");
}

#[test]
fn large_naturals_are_divided() {
    let mut n = Natural::from_u64(u64::MAX);
    n.mul_add(10, 5);
    let mut m = n.duplicate();
    m.shift_left(70);
    assert!(matches!(n.compare(&m), Relation::Below));
    assert_eq!(n.div_rem(10), 5);
    assert!(matches!(n.compare(&Natural::from_u64(u64::MAX)), Relation::Same));
    assert!(!m.is_zero());
    assert!(Natural::zero().is_zero());
}

#[test]
fn names_sort_by_their_number() {
    let key = |n: &str| natural_sort_key(&format!("My Series {n} end.cbz"));
    assert_eq!(key("2"), key("0002"));
    let numbers = ["0", "1", "9", "10", "0099", "100", "9007199254740", "9999999999999"];
    for i in 0..numbers.len() {
        for j in 0..numbers.len() {
            assert_eq!(key(numbers[i]) < key(numbers[j]), i < j, "{} {}", numbers[i], numbers[j]);
        }
    }
    for name in ["ab 2.50c3", "Xyz", "7", "Q1.r2", "", "\u{c9}t\u{e9} 3 \u{3a3}a", "\u{130}x\u{663}y"] {
        assert_eq!(natural_sort_key(&name.to_ascii_uppercase()), natural_sort_key(name));
    }
}
