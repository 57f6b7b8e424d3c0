use minosrus_lang::text::{byte_length, i32_text, is_f32_literal, parse_i32, usize_text};

fn chars(s: &str) -> Vec<char> {
    s.chars().collect()
}

#[test]
fn integers_read_back() {
    for v in [0, 7, -7, 10, 2147483647, -2147483648] {
        assert_eq!(parse_i32(&chars(&i32_text(v))), Some(v));
        assert_eq!(i32_text(v), v.to_string());
    }
    assert_eq!(usize_text(120), "120");
}

#[test]
fn integer_parsing() {
    assert_eq!(parse_i32(&chars("+12")), Some(12));
    assert_eq!(parse_i32(&chars("2147483648")), None);
    assert_eq!(parse_i32(&chars("-")), None);
    assert_eq!(parse_i32(&chars("1.0")), None);
    assert_eq!(parse_i32(&chars("")), None);
}

#[test]
fn float_literals() {
    for s in ["1", "1.", ".5", "-2.5", "1e3", "1.5E-2", "inf", "-NaN", "Infinity"] {
        assert!(is_f32_literal(&chars(s)), "{}", s);
        assert!(s.parse::<f32>().is_ok(), "{}", s);
    }
    for s in ["", ".", "-", "1e", "1.2.3", "e5", "--1", "in"] {
        assert!(!is_f32_literal(&chars(s)), "{}", s);
        assert!(s.parse::<f32>().is_err(), "{}", s);
    }
}

#[test]
fn byte_lengths() {
    assert_eq!(byte_length(&chars("ABC")), 3);
    assert_eq!(byte_length(&chars("É€😀")), "É€😀".len() as u128);
}
