use rustanda::text::is_whitespace_char;
use rustanda::value::{is_float, parse_boolean, parse_integer};
use rustanda::{find_data_type, ParsedValue};

fn integer(n: i32) -> ParsedValue {
    ParsedValue::Integer(n)
}

fn float(text: &str) -> ParsedValue {
    ParsedValue::Float(text.to_string())
}

fn string(text: &str) -> ParsedValue {
    ParsedValue::String(text.to_string())
}

fn chars(text: &str) -> Vec<char> {
    text.chars().collect()
}

/// What the parsers of the standard library make of `text`, tried in the
/// order integer, float, boolean.
fn by_standard_library(text: &str) -> ParsedValue {
    if let Ok(n) = text.parse::<i32>() {
        ParsedValue::Integer(n)
    } else if text.parse::<f64>().is_ok() {
        ParsedValue::Float(text.to_string())
    } else if let Ok(b) = text.parse::<bool>() {
        ParsedValue::Boolean(b)
    } else {
        ParsedValue::String(text.to_string())
    }
}

#[test]
fn type_inference_ordering() {
    assert_eq!(find_data_type("10"), integer(10));
    match find_data_type("10.5") {
        ParsedValue::Float(text) => assert_eq!(text.parse::<f64>().unwrap(), 10.5),
        other => panic!("expected a float, got {:?}", other),
    }
    assert_eq!(find_data_type("true"), ParsedValue::Boolean(true));
    assert_eq!(find_data_type("10x"), string("10x"));
}

#[test]
fn documented_examples() {
    assert_eq!(find_data_type("42"), integer(42));
    assert_eq!(find_data_type("4.2"), float("4.2"));
    assert_eq!(find_data_type("true"), ParsedValue::Boolean(true));
    assert_eq!(find_data_type("false"), ParsedValue::Boolean(false));
    assert_eq!(find_data_type(""), string(""));
    assert_eq!(find_data_type("abc"), string("abc"));
    assert_eq!(find_data_type("1.2.3"), string("1.2.3"));
    assert_eq!(find_data_type("\"quoted\""), string("\"quoted\""));
}

#[test]
fn integers_with_sign_and_leading_zeros() {
    assert_eq!(find_data_type("+5"), integer(5));
    assert_eq!(find_data_type("-5"), integer(-5));
    assert_eq!(find_data_type("-0"), integer(0));
    assert_eq!(find_data_type("+0"), integer(0));
    assert_eq!(find_data_type("007"), integer(7));
    assert_eq!(find_data_type("0000000000000000000000012"), integer(12));
    assert_eq!(find_data_type("-0000000000000000000000012"), integer(-12));
}

#[test]
fn integer_limits() {
    assert_eq!(find_data_type("2147483647"), integer(i32::MAX));
    assert_eq!(find_data_type("-2147483648"), integer(i32::MIN));
    assert_eq!(find_data_type("+2147483647"), integer(i32::MAX));
    assert_eq!(find_data_type("2147483648"), float("2147483648"));
    assert_eq!(find_data_type("-2147483649"), float("-2147483649"));
    assert_eq!(find_data_type("99999999999999999999999999"), float("99999999999999999999999999"));
}

#[test]
fn not_integers() {
    assert_eq!(parse_integer(&chars("")), None);
    assert_eq!(parse_integer(&chars("-")), None);
    assert_eq!(parse_integer(&chars("+")), None);
    assert_eq!(parse_integer(&chars("+-5")), None);
    assert_eq!(parse_integer(&chars("5-")), None);
    assert_eq!(parse_integer(&chars(" 5")), None);
    assert_eq!(parse_integer(&chars("5 ")), None);
    assert_eq!(parse_integer(&chars("1_000")), None);
    assert_eq!(parse_integer(&chars("12a")), None);
    assert_eq!(parse_integer(&chars("٣")), None);
    assert_eq!(parse_integer(&chars("1.0")), None);
    assert_eq!(parse_integer(&chars("123")), Some(123));
    assert_eq!(parse_integer(&chars("-2147483648")), Some(i32::MIN));
    assert_eq!(parse_integer(&chars("2147483648")), None);
}

#[test]
fn floats_in_every_form() {
    for text in [
        "3.14", "-3.14", "2.5E10", "2.5e10", "2.5E-10", "5.", ".5", "0.5", "1e5", "1E+5", "5.e3",
        ".5e-3", "inf", "-inf", "+infinity", "NaN", "nan", "INF", "Infinity", "-NAN", "+.5",
        "-5.", "1e0000000000000000000001", "0.0000000000000000000000000000000001", "123456789.",
        "1e99999999999999999999", "1e-99999999999999999999", "-.5E+07", "00.00", "0e0", "+InFiNiTy",
    ] {
        assert!(is_float(&chars(text)), "{:?} is a float", text);
        assert!(text.parse::<f64>().is_ok(), "{:?} is a float to the standard library", text);
        assert_eq!(find_data_type(text), float(text));
    }
}

#[test]
fn not_floats() {
    for text in [
        "", ".", "+", "-", "+.", "e5", ".e5", "1e", "1e+", "1e-", "1e5.5", "1.2.3", "0x10", "1f",
        "1.0f64", "infinit", "in", "na", "nane", "infinityy", "++1", "--1", "1 ", " 1", "1,5",
        "1_0.0", "١.٥", "1e５", "ınf", "+-inf", "i n f",
    ] {
        assert!(!is_float(&chars(text)), "{:?} is no float", text);
        assert!(text.parse::<f64>().is_err(), "{:?} is no float to the standard library", text);
        assert_eq!(find_data_type(text), string(text));
    }
}

#[test]
fn float_value_is_what_the_text_says() {
    let samples = [("4.2", 4.2), ("9.5", 9.5), ("-0.25", -0.25), ("1e3", 1000.0), (".5", 0.5)];
    for (text, value) in samples {
        match find_data_type(text) {
            ParsedValue::Float(kept) => assert_eq!(kept.parse::<f64>().unwrap(), value),
            other => panic!("expected a float, got {:?}", other),
        }
    }
}

#[test]
fn booleans_are_exact() {
    assert_eq!(parse_boolean(&chars("true")), Some(true));
    assert_eq!(parse_boolean(&chars("false")), Some(false));
    for text in ["True", "TRUE", "False", "tru", "truee", "false ", " true", "t", "1", "yes", ""] {
        assert_eq!(parse_boolean(&chars(text)), None);
        assert!(text.parse::<bool>().is_err());
    }
    assert_eq!(find_data_type("True"), string("True"));
    assert_eq!(find_data_type("FALSE"), string("FALSE"));
}

#[test]
fn text_is_kept_verbatim() {
    assert_eq!(find_data_type(" 10 "), string(" 10 "));
    assert_eq!(find_data_type("héllo wörld"), string("héllo wörld"));
    assert_eq!(find_data_type("10x"), string("10x"));
}

#[test]
fn equality_of_values() {
    assert_eq!(integer(1), integer(1));
    assert_ne!(integer(1), integer(2));
    assert_ne!(integer(1), float("1"));
    assert_ne!(float("1.0"), float("1.00"));
    assert_ne!(float("true"), string("true"));
    assert_ne!(ParsedValue::Boolean(true), ParsedValue::Boolean(false));
    assert_eq!(string(""), string(""));
}

/// Every text of up to five characters over an alphabet that holds all the
/// characters of numbers gets the type that the parsers of the standard
/// library give it.
#[test]
fn short_texts_agree_with_the_standard_library() {
    let alphabet = ['0', '7', '+', '-', '.', 'e', 'E', 'n', 'a', 'N', ' '];
    let mut texts: Vec<String> = vec![String::new()];
    let mut from = 0;
    for _ in 0..5 {
        let until = texts.len();
        for i in from..until {
            for c in alphabet {
                let mut longer = texts[i].clone();
                longer.push(c);
                texts.push(longer);
            }
        }
        from = until;
    }
    assert_eq!(texts.len(), 1 + 11 + 121 + 1331 + 14641 + 161051);
    for text in &texts {
        assert_eq!(find_data_type(text), by_standard_library(text), "for {:?}", text);
    }
}

#[test]
fn words_in_every_case_agree_with_the_standard_library() {
    let words = ["inf", "infinity", "nan", "true", "false", "infinite", "nano", "i", "in"];
    for word in words {
        let letters: Vec<char> = word.chars().collect();
        for mask in 0u32..(1 << letters.len()) {
            let mut text = String::new();
            for (k, c) in letters.iter().enumerate() {
                if mask & (1 << k) != 0 {
                    text.push(c.to_ascii_uppercase());
                } else {
                    text.push(*c);
                }
            }
            for sign in ["", "+", "-"] {
                let signed = format!("{}{}", sign, text);
                let expected = by_standard_library(&signed);
                assert_eq!(find_data_type(&signed), expected, "for {:?}", signed);
            }
        }
    }
}

#[test]
fn letters_beyond_ascii_that_lower_to_ascii_do_not_count() {
    for text in ["\u{212a}", "\u{130}nf", "na\u{ff2e}", "\u{ff49}nf", "1\u{ff45}5"] {
        assert_eq!(find_data_type(text), by_standard_library(text), "for {:?}", text);
        assert_eq!(find_data_type(text), string(text));
    }
}

#[test]
fn white_space_is_what_the_standard_library_calls_white_space() {
    for code in 0u32..=0x10FFFF {
        if let Some(c) = char::from_u32(code) {
            assert_eq!(is_whitespace_char(c), c.is_whitespace(), "for U+{:04X}", code);
        }
    }
}
