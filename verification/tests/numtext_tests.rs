use obd_equation_rs::arms::{split_arm, unquote};
use obd_equation_rs::numtext::{
    float_prefix, int_prefix, js_number_layout, number_text, FloatPrefix, IntPrefix, NumberText,
};
use obd_equation_rs::valref::{val_pieces, Piece};
use obd_equation_rs::window::Window;

fn fold(radix: u32, digits: &[u32]) -> f64 {
    let mut v = 0.0f64;
    for d in digits {
        v = v * radix as f64 + *d as f64;
    }
    v
}

/// ECMA ToNumber(String) on top of the library's reading of the text.
fn js_string_to_number(s: &str) -> f64 {
    match number_text(s) {
        NumberText::Zero => 0.0,
        NumberText::Radix(r, d) => fold(r, &d),
        NumberText::Infinity(neg) => {
            if neg {
                f64::NEG_INFINITY
            } else {
                f64::INFINITY
            }
        }
        NumberText::Decimal(neg, t) => {
            let v = t.parse::<f64>().unwrap_or(f64::NAN);
            if neg {
                -v
            } else {
                v
            }
        }
        NumberText::NotANumber => f64::NAN,
    }
}

/// JS `parseFloat` on top of the library's reading of the text.
fn js_parse_float(s: &str) -> f64 {
    match float_prefix(s) {
        FloatPrefix::NotANumber => f64::NAN,
        FloatPrefix::Infinity(neg) => {
            if neg {
                f64::NEG_INFINITY
            } else {
                f64::INFINITY
            }
        }
        FloatPrefix::Decimal(t) => t.parse::<f64>().unwrap_or(f64::NAN),
    }
}

#[test]
fn string_to_number_quirks() {
    assert_eq!(js_string_to_number(""), 0.0);
    assert_eq!(js_string_to_number("  "), 0.0);
    assert_eq!(js_string_to_number("0x10"), 16.0);
    assert!(js_string_to_number("10px").is_nan());
    assert_eq!(js_string_to_number(" 12.5 "), 12.5);
    assert_eq!(js_string_to_number("Infinity"), f64::INFINITY);
    assert!(js_string_to_number("inf").is_nan());
}

#[test]
fn parse_float_prefix() {
    assert_eq!(js_parse_float("12abc"), 12.0);
    assert!(js_parse_float("abc").is_nan());
    assert_eq!(js_parse_float("0x10"), 0.0); // parseFloat stops at 'x'
    assert_eq!(js_parse_float("-2.5e2px"), -250.0);
    assert_eq!(js_parse_float("1e"), 1.0); // exponent without digits excluded
}

#[test]
fn number_text_forms() {
    assert!(matches!(number_text("\u{feff} 7 \t"), NumberText::Decimal(false, t) if t == "7"));
    assert!(matches!(number_text("-3.5e1"), NumberText::Decimal(true, t) if t == "3.5e1"));
    assert!(matches!(number_text("+Infinity"), NumberText::Infinity(false)));
    assert!(matches!(number_text("-Infinity"), NumberText::Infinity(true)));
    assert!(matches!(number_text("0b101"), NumberText::Radix(2, d) if d == vec![1, 0, 1]));
    assert!(matches!(number_text("0o17"), NumberText::Radix(8, d) if d == vec![1, 7]));
    assert!(matches!(number_text("0xfF"), NumberText::Radix(16, d) if d == vec![15, 15]));
    assert!(matches!(number_text("0b12"), NumberText::NotANumber));
    assert!(matches!(number_text("-0x10"), NumberText::NotANumber));
    assert!(matches!(number_text("0x"), NumberText::NotANumber));
    assert!(matches!(number_text("."), NumberText::NotANumber));
}

#[test]
fn float_prefix_forms() {
    assert!(matches!(float_prefix("  -Infinityx"), FloatPrefix::Infinity(true)));
    assert!(matches!(float_prefix(".5."), FloatPrefix::Decimal(t) if t == ".5"));
    assert!(matches!(float_prefix("+3.e4z"), FloatPrefix::Decimal(t) if t == "+3.e4"));
    assert!(matches!(float_prefix("-."), FloatPrefix::NotANumber));
    assert!(matches!(float_prefix(""), FloatPrefix::NotANumber));
}

#[test]
fn int_prefix_forms() {
    assert!(matches!(int_prefix(" 42px"), IntPrefix::Digits(false, 10, d) if d == vec![4, 2]));
    assert!(matches!(int_prefix("-0x1g"), IntPrefix::Digits(true, 16, d) if d == vec![1]));
    assert!(matches!(int_prefix("0x"), IntPrefix::NotANumber));
    assert!(matches!(int_prefix("x1"), IntPrefix::NotANumber));
    assert!(matches!(int_prefix("7.9"), IntPrefix::Digits(false, 10, d) if d == vec![7]));
}

#[test]
fn arms_split_on_the_first_equals() {
    assert_eq!(
        split_arm(" 1 = 'On' "),
        Some(("1".to_string(), "'On'".to_string()))
    );
    assert_eq!(
        split_arm("a=b=c"),
        Some(("a".to_string(), "b".to_string()))
    );
    assert_eq!(split_arm("=x"), Some((String::new(), "x".to_string())));
    assert_eq!(split_arm("no equals"), None);
}

#[test]
fn quoted_values_are_unquoted() {
    assert_eq!(unquote("'On'"), Some("On".to_string()));
    assert_eq!(unquote("''"), Some(String::new()));
    assert_eq!(unquote("'"), None);
    assert_eq!(unquote("On"), None);
    assert_eq!(unquote("'On"), None);
}

#[test]
fn val_references_in_string_content() {
    let p = val_pieces(b"a val{X} b VAL{Long name}");
    assert_eq!(p.len(), 4);
    assert!(matches!(&p[0], Piece::Text(t) if t.as_slice() == b"a "));
    assert!(matches!(&p[1], Piece::Ref(n) if n.as_slice() == b"X"));
    assert!(matches!(&p[2], Piece::Text(t) if t.as_slice() == b" b "));
    assert!(matches!(&p[3], Piece::Ref(n) if n.as_slice() == b"Long name"));
    // An empty name, or no closing brace, is literal text.
    let q = val_pieces(b"val{}x val{y");
    assert_eq!(q.len(), 1);
    assert!(matches!(&q[0], Piece::Text(t) if t.as_slice() == b"val{}x val{y"));
    assert!(val_pieces(b"").is_empty());
}

#[test]
fn delay_line_returns_sample_n_back() {
    let mut w: Window<i32> = Window::new();
    let outs: Vec<i32> = (1..=6).map(|x| w.delay(2, x)).collect();
    assert_eq!(outs, vec![1, 1, 1, 2, 3, 4]);
    assert_eq!(w.samples(), &[5, 6]);
    let mut z: Window<i32> = Window::new();
    assert_eq!(z.delay(0, 9), 9);
    assert_eq!(z.delay(0, 8), 9);
    assert_eq!(z.samples(), &[8]);
}

#[test]
fn bounded_window_keeps_the_latest() {
    let mut w: Window<u8> = Window::new();
    for x in 1..=5u8 {
        w.push_bounded(x, 3);
    }
    assert_eq!(w.samples(), &[3, 4, 5]);
    w.push(6);
    assert_eq!(w.samples(), &[3, 4, 5, 6]);
    w.push_bounded(7, 0);
    assert_eq!(w.samples(), &[4, 5, 6, 7]);
}

/// `Number::toString` on top of the library's layout of the digits.
fn js_num_to_string(n: f64) -> String {
    if n.is_nan() {
        return "NaN".to_string();
    }
    if n == 0.0 {
        return "0".to_string();
    }
    if n.is_infinite() {
        return if n > 0.0 { "Infinity" } else { "-Infinity" }.to_string();
    }
    let sci = format!("{:e}", n.abs());
    let (mant, exp) = sci.split_once('e').unwrap();
    js_number_layout(n < 0.0, mant, exp.parse().unwrap())
}

#[test]
fn num_to_string_matches_js_forms() {
    assert_eq!(js_num_to_string(0.0), "0");
    assert_eq!(js_num_to_string(-0.0), "0");
    assert_eq!(js_num_to_string(5.0), "5");
    assert_eq!(js_num_to_string(-5.5), "-5.5");
    assert_eq!(js_num_to_string(100.0), "100");
    assert_eq!(js_num_to_string(0.5), "0.5");
    assert_eq!(js_num_to_string(0.0000305), "0.0000305");
    assert_eq!(js_num_to_string(1e21), "1e+21");
    assert_eq!(js_num_to_string(1e-7), "1e-7");
    assert_eq!(js_num_to_string(1.5e-7), "1.5e-7");
    assert_eq!(js_num_to_string(123.456), "123.456");
    assert_eq!(js_num_to_string(f64::NAN), "NaN");
    assert_eq!(js_num_to_string(f64::INFINITY), "Infinity");
    assert_eq!(js_num_to_string(1e20), "100000000000000000000");
}

#[test]
fn number_layout_cases() {
    assert_eq!(js_number_layout(false, "1.5", 2), "150");
    assert_eq!(js_number_layout(true, "1.2345", 1), "-12.345");
    assert_eq!(js_number_layout(false, "3", -6), "0.000003");
    assert_eq!(js_number_layout(false, "3", -7), "3e-7");
    assert_eq!(js_number_layout(false, "1.2", 21), "1.2e+21");
    assert_eq!(js_number_layout(false, "1.000", 0), "1");
    assert_eq!(js_number_layout(true, "0.0", 3), "-0000");
}

#[test]
fn delay_line_run_from_empty() {
    // N = 2 with values 10, 20, 30, 40 returns 10, 10, 10, 20
    let mut w: Window<f64> = Window::new();
    let outs: Vec<f64> = [10.0, 20.0, 30.0, 40.0].iter().map(|x| w.delay(2, *x)).collect();
    assert_eq!(outs, vec![10.0, 10.0, 10.0, 20.0]);
    assert_eq!(w.samples(), &[30.0, 40.0]);
}
