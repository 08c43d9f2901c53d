use obd_equation_rs::error::{js_err, EquationError, EvaluatorError};
use obd_equation_rs::funcs::is_known_function;
use obd_equation_rs::numtext::{is_js_ws, valid_str_decimal};
use obd_equation_rs::variables::{byte_var_index, byte_var_name};

#[test]
fn byte_var_indexing() {
    assert_eq!(byte_var_index("A"), Some(0));
    assert_eq!(byte_var_index("z"), Some(25));
    assert_eq!(byte_var_index("A1"), Some(26));
    assert_eq!(byte_var_index("P1"), Some(41));
    assert_eq!(byte_var_index("a2"), Some(52));
    assert_eq!(byte_var_index("A0"), None);
    assert_eq!(byte_var_index("AB"), None);
}

#[test]
fn test_byte_var_name_convention() {
    assert_eq!(byte_var_name(0), "A");
    assert_eq!(byte_var_name(25), "Z");
    assert_eq!(byte_var_name(26), "A1");
    assert_eq!(byte_var_name(39), "N1"); // old cap
    assert_eq!(byte_var_name(40), "O1"); // used to be unassigned
    assert_eq!(byte_var_name(41), "P1"); // 0181 max
    assert_eq!(byte_var_name(51), "Z1");
    assert_eq!(byte_var_name(52), "A2");
}

#[test]
fn byte_var_name_round_trips() {
    for i in [0usize, 1, 25, 26, 51, 52, 259, 260, 1000, 123_456] {
        assert_eq!(byte_var_index(&byte_var_name(i)), Some(i));
    }
}

#[test]
fn byte_var_index_rejects_other_names() {
    assert_eq!(byte_var_index(""), None);
    assert_eq!(byte_var_index("1"), None);
    assert_eq!(byte_var_index("_A"), None);
    assert_eq!(byte_var_index("A1x"), None);
    assert_eq!(byte_var_index("A99999999999999999999999"), None);
    assert_eq!(byte_var_index("B10"), Some(261));
}

#[test]
fn known_function_names() {
    assert!(is_known_function("MIN"));
    assert!(is_known_function("ascii"));
    assert!(!is_known_function("min"));
    assert!(is_known_function("LOOKUP"));
    assert!(is_known_function("lookup"));
    assert!(!is_known_function("Lookup"));
    assert!(is_known_function("signed16"));
    assert!(!is_known_function("FOO"));
    assert!(!is_known_function(""));
}

#[test]
fn js_white_space() {
    assert!(is_js_ws(' '));
    assert!(is_js_ws('\t'));
    assert!(is_js_ws('\u{a0}'));
    assert!(is_js_ws('\u{feff}'));
    assert!(is_js_ws('\u{3000}'));
    assert!(!is_js_ws('a'));
    assert!(!is_js_ws('\u{200b}'));
}

#[test]
fn str_decimal_grammar() {
    assert!(valid_str_decimal("12"));
    assert!(valid_str_decimal("12.5"));
    assert!(valid_str_decimal("5."));
    assert!(valid_str_decimal(".5"));
    assert!(valid_str_decimal("1e10"));
    assert!(valid_str_decimal("1.5E-3"));
    assert!(!valid_str_decimal(""));
    assert!(!valid_str_decimal("."));
    assert!(!valid_str_decimal("1e"));
    assert!(!valid_str_decimal("1e+"));
    assert!(!valid_str_decimal("10px"));
    assert!(!valid_str_decimal("-1"));
    assert!(!valid_str_decimal("Infinity"));
}

#[test]
fn evaluator_error_messages() {
    let e = EvaluatorError::JavaScriptError("boom".to_string());
    assert_eq!(e.message(), "JavaScript runtime error: boom");
    let e = EvaluatorError::TypeError("bad".to_string());
    assert_eq!(e.message(), "Type conversion error: bad");
    let e = EvaluatorError::FunctionError(String::new());
    assert_eq!(e.message(), "Function registration error: ");
    let r: Result<u8, EvaluatorError> = js_err("x is not defined".to_string());
    match r {
        Err(EvaluatorError::JavaScriptError(m)) => assert_eq!(m, "x is not defined"),
        other => panic!("unexpected {other:?}"),
    }
}

#[test]
fn equation_error_codes() {
    assert_eq!(EquationError::Success.code(), 0);
    assert_eq!(EquationError::NullPointer.code(), 1);
    assert_eq!(EquationError::InvalidUtf8.code(), 2);
    assert_eq!(EquationError::EvaluationError.code(), 3);
    assert_eq!(EquationError::FunctionRegistrationError.code(), 4);
    assert_eq!(EquationError::MemoryError.code(), 5);
    assert_eq!(EquationError::UnknownError.code(), 6);
}
