use obd_equation_rs::ast::{Ast, BinOp, Expr, NumLit, UnOp};
use obd_equation_rs::lookup::{lookup_call_text, process_lookup_args};
use obd_equation_rs::parse::{compile, compile_js, ParseErrorKind, Punct};

fn ok(src: &str) -> Ast {
    match compile(src) {
        Ok(a) => a,
        Err(e) => panic!("failed to parse {src:?}: {e:?}"),
    }
}

#[test]
fn parses_basic_arithmetic() {
    ok("A*256+B");
    ok("(A-48)");
    ok("0.5 * (SIGNED(A)) + -64");
    ok("A*.2");
    ok("4.5");
}

#[test]
fn parses_colon_args_and_natural_if() {
    ok("BIT(A:3)");
    ok("INT16(A:B)*0.01");
    ok("IF BIT(A:4) == 1 THEN 'NoFault' ELSE (B*256)+C");
    ok("IF B == 0 THEN 'OFF' ELSE IF B == 254 THEN 'ERROR' ELSE B");
    ok("IF A > 128 THEN 1");
}

#[test]
fn parses_lookup_forms() {
    ok("LOOKUP(A:'PTO not active':1='PTO active')");
    ok("LOOKUP(BITVALUE(A:0:1):3:0='X':1='Y')");
    ok("LOOKUP(A::0~3=4:4~5=7)");
    ok("LOOKUP(BIT(A, 7), 'Off', '1=On')");
    ok("CLOSEST(A:A:1='low':255='high')");
    ok("LOOKUP((1.15*(VAL{MGZSEV_Cons_60MPH}-3.8)+1)::2.38~10=2.38:0~1=1:1.149~1.15=1)");
}

#[test]
fn parses_misc_dialect() {
    ok("val{Engine RPM}*0.1");
    ok("[222885]*[222414]/1000");
    ok("((((A*256)+B)>>8)&1)");
    ok("A > 0 ? 1 : 0");
    ok("ZEROREF(BIT(A:7)==1, -40, '(A & 0x7F) * 0.5')");
    ok("ascii()");
    ok("~A & 0xFF");
    ok("A >>> 1");
    ok("");
}

#[test]
fn rejects_invalid() {
    assert!(compile("A +").is_err());
    assert!(compile("LOOKUP(A:0").is_err());
    assert!(compile("IF A 1 ELSE 0").is_err());
    assert!(compile("22436B").is_err()); // ident right after number, like JS
    assert!(compile("A ; B").is_err());
    assert!(compile("'unterminated").is_err());
    assert!(compile("A : B").is_err()); // top-level colon
}

#[test]
fn natural_if_requires_exact_spacing() {
    // "IF\tA THEN 1" is not transformed by the pipeline (SyntaxError).
    assert!(compile("IF\tA THEN 1 ELSE 0").is_err());
}

// ---------------------------------------------------------------------------
// Tree shapes
// ---------------------------------------------------------------------------

fn ident_is(e: &Expr, want: &str) -> bool {
    matches!(e, Expr::Ident { name, .. } if name.as_slice() == want.as_bytes())
}

fn dec_is(e: &Expr, want: &str) -> bool {
    matches!(e, Expr::Num(NumLit::Decimal(t)) if t.as_slice() == want.as_bytes())
}

#[test]
fn precedence_multiplication_binds_tighter() {
    let a = ok("A*256+B");
    match &a.root {
        Expr::Binary(BinOp::Add, l, r) => {
            match &**l {
                Expr::Binary(BinOp::Mul, x, y) => {
                    assert!(ident_is(x, "A"));
                    assert!(dec_is(y, "256"));
                }
                other => panic!("unexpected left operand {other:?}"),
            }
            assert!(ident_is(r, "B"));
        }
        other => panic!("unexpected tree {other:?}"),
    }
    assert_eq!(a.source(), "A*256+B");
}

#[test]
fn power_is_right_associative() {
    let a = ok("2**3**2");
    match &a.root {
        Expr::Binary(BinOp::Pow, l, r) => {
            assert!(dec_is(l, "2"));
            assert!(matches!(&**r, Expr::Binary(BinOp::Pow, _, _)));
        }
        other => panic!("unexpected tree {other:?}"),
    }
}

#[test]
fn unary_operand_of_power_is_rejected() {
    let e = compile("-2**2").unwrap_err();
    assert_eq!(e.kind, ParseErrorKind::UnaryPowOperand);
    assert_eq!(e.pos, 2);
}

#[test]
fn hex_literal_keeps_radix_and_digits() {
    let a = ok("0x1F");
    match &a.root {
        Expr::Num(NumLit::Radix(r, d)) => {
            assert_eq!(*r, 16);
            assert_eq!(d.as_slice(), b"1F");
        }
        other => panic!("unexpected tree {other:?}"),
    }
}

#[test]
fn ternary_in_dialect_is_an_if_call() {
    let a = ok("A > 0 ? 1 : 0");
    match &a.root {
        Expr::Call { name, args, span } => {
            assert_eq!(name.as_slice(), b"IF");
            assert_eq!(args.len(), 3);
            assert_eq!(span.start, 6);
            assert_eq!(span.end, 13);
        }
        other => panic!("unexpected tree {other:?}"),
    }
}

#[test]
fn ternary_in_js_mode_stays_lazy() {
    let a = compile_js("A > 0 ? 1 : 0").unwrap();
    assert!(matches!(a.root, Expr::Ternary(_, _, _)));
}

#[test]
fn js_mode_rejects_colon_arguments_and_natural_if() {
    assert!(compile_js("BIT(A:3)").is_err());
    assert!(compile_js("IF A THEN 1").is_err());
    assert!(compile("BIT(A:3)").is_ok());
}

#[test]
fn natural_if_flattens_and_appends_zero() {
    let a = ok("IF A > 128 THEN 1");
    match &a.root {
        Expr::Call { name, args, .. } => {
            assert_eq!(name.as_slice(), b"IF");
            assert_eq!(args.len(), 3);
            assert!(dec_is(&args[2], "0"));
        }
        other => panic!("unexpected tree {other:?}"),
    }
}

#[test]
fn nested_else_if_is_one_argument() {
    let a = ok("IF B == 0 THEN 'OFF' ELSE IF B == 254 THEN 'ERROR' ELSE B");
    match &a.root {
        Expr::Call { args, .. } => {
            assert_eq!(args.len(), 3);
            assert!(matches!(&args[2], Expr::Call { name, args, .. } if name.as_slice() == b"IF" && args.len() == 3));
        }
        other => panic!("unexpected tree {other:?}"),
    }
}

#[test]
fn case_insensitive_names_are_canonical() {
    let a = ok("signed16(A:B)");
    assert!(matches!(&a.root, Expr::Call { name, .. } if name.as_slice() == b"SIGNED16"));
    let b = ok("Min(A, B)");
    assert!(matches!(&b.root, Expr::Call { name, .. } if name.as_slice() == b"Min"));
}

#[test]
fn lookup_arms_become_string_arguments() {
    let a = ok("LOOKUP(A:'PTO not active':1='PTO active')");
    match &a.root {
        Expr::Call { name, args, span } => {
            assert_eq!(name.as_slice(), b"LOOKUP");
            assert_eq!(args.len(), 3);
            assert!(ident_is(&args[0], "A"));
            assert!(matches!(&args[1], Expr::Str { s, .. } if s.as_slice() == b"PTO not active"));
            assert!(matches!(&args[2], Expr::Str { s, .. } if s.as_slice() == b"1='PTO active'"));
            assert_eq!(span.start, 0);
            assert_eq!(span.end, 41);
        }
        other => panic!("unexpected tree {other:?}"),
    }
}

#[test]
fn lookup_range_expands_to_arms() {
    let a = ok("LOOKUP(A::0~3=4:4~5=7)");
    match &a.root {
        Expr::Call { args, .. } => assert_eq!(args.len(), 8),
        other => panic!("unexpected tree {other:?}"),
    }
}

#[test]
fn val_ref_and_marker_in_string() {
    let a = ok("val{Engine RPM}*0.1");
    match &a.root {
        Expr::Binary(BinOp::Mul, l, _) => {
            assert!(matches!(&**l, Expr::ValRef { name, span } if name.as_slice() == b"Engine RPM" && span.start == 0 && span.end == 15));
        }
        other => panic!("unexpected tree {other:?}"),
    }
    let b = ok("'x val{P} y'");
    assert!(matches!(&b.root, Expr::Str { has_val_ref: true, .. }));
    let c = ok("'plain'");
    assert!(matches!(&c.root, Expr::Str { has_val_ref: false, .. }));
}

#[test]
fn string_escapes_are_decoded() {
    let a = ok(r"'a\tb\x41\u0042'");
    assert!(matches!(&a.root, Expr::Str { s, .. } if s.as_slice() == b"a\tbAB"));
}

#[test]
fn sequence_and_bracket_groups() {
    let a = ok("(A:B:C)");
    assert!(matches!(&a.root, Expr::Sequence(items) if items.len() == 3));
    let b = ok("[1, 2]");
    assert!(matches!(&b.root, Expr::Bracket(items) if items.len() == 2));
    let c = ok("A, B");
    assert!(matches!(&c.root, Expr::Sequence(items) if items.len() == 2));
}

#[test]
fn empty_program_is_undefined() {
    assert!(matches!(ok("").root, Expr::Undefined));
    assert!(matches!(ok("   ").root, Expr::Undefined));
}

#[test]
fn keyword_literals() {
    assert!(matches!(ok("true").root, Expr::Bool(true)));
    assert!(matches!(ok("false").root, Expr::Bool(false)));
    assert!(matches!(ok("undefined").root, Expr::Undefined));
    assert!(matches!(ok("!A").root, Expr::Unary(UnOp::Not, _)));
}

// ---------------------------------------------------------------------------
// Error kinds and positions
// ---------------------------------------------------------------------------

#[test]
fn error_positions_and_kinds() {
    let e = compile("A +").unwrap_err();
    assert_eq!((e.pos, e.kind), (3, ParseErrorKind::UnexpectedEnd));
    let e = compile("22436B").unwrap_err();
    assert_eq!((e.pos, e.kind), (5, ParseErrorKind::IdentAfterNumber));
    let e = compile("A : B").unwrap_err();
    assert_eq!((e.pos, e.kind), (2, ParseErrorKind::TrailingInput));
    let e = compile("LOOKUP(A:0").unwrap_err();
    assert_eq!((e.pos, e.kind), (0, ParseErrorKind::UnbalancedLookup));
    let e = compile("'unterminated").unwrap_err();
    assert_eq!((e.pos, e.kind), (0, ParseErrorKind::UnterminatedString));
    let e = compile("A ; B").unwrap_err();
    assert_eq!((e.pos, e.kind), (2, ParseErrorKind::UnexpectedChar(b';')));
    let e = compile("IF A 1 ELSE 0").unwrap_err();
    assert_eq!((e.pos, e.kind), (5, ParseErrorKind::ExpectedThen));
    let e = compile(")").unwrap_err();
    assert_eq!((e.pos, e.kind), (0, ParseErrorKind::UnexpectedToken(Punct::RParen)));
    let e = compile("1e").unwrap_err();
    assert_eq!((e.pos, e.kind), (0, ParseErrorKind::MissingExponentDigits));
    let e = compile("0x").unwrap_err();
    assert_eq!((e.pos, e.kind), (0, ParseErrorKind::MissingHexDigits));
    let e = compile("val{}").unwrap_err();
    assert_eq!((e.pos, e.kind), (0, ParseErrorKind::MalformedValRef));
    assert!(!e.in_lookup);
}

#[test]
fn errors_inside_lookup_arguments_point_at_the_call() {
    let e = compile("1 + LOOKUP(A:(B)").unwrap_err();
    assert_eq!(e.kind, ParseErrorKind::UnbalancedLookup);
    assert_eq!(e.pos, 4);
    let e = compile("1 + LOOKUP(A +)").unwrap_err();
    assert_eq!(e.pos, 4);
    assert!(e.in_lookup);
}

#[test]
fn too_deep_nesting_is_rejected() {
    let mut s = String::new();
    for _ in 0..250 {
        s.push('(');
    }
    s.push('1');
    for _ in 0..250 {
        s.push(')');
    }
    let e = compile(&s).unwrap_err();
    assert_eq!(e.kind, ParseErrorKind::TooDeep);
}

#[test]
fn long_power_chains_are_rejected_not_recursed() {
    let mut s = String::from("A");
    for _ in 0..5000 {
        s.push_str("**A");
    }
    let e = compile(&s).unwrap_err();
    assert_eq!(e.kind, ParseErrorKind::TooDeep);
    assert!(e.pos < s.len());
    let e = compile_js(&s).unwrap_err();
    assert_eq!(e.kind, ParseErrorKind::TooDeep);
}

#[test]
fn short_power_chains_still_parse() {
    let mut s = String::from("2");
    for _ in 0..50 {
        s.push_str("**1");
    }
    assert!(compile(&s).is_ok());
    // long chains of left-associative operators do not nest
    let mut t = String::from("1");
    for _ in 0..5000 {
        t.push_str("+1");
    }
    assert!(compile(&t).is_ok());
}

// ---------------------------------------------------------------------------
// LOOKUP argument segmentation
// ---------------------------------------------------------------------------

#[test]
fn lookup_args_quote_key_value_arms() {
    assert_eq!(
        process_lookup_args("A:'PTO not active':1='PTO active'"),
        "A,'PTO not active',\"1='PTO active'\""
    );
}

#[test]
fn lookup_args_expand_integer_ranges() {
    assert_eq!(
        process_lookup_args("A::0~3=4:4~5=7"),
        "A,\"\",\"0=4\",\"1=4\",\"2=4\",\"3=4\",\"4=7\",\"5=7\""
    );
    assert_eq!(process_lookup_args("A:-2~-1=x"), "A,\"-2=x\",\"-1=x\"");
    assert_eq!(process_lookup_args("A: 1 ~ 2 = v "), "A,\"1=v\",\"2=v\"");
}

#[test]
fn lookup_args_empty_and_blank_segments() {
    assert_eq!(process_lookup_args(":A"), "\"\",A");
    assert_eq!(process_lookup_args("A: :B"), "A,\"\",B");
    assert_eq!(process_lookup_args(""), "");
}

#[test]
fn lookup_args_comparisons_are_not_arms() {
    assert_eq!(process_lookup_args("A>=1:C!=3:D<=4"), "A>=1,C!=3,D<=4");
    // Only the first `=` of `==` counts as part of a comparison.
    assert_eq!(process_lookup_args("B==2"), "\"B==2\"");
}

#[test]
fn lookup_args_descending_or_non_integer_ranges() {
    assert_eq!(process_lookup_args("A:3~1=z"), "A,");
    assert_eq!(process_lookup_args("A:1.5~2=z"), "A,\"1.5~2=z\"");
}

// ---------------------------------------------------------------------------
// Equivalent spellings read to the same tree
// ---------------------------------------------------------------------------

/// The tree without positions.
fn shape(e: &Expr) -> String {
    match e {
        Expr::Num(NumLit::Decimal(t)) => format!("Num({})", String::from_utf8_lossy(t)),
        Expr::Num(NumLit::Radix(r, d)) => format!("Num({}:{})", r, String::from_utf8_lossy(d)),
        Expr::Str { s, has_val_ref } => format!("Str({:?},{})", String::from_utf8_lossy(s), has_val_ref),
        Expr::Bool(b) => format!("Bool({})", b),
        Expr::Undefined => "Undefined".to_string(),
        Expr::Ident { name, .. } => format!("Ident({})", String::from_utf8_lossy(name)),
        Expr::ValRef { name, .. } => format!("ValRef({})", String::from_utf8_lossy(name)),
        Expr::Bracket(items) => format!("Bracket[{}]", shapes(items)),
        Expr::Unary(op, x) => format!("Unary({:?},{})", op, shape(x)),
        Expr::Binary(op, l, r) => format!("Binary({:?},{},{})", op, shape(l), shape(r)),
        Expr::Ternary(c, a, b) => format!("Ternary({},{},{})", shape(c), shape(a), shape(b)),
        Expr::Call { name, args, .. } => {
            format!("Call({})[{}]", String::from_utf8_lossy(name), shapes(args))
        }
        Expr::Sequence(items) => format!("Seq[{}]", shapes(items)),
    }
}

fn shapes(items: &[Expr]) -> String {
    items.iter().map(shape).collect::<Vec<_>>().join(",")
}

fn same_tree(a: &str, b: &str) {
    assert_eq!(shape(&ok(a).root), shape(&ok(b).root), "{a:?} vs {b:?}");
}

#[test]
fn colon_arguments_equal_comma_arguments() {
    same_tree("BIT(A:3)", "BIT(A, 3)");
    same_tree("MIN(A:B)", "MIN(A, B)");
    same_tree("MAX(A:B:C)", "MAX(A, B, C)");
    same_tree("BITVALUE(A:0:3)", "BITVALUE(A, 0, 3)");
}

#[test]
fn natural_if_equals_if_call() {
    same_tree("IF A > 0 THEN 1 ELSE 0", "IF(A > 0, 1, 0)");
    same_tree(
        "IF B == 0 THEN 'OFF' ELSE IF B == 254 THEN 'ERROR' ELSE B",
        "IF(B == 0, 'OFF', IF(B == 254, 'ERROR', B))",
    );
    same_tree("IF A > 128 THEN 1", "IF(A > 128, 1, 0)");
}

#[test]
fn lookup_colon_form_equals_quoted_comma_form() {
    // With a space before `(` the argument text is not segmented, so the
    // right-hand forms spell out what segmentation produces.
    same_tree(
        "LOOKUP(A:0:1=100:2=200:3=300)",
        "LOOKUP (A, 0, \"1=100\", \"2=200\", \"3=300\")",
    );
    same_tree(
        "LOOKUP(A:0:0~2='Low')",
        "LOOKUP (A, 0, \"0='Low'\", \"1='Low'\", \"2='Low'\")",
    );
}

#[test]
fn lookup_comma_form_equals_colon_form() {
    // key=value arms between commas are arms as well
    same_tree(
        "LOOKUP(A, 0, 1=100, 2=200, 3=300)",
        "LOOKUP(A: 0: 1=100: 2=200: 3=300)",
    );
    same_tree(
        "LOOKUP(A,0,1=100,2=200,3=300)",
        "LOOKUP (A, 0, \"1=100\", \"2=200\", \"3=300\")",
    );
    // ranges between commas expand as well
    same_tree(
        "LOOKUP(A, 0, 0~3='Low', 4~7='Medium', 8~15='High')",
        "LOOKUP(A:0: 0~3='Low': 4~7='Medium': 8~15='High')",
    );
    same_tree(
        "CLOSEST(A,0,100=1,200=2)",
        "CLOSEST (A, 0, \"100=1\", \"200=2\")",
    );
    // plain key, value pairs are left as they are
    same_tree(
        "LOOKUP(A, 0, 1, 100, 2, 200)",
        "LOOKUP (A, 0, 1, 100, 2, 200)",
    );
    // commas inside calls, brackets and strings do not separate arms
    same_tree(
        "LOOKUP(MAX(A,B), 0, 1='a,b')",
        "LOOKUP (MAX(A,B), 0, \" 1='a,b'\")",
    );
}

#[test]
fn lookup_comma_form_has_five_arguments() {
    let a = ok("LOOKUP(A, 0, 1=100, 2=200, 3=300)");
    match &a.root {
        Expr::Call { name, args, .. } => {
            assert_eq!(name.as_slice(), b"LOOKUP");
            assert_eq!(args.len(), 5);
            assert!(ident_is(&args[0], "A"));
            assert!(dec_is(&args[1], "0"));
            assert!(matches!(&args[2], Expr::Str { s, .. } if s.as_slice() == b" 1=100"));
            assert!(matches!(&args[4], Expr::Str { s, .. } if s.as_slice() == b" 3=300"));
        }
        other => panic!("unexpected tree {other:?}"),
    }
}

#[test]
fn lookup_call_text_segments_comma_pieces() {
    assert_eq!(lookup_call_text("A, 0, 1=100"), "A, 0,\" 1=100\"");
    assert_eq!(lookup_call_text("A,0,0~1=x"), "A,0,\"0=x\",\"1=x\"");
    assert_eq!(lookup_call_text("A,0,1,2"), "A,0,1,2");
    assert_eq!(lookup_call_text("A,'x,y=1'"), "A,\"'x,y=1'\"");
    assert_eq!(lookup_call_text("A,'\\',b=1'"), "A,\"'\\',b=1'\"");
    assert_eq!(lookup_call_text(""), "");
    // with a `:` the whole text is segmented on colons
    assert_eq!(lookup_call_text("A, 0: 1=100"), process_lookup_args("A, 0: 1=100"));
}

#[test]
fn function_names_ignore_case() {
    same_tree("bit(A:0)", "BIT(A:0)");
    same_tree("Signed(A)", "SIGNED(A)");
    same_tree("float32(A,B,C,D)", "FLOAT32(A,B,C,D)");
}

#[test]
fn errors_point_into_the_source() {
    let bad = [
        "", "(", "1 +", "A +* B", "MAX(1,", "[1 2]", "IF A THEN", "'abc", "LOOKUP(A,", "1e",
        "0x", "A ? B", "(1, 2", "-", "val{", "IF A > 1 THEN 2 ELSE",
    ];
    for src in bad.iter() {
        if let Err(e) = compile(src) {
            assert!(e.pos <= src.len(), "{src:?}: {}", e.pos);
        }
        if let Err(e) = compile_js(src) {
            assert!(e.pos <= src.len(), "{src:?}: {}", e.pos);
        }
    }
    assert_eq!(compile("1 +").unwrap_err().pos, 3);
}
