use whetstone::ir::{parse, BinOp, Expr, Instr, Program, Value};

#[test]
fn parses_a_simple_program() {
    let src = "t1 = 2 + 3\nt2 = t1 * x\nprint t2\n";
    let prog = parse(src).unwrap();
    assert_eq!(prog.instrs.len(), 3);
    assert_eq!(
        prog.instrs[0],
        Instr::Assign {
            dst: "t1".into(),
            expr: Expr::Bin(Value::Const(2), BinOp::Add, Value::Const(3))
        }
    );
}

#[test]
fn rejects_bad_ir_with_line_number() {
    let src = "t1 = 2 +\n";
    let err = parse(src).unwrap_err();
    assert_eq!(err.line, 1);
}

#[test]
fn skips_blank_lines_and_comments() {
    let src = "# a comment\n\nt1 = 5\n";
    let prog = parse(src).unwrap();
    assert_eq!(prog.instrs.len(), 1);
}

#[test]
fn parse_reads_every_instruction_shape() {
    let prog = parse("a = 7\nb = a\nc = a >= -3\nprint c\n").unwrap();
    assert_eq!(
        prog.instrs,
        vec![
            Instr::Assign { dst: "a".into(), expr: Expr::Copy(Value::Const(7)) },
            Instr::Assign { dst: "b".into(), expr: Expr::Copy(Value::Reg("a".into())) },
            Instr::Assign {
                dst: "c".into(),
                expr: Expr::Bin(Value::Reg("a".into()), BinOp::Ge, Value::Const(-3)),
            },
            Instr::Print(Value::Reg("c".into())),
        ]
    );
}

#[test]
fn parse_accepts_signs_comments_tabs_and_crlf() {
    let prog = parse("  x_1\t=   +5   # trailing comment\r\nprint x_1\r\n").unwrap();
    assert_eq!(prog.to_string(), "x_1 = 5\nprint x_1");
}

#[test]
fn parse_reads_the_extreme_integers() {
    let prog = parse("a = -9223372036854775808\nb = 9223372036854775807\n").unwrap();
    assert_eq!(
        prog.instrs[0],
        Instr::Assign { dst: "a".into(), expr: Expr::Copy(Value::Const(i64::MIN)) }
    );
    assert_eq!(
        prog.instrs[1],
        Instr::Assign { dst: "b".into(), expr: Expr::Copy(Value::Const(i64::MAX)) }
    );
}

#[test]
fn an_integer_out_of_range_is_not_a_value() {
    let err = parse("a = 9223372036854775808\n").unwrap_err();
    assert_eq!(err.line, 1);
    assert_eq!(
        err.message,
        "expected a number or a register name, found `9223372036854775808`"
    );
}

#[test]
fn print_with_the_wrong_arity_is_an_error() {
    let err = parse("print\n").unwrap_err();
    assert_eq!(err.message, "`print` takes exactly one value, found 0 tokens");
    let err = parse("t = 1\nprint a b\n").unwrap_err();
    assert_eq!(err.line, 2);
    assert_eq!(err.message, "`print` takes exactly one value, found 2 tokens");
}

#[test]
fn a_line_of_the_wrong_shape_is_an_error() {
    let err = parse("\n\nt1 5\n").unwrap_err();
    assert_eq!(err.line, 3);
    assert_eq!(
        err.message,
        "expected `dst = value`, `dst = value op value`, or `print value`"
    );
}

#[test]
fn a_bad_register_name_is_an_error() {
    let err = parse("1x = 5\n").unwrap_err();
    assert_eq!(err.message, "`1x` is not a valid register name");
}

#[test]
fn an_unknown_operator_is_an_error() {
    let err = parse("t = a % b\n").unwrap_err();
    assert_eq!(err.message, "unknown operator `%`");
}

#[test]
fn a_bad_operand_is_an_error() {
    let err = parse("t = a + $\n").unwrap_err();
    assert_eq!(err.message, "expected a number or a register name, found `$`");
}

#[test]
fn the_wrong_number_of_tokens_is_an_error() {
    let err = parse("t = a + b + c\n").unwrap_err();
    assert_eq!(err.message, "expected `dst = value` or `dst = value op value`, found 7 tokens");
    assert_eq!(err.to_string(), "line 1: expected `dst = value` or `dst = value op value`, found 7 tokens");
}

#[test]
fn the_first_error_is_the_one_reported() {
    let err = parse("a = 1\nb = ?\nc = !\n").unwrap_err();
    assert_eq!(err.line, 2);
}

#[test]
fn apply_folds_each_operator() {
    assert_eq!(BinOp::Add.apply(2, 3), Some(5));
    assert_eq!(BinOp::Sub.apply(2, 3), Some(-1));
    assert_eq!(BinOp::Mul.apply(-4, 3), Some(-12));
    assert_eq!(BinOp::Div.apply(7, 2), Some(3));
    assert_eq!(BinOp::Div.apply(-7, 2), Some(-3));
    assert_eq!(BinOp::Div.apply(7, -2), Some(-3));
    assert_eq!(BinOp::Div.apply(-7, -2), Some(3));
    assert_eq!(BinOp::Div.apply(7, 0), None);
    assert_eq!(BinOp::Eq.apply(4, 4), Some(1));
    assert_eq!(BinOp::Ne.apply(4, 4), Some(0));
    assert_eq!(BinOp::Lt.apply(3, 4), Some(1));
    assert_eq!(BinOp::Le.apply(5, 4), Some(0));
    assert_eq!(BinOp::Gt.apply(5, 4), Some(1));
    assert_eq!(BinOp::Ge.apply(4, 4), Some(1));
}

#[test]
fn apply_wraps_on_overflow() {
    assert_eq!(BinOp::Add.apply(i64::MAX, 1), Some(i64::MIN));
    assert_eq!(BinOp::Sub.apply(i64::MIN, 1), Some(i64::MAX));
    assert_eq!(BinOp::Mul.apply(i64::MAX, 2), Some(-2));
    assert_eq!(BinOp::Div.apply(i64::MIN, -1), Some(i64::MIN));
}

#[test]
fn def_uses_and_side_effects() {
    let prog = parse("t = a + b\nu = 3 * a\nprint t\nprint 4\n").unwrap();
    assert_eq!(prog.instrs[0].def(), Some("t"));
    assert_eq!(prog.instrs[0].uses(), vec!["a", "b"]);
    assert_eq!(prog.instrs[1].uses(), vec!["a"]);
    assert_eq!(prog.instrs[2].def(), None);
    assert_eq!(prog.instrs[2].uses(), vec!["t"]);
    assert!(prog.instrs[3].uses().is_empty());
    assert!(!prog.instrs[0].has_side_effect());
    assert!(prog.instrs[2].has_side_effect());
}

#[test]
fn text_form_round_trips_through_parse() {
    let src = "t1 = x * -4\nt2 = t1 != 0\nprint t2";
    let prog = parse(src).unwrap();
    assert_eq!(prog.to_string(), src);
    assert_eq!(parse(&prog.to_string()).unwrap(), prog);
    assert_eq!(prog.instrs[0].to_string(), "t1 = x * -4");
    assert_eq!(BinOp::Ne.to_string(), "!=");
    assert_eq!(Value::Const(-12).to_string(), "-12");
    assert_eq!(Expr::Bin(Value::Reg("x".into()), BinOp::Le, Value::Const(0)).to_string(), "x <= 0");
}

#[test]
fn an_empty_program_is_empty_text() {
    let prog = parse("").unwrap();
    assert_eq!(prog, Program::default());
    assert_eq!(prog.to_string(), "");
}

#[test]
fn every_operator_symbol_reads_back_as_its_operator() {
    let ops = [
        ("+", BinOp::Add),
        ("-", BinOp::Sub),
        ("*", BinOp::Mul),
        ("/", BinOp::Div),
        ("==", BinOp::Eq),
        ("!=", BinOp::Ne),
        ("<", BinOp::Lt),
        ("<=", BinOp::Le),
        (">", BinOp::Gt),
        (">=", BinOp::Ge),
    ];
    for (sym, op) in ops {
        assert_eq!(op.to_string(), sym);
        let prog = parse(&format!("t = a {sym} b")).unwrap();
        assert_eq!(
            prog.instrs[0],
            Instr::Assign {
                dst: "t".into(),
                expr: Expr::Bin(Value::Reg("a".into()), op, Value::Reg("b".into())),
            }
        );
    }
    for sym in ["%", "=", "<>", "=<", "++"] {
        let err = parse(&format!("t = a {sym} b")).unwrap_err();
        assert_eq!(err.message, format!("unknown operator `{sym}`"));
    }
}

#[test]
fn two_sources_joined_parse_in_order_with_later_line_numbers() {
    let a = "x = 1\n# note\nprint x";
    let b = "y = x + 2\nprint y";
    let joined = parse(&format!("{a}\n{b}")).unwrap();
    let mut both = parse(a).unwrap().instrs;
    both.extend(parse(b).unwrap().instrs);
    assert_eq!(joined.instrs, both);
    let err = parse(&format!("{a}\nz = ?")).unwrap_err();
    assert_eq!(err.line, 4);
}

#[test]
fn from_str_reads_each_symbol_and_nothing_else() {
    let ops = [
        BinOp::Add, BinOp::Sub, BinOp::Mul, BinOp::Div, BinOp::Eq,
        BinOp::Ne, BinOp::Lt, BinOp::Le, BinOp::Gt, BinOp::Ge,
    ];
    for op in ops {
        assert_eq!(BinOp::from_str(op.as_str()), Some(op));
    }
    for s in ["%", "=", "<>", "", "+ ", "=>"] {
        assert_eq!(BinOp::from_str(s), None);
    }
}

#[test]
fn a_parse_error_names_a_line_of_the_source() {
    let err = parse("a = 1\n\n\nb = %\n").unwrap_err();
    assert_eq!(err.line, 4);
}
