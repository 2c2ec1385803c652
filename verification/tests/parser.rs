use furnace::ast::{BinOp, Expr, NumberLiteral, Statement, UnOp};
use furnace::errors::ForgeError;
use furnace::parser::{parse_expr, parse_program, tokenize};

fn int_lit(v: i64) -> Expr {
    Expr::Number(NumberLiteral { int_val: v, float_text: String::new(), is_float: false })
}

fn bin(op: BinOp, lhs: Expr, rhs: Expr) -> Expr {
    Expr::BinaryOp { op, lhs: Box::new(lhs), rhs: Box::new(rhs) }
}

#[test]
fn multiplication_binds_tighter_than_addition() {
    let toks = tokenize("1 + 2 * 3 - 4 % 5;").unwrap();
    let (e, q) = parse_expr(&toks, 0).unwrap();
    let expected = bin(
        BinOp::Sub,
        bin(BinOp::Add, int_lit(1), bin(BinOp::Mul, int_lit(2), int_lit(3))),
        bin(BinOp::Rem, int_lit(4), int_lit(5)),
    );
    assert_eq!(format!("{:?}", e), format!("{:?}", expected));
    assert_eq!(q, 9);
}

#[test]
fn operators_of_one_level_group_to_the_left() {
    let toks = tokenize("8 / 4 / 2 - 1 - 1)").unwrap();
    let (e, q) = parse_expr(&toks, 0).unwrap();
    let expected = bin(
        BinOp::Sub,
        bin(BinOp::Sub, bin(BinOp::Div, bin(BinOp::Div, int_lit(8), int_lit(4)), int_lit(2)), int_lit(1)),
        int_lit(1),
    );
    assert_eq!(format!("{:?}", e), format!("{:?}", expected));
    assert_eq!(q, 9);
}

#[test]
fn a_source_without_tokens_is_an_empty_program() {
    assert_eq!(parse_program("").unwrap().statements.len(), 0);
    assert_eq!(parse_program("  // only a comment\n").unwrap().statements.len(), 0);
}

#[test]
fn a_message_converts_to_a_diagnostic_without_position() {
    let e = ForgeError::from("Something failed".to_string());
    assert_eq!(e.message, "Something failed");
    assert_eq!((e.line, e.col), (0, 0));
}

#[test]
fn power_groups_to_the_right_under_a_leading_minus() {
    let toks = tokenize("-2 ** 3 ** 2;").unwrap();
    let (e, q) = parse_expr(&toks, 0).unwrap();
    let expected = Expr::UnaryOp {
        op: UnOp::Neg,
        operand: Box::new(bin(BinOp::Pow, int_lit(2), bin(BinOp::Pow, int_lit(3), int_lit(2)))),
    };
    assert_eq!(format!("{:?}", e), format!("{:?}", expected));
    assert_eq!(q, 6);
}

#[test]
fn a_run_of_keyword_statements_is_parsed_in_order() {
    let program = parse_program("Stop; Skip;\nReturn; Stop;").unwrap();
    assert_eq!(
        format!("{:?}", program.statements),
        format!("{:?}", vec![Statement::Stop, Statement::Skip, Statement::Return(None), Statement::Stop])
    );
}
