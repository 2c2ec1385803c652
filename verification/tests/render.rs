use furnace::ast::{BinOp, Expr, InputNode, NumberLiteral, RetKind, StringPart, Subtype, TypeDecl, UnOp};
use furnace::render::{expr_text_of, ret_kind_text_of, type_text_of};

fn ident(s: &str) -> Expr {
    Expr::Identifier(s.to_string())
}

fn int_lit(v: i64) -> Expr {
    Expr::Number(NumberLiteral { int_val: v, float_text: String::new(), is_float: false })
}

#[test]
fn type_text_matches_debug_layout() {
    let types = vec![
        TypeDecl::Number(Subtype::Int),
        TypeDecl::Weld,
        TypeDecl::Bool,
        TypeDecl::Ore(None),
        TypeDecl::Ore(Some(-12)),
        TypeDecl::OreTuple(vec![(Subtype::Int, "a".to_string()), (Subtype::Weld, "b\"c".to_string())]),
        TypeDecl::Materials(Subtype::Float, true),
    ];
    for t in &types {
        assert_eq!(type_text_of(t), format!("{:?}", t));
    }
    assert_eq!(type_text_of(&TypeDecl::Ore(Some(-12))), "Ore(Some(-12))");
}

#[test]
fn ret_kind_text_matches_debug_layout() {
    let kinds = vec![
        RetKind::Int,
        RetKind::Void,
        RetKind::Nunction,
        RetKind::Ore(Some(3)),
        RetKind::OreTuple(vec![]),
        RetKind::Materials(Subtype::Generic, false),
    ];
    for k in &kinds {
        assert_eq!(ret_kind_text_of(k), format!("{:?}", k));
    }
    assert_eq!(ret_kind_text_of(&RetKind::OreTuple(vec![])), "OreTuple([])");
}

#[test]
fn expr_text_matches_debug_layout() {
    let exprs = vec![
        ident("X"),
        Expr::Bool(true),
        Expr::MemberAccess { object: Box::new(ident("P")), member: "Name".to_string() },
        Expr::IndexAccess { object: Box::new(ident("L")), index: Box::new(ident("I")) },
        Expr::BinaryOp { op: BinOp::Pow, lhs: Box::new(ident("A")), rhs: Box::new(ident("B")) },
        Expr::UnaryOp { op: UnOp::Neg, operand: Box::new(ident("A")) },
        Expr::Call { callee: "F".to_string(), args: vec![ident("A"), ident("B")] },
        Expr::NamespaceCall { namespace: "Math".to_string(), method: "Max".to_string(), args: vec![] },
        Expr::MethodCall { object: Box::new(ident("L")), method: "Add".to_string(), args: vec![ident("A")] },
        Expr::Input(InputNode { subtype: Some(Subtype::Int) }),
        Expr::Input(InputNode { subtype: None }),
        Expr::ArrayLiteral(vec![ident("A")]),
        Expr::TupleLiteral(vec![ident("A"), ident("B"), ident("C")]),
        Expr::ListLiteral(vec![]),
        Expr::Str(vec![StringPart::Literal("hi\t\"x\"\n".to_string()), StringPart::Interp("Y".to_string())]),
        ident("back\\slash\u{1}\u{7f}"),
    ];
    for e in &exprs {
        assert_eq!(expr_text_of(e), format!("{:?}", e));
    }
}

#[test]
fn number_literals_show_their_value() {
    let e = Expr::BinaryOp { op: BinOp::Add, lhs: Box::new(ident("X")), rhs: Box::new(int_lit(-7)) };
    assert_eq!(
        expr_text_of(&e),
        "BinaryOp { op: Add, lhs: Identifier(\"X\"), rhs: Number(NumberLiteral { int_val: -7, float_val: 0.0, is_float: false }) }"
    );
    let f = Expr::ListLiteral(vec![Expr::Number(NumberLiteral {
        int_val: 0,
        float_text: "3.14".to_string(),
        is_float: true,
    })]);
    assert_eq!(
        expr_text_of(&f),
        "ListLiteral([Number(NumberLiteral { int_val: 0, float_val: 3.14, is_float: true })])"
    );
}
