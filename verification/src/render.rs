//! Renderings of syntax-tree values for diagnostics, in the layout of
//! Rust's structural debug output: variant names, fields in braces, lists in
//! brackets and texts in quotes.

use vstd::prelude::*;

use crate::ast::{BinOp, Expr, NumberLiteral, RetKind, StringPart, Subtype, TypeDecl, UnOp};
use crate::text::{append, chars_of, decimal, decimal_string, owned};

verus! {

/// The name of a subtype.
pub open spec fn subtype_text(s: Subtype) -> Seq<char> {
    match s {
        Subtype::Int => "Int"@,
        Subtype::Float => "Float"@,
        Subtype::Generic => "Generic"@,
        Subtype::Weld => "Weld"@,
    }
}

/// A boolean as `true` or `false`.
pub open spec fn bool_text(b: bool) -> Seq<char> {
    if b {
        "true"@
    } else {
        "false"@
    }
}

/// A signed integer in decimal.
pub open spec fn int_text(v: i64) -> Seq<char> {
    if v < 0 {
        "-"@ + decimal((-v) as nat)
    } else {
        decimal(v as nat)
    }
}

/// A lower-case hexadecimal digit.
pub open spec fn hex_digit(d: int) -> char {
    if d < 10 {
        ((d + 48) as u8) as char
    } else {
        ((d + 87) as u8) as char
    }
}

/// A number below 256 in lower-case hexadecimal, without leading zeros.
pub open spec fn small_hex(v: int) -> Seq<char> {
    if v < 16 {
        seq![hex_digit(v)]
    } else {
        seq![hex_digit(v / 16), hex_digit(v % 16)]
    }
}

/// Whether a character is an ASCII control character other than the four
/// that have a named escape.
pub open spec fn plain_control(c: char) -> bool {
    (c as u32) < 0x20 && c != '\n' && c != '\t' && c != '\r' && c != '\0' || (c as u32) == 0x7f
}

/// How one character of a quoted text is written: quotes, backslashes and
/// the control characters newline, tab, carriage return and NUL have named
/// escapes, the other ASCII control characters are written as `\u{..}` with
/// their code in hexadecimal, and every other character stands as it is.
pub open spec fn escaped_char(c: char) -> Seq<char> {
    if c == '"' {
        "\\\""@
    } else if c == '\\' {
        "\\\\"@
    } else if c == '\n' {
        "\\n"@
    } else if c == '\t' {
        "\\t"@
    } else if c == '\r' {
        "\\r"@
    } else if c == '\0' {
        "\\0"@
    } else if plain_control(c) {
        "\\u{"@ + small_hex(c as int) + "}"@
    } else {
        seq![c]
    }
}

/// A text with each character escaped.
pub open spec fn escaped_text(s: Seq<char>) -> Seq<char>
    decreases s.len(),
{
    if s.len() == 0 {
        seq![]
    } else {
        escaped_text(s.drop_last()) + escaped_char(s.last())
    }
}

/// A text in double quotes.
pub open spec fn quoted(s: Seq<char>) -> Seq<char> {
    "\""@ + escaped_text(s) + "\""@
}

/// An optional integer as `None` or `Some(n)`.
pub open spec fn option_int_text(o: Option<i64>) -> Seq<char> {
    match o {
        None => "None"@,
        Some(v) => "Some("@ + int_text(v) + ")"@,
    }
}

/// One tuple field as `(Subtype, "name")`.
pub open spec fn field_text(f: (Subtype, String)) -> Seq<char> {
    "("@ + subtype_text(f.0) + ", "@ + quoted(f.1@) + ")"@
}

/// The fields of a tuple type, separated by `, `.
pub open spec fn fields_inner(fs: Seq<(Subtype, String)>) -> Seq<char>
    decreases fs.len(),
{
    if fs.len() == 0 {
        seq![]
    } else if fs.len() == 1 {
        field_text(fs[0])
    } else {
        fields_inner(fs.drop_last()) + ", "@ + field_text(fs.last())
    }
}

/// A declared type, as diagnostics show it.
pub open spec fn type_text(t: TypeDecl) -> Seq<char> {
    match t {
        TypeDecl::Number(s) => "Number("@ + subtype_text(s) + ")"@,
        TypeDecl::Weld => "Weld"@,
        TypeDecl::Bool => "Bool"@,
        TypeDecl::Ore(o) => "Ore("@ + option_int_text(o) + ")"@,
        TypeDecl::OreTuple(fs) => "OreTuple(["@ + fields_inner(fs@) + "])"@,
        TypeDecl::Materials(s, b) => "Materials("@ + subtype_text(s) + ", "@ + bool_text(b) + ")"@,
    }
}

/// A return kind, as diagnostics show it.
pub open spec fn ret_kind_text(r: RetKind) -> Seq<char> {
    match r {
        RetKind::Int => "Int"@,
        RetKind::Float => "Float"@,
        RetKind::Generic => "Generic"@,
        RetKind::Weld => "Weld"@,
        RetKind::Bool => "Bool"@,
        RetKind::Ore(o) => "Ore("@ + option_int_text(o) + ")"@,
        RetKind::OreTuple(fs) => "OreTuple(["@ + fields_inner(fs@) + "])"@,
        RetKind::Materials(s, b) => "Materials("@ + subtype_text(s) + ", "@ + bool_text(b) + ")"@,
        RetKind::Function => "Function"@,
        RetKind::Nunction => "Nunction"@,
        RetKind::Dynamic => "Dynamic"@,
        RetKind::Void => "Void"@,
    }
}

/// The name of a binary operator.
pub open spec fn binop_text(op: BinOp) -> Seq<char> {
    match op {
        BinOp::Add => "Add"@,
        BinOp::Sub => "Sub"@,
        BinOp::Mul => "Mul"@,
        BinOp::Div => "Div"@,
        BinOp::Rem => "Rem"@,
        BinOp::Pow => "Pow"@,
        BinOp::Eq => "Eq"@,
        BinOp::Ne => "Ne"@,
        BinOp::Lt => "Lt"@,
        BinOp::Gt => "Gt"@,
        BinOp::Le => "Le"@,
        BinOp::Ge => "Ge"@,
        BinOp::And => "And"@,
        BinOp::Or => "Or"@,
        BinOp::Xor => "Xor"@,
    }
}

/// The name of a unary operator.
pub open spec fn unop_text(op: UnOp) -> Seq<char> {
    match op {
        UnOp::Plus => "Plus"@,
        UnOp::Neg => "Neg"@,
    }
}

/// One part of a string literal.
pub open spec fn part_text(p: StringPart) -> Seq<char> {
    match p {
        StringPart::Literal(t) => "Literal("@ + quoted(t@) + ")"@,
        StringPart::Interp(t) => "Interp("@ + quoted(t@) + ")"@,
    }
}

/// The parts of a string literal, separated by `, `.
pub open spec fn parts_inner(ps: Seq<StringPart>) -> Seq<char>
    decreases ps.len(),
{
    if ps.len() == 0 {
        seq![]
    } else if ps.len() == 1 {
        part_text(ps[0])
    } else {
        parts_inner(ps.drop_last()) + ", "@ + part_text(ps.last())
    }
}

/// The float value of a number literal: `0.0` for an integer literal, and
/// the literal's source text for a float literal.
pub open spec fn float_shown(n: NumberLiteral) -> Seq<char> {
    if n.is_float {
        n.float_text@
    } else {
        "0.0"@
    }
}

/// An expression, as diagnostics show it.
pub open spec fn expr_text(e: Expr) -> Seq<char>
    decreases e,
{
    match e {
        Expr::Number(n) => "Number(NumberLiteral { int_val: "@ + int_text(n.int_val) + ", float_val: "@
            + float_shown(n) + ", is_float: "@ + bool_text(n.is_float) + " })"@,
        Expr::Str(ps) => "Str(["@ + parts_inner(ps@) + "])"@,
        Expr::Bool(b) => "Bool("@ + bool_text(b) + ")"@,
        Expr::Identifier(s) => "Identifier("@ + quoted(s@) + ")"@,
        Expr::MemberAccess { object, member } => "MemberAccess { object: "@ + expr_text(*object)
            + ", member: "@ + quoted(member@) + " }"@,
        Expr::IndexAccess { object, index } => "IndexAccess { object: "@ + expr_text(*object)
            + ", index: "@ + expr_text(*index) + " }"@,
        Expr::BinaryOp { op, lhs, rhs } => "BinaryOp { op: "@ + binop_text(op) + ", lhs: "@ + expr_text(
            *lhs,
        ) + ", rhs: "@ + expr_text(*rhs) + " }"@,
        Expr::UnaryOp { op, operand } => "UnaryOp { op: "@ + unop_text(op) + ", operand: "@ + expr_text(
            *operand,
        ) + " }"@,
        Expr::Call { callee, args } => {
            proof {
                assert(decreases_to!(e => args));
                assert(decreases_to!(args => args@));
            }
            "Call { callee: "@ + quoted(callee@) + ", args: ["@ + exprs_inner(args@) + "] }"@
        },
        Expr::NamespaceCall { namespace, method, args } => {
            proof {
                assert(decreases_to!(e => args));
                assert(decreases_to!(args => args@));
            }
            "NamespaceCall { namespace: "@ + quoted(namespace@) + ", method: "@ + quoted(method@)
                + ", args: ["@ + exprs_inner(args@) + "] }"@
        },
        Expr::MethodCall { object, method, args } => {
            proof {
                assert(decreases_to!(e => args));
                assert(decreases_to!(args => args@));
            }
            "MethodCall { object: "@ + expr_text(*object) + ", method: "@ + quoted(method@)
                + ", args: ["@ + exprs_inner(args@) + "] }"@
        },
        Expr::Input(node) => match node.subtype {
            Some(s) => "Input(InputNode { subtype: Some("@ + subtype_text(s) + ") })"@,
            None => "Input(InputNode { subtype: None })"@,
        },
        Expr::ArrayLiteral(items) => {
            proof {
                assert(decreases_to!(e => items));
                assert(decreases_to!(items => items@));
            }
            "ArrayLiteral(["@ + exprs_inner(items@) + "])"@
        },
        Expr::TupleLiteral(items) => {
            proof {
                assert(decreases_to!(e => items));
                assert(decreases_to!(items => items@));
            }
            "TupleLiteral(["@ + exprs_inner(items@) + "])"@
        },
        Expr::ListLiteral(items) => {
            proof {
                assert(decreases_to!(e => items));
                assert(decreases_to!(items => items@));
            }
            "ListLiteral(["@ + exprs_inner(items@) + "])"@
        },
    }
}

/// A list of expressions, separated by `, `.
pub open spec fn exprs_inner(es: Seq<Expr>) -> Seq<char>
    decreases es,
{
    if es.len() == 0 {
        seq![]
    } else if es.len() == 1 {
        proof {
            assert(decreases_to!(es => es[0]));
        }
        expr_text(es[0])
    } else {
        proof {
            assert(decreases_to!(es => es.subrange(0, es.len() - 1)));
            assert(decreases_to!(es => es[es.len() - 1]));
        }
        exprs_inner(es.subrange(0, es.len() - 1)) + ", "@ + expr_text(es[es.len() - 1])
    }
}

/// Appends a text in double quotes, escaped.
fn push_quoted(out: &mut String, s: &str)
    ensures
        final(out)@ == old(out)@ + quoted(s@),
{
    let ghost start = out@;
    append(out, "\"");
    let cs = chars_of(s);
    let mut i: usize = 0;
    while i < cs.len()
        invariant
            cs@ == s@,
            i <= cs@.len(),
            out@ == start + "\""@ + escaped_text(cs@.take(i as int)),
        decreases cs.len() - i,
    {
        let c = cs[i];
        let ghost before = out@;
        proof {
            assert(cs@.take(i + 1).drop_last() =~= cs@.take(i as int));
            assert(cs@.take(i + 1).last() == c);
        }
        push_escaped(out, c);
        proof {
            assert(out@ =~= start + "\""@ + escaped_text(cs@.take(i + 1)));
        }
        i += 1;
    }
    proof {
        assert(cs@.take(i as int) =~= s@);
    }
    append(out, "\"");
    proof {
        assert(out@ =~= old(out)@ + quoted(s@));
    }
}

/// Appends one character of a quoted text, escaped.
fn push_escaped(out: &mut String, c: char)
    ensures
        final(out)@ == old(out)@ + escaped_char(c),
{
    let code: u32 = c as u32;
    if c == '"' {
        append(out, "\\\"");
    } else if c == '\\' {
        append(out, "\\\\");
    } else if c == '\n' {
        append(out, "\\n");
    } else if c == '\t' {
        append(out, "\\t");
    } else if c == '\r' {
        append(out, "\\r");
    } else if c == '\0' {
        append(out, "\\0");
    } else if code < 0x20 || code == 0x7f {
        append(out, "\\u{");
        push_small_hex(out, code);
        append(out, "}");
        proof {
            assert(plain_control(c));
            assert(code as int == c as int);
            assert(out@ =~= old(out)@ + escaped_char(c));
        }
    } else {
        crate::text::push_char(out, c);
        proof {
            assert(!plain_control(c));
            assert(out@ =~= old(out)@ + escaped_char(c));
        }
    }
}

fn hex_char(d: u32) -> (c: char)
    requires
        d < 16,
    ensures
        c == hex_digit(d as int),
{
    let b: u8 = if d < 10 {
        (d + 48) as u8
    } else {
        (d + 87) as u8
    };
    b as char
}

/// Appends a number below 256 in lower-case hexadecimal.
fn push_small_hex(out: &mut String, v: u32)
    requires
        v < 256,
    ensures
        final(out)@ == old(out)@ + small_hex(v as int),
{
    if v < 16 {
        crate::text::push_char(out, hex_char(v));
    } else {
        crate::text::push_char(out, hex_char(v / 16));
        crate::text::push_char(out, hex_char(v % 16));
    }
    proof {
        assert(out@ =~= old(out)@ + small_hex(v as int));
    }
}

fn subtype_str(s: Subtype) -> (r: &'static str)
    ensures
        r@ == subtype_text(s),
{
    match s {
        Subtype::Int => "Int",
        Subtype::Float => "Float",
        Subtype::Generic => "Generic",
        Subtype::Weld => "Weld",
    }
}

fn bool_str(b: bool) -> (r: &'static str)
    ensures
        r@ == bool_text(b),
{
    if b {
        "true"
    } else {
        "false"
    }
}

/// Appends a signed integer in decimal.
fn push_int(out: &mut String, v: i64)
    ensures
        final(out)@ == old(out)@ + int_text(v),
{
    if v < 0 {
        append(out, "-");
        let m: u64 = (-(v as i128)) as u64;
        append(out, decimal_string(m).as_str());
        proof {
            assert(out@ =~= old(out)@ + ("-"@ + decimal((-v) as nat)));
        }
    } else {
        append(out, decimal_string(v as u64).as_str());
    }
}

fn push_option_int(out: &mut String, o: Option<i64>)
    ensures
        final(out)@ == old(out)@ + option_int_text(o),
{
    match o {
        None => append(out, "None"),
        Some(v) => {
            append(out, "Some(");
            push_int(out, v);
            append(out, ")");
            proof {
                assert(out@ =~= old(out)@ + option_int_text(o));
            }
        },
    }
}

fn push_fields(out: &mut String, fs: &Vec<(Subtype, String)>)
    ensures
        final(out)@ == old(out)@ + fields_inner(fs@),
{
    let ghost start = out@;
    let mut i: usize = 0;
    while i < fs.len()
        invariant
            i <= fs@.len(),
            out@ == start + fields_inner(fs@.take(i as int)),
        decreases fs.len() - i,
    {
        proof {
            assert(fs@.take(i + 1).drop_last() =~= fs@.take(i as int));
        }
        let ghost before = out@;
        if i > 0 {
            append(out, ", ");
        }
        append(out, "(");
        append(out, subtype_str(fs[i].0));
        append(out, ", ");
        push_quoted(out, fs[i].1.as_str());
        append(out, ")");
        proof {
            if i == 0 {
                assert(fs@.take(1) =~= seq![fs@[0]]);
                assert(out@ =~= start + fields_inner(fs@.take(1)));
            } else {
                assert(out@ =~= start + fields_inner(fs@.take(i + 1)));
            }
        }
        i += 1;
    }
    proof {
        assert(fs@.take(i as int) =~= fs@);
    }
}

/// A declared type, as diagnostics show it.
pub fn type_text_of(t: &TypeDecl) -> (r: String)
    ensures
        r@ == type_text(*t),
{
    let mut out = String::new();
    match t {
        TypeDecl::Number(s) => {
            append(&mut out, "Number(");
            append(&mut out, subtype_str(*s));
            append(&mut out, ")");
        },
        TypeDecl::Weld => append(&mut out, "Weld"),
        TypeDecl::Bool => append(&mut out, "Bool"),
        TypeDecl::Ore(o) => {
            append(&mut out, "Ore(");
            push_option_int(&mut out, *o);
            append(&mut out, ")");
        },
        TypeDecl::OreTuple(fs) => {
            append(&mut out, "OreTuple([");
            push_fields(&mut out, fs);
            append(&mut out, "])");
        },
        TypeDecl::Materials(s, b) => {
            append(&mut out, "Materials(");
            append(&mut out, subtype_str(*s));
            append(&mut out, ", ");
            append(&mut out, bool_str(*b));
            append(&mut out, ")");
        },
    }
    proof {
        assert(out@ =~= type_text(*t));
    }
    out
}

/// A return kind, as diagnostics show it.
pub fn ret_kind_text_of(r: &RetKind) -> (s: String)
    ensures
        s@ == ret_kind_text(*r),
{
    let mut out = String::new();
    match r {
        RetKind::Int => append(&mut out, "Int"),
        RetKind::Float => append(&mut out, "Float"),
        RetKind::Generic => append(&mut out, "Generic"),
        RetKind::Weld => append(&mut out, "Weld"),
        RetKind::Bool => append(&mut out, "Bool"),
        RetKind::Ore(o) => {
            append(&mut out, "Ore(");
            push_option_int(&mut out, *o);
            append(&mut out, ")");
        },
        RetKind::OreTuple(fs) => {
            append(&mut out, "OreTuple([");
            push_fields(&mut out, fs);
            append(&mut out, "])");
        },
        RetKind::Materials(s, b) => {
            append(&mut out, "Materials(");
            append(&mut out, subtype_str(*s));
            append(&mut out, ", ");
            append(&mut out, bool_str(*b));
            append(&mut out, ")");
        },
        RetKind::Function => append(&mut out, "Function"),
        RetKind::Nunction => append(&mut out, "Nunction"),
        RetKind::Dynamic => append(&mut out, "Dynamic"),
        RetKind::Void => append(&mut out, "Void"),
    }
    proof {
        assert(out@ =~= ret_kind_text(*r));
    }
    out
}

fn binop_str(op: BinOp) -> (r: &'static str)
    ensures
        r@ == binop_text(op),
{
    match op {
        BinOp::Add => "Add",
        BinOp::Sub => "Sub",
        BinOp::Mul => "Mul",
        BinOp::Div => "Div",
        BinOp::Rem => "Rem",
        BinOp::Pow => "Pow",
        BinOp::Eq => "Eq",
        BinOp::Ne => "Ne",
        BinOp::Lt => "Lt",
        BinOp::Gt => "Gt",
        BinOp::Le => "Le",
        BinOp::Ge => "Ge",
        BinOp::And => "And",
        BinOp::Or => "Or",
        BinOp::Xor => "Xor",
    }
}

fn push_parts(out: &mut String, ps: &Vec<StringPart>)
    ensures
        final(out)@ == old(out)@ + parts_inner(ps@),
{
    let ghost start = out@;
    let mut i: usize = 0;
    while i < ps.len()
        invariant
            i <= ps@.len(),
            out@ == start + parts_inner(ps@.take(i as int)),
        decreases ps.len() - i,
    {
        proof {
            assert(ps@.take(i + 1).drop_last() =~= ps@.take(i as int));
        }
        if i > 0 {
            append(out, ", ");
        }
        match &ps[i] {
            StringPart::Literal(t) => {
                append(out, "Literal(");
                push_quoted(out, t.as_str());
            },
            StringPart::Interp(t) => {
                append(out, "Interp(");
                push_quoted(out, t.as_str());
            },
        }
        append(out, ")");
        proof {
            if i == 0 {
                assert(ps@.take(1) =~= seq![ps@[0]]);
                assert(out@ =~= start + parts_inner(ps@.take(1)));
            } else {
                assert(out@ =~= start + parts_inner(ps@.take(i + 1)));
            }
        }
        i += 1;
    }
    proof {
        assert(ps@.take(i as int) =~= ps@);
    }
}

fn push_exprs(out: &mut String, es: &Vec<Expr>)
    ensures
        final(out)@ == old(out)@ + exprs_inner(es@),
    decreases es@,
{
    let ghost start = out@;
    let mut i: usize = 0;
    while i < es.len()
        invariant
            i <= es@.len(),
            out@ == start + exprs_inner(es@.take(i as int)),
        decreases es.len() - i,
    {
        proof {
            assert(es@.take(i + 1).subrange(0, i as int) =~= es@.take(i as int));
            assert(decreases_to!(es@ => es@[i as int]));
        }
        if i > 0 {
            append(out, ", ");
        }
        push_expr(out, &es[i]);
        proof {
            if i == 0 {
                assert(es@.take(1) =~= seq![es@[0]]);
                assert(out@ =~= start + exprs_inner(es@.take(1)));
            } else {
                assert(out@ =~= start + exprs_inner(es@.take(i + 1)));
            }
        }
        i += 1;
    }
    proof {
        assert(es@.take(i as int) =~= es@);
    }
}

/// Appends an expression, as diagnostics show it.
#[verifier::rlimit(50)]
#[verifier::spinoff_prover]
fn push_expr(out: &mut String, e: &Expr)
    ensures
        final(out)@ == old(out)@ + expr_text(*e),
    decreases e,
{
    let ghost start = out@;
    match e {
        Expr::Number(n) => {
            append(out, "Number(NumberLiteral { int_val: ");
            push_int(out, n.int_val);
            append(out, ", float_val: ");
            if n.is_float {
                append(out, n.float_text.as_str());
            } else {
                append(out, "0.0");
            }
            append(out, ", is_float: ");
            append(out, bool_str(n.is_float));
            append(out, " })");
        },
        Expr::Str(ps) => {
            append(out, "Str([");
            push_parts(out, ps);
            append(out, "])");
        },
        Expr::Bool(b) => {
            append(out, "Bool(");
            append(out, bool_str(*b));
            append(out, ")");
        },
        Expr::Identifier(s) => {
            append(out, "Identifier(");
            push_quoted(out, s.as_str());
            append(out, ")");
        },
        Expr::MemberAccess { object, member } => {
            append(out, "MemberAccess { object: ");
            push_expr(out, object);
            append(out, ", member: ");
            push_quoted(out, member.as_str());
            append(out, " }");
        },
        Expr::IndexAccess { object, index } => {
            append(out, "IndexAccess { object: ");
            push_expr(out, object);
            append(out, ", index: ");
            push_expr(out, index);
            append(out, " }");
        },
        Expr::BinaryOp { op, lhs, rhs } => {
            append(out, "BinaryOp { op: ");
            append(out, binop_str(*op));
            append(out, ", lhs: ");
            push_expr(out, lhs);
            append(out, ", rhs: ");
            push_expr(out, rhs);
            append(out, " }");
        },
        Expr::UnaryOp { op, operand } => {
            append(out, "UnaryOp { op: ");
            match op {
                UnOp::Plus => append(out, "Plus"),
                UnOp::Neg => append(out, "Neg"),
            }
            append(out, ", operand: ");
            push_expr(out, operand);
            append(out, " }");
        },
        Expr::Call { callee, args } => {
            proof {
                assert(decreases_to!(*e => *args));
            }
            append(out, "Call { callee: ");
            push_quoted(out, callee.as_str());
            append(out, ", args: [");
            push_exprs(out, args);
            append(out, "] }");
        },
        Expr::NamespaceCall { namespace, method, args } => {
            proof {
                assert(decreases_to!(*e => *args));
            }
            append(out, "NamespaceCall { namespace: ");
            push_quoted(out, namespace.as_str());
            append(out, ", method: ");
            push_quoted(out, method.as_str());
            append(out, ", args: [");
            push_exprs(out, args);
            append(out, "] }");
        },
        Expr::MethodCall { object, method, args } => {
            proof {
                assert(decreases_to!(*e => *args));
            }
            append(out, "MethodCall { object: ");
            push_expr(out, object);
            append(out, ", method: ");
            push_quoted(out, method.as_str());
            append(out, ", args: [");
            push_exprs(out, args);
            append(out, "] }");
        },
        Expr::Input(node) => match node.subtype {
            Some(s) => {
                append(out, "Input(InputNode { subtype: Some(");
                append(out, subtype_str(s));
                append(out, ") })");
            },
            None => append(out, "Input(InputNode { subtype: None })"),
        },
        Expr::ArrayLiteral(items) => {
            proof {
                assert(decreases_to!(*e => *items));
            }
            append(out, "ArrayLiteral([");
            push_exprs(out, items);
            append(out, "])");
        },
        Expr::TupleLiteral(items) => {
            proof {
                assert(decreases_to!(*e => *items));
            }
            append(out, "TupleLiteral([");
            push_exprs(out, items);
            append(out, "])");
        },
        Expr::ListLiteral(items) => {
            proof {
                assert(decreases_to!(*e => *items));
            }
            append(out, "ListLiteral([");
            push_exprs(out, items);
            append(out, "])");
        },
    }
    proof {
        assert(out@ =~= start + expr_text(*e));
    }
}

/// An expression, as diagnostics show it.
pub fn expr_text_of(e: &Expr) -> (r: String)
    ensures
        r@ == expr_text(*e),
{
    let mut out = String::new();
    push_expr(&mut out, e);
    proof {
        assert(out@ =~= expr_text(*e));
    }
    out
}

} // verus!
