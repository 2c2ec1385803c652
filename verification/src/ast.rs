//! The ForgeLang abstract syntax tree.

use vstd::prelude::*;

verus! {

/// Visibility of a declaration.
#[derive(Debug, Clone, Copy, PartialEq, Eq, Structural)]
pub enum Modifier {
    Open,
    Closed,
    Showcase,
}

/// Element and number subtypes.
#[derive(Debug, Clone, Copy, PartialEq, Eq, Structural)]
pub enum Subtype {
    Int,
    Float,
    Generic,
    Weld,
}

/// Declared types of variables, fields and parameters.
#[derive(Debug, Clone)]
pub enum TypeDecl {
    Number(Subtype),
    Weld,
    Bool,
    Ore(Option<i64>),
    OreTuple(Vec<(Subtype, String)>),
    /// A list of elements; the flag records a `New` (empty) declaration.
    Materials(Subtype, bool),
}

/// Categories of declared types.
#[derive(Debug, Clone, Copy, PartialEq, Eq, Structural)]
pub enum TypeCategory {
    Number,
}

/// The category of a declared type, where it has one.
pub open spec fn spec_category(t: TypeDecl) -> Option<TypeCategory> {
    match t {
        TypeDecl::Number(_) => Some(TypeCategory::Number),
        _ => None,
    }
}

impl TypeDecl {
    /// The category of this type: `Number` for number types, none otherwise.
    pub fn category(&self) -> (c: Option<TypeCategory>)
        ensures
            c == spec_category(*self),
    {
        match self {
            TypeDecl::Number(_) => Some(TypeCategory::Number),
            _ => None,
        }
    }

    /// Whether this is a number type.
    pub fn is_number(&self) -> (b: bool)
        ensures
            b == (spec_category(*self) == Some(TypeCategory::Number)),
            b == (*self is Number),
    {
        match self.category() {
            Some(TypeCategory::Number) => true,
            None => false,
        }
    }
}

/// Return kinds of functions.
#[derive(Debug, Clone)]
pub enum RetKind {
    Int,
    Float,
    Generic,
    Weld,
    Bool,
    Ore(Option<i64>),
    OreTuple(Vec<(Subtype, String)>),
    Materials(Subtype, bool),
    /// Lower-case `function`: a dynamically typed result.
    Function,
    /// `Nunction`: no result.
    Nunction,
    Dynamic,
    Void,
}

/// Whether a return kind returns no value.
pub open spec fn spec_is_void(r: RetKind) -> bool {
    r is Nunction || r is Void
}

/// Whether a return kind returns a dynamically typed value.
pub open spec fn spec_is_dynamic(r: RetKind) -> bool {
    r is Function || r is Dynamic
}

/// The return kind that corresponds to a declared type.
pub open spec fn spec_ret_kind_of(t: TypeDecl) -> RetKind {
    match t {
        TypeDecl::Number(Subtype::Int) => RetKind::Int,
        TypeDecl::Number(Subtype::Float) => RetKind::Float,
        TypeDecl::Number(Subtype::Generic) => RetKind::Generic,
        TypeDecl::Number(Subtype::Weld) => RetKind::Weld,
        TypeDecl::Weld => RetKind::Weld,
        TypeDecl::Bool => RetKind::Bool,
        TypeDecl::Ore(size) => RetKind::Ore(size),
        TypeDecl::OreTuple(fields) => RetKind::OreTuple(fields),
        TypeDecl::Materials(e, n) => RetKind::Materials(e, n),
    }
}

/// Copies a list of typed tuple fields.
pub fn copy_fields(fields: &Vec<(Subtype, String)>) -> (r: Vec<(Subtype, String)>)
    ensures
        r@.len() == fields@.len(),
        forall|i: int|
            0 <= i < fields@.len() ==> (#[trigger] r@[i]).0 == fields@[i].0 && r@[i].1@
                == fields@[i].1@,
{
    let mut r: Vec<(Subtype, String)> = Vec::new();
    let mut i: usize = 0;
    while i < fields.len()
        invariant
            i <= fields.len(),
            r@.len() == i,
            forall|j: int|
                0 <= j < i ==> (#[trigger] r@[j]).0 == fields@[j].0 && r@[j].1@ == fields@[j].1@,
        decreases fields.len() - i,
    {
        let f = &fields[i];
        r.push((f.0, f.1.clone()));
        i += 1;
    }
    r
}

/// Whether two field lists hold the same subtypes and names.
pub open spec fn same_fields(a: Seq<(Subtype, String)>, b: Seq<(Subtype, String)>) -> bool {
    &&& a.len() == b.len()
    &&& forall|i: int| 0 <= i < a.len() ==> (#[trigger] a[i]).0 == b[i].0 && a[i].1@ == b[i].1@
}

/// Whether two return kinds agree, fields compared by their text.
pub open spec fn same_ret_kind(a: RetKind, b: RetKind) -> bool {
    match (a, b) {
        (RetKind::OreTuple(x), RetKind::OreTuple(y)) => same_fields(x@, y@),
        (RetKind::OreTuple(_), _) => false,
        (_, RetKind::OreTuple(_)) => false,
        _ => a == b,
    }
}

impl RetKind {
    /// Whether the kind returns no value (`Nunction` or `Void`).
    pub fn is_void(&self) -> (b: bool)
        ensures
            b == spec_is_void(*self),
    {
        match self {
            RetKind::Nunction | RetKind::Void => true,
            _ => false,
        }
    }

    /// Whether the kind returns a dynamically typed value (`function` or `Dynamic`).
    pub fn is_dynamic(&self) -> (b: bool)
        ensures
            b == spec_is_dynamic(*self),
    {
        match self {
            RetKind::Function | RetKind::Dynamic => true,
            _ => false,
        }
    }

    /// The return kind of a function declared to return `type_decl`.
    pub fn from_type_decl(type_decl: &TypeDecl) -> (r: Self)
        ensures
            same_ret_kind(r, spec_ret_kind_of(*type_decl)),
    {
        match type_decl {
            TypeDecl::Number(subtype) => match subtype {
                Subtype::Int => RetKind::Int,
                Subtype::Float => RetKind::Float,
                Subtype::Generic => RetKind::Generic,
                Subtype::Weld => RetKind::Weld,
            },
            TypeDecl::Weld => RetKind::Weld,
            TypeDecl::Bool => RetKind::Bool,
            TypeDecl::Ore(size) => RetKind::Ore(*size),
            TypeDecl::OreTuple(fields) => RetKind::OreTuple(copy_fields(fields)),
            TypeDecl::Materials(elem_type, has_new) => RetKind::Materials(*elem_type, *has_new),
        }
    }
}

/// Statements.
#[derive(Debug)]
pub enum Statement {
    VarDecl(VarDecl),
    DataDecl(DataDecl),
    ObjectDecl(ObjectDecl),
    FunctionDecl(FunctionDecl),
    Print(PrintNode),
    Input(InputNode),
    If(IfNode),
    While(WhileNode),
    For(ForNode),
    ForEach(ForEachNode),
    Return(Option<Expr>),
    Stop,
    Skip,
    Assignment(AssignmentNode),
    Use(UseNode),
    Using(UsingNode),
    ExprStmt(Expr),
}

/// Increment/decrement direction for For loop headers.
#[derive(Debug, Clone, Copy, PartialEq, Eq, Structural)]
pub enum IncrOp {
    Inc,
    Dec,
}

/// For loop: `For (init; condition; increment) { body }`.
#[derive(Debug)]
pub struct ForNode {
    pub init: VarDecl,
    pub condition: Expr,
    pub increment_var: String,
    pub increment_op: IncrOp,
    pub body: Vec<Statement>,
}

/// Collection loop: `ForEach (type item in collection) { body }`.
#[derive(Debug)]
pub struct ForEachNode {
    pub item_type: TypeDecl,
    pub item_name: String,
    pub collection_name: String,
    pub body: Vec<Statement>,
}

/// A variable declaration, also used for Data members.
#[derive(Debug, Clone)]
pub struct VarDecl {
    pub modifier: Option<Modifier>,
    pub type_decl: TypeDecl,
    pub name: String,
    pub initializer: Option<Expr>,
}

/// A `Data` type declaration.
#[derive(Debug, Clone)]
pub struct DataDecl {
    pub modifier: Option<Modifier>,
    pub name: String,
    pub members: Vec<VarDecl>,
}

/// An object of a `Data` type with member initializers (member path, value).
#[derive(Debug, Clone)]
pub struct ObjectDecl {
    pub data_type: String,
    pub name: String,
    pub inits: Vec<(Vec<String>, Expr)>,
}

/// A function declaration.
#[derive(Debug)]
pub struct FunctionDecl {
    pub modifier: Option<Modifier>,
    pub ret_kind: RetKind,
    pub name: String,
    pub params: Vec<Param>,
    pub body: Vec<Statement>,
}

/// A function parameter.
#[derive(Debug, Clone)]
pub struct Param {
    pub type_decl: TypeDecl,
    pub name: String,
}

/// `Print(expr)`.
#[derive(Debug, Clone)]
pub struct PrintNode {
    pub expr: Expr,
}

/// A piece of a string literal: literal text or an interpolated name path.
#[derive(Debug, Clone)]
pub enum StringPart {
    Literal(String),
    Interp(String),
}

/// `Input(subtype)`.
#[derive(Debug, Clone)]
pub struct InputNode {
    pub subtype: Option<Subtype>,
}

/// `If` with its `Else If` branches and optional `Else`.
#[derive(Debug)]
pub struct IfNode {
    pub branches: Vec<(Expr, Vec<Statement>)>,
    pub else_body: Option<Vec<Statement>>,
}

/// `While (condition) { body }`.
#[derive(Debug)]
pub struct WhileNode {
    pub condition: Expr,
    pub body: Vec<Statement>,
}

/// The place an assignment writes to.
#[derive(Debug)]
pub enum AssignmentTarget {
    Var(String),
    Member { object: Box<AssignmentTarget>, member: String },
    Index { object: Box<AssignmentTarget>, index: Expr },
}

/// `target = value;`.
#[derive(Debug, Clone)]
pub struct AssignmentNode {
    pub target: AssignmentTarget,
    pub value: Expr,
}

/// `Use A.B;` imports a module namespace.
#[derive(Debug, Clone)]
pub struct UseNode {
    pub path: Vec<String>,
    pub line: usize,
    pub column: usize,
}

/// `Using A.B: Symbol;` imports one symbol.
#[derive(Debug, Clone)]
pub struct UsingNode {
    pub path: Vec<String>,
    pub symbol: String,
    pub line: usize,
    pub column: usize,
}

/// Expressions.
#[derive(Debug)]
pub enum Expr {
    Number(NumberLiteral),
    Str(Vec<StringPart>),
    Bool(bool),
    Identifier(String),
    MemberAccess { object: Box<Expr>, member: String },
    IndexAccess { object: Box<Expr>, index: Box<Expr> },
    BinaryOp { op: BinOp, lhs: Box<Expr>, rhs: Box<Expr> },
    UnaryOp { op: UnOp, operand: Box<Expr> },
    Call { callee: String, args: Vec<Expr> },
    NamespaceCall { namespace: String, method: String, args: Vec<Expr> },
    MethodCall { object: Box<Expr>, method: String, args: Vec<Expr> },
    Input(InputNode),
    ArrayLiteral(Vec<Expr>),
    TupleLiteral(Vec<Expr>),
    ListLiteral(Vec<Expr>),
}

/// A number literal. An integer literal carries its value; a float literal
/// carries its source text, which only the typed backend interprets.
#[derive(Debug, Clone)]
pub struct NumberLiteral {
    pub int_val: i64,
    pub float_text: String,
    pub is_float: bool,
}

/// Binary operators.
#[derive(Debug, Clone, Copy, PartialEq, Eq, Structural)]
pub enum BinOp {
    Add,
    Sub,
    Mul,
    Div,
    Rem,
    Pow,
    Eq,
    Ne,
    Lt,
    Gt,
    Le,
    Ge,
    And,
    Or,
    Xor,
}

/// The absolute value of an integer.
pub open spec fn magnitude(a: int) -> int {
    if a < 0 {
        -a
    } else {
        a
    }
}

/// The quotient of `a` by a nonzero `b`, rounded toward zero.
pub open spec fn quotient_toward_zero(a: int, b: int) -> int {
    if (a >= 0) == (b > 0) {
        magnitude(a) / magnitude(b)
    } else {
        -(magnitude(a) / magnitude(b))
    }
}

/// A truth as the integer 1 or 0.
pub open spec fn truth_value(b: bool) -> int {
    if b {
        1
    } else {
        0
    }
}

/// What a binary operator computes from two integer operands, truths being
/// nonzero integers and coming out as 1 or 0: the sum, difference and
/// product, the quotient rounded toward zero and its remainder (for a
/// nonzero divisor), the power (for an exponent of at least 0), the logical
/// connectives, and the six comparisons.
pub open spec fn operator_value(op: BinOp, a: int, b: int) -> Option<int> {
    match op {
        BinOp::Add => Some(a + b),
        BinOp::Sub => Some(a - b),
        BinOp::Mul => Some(a * b),
        BinOp::Div => if b == 0 {
            None
        } else {
            Some(quotient_toward_zero(a, b))
        },
        BinOp::Rem => if b == 0 {
            None
        } else {
            Some(a - b * quotient_toward_zero(a, b))
        },
        BinOp::Pow => if b < 0 {
            None
        } else {
            Some(vstd::arithmetic::power::pow(a, b as nat))
        },
        BinOp::And => Some(truth_value(a != 0 && b != 0)),
        BinOp::Or => Some(truth_value(a != 0 || b != 0)),
        BinOp::Xor => Some(truth_value((a != 0) != (b != 0))),
        BinOp::Eq => Some(truth_value(a == b)),
        BinOp::Ne => Some(truth_value(a != b)),
        BinOp::Lt => Some(truth_value(a < b)),
        BinOp::Gt => Some(truth_value(a > b)),
        BinOp::Le => Some(truth_value(a <= b)),
        BinOp::Ge => Some(truth_value(a >= b)),
    }
}

/// Unary operators.
#[derive(Debug, Clone, Copy, PartialEq, Eq, Structural)]
pub enum UnOp {
    Plus,
    Neg,
}

/// A whole program: its top-level statements in source order.
#[derive(Debug, Clone)]
pub struct Program {
    pub statements: Vec<Statement>,
}

/// Whether `b` is a copy of the declared type `a`.
pub open spec fn same_type(a: TypeDecl, b: TypeDecl) -> bool {
    match a {
        TypeDecl::OreTuple(v) => b matches TypeDecl::OreTuple(w) && w@ == v@,
        _ => b == a,
    }
}

/// Whether `b` is a copy of the return kind `a`.
pub open spec fn same_ret(a: RetKind, b: RetKind) -> bool {
    match a {
        RetKind::OreTuple(v) => b matches RetKind::OreTuple(w) && w@ == v@,
        _ => b == a,
    }
}

/// Whether `b` is a copy of the expression `a`: the same tree, with the same
/// names, operators and literals.
pub open spec fn same_expr(a: Expr, b: Expr) -> bool
    decreases a,
{
    match a {
        Expr::Str(ps) => b matches Expr::Str(qs) && qs@ == ps@,
        Expr::MemberAccess { object, member } => b matches Expr::MemberAccess { object: o2, member: m2 }
            && m2 == member && same_expr(*object, *o2),
        Expr::IndexAccess { object, index } => b matches Expr::IndexAccess { object: o2, index: i2 }
            && same_expr(*object, *o2) && same_expr(*index, *i2),
        Expr::BinaryOp { op, lhs, rhs } => b matches Expr::BinaryOp { op: op2, lhs: l2, rhs: r2 } && op2
            == op && same_expr(*lhs, *l2) && same_expr(*rhs, *r2),
        Expr::UnaryOp { op, operand } => b matches Expr::UnaryOp { op: op2, operand: x2 } && op2 == op
            && same_expr(*operand, *x2),
        Expr::Call { callee, args } => {
            proof {
                assert(decreases_to!(a => args));
                assert(decreases_to!(args => args@));
            }
            b matches Expr::Call { callee: c2, args: a2 } && c2 == callee && same_exprs(args@, a2@)
        },
        Expr::NamespaceCall { namespace, method, args } => {
            proof {
                assert(decreases_to!(a => args));
                assert(decreases_to!(args => args@));
            }
            b matches Expr::NamespaceCall { namespace: n2, method: m2, args: a2 } && n2 == namespace && m2
                == method && same_exprs(args@, a2@)
        },
        Expr::MethodCall { object, method, args } => {
            proof {
                assert(decreases_to!(a => args));
                assert(decreases_to!(args => args@));
            }
            b matches Expr::MethodCall { object: o2, method: m2, args: a2 } && m2 == method && same_expr(
                *object,
                *o2,
            ) && same_exprs(args@, a2@)
        },
        Expr::ArrayLiteral(items) => {
            proof {
                assert(decreases_to!(a => items));
                assert(decreases_to!(items => items@));
            }
            b matches Expr::ArrayLiteral(i2) && same_exprs(items@, i2@)
        },
        Expr::TupleLiteral(items) => {
            proof {
                assert(decreases_to!(a => items));
                assert(decreases_to!(items => items@));
            }
            b matches Expr::TupleLiteral(i2) && same_exprs(items@, i2@)
        },
        Expr::ListLiteral(items) => {
            proof {
                assert(decreases_to!(a => items));
                assert(decreases_to!(items => items@));
            }
            b matches Expr::ListLiteral(i2) && same_exprs(items@, i2@)
        },
        _ => b == a,
    }
}

/// Whether `b` copies the expressions of `a`, one for one.
pub open spec fn same_exprs(a: Seq<Expr>, b: Seq<Expr>) -> bool
    decreases a,
{
    if a.len() == 0 {
        b.len() == 0
    } else {
        proof {
            assert(decreases_to!(a => a.subrange(0, a.len() - 1)));
            assert(decreases_to!(a => a[a.len() - 1]));
        }
        &&& b.len() == a.len()
        &&& same_exprs(a.subrange(0, a.len() - 1), b.subrange(0, b.len() - 1))
        &&& same_expr(a[a.len() - 1], b[b.len() - 1])
    }
}

/// Whether `b` is a copy of the assignment target `a`.
pub open spec fn same_target(a: AssignmentTarget, b: AssignmentTarget) -> bool
    decreases a,
{
    match a {
        AssignmentTarget::Var(_) => b == a,
        AssignmentTarget::Member { object, member } => b matches AssignmentTarget::Member {
            object: o2,
            member: m2,
        } && m2 == member && same_target(*object, *o2),
        AssignmentTarget::Index { object, index } => b matches AssignmentTarget::Index {
            object: o2,
            index: i2,
        } && same_target(*object, *o2) && same_expr(index, i2),
    }
}

/// Whether `b` is a copy of the variable declaration `a`.
pub open spec fn same_var_decl(a: VarDecl, b: VarDecl) -> bool {
    &&& b.modifier == a.modifier
    &&& same_type(a.type_decl, b.type_decl)
    &&& b.name == a.name
    &&& match a.initializer {
        None => b.initializer is None,
        Some(x) => b.initializer matches Some(y) && same_expr(x, y),
    }
}

/// Whether `b` copies the variable declarations of `a`, one for one.
pub open spec fn same_var_decls(a: Seq<VarDecl>, b: Seq<VarDecl>) -> bool {
    &&& b.len() == a.len()
    &&& forall|i: int| 0 <= i < a.len() ==> #[trigger] same_var_decl(a[i], b[i])
}

/// Whether `b` copies the parameters of `a`, one for one.
pub open spec fn same_params(a: Seq<Param>, b: Seq<Param>) -> bool {
    &&& b.len() == a.len()
    &&& forall|i: int| 0 <= i < a.len() ==> #[trigger] same_type(a[i].type_decl, b[i].type_decl) && b[i].name == a[i].name
}

/// Whether `b` copies the member initializers of `a`, one for one.
pub open spec fn same_inits(a: Seq<(Vec<String>, Expr)>, b: Seq<(Vec<String>, Expr)>) -> bool {
    &&& b.len() == a.len()
    &&& forall|i: int| 0 <= i < a.len() ==> b[i].0@ == a[i].0@ && #[trigger] same_expr(a[i].1, b[i].1)
}

/// Whether `b` is a copy of the statement `a`.
pub open spec fn same_statement(a: Statement, b: Statement) -> bool
    decreases a,
{
    match a {
        Statement::VarDecl(d) => b matches Statement::VarDecl(d2) && same_var_decl(d, d2),
        Statement::DataDecl(d) => b matches Statement::DataDecl(d2) && d2.modifier == d.modifier && d2.name
            == d.name && same_var_decls(d.members@, d2.members@),
        Statement::ObjectDecl(o) => b matches Statement::ObjectDecl(o2) && o2.data_type == o.data_type
            && o2.name == o.name && same_inits(o.inits@, o2.inits@),
        Statement::FunctionDecl(f) => {
            proof {
                assert(decreases_to!(a => f));
                assert(decreases_to!(f => f.body));
                assert(decreases_to!(f.body => f.body@));
            }
            b matches Statement::FunctionDecl(f2) && f2.modifier == f.modifier && same_ret(f.ret_kind, f2.ret_kind)
                && f2.name == f.name && same_params(f.params@, f2.params@) && same_statements(f.body@, f2.body@)
        },
        Statement::Print(p) => b matches Statement::Print(p2) && same_expr(p.expr, p2.expr),
        Statement::If(node) => {
            proof {
                assert(decreases_to!(a => node));
                assert(decreases_to!(node => node.branches));
                assert(decreases_to!(node.branches => node.branches@));
            }
            b matches Statement::If(n2) && same_branches(node.branches@, n2.branches@) && match node.else_body {
                None => n2.else_body is None,
                Some(eb) => {
                    proof {
                        assert(decreases_to!(node => node.else_body));
                        assert(decreases_to!(node.else_body => eb));
                        assert(decreases_to!(eb => eb@));
                    }
                    n2.else_body matches Some(eb2) && same_statements(eb@, eb2@)
                },
            }
        },
        Statement::While(w) => {
            proof {
                assert(decreases_to!(a => w));
                assert(decreases_to!(w => w.body));
                assert(decreases_to!(w.body => w.body@));
            }
            b matches Statement::While(w2) && same_expr(w.condition, w2.condition) && same_statements(
                w.body@,
                w2.body@,
            )
        },
        Statement::For(f) => {
            proof {
                assert(decreases_to!(a => f));
                assert(decreases_to!(f => f.body));
                assert(decreases_to!(f.body => f.body@));
            }
            b matches Statement::For(f2) && same_var_decl(f.init, f2.init) && same_expr(f.condition, f2.condition)
                && f2.increment_var == f.increment_var && f2.increment_op == f.increment_op && same_statements(
                f.body@,
                f2.body@,
            )
        },
        Statement::ForEach(f) => {
            proof {
                assert(decreases_to!(a => f));
                assert(decreases_to!(f => f.body));
                assert(decreases_to!(f.body => f.body@));
            }
            b matches Statement::ForEach(f2) && same_type(f.item_type, f2.item_type) && f2.item_name
                == f.item_name && f2.collection_name == f.collection_name && same_statements(f.body@, f2.body@)
        },
        Statement::Return(e) => b matches Statement::Return(e2) && match e {
            None => e2 is None,
            Some(x) => e2 matches Some(y) && same_expr(x, y),
        },
        Statement::Assignment(x) => b matches Statement::Assignment(y) && same_target(x.target, y.target)
            && same_expr(x.value, y.value),
        Statement::Use(u) => b matches Statement::Use(u2) && u2.path@ == u.path@ && u2.line == u.line
            && u2.column == u.column,
        Statement::Using(u) => b matches Statement::Using(u2) && u2.path@ == u.path@ && u2.symbol == u.symbol
            && u2.line == u.line && u2.column == u.column,
        Statement::ExprStmt(e) => b matches Statement::ExprStmt(e2) && same_expr(e, e2),
        _ => b == a,
    }
}

/// Whether `b` copies the statements of `a`, one for one.
pub open spec fn same_statements(a: Seq<Statement>, b: Seq<Statement>) -> bool
    decreases a,
{
    if a.len() == 0 {
        b.len() == 0
    } else {
        proof {
            assert(decreases_to!(a => a.subrange(0, a.len() - 1)));
            assert(decreases_to!(a => a[a.len() - 1]));
        }
        &&& b.len() == a.len()
        &&& same_statements(a.subrange(0, a.len() - 1), b.subrange(0, b.len() - 1))
        &&& same_statement(a[a.len() - 1], b[b.len() - 1])
    }
}

/// Whether `b` copies the branches of an `If` in `a`, one for one.
pub open spec fn same_branches(a: Seq<(Expr, Vec<Statement>)>, b: Seq<(Expr, Vec<Statement>)>) -> bool
    decreases a,
{
    if a.len() == 0 {
        b.len() == 0
    } else {
        proof {
            assert(decreases_to!(a => a.subrange(0, a.len() - 1)));
            assert(decreases_to!(a => a[a.len() - 1]));
            assert(decreases_to!(a[a.len() - 1] => a[a.len() - 1].1));
            assert(decreases_to!(a[a.len() - 1].1 => a[a.len() - 1].1@));
        }
        &&& b.len() == a.len()
        &&& same_branches(a.subrange(0, a.len() - 1), b.subrange(0, b.len() - 1))
        &&& same_expr(a[a.len() - 1].0, b[b.len() - 1].0)
        &&& same_statements(a[a.len() - 1].1@, b[b.len() - 1].1@)
    }
}

fn copy_field_list(v: &Vec<(Subtype, String)>) -> (r: Vec<(Subtype, String)>)
    ensures
        r@ == v@,
{
    let mut out: Vec<(Subtype, String)> = Vec::new();
    let mut i: usize = 0;
    while i < v.len()
        invariant
            i <= v@.len(),
            out@ == v@.take(i as int),
        decreases v.len() - i,
    {
        out.push((v[i].0, v[i].1.clone()));
        assert(out@ =~= v@.take(i + 1));
        i += 1;
    }
    assert(v@.take(i as int) =~= v@);
    out
}

/// A copy of a declared type.
pub fn copy_type_decl(t: &TypeDecl) -> (r: TypeDecl)
    ensures
        same_type(*t, r),
{
    match t {
        TypeDecl::Number(s) => TypeDecl::Number(*s),
        TypeDecl::Weld => TypeDecl::Weld,
        TypeDecl::Bool => TypeDecl::Bool,
        TypeDecl::Ore(o) => TypeDecl::Ore(*o),
        TypeDecl::OreTuple(v) => TypeDecl::OreTuple(copy_field_list(v)),
        TypeDecl::Materials(s, b) => TypeDecl::Materials(*s, *b),
    }
}

/// A copy of a return kind.
pub fn copy_ret_kind(k: &RetKind) -> (r: RetKind)
    ensures
        same_ret(*k, r),
{
    match k {
        RetKind::Int => RetKind::Int,
        RetKind::Float => RetKind::Float,
        RetKind::Generic => RetKind::Generic,
        RetKind::Weld => RetKind::Weld,
        RetKind::Bool => RetKind::Bool,
        RetKind::Ore(o) => RetKind::Ore(*o),
        RetKind::OreTuple(v) => RetKind::OreTuple(copy_field_list(v)),
        RetKind::Materials(s, b) => RetKind::Materials(*s, *b),
        RetKind::Function => RetKind::Function,
        RetKind::Nunction => RetKind::Nunction,
        RetKind::Dynamic => RetKind::Dynamic,
        RetKind::Void => RetKind::Void,
    }
}

fn copy_strings(v: &Vec<String>) -> (r: Vec<String>)
    ensures
        r@ == v@,
{
    let mut out: Vec<String> = Vec::new();
    let mut i: usize = 0;
    while i < v.len()
        invariant
            i <= v@.len(),
            out@ == v@.take(i as int),
        decreases v.len() - i,
    {
        out.push(v[i].clone());
        assert(out@ =~= v@.take(i + 1));
        i += 1;
    }
    assert(v@.take(i as int) =~= v@);
    out
}

fn copy_parts(v: &Vec<StringPart>) -> (r: Vec<StringPart>)
    ensures
        r@ == v@,
{
    let mut out: Vec<StringPart> = Vec::new();
    let mut i: usize = 0;
    while i < v.len()
        invariant
            i <= v@.len(),
            out@ == v@.take(i as int),
        decreases v.len() - i,
    {
        let part = match &v[i] {
            StringPart::Literal(t) => StringPart::Literal(t.clone()),
            StringPart::Interp(t) => StringPart::Interp(t.clone()),
        };
        out.push(part);
        assert(out@ =~= v@.take(i + 1));
        i += 1;
    }
    assert(v@.take(i as int) =~= v@);
    out
}

/// A copy of an expression.
pub fn copy_expr(e: &Expr) -> (r: Expr)
    ensures
        same_expr(*e, r),
    decreases e,
{
    match e {
        Expr::Number(n) => Expr::Number(
            NumberLiteral { int_val: n.int_val, float_text: n.float_text.clone(), is_float: n.is_float },
        ),
        Expr::Str(parts) => Expr::Str(copy_parts(parts)),
        Expr::Bool(b) => Expr::Bool(*b),
        Expr::Identifier(s) => Expr::Identifier(s.clone()),
        Expr::MemberAccess { object, member } => Expr::MemberAccess {
            object: Box::new(copy_expr(object)),
            member: member.clone(),
        },
        Expr::IndexAccess { object, index } => Expr::IndexAccess {
            object: Box::new(copy_expr(object)),
            index: Box::new(copy_expr(index)),
        },
        Expr::BinaryOp { op, lhs, rhs } => Expr::BinaryOp {
            op: *op,
            lhs: Box::new(copy_expr(lhs)),
            rhs: Box::new(copy_expr(rhs)),
        },
        Expr::UnaryOp { op, operand } => Expr::UnaryOp { op: *op, operand: Box::new(copy_expr(operand)) },
        Expr::Call { callee, args } => {
            proof {
                assert(decreases_to!(*e => *args));
            }
            Expr::Call { callee: callee.clone(), args: copy_exprs(args) }
        },
        Expr::NamespaceCall { namespace, method, args } => {
            proof {
                assert(decreases_to!(*e => *args));
            }
            Expr::NamespaceCall { namespace: namespace.clone(), method: method.clone(), args: copy_exprs(args) }
        },
        Expr::MethodCall { object, method, args } => {
            proof {
                assert(decreases_to!(*e => *args));
            }
            Expr::MethodCall { object: Box::new(copy_expr(object)), method: method.clone(), args: copy_exprs(args) }
        },
        Expr::Input(node) => Expr::Input(InputNode { subtype: node.subtype }),
        Expr::ArrayLiteral(items) => {
            proof {
                assert(decreases_to!(*e => *items));
            }
            Expr::ArrayLiteral(copy_exprs(items))
        },
        Expr::TupleLiteral(items) => {
            proof {
                assert(decreases_to!(*e => *items));
            }
            Expr::TupleLiteral(copy_exprs(items))
        },
        Expr::ListLiteral(items) => {
            proof {
                assert(decreases_to!(*e => *items));
            }
            Expr::ListLiteral(copy_exprs(items))
        },
    }
}

/// A copy of a list of expressions.
pub fn copy_exprs(v: &Vec<Expr>) -> (r: Vec<Expr>)
    ensures
        same_exprs(v@, r@),
    decreases v,
{
    let mut out: Vec<Expr> = Vec::new();
    let mut i: usize = 0;
    while i < v.len()
        invariant
            i <= v@.len(),
            same_exprs(v@.take(i as int), out@),
        decreases v.len() - i,
    {
        proof {
            assert(decreases_to!(*v => v@));
            assert(decreases_to!(v@ => v@[i as int]));
        }
        let x = copy_expr(&v[i]);
        let ghost prev = out@;
        out.push(x);
        proof {
            assert(v@.take(i + 1).subrange(0, i as int) =~= v@.take(i as int));
            assert(out@.subrange(0, i as int) =~= prev);
        }
        i += 1;
    }
    assert(v@.take(i as int) =~= v@);
    out
}

impl Clone for Expr {
    fn clone(&self) -> Self {
        copy_expr(self)
    }
}

/// A copy of an assignment target.
pub fn copy_target(t: &AssignmentTarget) -> (r: AssignmentTarget)
    ensures
        same_target(*t, r),
    decreases t,
{
    match t {
        AssignmentTarget::Var(s) => AssignmentTarget::Var(s.clone()),
        AssignmentTarget::Member { object, member } => AssignmentTarget::Member {
            object: Box::new(copy_target(object)),
            member: member.clone(),
        },
        AssignmentTarget::Index { object, index } => AssignmentTarget::Index {
            object: Box::new(copy_target(object)),
            index: copy_expr(index),
        },
    }
}

impl Clone for AssignmentTarget {
    fn clone(&self) -> Self {
        copy_target(self)
    }
}

/// A copy of a variable declaration.
pub fn copy_var_decl(d: &VarDecl) -> (r: VarDecl)
    ensures
        same_var_decl(*d, r),
{
    VarDecl {
        modifier: d.modifier,
        type_decl: copy_type_decl(&d.type_decl),
        name: d.name.clone(),
        initializer: match &d.initializer {
            Some(x) => Some(copy_expr(x)),
            None => None,
        },
    }
}

fn copy_var_decls(v: &Vec<VarDecl>) -> (r: Vec<VarDecl>)
    ensures
        same_var_decls(v@, r@),
{
    let mut out: Vec<VarDecl> = Vec::new();
    let mut i: usize = 0;
    while i < v.len()
        invariant
            i <= v@.len(),
            out@.len() == i,
            forall|j: int| 0 <= j < i ==> #[trigger] same_var_decl(v@[j], out@[j]),
        decreases v.len() - i,
    {
        out.push(copy_var_decl(&v[i]));
        i += 1;
    }
    out
}

fn copy_params(v: &Vec<Param>) -> (r: Vec<Param>)
    ensures
        same_params(v@, r@),
{
    let mut out: Vec<Param> = Vec::new();
    let mut i: usize = 0;
    while i < v.len()
        invariant
            i <= v@.len(),
            out@.len() == i,
            forall|j: int| 0 <= j < i ==> #[trigger] same_type(v@[j].type_decl, out@[j].type_decl) && out@[j].name == v@[j].name,
        decreases v.len() - i,
    {
        out.push(Param { type_decl: copy_type_decl(&v[i].type_decl), name: v[i].name.clone() });
        i += 1;
    }
    out
}

fn copy_inits(v: &Vec<(Vec<String>, Expr)>) -> (r: Vec<(Vec<String>, Expr)>)
    ensures
        same_inits(v@, r@),
{
    let mut out: Vec<(Vec<String>, Expr)> = Vec::new();
    let mut i: usize = 0;
    while i < v.len()
        invariant
            i <= v@.len(),
            out@.len() == i,
            forall|j: int| 0 <= j < i ==> (#[trigger] out@[j]).0@ == v@[j].0@ && same_expr(v@[j].1, out@[j].1),
        decreases v.len() - i,
    {
        let p = copy_strings(&v[i].0);
        let e = copy_expr(&v[i].1);
        assert(p@ == v@[i as int].0@);
        assert(same_expr(v@[i as int].1, e));
        let ghost prev = out@;
        out.push((p, e));
        proof {
            assert forall|j: int| 0 <= j < i + 1 implies (#[trigger] out@[j]).0@ == v@[j].0@ && same_expr(
                v@[j].1,
                out@[j].1,
            ) by {
                if j < i {
                    assert(out@[j] == prev[j]);
                }
            }
        }
        i += 1;
    }
    assert forall|j: int| 0 <= j < v@.len() implies out@[j].0@ == v@[j].0@ && #[trigger] same_expr(
        v@[j].1,
        out@[j].1,
    ) by {
        assert(out@[j].0@ == v@[j].0@);
    }
    out
}

/// A copy of a statement.
pub fn copy_statement(s: &Statement) -> (r: Statement)
    ensures
        same_statement(*s, r),
    decreases s,
{
    match s {
        Statement::VarDecl(d) => Statement::VarDecl(copy_var_decl(d)),
        Statement::DataDecl(d) => Statement::DataDecl(
            DataDecl { modifier: d.modifier, name: d.name.clone(), members: copy_var_decls(&d.members) },
        ),
        Statement::ObjectDecl(o) => Statement::ObjectDecl(
            ObjectDecl { data_type: o.data_type.clone(), name: o.name.clone(), inits: copy_inits(&o.inits) },
        ),
        Statement::FunctionDecl(f) => {
            proof {
                assert(decreases_to!(*s => *f));
                assert(decreases_to!(*f => f.body));
            }
            Statement::FunctionDecl(FunctionDecl {
                modifier: f.modifier,
                ret_kind: copy_ret_kind(&f.ret_kind),
                name: f.name.clone(),
                params: copy_params(&f.params),
                body: copy_statements(&f.body),
            })
        },
        Statement::Print(p) => Statement::Print(PrintNode { expr: copy_expr(&p.expr) }),
        Statement::Input(i) => Statement::Input(InputNode { subtype: i.subtype }),
        Statement::If(node) => {
            proof {
                assert(decreases_to!(*s => *node));
                assert(decreases_to!(*node => node.branches));
            }
            let branches = copy_branches(&node.branches);
            let else_body = match &node.else_body {
                Some(b) => {
                    proof {
                        assert(decreases_to!(*node => node.else_body));
                        assert(decreases_to!(node.else_body => *b));
                    }
                    Some(copy_statements(b))
                },
                None => None,
            };
            Statement::If(IfNode { branches, else_body })
        },
        Statement::While(w) => {
            proof {
                assert(decreases_to!(*s => *w));
                assert(decreases_to!(*w => w.body));
            }
            Statement::While(WhileNode { condition: copy_expr(&w.condition), body: copy_statements(&w.body) })
        },
        Statement::For(f) => {
            proof {
                assert(decreases_to!(*s => *f));
                assert(decreases_to!(*f => f.body));
            }
            Statement::For(ForNode {
                init: copy_var_decl(&f.init),
                condition: copy_expr(&f.condition),
                increment_var: f.increment_var.clone(),
                increment_op: f.increment_op,
                body: copy_statements(&f.body),
            })
        },
        Statement::ForEach(f) => {
            proof {
                assert(decreases_to!(*s => *f));
                assert(decreases_to!(*f => f.body));
            }
            Statement::ForEach(ForEachNode {
                item_type: copy_type_decl(&f.item_type),
                item_name: f.item_name.clone(),
                collection_name: f.collection_name.clone(),
                body: copy_statements(&f.body),
            })
        },
        Statement::Return(e) => Statement::Return(
            match e {
                Some(x) => Some(copy_expr(x)),
                None => None,
            },
        ),
        Statement::Stop => Statement::Stop,
        Statement::Skip => Statement::Skip,
        Statement::Assignment(a) => Statement::Assignment(
            AssignmentNode { target: copy_target(&a.target), value: copy_expr(&a.value) },
        ),
        Statement::Use(u) => Statement::Use(UseNode { path: copy_strings(&u.path), line: u.line, column: u.column }),
        Statement::Using(u) => Statement::Using(
            UsingNode { path: copy_strings(&u.path), symbol: u.symbol.clone(), line: u.line, column: u.column },
        ),
        Statement::ExprStmt(e) => Statement::ExprStmt(copy_expr(e)),
    }
}

/// A copy of a list of statements.
pub fn copy_statements(v: &Vec<Statement>) -> (r: Vec<Statement>)
    ensures
        same_statements(v@, r@),
    decreases v,
{
    let mut out: Vec<Statement> = Vec::new();
    let mut i: usize = 0;
    while i < v.len()
        invariant
            i <= v@.len(),
            same_statements(v@.take(i as int), out@),
        decreases v.len() - i,
    {
        proof {
            assert(decreases_to!(*v => v@));
            assert(decreases_to!(v@ => v@[i as int]));
        }
        let x = copy_statement(&v[i]);
        let ghost prev = out@;
        out.push(x);
        proof {
            assert(v@.take(i + 1).subrange(0, i as int) =~= v@.take(i as int));
            assert(out@.subrange(0, i as int) =~= prev);
        }
        i += 1;
    }
    assert(v@.take(i as int) =~= v@);
    out
}

/// A copy of the branches of an `If`.
pub fn copy_branches(v: &Vec<(Expr, Vec<Statement>)>) -> (r: Vec<(Expr, Vec<Statement>)>)
    ensures
        same_branches(v@, r@),
    decreases v,
{
    let mut out: Vec<(Expr, Vec<Statement>)> = Vec::new();
    let mut i: usize = 0;
    while i < v.len()
        invariant
            i <= v@.len(),
            same_branches(v@.take(i as int), out@),
        decreases v.len() - i,
    {
        proof {
            assert(decreases_to!(*v => v@));
            assert(decreases_to!(v@ => v@[i as int]));
            assert(decreases_to!(v@[i as int] => v@[i as int].1));
        }
        let x = (copy_expr(&v[i].0), copy_statements(&v[i].1));
        let ghost prev = out@;
        out.push(x);
        proof {
            assert(v@.take(i + 1).subrange(0, i as int) =~= v@.take(i as int));
            assert(out@.subrange(0, i as int) =~= prev);
        }
        i += 1;
    }
    assert(v@.take(i as int) =~= v@);
    out
}

impl Clone for Statement {
    fn clone(&self) -> Self {
        copy_statement(self)
    }
}

impl Clone for FunctionDecl {
    fn clone(&self) -> Self {
        FunctionDecl {
            modifier: self.modifier,
            ret_kind: copy_ret_kind(&self.ret_kind),
            name: self.name.clone(),
            params: copy_params(&self.params),
            body: copy_statements(&self.body),
        }
    }
}

impl Clone for IfNode {
    fn clone(&self) -> Self {
        IfNode {
            branches: copy_branches(&self.branches),
            else_body: match &self.else_body {
                Some(b) => Some(copy_statements(b)),
                None => None,
            },
        }
    }
}

impl Clone for WhileNode {
    fn clone(&self) -> Self {
        WhileNode { condition: copy_expr(&self.condition), body: copy_statements(&self.body) }
    }
}

impl Clone for ForNode {
    fn clone(&self) -> Self {
        ForNode {
            init: copy_var_decl(&self.init),
            condition: copy_expr(&self.condition),
            increment_var: self.increment_var.clone(),
            increment_op: self.increment_op,
            body: copy_statements(&self.body),
        }
    }
}

impl Clone for ForEachNode {
    fn clone(&self) -> Self {
        ForEachNode {
            item_type: copy_type_decl(&self.item_type),
            item_name: self.item_name.clone(),
            collection_name: self.collection_name.clone(),
            body: copy_statements(&self.body),
        }
    }
}

/// Whether every `If` in a statement, at any depth, has at least one
/// condition.
pub open spec fn stmt_shaped(s: Statement) -> bool
    decreases s,
{
    match s {
        Statement::If(node) => {
            proof {
                assert(decreases_to!(s => node));
                assert(decreases_to!(node => node.branches));
                assert(decreases_to!(node.branches => node.branches@));
            }
            node.branches@.len() > 0 && branches_shaped(node.branches@) && match node.else_body {
                Some(body) => {
                    proof {
                        assert(decreases_to!(node => node.else_body));
                        assert(decreases_to!(node.else_body => body));
                        assert(decreases_to!(body => body@));
                    }
                    stmts_shaped(body@)
                },
                None => true,
            }
        },
        Statement::While(node) => {
            proof {
                assert(decreases_to!(s => node));
                assert(decreases_to!(node => node.body));
                assert(decreases_to!(node.body => node.body@));
            }
            stmts_shaped(node.body@)
        },
        Statement::For(node) => {
            proof {
                assert(decreases_to!(s => node));
                assert(decreases_to!(node => node.body));
                assert(decreases_to!(node.body => node.body@));
            }
            stmts_shaped(node.body@)
        },
        Statement::FunctionDecl(f) => {
            proof {
                assert(decreases_to!(s => f));
                assert(decreases_to!(f => f.body));
                assert(decreases_to!(f.body => f.body@));
            }
            stmts_shaped(f.body@)
        },
        _ => true,
    }
}

/// Whether every statement of a list is `stmt_shaped`.
pub open spec fn stmts_shaped(ss: Seq<Statement>) -> bool
    decreases ss,
{
    if ss.len() == 0 {
        true
    } else {
        proof {
            assert(decreases_to!(ss => ss.subrange(0, ss.len() - 1)));
            assert(decreases_to!(ss => ss[ss.len() - 1]));
        }
        stmts_shaped(ss.subrange(0, ss.len() - 1)) && stmt_shaped(ss[ss.len() - 1])
    }
}

/// Whether every body of a list of `If` branches is `stmts_shaped`.
pub open spec fn branches_shaped(bs: Seq<(Expr, Vec<Statement>)>) -> bool
    decreases bs,
{
    if bs.len() == 0 {
        true
    } else {
        proof {
            assert(decreases_to!(bs => bs.subrange(0, bs.len() - 1)));
            assert(decreases_to!(bs => bs[bs.len() - 1]));
            assert(decreases_to!(bs[bs.len() - 1] => bs[bs.len() - 1].1));
            assert(decreases_to!(bs[bs.len() - 1].1 => bs[bs.len() - 1].1@));
        }
        branches_shaped(bs.subrange(0, bs.len() - 1)) && stmts_shaped(bs[bs.len() - 1].1@)
    }
}

/// `stmts_shaped` holds exactly when every statement is `stmt_shaped`.
pub proof fn lemma_stmts_shaped(s: Seq<Statement>)
    ensures
        stmts_shaped(s) <==> forall|j: int| 0 <= j < s.len() ==> #[trigger] stmt_shaped(s[j]),
    decreases s.len(),
{
    if s.len() > 0 {
        let q = s.subrange(0, s.len() - 1);
        lemma_stmts_shaped(q);
        assert forall|j: int| 0 <= j < q.len() implies q[j] == s[j] by {}
        assert(stmts_shaped(s) == (stmts_shaped(q) && stmt_shaped(s[s.len() - 1])));
        if forall|j: int| 0 <= j < s.len() ==> #[trigger] stmt_shaped(s[j]) {
            assert forall|j: int| 0 <= j < q.len() implies #[trigger] stmt_shaped(q[j]) by {
                assert(q[j] == s[j]);
            }
        }
        if stmts_shaped(s) {
            assert forall|j: int| 0 <= j < s.len() implies #[trigger] stmt_shaped(s[j]) by {
                if j < s.len() - 1 {
                    assert(q[j] == s[j]);
                }
            }
        }
    }
}

/// `branches_shaped` holds exactly when every branch body is `stmts_shaped`.
pub proof fn lemma_branches_shaped(s: Seq<(Expr, Vec<Statement>)>)
    ensures
        branches_shaped(s) <==> forall|j: int| 0 <= j < s.len() ==> #[trigger] stmts_shaped(s[j].1@),
    decreases s.len(),
{
    if s.len() > 0 {
        let q = s.subrange(0, s.len() - 1);
        lemma_branches_shaped(q);
        assert forall|j: int| 0 <= j < q.len() implies q[j] == s[j] by {}
        assert(branches_shaped(s) == (branches_shaped(q) && stmts_shaped(s[s.len() - 1].1@)));
        if forall|j: int| 0 <= j < s.len() ==> #[trigger] stmts_shaped(s[j].1@) {
            assert forall|j: int| 0 <= j < q.len() implies #[trigger] stmts_shaped(q[j].1@) by {
                assert(q[j] == s[j]);
                assert(stmts_shaped(s[j].1@));
            }
        }
        if branches_shaped(s) {
            assert forall|j: int| 0 <= j < s.len() implies #[trigger] stmts_shaped(s[j].1@) by {
                if j < s.len() - 1 {
                    assert(q[j] == s[j]);
                    assert(stmts_shaped(q[j].1@));
                }
            }
        }
    }
}

/// Whether an optional `Else` body is `stmts_shaped`.
pub open spec fn else_shaped(e: Option<Vec<Statement>>) -> bool {
    match e {
        Some(body) => stmts_shaped(body@),
        None => true,
    }
}

} // verus!
