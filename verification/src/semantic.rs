//! Semantic analysis: scoping, typing and the placement rules of ForgeLang
//! statements, checked on the AST before code generation.

use vstd::prelude::*;

use crate::imports::display_symbol_name;
use crate::ast::{
    spec_is_void, AssignmentNode, AssignmentTarget, BinOp, DataDecl, Expr, ForEachNode, ForNode, FunctionDecl,
    ObjectDecl, Param, Program, RetKind, Statement, Subtype, TypeDecl, VarDecl,
};
use crate::errors::ForgeError;
use crate::text::{append, concat, copy_string, decimal_string, owned, str_eq};

verus! {

/// Where a statement stands: in which function (by its index among the
/// program's statements), and whether inside a loop or an `If`.
#[derive(Clone, Copy)]
pub struct ValidationContext {
    pub current_function: Option<usize>,
    pub in_loop_or_if: bool,
    pub in_loop: bool,
}

/// The variables and objects visible in a function.
struct Scope {
    var_types: Vec<(String, TypeDecl)>,
    object_types: Vec<(String, String)>,
}

/// The type an expression is known to have.
enum ExprType {
    Number(Subtype),
    Weld,
    Bool,
    Array { element_type: Subtype },
    Tuple { fields: Vec<(Subtype, String)> },
    /// `None`: an empty list literal, typed by its context.
    List { element_type: Option<Subtype> },
    DataObject { data_name: String },
    Unknown,
}

/// The type an expression is known to have, as plain values: a number of a
/// subtype, text, a boolean, an array, a tuple with its typed and possibly
/// named fields, a list (with no element type for an empty literal), an
/// object of a `Data` declaration, or not known.
pub enum Ty {
    Number(Subtype),
    Weld,
    Bool,
    Array(Subtype),
    Tuple(Seq<(Subtype, Seq<char>)>),
    List(Option<Subtype>),
    Data(Seq<char>),
    Unknown,
}

/// Tuple fields as plain values.
pub open spec fn fields_view(f: Seq<(Subtype, String)>) -> Seq<(Subtype, Seq<char>)> {
    f.map_values(|x: (Subtype, String)| (x.0, x.1@))
}

impl ExprType {
    spec fn ty(self) -> Ty {
        match self {
            ExprType::Number(s) => Ty::Number(s),
            ExprType::Weld => Ty::Weld,
            ExprType::Bool => Ty::Bool,
            ExprType::Array { element_type } => Ty::Array(element_type),
            ExprType::Tuple { fields } => Ty::Tuple(fields_view(fields@)),
            ExprType::List { element_type } => Ty::List(element_type),
            ExprType::DataObject { data_name } => Ty::Data(data_name@),
            ExprType::Unknown => Ty::Unknown,
        }
    }
}

/// The type a variable declared with `t` holds; an array's elements are integers.
pub open spec fn decl_ty(t: TypeDecl) -> Ty {
    match t {
        TypeDecl::Number(s) => Ty::Number(s),
        TypeDecl::Weld => Ty::Weld,
        TypeDecl::Bool => Ty::Bool,
        TypeDecl::Ore(_) => Ty::Array(Subtype::Int),
        TypeDecl::OreTuple(f) => Ty::Tuple(fields_view(f@)),
        TypeDecl::Materials(e, _) => Ty::List(Some(e)),
    }
}

/// The type a call of a function with return kind `r` gives; a function
/// with no value type gives an unknown type.
pub open spec fn ret_ty(r: RetKind) -> Ty {
    match r {
        RetKind::Int => Ty::Number(Subtype::Int),
        RetKind::Float => Ty::Number(Subtype::Float),
        RetKind::Weld => Ty::Weld,
        RetKind::Bool => Ty::Bool,
        RetKind::Ore(_) => Ty::Array(Subtype::Int),
        RetKind::OreTuple(f) => Ty::Tuple(fields_view(f@)),
        RetKind::Materials(e, _) => Ty::List(Some(e)),
        _ => Ty::Unknown,
    }
}

/// The type of an element of subtype `s`.
pub open spec fn subtype_ty(s: Subtype) -> Ty {
    match s {
        Subtype::Weld => Ty::Weld,
        _ => Ty::Number(s),
    }
}

/// The first value `f` gives on the items of `s`, front to back.
pub open spec fn first_some<A, B>(s: Seq<A>, f: spec_fn(A) -> Option<B>) -> Option<B>
    decreases s.len(),
{
    if s.len() == 0 {
        None
    } else {
        match f(s[0]) {
            Some(b) => Some(b),
            None => first_some(s.drop_first(), f),
        }
    }
}

proof fn lemma_first_some_step<A, B>(s: Seq<A>, f: spec_fn(A) -> Option<B>, i: int)
    requires
        0 <= i < s.len(),
    ensures
        first_some(s.skip(i), f) == match f(s[i]) {
            Some(b) => Some(b),
            None => first_some(s.skip(i + 1), f),
        },
{
    assert(s.skip(i).drop_first() =~= s.skip(i + 1));
    assert(s.skip(i)[0] == s[i]);
}

/// The first value is the one at the first item `f` gives a value on.
pub proof fn lemma_first_some_at<A, B>(s: Seq<A>, f: spec_fn(A) -> Option<B>, i: int)
    requires
        0 <= i < s.len(),
        forall|k: int| 0 <= k < i ==> f(#[trigger] s[k]) is None,
        f(s[i]) is Some,
    ensures
        first_some(s, f) == f(s[i]),
    decreases i,
{
    if i > 0 {
        assert forall|k: int| 0 <= k < i - 1 implies f(#[trigger] s.drop_first()[k]) is None by {
            assert(s.drop_first()[k] == s[k + 1]);
        }
        assert(s.drop_first()[i - 1] == s[i]);
        lemma_first_some_at(s.drop_first(), f, i - 1);
    }
}

/// There is no first value when `f` gives none on any item.
pub proof fn lemma_first_some_none<A, B>(s: Seq<A>, f: spec_fn(A) -> Option<B>)
    requires
        forall|k: int| 0 <= k < s.len() ==> f(#[trigger] s[k]) is None,
    ensures
        first_some(s, f) is None,
    decreases s.len(),
{
    if s.len() > 0 {
        assert forall|k: int| 0 <= k < s.drop_first().len() implies f(#[trigger] s.drop_first()[k]) is None by {
            assert(s.drop_first()[k] == s[k + 1]);
        }
        assert(f(s[0]) is None);
        lemma_first_some_none(s.drop_first(), f);
    }
}

proof fn lemma_first_some_ends<A, B>(s: Seq<A>, f: spec_fn(A) -> Option<B>)
    ensures
        first_some(s.skip(0), f) == first_some(s, f),
        first_some(s.skip(s.len() as int), f) is None,
{
    assert(s.skip(0) =~= s);
    assert(s.skip(s.len() as int).len() == 0);
}

/// The value of the entry named `name`.
pub open spec fn entry_named<V>(name: Seq<char>) -> spec_fn((Seq<char>, V)) -> Option<V> {
    |e: (Seq<char>, V)| if e.0 == name { Some(e.1) } else { None }
}

/// The value of the first entry named `name`.
pub open spec fn lookup<V>(s: Seq<(Seq<char>, V)>, name: Seq<char>) -> Option<V> {
    first_some(s, entry_named(name))
}

/// Named entries as a map: each name to the value of its first entry.
pub open spec fn as_map<V>(s: Seq<(Seq<char>, V)>) -> Map<Seq<char>, V> {
    Map::new(|n: Seq<char>| lookup(s, n) is Some, |n: Seq<char>| lookup(s, n)->0)
}

proof fn lemma_lookup_update<V>(s: Seq<(Seq<char>, V)>, i: int, n: Seq<char>, v: V, m: Seq<char>)
    requires
        0 <= i < s.len(),
        s[i].0 == n,
        forall|j: int| 0 <= j < i ==> s[j].0 != n,
    ensures
        lookup(s.update(i, (n, v)), m) == if m == n {
            Some(v)
        } else {
            lookup(s, m)
        },
    decreases i,
{
    let t = s.update(i, (n, v));
    if i > 0 {
        assert(t.drop_first() =~= s.drop_first().update(i - 1, (n, v)));
        assert forall|j: int| 0 <= j < i - 1 implies s.drop_first()[j].0 != n by {
            assert(s.drop_first()[j] == s[j + 1]);
        }
        lemma_lookup_update(s.drop_first(), i - 1, n, v, m);
    } else {
        assert(t.drop_first() =~= s.drop_first());
    }
}

proof fn lemma_lookup_push<V>(s: Seq<(Seq<char>, V)>, n: Seq<char>, v: V, m: Seq<char>)
    requires
        forall|j: int| 0 <= j < s.len() ==> s[j].0 != n,
    ensures
        lookup(s.push((n, v)), m) == if m == n {
            Some(v)
        } else {
            lookup(s, m)
        },
    decreases s.len(),
{
    let t = s.push((n, v));
    if s.len() > 0 {
        assert(t.drop_first() =~= s.drop_first().push((n, v)));
        assert forall|j: int| 0 <= j < s.drop_first().len() implies s.drop_first()[j].0 != n by {
            assert(s.drop_first()[j] == s[j + 1]);
        }
        assert(t[0] == s[0]);
        lemma_lookup_push(s.drop_first(), n, v, m);
    } else {
        assert(t.drop_first().len() == 0);
        assert(first_some(t.drop_first(), entry_named::<V>(m)) is None);
        assert(t[0] == (n, v));
    }
}

/// The variables and the objects in scope: each name to its type, and each
/// object name to the name of its `Data` declaration.
pub struct Env {
    pub vars: Map<Seq<char>, Ty>,
    pub objects: Map<Seq<char>, Seq<char>>,
}

/// An empty scope.
pub open spec fn empty_env() -> Env {
    Env { vars: Map::empty(), objects: Map::empty() }
}

/// A scope with the variable `name` of type `t` added (or retyped).
pub open spec fn with_var(env: Env, name: Seq<char>, t: Ty) -> Env {
    Env { vars: env.vars.insert(name, t), objects: env.objects }
}

/// A scope with the object `name` of `Data` type `data` added (or retyped).
pub open spec fn with_object(env: Env, name: Seq<char>, data: Seq<char>) -> Env {
    Env { vars: env.vars, objects: env.objects.insert(name, data) }
}

/// Variable entries as plain values.
pub open spec fn var_entries(v: Seq<(String, TypeDecl)>) -> Seq<(Seq<char>, Ty)> {
    v.map_values(|e: (String, TypeDecl)| (e.0@, decl_ty(e.1)))
}

/// Object entries as plain values.
pub open spec fn object_entries(v: Seq<(String, String)>) -> Seq<(Seq<char>, Seq<char>)> {
    v.map_values(|e: (String, String)| (e.0@, e.1@))
}

fn error(message: &str) -> (e: ForgeError)
    ensures
        e.message@ == message@,
        e.line == 0,
{
    ForgeError::parse(owned(message))
}

/// The concatenation of several pieces of text.
spec fn joined(pieces: Seq<&str>) -> Seq<char>
    decreases pieces.len(),
{
    if pieces.len() == 0 {
        seq![]
    } else {
        joined(pieces.drop_last()) + pieces.last()@
    }
}

/// The concatenation of several pieces of text.
fn join(pieces: &[&str]) -> (s: String)
    ensures
        s@ == joined(pieces@),
{
    let mut s = String::new();
    let mut i: usize = 0;
    while i < pieces.len()
        invariant
            i <= pieces@.len(),
            s@ == joined(pieces@.take(i as int)),
        decreases pieces.len() - i,
    {
        proof {
            assert(pieces@.take(i + 1).drop_last() =~= pieces@.take(i as int));
        }
        append(&mut s, pieces[i]);
        i += 1;
    }
    proof {
        assert(pieces@.take(i as int) =~= pieces@);
    }
    s
}

fn error_of(pieces: &[&str]) -> (e: ForgeError)
    ensures
        e.message@ == joined(pieces@),
        e.line == 0,
        e.col == 0,
{
    ForgeError::parse(join(pieces))
}

fn copy_fields(fields: &Vec<(Subtype, String)>) -> (r: Vec<(Subtype, String)>)
    ensures
        fields_view(r@) == fields_view(fields@),
{
    let r = crate::ast::copy_fields(fields);
    assert(fields_view(r@) =~= fields_view(fields@));
    r
}

fn copy_type(t: &TypeDecl) -> (r: TypeDecl)
    ensures
        decl_ty(r) == decl_ty(*t),
        r is Number <==> *t is Number,
        r is Number ==> r == *t,
{
    match t {
        TypeDecl::Number(s) => TypeDecl::Number(*s),
        TypeDecl::Weld => TypeDecl::Weld,
        TypeDecl::Bool => TypeDecl::Bool,
        TypeDecl::Ore(n) => TypeDecl::Ore(*n),
        TypeDecl::OreTuple(fields) => TypeDecl::OreTuple(copy_fields(fields)),
        TypeDecl::Materials(e, n) => TypeDecl::Materials(*e, *n),
    }
}

/// The name of a subtype.
spec fn subtype_text(s: Subtype) -> Seq<char> {
    match s {
        Subtype::Int => "Int"@,
        Subtype::Float => "Float"@,
        Subtype::Generic => "Generic"@,
        Subtype::Weld => "Weld"@,
    }
}

fn subtype_name(s: Subtype) -> (r: &'static str)
    ensures
        r@ == subtype_text(s),
{
    match s {
        Subtype::Int => "Int",
        Subtype::Float => "Float",
        Subtype::Generic => "Generic",
        Subtype::Weld => "Weld",
    }
}

/// The parameters of a function as a scope, later ones retyping earlier ones.
pub open spec fn params_env(ps: Seq<Param>) -> Env
    decreases ps.len(),
{
    if ps.len() == 0 {
        empty_env()
    } else {
        with_var(params_env(ps.drop_last()), ps.last().name@, decl_ty(ps.last().type_decl))
    }
}

impl Scope {
    spec fn env(self) -> Env {
        Env {
            vars: as_map(var_entries(self.var_types@)),
            objects: as_map(object_entries(self.object_types@)),
        }
    }

    fn new() -> (s: Self)
        ensures
            s.env() == empty_env(),
            s.var_types@.len() == 0,
            s.object_types@.len() == 0,
    {
        let s = Scope { var_types: Vec::new(), object_types: Vec::new() };
        assert(s.env().vars =~= Map::<Seq<char>, Ty>::empty());
        assert(s.env().objects =~= Map::<Seq<char>, Seq<char>>::empty());
        s
    }

    fn from_params(params: &Vec<Param>) -> (s: Self)
        ensures
            s.env() == params_env(params@),
    {
        let mut scope = Scope::new();
        let mut i: usize = 0;
        while i < params.len()
            invariant
                i <= params@.len(),
                scope.env() == params_env(params@.take(i as int)),
            decreases params.len() - i,
        {
            assert(params@.take(i + 1).drop_last() =~= params@.take(i as int));
            scope.insert_var(&params[i].name, copy_type(&params[i].type_decl));
            i += 1;
        }
        assert(params@.take(params@.len() as int) =~= params@);
        scope
    }

    fn copy(&self) -> (s: Self)
        ensures
            s.env() == self.env(),
    {
        let mut scope = Scope::new();
        let mut i: usize = 0;
        while i < self.var_types.len()
            invariant
                i <= self.var_types@.len(),
                var_entries(scope.var_types@) == var_entries(self.var_types@.take(i as int)),
                scope.object_types@.len() == 0,
            decreases self.var_types.len() - i,
        {
            let ghost before = scope.var_types@;
            scope.var_types.push((copy_string(&self.var_types[i].0), copy_type(&self.var_types[i].1)));
            assert(self.var_types@.take(i + 1) =~= self.var_types@.take(i as int).push(
                self.var_types@[i as int],
            ));
            assert(var_entries(scope.var_types@) =~= var_entries(before).push(
                var_entries(self.var_types@.take(i + 1)).last(),
            ));
            assert(var_entries(scope.var_types@) =~= var_entries(self.var_types@.take(i + 1)));
            i += 1;
        }
        let mut i: usize = 0;
        while i < self.object_types.len()
            invariant
                i <= self.object_types@.len(),
                var_entries(scope.var_types@) == var_entries(self.var_types@),
                object_entries(scope.object_types@) == object_entries(self.object_types@.take(i as int)),
            decreases self.object_types.len() - i,
        {
            let ghost before = scope.object_types@;
            scope.object_types.push(
                (copy_string(&self.object_types[i].0), copy_string(&self.object_types[i].1)),
            );
            assert(self.object_types@.take(i + 1) =~= self.object_types@.take(i as int).push(
                self.object_types@[i as int],
            ));
            assert(object_entries(scope.object_types@) =~= object_entries(before).push(
                object_entries(self.object_types@.take(i + 1)).last(),
            ));
            assert(object_entries(scope.object_types@) =~= object_entries(
                self.object_types@.take(i + 1),
            ));
            i += 1;
        }
        assert(self.var_types@.take(self.var_types@.len() as int) =~= self.var_types@);
        assert(self.object_types@.take(self.object_types@.len() as int) =~= self.object_types@);
        scope
    }

    fn insert_var(&mut self, name: &String, t: TypeDecl)
        ensures
            final(self).env() == with_var(old(self).env(), name@, decl_ty(t)),
    {
        let ghost s = var_entries(self.var_types@);
        let ghost ty = decl_ty(t);
        let mut i: usize = 0;
        while i < self.var_types.len()
            invariant
                i <= self.var_types@.len(),
                s == var_entries(self.var_types@),
                self.var_types@ == old(self).var_types@,
                self.object_types@ == old(self).object_types@,
                ty == decl_ty(t),
                forall|j: int| 0 <= j < i ==> s[j].0 != name@,
            decreases self.var_types.len() - i,
        {
            if str_eq(self.var_types[i].0.as_str(), name.as_str()) {
                self.var_types.set(i, (copy_string(name), t));
                proof {
                    assert(var_entries(self.var_types@) =~= s.update(i as int, (name@, ty)));
                    assert forall|m: Seq<char>| #[trigger] lookup(var_entries(self.var_types@), m)
                        == if m == name@ {
                        Some(ty)
                    } else {
                        lookup(s, m)
                    } by {
                        lemma_lookup_update(s, i as int, name@, ty, m);
                    }
                    assert(self.env().vars =~= old(self).env().vars.insert(name@, ty));
                }
                return;
            }
            i += 1;
        }
        self.var_types.push((copy_string(name), t));
        proof {
            assert(var_entries(self.var_types@) =~= s.push((name@, ty)));
            assert forall|m: Seq<char>| #[trigger] lookup(var_entries(self.var_types@), m) == if m
                == name@ {
                Some(ty)
            } else {
                lookup(s, m)
            } by {
                lemma_lookup_push(s, name@, ty, m);
            }
            assert(self.env().vars =~= old(self).env().vars.insert(name@, ty));
        }
    }

    fn insert_object(&mut self, name: &String, data_name: &String)
        ensures
            final(self).env() == with_object(old(self).env(), name@, data_name@),
    {
        let ghost s = object_entries(self.object_types@);
        let mut i: usize = 0;
        while i < self.object_types.len()
            invariant
                i <= self.object_types@.len(),
                s == object_entries(self.object_types@),
                self.var_types@ == old(self).var_types@,
                self.object_types@ == old(self).object_types@,
                forall|j: int| 0 <= j < i ==> s[j].0 != name@,
            decreases self.object_types.len() - i,
        {
            if str_eq(self.object_types[i].0.as_str(), name.as_str()) {
                self.object_types.set(i, (copy_string(name), copy_string(data_name)));
                proof {
                    assert(object_entries(self.object_types@) =~= s.update(
                        i as int,
                        (name@, data_name@),
                    ));
                    assert forall|m: Seq<char>| #[trigger] lookup(
                        object_entries(self.object_types@),
                        m,
                    ) == if m == name@ {
                        Some(data_name@)
                    } else {
                        lookup(s, m)
                    } by {
                        lemma_lookup_update(s, i as int, name@, data_name@, m);
                    }
                    assert(self.env().objects =~= old(self).env().objects.insert(name@, data_name@));
                }
                return;
            }
            i += 1;
        }
        self.object_types.push((copy_string(name), copy_string(data_name)));
        proof {
            assert(object_entries(self.object_types@) =~= s.push((name@, data_name@)));
            assert forall|m: Seq<char>| #[trigger] lookup(object_entries(self.object_types@), m)
                == if m == name@ {
                Some(data_name@)
            } else {
                lookup(s, m)
            } by {
                lemma_lookup_push(s, name@, data_name@, m);
            }
            assert(self.env().objects =~= old(self).env().objects.insert(name@, data_name@));
        }
    }

    fn get(&self, name: &str) -> (r: Option<&TypeDecl>)
        ensures
            match r {
                Some(t) => self.env().vars.contains_key(name@) && self.env().vars[name@] == decl_ty(
                    *t,
                ),
                None => !self.env().vars.contains_key(name@),
            },
    {
        let ghost s = var_entries(self.var_types@);
        proof {
            lemma_first_some_ends(s, entry_named::<Ty>(name@));
        }
        let mut i: usize = 0;
        while i < self.var_types.len()
            invariant
                i <= self.var_types@.len(),
                s == var_entries(self.var_types@),
                lookup(s, name@) == first_some(s.skip(i as int), entry_named::<Ty>(name@)),
            decreases self.var_types.len() - i,
        {
            proof {
                lemma_first_some_step(s, entry_named::<Ty>(name@), i as int);
            }
            if str_eq(self.var_types[i].0.as_str(), name) {
                return Some(&self.var_types[i].1);
            }
            i += 1;
        }
        proof {
            lemma_first_some_ends(s, entry_named::<Ty>(name@));
        }
        None
    }

    fn contains_key(&self, name: &str) -> (b: bool)
        ensures
            b == self.env().vars.contains_key(name@),
    {
        self.get(name).is_some()
    }

    fn object_type(&self, name: &str) -> (r: Option<&String>)
        ensures
            match r {
                Some(d) => self.env().objects.contains_key(name@) && self.env().objects[name@]
                    == d@,
                None => !self.env().objects.contains_key(name@),
            },
    {
        let ghost s = object_entries(self.object_types@);
        proof {
            lemma_first_some_ends(s, entry_named::<Seq<char>>(name@));
        }
        let mut i: usize = 0;
        while i < self.object_types.len()
            invariant
                i <= self.object_types@.len(),
                s == object_entries(self.object_types@),
                lookup(s, name@) == first_some(s.skip(i as int), entry_named::<Seq<char>>(name@)),
            decreases self.object_types.len() - i,
        {
            proof {
                lemma_first_some_step(s, entry_named::<Seq<char>>(name@), i as int);
            }
            if str_eq(self.object_types[i].0.as_str(), name) {
                return Some(&self.object_types[i].1);
            }
            i += 1;
        }
        proof {
            lemma_first_some_ends(s, entry_named::<Seq<char>>(name@));
        }
        None
    }
}

/// The scope after the declarations of a statement, anywhere inside it,
/// in source order: each variable and object declaration adds (or retypes)
/// its name.
pub open spec fn collect_stmt(s: Statement, env: Env) -> Env
    decreases s,
{
    match s {
        Statement::VarDecl(d) => with_var(env, d.name@, decl_ty(d.type_decl)),
        Statement::ObjectDecl(o) => with_object(env, o.name@, o.data_type@),
        Statement::If(node) => {
            proof {
                assert(decreases_to!(s => node));
                assert(decreases_to!(node => node.branches));
                assert(decreases_to!(node.branches => node.branches@));
            }
            let after = collect_branches(node.branches@, env);
            match node.else_body {
                Some(body) => {
                    proof {
                        assert(decreases_to!(node => node.else_body));
                        assert(decreases_to!(node.else_body => body));
                        assert(decreases_to!(body => body@));
                    }
                    collect_stmts(body@, after)
                },
                None => after,
            }
        },
        Statement::While(node) => {
            proof {
                assert(decreases_to!(s => node));
                assert(decreases_to!(node => node.body));
                assert(decreases_to!(node.body => node.body@));
            }
            collect_stmts(node.body@, env)
        },
        Statement::For(node) => {
            proof {
                assert(decreases_to!(s => node));
                assert(decreases_to!(node => node.body));
                assert(decreases_to!(node.body => node.body@));
            }
            collect_stmts(node.body@, env)
        },
        Statement::ForEach(node) => {
            proof {
                assert(decreases_to!(s => node));
                assert(decreases_to!(node => node.body));
                assert(decreases_to!(node.body => node.body@));
            }
            collect_stmts(node.body@, env)
        },
        Statement::FunctionDecl(f) => {
            proof {
                assert(decreases_to!(s => f));
                assert(decreases_to!(f => f.body));
                assert(decreases_to!(f.body => f.body@));
            }
            collect_stmts(f.body@, env)
        },
        _ => env,
    }
}

/// The scope after the declarations of a sequence of statements, in order.
pub open spec fn collect_stmts(ss: Seq<Statement>, env: Env) -> Env
    decreases ss,
{
    if ss.len() == 0 {
        env
    } else {
        proof {
            assert(decreases_to!(ss => ss.subrange(0, ss.len() - 1)));
            assert(decreases_to!(ss => ss[ss.len() - 1]));
        }
        collect_stmt(ss[ss.len() - 1], collect_stmts(ss.subrange(0, ss.len() - 1), env))
    }
}

/// The scope after the declarations in the bodies of `If` branches, in order.
pub open spec fn collect_branches(bs: Seq<(Expr, Vec<Statement>)>, env: Env) -> Env
    decreases bs,
{
    if bs.len() == 0 {
        env
    } else {
        proof {
            assert(decreases_to!(bs => bs.subrange(0, bs.len() - 1)));
            assert(decreases_to!(bs => bs[bs.len() - 1]));
            assert(decreases_to!(bs[bs.len() - 1] => bs[bs.len() - 1].1));
            assert(decreases_to!(bs[bs.len() - 1].1 => bs[bs.len() - 1].1@));
        }
        collect_stmts(bs[bs.len() - 1].1@, collect_branches(bs.subrange(0, bs.len() - 1), env))
    }
}

fn collect_body(statements: &Vec<Statement>, scope: &mut Scope)
    ensures
        final(scope).env() == collect_stmts(statements@, old(scope).env()),
    decreases statements@,
{
    let ghost start = scope.env();
    let mut i: usize = 0;
    while i < statements.len()
        invariant
            i <= statements@.len(),
            scope.env() == collect_stmts(statements@.subrange(0, i as int), start),
        decreases statements.len() - i,
    {
        proof {
            assert(decreases_to!(statements@ => statements@[i as int]));
            assert(statements@.subrange(0, i + 1).subrange(0, i as int) =~= statements@.subrange(
                0,
                i as int,
            ));
            assert(statements@.subrange(0, i + 1)[i as int] == statements@[i as int]);
        }
        collect_var_types(&statements[i], scope);
        i += 1;
    }
    assert(statements@.subrange(0, statements@.len() as int) =~= statements@);
}

/// Records the variables and objects a statement declares, anywhere inside it.
fn collect_var_types(stmt: &Statement, scope: &mut Scope)
    ensures
        final(scope).env() == collect_stmt(*stmt, old(scope).env()),
    decreases stmt,
{
    match stmt {
        Statement::VarDecl(decl) => {
            scope.insert_var(&decl.name, copy_type(&decl.type_decl));
        },
        Statement::ObjectDecl(object) => {
            scope.insert_object(&object.name, &object.data_type);
        },
        Statement::If(node) => {
            let ghost start = scope.env();
            let mut i: usize = 0;
            while i < node.branches.len()
                invariant
                    *stmt == Statement::If(*node),
                    i <= node.branches@.len(),
                    scope.env() == collect_branches(node.branches@.subrange(0, i as int), start),
                decreases node.branches.len() - i,
            {
                proof {
                    assert(decreases_to!(*stmt => (*stmt)->If_0));
                    assert(decreases_to!(*node => node.branches));
                    assert(decreases_to!(node.branches => node.branches@));
                    assert(decreases_to!(node.branches@ => node.branches@[i as int]));
                    assert(decreases_to!(node.branches@[i as int] => node.branches@[i as int].1));
                    assert(node.branches@.subrange(0, i + 1).subrange(0, i as int)
                        =~= node.branches@.subrange(0, i as int));
                    assert(node.branches@.subrange(0, i + 1)[i as int] == node.branches@[i as int]);
                }
                collect_body(&node.branches[i].1, scope);
                i += 1;
            }
            assert(node.branches@.subrange(0, node.branches@.len() as int) =~= node.branches@);
            if let Some(else_body) = &node.else_body {
                proof {
                    assert(decreases_to!(*stmt => node.else_body));
                }
                collect_body(else_body, scope);
            }
        },
        Statement::While(node) => {
            proof {
                assert(decreases_to!(*stmt => node.body));
            }
            collect_body(&node.body, scope);
        },
        Statement::For(node) => {
            proof {
                assert(decreases_to!(*stmt => node.body));
            }
            collect_body(&node.body, scope);
        },
        Statement::ForEach(node) => {
            proof {
                assert(decreases_to!(*stmt => node.body));
            }
            collect_body(&node.body, scope);
        },
        Statement::FunctionDecl(func) => {
            proof {
                assert(decreases_to!(*stmt => func.body));
            }
            collect_body(&func.body, scope);
        },
        _ => {},
    }
}

/// The name of an expression's kind, as diagnostics show it.
spec fn expr_kind_text(expr: Expr) -> Seq<char> {
    match expr {
        Expr::Bool(_) => "Bool"@,
        Expr::Number(n) => if n.is_float {
            "Float"@
        } else {
            "Int"@
        },
        Expr::Str(_) => "Weld"@,
        Expr::ArrayLiteral(_) => "Array"@,
        Expr::TupleLiteral(_) => "Tuple"@,
        Expr::ListLiteral(_) => "List"@,
        Expr::Input(_) => "Input"@,
        _ => "value"@,
    }
}

/// The name of a known type, as diagnostics show it.
spec fn expr_type_text(t: ExprType) -> Seq<char> {
    match t {
        ExprType::Number(Subtype::Int) => "Int"@,
        ExprType::Number(Subtype::Float) => "Float"@,
        ExprType::Number(Subtype::Generic) => "Generic"@,
        ExprType::Number(Subtype::Weld) | ExprType::Weld => "Weld"@,
        ExprType::Bool => "Bool"@,
        ExprType::Array { .. } => "Array"@,
        ExprType::Tuple { .. } => "Tuple"@,
        ExprType::List { .. } => "List"@,
        ExprType::DataObject { .. } => "Data"@,
        ExprType::Unknown => "value"@,
    }
}

/// The name of a declared type, as diagnostics show it.
spec fn type_decl_text(t: TypeDecl) -> Seq<char> {
    match t {
        TypeDecl::Number(s) => subtype_text(s),
        TypeDecl::Weld => "Weld"@,
        TypeDecl::Bool => "Bool"@,
        TypeDecl::Ore(_) => "Array"@,
        TypeDecl::OreTuple(_) => "Tuple"@,
        TypeDecl::Materials(_, _) => "List"@,
    }
}

fn expr_type_name(expr: &Expr) -> (r: &'static str)
    ensures
        r@ == expr_kind_text(*expr),
{
    match expr {
        Expr::Bool(_) => "Bool",
        Expr::Number(n) => if n.is_float {
            "Float"
        } else {
            "Int"
        },
        Expr::Str(_) => "Weld",
        Expr::ArrayLiteral(_) => "Array",
        Expr::TupleLiteral(_) => "Tuple",
        Expr::ListLiteral(_) => "List",
        Expr::Input(_) => "Input",
        _ => "value",
    }
}

impl ExprType {
    fn from_subtype(subtype: Subtype) -> (r: Self)
        ensures
            r.ty() == subtype_ty(subtype),
    {
        match subtype {
            Subtype::Weld => ExprType::Weld,
            _ => ExprType::Number(subtype),
        }
    }

    fn name(&self) -> (r: &'static str)
        ensures
            r@ == expr_type_text(*self),
    {
        match self {
            ExprType::Number(Subtype::Int) => "Int",
            ExprType::Number(Subtype::Float) => "Float",
            ExprType::Number(Subtype::Generic) => "Generic",
            ExprType::Number(Subtype::Weld) | ExprType::Weld => "Weld",
            ExprType::Bool => "Bool",
            ExprType::Array { .. } => "Array",
            ExprType::Tuple { .. } => "Tuple",
            ExprType::List { .. } => "List",
            ExprType::DataObject { .. } => "Data",
            ExprType::Unknown => "value",
        }
    }

    fn is_int(&self) -> (b: bool)
        ensures
            b == (self.ty() == Ty::Number(Subtype::Int)),
    {
        matches!(self, ExprType::Number(Subtype::Int))
    }

    fn is_unknown(&self) -> (b: bool)
        ensures
            b == (self.ty() is Unknown),
    {
        matches!(self, ExprType::Unknown)
    }
}

fn type_decl_to_expr_type(type_decl: &TypeDecl) -> (r: ExprType)
    ensures
        r.ty() == decl_ty(*type_decl),
{
    match type_decl {
        TypeDecl::Number(subtype) => ExprType::Number(*subtype),
        TypeDecl::Weld => ExprType::Weld,
        TypeDecl::Bool => ExprType::Bool,
        // An array's elements are integers.
        TypeDecl::Ore(_) => ExprType::Array { element_type: Subtype::Int },
        TypeDecl::OreTuple(fields) => ExprType::Tuple { fields: copy_fields(fields) },
        TypeDecl::Materials(element_type, _) => ExprType::List { element_type: Some(*element_type) },
    }
}

fn ret_kind_to_expr_type(ret_kind: &RetKind) -> (r: ExprType)
    ensures
        r.ty() == ret_ty(*ret_kind),
{
    match ret_kind {
        RetKind::Int => ExprType::Number(Subtype::Int),
        RetKind::Float => ExprType::Number(Subtype::Float),
        RetKind::Weld => ExprType::Weld,
        RetKind::Bool => ExprType::Bool,
        RetKind::Ore(_) => ExprType::Array { element_type: Subtype::Int },
        RetKind::OreTuple(fields) => ExprType::Tuple { fields: copy_fields(fields) },
        RetKind::Materials(element_type, _) => ExprType::List { element_type: Some(*element_type) },
        _ => ExprType::Unknown,
    }
}

/// The function a statement declares, if it is named `name`.
pub open spec fn function_of(name: Seq<char>) -> spec_fn(Statement) -> Option<FunctionDecl> {
    |s: Statement|
        match s {
            Statement::FunctionDecl(f) => if f.name@ == name {
                Some(f)
            } else {
                None
            },
            _ => None,
        }
}

/// The first function of the program named `name`.
pub open spec fn function_named(p: Seq<Statement>, name: Seq<char>) -> Option<FunctionDecl> {
    first_some(p, function_of(name))
}

/// The `Data` declaration a statement makes, if it is named `name`.
pub open spec fn data_of(name: Seq<char>) -> spec_fn(Statement) -> Option<DataDecl> {
    |s: Statement|
        match s {
            Statement::DataDecl(d) => if d.name@ == name {
                Some(d)
            } else {
                None
            },
            _ => None,
        }
}

/// The first `Data` declaration of the program named `name`.
pub open spec fn data_named(p: Seq<Statement>, name: Seq<char>) -> Option<DataDecl> {
    first_some(p, data_of(name))
}

/// The declared type of a member, if it is named `name`.
pub open spec fn member_of(name: Seq<char>) -> spec_fn(VarDecl) -> Option<TypeDecl> {
    |m: VarDecl|
        if m.name@ == name {
            Some(m.type_decl)
        } else {
            None
        }
}

/// The declared type of the member `member` of the `Data` declaration `data`.
pub open spec fn data_member(p: Seq<Statement>, data: Seq<char>, member: Seq<char>) -> Option<TypeDecl> {
    match data_named(p, data) {
        Some(d) => first_some(d.members@, member_of(member)),
        None => None,
    }
}

/// The `Data` type of an object a statement declares, if it is named `name`.
pub open spec fn object_of(name: Seq<char>) -> spec_fn(Statement) -> Option<Seq<char>> {
    |s: Statement|
        match s {
            Statement::ObjectDecl(o) => if o.name@ == name {
                Some(o.data_type@)
            } else {
                None
            },
            _ => None,
        }
}

/// The `Data` type of the first top-level object named `name`.
pub open spec fn object_named(p: Seq<Statement>, name: Seq<char>) -> Option<Seq<char>> {
    first_some(p, object_of(name))
}

/// The subtype of a tuple field, if it is named `name`.
pub open spec fn field_of(name: Seq<char>) -> spec_fn((Subtype, Seq<char>)) -> Option<Subtype> {
    |f: (Subtype, Seq<char>)|
        if f.1 == name {
            Some(f.0)
        } else {
            None
        }
}

/// The subtype of the first field named `name`.
pub open spec fn field_named(fields: Seq<(Subtype, Seq<char>)>, name: Seq<char>) -> Option<Subtype> {
    first_some(fields, field_of(name))
}

/// The first function declared with `name`.
fn find_function<'a>(program: &'a Program, name: &str) -> (r: Option<&'a FunctionDecl>)
    ensures
        match r {
            Some(f) => function_named(program.statements@, name@) == Some(*f),
            None => function_named(program.statements@, name@) is None,
        },
{
    let ghost s = program.statements@;
    proof {
        lemma_first_some_ends(s, function_of(name@));
    }
    let mut i: usize = 0;
    while i < program.statements.len()
        invariant
            i <= s.len(),
            s == program.statements@,
            function_named(s, name@) == first_some(s.skip(i as int), function_of(name@)),
        decreases program.statements.len() - i,
    {
        proof {
            lemma_first_some_step(s, function_of(name@), i as int);
        }
        if let Statement::FunctionDecl(f) = &program.statements[i] {
            if str_eq(f.name.as_str(), name) {
                return Some(f);
            }
        }
        i += 1;
    }
    proof {
        lemma_first_some_ends(s, function_of(name@));
    }
    None
}

/// The first `Data` declaration named `data_name`.
fn data_decl<'a>(program: &'a Program, data_name: &str) -> (r: Option<&'a DataDecl>)
    ensures
        match r {
            Some(d) => data_named(program.statements@, data_name@) == Some(*d),
            None => data_named(program.statements@, data_name@) is None,
        },
{
    let ghost s = program.statements@;
    proof {
        lemma_first_some_ends(s, data_of(data_name@));
    }
    let mut i: usize = 0;
    while i < program.statements.len()
        invariant
            i <= s.len(),
            s == program.statements@,
            data_named(s, data_name@) == first_some(s.skip(i as int), data_of(data_name@)),
        decreases program.statements.len() - i,
    {
        proof {
            lemma_first_some_step(s, data_of(data_name@), i as int);
        }
        if let Statement::DataDecl(d) = &program.statements[i] {
            if str_eq(d.name.as_str(), data_name) {
                return Some(d);
            }
        }
        i += 1;
    }
    proof {
        lemma_first_some_ends(s, data_of(data_name@));
    }
    None
}

/// The first member named `member` among `members`.
fn find_member<'a>(members: &'a Vec<VarDecl>, member: &str) -> (r: Option<&'a TypeDecl>)
    ensures
        match r {
            Some(t) => first_some(members@, member_of(member@)) == Some(*t),
            None => first_some(members@, member_of(member@)) is None,
        },
{
    let ghost s = members@;
    proof {
        lemma_first_some_ends(s, member_of(member@));
    }
    let mut i: usize = 0;
    while i < members.len()
        invariant
            i <= s.len(),
            s == members@,
            first_some(s, member_of(member@)) == first_some(s.skip(i as int), member_of(member@)),
        decreases members.len() - i,
    {
        proof {
            lemma_first_some_step(s, member_of(member@), i as int);
        }
        if str_eq(members[i].name.as_str(), member) {
            return Some(&members[i].type_decl);
        }
        i += 1;
    }
    proof {
        lemma_first_some_ends(s, member_of(member@));
    }
    None
}

fn data_member_type<'a>(program: &'a Program, data_name: &str, member: &str) -> (r: Option<&'a TypeDecl>)
    ensures
        match r {
            Some(t) => data_member(program.statements@, data_name@, member@) == Some(*t),
            None => data_member(program.statements@, data_name@, member@) is None,
        },
{
    match data_decl(program, data_name) {
        Some(d) => find_member(&d.members, member),
        None => None,
    }
}

/// The type of the object named `name` declared at the top level, if any.
fn top_level_object_type(program: &Program, name: &str) -> (r: Option<String>)
    ensures
        match r {
            Some(d) => object_named(program.statements@, name@) == Some(d@),
            None => object_named(program.statements@, name@) is None,
        },
{
    let ghost s = program.statements@;
    proof {
        lemma_first_some_ends(s, object_of(name@));
    }
    let mut i: usize = 0;
    while i < program.statements.len()
        invariant
            i <= s.len(),
            s == program.statements@,
            object_named(s, name@) == first_some(s.skip(i as int), object_of(name@)),
        decreases program.statements.len() - i,
    {
        proof {
            lemma_first_some_step(s, object_of(name@), i as int);
        }
        if let Statement::ObjectDecl(o) = &program.statements[i] {
            if str_eq(o.name.as_str(), name) {
                return Some(copy_string(&o.data_type));
            }
        }
        i += 1;
    }
    proof {
        lemma_first_some_ends(s, object_of(name@));
    }
    None
}

/// The first field named `member` among `fields`.
fn find_field(fields: &Vec<(Subtype, String)>, member: &str) -> (r: Option<Subtype>)
    ensures
        r == field_named(fields_view(fields@), member@),
{
    let ghost s = fields_view(fields@);
    proof {
        lemma_first_some_ends(s, field_of(member@));
    }
    let mut i: usize = 0;
    while i < fields.len()
        invariant
            i <= fields@.len(),
            s == fields_view(fields@),
            field_named(s, member@) == first_some(s.skip(i as int), field_of(member@)),
        decreases fields.len() - i,
    {
        proof {
            lemma_first_some_step(s, field_of(member@), i as int);
        }
        if str_eq(fields[i].1.as_str(), member) {
            return Some(fields[i].0);
        }
        i += 1;
    }
    proof {
        lemma_first_some_ends(s, field_of(member@));
    }
    None
}

/// The subtype a type has as an element, for numbers and text.
pub open spec fn ty_subtype(t: Ty) -> Option<Subtype> {
    match t {
        Ty::Number(s) => Some(s),
        Ty::Weld => Some(Subtype::Weld),
        _ => None,
    }
}

fn subtype_from_expr_type(t: &ExprType) -> (r: Option<Subtype>)
    ensures
        r == ty_subtype(t.ty()),
{
    match t {
        ExprType::Number(subtype) => Some(*subtype),
        ExprType::Weld => Some(Subtype::Weld),
        _ => None,
    }
}

/// Whether a value of subtype `actual` may stand where `expected` is
/// declared: the same subtype, or an integer for a generic number.
pub open spec fn sub_compat(actual: Subtype, expected: Subtype) -> bool {
    actual == expected || (expected == Subtype::Generic && actual == Subtype::Int)
}

fn subtype_compatible(actual: Subtype, expected: Subtype) -> (r: bool)
    ensures
        r == sub_compat(actual, expected),
{
    actual == expected || (expected == Subtype::Generic && actual == Subtype::Int)
}

/// Whether the arithmetic operators that need numbers on both sides.
pub open spec fn arithmetic_op(op: BinOp) -> bool {
    op == BinOp::Add || op == BinOp::Sub || op == BinOp::Mul || op == BinOp::Div || op == BinOp::Pow
}

/// A declaration of a `Generic` number accepts any initializer of integer
/// type that passes the checks on its own: an integer may stand where a
/// generic number is declared.
pub proof fn lemma_generic_takes_integers(d: VarDecl, env: Env, p: Seq<Statement>, ctx: ValidationContext)
    requires
        d.type_decl == TypeDecl::Number(Subtype::Generic),
        d.initializer is Some,
        expr_ok(d.initializer->0, env, p, ctx),
        ty_of(d.initializer->0, env, p) == Ty::Number(Subtype::Int),
    ensures
        decl_ok(d, env, p, ctx),
        stmt_ok(Statement::VarDecl(d), env, p, ctx),
{
}

/// A declaration of a number accepts an initializer of its own number type
/// that passes the checks on its own.
pub proof fn lemma_number_takes_its_own(d: VarDecl, s: Subtype, env: Env, p: Seq<Statement>, ctx: ValidationContext)
    requires
        d.type_decl == TypeDecl::Number(s),
        d.initializer is Some,
        expr_ok(d.initializer->0, env, p, ctx),
        ty_of(d.initializer->0, env, p) == Ty::Number(s),
    ensures
        decl_ok(d, env, p, ctx),
{
}

/// A declaration of an `Int` refuses a number of any other kind: neither a
/// float nor a generic number may stand where an integer is declared.
pub proof fn lemma_int_refuses_other_numbers(d: VarDecl, s: Subtype, env: Env, p: Seq<Statement>, ctx: ValidationContext)
    requires
        d.type_decl == TypeDecl::Number(Subtype::Int),
        d.initializer is Some,
        ty_of(d.initializer->0, env, p) == Ty::Number(s),
        s != Subtype::Int,
    ensures
        !decl_ok(d, env, p, ctx),
{
}

/// A declaration of a number refuses a number of another kind, except an
/// integer where a generic number is declared: a float fits no integer or
/// generic declaration, and a generic number fits no integer declaration.
pub proof fn lemma_number_refuses_other_kinds(
    d: VarDecl,
    actual: Subtype,
    declared: Subtype,
    env: Env,
    p: Seq<Statement>,
    ctx: ValidationContext,
)
    requires
        d.type_decl == TypeDecl::Number(declared),
        d.initializer is Some,
        ty_of(d.initializer->0, env, p) == Ty::Number(actual),
        actual != declared,
        !(actual == Subtype::Int && declared == Subtype::Generic),
    ensures
        !decl_ok(d, env, p, ctx),
{
}

/// Whether a member or method name asks for the length.
pub open spec fn is_length(name: Seq<char>) -> bool {
    name == "Length"@ || name == "Len"@
}

/// The types of a sequence of expressions.
pub open spec fn tys_of(s: Seq<Expr>, env: Env, p: Seq<Statement>) -> Seq<Ty>
    decreases s,
{
    if s.len() == 0 {
        Seq::empty()
    } else {
        proof {
            assert(decreases_to!(s => s.subrange(0, s.len() - 1)));
            assert(decreases_to!(s => s[s.len() - 1]));
        }
        tys_of(s.subrange(0, s.len() - 1), env, p).push(ty_of(s[s.len() - 1], env, p))
    }
}

/// The type of a tuple literal with elements of types `ts`: the elements'
/// subtypes as unnamed fields, if each has one.
pub open spec fn tuple_ty(ts: Seq<Ty>) -> Ty {
    if forall|i: int| 0 <= i < ts.len() ==> ty_subtype(#[trigger] ts[i]) is Some {
        Ty::Tuple(ts.map_values(|t: Ty| (ty_subtype(t)->0, Seq::<char>::empty())))
    } else {
        Ty::Unknown
    }
}

/// The type of a list literal with elements of types `ts`: no element type
/// when empty, else the one subtype all elements have.
pub open spec fn list_ty(ts: Seq<Ty>) -> Ty {
    if ts.len() == 0 {
        Ty::List(None)
    } else {
        match ty_subtype(ts[0]) {
            Some(first) => if forall|i: int| 0 <= i < ts.len() ==> ty_subtype(#[trigger] ts[i]) == Some(first) {
                Ty::List(Some(first))
            } else {
                Ty::Unknown
            },
            None => Ty::Unknown,
        }
    }
}

proof fn lemma_tys_of_len(s: Seq<Expr>, env: Env, p: Seq<Statement>)
    ensures
        tys_of(s, env, p).len() == s.len(),
        forall|i: int| 0 <= i < s.len() ==> #[trigger] tys_of(s, env, p)[i] == ty_of(s[i], env, p),
    decreases s.len(),
{
    if s.len() > 0 {
        lemma_tys_of_len(s.subrange(0, s.len() - 1), env, p);
    }
}

/// The type of an expression in a scope, given the program's statements:
/// literals have their own types; a variable its declared type, an object
/// its `Data` type (if that is declared); a call the return type of the
/// first function of that name; `+ - * / ^` a float if either side is one
/// and an integer if both are; `%` an integer; comparisons and logic a
/// boolean; a tuple literal the subtypes of its elements; a list literal the
/// one subtype of all its elements; indexing the element type; `Length`
/// an integer; a tuple field or `Data` member its declared type; list
/// methods an integer. Anything else is not known.
pub open spec fn ty_of(e: Expr, env: Env, p: Seq<Statement>) -> Ty
    decreases e,
{
    match e {
        Expr::Number(n) => Ty::Number(
            if n.is_float {
                Subtype::Float
            } else {
                Subtype::Int
            },
        ),
        Expr::Str(_) => Ty::Weld,
        Expr::Bool(_) => Ty::Bool,
        Expr::Identifier(name) => if env.vars.contains_key(name@) {
            env.vars[name@]
        } else {
            let object = if env.objects.contains_key(name@) {
                Some(env.objects[name@])
            } else {
                object_named(p, name@)
            };
            match object {
                Some(d) => if data_named(p, d) is Some {
                    Ty::Data(d)
                } else {
                    Ty::Unknown
                },
                None => Ty::Unknown,
            }
        },
        Expr::Input(input) => match input.subtype {
            Some(Subtype::Weld) => Ty::Weld,
            None => Ty::Weld,
            Some(s) => Ty::Number(s),
        },
        Expr::Call { callee, .. } => match function_named(p, callee@) {
            Some(f) => ret_ty(f.ret_kind),
            None => Ty::Unknown,
        },
        Expr::BinaryOp { op, lhs, rhs } => if arithmetic_op(op) {
            let l = ty_of(*lhs, env, p);
            let r = ty_of(*rhs, env, p);
            if l == Ty::Number(Subtype::Float) || r == Ty::Number(Subtype::Float) {
                Ty::Number(Subtype::Float)
            } else if l == Ty::Number(Subtype::Int) && r == Ty::Number(Subtype::Int) {
                Ty::Number(Subtype::Int)
            } else {
                Ty::Unknown
            }
        } else if op == BinOp::Rem {
            Ty::Number(Subtype::Int)
        } else {
            Ty::Bool
        },
        Expr::UnaryOp { operand, .. } => ty_of(*operand, env, p),
        Expr::ArrayLiteral(_) => Ty::Array(Subtype::Int),
        Expr::TupleLiteral(els) => {
            proof {
                assert(decreases_to!(e => els));
                assert(decreases_to!(els => els@));
            }
            tuple_ty(tys_of(els@, env, p))
        },
        Expr::ListLiteral(els) => {
            proof {
                assert(decreases_to!(e => els));
                assert(decreases_to!(els => els@));
            }
            list_ty(tys_of(els@, env, p))
        },
        Expr::IndexAccess { object, .. } => match ty_of(*object, env, p) {
            Ty::Array(s) => subtype_ty(s),
            Ty::List(Some(s)) => subtype_ty(s),
            _ => Ty::Unknown,
        },
        Expr::MemberAccess { object, member } => match ty_of(*object, env, p) {
            Ty::Array(_) => if is_length(member@) {
                Ty::Number(Subtype::Int)
            } else {
                Ty::Unknown
            },
            Ty::List(_) => if is_length(member@) {
                Ty::Number(Subtype::Int)
            } else {
                Ty::Unknown
            },
            Ty::Tuple(fields) => match field_named(fields, member@) {
                Some(s) => subtype_ty(s),
                None => Ty::Unknown,
            },
            Ty::Data(d) => match data_member(p, d, member@) {
                Some(t) => decl_ty(t),
                None => Ty::Unknown,
            },
            _ => Ty::Unknown,
        },
        Expr::MethodCall { object, method, .. } => match ty_of(*object, env, p) {
            Ty::Array(_) => if is_length(method@) {
                Ty::Number(Subtype::Int)
            } else {
                Ty::Unknown
            },
            Ty::List(_) => if is_length(method@) || method@ == "Add"@ || method@ == "Remove"@
                || method@ == "RemoveAt"@ {
                Ty::Number(Subtype::Int)
            } else {
                Ty::Unknown
            },
            _ => Ty::Unknown,
        },
        Expr::NamespaceCall { .. } => Ty::Unknown,
    }
}

fn tuple_elements_type(elements: &Vec<Expr>, scope: &Scope, program: &Program) -> (r: ExprType)
    ensures
        r.ty() == tuple_ty(tys_of(elements@, scope.env(), program.statements@)),
    decreases elements@,
{
    let ghost env = scope.env();
    let ghost p = program.statements@;
    let ghost ts = tys_of(elements@, env, p);
    proof {
        lemma_tys_of_len(elements@, env, p);
    }
    let mut fields: Vec<(Subtype, String)> = Vec::new();
    let mut i: usize = 0;
    while i < elements.len()
        invariant
            i <= elements@.len(),
            env == scope.env(),
            p == program.statements@,
            ts == tys_of(elements@, env, p),
            ts.len() == elements@.len(),
            fields@.len() == i,
            forall|j: int| 0 <= j < i ==> ty_subtype(#[trigger] ts[j]) is Some,
            forall|j: int|
                0 <= j < i ==> (#[trigger] fields_view(fields@)[j]) == (
                    ty_subtype(ts[j])->0,
                    Seq::<char>::empty(),
                ),
        decreases elements.len() - i,
    {
        proof {
            assert(decreases_to!(elements@ => elements@[i as int]));
            lemma_tys_of_len(elements@, env, p);
        }
        let t = expr_type(&elements[i], scope, program);
        assert(t.ty() == ts[i as int]);
        match subtype_from_expr_type(&t) {
            Some(s) => {
                let ghost before = fields@;
                fields.push((s, String::new()));
                assert(fields_view(fields@) =~= fields_view(before).push((s, Seq::<char>::empty())));
            },
            None => {
                assert(!(ty_subtype(ts[i as int]) is Some));
                return ExprType::Unknown;
            },
        }
        i += 1;
    }
    let r = ExprType::Tuple { fields };
    assert(fields_view(r->fields@) =~= ts.map_values(
        |t: Ty| (ty_subtype(t)->0, Seq::<char>::empty()),
    ));
    r
}

fn list_elements_type(elements: &Vec<Expr>, scope: &Scope, program: &Program) -> (r: ExprType)
    ensures
        r.ty() == list_ty(tys_of(elements@, scope.env(), program.statements@)),
    decreases elements@,
{
    let ghost env = scope.env();
    let ghost p = program.statements@;
    let ghost ts = tys_of(elements@, env, p);
    proof {
        lemma_tys_of_len(elements@, env, p);
    }
    if elements.len() == 0 {
        return ExprType::List { element_type: None };
    }
    proof {
        assert(decreases_to!(elements@ => elements@[0]));
    }
    let t0 = expr_type(&elements[0], scope, program);
    assert(t0.ty() == ts[0]);
    let first = match subtype_from_expr_type(&t0) {
        Some(s) => s,
        None => {
            return ExprType::Unknown;
        },
    };
    let mut i: usize = 1;
    while i < elements.len()
        invariant
            1 <= i <= elements@.len(),
            env == scope.env(),
            p == program.statements@,
            ts == tys_of(elements@, env, p),
            ts.len() == elements@.len(),
            ty_subtype(ts[0]) == Some(first),
            forall|j: int| 0 <= j < i ==> ty_subtype(#[trigger] ts[j]) == Some(first),
        decreases elements.len() - i,
    {
        proof {
            assert(decreases_to!(elements@ => elements@[i as int]));
            lemma_tys_of_len(elements@, env, p);
        }
        let t = expr_type(&elements[i], scope, program);
        assert(t.ty() == ts[i as int]);
        match subtype_from_expr_type(&t) {
            Some(s) => {
                if s != first {
                    assert(ty_subtype(ts[i as int]) != Some(first));
                    return ExprType::Unknown;
                }
            },
            None => {
                assert(ty_subtype(ts[i as int]) != Some(first));
                return ExprType::Unknown;
            },
        }
        i += 1;
    }
    ExprType::List { element_type: Some(first) }
}

/// The type of an expression in a scope.
fn expr_type(expr: &Expr, scope: &Scope, program: &Program) -> (r: ExprType)
    ensures
        r.ty() == ty_of(*expr, scope.env(), program.statements@),
    decreases expr,
{
    match expr {
        Expr::Number(number) => ExprType::Number(
            if number.is_float {
                Subtype::Float
            } else {
                Subtype::Int
            },
        ),
        Expr::Str(_) => ExprType::Weld,
        Expr::Bool(_) => ExprType::Bool,
        Expr::Identifier(name) => {
            if let Some(t) = scope.get(name.as_str()) {
                return type_decl_to_expr_type(t);
            }
            let object = match scope.object_type(name.as_str()) {
                Some(t) => Some(copy_string(t)),
                None => top_level_object_type(program, name.as_str()),
            };
            match object {
                Some(data_name) => {
                    if data_decl(program, data_name.as_str()).is_some() {
                        ExprType::DataObject { data_name }
                    } else {
                        ExprType::Unknown
                    }
                },
                None => ExprType::Unknown,
            }
        },
        Expr::Input(input) => match input.subtype {
            Some(Subtype::Weld) | None => ExprType::Weld,
            Some(subtype) => ExprType::Number(subtype),
        },
        Expr::Call { callee, .. } => match find_function(program, callee.as_str()) {
            Some(f) => ret_kind_to_expr_type(&f.ret_kind),
            None => ExprType::Unknown,
        },
        Expr::BinaryOp { op, lhs, rhs } => match op {
            BinOp::Add | BinOp::Sub | BinOp::Mul | BinOp::Div | BinOp::Pow => {
                let l = expr_type(lhs, scope, program);
                let r = expr_type(rhs, scope, program);
                if matches!(l, ExprType::Number(Subtype::Float)) || matches!(
                    r,
                    ExprType::Number(Subtype::Float)
                ) {
                    ExprType::Number(Subtype::Float)
                } else if l.is_int() && r.is_int() {
                    ExprType::Number(Subtype::Int)
                } else {
                    ExprType::Unknown
                }
            },
            BinOp::Rem => ExprType::Number(Subtype::Int),
            _ => ExprType::Bool,
        },
        Expr::UnaryOp { operand, .. } => expr_type(operand, scope, program),
        Expr::ArrayLiteral(_) => ExprType::Array { element_type: Subtype::Int },
        Expr::TupleLiteral(elements) => {
            proof {
                assert(decreases_to!(*expr => *elements));
            }
            tuple_elements_type(elements, scope, program)
        },
        Expr::ListLiteral(elements) => {
            proof {
                assert(decreases_to!(*expr => *elements));
            }
            list_elements_type(elements, scope, program)
        },
        Expr::IndexAccess { object, .. } => match expr_type(object, scope, program) {
            ExprType::Array { element_type } => ExprType::from_subtype(element_type),
            ExprType::List { element_type: Some(element_type) } => ExprType::from_subtype(
                element_type,
            ),
            _ => ExprType::Unknown,
        },
        Expr::MemberAccess { object, member } => {
            let t = expr_type(object, scope, program);
            let length = str_eq(member.as_str(), "Length") || str_eq(member.as_str(), "Len");
            match t {
                ExprType::Array { .. } | ExprType::List { .. } => {
                    if length {
                        ExprType::Number(Subtype::Int)
                    } else {
                        ExprType::Unknown
                    }
                },
                ExprType::Tuple { fields } => match find_field(&fields, member.as_str()) {
                    Some(s) => ExprType::from_subtype(s),
                    None => ExprType::Unknown,
                },
                ExprType::DataObject { data_name } => match data_member_type(
                    program,
                    data_name.as_str(),
                    member.as_str(),
                ) {
                    Some(t) => type_decl_to_expr_type(t),
                    None => ExprType::Unknown,
                },
                _ => ExprType::Unknown,
            }
        },
        Expr::MethodCall { object, method, .. } => {
            let t = expr_type(object, scope, program);
            let m = method.as_str();
            match t {
                ExprType::Array { .. } => {
                    if str_eq(m, "Length") || str_eq(m, "Len") {
                        ExprType::Number(Subtype::Int)
                    } else {
                        ExprType::Unknown
                    }
                },
                ExprType::List { .. } => {
                    if str_eq(m, "Length") || str_eq(m, "Len") || str_eq(m, "Add") || str_eq(
                        m,
                        "Remove",
                    ) || str_eq(m, "RemoveAt") {
                        ExprType::Number(Subtype::Int)
                    } else {
                        ExprType::Unknown
                    }
                },
                _ => ExprType::Unknown,
            }
        },
        Expr::NamespaceCall { .. } => ExprType::Unknown,
    }
}

/// Whether tuple fields may stand where `expected` fields are declared:
/// as many, each of a compatible subtype, and each named as declared or
/// not named.
pub open spec fn fields_compat(actual: Seq<(Subtype, Seq<char>)>, expected: Seq<(Subtype, Seq<char>)>) -> bool {
    &&& actual.len() == expected.len()
    &&& forall|i: int|
        0 <= i < actual.len() ==> sub_compat((#[trigger] actual[i]).0, expected[i].0) && (
        actual[i].1.len() == 0 || actual[i].1 == expected[i].1)
}

fn fields_compatible(actual: &Vec<(Subtype, String)>, expected: &Vec<(Subtype, String)>) -> (r: bool)
    ensures
        r == fields_compat(fields_view(actual@), fields_view(expected@)),
{
    if actual.len() != expected.len() {
        return false;
    }
    let mut i: usize = 0;
    while i < actual.len()
        invariant
            actual@.len() == expected@.len(),
            i <= actual@.len(),
            forall|j: int|
                0 <= j < i ==> sub_compat(
                    (#[trigger] fields_view(actual@)[j]).0,
                    fields_view(expected@)[j].0,
                ) && (fields_view(actual@)[j].1.len() == 0 || fields_view(actual@)[j].1
                    == fields_view(expected@)[j].1),
        decreases actual.len() - i,
    {
        assert(fields_view(actual@)[i as int] == (actual@[i as int].0, actual@[i as int].1@));
        assert(fields_view(expected@)[i as int] == (expected@[i as int].0, expected@[i as int].1@));
        assert(fields_view(actual@).len() == actual@.len());
        if !subtype_compatible(actual[i].0, expected[i].0) {
            assert(!sub_compat(fields_view(actual@)[i as int].0, fields_view(expected@)[i as int].0));
            return false;
        }
        if !(actual[i].1.as_str().is_empty() || str_eq(actual[i].1.as_str(), expected[i].1.as_str())) {
            assert(fields_view(actual@)[i as int].1 == actual@[i as int].1@);
            return false;
        }
        i += 1;
    }
    true
}

/// Whether a value of type `actual` may stand where type `expected` is
/// wanted: compatible numbers, text, booleans, any arrays, compatible
/// tuples, lists of a compatible element type, or an empty list literal for
/// any list.
pub open spec fn ty_compat(actual: Ty, expected: Ty) -> bool {
    match (actual, expected) {
        (Ty::Number(a), Ty::Number(e)) => sub_compat(a, e),
        (Ty::Weld, Ty::Weld) => true,
        (Ty::Bool, Ty::Bool) => true,
        (Ty::Array(_), Ty::Array(_)) => true,
        (Ty::Tuple(a), Ty::Tuple(e)) => fields_compat(a, e),
        (Ty::List(Some(a)), Ty::List(Some(e))) => sub_compat(a, e),
        (Ty::List(None), Ty::List(_)) => true,
        _ => false,
    }
}

fn types_compatible(actual: &ExprType, expected: &TypeDecl) -> (r: bool)
    ensures
        r == ty_compat(actual.ty(), decl_ty(*expected)),
{
    match (actual, expected) {
        (ExprType::Number(a), TypeDecl::Number(e)) => subtype_compatible(*a, *e),
        (ExprType::Weld, TypeDecl::Weld) => true,
        (ExprType::Bool, TypeDecl::Bool) => true,
        (ExprType::Array { .. }, TypeDecl::Ore(_)) => true,
        (ExprType::Tuple { fields: a }, TypeDecl::OreTuple(e)) => fields_compatible(a, e),
        (ExprType::List { element_type: Some(a) }, TypeDecl::Materials(e, _)) => subtype_compatible(
            *a,
            *e,
        ),
        (ExprType::List { element_type: None }, TypeDecl::Materials(_, _)) => true,
        _ => false,
    }
}

fn type_decl_name(type_decl: &TypeDecl) -> (r: &'static str)
    ensures
        r@ == type_decl_text(*type_decl),
{
    match type_decl {
        TypeDecl::Number(Subtype::Int) => "Int",
        TypeDecl::Number(Subtype::Float) => "Float",
        TypeDecl::Number(Subtype::Generic) => "Generic",
        TypeDecl::Number(Subtype::Weld) => "Weld",
        TypeDecl::Weld => "Weld",
        TypeDecl::Bool => "Bool",
        TypeDecl::Ore(_) => "Array",
        TypeDecl::OreTuple(_) => "Tuple",
        TypeDecl::Materials(_, _) => "List",
    }
}

/// The kind of number an arithmetic operand is.
#[derive(Clone, Copy, PartialEq, Eq, Structural)]
pub enum NumericType {
    Int,
    Float,
}

/// The kind of number a type is, if it is an integer or a float.
pub open spec fn ty_numeric(t: Ty) -> Option<NumericType> {
    match t {
        Ty::Number(Subtype::Int) => Some(NumericType::Int),
        Ty::Number(Subtype::Float) => Some(NumericType::Float),
        _ => None,
    }
}

/// The kind of number an expression is, as arithmetic checks it: literals,
/// integer and float variables, input and calls by their declared subtype,
/// `+ - * / ^` of numbers (a float if either side is one), `%` of integers,
/// signs of numbers, and indexing, members and methods by their types.
pub open spec fn num_of(e: Expr, env: Env, p: Seq<Statement>) -> Option<NumericType>
    decreases e,
{
    match e {
        Expr::Number(n) => Some(
            if n.is_float {
                NumericType::Float
            } else {
                NumericType::Int
            },
        ),
        Expr::Identifier(name) => if env.vars.contains_key(name@) {
            ty_numeric(env.vars[name@])
        } else {
            None
        },
        Expr::Input(input) => match input.subtype {
            Some(Subtype::Int) => Some(NumericType::Int),
            Some(Subtype::Float) => Some(NumericType::Float),
            _ => None,
        },
        Expr::Call { callee, .. } => match function_named(p, callee@) {
            Some(f) => match f.ret_kind {
                RetKind::Int => Some(NumericType::Int),
                RetKind::Float => Some(NumericType::Float),
                _ => None,
            },
            None => None,
        },
        Expr::BinaryOp { op, lhs, rhs } => if arithmetic_op(op) {
            match (num_of(*lhs, env, p), num_of(*rhs, env, p)) {
                (Some(l), Some(r)) => Some(
                    if l == NumericType::Float || r == NumericType::Float {
                        NumericType::Float
                    } else {
                        NumericType::Int
                    },
                ),
                _ => None,
            }
        } else if op == BinOp::Rem {
            if num_of(*lhs, env, p) == Some(NumericType::Int) && num_of(*rhs, env, p) == Some(
                NumericType::Int,
            ) {
                Some(NumericType::Int)
            } else {
                None
            }
        } else {
            None
        },
        Expr::UnaryOp { operand, .. } => num_of(*operand, env, p),
        Expr::IndexAccess { .. } => ty_numeric(ty_of(e, env, p)),
        Expr::MemberAccess { .. } => ty_numeric(ty_of(e, env, p)),
        Expr::MethodCall { .. } => ty_numeric(ty_of(e, env, p)),
        _ => None,
    }
}

fn numeric_type(expr: &Expr, scope: &Scope, program: &Program) -> (r: Option<NumericType>)
    ensures
        r == num_of(*expr, scope.env(), program.statements@),
    decreases expr,
{
    match expr {
        Expr::Number(n) => Some(
            if n.is_float {
                NumericType::Float
            } else {
                NumericType::Int
            },
        ),
        Expr::Identifier(name) => match scope.get(name.as_str()) {
            Some(TypeDecl::Number(Subtype::Int)) => Some(NumericType::Int),
            Some(TypeDecl::Number(Subtype::Float)) => Some(NumericType::Float),
            _ => None,
        },
        Expr::Input(input) => match input.subtype {
            Some(Subtype::Int) => Some(NumericType::Int),
            Some(Subtype::Float) => Some(NumericType::Float),
            _ => None,
        },
        Expr::Call { callee, .. } => match find_function(program, callee.as_str()) {
            Some(f) => match f.ret_kind {
                RetKind::Int => Some(NumericType::Int),
                RetKind::Float => Some(NumericType::Float),
                _ => None,
            },
            None => None,
        },
        Expr::BinaryOp { op, lhs, rhs } => match op {
            BinOp::Add | BinOp::Sub | BinOp::Mul | BinOp::Div | BinOp::Pow => {
                let l = numeric_type(lhs, scope, program)?;
                let r = numeric_type(rhs, scope, program)?;
                Some(
                    if l == NumericType::Float || r == NumericType::Float {
                        NumericType::Float
                    } else {
                        NumericType::Int
                    },
                )
            },
            BinOp::Rem => {
                if numeric_type(lhs, scope, program) == Some(NumericType::Int) && numeric_type(
                    rhs,
                    scope,
                    program,
                ) == Some(NumericType::Int) {
                    Some(NumericType::Int)
                } else {
                    None
                }
            },
            _ => None,
        },
        Expr::UnaryOp { operand, .. } => numeric_type(operand, scope, program),
        Expr::IndexAccess { .. } | Expr::MemberAccess { .. } | Expr::MethodCall { .. } => {
            match expr_type(expr, scope, program) {
                ExprType::Number(Subtype::Int) => Some(NumericType::Int),
                ExprType::Number(Subtype::Float) => Some(NumericType::Float),
                _ => None,
            }
        },
        _ => None,
    }
}

/// Whether an expression's type has an element subtype compatible with `expected`.
pub open spec fn matches_subtype(e: Expr, expected: Subtype, env: Env, p: Seq<Statement>) -> bool {
    match ty_subtype(ty_of(e, env, p)) {
        Some(actual) => sub_compat(actual, expected),
        None => false,
    }
}

fn expr_matches_subtype(expr: &Expr, expected: Subtype, scope: &Scope, program: &Program) -> (r: bool)
    ensures
        r == matches_subtype(*expr, expected, scope.env(), program.statements@),
{
    match subtype_from_expr_type(&expr_type(expr, scope, program)) {
        Some(actual) => subtype_compatible(actual, expected),
        None => false,
    }
}

fn expr_types_compatible(actual: &ExprType, expected: &ExprType) -> (r: bool)
    ensures
        r == ty_compat(actual.ty(), expected.ty()),
{
    match (actual, expected) {
        (ExprType::Number(a), ExprType::Number(e)) => subtype_compatible(*a, *e),
        (ExprType::Weld, ExprType::Weld) => true,
        (ExprType::Bool, ExprType::Bool) => true,
        (ExprType::Array { .. }, ExprType::Array { .. }) => true,
        (ExprType::Tuple { fields: a }, ExprType::Tuple { fields: e }) => fields_compatible(a, e),
        (ExprType::List { element_type: Some(a) }, ExprType::List { element_type: Some(e) }) =>
            subtype_compatible(*a, *e),
        (ExprType::List { element_type: None }, ExprType::List { .. }) => true,
        _ => false,
    }
}

/// The name of the function a place is in, if any.
pub open spec fn current_fn(p: Seq<Statement>, ctx: ValidationContext) -> Option<Seq<char>> {
    match ctx.current_function {
        Some(i) => if i < p.len() {
            match p[i as int] {
                Statement::FunctionDecl(f) => Some(f.name@),
                _ => None,
            }
        } else {
            None
        },
        None => None,
    }
}

/// The place inside an `If` branch.
pub open spec fn in_branch(ctx: ValidationContext) -> ValidationContext {
    ValidationContext {
        current_function: ctx.current_function,
        in_loop_or_if: true,
        in_loop: ctx.in_loop,
    }
}

/// The place inside a loop.
pub open spec fn in_loop(ctx: ValidationContext) -> ValidationContext {
    ValidationContext { current_function: ctx.current_function, in_loop_or_if: true, in_loop: true }
}

/// The place of the program's top level.
pub open spec fn top_level() -> ValidationContext {
    ValidationContext { current_function: None, in_loop_or_if: false, in_loop: false }
}

/// The place of the body of the function at position `index`.
pub open spec fn function_body(index: usize) -> ValidationContext {
    ValidationContext { current_function: Some(index), in_loop_or_if: false, in_loop: false }
}

/// Whether a type has an element subtype compatible with `expected`.
pub open spec fn elem_matches(t: Ty, expected: Subtype) -> bool {
    match ty_subtype(t) {
        Some(actual) => sub_compat(actual, expected),
        None => false,
    }
}

/// Whether a member access is allowed on a value of type `t`: `Length` or
/// `Len` of an array or list, a field of a tuple, a member of a `Data` object.
pub open spec fn member_ok(t: Ty, member: Seq<char>, p: Seq<Statement>) -> bool {
    match t {
        Ty::Array(_) => is_length(member),
        Ty::List(_) => is_length(member),
        Ty::Tuple(fields) => field_named(fields, member) is Some,
        Ty::Data(d) => data_member(p, d, member) is Some,
        _ => false,
    }
}

/// Whether a method call is allowed on a value of type `t`: on a list with
/// an element type `Add` of one compatible element, `Remove` or `RemoveAt`
/// of one integer index, or `Length`/`Len`; on an empty list literal or an
/// array only `Length`/`Len`; all without other arguments.
pub open spec fn method_ok(t: Ty, method: Seq<char>, args: Seq<Expr>, env: Env, p: Seq<Statement>) -> bool {
    match t {
        Ty::List(Some(element)) => if method == "Add"@ {
            args.len() == 1 && matches_subtype(args[0], element, env, p)
        } else if method == "Remove"@ || method == "RemoveAt"@ {
            args.len() == 1 && ty_of(args[0], env, p) == Ty::Number(Subtype::Int)
        } else {
            is_length(method) && args.len() == 0
        },
        Ty::List(None) => is_length(method) && args.len() == 0,
        Ty::Array(_) => is_length(method) && args.len() == 0,
        _ => false,
    }
}

/// Whether an expression passes the checks of semantic analysis in a scope
/// and place: calls name a function of the program with as many arguments
/// as parameters, each of a compatible type; `Program.Stop()` only inside a
/// function and without arguments; methods and members as `method_ok` and
/// `member_ok` allow; indexing of an array or list by an integer; array
/// literals of integers; list literals of one element type; arithmetic on
/// numbers and `%` on integers; signs on numbers; a dotted name only when it
/// is a variable; and all of it for every part of the expression.
pub open spec fn expr_ok(e: Expr, env: Env, p: Seq<Statement>, ctx: ValidationContext) -> bool
    decreases e,
{
    match e {
        Expr::Call { callee, args } => {
            proof {
                assert(decreases_to!(e => args));
                assert(decreases_to!(args => args@));
            }
            match function_named(p, callee@) {
                Some(f) => f.params@.len() == args@.len() && exprs_ok(args@, env, p, ctx) && forall|i: int|
                    0 <= i < args@.len() ==> ty_compat(
                        #[trigger] tys_of(args@, env, p)[i],
                        decl_ty(f.params@[i].type_decl),
                    ),
                None => false,
            }
        },
        Expr::NamespaceCall { namespace, method, args } => namespace@ == "Program"@
            && ctx.current_function is Some && method@ == "Stop"@ && args@.len() == 0,
        Expr::MethodCall { object, method, args } => {
            proof {
                assert(decreases_to!(e => args));
                assert(decreases_to!(args => args@));
            }
            expr_ok(*object, env, p, ctx) && exprs_ok(args@, env, p, ctx) && method_ok(
                ty_of(*object, env, p),
                method@,
                args@,
                env,
                p,
            )
        },
        Expr::IndexAccess { object, index } => expr_ok(*object, env, p, ctx) && expr_ok(
            *index,
            env,
            p,
            ctx,
        ) && (ty_of(*object, env, p) is Array || ty_of(*object, env, p) is List) && ty_of(
            *index,
            env,
            p,
        ) == Ty::Number(Subtype::Int),
        Expr::ArrayLiteral(els) => {
            proof {
                assert(decreases_to!(e => els));
                assert(decreases_to!(els => els@));
            }
            exprs_ok(els@, env, p, ctx) && forall|i: int|
                0 <= i < els@.len() ==> elem_matches(#[trigger] tys_of(els@, env, p)[i], Subtype::Int)
        },
        Expr::ListLiteral(els) => {
            proof {
                assert(decreases_to!(e => els));
                assert(decreases_to!(els => els@));
            }
            exprs_ok(els@, env, p, ctx) && (els@.len() == 0 || !(list_ty(tys_of(els@, env, p)) is Unknown))
        },
        Expr::TupleLiteral(els) => {
            proof {
                assert(decreases_to!(e => els));
                assert(decreases_to!(els => els@));
            }
            exprs_ok(els@, env, p, ctx)
        },
        Expr::BinaryOp { op, lhs, rhs } => expr_ok(*lhs, env, p, ctx) && expr_ok(*rhs, env, p, ctx)
            && !((arithmetic_op(op) || op == BinOp::Rem) && num_of(e, env, p) is None),
        Expr::UnaryOp { operand, .. } => expr_ok(*operand, env, p, ctx) && num_of(*operand, env, p) is Some,
        Expr::MemberAccess { object, member } => expr_ok(*object, env, p, ctx) && member_ok(
            ty_of(*object, env, p),
            member@,
            p,
        ),
        Expr::Identifier(name) => !(name@.contains('.') && !env.vars.contains_key(name@)),
        _ => true,
    }
}

/// Whether every expression of a sequence passes the checks.
pub open spec fn exprs_ok(s: Seq<Expr>, env: Env, p: Seq<Statement>, ctx: ValidationContext) -> bool
    decreases s,
{
    if s.len() == 0 {
        true
    } else {
        proof {
            assert(decreases_to!(s => s.subrange(0, s.len() - 1)));
            assert(decreases_to!(s => s[s.len() - 1]));
        }
        exprs_ok(s.subrange(0, s.len() - 1), env, p, ctx) && expr_ok(s[s.len() - 1], env, p, ctx)
    }
}

proof fn lemma_exprs_ok(s: Seq<Expr>, env: Env, p: Seq<Statement>, ctx: ValidationContext)
    ensures
        exprs_ok(s, env, p, ctx) <==> forall|j: int| 0 <= j < s.len() ==> #[trigger] expr_ok(s[j], env, p, ctx),
    decreases s.len(),
{
    if s.len() > 0 {
        let q = s.subrange(0, s.len() - 1);
        lemma_exprs_ok(q, env, p, ctx);
        assert forall|j: int| 0 <= j < q.len() implies q[j] == s[j] by {}
        if forall|j: int| 0 <= j < s.len() ==> #[trigger] expr_ok(s[j], env, p, ctx) {
            assert forall|j: int| 0 <= j < q.len() implies #[trigger] expr_ok(q[j], env, p, ctx) by {
                assert(q[j] == s[j]);
            }
            assert(expr_ok(s[s.len() - 1], env, p, ctx));
        }
        if exprs_ok(s, env, p, ctx) {
            assert forall|j: int| 0 <= j < s.len() implies #[trigger] expr_ok(s[j], env, p, ctx) by {
                if j < s.len() - 1 {
                    assert(q[j] == s[j]);
                }
            }
        }
    }
}

/// The type an assignment target holds, if it is a declared variable, a
/// field of a tuple, or an element of an array or of a list with an element
/// type (an unknown receiver gives an unknown type).
pub open spec fn target_ty(t: AssignmentTarget, env: Env) -> Option<Ty>
    decreases t,
{
    match t {
        AssignmentTarget::Var(name) => if env.vars.contains_key(name@) {
            Some(env.vars[name@])
        } else {
            None
        },
        AssignmentTarget::Member { object, member } => match target_ty(*object, env) {
            Some(Ty::Tuple(fields)) => match field_named(fields, member@) {
                Some(s) => Some(subtype_ty(s)),
                None => None,
            },
            Some(Ty::Unknown) => Some(Ty::Unknown),
            _ => None,
        },
        AssignmentTarget::Index { object, .. } => match target_ty(*object, env) {
            Some(Ty::Array(s)) => Some(subtype_ty(s)),
            Some(Ty::List(Some(s))) => Some(subtype_ty(s)),
            Some(Ty::Unknown) => Some(Ty::Unknown),
            _ => None,
        },
    }
}

/// Whether the indices of an assignment target pass the checks and are integers.
pub open spec fn target_ok(t: AssignmentTarget, env: Env, p: Seq<Statement>, ctx: ValidationContext) -> bool
    decreases t,
{
    match t {
        AssignmentTarget::Var(_) => true,
        AssignmentTarget::Member { object, .. } => target_ok(*object, env, p, ctx),
        AssignmentTarget::Index { object, index } => target_ok(*object, env, p, ctx) && expr_ok(
            index,
            env,
            p,
            ctx,
        ) && ty_of(index, env, p) == Ty::Number(Subtype::Int),
    }
}

/// Whether a variable declaration passes the checks: the elements of an
/// array literal for an array are integers, an array literal has the
/// declared size, a tuple literal has the declared fields' count and
/// subtypes, a list declared with `new` has no initializer, and an
/// initializer passes the checks and has a type compatible with the
/// declaration (a boolean for a `Bool`).
pub open spec fn decl_ok(d: VarDecl, env: Env, p: Seq<Statement>, ctx: ValidationContext) -> bool {
    &&& match (d.type_decl, d.initializer) {
        (TypeDecl::Ore(_), Some(Expr::ArrayLiteral(els))) => forall|i: int|
            0 <= i < els@.len() ==> matches_subtype(#[trigger] els@[i], Subtype::Int, env, p),
        _ => true,
    }
    &&& match (d.type_decl, d.initializer) {
        (TypeDecl::Bool, Some(init)) => ty_of(init, env, p) == Ty::Bool,
        (TypeDecl::Ore(Some(n)), Some(Expr::ArrayLiteral(els))) => n >= 0 && els@.len() == n,
        (TypeDecl::OreTuple(fields), Some(Expr::TupleLiteral(els))) => els@.len() == fields@.len()
            && forall|i: int|
            0 <= i < els@.len() ==> matches_subtype(#[trigger] els@[i], fields@[i].0, env, p),
        (TypeDecl::Materials(_, has_new), Some(init)) => !has_new && (init is ListLiteral ==> ty_compat(
            ty_of(init, env, p),
            decl_ty(d.type_decl),
        )),
        _ => true,
    }
    &&& match d.initializer {
        Some(init) => expr_ok(init, env, p, ctx) && ty_compat(ty_of(init, env, p), decl_ty(d.type_decl)),
        None => true,
    }
}

/// Whether one member initializer of an object passes the checks: its value
/// does, it names a member, and the value's type is compatible with the
/// member's declared type.
pub open spec fn init_ok(init: (Vec<String>, Expr), data: DataDecl, env: Env, p: Seq<Statement>, ctx: ValidationContext) -> bool {
    &&& expr_ok(init.1, env, p, ctx)
    &&& init.0@.len() > 0
    &&& match first_some(data.members@, member_of(init.0@.last()@)) {
        Some(t) => ty_compat(ty_of(init.1, env, p), decl_ty(t)),
        None => false,
    }
}

/// Whether an object declaration passes the checks: its `Data` type is
/// declared and every member initializer passes them.
pub open spec fn object_ok(o: ObjectDecl, env: Env, p: Seq<Statement>, ctx: ValidationContext) -> bool {
    match data_named(p, o.data_type@) {
        Some(data) => forall|i: int| 0 <= i < o.inits@.len() ==> #[trigger] init_ok(o.inits@[i], data, env, p, ctx),
        None => false,
    }
}

/// Whether a `Return` passes the checks: its value does, it stands in a
/// function, a value is returned exactly when the function has a value
/// type, and the value's type is compatible with it.
pub open spec fn return_ok(v: Option<Expr>, env: Env, p: Seq<Statement>, ctx: ValidationContext) -> bool {
    &&& match v {
        Some(e) => expr_ok(e, env, p, ctx),
        None => true,
    }
    &&& match current_fn(p, ctx) {
        Some(name) => match function_named(p, name) {
            Some(f) => match v {
                None => spec_is_void(f.ret_kind),
                Some(e) => !spec_is_void(f.ret_kind) && (!(ret_ty(f.ret_kind) is Unknown) ==> ty_compat(
                    ty_of(e, env, p),
                    ret_ty(f.ret_kind),
                )),
            },
            None => false,
        },
        None => false,
    }
}

/// The type of the elements of a collection of type `t`.
pub open spec fn element_ty(t: Ty) -> Option<Ty> {
    match t {
        Ty::Array(s) => Some(subtype_ty(s)),
        Ty::List(Some(s)) => Some(subtype_ty(s)),
        _ => None,
    }
}

/// Whether a statement passes the checks of semantic analysis in a scope
/// and place: its declarations, expressions and assignment as above; the
/// conditions and bodies of `If` and `While`; a `For` with its counter in
/// scope and a numeric increment variable; a `ForEach` over an array or
/// list whose elements fit the item type; `Stop` only in a loop or an `If`
/// and never in `Main`; `Skip` only in a loop; `Return` as `return_ok`
/// says; and no `Use` or `Using` (those are resolved before analysis).
pub open spec fn stmt_ok(s: Statement, env: Env, p: Seq<Statement>, ctx: ValidationContext) -> bool
    decreases s,
{
    match s {
        Statement::VarDecl(d) => decl_ok(d, env, p, ctx),
        Statement::ObjectDecl(o) => object_ok(o, env, p, ctx),
        Statement::Assignment(a) => target_ok(a.target, env, p, ctx) && expr_ok(a.value, env, p, ctx)
            && match target_ty(a.target, env) {
            Some(t) => ty_compat(ty_of(a.value, env, p), t),
            None => false,
        },
        Statement::If(node) => {
            proof {
                assert(decreases_to!(s => node));
                assert(decreases_to!(node => node.branches));
                assert(decreases_to!(node.branches => node.branches@));
            }
            branches_ok(node.branches@, env, p, ctx) && match node.else_body {
                Some(body) => {
                    proof {
                        assert(decreases_to!(node => node.else_body));
                        assert(decreases_to!(node.else_body => body));
                        assert(decreases_to!(body => body@));
                    }
                    stmts_ok(body@, env, p, in_branch(ctx))
                },
                None => true,
            }
        },
        Statement::While(node) => {
            proof {
                assert(decreases_to!(s => node));
                assert(decreases_to!(node => node.body));
                assert(decreases_to!(node.body => node.body@));
            }
            expr_ok(node.condition, env, p, ctx) && stmts_ok(node.body@, env, p, in_loop(ctx))
        },
        Statement::For(node) => {
            proof {
                assert(decreases_to!(s => node));
                assert(decreases_to!(node => node.body));
                assert(decreases_to!(node.body => node.body@));
            }
            let inner = with_var(env, node.init.name@, decl_ty(node.init.type_decl));
            &&& decl_ok(node.init, env, p, ctx)
            &&& expr_ok(node.condition, inner, p, ctx)
            &&& stmts_ok(node.body@, inner, p, in_loop(ctx))
            &&& inner.vars.contains_key(node.increment_var@)
            &&& ty_numeric(inner.vars[node.increment_var@]) is Some
        },
        Statement::ForEach(node) => {
            proof {
                assert(decreases_to!(s => node));
                assert(decreases_to!(node => node.body));
                assert(decreases_to!(node.body => node.body@));
            }
            &&& env.vars.contains_key(node.collection_name@)
            &&& match element_ty(env.vars[node.collection_name@]) {
                Some(t) => ty_compat(t, decl_ty(node.item_type)) && stmts_ok(
                    node.body@,
                    with_var(env, node.item_name@, decl_ty(node.item_type)),
                    p,
                    in_loop(ctx),
                ),
                None => false,
            }
        },
        Statement::Stop => current_fn(p, ctx) != Some("Main"@) && ctx.in_loop_or_if,
        Statement::Skip => ctx.in_loop,
        Statement::Use(_) => false,
        Statement::Using(_) => false,
        Statement::Print(print) => expr_ok(print.expr, env, p, ctx),
        Statement::Return(v) => return_ok(v, env, p, ctx),
        Statement::ExprStmt(e) => expr_ok(e, env, p, ctx),
        _ => true,
    }
}

/// Whether every statement of a sequence passes the checks.
pub open spec fn stmts_ok(ss: Seq<Statement>, env: Env, p: Seq<Statement>, ctx: ValidationContext) -> bool
    decreases ss,
{
    if ss.len() == 0 {
        true
    } else {
        proof {
            assert(decreases_to!(ss => ss.subrange(0, ss.len() - 1)));
            assert(decreases_to!(ss => ss[ss.len() - 1]));
        }
        stmts_ok(ss.subrange(0, ss.len() - 1), env, p, ctx) && stmt_ok(ss[ss.len() - 1], env, p, ctx)
    }
}

/// Whether the branches of an `If` pass the checks: each condition in the
/// `If`'s place, each body inside the branch.
pub open spec fn branches_ok(bs: Seq<(Expr, Vec<Statement>)>, env: Env, p: Seq<Statement>, ctx: ValidationContext) -> bool
    decreases bs,
{
    if bs.len() == 0 {
        true
    } else {
        proof {
            assert(decreases_to!(bs => bs.subrange(0, bs.len() - 1)));
            assert(decreases_to!(bs => bs[bs.len() - 1]));
            assert(decreases_to!(bs[bs.len() - 1] => bs[bs.len() - 1].1));
            assert(decreases_to!(bs[bs.len() - 1].1 => bs[bs.len() - 1].1@));
        }
        branches_ok(bs.subrange(0, bs.len() - 1), env, p, ctx) && expr_ok(bs[bs.len() - 1].0, env, p, ctx)
            && stmts_ok(bs[bs.len() - 1].1@, env, p, in_branch(ctx))
    }
}

proof fn lemma_stmts_ok(s: Seq<Statement>, env: Env, p: Seq<Statement>, ctx: ValidationContext)
    ensures
        stmts_ok(s, env, p, ctx) <==> forall|j: int| 0 <= j < s.len() ==> #[trigger] stmt_ok(s[j], env, p, ctx),
    decreases s.len(),
{
    if s.len() > 0 {
        let q = s.subrange(0, s.len() - 1);
        lemma_stmts_ok(q, env, p, ctx);
        assert forall|j: int| 0 <= j < q.len() implies q[j] == s[j] by {}
        if forall|j: int| 0 <= j < s.len() ==> #[trigger] stmt_ok(s[j], env, p, ctx) {
            assert forall|j: int| 0 <= j < q.len() implies #[trigger] stmt_ok(q[j], env, p, ctx) by {
                assert(q[j] == s[j]);
            }
            assert(stmt_ok(s[s.len() - 1], env, p, ctx));
        }
        if stmts_ok(s, env, p, ctx) {
            assert forall|j: int| 0 <= j < s.len() implies #[trigger] stmt_ok(s[j], env, p, ctx) by {
                if j < s.len() - 1 {
                    assert(q[j] == s[j]);
                }
            }
        }
    }
}

/// Whether one `If` branch passes the checks.
pub open spec fn branch_ok(b: (Expr, Vec<Statement>), env: Env, p: Seq<Statement>, ctx: ValidationContext) -> bool {
    expr_ok(b.0, env, p, ctx) && stmts_ok(b.1@, env, p, in_branch(ctx))
}

proof fn lemma_branches_ok(s: Seq<(Expr, Vec<Statement>)>, env: Env, p: Seq<Statement>, ctx: ValidationContext)
    ensures
        branches_ok(s, env, p, ctx) <==> forall|j: int| 0 <= j < s.len() ==> #[trigger] branch_ok(s[j], env, p, ctx),
    decreases s.len(),
{
    if s.len() > 0 {
        let q = s.subrange(0, s.len() - 1);
        lemma_branches_ok(q, env, p, ctx);
        assert forall|j: int| 0 <= j < q.len() implies q[j] == s[j] by {}
        if forall|j: int| 0 <= j < s.len() ==> #[trigger] branch_ok(s[j], env, p, ctx) {
            assert forall|j: int| 0 <= j < q.len() implies #[trigger] branch_ok(q[j], env, p, ctx) by {
                assert(q[j] == s[j]);
            }
        }
        assert(branch_ok(s[s.len() - 1], env, p, ctx) == (expr_ok(s[s.len() - 1].0, env, p, ctx)
            && stmts_ok(s[s.len() - 1].1@, env, p, in_branch(ctx))));
    }
}

/// Whether a function passes the checks: `Main` takes no parameters, and
/// its body passes them in the scope of its parameters and of every
/// variable and object its body declares.
pub open spec fn function_ok(f: FunctionDecl, index: usize, p: Seq<Statement>) -> bool {
    &&& f.name@ == "Main"@ ==> f.params@.len() == 0
    &&& stmts_ok(f.body@, collect_stmts(f.body@, params_env(f.params@)), p, function_body(index))
}

/// Whether a program passes semantic analysis: every top-level statement
/// but the function declarations passes the checks in an empty scope at the
/// top level, and every function passes them.
pub open spec fn program_ok(p: Seq<Statement>) -> bool {
    &&& forall|i: int|
        0 <= i < p.len() && !(p[i] is FunctionDecl) ==> #[trigger] stmt_ok(p[i], empty_env(), p, top_level())
    &&& forall|i: int|
        0 <= i < p.len() ==> match #[trigger] p[i] {
            Statement::FunctionDecl(f) => function_ok(f, i as usize, p),
            _ => true,
        }
}

/// The name of the function a context is in, if any.
fn current_name<'a>(program: &'a Program, context: ValidationContext) -> (r: Option<&'a String>)
    ensures
        match r {
            Some(n) => current_fn(program.statements@, context) == Some(n@),
            None => current_fn(program.statements@, context) is None,
        },
{
    match context.current_function {
        Some(i) => {
            if i < program.statements.len() {
                match &program.statements[i] {
                    Statement::FunctionDecl(f) => Some(&f.name),
                    _ => None,
                }
            } else {
                None
            }
        },
        None => None,
    }
}

/// Checks a program: loose top-level statements first, then every function.
///
/// The program passes exactly when `program_ok` holds of it: its top-level
/// statements (but function declarations) and the bodies of its functions
/// follow the scoping, typing and placement rules stated there.
pub fn analyze(program: &Program) -> (r: Result<(), ForgeError>)
    ensures
        r is Ok <==> program_ok(program.statements@),
{
    let ghost p = program.statements@;
    let top_level_ctx = ValidationContext {
        current_function: None,
        in_loop_or_if: false,
        in_loop: false,
    };
    let empty_scope = Scope::new();
    let mut i: usize = 0;
    while i < program.statements.len()
        invariant
            i <= p.len(),
            p == program.statements@,
            top_level_ctx == top_level(),
            empty_scope.env() == empty_env(),
            forall|j: int|
                0 <= j < i && !(p[j] is FunctionDecl) ==> #[trigger] stmt_ok(
                    p[j],
                    empty_env(),
                    p,
                    top_level(),
                ),
        decreases program.statements.len() - i,
    {
        match &program.statements[i] {
            Statement::FunctionDecl(_) => {},
            statement => {
                validate_statement(statement, &empty_scope, program, top_level_ctx)?;
            },
        }
        i += 1;
    }
    let mut i: usize = 0;
    while i < program.statements.len()
        invariant
            i <= p.len(),
            p == program.statements@,
            forall|j: int|
                0 <= j < p.len() && !(p[j] is FunctionDecl) ==> #[trigger] stmt_ok(
                    p[j],
                    empty_env(),
                    p,
                    top_level(),
                ),
            forall|j: int|
                0 <= j < i ==> match #[trigger] p[j] {
                    Statement::FunctionDecl(f) => function_ok(f, j as usize, p),
                    _ => true,
                },
        decreases program.statements.len() - i,
    {
        if let Statement::FunctionDecl(function) = &program.statements[i] {
            let checked = validate_function(function, i, program);
            if checked.is_err() {
                assert(!function_ok(*function, i, p));
                assert(!(match p[i as int] {
                    Statement::FunctionDecl(f) => function_ok(f, i as usize, p),
                    _ => true,
                }));
                return checked;
            }
        }
        i += 1;
    }
    Ok(())
}

fn validate_function(function: &FunctionDecl, index: usize, program: &Program) -> (r: Result<(), ForgeError>)
    ensures
        r is Ok <==> function_ok(*function, index, program.statements@),
{
    if str_eq(function.name.as_str(), "Main") && function.params.len() != 0 {
        return Err(error("Main cannot have parameters"));
    }
    let mut scope = Scope::from_params(&function.params);
    collect_body(&function.body, &mut scope);
    let context = ValidationContext {
        current_function: Some(index),
        in_loop_or_if: false,
        in_loop: false,
    };
    validate_statements(&function.body, &scope, program, context)
}

fn validate_statements(
    statements: &Vec<Statement>,
    scope: &Scope,
    program: &Program,
    context: ValidationContext,
) -> (r: Result<(), ForgeError>)
    ensures
        r is Ok <==> stmts_ok(statements@, scope.env(), program.statements@, context),
    decreases statements@,
{
    let ghost env = scope.env();
    let ghost p = program.statements@;
    proof {
        lemma_stmts_ok(statements@, env, p, context);
    }
    let mut i: usize = 0;
    while i < statements.len()
        invariant
            i <= statements@.len(),
            env == scope.env(),
            p == program.statements@,
            forall|j: int| 0 <= j < i ==> #[trigger] stmt_ok(statements@[j], env, p, context),
            stmts_ok(statements@, env, p, context) <==> forall|j: int|
                0 <= j < statements@.len() ==> #[trigger] stmt_ok(statements@[j], env, p, context),
        decreases statements.len() - i,
    {
        proof {
            assert(decreases_to!(statements@ => statements@[i as int]));
        }
        validate_statement(&statements[i], scope, program, context)?;
        i += 1;
    }
    Ok(())
}

fn expected_return_type(ret_kind: &RetKind) -> (r: Option<TypeDecl>)
    ensures
        match r {
            Some(t) => decl_ty(t) == ret_ty(*ret_kind) && !(ret_ty(*ret_kind) is Unknown),
            None => ret_ty(*ret_kind) is Unknown,
        },
{
    match ret_kind {
        RetKind::Int => Some(TypeDecl::Number(Subtype::Int)),
        RetKind::Float => Some(TypeDecl::Number(Subtype::Float)),
        RetKind::Weld => Some(TypeDecl::Weld),
        RetKind::Bool => Some(TypeDecl::Bool),
        RetKind::Ore(size) => Some(TypeDecl::Ore(*size)),
        RetKind::OreTuple(fields) => Some(TypeDecl::OreTuple(copy_fields(fields))),
        RetKind::Materials(element, has_new) => Some(TypeDecl::Materials(*element, *has_new)),
        _ => None,
    }
}

fn validate_return(
    value: &Option<Expr>,
    scope: &Scope,
    program: &Program,
    context: ValidationContext,
) -> (r: Result<(), ForgeError>)
    ensures
        r is Ok <==> return_ok(*value, scope.env(), program.statements@, context),
{
    if let Some(v) = value {
        validate_expr(v, scope, program, context)?;
    }
    let function_name = match current_name(program, context) {
        Some(n) => n,
        None => {
            return Err(error("Return can only be used inside a function"));
        },
    };
    let function = match find_function(program, function_name.as_str()) {
        Some(f) => f,
        None => {
            return Err(error_of(&["Undefined function: ", display_symbol_name(function_name.as_str())]));
        },
    };
    match value {
        None => {
            if !function.ret_kind.is_void() {
                return Err(error_of(&["Function ", display_symbol_name(function_name.as_str()), " must return a value"]));
            }
        },
        Some(v) => {
            if function.ret_kind.is_void() {
                return Err(
                    error_of(&["Void function ", display_symbol_name(function_name.as_str()), " cannot return a value"]),
                );
            }
            if let Some(expected) = expected_return_type(&function.ret_kind) {
                let actual = expr_type(v, scope, program);
                if !types_compatible(&actual, &expected) {
                    return Err(
                        error_of(
                            &[
                                "Return type mismatch in ",
                                function_name.as_str(),
                                ": expected ",
                                type_decl_name(&expected),
                                ", got ",
                                actual.name(),
                            ],
                        ),
                    );
                }
            }
        },
    }
    Ok(())
}

fn path_text(path: &Vec<String>) -> (s: String)
    ensures
        s@ == crate::imports::dotted(crate::imports::path_view(path@)),
{
    let ghost pv = crate::imports::path_view(path@);
    let mut s = String::new();
    let mut i: usize = 0;
    while i < path.len()
        invariant
            i <= path@.len(),
            pv == crate::imports::path_view(path@),
            s@ == crate::imports::dotted(pv.take(i as int)),
        decreases path.len() - i,
    {
        assert(pv.take(i + 1).drop_last() =~= pv.take(i as int));
        if i > 0 {
            append(&mut s, ".");
        }
        append(&mut s, path[i].as_str());
        proof {
            if i == 0 {
                assert(pv.take(1) =~= seq![pv[0]]);
            }
        }
        i += 1;
    }
    assert(pv.take(pv.len() as int) =~= pv);
    s
}

fn validate_statement(
    statement: &Statement,
    scope: &Scope,
    program: &Program,
    context: ValidationContext,
) -> (r: Result<(), ForgeError>)
    ensures
        r is Ok <==> stmt_ok(*statement, scope.env(), program.statements@, context),
    decreases statement,
{
    let ghost env = scope.env();
    let ghost p = program.statements@;
    match statement {
        Statement::VarDecl(decl) => {
            validate_var_decl(decl, scope, program, context)?;
        },
        Statement::ObjectDecl(object) => {
            validate_object_decl(object, scope, program, context)?;
        },
        Statement::Assignment(assignment) => {
            validate_assignment_target(&assignment.target, scope, program, context)?;
            validate_expr(&assignment.value, scope, program, context)?;
            validate_assignment_type(assignment, scope, program)?;
        },
        Statement::If(node) => {
            let branch_ctx = ValidationContext { in_loop_or_if: true, ..context };
            assert(branch_ctx == in_branch(context));
            proof {
                lemma_branches_ok(node.branches@, env, p, context);
            }
            let mut i: usize = 0;
            while i < node.branches.len()
                invariant
                    *statement == Statement::If(*node),
                    i <= node.branches@.len(),
                    env == scope.env(),
                    p == program.statements@,
                    branch_ctx == in_branch(context),
                    forall|j: int|
                        0 <= j < i ==> #[trigger] branch_ok(node.branches@[j], env, p, context),
                    branches_ok(node.branches@, env, p, context) <==> forall|j: int|
                        0 <= j < node.branches@.len() ==> #[trigger] branch_ok(
                            node.branches@[j],
                            env,
                            p,
                            context,
                        ),
                decreases node.branches.len() - i,
            {
                proof {
                    assert(decreases_to!(*statement => (*statement)->If_0));
                    assert(decreases_to!(*node => node.branches));
                    assert(decreases_to!(node.branches => node.branches@));
                    assert(decreases_to!(node.branches@ => node.branches@[i as int]));
                    assert(decreases_to!(node.branches@[i as int] => node.branches@[i as int].1));
                }
                let cond = validate_expr(&node.branches[i].0, scope, program, context);
                if cond.is_err() {
                    assert(!branch_ok(node.branches@[i as int], env, p, context));
                    return cond;
                }
                let body = validate_statements(&node.branches[i].1, scope, program, branch_ctx);
                if body.is_err() {
                    assert(!branch_ok(node.branches@[i as int], env, p, context));
                    return body;
                }
                assert(branch_ok(node.branches@[i as int], env, p, context));
                i += 1;
            }
            if let Some(body) = &node.else_body {
                proof {
                    assert(decreases_to!(*statement => node.else_body));
                }
                validate_statements(body, scope, program, branch_ctx)?;
            }
        },
        Statement::While(node) => {
            let loop_ctx = ValidationContext { in_loop_or_if: true, in_loop: true, ..context };
            assert(loop_ctx == in_loop(context));
            validate_expr(&node.condition, scope, program, context)?;
            proof {
                assert(decreases_to!(*statement => node.body));
            }
            validate_statements(&node.body, scope, program, loop_ctx)?;
        },
        Statement::For(node) => {
            proof {
                assert(decreases_to!(*statement => (*statement)->For_0));
            }
            validate_for_stmt(node, scope, program, context)?;
        },
        Statement::ForEach(node) => {
            proof {
                assert(decreases_to!(*statement => (*statement)->ForEach_0));
            }
            validate_foreach_stmt(node, scope, program, context)?;
        },
        Statement::Stop => {
            if let Some(name) = current_name(program, context) {
                if str_eq(name.as_str(), "Main") {
                    return Err(error("Stop cannot be used in Main"));
                }
            }
            if !context.in_loop_or_if {
                return Err(error("Stop can only be used inside a loop or If statement"));
            }
        },
        Statement::Skip => {
            if !context.in_loop {
                return Err(error("Skip can only be used inside a loop"));
            }
        },
        Statement::Use(import) => {
            let path = path_text(&import.path);
            return Err(error_of(&["imports are not implemented: ", path.as_str()]));
        },
        Statement::Using(import) => {
            let path = path_text(&import.path);
            return Err(
                error_of(
                    &["imports are not implemented: ", path.as_str(), ": ", import.symbol.as_str()],
                ),
            );
        },
        Statement::Print(print) => validate_expr(&print.expr, scope, program, context)?,
        Statement::Return(value) => validate_return(value, scope, program, context)?,
        Statement::ExprStmt(expr) => validate_expr(expr, scope, program, context)?,
        _ => {},
    }
    Ok(())
}

fn validate_for_stmt(
    node: &ForNode,
    scope: &Scope,
    program: &Program,
    context: ValidationContext,
) -> (r: Result<(), ForgeError>)
    ensures
        r is Ok <==> stmt_ok(Statement::For(*node), scope.env(), program.statements@, context),
    decreases node,
{
    let ghost env = scope.env();
    let ghost p = program.statements@;
    let loop_ctx = ValidationContext { in_loop_or_if: true, in_loop: true, ..context };
    assert(loop_ctx == in_loop(context));
    let init_scope = scope.copy();
    validate_var_decl(&node.init, &init_scope, program, context)?;
    let mut loop_scope = init_scope;
    loop_scope.insert_var(&node.init.name, copy_type(&node.init.type_decl));
    validate_expr(&node.condition, &loop_scope, program, context)?;
    proof {
        assert(decreases_to!(*node => node.body));
    }
    validate_statements(&node.body, &loop_scope, program, loop_ctx)?;
    match loop_scope.get(node.increment_var.as_str()) {
        None => Err(error_of(&["Undefined variable: ", node.increment_var.as_str()])),
        Some(TypeDecl::Number(Subtype::Int)) | Some(TypeDecl::Number(Subtype::Float)) => Ok(()),
        Some(_) => Err(
            error_of(
                &["For loop increment variable '", node.increment_var.as_str(), "' must be numeric"],
            ),
        ),
    }
}

fn validate_foreach_stmt(
    node: &ForEachNode,
    scope: &Scope,
    program: &Program,
    context: ValidationContext,
) -> (r: Result<(), ForgeError>)
    ensures
        r is Ok <==> stmt_ok(Statement::ForEach(*node), scope.env(), program.statements@, context),
    decreases node,
{
    let collection_type = match scope.get(node.collection_name.as_str()) {
        Some(t) => t,
        None => {
            return Err(error_of(&["Undefined variable: ", node.collection_name.as_str()]));
        },
    };
    let element_type = match type_decl_to_expr_type(collection_type) {
        ExprType::Array { element_type } => ExprType::from_subtype(element_type),
        ExprType::List { element_type: Some(element_type) } => ExprType::from_subtype(element_type),
        other => {
            return Err(
                error_of(
                    &[
                        "ForEach collection '",
                        node.collection_name.as_str(),
                        "' must be an Array or List, got ",
                        other.name(),
                    ],
                ),
            );
        },
    };
    if !types_compatible(&element_type, &node.item_type) {
        return Err(
            error_of(
                &[
                    "ForEach item '",
                    node.item_name.as_str(),
                    "' has type ",
                    type_decl_name(&node.item_type),
                    ", but collection '",
                    node.collection_name.as_str(),
                    "' contains ",
                    element_type.name(),
                ],
            ),
        );
    }
    let mut loop_scope = scope.copy();
    loop_scope.insert_var(&node.item_name, copy_type(&node.item_type));
    let loop_ctx = ValidationContext { in_loop_or_if: true, in_loop: true, ..context };
    assert(loop_ctx == in_loop(context));
    proof {
        assert(decreases_to!(*node => node.body));
    }
    validate_statements(&node.body, &loop_scope, program, loop_ctx)
}

fn validate_var_decl(
    decl: &VarDecl,
    scope: &Scope,
    program: &Program,
    context: ValidationContext,
) -> (r: Result<(), ForgeError>)
    ensures
        r is Ok <==> decl_ok(*decl, scope.env(), program.statements@, context),
{
    let ghost env = scope.env();
    let ghost p = program.statements@;
    if let TypeDecl::Ore(_) = &decl.type_decl {
        if let Some(Expr::ArrayLiteral(elements)) = &decl.initializer {
            let mut i: usize = 0;
            while i < elements.len()
                invariant
                    i <= elements@.len(),
                    env == scope.env(),
                    p == program.statements@,
                    decl.initializer == Some(Expr::ArrayLiteral(*elements)),
                    decl.type_decl is Ore,
                    forall|j: int|
                        0 <= j < i ==> matches_subtype(#[trigger] elements@[j], Subtype::Int, env, p),
                decreases elements.len() - i,
            {
                if !expr_matches_subtype(&elements[i], Subtype::Int, scope, program) {
                    assert(!matches_subtype(elements@[i as int], Subtype::Int, env, p));
                    assert(decl.initializer == Some(Expr::ArrayLiteral(*elements)));
                    return Err(error("Type mismatch in array initializer: expected element of type Int"));
                }
                i += 1;
            }
        }
    }
    match &decl.type_decl {
        TypeDecl::Bool => {
            if let Some(init) = &decl.initializer {
                let t = expr_type(init, scope, program);
                if !matches!(t, ExprType::Bool) {
                    return Err(
                        error_of(
                            &[
                                "Type error: cannot assign ",
                                t.name(),
                                " to Bool variable '",
                                decl.name.as_str(),
                                "'",
                            ],
                        ),
                    );
                }
            }
        },
        TypeDecl::Ore(Some(expected_size)) => {
            if let Some(Expr::ArrayLiteral(elements)) = &decl.initializer {
                let n = elements.len();
                let differs = if *expected_size < 0 {
                    true
                } else {
                    (n as u64) != (*expected_size as u64)
                };
                if differs {
                    let expected = crate::text::signed_decimal_string(*expected_size);
                    let got = decimal_string(n as u64);
                    return Err(
                        error_of(
                            &[
                                "Array size mismatch: expected ",
                                expected.as_str(),
                                " elements, got ",
                                got.as_str(),
                            ],
                        ),
                    );
                }
            }
        },
        TypeDecl::OreTuple(fields) => {
            if let Some(Expr::TupleLiteral(elements)) = &decl.initializer {
                if elements.len() != fields.len() {
                    let expected = decimal_string(fields.len() as u64);
                    let got = decimal_string(elements.len() as u64);
                    return Err(
                        error_of(
                            &[
                                "Tuple field count mismatch: expected ",
                                expected.as_str(),
                                " fields, got ",
                                got.as_str(),
                            ],
                        ),
                    );
                }
                let mut i: usize = 0;
                while i < elements.len()
                    invariant
                        elements@.len() == fields@.len(),
                        i <= elements@.len(),
                        decl.initializer == Some(Expr::TupleLiteral(*elements)),
                        decl.type_decl == TypeDecl::OreTuple(*fields),
                        env == scope.env(),
                        p == program.statements@,
                        forall|j: int|
                            0 <= j < i ==> matches_subtype(
                                #[trigger] elements@[j],
                                fields@[j].0,
                                env,
                                p,
                            ),
                    decreases elements.len() - i,
                {
                    if !expr_matches_subtype(&elements[i], fields[i].0, scope, program) {
                        assert(!matches_subtype(elements@[i as int], fields@[i as int].0, env, p));
                        assert(decl.initializer == Some(Expr::TupleLiteral(*elements)));
                        return Err(
                            error_of(
                                &[
                                    "Type mismatch for tuple field '",
                                    fields[i].1.as_str(),
                                    "': expected ",
                                    subtype_name(fields[i].0),
                                ],
                            ),
                        );
                    }
                    i += 1;
                }
            }
        },
        TypeDecl::Materials(elem_type, has_new) => {
            if *has_new && decl.initializer.is_some() {
                return Err(error("Empty list declared with 'new' cannot have an initializer"));
            }
            if !*has_new {
                if let Some(init) = &decl.initializer {
                    if let Expr::ListLiteral(_) = init {
                        if !types_compatible(&expr_type(init, scope, program), &decl.type_decl) {
                            return Err(
                                error_of(
                                    &[
                                        "Type mismatch in list initializer: expected element of type ",
                                        subtype_name(*elem_type),
                                    ],
                                ),
                            );
                        }
                    }
                }
            }
        },
        _ => {},
    }
    if let Some(initializer) = &decl.initializer {
        validate_expr(initializer, scope, program, context)?;
        let t = expr_type(initializer, scope, program);
        if !types_compatible(&t, &decl.type_decl) {
            return Err(
                error_of(
                    &[
                        "Type mismatch: cannot assign ",
                        t.name(),
                        " to ",
                        type_decl_name(&decl.type_decl),
                        " variable '",
                        decl.name.as_str(),
                        "'",
                    ],
                ),
            );
        }
    }
    Ok(())
}

fn validate_object_decl(
    object: &ObjectDecl,
    scope: &Scope,
    program: &Program,
    context: ValidationContext,
) -> (r: Result<(), ForgeError>)
    ensures
        r is Ok <==> object_ok(*object, scope.env(), program.statements@, context),
{
    let ghost env = scope.env();
    let ghost p = program.statements@;
    let data = match data_decl(program, object.data_type.as_str()) {
        Some(d) => d,
        None => {
            return Err(error_of(&["Unknown Data type: ", display_symbol_name(object.data_type.as_str())]));
        },
    };
    let mut i: usize = 0;
    while i < object.inits.len()
        invariant
            i <= object.inits@.len(),
            env == scope.env(),
            p == program.statements@,
            data_named(p, object.data_type@) == Some(*data),
            forall|j: int| 0 <= j < i ==> #[trigger] init_ok(object.inits@[j], *data, env, p, context),
        decreases object.inits.len() - i,
    {
        let (path, value) = (&object.inits[i].0, &object.inits[i].1);
        let checked = validate_expr(value, scope, program, context);
        if checked.is_err() {
            assert(!init_ok(object.inits@[i as int], *data, env, p, context));
            return checked;
        }
        if path.len() == 0 {
            assert(!init_ok(object.inits@[i as int], *data, env, p, context));
            return Err(error("Missing Data member"));
        }
        let member = &path[path.len() - 1];
        let expected = match find_member(&data.members, member.as_str()) {
            Some(t) => t,
            None => {
                assert(!init_ok(object.inits@[i as int], *data, env, p, context));
                return Err(error_of(&["Unknown Data field: ", member.as_str()]));
            },
        };
        let t = expr_type(value, scope, program);
        if !types_compatible(&t, expected) {
            assert(!init_ok(object.inits@[i as int], *data, env, p, context));
            return Err(
                error_of(
                    &[
                        "Type mismatch for Data field '",
                        member.as_str(),
                        "': expected ",
                        type_decl_name(expected),
                        ", got ",
                        t.name(),
                    ],
                ),
            );
        }
        assert(init_ok(object.inits@[i as int], *data, env, p, context));
        i += 1;
    }
    Ok(())
}

fn validate_assignment_target(
    target: &AssignmentTarget,
    scope: &Scope,
    program: &Program,
    context: ValidationContext,
) -> (r: Result<(), ForgeError>)
    ensures
        r is Ok <==> target_ok(*target, scope.env(), program.statements@, context),
    decreases target,
{
    match target {
        AssignmentTarget::Var(_) => Ok(()),
        AssignmentTarget::Member { object, .. } => validate_assignment_target(
            object,
            scope,
            program,
            context,
        ),
        AssignmentTarget::Index { object, index } => {
            validate_assignment_target(object, scope, program, context)?;
            validate_expr(index, scope, program, context)?;
            let t = expr_type(index, scope, program);
            if !t.is_int() {
                return Err(error_of(&["Index must be Int, got ", t.name()]));
            }
            Ok(())
        },
    }
}

fn validate_assignment_type(
    assignment: &AssignmentNode,
    scope: &Scope,
    program: &Program,
) -> (r: Result<(), ForgeError>)
    ensures
        r is Ok <==> match target_ty(assignment.target, scope.env()) {
            Some(t) => ty_compat(ty_of(assignment.value, scope.env(), program.statements@), t),
            None => false,
        },
{
    let target_type = assignment_target_type(&assignment.target, scope)?;
    let value_type = expr_type(&assignment.value, scope, program);
    if !expr_types_compatible(&value_type, &target_type) {
        if let AssignmentTarget::Var(name) = &assignment.target {
            if matches!(target_type, ExprType::Bool) {
                return Err(
                    error_of(
                        &[
                            "Type error: cannot assign ",
                            value_type.name(),
                            " to Bool variable '",
                            name.as_str(),
                            "'",
                        ],
                    ),
                );
            }
        }
        return Err(
            error_of(&["Type mismatch: cannot assign ", value_type.name(), " to ", target_type.name()]),
        );
    }
    Ok(())
}

fn assignment_target_type(target: &AssignmentTarget, scope: &Scope) -> (r: Result<ExprType, ForgeError>)
    ensures
        match r {
            Ok(t) => target_ty(*target, scope.env()) == Some(t.ty()),
            Err(_) => target_ty(*target, scope.env()) is None,
        },
    decreases target,
{
    match target {
        AssignmentTarget::Var(name) => match scope.get(name.as_str()) {
            Some(t) => Ok(type_decl_to_expr_type(t)),
            None => Err(error_of(&["Undefined variable: ", name.as_str()])),
        },
        AssignmentTarget::Member { object, member } => match assignment_target_type(object, scope)? {
            ExprType::Tuple { fields } => match find_field(&fields, member.as_str()) {
                Some(s) => Ok(ExprType::from_subtype(s)),
                None => Err(error_of(&["Unknown tuple field: ", member.as_str()])),
            },
            ExprType::Unknown => Ok(ExprType::Unknown),
            other => Err(error_of(&["Member assignment requires a tuple, got ", other.name()])),
        },
        AssignmentTarget::Index { object, .. } => match assignment_target_type(object, scope)? {
            ExprType::Array { element_type } => Ok(ExprType::from_subtype(element_type)),
            ExprType::List { element_type: Some(element_type) } => Ok(
                ExprType::from_subtype(element_type),
            ),
            ExprType::List { element_type: None } => Err(
                error("Index assignment requires a list with a known element type"),
            ),
            ExprType::Unknown => Ok(ExprType::Unknown),
            other => Err(error_of(&["Index assignment requires an Array or List, got ", other.name()])),
        },
    }
}

fn validate_exprs(
    exprs: &Vec<Expr>,
    scope: &Scope,
    program: &Program,
    context: ValidationContext,
) -> (r: Result<(), ForgeError>)
    ensures
        r is Ok <==> exprs_ok(exprs@, scope.env(), program.statements@, context),
    decreases exprs@,
{
    let ghost env = scope.env();
    let ghost p = program.statements@;
    proof {
        lemma_exprs_ok(exprs@, env, p, context);
    }
    let mut i: usize = 0;
    while i < exprs.len()
        invariant
            i <= exprs@.len(),
            env == scope.env(),
            p == program.statements@,
            forall|j: int| 0 <= j < i ==> #[trigger] expr_ok(exprs@[j], env, p, context),
            exprs_ok(exprs@, env, p, context) <==> forall|j: int|
                0 <= j < exprs@.len() ==> #[trigger] expr_ok(exprs@[j], env, p, context),
        decreases exprs.len() - i,
    {
        proof {
            assert(decreases_to!(exprs@ => exprs@[i as int]));
        }
        validate_expr(&exprs[i], scope, program, context)?;
        i += 1;
    }
    Ok(())
}

fn validate_call(
    callee: &String,
    args: &Vec<Expr>,
    scope: &Scope,
    program: &Program,
    context: ValidationContext,
) -> (r: Result<(), ForgeError>)
    ensures
        r is Ok <==> match function_named(program.statements@, callee@) {
            Some(f) => f.params@.len() == args@.len() && exprs_ok(
                args@,
                scope.env(),
                program.statements@,
                context,
            ) && forall|i: int|
                0 <= i < args@.len() ==> ty_compat(
                    #[trigger] tys_of(args@, scope.env(), program.statements@)[i],
                    decl_ty(f.params@[i].type_decl),
                ),
            None => false,
        },
    decreases args@,
{
    let ghost env = scope.env();
    let ghost p = program.statements@;
    proof {
        lemma_exprs_ok(args@, env, p, context);
        lemma_tys_of_len(args@, env, p);
    }
    let function = match find_function(program, callee.as_str()) {
        Some(f) => f,
        None => {
            return Err(error_of(&["Undefined function: ", display_symbol_name(callee.as_str())]));
        },
    };
    if function.params.len() != args.len() {
        let expected = decimal_string(function.params.len() as u64);
        let got = decimal_string(args.len() as u64);
        return Err(
            error_of(
                &[
                    "Function ",
                    display_symbol_name(callee.as_str()),
                    " expects ",
                    expected.as_str(),
                    " arguments, got ",
                    got.as_str(),
                ],
            ),
        );
    }
    let mut i: usize = 0;
    while i < args.len()
        invariant
            args@.len() == function.params@.len(),
            function_named(program.statements@, callee@) == Some(*function),
            i <= args@.len(),
            env == scope.env(),
            p == program.statements@,
            tys_of(args@, env, p).len() == args@.len(),
            forall|j: int| 0 <= j < args@.len() ==> #[trigger] tys_of(args@, env, p)[j] == ty_of(args@[j], env, p),
            forall|j: int| 0 <= j < i ==> #[trigger] expr_ok(args@[j], env, p, context),
            forall|j: int|
                0 <= j < i ==> ty_compat(
                    #[trigger] tys_of(args@, env, p)[j],
                    decl_ty(function.params@[j].type_decl),
                ),
            exprs_ok(args@, env, p, context) <==> forall|j: int|
                0 <= j < args@.len() ==> #[trigger] expr_ok(args@[j], env, p, context),
        decreases args.len() - i,
    {
        proof {
            assert(decreases_to!(args@ => args@[i as int]));
        }
        validate_expr(&args[i], scope, program, context)?;
        let actual = expr_type(&args[i], scope, program);
        if !types_compatible(&actual, &function.params[i].type_decl) {
            assert(!ty_compat(tys_of(args@, env, p)[i as int], decl_ty(function.params@[i as int].type_decl)));
            let position = decimal_string(i as u64 + 1);
            return Err(
                error_of(
                    &[
                        "Argument ",
                        position.as_str(),
                        " of ",
                        display_symbol_name(callee.as_str()),
                        ": expected ",
                        type_decl_name(&function.params[i].type_decl),
                        ", got ",
                        actual.name(),
                    ],
                ),
            );
        }
        i += 1;
    }
    Ok(())
}

fn validate_expr(
    expr: &Expr,
    scope: &Scope,
    program: &Program,
    context: ValidationContext,
) -> (r: Result<(), ForgeError>)
    ensures
        r is Ok <==> expr_ok(*expr, scope.env(), program.statements@, context),
    decreases expr,
{
    let ghost env = scope.env();
    let ghost p = program.statements@;
    match expr {
        Expr::Call { callee, args } => {
            proof {
                assert(decreases_to!(*expr => *args));
            }
            validate_call(callee, args, scope, program, context)?;
        },
        Expr::NamespaceCall { namespace, method, args } => {
            if str_eq(namespace.as_str(), "Program") {
                if context.current_function.is_none() {
                    return Err(error("Program.Stop() can only be used inside a function scope"));
                }
                if str_eq(method.as_str(), "Stop") {
                    if args.len() != 0 {
                        return Err(error("Program.Stop() expects 0 arguments"));
                    }
                } else {
                    return Err(error_of(&["Unknown method ", method.as_str(), " in Program namespace"]));
                }
            } else {
                return Err(error_of(&["Unknown namespace: ", namespace.as_str()]));
            }
            proof {
                assert(decreases_to!(*expr => *args));
            }
            validate_exprs(args, scope, program, context)?;
        },
        Expr::MethodCall { object, method, args } => {
            validate_expr(object, scope, program, context)?;
            proof {
                assert(decreases_to!(*expr => *args));
            }
            validate_exprs(args, scope, program, context)?;
            validate_method_call(object, method, args, scope, program)?;
        },
        Expr::IndexAccess { object, index } => {
            validate_expr(object, scope, program, context)?;
            validate_expr(index, scope, program, context)?;
            match expr_type(object, scope, program) {
                ExprType::Array { .. } | ExprType::List { .. } => {},
                ExprType::Unknown => {
                    return Err(error("Unknown index access receiver"));
                },
                other => {
                    return Err(error_of(&["Index access requires an Array or List, got ", other.name()]));
                },
            }
            let t = expr_type(index, scope, program);
            if !t.is_int() {
                return Err(error_of(&["Index must be Int, got ", t.name()]));
            }
        },
        Expr::ArrayLiteral(elements) => {
            proof {
                lemma_tys_of_len(elements@, env, p);
            }
            let mut i: usize = 0;
            while i < elements.len()
                invariant
                    *expr == Expr::ArrayLiteral(*elements),
                    i <= elements@.len(),
                    env == scope.env(),
                    p == program.statements@,
                    tys_of(elements@, env, p).len() == elements@.len(),
                    forall|j: int| 0 <= j < elements@.len() ==> #[trigger] tys_of(elements@, env, p)[j] == ty_of(elements@[j], env, p),
                    forall|j: int| 0 <= j < i ==> #[trigger] expr_ok(elements@[j], env, p, context),
                    forall|j: int|
                        0 <= j < i ==> elem_matches(#[trigger] tys_of(elements@, env, p)[j], Subtype::Int),
                decreases elements.len() - i,
            {
                proof {
                    assert(decreases_to!(*expr => (*expr)->ArrayLiteral_0));
                    assert(decreases_to!(*elements => elements@));
                    assert(decreases_to!(elements@ => elements@[i as int]));
                }
                let checked = validate_expr(&elements[i], scope, program, context);
                if checked.is_err() {
                    proof {
                        lemma_exprs_ok(elements@, env, p, context);
                    }
                    return checked;
                }
                if !expr_matches_subtype(&elements[i], Subtype::Int, scope, program) {
                    assert(!elem_matches(tys_of(elements@, env, p)[i as int], Subtype::Int));
                    return Err(error("Type mismatch in array literal: expected element of type Int"));
                }
                i += 1;
            }
            proof {
                lemma_exprs_ok(elements@, env, p, context);
            }
        },
        Expr::ListLiteral(elements) => {
            proof {
                assert(decreases_to!(*expr => *elements));
            }
            validate_exprs(elements, scope, program, context)?;
            if elements.len() != 0 && expr_type(expr, scope, program).is_unknown() {
                return Err(error("List literal elements must have one consistent resolved type"));
            }
        },
        Expr::TupleLiteral(elements) => {
            proof {
                assert(decreases_to!(*expr => *elements));
            }
            validate_exprs(elements, scope, program, context)?;
        },
        Expr::BinaryOp { lhs, rhs, op } => {
            validate_expr(lhs, scope, program, context)?;
            validate_expr(rhs, scope, program, context)?;
            let arithmetic = matches!(
                op,
                BinOp::Add | BinOp::Sub | BinOp::Mul | BinOp::Div | BinOp::Rem | BinOp::Pow
            );
            if arithmetic && numeric_type(expr, scope, program).is_none() {
                let invalid_operand: &Expr = if numeric_type(lhs, scope, program).is_none() {
                    lhs
                } else {
                    rhs
                };
                let t = expr_type(invalid_operand, scope, program);
                if matches!(op, BinOp::Rem) {
                    if str_eq(t.name(), "Float") {
                        return Err(error("Modulo (%) is only supported for integer types"));
                    }
                    return Err(error_of(&["Modulo operator (%) requires integer operands, got ", t.name()]));
                }
                return Err(
                    error_of(
                        &[
                            "Invalid operand type for arithmetic operation: expected Int or Float, got ",
                            t.name(),
                        ],
                    ),
                );
            }
        },
        Expr::UnaryOp { operand, .. } => {
            validate_expr(operand, scope, program, context)?;
            if numeric_type(operand, scope, program).is_none() {
                return Err(
                    error_of(
                        &[
                            "Invalid operand type for unary operation: expected Int or Float, got ",
                            expr_type_name(operand),
                        ],
                    ),
                );
            }
        },
        Expr::MemberAccess { object, member } => {
            validate_expr(object, scope, program, context)?;
            validate_member_access(object, member, scope, program)?;
        },
        Expr::Identifier(name) => {
            if crate::text::contains_char(name.as_str(), '.') && !scope.contains_key(name.as_str()) {
                return Err(error_of(&["shared member access is not allowed: ", name.as_str()]));
            }
        },
        _ => {},
    }
    Ok(())
}

fn validate_member_access(object: &Expr, member: &String, scope: &Scope, program: &Program) -> (r: Result<
    (),
    ForgeError,
>)
    ensures
        r is Ok <==> member_ok(ty_of(*object, scope.env(), program.statements@), member@, program.statements@),
{
    let length = str_eq(member.as_str(), "Length") || str_eq(member.as_str(), "Len");
    match expr_type(object, scope, program) {
        ExprType::Array { .. } if length => Ok(()),
        ExprType::List { .. } if length => Ok(()),
        ExprType::Tuple { fields } => {
            if find_field(&fields, member.as_str()).is_some() {
                Ok(())
            } else {
                Err(error_of(&["Unknown tuple field: ", member.as_str()]))
            }
        },
        ExprType::DataObject { data_name } => {
            if data_member_type(program, data_name.as_str(), member.as_str()).is_some() {
                Ok(())
            } else {
                Err(error_of(&["Unknown Data field: ", member.as_str()]))
            }
        },
        ExprType::Unknown => Err(error("Unknown member access receiver")),
        other => Err(
            error_of(&["Member access requires a tuple, Array, or List, got ", other.name()]),
        ),
    }
}

fn validate_method_call(
    object: &Expr,
    method: &String,
    args: &Vec<Expr>,
    scope: &Scope,
    program: &Program,
) -> (r: Result<(), ForgeError>)
    ensures
        r is Ok <==> method_ok(
            ty_of(*object, scope.env(), program.statements@),
            method@,
            args@,
            scope.env(),
            program.statements@,
        ),
{
    let m = method.as_str();
    let length = str_eq(m, "Length") || str_eq(m, "Len");
    match expr_type(object, scope, program) {
        ExprType::List { element_type: Some(element_type) } => {
            if str_eq(m, "Add") {
                if args.len() != 1 {
                    return Err(error("Add expects 1 argument"));
                }
                if !expr_matches_subtype(&args[0], element_type, scope, program) {
                    return Err(
                        error_of(&["Type mismatch: Add expects element of type ", subtype_name(element_type)]),
                    );
                }
                Ok(())
            } else if str_eq(m, "Remove") || str_eq(m, "RemoveAt") {
                if args.len() != 1 {
                    return Err(error_of(&[m, " expects 1 argument"]));
                }
                let t = expr_type(&args[0], scope, program);
                if !t.is_int() {
                    return Err(error_of(&[m, " index must be Int, got ", t.name()]));
                }
                Ok(())
            } else if length {
                if args.len() == 0 {
                    Ok(())
                } else {
                    Err(error_of(&[m, " expects 0 arguments"]))
                }
            } else {
                Err(error_of(&["Unknown method: ", m]))
            }
        },
        ExprType::List { element_type: None } => {
            if length && args.len() == 0 {
                Ok(())
            } else if length {
                Err(error_of(&[m, " expects 0 arguments"]))
            } else {
                Err(error("Method call requires a list with a known element type"))
            }
        },
        ExprType::Array { .. } => {
            if length && args.len() == 0 {
                Ok(())
            } else if length {
                Err(error_of(&[m, " expects 0 arguments"]))
            } else {
                Err(error_of(&["Method ", m, " requires a Materials receiver"]))
            }
        },
        ExprType::Unknown => Err(error("Unknown method call receiver")),
        _ => Err(error_of(&["Method ", m, " requires an Array or Materials receiver"])),
    }
}

} // verus!
