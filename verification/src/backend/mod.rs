//! Native code generation: which programs the native x86-64 backend handles,
//! and the pipeline from a program to an ELF executable.

pub mod elf;
pub mod x86_64;

use vstd::prelude::*;

use crate::ast::{stmts_shaped, Expr, Program, RetKind, Statement, Subtype, TypeDecl};
use crate::backend::elf::{elf_image, generate_elf64_executable, lemma_lookup_offset_found, lookup_offset};
use crate::backend::x86_64::{
    call_target, calls_resolve, frame_message, function_known, function_sound, inst_compilable,
    offsets_ascending, program_compilable, program_image, program_sound, prologues_at, too_large_message,
    HelperKind, NativeX86Backend,
};
use crate::errors::ForgeError;
use crate::ir::IrProgram;
use crate::lowering::{
    blocks_ok, function_names, ir_function_names, jumps_closed, leading_function, lower, lowered_inst_ok,
    no_input_in, program_straight, too_many_params_message,
};

verus! {

/// Whether a declared type needs the typed backend: floats, arrays, tuples
/// and lists.
pub open spec fn type_needs_typed(t: TypeDecl) -> bool {
    match t {
        TypeDecl::Number(Subtype::Float) => true,
        TypeDecl::Ore(_) => true,
        TypeDecl::OreTuple(_) => true,
        TypeDecl::Materials(_, _) => true,
        _ => false,
    }
}

/// Whether a return kind needs the typed backend.
pub open spec fn ret_needs_typed(r: RetKind) -> bool {
    match r {
        RetKind::Float => true,
        RetKind::Ore(_) => true,
        RetKind::OreTuple(_) => true,
        RetKind::Materials(_, _) => true,
        _ => false,
    }
}

/// Whether an expression needs the typed backend: a float literal, an input
/// expression or a collection literal anywhere in it.
pub open spec fn expr_needs_typed(e: Expr) -> bool
    decreases e,
{
    match e {
        Expr::Number(n) => n.is_float,
        Expr::Input(_) => true,
        Expr::ArrayLiteral(_) => true,
        Expr::TupleLiteral(_) => true,
        Expr::ListLiteral(_) => true,
        Expr::MemberAccess { object, .. } => expr_needs_typed(*object),
        Expr::IndexAccess { object, index } => expr_needs_typed(*object) || expr_needs_typed(
            *index,
        ),
        Expr::BinaryOp { lhs, rhs, .. } => expr_needs_typed(*lhs) || expr_needs_typed(*rhs),
        Expr::UnaryOp { operand, .. } => expr_needs_typed(*operand),
        Expr::Call { args, .. } => exists|i: int|
            0 <= i < args@.len() && expr_needs_typed(#[trigger] args@[i]),
        Expr::NamespaceCall { args, .. } => exists|i: int|
            0 <= i < args@.len() && expr_needs_typed(#[trigger] args@[i]),
        Expr::MethodCall { object, args, .. } => expr_needs_typed(*object) || exists|i: int|
            0 <= i < args@.len() && expr_needs_typed(#[trigger] args@[i]),
        Expr::Str(_) => false,
        Expr::Bool(_) => false,
        Expr::Identifier(_) => false,
    }
}

/// Whether an optional expression needs the typed backend.
pub open spec fn opt_expr_needs_typed(e: Option<Expr>) -> bool {
    match e {
        Some(x) => expr_needs_typed(x),
        None => false,
    }
}

/// Whether a statement needs the typed backend: a declaration of records or
/// objects, an input or for-each statement, or a type or expression that needs
/// it anywhere inside.
pub open spec fn stmt_needs_typed(s: Statement) -> bool
    decreases s,
{
    match s {
        Statement::DataDecl(_) => true,
        Statement::ObjectDecl(_) => true,
        Statement::Input(_) => true,
        Statement::ForEach(_) => true,
        Statement::VarDecl(decl) => type_needs_typed(decl.type_decl) || opt_expr_needs_typed(
            decl.initializer,
        ),
        Statement::FunctionDecl(f) => ret_needs_typed(f.ret_kind) || (exists|i: int|
            0 <= i < f.params@.len() && type_needs_typed(#[trigger] f.params@[i].type_decl)) || (
        exists|i: int| 0 <= i < f.body@.len() && stmt_needs_typed(#[trigger] f.body@[i])),
        Statement::Print(p) => expr_needs_typed(p.expr),
        Statement::If(node) => (exists|i: int|
            0 <= i < node.branches@.len() && (expr_needs_typed(#[trigger] node.branches@[i].0)
                || exists|j: int|
                0 <= j < node.branches@[i].1@.len() && stmt_needs_typed(
                    #[trigger] node.branches@[i].1@[j],
                ))) || match node.else_body {
            Some(body) => exists|j: int| 0 <= j < body@.len() && stmt_needs_typed(#[trigger] body@[j]),
            None => false,
        },
        Statement::While(node) => expr_needs_typed(node.condition) || exists|j: int|
            0 <= j < node.body@.len() && stmt_needs_typed(#[trigger] node.body@[j]),
        Statement::For(node) => type_needs_typed(node.init.type_decl) || opt_expr_needs_typed(
            node.init.initializer,
        ) || expr_needs_typed(node.condition) || exists|j: int|
            0 <= j < node.body@.len() && stmt_needs_typed(#[trigger] node.body@[j]),
        Statement::Return(value) => opt_expr_needs_typed(value),
        Statement::Assignment(a) => expr_needs_typed(a.value),
        Statement::ExprStmt(e) => expr_needs_typed(e),
        Statement::Stop => false,
        Statement::Skip => false,
        Statement::Use(_) => false,
        Statement::Using(_) => false,
    }
}

/// Whether a program needs the typed backend.
pub open spec fn program_needs_typed(p: Program) -> bool {
    exists|i: int| 0 <= i < p.statements@.len() && stmt_needs_typed(#[trigger] p.statements@[i])
}

/// Whether a declared type needs the typed backend.
pub fn type_requires_typed_backend(ty: &TypeDecl) -> (r: bool)
    ensures
        r == type_needs_typed(*ty),
{
    match ty {
        TypeDecl::Number(Subtype::Float) => true,
        TypeDecl::Ore(_) | TypeDecl::OreTuple(_) | TypeDecl::Materials(_, _) => true,
        _ => false,
    }
}

/// Whether a return kind needs the typed backend.
pub fn return_requires_typed_backend(ret: &RetKind) -> (r: bool)
    ensures
        r == ret_needs_typed(*ret),
{
    match ret {
        RetKind::Float | RetKind::Ore(_) | RetKind::OreTuple(_) | RetKind::Materials(_, _) => true,
        _ => false,
    }
}

fn any_expr_requires_typed_backend(args: &Vec<Expr>) -> (r: bool)
    ensures
        r == exists|i: int| 0 <= i < args@.len() && expr_needs_typed(#[trigger] args@[i]),
    decreases args@,
{
    let mut i: usize = 0;
    while i < args.len()
        invariant
            i <= args@.len(),
            forall|j: int| 0 <= j < i ==> !expr_needs_typed(#[trigger] args@[j]),
        decreases args.len() - i,
    {
        proof {
            assert(decreases_to!(args@ => args@[i as int]));
        }
        if expr_requires_typed_backend(&args[i]) {
            return true;
        }
        i += 1;
    }
    false
}

/// Whether an expression needs the typed backend.
pub fn expr_requires_typed_backend(expr: &Expr) -> (r: bool)
    ensures
        r == expr_needs_typed(*expr),
    decreases expr,
{
    match expr {
        Expr::Number(number) => number.is_float,
        Expr::Input(_) => true,
        Expr::ArrayLiteral(_) | Expr::TupleLiteral(_) | Expr::ListLiteral(_) => true,
        Expr::MemberAccess { object, .. } => expr_requires_typed_backend(object),
        Expr::IndexAccess { object, index } => expr_requires_typed_backend(object)
            || expr_requires_typed_backend(index),
        Expr::BinaryOp { lhs, rhs, .. } => expr_requires_typed_backend(lhs)
            || expr_requires_typed_backend(rhs),
        Expr::UnaryOp { operand, .. } => expr_requires_typed_backend(operand),
        Expr::Call { args, .. } => {
            proof {
                assert(decreases_to!(*expr => *args));
            }
            any_expr_requires_typed_backend(args)
        },
        Expr::NamespaceCall { args, .. } => {
            proof {
                assert(decreases_to!(*expr => *args));
            }
            any_expr_requires_typed_backend(args)
        },
        Expr::MethodCall { object, args, .. } => {
            proof {
                assert(decreases_to!(*expr => *args));
            }
            expr_requires_typed_backend(object) || any_expr_requires_typed_backend(args)
        },
        Expr::Str(_) | Expr::Bool(_) | Expr::Identifier(_) => false,
    }
}

fn opt_expr_requires_typed_backend(e: &Option<Expr>) -> (r: bool)
    ensures
        r == opt_expr_needs_typed(*e),
{
    match e {
        Some(x) => expr_requires_typed_backend(x),
        None => false,
    }
}

fn body_requires_typed_backend(body: &Vec<Statement>) -> (r: bool)
    ensures
        r == exists|i: int| 0 <= i < body@.len() && stmt_needs_typed(#[trigger] body@[i]),
    decreases body@,
{
    let mut i: usize = 0;
    while i < body.len()
        invariant
            i <= body@.len(),
            forall|j: int| 0 <= j < i ==> !stmt_needs_typed(#[trigger] body@[j]),
        decreases body.len() - i,
    {
        proof {
            assert(decreases_to!(body@ => body@[i as int]));
        }
        if statement_requires_typed_backend(&body[i]) {
            return true;
        }
        i += 1;
    }
    false
}

/// Whether a statement needs the typed backend.
pub fn statement_requires_typed_backend(statement: &Statement) -> (r: bool)
    ensures
        r == stmt_needs_typed(*statement),
    decreases statement,
{
    match statement {
        Statement::DataDecl(_) | Statement::ObjectDecl(_) => true,
        Statement::Input(_) | Statement::ForEach(_) => true,
        Statement::VarDecl(decl) => type_requires_typed_backend(&decl.type_decl)
            || opt_expr_requires_typed_backend(&decl.initializer),
        Statement::FunctionDecl(function) => {
            if return_requires_typed_backend(&function.ret_kind) {
                return true;
            }
            let mut i: usize = 0;
            while i < function.params.len()
                invariant
                    i <= function.params@.len(),
                    *statement == Statement::FunctionDecl(*function),
                    forall|j: int| 0 <= j < i ==> !type_needs_typed(#[trigger] function.params@[j].type_decl),
                decreases function.params.len() - i,
            {
                if type_requires_typed_backend(&function.params[i].type_decl) {
                    assert(type_needs_typed(function.params@[i as int].type_decl));
                    return true;
                }
                i += 1;
            }
            proof {
                assert(decreases_to!(*statement => function.body));
            }
            body_requires_typed_backend(&function.body)
        },
        Statement::Print(print) => expr_requires_typed_backend(&print.expr),
        Statement::If(node) => {
            let mut i: usize = 0;
            while i < node.branches.len()
                invariant
                    i <= node.branches@.len(),
                    *statement == Statement::If(*node),
                    forall|j: int| 0 <= j < i ==> !expr_needs_typed(#[trigger] node.branches@[j].0),
                    forall|j: int, k: int|
                        0 <= j < i && 0 <= k < node.branches@[j].1@.len() ==> !stmt_needs_typed(
                            #[trigger] node.branches@[j].1@[k],
                        ),
                decreases node.branches.len() - i,
            {
                proof {
                    assert(decreases_to!(*statement => (*statement)->If_0));
                    assert(decreases_to!(*node => node.branches));
                    assert(decreases_to!(node.branches => node.branches@));
                    assert(decreases_to!(node.branches@ => node.branches@[i as int]));
                    assert(decreases_to!(node.branches@[i as int] => node.branches@[i as int].1));
                    assert(decreases_to!(node.branches@[i as int] => node.branches@[i as int].0));
                }
                let cond = expr_requires_typed_backend(&node.branches[i].0);
                if cond {
                    return true;
                }
                let inner = body_requires_typed_backend(&node.branches[i].1);
                if inner {
                    return true;
                }
                i += 1;
            }
            match &node.else_body {
                Some(body) => {
                    proof {
                        assert(decreases_to!(*statement => node.else_body));
                    }
                    body_requires_typed_backend(body)
                },
                None => false,
            }
        },
        Statement::While(node) => {
            proof {
                assert(decreases_to!(*statement => node.body));
            }
            expr_requires_typed_backend(&node.condition) || body_requires_typed_backend(&node.body)
        },
        Statement::For(node) => {
            proof {
                assert(decreases_to!(*statement => node.body));
            }
            type_requires_typed_backend(&node.init.type_decl) || opt_expr_requires_typed_backend(
                &node.init.initializer,
            ) || expr_requires_typed_backend(&node.condition) || body_requires_typed_backend(
                &node.body,
            )
        },
        Statement::Return(value) => opt_expr_requires_typed_backend(value),
        Statement::Assignment(assignment) => expr_requires_typed_backend(&assignment.value),
        Statement::ExprStmt(expr) => expr_requires_typed_backend(expr),
        Statement::Stop | Statement::Skip | Statement::Use(_) | Statement::Using(_) => false,
    }
}

/// Whether a program needs the typed backend: the native backend handles
/// integer, boolean and string code only.
pub fn requires_typed_backend(program: &Program) -> (r: bool)
    ensures
        r == program_needs_typed(*program),
{
    let mut i: usize = 0;
    while i < program.statements.len()
        invariant
            i <= program.statements@.len(),
            forall|j: int| 0 <= j < i ==> !stmt_needs_typed(#[trigger] program.statements@[j]),
        decreases program.statements.len() - i,
    {
        if statement_requires_typed_backend(&program.statements[i]) {
            return true;
        }
        i += 1;
    }
    false
}

/// Every call of a lowered program names one of its functions, so the native
/// backend resolves all of them.
pub proof fn lemma_lowered_calls_resolve(ir: IrProgram)
    requires
        forall|g: int|
            0 <= g < ir.functions@.len() ==> blocks_ok(
                (#[trigger] ir.functions@[g]).blocks@,
                ir_function_names(ir),
            ),
    ensures
        calls_resolve(ir, seq![]),
{
    assert forall|g: int, b: int, i: int|
        0 <= g < ir.functions@.len() && 0 <= b < ir.functions@[g].blocks@.len() && 0 <= i
            < ir.functions@[g].blocks@[b].insts@.len() && (#[trigger] ir.functions@[g].blocks@[
            b].insts@[i]) is Call implies function_known(
        ir,
        seq![],
        call_target(ir.functions@[g].blocks@[b].insts@[i])->0,
    ) by {
        let inst = ir.functions@[g].blocks@[b].insts@[i];
        assert(blocks_ok(ir.functions@[g].blocks@, ir_function_names(ir)));
        assert(lowered_inst_ok(inst, ir_function_names(ir)));
        let name = call_target(inst)->0;
        let h = choose|h: int| 0 <= h < ir_function_names(ir).len() && ir_function_names(ir)[h] == name;
        assert(ir.functions@[h].name@ == name);
    }
}

/// The diagnostic for a program the native backend leaves to the typed one.
pub open spec fn typed_backend_message() -> Seq<char> {
    "This program needs the typed backend (floats, collections, records or input statements)"@
}

/// The diagnostic for native code too large to be wrapped in an ELF image.
pub open spec fn elf_too_large_message() -> Seq<char> {
    "Program is too large for an ELF image"@
}

/// Whether a diagnostic reports a machine limit: a function whose frame is
/// beyond the reach of 32-bit displacements or whose positions cannot be
/// counted in a `usize`, or native code too large for an ELF image.
pub open spec fn machine_limit_message(m: Seq<char>) -> bool {
    ||| exists|name: Seq<char>| #[trigger] frame_message(name) == m
    ||| exists|name: Seq<char>| #[trigger] too_large_message(name) == m
    ||| m == elf_too_large_message()
}

/// What the native backend made of a lowered program: every function of it
/// compiled, one offset per function in order, each function starting with
/// the prologue, and the code laid out as `program_image` says.
pub open spec fn native_build(ir: IrProgram, code: Seq<u8>, offsets: Seq<(String, usize)>) -> bool {
    &&& program_compilable(ir, seq![])
    &&& offsets.len() == ir.functions@.len()
    &&& forall|g: int| 0 <= g < ir.functions@.len() ==> (#[trigger] offsets[g]).0@ == ir.functions@[g].name@
    &&& offsets_ascending(offsets, 0, ir.functions@.len() as int, 0)
    &&& prologues_at(code, offsets, 0, ir.functions@.len() as int)
    &&& exists|routines: int, calls: Seq<(usize, String)>, helpers: Seq<(usize, HelperKind)>|
        program_image(code, offsets, ir, 0, routines, calls, helpers)
}

/// Lowered code whose instructions satisfy `lowered_inst_ok`, whose jumps
/// stay inside their functions and which reads no input is sound for the
/// native backend.
proof fn lemma_lowered_sound(ir: IrProgram)
    requires
        forall|g: int|
            0 <= g < ir.functions@.len() ==> blocks_ok(
                (#[trigger] ir.functions@[g]).blocks@,
                ir_function_names(ir),
            ),
        forall|g: int| 0 <= g < ir.functions@.len() ==> jumps_closed(#[trigger] ir.functions@[g]),
        forall|g: int, b: int|
            0 <= g < ir.functions@.len() && 0 <= b < ir.functions@[g].blocks@.len() ==> no_input_in(
                #[trigger] ir.functions@[g].blocks@[b].insts@,
            ),
    ensures
        program_sound(ir, seq![]),
{
    lemma_lowered_calls_resolve(ir);
    assert forall|g: int| 0 <= g < ir.functions@.len() implies function_sound(#[trigger] ir.functions@[g]) by {
        let f = ir.functions@[g];
        assert(blocks_ok(f.blocks@, ir_function_names(ir)));
        assert(jumps_closed(f));
        assert forall|b: int, i: int|
            0 <= b < f.blocks@.len() && 0 <= i < f.blocks@[b].insts@.len() implies inst_compilable(
            #[trigger] f.blocks@[b].insts@[i],
        ) by {
            assert(lowered_inst_ok(f.blocks@[b].insts@[i], ir_function_names(ir)));
            assert(no_input_in(ir.functions@[g].blocks@[b].insts@));
        }
    }
}

/// The frame and size diagnostics of a function are machine limits.
proof fn lemma_limit_message(ir: IrProgram, m: Seq<char>)
    requires
        exists|g: int|
            0 <= g < ir.functions@.len() && (m == frame_message(#[trigger] ir.functions@[g].name@) || m
                == too_large_message(ir.functions@[g].name@)),
    ensures
        machine_limit_message(m),
{
    let g = choose|g: int|
        0 <= g < ir.functions@.len() && (m == frame_message(#[trigger] ir.functions@[g].name@) || m
            == too_large_message(ir.functions@[g].name@));
    if m == frame_message(ir.functions@[g].name@) {
        assert(frame_message(ir.functions@[g].name@) == m);
    } else {
        assert(too_large_message(ir.functions@[g].name@) == m);
    }
}

/// Compiles a program with the native backend to a static ELF executable.
///
/// Programs with floats, collections, records or input statements need the
/// typed backend and are refused; a program without a `Main` function is
/// refused as lowering refuses it. A program of straight-line functions
/// with a `Main` compiles, unless it reaches a machine limit.
#[verifier::rlimit(60)]
pub fn compile_to_elf(program: &Program) -> (r: Result<Vec<u8>, ForgeError>)
    ensures
        program_needs_typed(*program) ==> (r matches Err(e) && e.message@ == typed_backend_message()),
        !program_needs_typed(*program) && !function_names(program.statements@).contains("Main"@) ==> (
        r matches Err(e) && e.message@ == "No Main function found"@),
        !program_needs_typed(*program) && function_names(program.statements@).contains("Main"@)
            && program_straight(*program) && stmts_shaped(program.statements@) ==> (r is Ok || (r matches Err(
            e) && machine_limit_message(e.message@))),
        !program_needs_typed(*program) && function_names(program.statements@).contains("Main"@)
            && leading_function(*program) is Some && leading_function(*program)->0.params@.len() > 6 ==> (
        r matches Err(e) && e.message@ == too_many_params_message(
            leading_function(*program)->0.name@,
            leading_function(*program)->0.params@.len(),
        )),
        r matches Ok(bytes) ==> {
            &&& !program_needs_typed(*program)
            &&& function_names(program.statements@).contains("Main"@)
            &&& forall|i: int|
                0 <= i < program.statements@.len() ==> (#[trigger] program.statements@[i] matches Statement::FunctionDecl(
                    f,
                ) ==> f.params@.len() <= 6)
            &&& exists|ir: IrProgram, code: Seq<u8>, offsets: Seq<(String, usize)>|
                {
                    &&& ir_function_names(ir) == function_names(program.statements@)
                    &&& native_build(ir, code, offsets)
                    &&& lookup_offset(offsets, "Main"@) is Some
                    &&& bytes@ == elf_image(code, lookup_offset(offsets, "Main"@)->0 as nat)
                }
        },
{
    if requires_typed_backend(program) {
        return Err(ForgeError::codegen(crate::text::owned(
            "This program needs the typed backend (floats, collections, records or input statements)",
        )));
    }
    let ghost plain = function_names(program.statements@).contains("Main"@) && program_straight(*program)
        && stmts_shaped(program.statements@);
    let ir = match lower(program) {
        Ok(ir) => ir,
        Err(e) => {
            return Err(e);
        },
    };
    proof {
        if plain {
            lemma_lowered_sound(ir);
        }
    }
    let backend = NativeX86Backend::new();
    assert(backend.func_offsets@ =~= seq![]);
    let ghost b0 = backend;
    let (user_code, func_offsets) = match backend.compile_program(&ir) {
        Ok(built) => built,
        Err(e) => {
            proof {
                if plain {
                    lemma_limit_message(ir, e.message@);
                }
            }
            return Err(e);
        },
    };
    if user_code.len() > usize::MAX - 2000 {
        return Err(ForgeError::codegen(crate::text::owned("Program is too large for an ELF image")));
    }
    proof {
        lemma_lookup_offset_found(func_offsets@, "Main"@);
        let j = choose|j: int|
            0 <= j < ir_function_names(ir).len() && ir_function_names(ir)[j] == "Main"@;
        assert(func_offsets@[0 + j].0@ == ir.functions@[j].name@);
        assert(func_offsets@[j].0@ == "Main"@);
        assert(func_offsets@ =~= func_offsets@.subrange(0, func_offsets@.len() as int));
    }
    let r = generate_elf64_executable(user_code.as_slice(), &func_offsets);
    proof {
        if r is Ok {
            let (rt, cl, hp) = choose|routines: int, calls: Seq<(usize, String)>, helpers: Seq<(usize, HelperKind)>|
                program_image(user_code@, func_offsets@, ir, 0, routines, calls, helpers);
            assert(program_compilable(ir, seq![]));
            assert(func_offsets@.len() == ir.functions@.len());
            assert forall|g: int| 0 <= g < ir.functions@.len() implies (#[trigger] func_offsets@[g]).0@
                == ir.functions@[g].name@ by {
                assert(func_offsets@[b0.func_offsets@.len() + g].0@ == ir.functions@[g].name@);
            }
            assert(offsets_ascending(func_offsets@, 0, ir.functions@.len() as int, 0));
            assert(prologues_at(user_code@, func_offsets@, 0, ir.functions@.len() as int));
            assert(program_image(user_code@, func_offsets@, ir, 0, rt, cl, hp));
            assert(native_build(ir, user_code@, func_offsets@));
        }
    }
    r
}

} // verus!
