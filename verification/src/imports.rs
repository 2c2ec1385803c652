//! Modules of a program and the resolution of `Use` / `Using` imports.
//!
//! Each source file is a module named by its file stem. `Use A.B` makes the
//! module's public symbols callable as `A.B.Name(..)`; `Using A: Name` makes
//! one public symbol usable directly. Resolution renames every top-level
//! function and `Data` declaration to a module-qualified name, rewrites the
//! uses, and orders the modules so that each comes after the modules it
//! imports.

use vstd::prelude::*;

use crate::ast::{
    AssignmentNode, AssignmentTarget, Expr, ForEachNode, ForNode, FunctionDecl, IfNode, Modifier,
    ObjectDecl, PrintNode, Program, Statement, UseNode, UsingNode, VarDecl, WhileNode,
};
use crate::errors::ForgeError;
use crate::paths::{components_of, file_stem_of, path_components, path_file_stem};
use crate::project::ProjectSource;
use crate::semantic::first_some;
use crate::text::{append, concat, decimal, decimal_string, owned, str_eq};
use vstd::utf8::{
    decode_utf8, encode_utf8, is_char_boundary, is_continuation_byte, length_of_first_scalar,
    pop_first_scalar, valid_utf8,
};

verus! {

/// One module: its name, where it was read from, its path relative to the
/// project root, and its syntax tree.
#[derive(Debug)]
pub struct ModuleSource {
    pub name: String,
    pub path: String,
    pub relative_path: String,
    pub program: Program,
}

/// The names of a sequence of modules.
pub open spec fn module_names(ms: Seq<ModuleSource>) -> Seq<Seq<char>> {
    ms.map_values(|m: ModuleSource| m.name@)
}

/// Whether no name occurs twice.
pub open spec fn names_distinct(names: Seq<Seq<char>>) -> bool {
    forall|i: int, j: int| 0 <= i < j < names.len() ==> names[i] != names[j]
}

/// Whether `j` repeats the name of the earlier module `i`, and no repetition
/// occurs before `j`.
pub open spec fn first_repeat(names: Seq<Seq<char>>, i: int, j: int) -> bool {
    0 <= i < j < names.len() && names[i] == names[j] && names_distinct(names.take(j))
}

/// The diagnostic for two modules with one name.
pub open spec fn duplicate_module_message(first: ModuleSource, second: ModuleSource) -> Seq<char> {
    "duplicate module name '"@ + second.name@ + "': '"@ + first.path@ + "' and '"@ + second.path@
        + "'"@
}

/// The modules of a program, with distinct names.
#[derive(Debug)]
pub struct ModuleTable {
    modules: Vec<ModuleSource>,
}

impl ModuleTable {
    /// The modules, in order.
    pub closed spec fn entries(self) -> Seq<ModuleSource> {
        self.modules@
    }

    /// Whether the modules' names are distinct.
    pub open spec fn wf(self) -> bool {
        names_distinct(module_names(self.entries()))
    }

    /// The table of the given modules; two modules with one name are an error.
    pub fn new(modules: Vec<ModuleSource>) -> (r: Result<Self, ForgeError>)
        ensures
            match r {
                Ok(t) => t.entries() == modules@ && t.wf(),
                Err(e) => exists|i: int, j: int|
                    first_repeat(module_names(modules@), i, j) && e.message@
                        == duplicate_module_message(modules@[i], modules@[j]) && e.line == 0
                        && e.col == 0,
            },
    {
        let ghost names = module_names(modules@);
        let mut j: usize = 0;
        while j < modules.len()
            invariant
                names == module_names(modules@),
                j <= modules@.len(),
                names_distinct(names.take(j as int)),
            decreases modules.len() - j,
        {
            let mut i: usize = 0;
            while i < j
                invariant
                    names == module_names(modules@),
                    i <= j < modules@.len(),
                    names_distinct(names.take(j as int)),
                    forall|k: int| 0 <= k < i ==> names[k] != names[j as int],
                decreases j - i,
            {
                if str_eq(modules[i].name.as_str(), modules[j].name.as_str()) {
                    let mut m = concat("duplicate module name '", modules[j].name.as_str());
                    append(&mut m, "': '");
                    append(&mut m, modules[i].path.as_str());
                    append(&mut m, "' and '");
                    append(&mut m, modules[j].path.as_str());
                    append(&mut m, "'");
                    proof {
                        assert(first_repeat(names, i as int, j as int));
                    }
                    return Err(ForgeError::parse(m));
                }
                i += 1;
            }
            proof {
                let t = names.take(j + 1);
                assert forall|a: int, b: int| 0 <= a < b < t.len() implies #[trigger] t[a] != #[trigger] t[b] by {
                    if b < j {
                        assert(names.take(j as int)[a] != names.take(j as int)[b]);
                    }
                }
            }
            j += 1;
        }
        proof {
            assert(names.take(modules@.len() as int) =~= names);
        }
        Ok(ModuleTable { modules })
    }
}

/// The diagnostic for a path without a file stem.
pub open spec fn invalid_importer_path_message(path: Seq<char>) -> Seq<char> {
    "invalid module path '"@ + path + "'"@
}

/// The name of the module read from `path`: its file stem.
pub fn module_name(path: &str) -> (r: Result<String, ForgeError>)
    ensures
        match r {
            Ok(n) => path_file_stem(path@) == Some(n@),
            Err(e) => path_file_stem(path@) is None && e.message@ == invalid_importer_path_message(
                path@,
            ) && e.line == 0 && e.col == 0,
        },
{
    match file_stem_of(path) {
        Some(stem) => Ok(stem),
        None => {
            let mut m = concat("invalid module path '", path);
            append(&mut m, "'");
            Err(ForgeError::parse(m))
        },
    }
}

/// Whether every source path has a file stem.
pub open spec fn all_stems(sources: Seq<ProjectSource>) -> bool {
    forall|i: int| 0 <= i < sources.len() ==> (#[trigger] path_file_stem(sources[i].path@)) is Some
}

/// The module names of project sources that all have file stems.
pub open spec fn source_module_names(sources: Seq<ProjectSource>) -> Seq<Seq<char>> {
    sources.map_values(|s: ProjectSource| path_file_stem(s.path@)->0)
}

impl ModuleTable {
    /// The modules of a project, one per source file, named by file stem.
    pub fn from_project(sources: Vec<ProjectSource>) -> (r: Result<Self, ForgeError>)
        ensures
            match r {
                Ok(t) => t.wf() && all_stems(sources@) && t.entries().len() == sources@.len() && forall|
                    i: int,
                | 0 <= i < sources@.len() ==> {
                    &&& (#[trigger] t.entries()[i]).name@ == source_module_names(sources@)[i]
                    &&& t.entries()[i].path == sources@[i].path
                    &&& t.entries()[i].relative_path == sources@[i].relative_path
                    &&& t.entries()[i].program == sources@[i].program
                },
                Err(e) => !all_stems(sources@) || !names_distinct(source_module_names(sources@)),
            },
    {
        let ghost original = sources@;
        let mut rest = sources;
        let mut modules: Vec<ModuleSource> = Vec::new();
        let mut failure: Option<ForgeError> = None;
        while rest.len() > 0 && failure.is_none()
            invariant
                failure is None ==> modules@.len() + rest@.len() == original.len() && rest@
                    == original.skip(modules@.len() as int),
                modules@.len() <= original.len(),
                forall|i: int|
                    0 <= i < modules@.len() ==> {
                        &&& path_file_stem(original[i].path@) == Some((#[trigger] modules@[i]).name@)
                        &&& modules@[i].path == original[i].path
                        &&& modules@[i].relative_path == original[i].relative_path
                        &&& modules@[i].program == original[i].program
                    },
                failure is Some ==> modules@.len() < original.len() && path_file_stem(
                    original[modules@.len() as int].path@,
                ) is None,
            decreases rest.len(),
        {
            let k = modules.len();
            let source = rest.remove(0);
            assert(source == original[k as int]);
            match module_name(source.path.as_str()) {
                Ok(name) => {
                    let ProjectSource { path, relative_path, source: _, program } = source;
                    modules.push(ModuleSource { name, path, relative_path, program });
                    proof {
                        assert(rest@ =~= original.skip(modules@.len() as int));
                    }
                },
                Err(e) => {
                    failure = Some(e);
                },
            }
        }
        match failure {
            Some(e) => {
                proof {
                    let k = modules@.len() as int;
                    assert(path_file_stem(original[k].path@) is None);
                    assert(!all_stems(original));
                }
                return Err(e);
            },
            None => {},
        }
        let ghost built = modules@;
        proof {
            assert forall|i: int| 0 <= i < original.len() implies (#[trigger] path_file_stem(
                original[i].path@,
            )) is Some by {
                assert(path_file_stem(original[i].path@) == Some(built[i].name@));
            }
            assert(all_stems(original));
            assert(module_names(built) =~= source_module_names(original));
        }
        match Self::new(modules) {
            Ok(t) => Ok(t),
            Err(e) => Err(e),
        }
    }

    /// The modules, in order.
    pub fn modules(&self) -> (r: &[ModuleSource])
        ensures
            r@ == self.entries(),
    {
        self.modules.as_slice()
    }

    /// The module named `name`, if there is one.
    pub fn get(&self, name: &str) -> (r: Option<&ModuleSource>)
        ensures
            match r {
                Some(m) => exists|i: int|
                    0 <= i < self.entries().len() && self.entries()[i] == *m && m.name@ == name@,
                None => forall|i: int|
                    0 <= i < self.entries().len() ==> (#[trigger] self.entries()[i]).name@ != name@,
            },
    {
        let mut i: usize = 0;
        while i < self.modules.len()
            invariant
                i <= self.modules@.len(),
                forall|k: int| 0 <= k < i ==> (#[trigger] self.modules@[k]).name@ != name@,
            decreases self.modules.len() - i,
        {
            if str_eq(self.modules[i].name.as_str(), name) {
                assert(self.entries()[i as int] == self.modules@[i as int]);
                return Some(&self.modules[i]);
            }
            i += 1;
        }
        None
    }

    /// The position of the module named `name`, if there is one.
    fn index_of(&self, name: &str) -> (r: Option<usize>)
        ensures
            match r {
                Some(i) => i < self.entries().len() && self.entries()[i as int].name@ == name@,
                None => forall|i: int|
                    0 <= i < self.entries().len() ==> (#[trigger] self.entries()[i]).name@ != name@,
            },
    {
        let mut i: usize = 0;
        while i < self.modules.len()
            invariant
                i <= self.modules@.len(),
                forall|k: int| 0 <= k < i ==> (#[trigger] self.modules@[k]).name@ != name@,
            decreases self.modules.len() - i,
        {
            if str_eq(self.modules[i].name.as_str(), name) {
                return Some(i);
            }
            i += 1;
        }
        None
    }
}

/// What a top-level declaration declares.
#[derive(Debug, Clone, Copy, PartialEq, Eq, Structural)]
pub enum SymbolKind {
    Function,
    Data,
}

/// A top-level declaration of a module: its name, the name it has in the
/// resolved program, whether other modules may import it, and its kind.
#[derive(Debug)]
pub struct ModuleSymbol {
    pub name: String,
    pub mangled_name: String,
    pub is_public: bool,
    pub kind: SymbolKind,
}

/// The declaration a statement makes, if it is a function or `Data` declaration.
pub open spec fn declared(s: Statement) -> Option<(Seq<char>, Option<Modifier>, SymbolKind)> {
    match s {
        Statement::FunctionDecl(f) => Some((f.name@, f.modifier, SymbolKind::Function)),
        Statement::DataDecl(d) => Some((d.name@, d.modifier, SymbolKind::Data)),
        _ => None,
    }
}

/// The declarations of a sequence of statements, in order.
pub open spec fn declarations(stmts: Seq<Statement>) -> Seq<(Seq<char>, Option<Modifier>, SymbolKind)>
    decreases stmts.len(),
{
    if stmts.len() == 0 {
        seq![]
    } else {
        let rest = declarations(stmts.drop_last());
        match declared(stmts.last()) {
            Some(d) => rest.push(d),
            None => rest,
        }
    }
}

/// The module-qualified name of `symbol` in `module`: the module's length in
/// bytes, the module and the symbol.
pub open spec fn mangled_text(module: Seq<char>, symbol: Seq<char>) -> Seq<char> {
    "__forge_m"@ + decimal(encode_utf8(module).len()) + "_"@ + module + "_"@ + symbol
}

/// The name a declaration has in the resolved program: `Main` stays `Main`.
pub open spec fn resolved_name(module: Seq<char>, name: Seq<char>, kind: SymbolKind) -> Seq<char> {
    if kind == SymbolKind::Function && name == "Main"@ {
        "Main"@
    } else {
        mangled_text(module, name)
    }
}

/// The symbol a declaration of `module` gives.
pub open spec fn symbol_of(module: Seq<char>, d: (Seq<char>, Option<Modifier>, SymbolKind)) -> (
    Seq<char>,
    Seq<char>,
    bool,
    SymbolKind,
) {
    (d.0, resolved_name(module, d.0, d.2), d.1 == Some(Modifier::Open), d.2)
}

/// A symbol as plain values.
pub open spec fn symbol_view(s: ModuleSymbol) -> (Seq<char>, Seq<char>, bool, SymbolKind) {
    (s.name@, s.mangled_name@, s.is_public, s.kind)
}

/// The symbols of a module, as plain values.
pub open spec fn symbols_view(syms: Seq<ModuleSymbol>) -> Seq<(Seq<char>, Seq<char>, bool, SymbolKind)> {
    syms.map_values(|s: ModuleSymbol| symbol_view(s))
}

/// Whether a module's declarations have distinct names.
pub open spec fn declarations_distinct(ds: Seq<(Seq<char>, Option<Modifier>, SymbolKind)>) -> bool {
    forall|a: int, b: int| 0 <= a < b < ds.len() ==> ds[a].0 != ds[b].0
}

/// Whether a module declares a function `Main`.
pub open spec fn declares_main(ds: Seq<(Seq<char>, Option<Modifier>, SymbolKind)>) -> bool {
    exists|k: int| 0 <= k < ds.len() && ds[k].0 == "Main"@ && ds[k].2 == SymbolKind::Function
}

/// The declarations of module `i` of a table.
pub open spec fn module_declarations(ms: Seq<ModuleSource>, i: int) -> Seq<(Seq<char>, Option<Modifier>, SymbolKind)> {
    declarations(ms[i].program.statements@)
}

/// Whether the modules' declarations can be named: each module's names are
/// distinct and at most one module declares `Main`.
pub open spec fn symbols_ok(ms: Seq<ModuleSource>) -> bool {
    &&& forall|i: int| 0 <= i < ms.len() ==> declarations_distinct(#[trigger] module_declarations(ms, i))
    &&& forall|i: int, j: int|
        0 <= i < j < ms.len() ==> !(declares_main(#[trigger] module_declarations(ms, i))
            && declares_main(#[trigger] module_declarations(ms, j)))
}

/// The module-qualified name of `symbol` in `module`.
pub fn mangle_symbol(module: &str, symbol: &str) -> (r: String)
    ensures
        r@ == mangled_text(module@, symbol@),
{
    let width = module.as_bytes().len();
    let mut r = concat("__forge_m", decimal_string(width as u64).as_str());
    append(&mut r, "_");
    append(&mut r, module);
    append(&mut r, "_");
    append(&mut r, symbol);
    r
}

/// The symbols of one module, built from its statements.
fn module_symbols(module: &ModuleSource, earlier_main: Option<&String>) -> (r: Result<
    Vec<ModuleSymbol>,
    ForgeError,
>)
    ensures
        match r {
            Ok(syms) => declarations_distinct(declarations(module.program.statements@)) && (
            earlier_main is Some ==> !declares_main(declarations(module.program.statements@)))
                && symbols_view(
                syms@,
            ) == declarations(module.program.statements@).map_values(
                |d: (Seq<char>, Option<Modifier>, SymbolKind)| symbol_of(module.name@, d),
            ),
            Err(e) => !declarations_distinct(declarations(module.program.statements@)) || (
            earlier_main is Some && declares_main(declarations(module.program.statements@))),
        },
{
    let stmts = &module.program.statements;
    let ghost mname = module.name@;
    let mut syms: Vec<ModuleSymbol> = Vec::new();
    let mut k: usize = 0;
    while k < stmts.len()
        invariant
            k <= stmts@.len(),
            mname == module.name@,
            stmts@ == module.program.statements@,
            declarations_distinct(declarations(stmts@.take(k as int))),
            earlier_main is Some ==> !declares_main(declarations(stmts@.take(k as int))),
            symbols_view(syms@) == declarations(stmts@.take(k as int)).map_values(
                |d: (Seq<char>, Option<Modifier>, SymbolKind)| symbol_of(mname, d),
            ),
        decreases stmts.len() - k,
    {
        let ghost before = declarations(stmts@.take(k as int));
        assert(syms@.len() == before.len()) by {
            assert(symbols_view(syms@).len() == syms@.len());
        }
        proof {
            assert(stmts@.take(k + 1).drop_last() =~= stmts@.take(k as int));
            assert(stmts@.take(k + 1).last() == stmts@[k as int]);
        }
        let (name, modifier, kind) = match &stmts[k] {
            Statement::FunctionDecl(f) => (&f.name, f.modifier, SymbolKind::Function),
            Statement::DataDecl(d) => (&d.name, d.modifier, SymbolKind::Data),
            _ => {
                k += 1;
                continue;
            },
        };
        let ghost d = (name@, modifier, kind);
        assert(declarations(stmts@.take(k + 1)) == before.push(d));
        let mut j: usize = 0;
        while j < syms.len()
            invariant
                j <= syms@.len(),
                k < stmts@.len(),
                stmts@ == module.program.statements@,
                syms@.len() == before.len(),
                declarations(stmts@.take(k + 1)) == before.push(d),
                d == (name@, modifier, kind),
                symbols_view(syms@) == before.map_values(
                    |d: (Seq<char>, Option<Modifier>, SymbolKind)| symbol_of(mname, d),
                ),
                forall|x: int| 0 <= x < j ==> (#[trigger] before[x]).0 != name@,
            decreases syms.len() - j,
        {
            assert(symbols_view(syms@)[j as int] == symbol_of(mname, before[j as int]));
            if str_eq(syms[j].name.as_str(), name.as_str()) {
                proof {
                    let after = declarations(stmts@.take(k + 1));
                    assert(after[j as int].0 == after[before.len() as int].0);
                    lemma_declarations_prefix(stmts@, k + 1);
                    let all = declarations(stmts@);
                    assert(all[j as int] == after[j as int]);
                    assert(all[before.len() as int] == after[before.len() as int]);
                }
                let mut m = concat(module.path.as_str(), ": duplicate symbol '");
                append(&mut m, name.as_str());
                append(&mut m, "' in module '");
                append(&mut m, module.name.as_str());
                append(&mut m, "'");
                return Err(ForgeError::parse(m));
            }
            j += 1;
        }
        let is_main = kind == SymbolKind::Function && str_eq(name.as_str(), "Main");
        if is_main {
            match earlier_main {
                Some(previous) => {
                    proof {
                        let after = declarations(stmts@.take(k + 1));
                        lemma_declarations_prefix(stmts@, k + 1);
                        assert(declarations(stmts@)[before.len() as int] == after[before.len() as int]);
                    }
                    let mut m = concat("multiple Main functions in modules '", previous.as_str());
                    append(&mut m, "' and '");
                    append(&mut m, module.name.as_str());
                    append(&mut m, "'");
                    return Err(ForgeError::parse(m));
                },
                None => {},
            }
        }
        let mangled = if is_main {
            owned("Main")
        } else {
            mangle_symbol(module.name.as_str(), name.as_str())
        };
        let is_public = match modifier {
            Some(Modifier::Open) => true,
            _ => false,
        };
        let sym = ModuleSymbol { name: name.clone(), mangled_name: mangled, is_public, kind };
        assert(symbol_view(sym) == symbol_of(mname, d));
        let ghost old_syms = syms@;
        syms.push(sym);
        proof {
            let after = declarations(stmts@.take(k + 1));
            if earlier_main is Some && declares_main(after) {
                let x = choose|x: int| 0 <= x < after.len() && after[x].0 == "Main"@ && after[x].2 == SymbolKind::Function;
                if x < before.len() {
                    assert(before[x] == after[x]);
                }
            }
            assert(symbols_view(syms@) =~= symbols_view(old_syms).push(symbol_view(sym)));
            assert(symbols_view(syms@) =~= declarations(stmts@.take(k + 1)).map_values(
                |d: (Seq<char>, Option<Modifier>, SymbolKind)| symbol_of(mname, d),
            ));
        }
        k += 1;
    }
    proof {
        assert(stmts@.take(stmts@.len() as int) =~= stmts@);
    }
    Ok(syms)
}

/// The declarations of a prefix of the statements are a prefix of their declarations.
proof fn lemma_declarations_prefix(stmts: Seq<Statement>, k: int)
    requires
        0 <= k <= stmts.len(),
    ensures
        declarations(stmts.take(k)).len() <= declarations(stmts).len(),
        forall|x: int|
            0 <= x < declarations(stmts.take(k)).len() ==> declarations(stmts)[x]
                == #[trigger] declarations(stmts.take(k))[x],
    decreases stmts.len() - k,
{
    if k < stmts.len() {
        let t = stmts.take(k + 1);
        assert(t.drop_last() =~= stmts.take(k));
        lemma_declarations_prefix(stmts, k + 1);
        let a = declarations(stmts.take(k));
        assert forall|x: int| 0 <= x < a.len() implies declarations(stmts)[x] == #[trigger] a[x] by {
            assert(declarations(t)[x] == a[x]);
        }
    } else {
        assert(stmts.take(k) =~= stmts);
    }
}

/// Whether a symbol table holds a function named `Main`.
fn holds_main(syms: &Vec<ModuleSymbol>) -> (b: bool)
    ensures
        b == exists|k: int|
            0 <= k < syms@.len() && (#[trigger] syms@[k]).name@ == "Main"@ && syms@[k].kind
                == SymbolKind::Function,
{
    let mut k: usize = 0;
    while k < syms.len()
        invariant
            k <= syms@.len(),
            forall|x: int|
                0 <= x < k ==> !((#[trigger] syms@[x]).name@ == "Main"@ && syms@[x].kind
                    == SymbolKind::Function),
        decreases syms.len() - k,
    {
        if syms[k].kind == SymbolKind::Function && str_eq(syms[k].name.as_str(), "Main") {
            return true;
        }
        k += 1;
    }
    false
}

/// The symbol tables of all modules of a table, in module order.
fn build_module_symbols(table: &ModuleTable) -> (r: Result<Vec<Vec<ModuleSymbol>>, ForgeError>)
    ensures
        match r {
            Ok(all) => symbols_ok(table.entries()) && all@.len() == table.entries().len() && forall|
                i: int,
            | 0 <= i < all@.len() ==> symbols_view((#[trigger] all@[i])@) == module_syms(table.entries(), i),
            Err(e) => !symbols_ok(table.entries()),
        },
{
    let ghost ms = table.entries();
    let mut all: Vec<Vec<ModuleSymbol>> = Vec::new();
    let mut main_module: Option<usize> = None;
    let mut i: usize = 0;
    while i < table.modules.len()
        invariant
            ms == table.modules@,
            i <= ms.len(),
            all@.len() == i,
            forall|x: int|
                0 <= x < i ==> symbols_view((#[trigger] all@[x])@) == module_declarations(
                    ms,
                    x,
                ).map_values(
                    |d: (Seq<char>, Option<Modifier>, SymbolKind)| symbol_of(ms[x].name@, d),
                ),
            forall|x: int| 0 <= x < i ==> declarations_distinct(#[trigger] module_declarations(ms, x)),
            forall|x: int, y: int|
                0 <= x < y < i ==> !(declares_main(#[trigger] module_declarations(ms, x))
                    && declares_main(#[trigger] module_declarations(ms, y))),
            match main_module {
                Some(m) => m < i && declares_main(module_declarations(ms, m as int)),
                None => forall|x: int| 0 <= x < i ==> !declares_main(#[trigger] module_declarations(ms, x)),
            },
        decreases table.modules.len() - i,
    {
        let earlier = match main_module {
            Some(m) => Some(&table.modules[m].name),
            None => None,
        };
        match module_symbols(&table.modules[i], earlier) {
            Err(e) => {
                proof {
                    if declarations_distinct(module_declarations(ms, i as int)) {
                        let m = main_module->0 as int;
                        assert(declares_main(module_declarations(ms, m)));
                        assert(declares_main(module_declarations(ms, i as int)));
                    }
                }
                return Err(e);
            },
            Ok(syms) => {
                let ghost decls = module_declarations(ms, i as int);
                let ghost mapped = decls.map_values(
                    |d: (Seq<char>, Option<Modifier>, SymbolKind)| symbol_of(ms[i as int].name@, d),
                );
                let found = holds_main(&syms);
                proof {
                    assert(symbols_view(syms@) == mapped);
                    assert(syms@.len() == decls.len()) by {
                        assert(symbols_view(syms@).len() == syms@.len());
                    }
                    if found {
                        let k = choose|k: int|
                            0 <= k < syms@.len() && (#[trigger] syms@[k]).name@ == "Main"@
                                && syms@[k].kind == SymbolKind::Function;
                        assert(symbols_view(syms@)[k] == mapped[k]);
                        assert(declares_main(decls));
                    } else if declares_main(decls) {
                        let k = choose|k: int|
                            0 <= k < decls.len() && decls[k].0 == "Main"@ && decls[k].2
                                == SymbolKind::Function;
                        assert(symbols_view(syms@)[k] == mapped[k]);
                        assert(syms@[k].name@ == "Main"@ && syms@[k].kind == SymbolKind::Function);
                    }
                }
                if found {
                    main_module = Some(i);
                }
                all.push(syms);
            },
        }
        i += 1;
    }
    Ok(all)
}

/// The import graph as plain values: for each module, the modules it imports.
pub open spec fn graph_view(graph: Seq<Vec<usize>>) -> Seq<Seq<usize>> {
    graph.map_values(|v: Vec<usize>| v@)
}

/// Whether every edge of a graph points to one of its nodes.
pub open spec fn edges_valid(g: Seq<Seq<usize>>) -> bool {
    forall|u: int, k: int| 0 <= u < g.len() && 0 <= k < g[u].len() ==> (#[trigger] g[u][k]) < g.len()
}

/// Whether `v` occurs in `order` before position `k`.
pub open spec fn appears_before(order: Seq<usize>, k: int, v: usize) -> bool {
    exists|k2: int| 0 <= k2 < k && order[k2] == v
}

/// Whether node `u` occurs in `order`.
pub open spec fn listed(order: Seq<usize>, u: int) -> bool {
    order.contains(u as usize)
}

/// Whether `order` lists every node of `g` exactly once, each after the
/// nodes it has edges to.
pub open spec fn is_topological(g: Seq<Seq<usize>>, order: Seq<usize>) -> bool {
    &&& forall|k: int| 0 <= k < order.len() ==> (#[trigger] order[k]) < g.len()
    &&& forall|a: int, b: int| 0 <= a < b < order.len() ==> order[a] != order[b]
    &&& forall|u: int| 0 <= u < g.len() ==> #[trigger] listed(order, u)
    &&& forall|k: int, e: int|
        0 <= k < order.len() && 0 <= e < g[order[k] as int].len() ==> appears_before(
            order,
            k,
            #[trigger] g[order[k] as int][e],
        )
}

/// Whether `c` is a cycle of `g`: a walk along edges that ends where it starts.
pub open spec fn is_cycle(g: Seq<Seq<usize>>, c: Seq<usize>) -> bool {
    &&& c.len() >= 2
    &&& c[0] == c.last()
    &&& forall|k: int| 0 <= k < c.len() ==> (#[trigger] c[k]) < g.len()
    &&& forall|k: int| 0 <= k < c.len() - 1 ==> g[c[k] as int].contains(#[trigger] c[k + 1])
}

/// Texts joined with ` -> `.
pub open spec fn arrow_join(parts: Seq<Seq<char>>) -> Seq<char>
    decreases parts.len(),
{
    if parts.len() == 0 {
        seq![]
    } else if parts.len() == 1 {
        parts[0]
    } else {
        arrow_join(parts.drop_last()) + " -> "@ + parts.last()
    }
}

/// The diagnostic for a cycle of imports among `ms`.
pub open spec fn cycle_message(ms: Seq<ModuleSource>, c: Seq<usize>) -> Seq<char> {
    "circular import detected: "@ + arrow_join(c.map_values(|i: usize| ms[i as int].name@))
}

/// The number of nodes not yet visited.
pub open spec fn unvisited(states: Seq<u8>) -> nat
    decreases states.len(),
{
    if states.len() == 0 {
        0
    } else {
        unvisited(states.drop_last()) + if states.last() == 0 {
            1nat
        } else {
            0nat
        }
    }
}

proof fn lemma_unvisited_update(states: Seq<u8>, i: int, v: u8)
    requires
        0 <= i < states.len(),
        states[i] == 0,
        v != 0,
    ensures
        unvisited(states.update(i, v)) < unvisited(states),
        unvisited(states) > 0,
    decreases states.len(),
{
    let t = states.update(i, v);
    if i == states.len() - 1 {
        assert(t.drop_last() =~= states.drop_last());
    } else {
        assert(t.drop_last() =~= states.drop_last().update(i, v));
        lemma_unvisited_update(states.drop_last(), i, v);
    }
}

/// The depth-first search state: `states` marks nodes unvisited (0), on the
/// stack (1) or finished (2); the stack is a walk along edges; `order` lists
/// the finished nodes, each after the nodes it has edges to.
pub open spec fn dfs_ok(g: Seq<Seq<usize>>, states: Seq<u8>, stack: Seq<usize>, order: Seq<usize>) -> bool {
    &&& states.len() == g.len()
    &&& forall|u: int| 0 <= u < states.len() ==> #[trigger] states[u] <= 2
    &&& forall|k: int| 0 <= k < stack.len() ==> (#[trigger] stack[k]) < g.len() && states[stack[k] as int] == 1
    &&& forall|u: int| 0 <= u < g.len() && #[trigger] states[u] == 1 ==> stack.contains(u as usize)
    &&& forall|k: int| 0 <= k < stack.len() - 1 ==> g[stack[k] as int].contains(#[trigger] stack[k + 1])
    &&& forall|k: int| 0 <= k < order.len() ==> (#[trigger] order[k]) < g.len() && states[order[k] as int] == 2
    &&& forall|a: int, b: int| 0 <= a < b < order.len() ==> order[a] != order[b]
    &&& forall|u: int| 0 <= u < g.len() && #[trigger] states[u] == 2 ==> order.contains(u as usize)
    &&& forall|k: int, e: int|
        0 <= k < order.len() && 0 <= e < g[order[k] as int].len() ==> appears_before(
            order,
            k,
            #[trigger] g[order[k] as int][e],
        )
}

/// Finished nodes stay finished, nodes on the stack stay there, and a node is
/// unvisited after only if it was before.
pub open spec fn states_grow(a: Seq<u8>, b: Seq<u8>) -> bool {
    &&& a.len() == b.len()
    &&& forall|u: int| 0 <= u < a.len() && a[u] == 2 ==> #[trigger] b[u] == 2
    &&& forall|u: int| 0 <= u < a.len() && a[u] == 1 ==> #[trigger] b[u] == 1
    &&& forall|u: int| 0 <= u < a.len() && #[trigger] b[u] == 0 ==> a[u] == 0
}

/// The names of modules `c`, joined with ` -> `.
fn cycle_text(table: &ModuleTable, c: &Vec<usize>) -> (r: String)
    requires
        forall|k: int| 0 <= k < c@.len() ==> (#[trigger] c@[k]) < table.entries().len(),
    ensures
        r@ == cycle_message(table.entries(), c@),
{
    let ghost names = c@.map_values(|i: usize| table.entries()[i as int].name@);
    let mut r = String::new();
    let mut k: usize = 0;
    while k < c.len()
        invariant
            k <= c@.len(),
            names == c@.map_values(|i: usize| table.entries()[i as int].name@),
            forall|x: int| 0 <= x < c@.len() ==> (#[trigger] c@[x]) < table.entries().len(),
            r@ == arrow_join(names.take(k as int)),
        decreases c.len() - k,
    {
        assert(names.take(k + 1).drop_last() =~= names.take(k as int));
        if k > 0 {
            append(&mut r, " -> ");
        }
        assert(table.entries()[c@[k as int] as int] == table.modules@[c@[k as int] as int]);
        append(&mut r, table.modules[c[k]].name.as_str());
        proof {
            if k == 0 {
                assert(names.take(1) =~= seq![names[0]]);
            }
        }
        k += 1;
    }
    assert(names.take(c@.len() as int) =~= names);
    concat("circular import detected: ", r.as_str())
}

/// Visits `node` depth first: finishes it after the nodes it imports, or
/// reports the first cycle met.
fn visit(
    node: usize,
    table: &ModuleTable,
    graph: &Vec<Vec<usize>>,
    states: &mut Vec<u8>,
    stack: &mut Vec<usize>,
    order: &mut Vec<usize>,
) -> (r: Result<(), ForgeError>)
    requires
        graph@.len() == table.entries().len(),
        edges_valid(graph_view(graph@)),
        dfs_ok(graph_view(graph@), old(states)@, old(stack)@, old(order)@),
        node < graph@.len(),
        old(states)@[node as int] == 0,
        old(stack)@.len() > 0 ==> graph_view(graph@)[old(stack)@.last() as int].contains(node),
    ensures
        match r {
            Ok(()) => {
                &&& dfs_ok(graph_view(graph@), final(states)@, final(stack)@, final(order)@)
                &&& final(states)@[node as int] == 2
                &&& final(stack)@ == old(stack)@
                &&& states_grow(old(states)@, final(states)@)
            },
            Err(e) => exists|c: Seq<usize>|
                is_cycle(graph_view(graph@), c) && e.message@ == cycle_message(table.entries(), c),
        },
    decreases unvisited(old(states)@),
{
    let ghost g = graph_view(graph@);
    let ghost start_states = states@;
    let ghost start_stack = stack@;
    proof {
        lemma_unvisited_update(states@, node as int, 1);
    }
    states.set(node, 1);
    stack.push(node);
    proof {
        assert forall|u: int| 0 <= u < g.len() && #[trigger] states@[u] == 1 implies stack@.contains(
            u as usize,
        ) by {
            if u == node {
                assert(stack@[stack@.len() - 1] == node);
            } else {
                assert(start_states[u] == 1);
                let k = choose|k: int| 0 <= k < start_stack.len() && start_stack[k] == u as usize;
                assert(stack@[k] == u as usize);
            }
        }
        assert forall|u: int| 0 <= u < g.len() && #[trigger] states@[u] == 2 implies order@.contains(
            u as usize,
        ) by {
            assert(start_states[u] == 2);
        }
        assert forall|k: int| 0 <= k < stack@.len() - 1 implies g[stack@[k] as int].contains(
            #[trigger] stack@[k + 1],
        ) by {
            if k == stack@.len() - 2 {
                assert(stack@[k] == start_stack.last());
            } else {
                assert(start_stack[k + 1] == stack@[k + 1]);
            }
        }
    }
    let deps = &graph[node];
    assert(deps@ == g[node as int]);
    let mut j: usize = 0;
    while j < deps.len()
        invariant
            g == graph_view(graph@),
            graph@.len() == table.entries().len(),
            edges_valid(g),
            node < g.len(),
            deps@ == g[node as int],
            j <= deps@.len(),
            dfs_ok(g, states@, stack@, order@),
            stack@ == start_stack.push(node),
            states@[node as int] == 1,
            states_grow(start_states.update(node as int, 1), states@),
            unvisited(start_states.update(node as int, 1)) < unvisited(start_states),
            unvisited(start_states) == unvisited(old(states)@),
            forall|x: int| 0 <= x < j ==> states@[#[trigger] deps@[x] as int] == 2,
        decreases deps.len() - j,
    {
        let dependency = deps[j];
        assert(dependency < g.len());
        if states[dependency] == 1 {
            let mut start: usize = 0;
            while start < stack.len() && stack[start] != dependency
                invariant
                    start <= stack@.len(),
                    forall|x: int| 0 <= x < start ==> stack@[x] != dependency,
                decreases stack@.len() - start,
            {
                start += 1;
            }
            proof {
                if start == stack@.len() {
                    assert(stack@.contains(dependency));
                    let w = choose|w: int| 0 <= w < stack@.len() && stack@[w] == dependency;
                    assert(false);
                }
            }
            let mut cycle: Vec<usize> = Vec::new();
            let mut k = start;
            while k < stack.len()
                invariant
                    start <= k <= stack@.len(),
                    cycle@ == stack@.subrange(start as int, k as int),
                decreases stack.len() - k,
            {
                cycle.push(stack[k]);
                k += 1;
                assert(cycle@ =~= stack@.subrange(start as int, k as int));
            }
            cycle.push(dependency);
            proof {
                let c = cycle@;
                assert(c[0] == dependency);
                assert forall|x: int| 0 <= x < c.len() - 1 implies g[c[x] as int].contains(
                    #[trigger] c[x + 1],
                ) by {
                    if x < c.len() - 2 {
                        assert(c[x] == stack@[start + x]);
                        assert(c[x + 1] == stack@[start + x + 1]);
                    } else {
                        assert(c[x] == stack@.last());
                        assert(stack@.last() == node);
                        assert(deps@[j as int] == dependency);
                    }
                }
                assert(is_cycle(g, c));
            }
            let message = cycle_text(table, &cycle);
            return Err(ForgeError::parse(message));
        }
        if states[dependency] == 0 {
            let ghost before_states = states@;
            let ghost before_order = order@;
            proof {
                assert(stack@.last() == node);
                assert(deps@[j as int] == dependency);
                assert(unvisited(states@) <= unvisited(start_states.update(node as int, 1))) by {
                    lemma_unvisited_grow(start_states.update(node as int, 1), states@);
                }
            }
            match visit(dependency, table, graph, states, stack, order) {
                Ok(()) => {},
                Err(e) => {
                    return Err(e);
                },
            }
            proof {
                assert forall|u: int| 0 <= u < start_states.len() implies ((start_states.update(
                    node as int,
                    1,
                )[u] == 2 ==> #[trigger] states@[u] == 2) && (start_states.update(node as int, 1)[u]
                    == 1 ==> states@[u] == 1) && (states@[u] == 0 ==> start_states.update(
                    node as int,
                    1,
                )[u] == 0)) by {
                    assert(before_states[u] == 2 ==> states@[u] == 2);
                    assert(before_states[u] == 1 ==> states@[u] == 1);
                    assert(states@[u] == 0 ==> before_states[u] == 0);
                }
                assert forall|x: int| 0 <= x < j + 1 implies states@[#[trigger] deps@[x] as int] == 2 by {
                    if x < j {
                        assert(before_states[deps@[x] as int] == 2);
                    }
                }
            }
        }
        j += 1;
    }
    let ghost mid_order = order@;
    let ghost mid_states = states@;
    let ghost mid_stack = stack@;
    stack.pop();
    states.set(node, 2);
    order.push(node);
    proof {
        assert(stack@ =~= start_stack);
        let o = order@;
        assert forall|k: int, e: int|
            0 <= k < o.len() && 0 <= e < g[o[k] as int].len() implies appears_before(
            o,
            k,
            #[trigger] g[o[k] as int][e],
        ) by {
            if k < mid_order.len() {
                let w = choose|k2: int| 0 <= k2 < k && mid_order[k2] == g[o[k] as int][e];
                assert(o[w] == mid_order[w]);
            } else {
                let v = g[node as int][e];
                assert(deps@[e] == v);
                assert(mid_states[v as int] == 2);
                assert(mid_order.contains(v));
                let w = choose|w: int| 0 <= w < mid_order.len() && mid_order[w] == v;
                assert(o[w] == v);
            }
        }
        assert forall|u: int| 0 <= u < g.len() && #[trigger] states@[u] == 1 implies stack@.contains(
            u as usize,
        ) by {
            assert(u != node);
            assert(mid_states[u] == 1);
            assert(states.len() == states@.len());
            assert(u as usize as int == u);
            assert(mid_stack.contains(u as usize));
            assert(mid_stack == start_stack.push(node));
            assert(mid_stack[start_stack.len() as int] == node);
            let w = choose|w: int| 0 <= w < mid_stack.len() && mid_stack[w] == u as usize;
            assert(w < start_stack.len());
            assert(mid_stack[w] == start_stack[w]);
            assert(stack@[w] == u as usize);
        }
        assert forall|u: int| 0 <= u < g.len() && #[trigger] states@[u] == 2 implies o.contains(
            u as usize,
        ) by {
            if u == node {
                assert(o[o.len() - 1] == node);
            } else {
                assert(mid_states[u] == 2);
                let w = choose|w: int| 0 <= w < mid_order.len() && mid_order[w] == u as usize;
                assert(o[w] == u as usize);
            }
        }
        assert forall|a: int, b: int| 0 <= a < b < o.len() implies o[a] != o[b] by {
            if b == o.len() - 1 {
                assert(mid_states[o[a] as int] == 2);
            }
        }
        assert forall|k: int| 0 <= k < stack@.len() implies (#[trigger] stack@[k]) < g.len()
            && states@[stack@[k] as int] == 1 by {
            assert(stack@[k] == start_stack[k]);
            assert(mid_states[stack@[k] as int] == 1);
            if stack@[k] == node {
                assert(start_states[node as int] == 1);
            }
        }
    }
    Ok(())
}

proof fn lemma_unvisited_grow(a: Seq<u8>, b: Seq<u8>)
    requires
        a.len() == b.len(),
        forall|u: int| 0 <= u < a.len() && #[trigger] b[u] == 0 ==> a[u] == 0,
    ensures
        unvisited(b) <= unvisited(a),
    decreases a.len(),
{
    if a.len() > 0 {
        assert forall|u: int| 0 <= u < a.drop_last().len() && #[trigger] b.drop_last()[u] == 0 implies a.drop_last()[u] == 0 by {
            assert(b.drop_last()[u] == b[u]);
        }
        lemma_unvisited_grow(a.drop_last(), b.drop_last());
    }
}

/// The modules in an order in which each comes after the modules it imports,
/// or the diagnostic for a cycle of imports.
fn dependency_order(table: &ModuleTable, graph: &Vec<Vec<usize>>) -> (r: Result<Vec<usize>, ForgeError>)
    requires
        graph@.len() == table.entries().len(),
        edges_valid(graph_view(graph@)),
    ensures
        match r {
            Ok(order) => is_topological(graph_view(graph@), order@),
            Err(e) => exists|c: Seq<usize>|
                is_cycle(graph_view(graph@), c) && e.message@ == cycle_message(table.entries(), c),
        },
{
    let ghost g = graph_view(graph@);
    let n = graph.len();
    let mut states: Vec<u8> = Vec::new();
    while states.len() < n
        invariant
            states@.len() <= n,
            forall|u: int| 0 <= u < states@.len() ==> #[trigger] states@[u] == 0,
        decreases n - states.len(),
    {
        states.push(0);
    }
    let mut stack: Vec<usize> = Vec::new();
    let mut order: Vec<usize> = Vec::new();
    let mut node: usize = 0;
    while node < n
        invariant
            g == graph_view(graph@),
            n == g.len(),
            graph@.len() == table.entries().len(),
            edges_valid(g),
            node <= n,
            dfs_ok(g, states@, stack@, order@),
            stack@.len() == 0,
            forall|u: int| 0 <= u < node ==> #[trigger] states@[u] == 2,
        decreases n - node,
    {
        if states[node] == 0 {
            let ghost before = states@;
            match visit(node, table, graph, &mut states, &mut stack, &mut order) {
                Ok(()) => {},
                Err(e) => {
                    return Err(e);
                },
            }
            assert forall|u: int| 0 <= u < node + 1 implies #[trigger] states@[u] == 2 by {
                if u < node {
                    assert(before[u] == 2);
                }
            }
        } else {
            assert(states@[node as int] != 1) by {
                if states@[node as int] == 1 {
                    assert(stack@.contains(node));
                }
            }
        }
        node += 1;
    }
    proof {
        assert forall|u: int| 0 <= u < g.len() implies #[trigger] listed(order@, u) by {
            assert(states@[u] == 2);
        }
    }
    Ok(order)
}

/// An import as written: the module path, the selected symbol for `Using`,
/// and where it stands.
#[derive(Debug)]
pub struct ImportSite {
    pub path: Vec<String>,
    pub symbol: Option<String>,
    pub line: usize,
    pub column: usize,
}

/// A module path as plain values.
pub open spec fn path_view(path: Seq<String>) -> Seq<Seq<char>> {
    path.map_values(|p: String| p@)
}

/// The import a statement makes, if it is `Use` or `Using`.
pub open spec fn site_of(s: Statement) -> Option<(Seq<Seq<char>>, Option<Seq<char>>, usize, usize)> {
    match s {
        Statement::Use(u) => Some((path_view(u.path@), None, u.line, u.column)),
        Statement::Using(u) => Some((path_view(u.path@), Some(u.symbol@), u.line, u.column)),
        _ => None,
    }
}

/// The imports of a sequence of statements, in order.
pub open spec fn sites(stmts: Seq<Statement>) -> Seq<(Seq<Seq<char>>, Option<Seq<char>>, usize, usize)>
    decreases stmts.len(),
{
    if stmts.len() == 0 {
        seq![]
    } else {
        let rest = sites(stmts.drop_last());
        match site_of(stmts.last()) {
            Some(x) => rest.push(x),
            None => rest,
        }
    }
}

/// An import site as plain values.
pub open spec fn site_view(i: ImportSite) -> (Seq<Seq<char>>, Option<Seq<char>>, usize, usize) {
    (
        path_view(i.path@),
        match i.symbol {
            Some(s) => Some(s@),
            None => None,
        },
        i.line,
        i.column,
    )
}

/// A copy of a module path.
fn copy_path(path: &Vec<String>) -> (r: Vec<String>)
    ensures
        path_view(r@) == path_view(path@),
{
    let mut r: Vec<String> = Vec::new();
    let mut i: usize = 0;
    while i < path.len()
        invariant
            i <= path@.len(),
            path_view(r@) == path_view(path@.take(i as int)),
        decreases path.len() - i,
    {
        let c = path[i].clone();
        assert(c@ == path@[i as int]@);
        let ghost old_r = r@;
        r.push(c);
        proof {
            assert(path_view(r@) =~= path_view(old_r).push(c@));
            assert(path_view(path@.take(i + 1)) =~= path_view(path@.take(i as int)).push(path@[i as int]@));
        }
        i += 1;
    }
    assert(path@.take(path@.len() as int) =~= path@);
    r
}

/// The import site of a `Use`.
fn use_site(import: &UseNode) -> (r: ImportSite)
    ensures
        site_view(r) == (path_view(import.path@), None::<Seq<char>>, import.line, import.column),
{
    ImportSite { path: copy_path(&import.path), symbol: None, line: import.line, column: import.column }
}

/// The import site of a `Using`.
fn using_site(import: &UsingNode) -> (r: ImportSite)
    ensures
        site_view(r) == (
            path_view(import.path@),
            Some(import.symbol@),
            import.line,
            import.column,
        ),
{
    ImportSite {
        path: copy_path(&import.path),
        symbol: Some(import.symbol.clone()),
        line: import.line,
        column: import.column,
    }
}

/// Where a module found at `path` stands among the modules loaded so far,
/// each named by its canonical path: the place of its first load, or `None`
/// when it has not been loaded and goes at the end.
pub fn loaded_position(paths: &Vec<String>, path: &str) -> (r: Option<usize>)
    ensures
        match r {
            Some(i) => i < paths@.len() && paths@[i as int]@ == path@ && forall|j: int|
                0 <= j < i ==> (#[trigger] paths@[j])@ != path@,
            None => forall|j: int| 0 <= j < paths@.len() ==> (#[trigger] paths@[j])@ != path@,
        },
{
    let mut i: usize = 0;
    while i < paths.len()
        invariant
            i <= paths@.len(),
            forall|j: int| 0 <= j < i ==> (#[trigger] paths@[j])@ != path@,
        decreases paths.len() - i,
    {
        if str_eq(paths[i].as_str(), path) {
            return Some(i);
        }
        i += 1;
    }
    None
}

/// The imports of a program's top level, in order.
pub fn top_level_imports(stmts: &Vec<Statement>) -> (r: Vec<ImportSite>)
    ensures
        r@.map_values(|i: ImportSite| site_view(i)) == sites(stmts@),
{
    let mut r: Vec<ImportSite> = Vec::new();
    let mut k: usize = 0;
    while k < stmts.len()
        invariant
            k <= stmts@.len(),
            r@.map_values(|i: ImportSite| site_view(i)) == sites(stmts@.take(k as int)),
        decreases stmts.len() - k,
    {
        proof {
            assert(stmts@.take(k + 1).drop_last() =~= stmts@.take(k as int));
            assert(stmts@.take(k + 1).last() == stmts@[k as int]);
        }
        let ghost before = r@;
        match &stmts[k] {
            Statement::Use(u) => {
                r.push(use_site(u));
            },
            Statement::Using(u) => {
                r.push(using_site(u));
            },
            _ => {},
        }
        proof {
            assert(r@.map_values(|i: ImportSite| site_view(i)) =~= sites(stmts@.take(k + 1)));
        }
        k += 1;
    }
    assert(stmts@.take(stmts@.len() as int) =~= stmts@);
    r
}

/// Module path components joined with `.`.
pub open spec fn dotted(path: Seq<Seq<char>>) -> Seq<char>
    decreases path.len(),
{
    if path.len() == 0 {
        seq![]
    } else if path.len() == 1 {
        path[0]
    } else {
        dotted(path.drop_last()) + "."@ + path.last()
    }
}

/// A module path as written, components joined with `.`.
pub fn dotted_path(path: &Vec<String>) -> (r: String)
    ensures
        r@ == dotted(path_view(path@)),
{
    let ghost pv = path_view(path@);
    let mut r = String::new();
    let mut i: usize = 0;
    while i < path.len()
        invariant
            i <= path@.len(),
            pv == path_view(path@),
            r@ == dotted(pv.take(i as int)),
        decreases path.len() - i,
    {
        assert(pv.take(i + 1).drop_last() =~= pv.take(i as int));
        if i > 0 {
            append(&mut r, ".");
        }
        append(&mut r, path[i].as_str());
        proof {
            if i == 0 {
                assert(pv.take(1) =~= seq![pv[0]]);
            }
        }
        i += 1;
    }
    assert(pv.take(pv.len() as int) =~= pv);
    r
}

/// The diagnostic of an import: the importing file, the import's position, and the message.
pub open spec fn import_message(importer_path: Seq<char>, line: usize, column: usize, message: Seq<char>) -> Seq<char> {
    importer_path + ":"@ + decimal(line as nat) + ":"@ + decimal(column as nat) + ": "@ + message
}

/// The diagnostic for an import.
pub fn import_error(importer_path: &str, import: &ImportSite, message: String) -> (e: ForgeError)
    ensures
        e.message@ == import_message(importer_path@, import.line, import.column, message@),
        e.line == 0,
        e.col == 0,
{
    let mut m = concat(importer_path, ":");
    append(&mut m, decimal_string(import.line as u64).as_str());
    append(&mut m, ":");
    append(&mut m, decimal_string(import.column as u64).as_str());
    append(&mut m, ": ");
    append(&mut m, message.as_str());
    ForgeError::parse(m)
}

/// The components of a relative path with the last one reduced to its file stem.
pub open spec fn stem_components(rel: Seq<char>) -> Seq<Seq<char>> {
    let c = path_components(rel);
    if c.len() == 0 {
        c
    } else {
        c.update(
            c.len() - 1,
            match path_file_stem(c.last()) {
                Some(s) => s,
                None => seq![],
            },
        )
    }
}

/// Whether a module's relative path, without its extension, ends with `path`.
pub open spec fn relative_path_matches(rel: Seq<char>, path: Seq<Seq<char>>) -> bool {
    let c = stem_components(rel);
    c.len() > 0 && c.len() >= path.len() && c.skip(c.len() - path.len()) == path
}

/// Whether the module's relative path, without its extension, ends with `path`.
fn relative_module_path_matches(module: &ModuleSource, path: &Vec<String>) -> (b: bool)
    ensures
        b == relative_path_matches(module.relative_path@, path_view(path@)),
{
    let mut comps = components_of(module.relative_path.as_str());
    let n = comps.len();
    if n == 0 {
        return false;
    }
    let ghost cv = path_components(module.relative_path@);
    assert(comps@.map_values(|c: String| c@) == cv);
    assert(comps@[n - 1]@ == cv.last());
    let stem = match file_stem_of(comps[n - 1].as_str()) {
        Some(st) => st,
        None => String::new(),
    };
    let ghost sc = stem_components(module.relative_path@);
    let m = path.len();
    if m > n {
        return false;
    }
    let mut k: usize = 0;
    while k < m
        invariant
            k <= m <= n,
            m == path@.len(),
            n == comps@.len(),
            sc == stem_components(module.relative_path@),
            sc.len() == n,
            stem@ == sc[n - 1],
            forall|x: int| 0 <= x < n - 1 ==> (#[trigger] comps@[x])@ == sc[x],
            forall|x: int| 0 <= x < k ==> sc[n - m + x] == (#[trigger] path@[x])@,
        decreases m - k,
    {
        let idx = n - m + k;
        let same = if idx == n - 1 {
            str_eq(stem.as_str(), path[k].as_str())
        } else {
            str_eq(comps[idx].as_str(), path[k].as_str())
        };
        if !same {
            proof {
                assert(sc.skip(n - m)[k as int] != path_view(path@)[k as int]);
            }
            return false;
        }
        k += 1;
    }
    proof {
        assert(sc.skip(n - m) =~= path_view(path@));
    }
    true
}

/// How import paths find modules: in a project by module name (and, for a
/// qualified path, by the module's relative path); for a standalone program
/// by the files next to the importer, which the caller has looked up: for
/// each module and each of its top-level imports, the position of the module
/// the import names, if that file was found.
#[derive(Debug)]
pub enum ResolutionMode {
    Project,
    Standalone(Vec<Vec<Option<usize>>>),
}

/// The position of the module named `name`, if there is one.
pub open spec fn named_module(ms: Seq<ModuleSource>, name: Seq<char>) -> Option<int> {
    if exists|i: int| 0 <= i < ms.len() && ms[i].name@ == name {
        Some(choose|i: int| 0 <= i < ms.len() && ms[i].name@ == name)
    } else {
        None
    }
}

/// The module a project import path names.
pub open spec fn project_target(ms: Seq<ModuleSource>, path: Seq<Seq<char>>) -> Option<int> {
    if path.len() == 0 {
        None
    } else {
        match named_module(ms, path.last()) {
            Some(i) => if path.len() == 1 || relative_path_matches(ms[i].relative_path@, path) {
                Some(i)
            } else {
                None
            },
            None => None,
        }
    }
}

/// The imports of module `u`.
pub open spec fn module_sites(ms: Seq<ModuleSource>, u: int) -> Seq<(Seq<Seq<char>>, Option<Seq<char>>, usize, usize)> {
    sites(ms[u].program.statements@)
}

/// The module that import `x` of module `u` names, if any.
pub open spec fn site_target(ms: Seq<ModuleSource>, mode: ResolutionMode, u: int, x: int) -> Option<int> {
    match mode {
        ResolutionMode::Project => project_target(ms, module_sites(ms, u)[x].0),
        ResolutionMode::Standalone(t) => if 0 <= u < t@.len() && 0 <= x < t@[u]@.len() {
            match t@[u]@[x] {
                Some(v) => if v < ms.len() {
                    Some(v as int)
                } else {
                    None
                },
                None => None,
            }
        } else {
            None
        },
    }
}

/// The module that import `x` of module `u` names.
fn resolve_module_index(
    table: &ModuleTable,
    importer: usize,
    x: usize,
    path: &Vec<String>,
    mode: &ResolutionMode,
) -> (r: Option<usize>)
    requires
        table.wf(),
        importer < table.entries().len(),
        x < module_sites(table.entries(), importer as int).len(),
        path_view(path@) == module_sites(table.entries(), importer as int)[x as int].0,
    ensures
        match r {
            Some(v) => site_target(table.entries(), *mode, importer as int, x as int) == Some(
                v as int,
            ),
            None => site_target(table.entries(), *mode, importer as int, x as int) is None,
        },
{
    let ghost ms = table.entries();
    match mode {
        ResolutionMode::Project => {
            if path.len() == 0 {
                return None;
            }
            let name = &path[path.len() - 1];
            assert(name@ == path_view(path@).last());
            match table.index_of(name.as_str()) {
                None => {
                    proof {
                        assert(!(exists|i: int| 0 <= i < ms.len() && ms[i].name@ == name@));
                    }
                    None
                },
                Some(index) => {
                    proof {
                        assert(exists|i: int| 0 <= i < ms.len() && ms[i].name@ == name@);
                        let c = choose|i: int| 0 <= i < ms.len() && ms[i].name@ == name@;
                        if c != index {
                            if c < index {
                                assert(module_names(ms)[c] != module_names(ms)[index as int]);
                            } else {
                                assert(module_names(ms)[index as int] != module_names(ms)[c]);
                            }
                        }
                        assert(named_module(ms, name@) == Some(index as int));
                    }
                    assert(table.modules@[index as int] == ms[index as int]);
                    if path.len() == 1 || relative_module_path_matches(&table.modules[index], path) {
                        Some(index)
                    } else {
                        None
                    }
                },
            }
        },
        ResolutionMode::Standalone(targets) => {
            if importer < targets.len() && x < targets[importer].len() {
                match targets[importer][x] {
                    Some(v) => if v < table.modules.len() {
                        Some(v)
                    } else {
                        None
                    },
                    None => None,
                }
            } else {
                None
            }
        },
    }
}

/// The names an import brings into a module's scope: module namespaces
/// (`Use`) and single symbols (`Using`), each with the module it comes from.
#[derive(Debug)]
pub struct ImportScope {
    pub namespaces: Vec<(String, usize)>,
    pub selective: Vec<(String, usize)>,
}

/// The position of `name` among the keys of an association list.
fn find_key(list: &Vec<(String, usize)>, name: &str) -> (r: Option<usize>)
    ensures
        match r {
            Some(i) => i < list@.len() && list@[i as int].0@ == name@ && forall|k: int|
                0 <= k < i ==> (#[trigger] list@[k]).0@ != name@,
            None => forall|i: int| 0 <= i < list@.len() ==> (#[trigger] list@[i]).0@ != name@,
        },
{
    let mut i: usize = 0;
    while i < list.len()
        invariant
            i <= list@.len(),
            forall|k: int| 0 <= k < i ==> (#[trigger] list@[k]).0@ != name@,
        decreases list.len() - i,
    {
        if str_eq(list[i].0.as_str(), name) {
            return Some(i);
        }
        i += 1;
    }
    None
}

/// The position of the symbol named `name` in a symbol table.
fn find_symbol(syms: &Vec<ModuleSymbol>, name: &str) -> (r: Option<usize>)
    ensures
        match r {
            Some(i) => i < syms@.len() && syms@[i as int].name@ == name@ && forall|k: int|
                0 <= k < i ==> (#[trigger] syms@[k]).name@ != name@,
            None => forall|i: int| 0 <= i < syms@.len() ==> (#[trigger] syms@[i]).name@ != name@,
        },
{
    let mut i: usize = 0;
    while i < syms.len()
        invariant
            i <= syms@.len(),
            forall|k: int| 0 <= k < i ==> (#[trigger] syms@[k]).name@ != name@,
        decreases syms.len() - i,
    {
        if str_eq(syms[i].name.as_str(), name) {
            return Some(i);
        }
        i += 1;
    }
    None
}

/// Whether some import of module `u` names module `v`.
pub open spec fn imports_module(ms: Seq<ModuleSource>, mode: ResolutionMode, u: int, v: int) -> bool {
    exists|x: int| 0 <= x < module_sites(ms, u).len() && site_target(ms, mode, u, x) == Some(v)
}

/// Whether every import names a module and `g` holds exactly the imported
/// modules of each module.
pub open spec fn graph_of_imports(ms: Seq<ModuleSource>, mode: ResolutionMode, g: Seq<Seq<usize>>) -> bool {
    &&& g.len() == ms.len()
    &&& forall|u: int, x: int|
        0 <= u < ms.len() && 0 <= x < module_sites(ms, u).len() ==> (#[trigger] site_target(
            ms,
            mode,
            u,
            x,
        )) is Some && g[u].contains(site_target(ms, mode, u, x)->0 as usize)
    &&& forall|u: int, e: int|
        0 <= u < g.len() && 0 <= e < g[u].len() ==> imports_module(ms, mode, u, #[trigger] g[u][e] as int)
}

/// Whether `x` occurs in `v`.
fn has_index(v: &Vec<usize>, x: usize) -> (b: bool)
    ensures
        b == v@.contains(x),
{
    let mut i: usize = 0;
    while i < v.len()
        invariant
            i <= v@.len(),
            forall|k: int| 0 <= k < i ==> v@[k] != x,
        decreases v.len() - i,
    {
        if v[i] == x {
            return true;
        }
        i += 1;
    }
    false
}

/// The symbols of module `u`, as plain values.
pub open spec fn module_syms(ms: Seq<ModuleSource>, u: int) -> Seq<SymView> {
    module_declarations(ms, u).map_values(|d: (Seq<char>, Option<Modifier>, SymbolKind)| symbol_of(ms[u].name@, d))
}

/// The names a module's imports bring into scope, as plain values: each
/// namespace and each selected symbol with its module.
pub struct ScopeView {
    pub namespaces: Seq<(Seq<char>, int)>,
    pub selective: Seq<(Seq<char>, int)>,
}

/// A scope as plain values.
pub open spec fn scope_view(s: ImportScope) -> ScopeView {
    ScopeView { namespaces: entries_view(s.namespaces@), selective: entries_view(s.selective@) }
}

/// The diagnostic `message` for import `x` of module `u`.
pub open spec fn site_message(ms: Seq<ModuleSource>, u: int, x: int, message: Seq<char>) -> Seq<char> {
    import_message(ms[u].path@, module_sites(ms, u)[x].2, module_sites(ms, u)[x].3, message)
}

/// The scope after import `x` of module `u`, or its diagnostic: the module
/// must exist; a selected symbol must exist there, be public, not be
/// declared by the importing module, and not be selected from another
/// module already; a namespace must not name another module already.
pub open spec fn scope_step(ms: Seq<ModuleSource>, mode: ResolutionMode, u: int, x: int, sc: ScopeView) -> Result<
    ScopeView,
    Seq<char>,
> {
    let site = module_sites(ms, u)[x];
    let path = dotted(site.0);
    match site_target(ms, mode, u, x) {
        None => Err(site_message(ms, u, x, "module '"@ + path + "' not found"@)),
        Some(t) => match site.1 {
            Some(sym) => match sym_named(module_syms(ms, t), sym) {
                None => Err(
                    site_message(ms, u, x, "symbol '"@ + sym + "' not found in module '"@ + path + "'"@),
                ),
                Some(s) => if !s.2 {
                    Err(site_message(ms, u, x, "symbol '"@ + sym + "' in module '"@ + path + "' is private"@))
                } else if sym_named(module_syms(ms, u), sym) is Some {
                    Err(
                        site_message(
                            ms,
                            u,
                            x,
                            "imported symbol '"@ + sym + "' conflicts with a declaration in module '"@
                                + ms[u].name@ + "'"@,
                        ),
                    )
                } else {
                    match key_of(sc.selective, sym) {
                        Some(k) => if k != t {
                            Err(
                                site_message(
                                    ms,
                                    u,
                                    x,
                                    "imported symbol '"@ + sym + "' conflicts with another symbol in this scope"@,
                                ),
                            )
                        } else {
                            Ok(sc)
                        },
                        None => Ok(ScopeView { namespaces: sc.namespaces, selective: sc.selective.push((sym, t)) }),
                    }
                },
            },
            None => match key_of(sc.namespaces, path) {
                Some(k) => if k != t {
                    Err(site_message(ms, u, x, "module namespace '"@ + path + "' conflicts in this scope"@))
                } else {
                    Ok(sc)
                },
                None => Ok(ScopeView { namespaces: sc.namespaces.push((path, t)), selective: sc.selective }),
            },
        },
    }
}

/// The scope after the first `n` imports of module `u`, or the first diagnostic.
pub open spec fn scope_upto(ms: Seq<ModuleSource>, mode: ResolutionMode, u: int, n: int) -> Result<
    ScopeView,
    Seq<char>,
>
    decreases n,
{
    if n <= 0 {
        Ok(ScopeView { namespaces: seq![], selective: seq![] })
    } else {
        match scope_upto(ms, mode, u, n - 1) {
            Ok(sc) => scope_step(ms, mode, u, n - 1, sc),
            Err(m) => Err(m),
        }
    }
}

/// The scopes of the first `n` modules, or the first diagnostic.
pub open spec fn scopes_upto(ms: Seq<ModuleSource>, mode: ResolutionMode, n: int) -> Result<
    Seq<ScopeView>,
    Seq<char>,
>
    decreases n,
{
    if n <= 0 {
        Ok(seq![])
    } else {
        match scopes_upto(ms, mode, n - 1) {
            Ok(ss) => match scope_upto(ms, mode, n - 1, module_sites(ms, n - 1).len() as int) {
                Ok(sc) => Ok(ss.push(sc)),
                Err(m) => Err(m),
            },
            Err(m) => Err(m),
        }
    }
}

/// The scope of every module, or the diagnostic for the first import that
/// is refused (modules and their imports in order).
pub open spec fn import_scopes(ms: Seq<ModuleSource>, mode: ResolutionMode) -> Result<Seq<ScopeView>, Seq<char>> {
    scopes_upto(ms, mode, ms.len() as int)
}

proof fn lemma_scope_error_stays(ms: Seq<ModuleSource>, mode: ResolutionMode, u: int, n: int, k: int, m: Seq<char>)
    requires
        0 < n <= k,
        scope_upto(ms, mode, u, n) == Err::<ScopeView, Seq<char>>(m),
    ensures
        scope_upto(ms, mode, u, k) == Err::<ScopeView, Seq<char>>(m),
    decreases k - n,
{
    if k > n {
        lemma_scope_error_stays(ms, mode, u, n, k - 1, m);
    }
}

proof fn lemma_scopes_error_stays(ms: Seq<ModuleSource>, mode: ResolutionMode, n: int, k: int, m: Seq<char>)
    requires
        0 < n <= k,
        scopes_upto(ms, mode, n) == Err::<Seq<ScopeView>, Seq<char>>(m),
    ensures
        scopes_upto(ms, mode, k) == Err::<Seq<ScopeView>, Seq<char>>(m),
    decreases k - n,
{
    if k > n {
        lemma_scopes_error_stays(ms, mode, n, k - 1, m);
    }
}

proof fn lemma_import_refused(
    ms: Seq<ModuleSource>,
    mode: ResolutionMode,
    u: int,
    x: int,
    sc: ScopeView,
    msg: Seq<char>,
)
    requires
        0 <= u < ms.len(),
        0 <= x < module_sites(ms, u).len(),
        scopes_upto(ms, mode, u) is Ok,
        scope_upto(ms, mode, u, x) == Ok::<ScopeView, Seq<char>>(sc),
        scope_step(ms, mode, u, x, sc) == Err::<ScopeView, Seq<char>>(msg),
    ensures
        import_scopes(ms, mode) == Err::<Seq<ScopeView>, Seq<char>>(msg),
{
    assert(scope_upto(ms, mode, u, x + 1) == Err::<ScopeView, Seq<char>>(msg));
    lemma_scope_error_stays(ms, mode, u, x + 1, module_sites(ms, u).len() as int, msg);
    assert(scopes_upto(ms, mode, u + 1) == Err::<Seq<ScopeView>, Seq<char>>(msg));
    lemma_scopes_error_stays(ms, mode, u + 1, ms.len() as int, msg);
}

/// Checks every top-level import of every module: the module it names must
/// exist; a selected symbol must exist there, be public, not clash with a
/// declaration of the importer, and not clash with another selected symbol;
/// a namespace must not clash with another namespace. Gives the modules each
/// module imports and the names each module's imports bring into scope.
fn check_imports(table: &ModuleTable, symbols: &Vec<Vec<ModuleSymbol>>, mode: &ResolutionMode) -> (r:
    Result<(Vec<Vec<usize>>, Vec<ImportScope>), ForgeError>)
    requires
        table.wf(),
        symbols@.len() == table.entries().len(),
        forall|i: int|
            0 <= i < symbols@.len() ==> symbols_view(#[trigger] symbols@[i]@) == module_syms(
                table.entries(),
                i,
            ),
    ensures
        match r {
            Ok((g, scopes)) => graph_of_imports(table.entries(), *mode, graph_view(g@))
                && edges_valid(graph_view(g@)) && scopes@.len() == table.entries().len() && (forall|
                u: int,
            | 0 <= u < scopes@.len() ==> scope_ok(#[trigger] scopes@[u], symbols@)) && import_scopes(
                table.entries(),
                *mode,
            ) == Ok::<Seq<ScopeView>, Seq<char>>(scopes@.map_values(|sc: ImportScope| scope_view(sc))),
            Err(e) => import_scopes(table.entries(), *mode) == Err::<Seq<ScopeView>, Seq<char>>(
                e.message@,
            ),
        },
{
    let ghost ms = table.entries();
    let n = table.modules.len();
    let mut graph: Vec<Vec<usize>> = Vec::new();
    let mut scopes: Vec<ImportScope> = Vec::new();
    assert(scopes@.map_values(|sc: ImportScope| scope_view(sc)) =~= Seq::<ScopeView>::empty());
    let mut mi: usize = 0;
    while mi < n
        invariant
            ms == table.entries(),
            ms == table.modules@,
            table.wf(),
            n == ms.len(),
            symbols@.len() == n,
            mi <= n,
            graph@.len() == mi,
            scopes@.len() == mi,
            forall|u: int| 0 <= u < mi ==> scope_ok(#[trigger] scopes@[u], symbols@),
            forall|i: int|
                0 <= i < symbols@.len() ==> symbols_view(#[trigger] symbols@[i]@) == module_syms(ms, i),
            scopes_upto(ms, *mode, mi as int) == Ok::<Seq<ScopeView>, Seq<char>>(
                scopes@.map_values(|sc: ImportScope| scope_view(sc)),
            ),
            forall|u: int, x: int|
                0 <= u < mi && 0 <= x < module_sites(ms, u).len() ==> (#[trigger] site_target(
                    ms,
                    *mode,
                    u,
                    x,
                )) is Some && graph@[u]@.contains(site_target(ms, *mode, u, x)->0 as usize),
            forall|u: int, e: int|
                0 <= u < mi && 0 <= e < graph@[u]@.len() ==> imports_module(
                    ms,
                    *mode,
                    u,
                    #[trigger] graph@[u]@[e] as int,
                ) && graph@[u]@[e] < n,
        decreases n - mi,
    {
        let module = &table.modules[mi];
        let imports = top_level_imports(&module.program.statements);
        let ghost sv = module_sites(ms, mi as int);
        assert(imports@.map_values(|i: ImportSite| site_view(i)) == sv);
        let mut edges: Vec<usize> = Vec::new();
        let mut scope = ImportScope { namespaces: Vec::new(), selective: Vec::new() };
        assert(scope_view(scope).namespaces =~= Seq::<(Seq<char>, int)>::empty());
        assert(scope_view(scope).selective =~= Seq::<(Seq<char>, int)>::empty());
        let mut x: usize = 0;
        while x < imports.len()
            invariant
                ms == table.entries(),
                ms == table.modules@,
                table.wf(),
                n == ms.len(),
                symbols@.len() == n,
                mi < n,
                *module == ms[mi as int],
                sv == module_sites(ms, mi as int),
                imports@.map_values(|i: ImportSite| site_view(i)) == sv,
                x <= imports@.len(),
                scope_ok(scope, symbols@),
                forall|i: int|
                    0 <= i < symbols@.len() ==> symbols_view(#[trigger] symbols@[i]@) == module_syms(
                        ms,
                        i,
                    ),
                scopes_upto(ms, *mode, mi as int) == Ok::<Seq<ScopeView>, Seq<char>>(
                    scopes@.map_values(|sc: ImportScope| scope_view(sc)),
                ),
                scope_upto(ms, *mode, mi as int, x as int) == Ok::<ScopeView, Seq<char>>(scope_view(scope)),
                forall|y: int|
                    0 <= y < x ==> (#[trigger] site_target(ms, *mode, mi as int, y)) is Some
                        && edges@.contains(site_target(ms, *mode, mi as int, y)->0 as usize),
                forall|e: int|
                    0 <= e < edges@.len() ==> imports_module(ms, *mode, mi as int, #[trigger] edges@[e] as int)
                        && edges@[e] < n,
            decreases imports.len() - x,
        {
            let site = &imports[x];
            assert(site_view(*site) == sv[x as int]);
            let ghost sc = scope_view(scope);
            let ghost path = dotted(sv[x as int].0);
            let target = match resolve_module_index(table, mi, x, &site.path, mode) {
                Some(t) => t,
                None => {
                    let mut m = concat("module '", dotted_path(&site.path).as_str());
                    append(&mut m, "' not found");
                    proof {
                        assert(scope_step(ms, *mode, mi as int, x as int, sc) == Err::<ScopeView, Seq<char>>(
                            site_message(ms, mi as int, x as int, m@),
                        ));
                        lemma_import_refused(ms, *mode, mi as int, x as int, sc, site_message(ms, mi as int, x as int, m@));
                    }
                    return Err(import_error(module.path.as_str(), site, m));
                },
            };
            assert(target < n);
            let ghost old_edges = edges@;
            if !has_index(&edges, target) {
                edges.push(target);
            }
            proof {
                assert(imports_module(ms, *mode, mi as int, target as int));
                assert forall|e: int| 0 <= e < edges@.len() implies imports_module(
                    ms,
                    *mode,
                    mi as int,
                    #[trigger] edges@[e] as int,
                ) && edges@[e] < n by {
                    if e < old_edges.len() {
                        assert(edges@[e] == old_edges[e]);
                    }
                }
                assert forall|y: int| 0 <= y < x + 1 implies (#[trigger] site_target(
                    ms,
                    *mode,
                    mi as int,
                    y,
                )) is Some && edges@.contains(site_target(ms, *mode, mi as int, y)->0 as usize) by {
                    if y < x {
                        let w = choose|w: int| 0 <= w < old_edges.len() && old_edges[w] == site_target(ms, *mode, mi as int, y)->0 as usize;
                        assert(edges@[w] == old_edges[w]);
                    } else if old_edges.contains(target) {
                        let w = choose|w: int| 0 <= w < old_edges.len() && old_edges[w] == target;
                        assert(edges@[w] == old_edges[w]);
                    } else {
                        assert(edges@[old_edges.len() as int] == target);
                    }
                }
            }
            let tsyms = &symbols[target];
            assert(symbols_view(tsyms@) == module_syms(ms, target as int));
            assert(symbols_view(symbols@[mi as int]@) == module_syms(ms, mi as int));
            match &site.symbol {
                Some(symbol_name) => {
                    let dotted_name = dotted_path(&site.path);
                    match find_symbol(tsyms, symbol_name.as_str()) {
                        None => {
                            let mut m = concat("symbol '", symbol_name.as_str());
                            append(&mut m, "' not found in module '");
                            append(&mut m, dotted_name.as_str());
                            append(&mut m, "'");
                            proof {
                                lemma_symbol_absent(tsyms@, symbol_name@);
                                assert(scope_step(ms, *mode, mi as int, x as int, sc) == Err::<ScopeView, Seq<char>>(
                                    site_message(ms, mi as int, x as int, m@),
                                ));
                                lemma_import_refused(ms, *mode, mi as int, x as int, sc, site_message(ms, mi as int, x as int, m@));
                            }
                            return Err(import_error(module.path.as_str(), site, m));
                        },
                        Some(si) => {
                            proof {
                                lemma_symbol_found(tsyms@, symbol_name@, si as int);
                            }
                            if !tsyms[si].is_public {
                                let mut m = concat("symbol '", symbol_name.as_str());
                                append(&mut m, "' in module '");
                                append(&mut m, dotted_name.as_str());
                                append(&mut m, "' is private");
                                proof {
                                    assert(scope_step(ms, *mode, mi as int, x as int, sc) == Err::<ScopeView, Seq<char>>(
                                        site_message(ms, mi as int, x as int, m@),
                                    ));
                                    lemma_import_refused(ms, *mode, mi as int, x as int, sc, site_message(ms, mi as int, x as int, m@));
                                }
                                return Err(import_error(module.path.as_str(), site, m));
                            }
                        },
                    }
                    match find_symbol(&symbols[mi], symbol_name.as_str()) {
                        Some(own) => {
                            proof {
                                lemma_symbol_found(symbols@[mi as int]@, symbol_name@, own as int);
                            }
                            let mut m = concat("imported symbol '", symbol_name.as_str());
                            append(&mut m, "' conflicts with a declaration in module '");
                            append(&mut m, module.name.as_str());
                            append(&mut m, "'");
                            proof {
                                assert(scope_step(ms, *mode, mi as int, x as int, sc) == Err::<ScopeView, Seq<char>>(
                                    site_message(ms, mi as int, x as int, m@),
                                ));
                                lemma_import_refused(ms, *mode, mi as int, x as int, sc, site_message(ms, mi as int, x as int, m@));
                            }
                            return Err(import_error(module.path.as_str(), site, m));
                        },
                        None => {
                            proof {
                                lemma_symbol_absent(symbols@[mi as int]@, symbol_name@);
                            }
                        },
                    }
                    match find_key(&scope.selective, symbol_name.as_str()) {
                        Some(k) => {
                            proof {
                                lemma_key_found(scope.selective@, symbol_name@, k as int);
                            }
                            if scope.selective[k].1 != target {
                                let mut m = concat("imported symbol '", symbol_name.as_str());
                                append(&mut m, "' conflicts with another symbol in this scope");
                                proof {
                                    assert(scope_step(ms, *mode, mi as int, x as int, sc) == Err::<ScopeView, Seq<char>>(
                                        site_message(ms, mi as int, x as int, m@),
                                    ));
                                    lemma_import_refused(ms, *mode, mi as int, x as int, sc, site_message(ms, mi as int, x as int, m@));
                                }
                                return Err(import_error(module.path.as_str(), site, m));
                            }
                            assert(scope_step(ms, *mode, mi as int, x as int, sc) == Ok::<ScopeView, Seq<char>>(sc));
                        },
                        None => {
                            proof {
                                lemma_key_absent(scope.selective@, symbol_name@);
                            }
                            let si = find_symbol(tsyms, symbol_name.as_str());
                            let entry = (symbol_name.clone(), target);
                            proof {
                                let j = si->0 as int;
                                assert(symbols@[target as int]@[j].name@ == entry.0@);
                                assert(selected_exists(symbols@, entry));
                            }
                            let ghost before = scope.selective@;
                            scope.selective.push(entry);
                            proof {
                                assert forall|k: int| 0 <= k < scope.selective@.len() implies selected_exists(
                                    symbols@,
                                    #[trigger] scope.selective@[k],
                                ) by {
                                    if k < before.len() {
                                        assert(scope.selective@[k] == before[k]);
                                    }
                                }
                                assert(entries_view(scope.selective@) =~= entries_view(before).push(
                                    (symbol_name@, target as int),
                                ));
                                assert(scope_step(ms, *mode, mi as int, x as int, sc) == Ok::<ScopeView, Seq<char>>(
                                    scope_view(scope),
                                ));
                            }
                        },
                    }
                },
                None => {
                    let name = dotted_path(&site.path);
                    match find_key(&scope.namespaces, name.as_str()) {
                        Some(k) => {
                            proof {
                                lemma_key_found(scope.namespaces@, name@, k as int);
                            }
                            if scope.namespaces[k].1 != target {
                                let mut m = concat("module namespace '", name.as_str());
                                append(&mut m, "' conflicts in this scope");
                                proof {
                                    assert(scope_step(ms, *mode, mi as int, x as int, sc) == Err::<ScopeView, Seq<char>>(
                                        site_message(ms, mi as int, x as int, m@),
                                    ));
                                    lemma_import_refused(ms, *mode, mi as int, x as int, sc, site_message(ms, mi as int, x as int, m@));
                                }
                                return Err(import_error(module.path.as_str(), site, m));
                            }
                            assert(scope_step(ms, *mode, mi as int, x as int, sc) == Ok::<ScopeView, Seq<char>>(sc));
                        },
                        None => {
                            proof {
                                lemma_key_absent(scope.namespaces@, name@);
                            }
                            let ghost before = scope.namespaces@;
                            scope.namespaces.push((name, target));
                            proof {
                                assert(entries_view(scope.namespaces@) =~= entries_view(before).push(
                                    (path, target as int),
                                ));
                                assert(scope_step(ms, *mode, mi as int, x as int, sc) == Ok::<ScopeView, Seq<char>>(
                                    scope_view(scope),
                                ));
                            }
                        },
                    }
                },
            }
            x += 1;
        }
        let ghost old_graph = graph@;
        let ghost old_scopes = scopes@;
        graph.push(edges);
        scopes.push(scope);
        proof {
            assert(sv.len() == imports@.len());
            assert(scopes@.map_values(|sc: ImportScope| scope_view(sc)) =~= old_scopes.map_values(
                |sc: ImportScope| scope_view(sc),
            ).push(scope_view(scopes@[mi as int])));
            assert forall|u: int| 0 <= u < mi + 1 implies scope_ok(#[trigger] scopes@[u], symbols@) by {
                if u < mi {
                    assert(scopes@[u] == old_scopes[u]);
                }
            }
            assert forall|u: int, y: int|
                0 <= u < mi + 1 && 0 <= y < module_sites(ms, u).len() implies (#[trigger] site_target(
                ms,
                *mode,
                u,
                y,
            )) is Some && graph@[u]@.contains(site_target(ms, *mode, u, y)->0 as usize) by {
                if u < mi {
                    assert(graph@[u] == old_graph[u]);
                } else {
                    assert(sv.len() == imports@.len());
                }
            }
            assert forall|u: int, e: int| 0 <= u < mi + 1 && 0 <= e < graph@[u]@.len() implies imports_module(
                ms,
                *mode,
                u,
                #[trigger] graph@[u]@[e] as int,
            ) && graph@[u]@[e] < n by {
                if u < mi {
                    assert(graph@[u] == old_graph[u]);
                }
            }
        }
        mi += 1;
    }
    proof {
        let g = graph_view(graph@);
        assert forall|u: int, k: int| 0 <= u < g.len() && 0 <= k < g[u].len() implies (#[trigger] g[u][k])
            < g.len() by {
            assert(g[u] == graph@[u]@);
            assert(graph@[u]@[k] < n);
        }
        assert forall|u: int, x: int|
            0 <= u < ms.len() && 0 <= x < module_sites(ms, u).len() implies (#[trigger] site_target(
            ms,
            *mode,
            u,
            x,
        )) is Some && g[u].contains(site_target(ms, *mode, u, x)->0 as usize) by {
            assert(g[u] == graph@[u]@);
        }
        assert forall|u: int, e: int| 0 <= u < g.len() && 0 <= e < g[u].len() implies imports_module(
            ms,
            *mode,
            u,
            #[trigger] g[u][e] as int,
        ) by {
            assert(g[u] == graph@[u]@);
            assert(graph@[u]@[e] == g[u][e]);
        }
    }
    Ok((graph, scopes))
}

/// What the rewriting of one module's statements reads: the module's
/// position, its file path, every module's name and symbols, and the names
/// its imports bring into scope.
pub struct RewriteContext<'a> {
    pub module_index: usize,
    pub importer_path: &'a String,
    pub names: &'a Vec<String>,
    pub symbols: &'a Vec<Vec<ModuleSymbol>>,
    pub scope: &'a ImportScope,
}

/// Whether a selected symbol exists in the module it comes from.
pub open spec fn selected_exists(symbols: Seq<Vec<ModuleSymbol>>, entry: (String, usize)) -> bool {
    entry.1 < symbols.len() && exists|j: int|
        0 <= j < symbols[entry.1 as int]@.len() && symbols[entry.1 as int]@[j].name@ == entry.0@
}

/// Whether every module a scope names exists, and every selected symbol too.
pub open spec fn scope_ok(scope: ImportScope, symbols: Seq<Vec<ModuleSymbol>>) -> bool {
    &&& forall|k: int| 0 <= k < scope.namespaces@.len() ==> (#[trigger] scope.namespaces@[k]).1 < symbols.len()
    &&& forall|k: int| 0 <= k < scope.selective@.len() ==> selected_exists(symbols, #[trigger] scope.selective@[k])
}

/// Whether the context's positions are all in range and its scope is sound.
pub open spec fn context_ok(c: RewriteContext) -> bool {
    &&& c.names@.len() == c.symbols@.len()
    &&& c.module_index < c.symbols@.len()
    &&& scope_ok(*c.scope, c.symbols@)
}

/// A symbol as plain values: its name, its name in the resolved program,
/// whether it is public, and its kind.
pub type SymView = (Seq<char>, Seq<char>, bool, SymbolKind);

/// What rewriting one module reads, as plain values: the module's position,
/// its file path, every module's name and symbols, and the namespaces and
/// selected symbols its imports bring into scope (each with its module).
pub struct RewriteEnv {
    pub module: int,
    pub path: Seq<char>,
    pub names: Seq<Seq<char>>,
    pub symbols: Seq<Seq<SymView>>,
    pub namespaces: Seq<(Seq<char>, int)>,
    pub selective: Seq<(Seq<char>, int)>,
}

/// Scope entries as plain values.
pub open spec fn entries_view(v: Seq<(String, usize)>) -> Seq<(Seq<char>, int)> {
    v.map_values(|e: (String, usize)| (e.0@, e.1 as int))
}

/// The context of a rewriting, as plain values.
pub open spec fn env_of(ctx: RewriteContext) -> RewriteEnv {
    RewriteEnv {
        module: ctx.module_index as int,
        path: ctx.importer_path@,
        names: ctx.names@.map_values(|s: String| s@),
        symbols: ctx.symbols@.map_values(|t: Vec<ModuleSymbol>| symbols_view(t@)),
        namespaces: entries_view(ctx.scope.namespaces@),
        selective: entries_view(ctx.scope.selective@),
    }
}

/// The symbol, if it is named `name`.
pub open spec fn symbol_if_named(name: Seq<char>) -> spec_fn(SymView) -> Option<SymView> {
    |s: SymView|
        if s.0 == name {
            Some(s)
        } else {
            None
        }
}

/// The first symbol of a table named `name`.
pub open spec fn sym_named(t: Seq<SymView>, name: Seq<char>) -> Option<SymView> {
    first_some(t, symbol_if_named(name))
}

/// The name in the resolved program of the first symbol of a table named `name`.
pub open spec fn resolved_in(t: Seq<SymView>, name: Seq<char>) -> Option<Seq<char>> {
    match sym_named(t, name) {
        Some(s) => Some(s.1),
        None => None,
    }
}

/// The module of an entry, if it is named `name`.
pub open spec fn module_if_named(name: Seq<char>) -> spec_fn((Seq<char>, int)) -> Option<int> {
    |e: (Seq<char>, int)|
        if e.0 == name {
            Some(e.1)
        } else {
            None
        }
}

/// The module of the first entry named `name`.
pub open spec fn key_of(list: Seq<(Seq<char>, int)>, name: Seq<char>) -> Option<int> {
    first_some(list, module_if_named(name))
}

/// The symbol a name used in a module stands for: the module's own
/// declaration of that name, else a symbol selected by `Using`.
pub open spec fn own_or_selected(env: RewriteEnv, name: Seq<char>) -> Option<SymView> {
    match sym_named(env.symbols[env.module], name) {
        Some(s) => Some(s),
        None => match key_of(env.selective, name) {
            Some(t) => sym_named(env.symbols[t], name),
            None => None,
        },
    }
}

/// The name path an expression spells (`A`, `A.B`, ...), if it is one.
pub open spec fn expr_path(e: Expr) -> Option<Seq<Seq<char>>>
    decreases e,
{
    match e {
        Expr::Identifier(name) => Some(seq![name@]),
        Expr::MemberAccess { object, member } => match expr_path(*object) {
            Some(p) => Some(p.push(member@)),
            None => None,
        },
        _ => None,
    }
}

/// The module a method call's receiver names as a namespace, if any.
pub open spec fn namespace_of(env: RewriteEnv, object: Expr) -> Option<int> {
    match expr_path(object) {
        Some(p) => key_of(env.namespaces, dotted(p)),
        None => None,
    }
}

/// Whether an expression's uses of imported names are allowed: a call
/// names a function (or nothing imported); a method call on a namespace
/// names a public function of that module; and so for every part.
pub open spec fn expr_rewrite_ok(e: Expr, env: RewriteEnv) -> bool
    decreases e,
{
    match e {
        Expr::Call { callee, args } => {
            proof {
                assert(decreases_to!(e => args));
                assert(decreases_to!(args => args@));
            }
            exprs_rewrite_ok(args@, env) && match own_or_selected(env, callee@) {
                Some(s) => s.3 == SymbolKind::Function,
                None => true,
            }
        },
        Expr::MethodCall { object, method, args } => {
            proof {
                assert(decreases_to!(e => args));
                assert(decreases_to!(args => args@));
            }
            exprs_rewrite_ok(args@, env) && match namespace_of(env, *object) {
                Some(t) => match sym_named(env.symbols[t], method@) {
                    Some(s) => s.2 && s.3 == SymbolKind::Function,
                    None => false,
                },
                None => expr_rewrite_ok(*object, env),
            }
        },
        Expr::NamespaceCall { args, .. } => {
            proof {
                assert(decreases_to!(e => args));
                assert(decreases_to!(args => args@));
            }
            exprs_rewrite_ok(args@, env)
        },
        Expr::MemberAccess { object, .. } => expr_rewrite_ok(*object, env),
        Expr::IndexAccess { object, index } => expr_rewrite_ok(*object, env) && expr_rewrite_ok(
            *index,
            env,
        ),
        Expr::BinaryOp { lhs, rhs, .. } => expr_rewrite_ok(*lhs, env) && expr_rewrite_ok(*rhs, env),
        Expr::UnaryOp { operand, .. } => expr_rewrite_ok(*operand, env),
        Expr::ArrayLiteral(els) => {
            proof {
                assert(decreases_to!(e => els));
                assert(decreases_to!(els => els@));
            }
            exprs_rewrite_ok(els@, env)
        },
        Expr::TupleLiteral(els) => {
            proof {
                assert(decreases_to!(e => els));
                assert(decreases_to!(els => els@));
            }
            exprs_rewrite_ok(els@, env)
        },
        Expr::ListLiteral(els) => {
            proof {
                assert(decreases_to!(e => els));
                assert(decreases_to!(els => els@));
            }
            exprs_rewrite_ok(els@, env)
        },
        _ => true,
    }
}

/// Whether every expression of a sequence passes `expr_rewrite_ok`.
pub open spec fn exprs_rewrite_ok(s: Seq<Expr>, env: RewriteEnv) -> bool
    decreases s,
{
    if s.len() == 0 {
        true
    } else {
        proof {
            assert(decreases_to!(s => s.subrange(0, s.len() - 1)));
            assert(decreases_to!(s => s[s.len() - 1]));
        }
        exprs_rewrite_ok(s.subrange(0, s.len() - 1), env) && expr_rewrite_ok(s[s.len() - 1], env)
    }
}

/// Whether `o` is `e` with its imported names rewritten: a call of an own
/// or selected symbol calls its resolved name; a method call on a namespace
/// becomes a call of the resolved name of that module's function; every
/// other expression keeps its shape, with its parts rewritten.
pub open spec fn expr_rewritten(e: Expr, o: Expr, env: RewriteEnv) -> bool
    decreases e,
{
    match e {
        Expr::Call { callee, args } => {
            proof {
                assert(decreases_to!(e => args));
                assert(decreases_to!(args => args@));
            }
            o matches Expr::Call { callee: c2, args: a2 } && exprs_rewritten(args@, a2@, env) && c2@
                == match own_or_selected(env, callee@) {
                Some(s) => s.1,
                None => callee@,
            }
        },
        Expr::MethodCall { object, method, args } => {
            proof {
                assert(decreases_to!(e => args));
                assert(decreases_to!(args => args@));
            }
            match namespace_of(env, *object) {
                Some(t) => o matches Expr::Call { callee: c2, args: a2 } && exprs_rewritten(
                    args@,
                    a2@,
                    env,
                ) && Some(c2@) == resolved_in(env.symbols[t], method@),
                None => o matches Expr::MethodCall { object: o2, method: m2, args: a2 } && m2@
                    == method@ && expr_rewritten(*object, *o2, env) && exprs_rewritten(args@, a2@, env),
            }
        },
        Expr::NamespaceCall { namespace, method, args } => {
            proof {
                assert(decreases_to!(e => args));
                assert(decreases_to!(args => args@));
            }
            o matches Expr::NamespaceCall { namespace: n2, method: m2, args: a2 } && n2@ == namespace@
                && m2@ == method@ && exprs_rewritten(args@, a2@, env)
        },
        Expr::MemberAccess { object, member } => o matches Expr::MemberAccess { object: o2, member: m2 }
            && m2@ == member@ && expr_rewritten(*object, *o2, env),
        Expr::IndexAccess { object, index } => o matches Expr::IndexAccess { object: o2, index: i2 }
            && expr_rewritten(*object, *o2, env) && expr_rewritten(*index, *i2, env),
        Expr::BinaryOp { op, lhs, rhs } => o matches Expr::BinaryOp { op: op2, lhs: l2, rhs: r2 }
            && op2 == op && expr_rewritten(*lhs, *l2, env) && expr_rewritten(*rhs, *r2, env),
        Expr::UnaryOp { op, operand } => o matches Expr::UnaryOp { op: op2, operand: x2 } && op2 == op
            && expr_rewritten(*operand, *x2, env),
        Expr::ArrayLiteral(els) => {
            proof {
                assert(decreases_to!(e => els));
                assert(decreases_to!(els => els@));
            }
            o matches Expr::ArrayLiteral(e2) && exprs_rewritten(els@, e2@, env)
        },
        Expr::TupleLiteral(els) => {
            proof {
                assert(decreases_to!(e => els));
                assert(decreases_to!(els => els@));
            }
            o matches Expr::TupleLiteral(e2) && exprs_rewritten(els@, e2@, env)
        },
        Expr::ListLiteral(els) => {
            proof {
                assert(decreases_to!(e => els));
                assert(decreases_to!(els => els@));
            }
            o matches Expr::ListLiteral(e2) && exprs_rewritten(els@, e2@, env)
        },
        _ => o == e,
    }
}

/// Whether each expression of `t` is the rewriting of the one of `s`.
pub open spec fn exprs_rewritten(s: Seq<Expr>, t: Seq<Expr>, env: RewriteEnv) -> bool
    decreases s,
{
    if s.len() != t.len() {
        false
    } else if s.len() == 0 {
        true
    } else {
        proof {
            assert(decreases_to!(s => s.subrange(0, s.len() - 1)));
            assert(decreases_to!(s => s[s.len() - 1]));
        }
        exprs_rewritten(s.subrange(0, s.len() - 1), t.subrange(0, t.len() - 1), env)
            && expr_rewritten(s[s.len() - 1], t[t.len() - 1], env)
    }
}

/// The diagnostic for a symbol of the wrong kind.
fn require_symbol_kind(importer_path: &String, name: &str, symbol: &ModuleSymbol, expected: SymbolKind) -> (r:
    Result<(), ForgeError>)
    ensures
        r is Ok <==> symbol.kind == expected,
{
    if symbol.kind == expected {
        return Ok(());
    }
    let mut m = concat(importer_path.as_str(), ": symbol '");
    append(&mut m, name);
    append(&mut m, "' is not ");
    match expected {
        SymbolKind::Function => append(&mut m, "callable"),
        SymbolKind::Data => append(&mut m, "a Data declaration"),
    }
    Err(ForgeError::parse(m))
}

/// The name path an expression spells (`A`, `A.B`, ...), if it is one.
fn expression_path(expression: &Expr) -> (r: Option<Vec<String>>)
    ensures
        match r {
            Some(p) => expr_path(*expression) == Some(path_view(p@)),
            None => expr_path(*expression) is None,
        },
    decreases expression,
{
    match expression {
        Expr::Identifier(name) => {
            let mut v: Vec<String> = Vec::new();
            v.push(name.clone());
            assert(path_view(v@) =~= seq![name@]);
            Some(v)
        },
        Expr::MemberAccess { object, member } => {
            match expression_path(object) {
                Some(mut path) => {
                    let ghost before = path@;
                    path.push(member.clone());
                    assert(path_view(path@) =~= path_view(before).push(member@));
                    Some(path)
                },
                None => None,
            }
        },
        _ => None,
    }
}

/// The first entry of a symbol table named `name`, as plain values.
proof fn lemma_symbol_found(syms: Seq<ModuleSymbol>, name: Seq<char>, i: int)
    requires
        0 <= i < syms.len(),
        syms[i].name@ == name,
        forall|k: int| 0 <= k < i ==> (#[trigger] syms[k]).name@ != name,
    ensures
        sym_named(symbols_view(syms), name) == Some(symbol_view(syms[i])),
{
    let t = symbols_view(syms);
    assert forall|k: int| 0 <= k < i implies (symbol_if_named(name))(#[trigger] t[k]) is None by {
        assert(t[k] == symbol_view(syms[k]));
    }
    assert(t[i] == symbol_view(syms[i]));
    crate::semantic::lemma_first_some_at(t, symbol_if_named(name), i);
}

proof fn lemma_symbol_absent(syms: Seq<ModuleSymbol>, name: Seq<char>)
    requires
        forall|k: int| 0 <= k < syms.len() ==> (#[trigger] syms[k]).name@ != name,
    ensures
        sym_named(symbols_view(syms), name) is None,
{
    let t = symbols_view(syms);
    assert forall|k: int| 0 <= k < t.len() implies (symbol_if_named(name))(#[trigger] t[k]) is None by {
        assert(t[k] == symbol_view(syms[k]));
    }
    crate::semantic::lemma_first_some_none(t, symbol_if_named(name));
}

proof fn lemma_key_found(list: Seq<(String, usize)>, name: Seq<char>, i: int)
    requires
        0 <= i < list.len(),
        list[i].0@ == name,
        forall|k: int| 0 <= k < i ==> (#[trigger] list[k]).0@ != name,
    ensures
        key_of(entries_view(list), name) == Some(list[i].1 as int),
{
    let t = entries_view(list);
    assert forall|k: int| 0 <= k < i implies (module_if_named(name))(#[trigger] t[k]) is None by {
        assert(t[k] == (list[k].0@, list[k].1 as int));
    }
    assert(t[i] == (list[i].0@, list[i].1 as int));
    crate::semantic::lemma_first_some_at(t, module_if_named(name), i);
}

proof fn lemma_key_absent(list: Seq<(String, usize)>, name: Seq<char>)
    requires
        forall|k: int| 0 <= k < list.len() ==> (#[trigger] list[k]).0@ != name,
    ensures
        key_of(entries_view(list), name) is None,
{
    let t = entries_view(list);
    assert forall|k: int| 0 <= k < t.len() implies (module_if_named(name))(#[trigger] t[k]) is None by {
        assert(t[k] == (list[k].0@, list[k].1 as int));
    }
    crate::semantic::lemma_first_some_none(t, module_if_named(name));
}

/// The resolved name of a call or `Data` type named `name` in the module:
/// its own declaration first, then a selected import.
fn local_or_selected<'a>(ctx: &RewriteContext<'a>, name: &str) -> (r: Option<&'a ModuleSymbol>)
    requires
        context_ok(*ctx),
    ensures
        match r {
            Some(s) => own_or_selected(env_of(*ctx), name@) == Some(symbol_view(*s)),
            None => own_or_selected(env_of(*ctx), name@) is None,
        },
{
    let ghost env = env_of(*ctx);
    let own = &ctx.symbols[ctx.module_index];
    assert(env.symbols[env.module] == symbols_view(own@));
    match find_symbol(own, name) {
        Some(i) => {
            proof {
                lemma_symbol_found(own@, name@, i as int);
            }
            Some(&own[i])
        },
        None => {
            proof {
                lemma_symbol_absent(own@, name@);
            }
            match find_key(&ctx.scope.selective, name) {
                Some(k) => {
                    proof {
                        lemma_key_found(ctx.scope.selective@, name@, k as int);
                    }
                    let target = ctx.scope.selective[k].1;
                    let theirs = &ctx.symbols[target];
                    assert(env.symbols[target as int] == symbols_view(theirs@));
                    match find_symbol(theirs, ctx.scope.selective[k].0.as_str()) {
                        Some(i) => {
                            proof {
                                lemma_symbol_found(theirs@, name@, i as int);
                            }
                            Some(&theirs[i])
                        },
                        None => {
                            proof {
                                let entry = ctx.scope.selective@[k as int];
                                assert(selected_exists(ctx.symbols@, entry));
                                let j = choose|j: int|
                                    0 <= j < ctx.symbols@[entry.1 as int]@.len()
                                        && ctx.symbols@[entry.1 as int]@[j].name@ == entry.0@;
                                assert(theirs@[j].name@ != entry.0@);
                            }
                            None
                        },
                    }
                },
                None => {
                    proof {
                        lemma_key_absent(ctx.scope.selective@, name@);
                    }
                    None
                },
            }
        },
    }
}

proof fn lemma_exprs_rewrite_ok(s: Seq<Expr>, env: RewriteEnv)
    ensures
        exprs_rewrite_ok(s, env) <==> forall|j: int| 0 <= j < s.len() ==> #[trigger] expr_rewrite_ok(s[j], env),
    decreases s.len(),
{
    if s.len() > 0 {
        let q = s.subrange(0, s.len() - 1);
        lemma_exprs_rewrite_ok(q, env);
        assert forall|j: int| 0 <= j < q.len() implies q[j] == s[j] by {}
        if forall|j: int| 0 <= j < s.len() ==> #[trigger] expr_rewrite_ok(s[j], env) {
            assert forall|j: int| 0 <= j < q.len() implies #[trigger] expr_rewrite_ok(q[j], env) by {
                assert(q[j] == s[j]);
            }
            assert(expr_rewrite_ok(s[s.len() - 1], env));
        }
        if exprs_rewrite_ok(s, env) {
            assert forall|j: int| 0 <= j < s.len() implies #[trigger] expr_rewrite_ok(s[j], env) by {
                if j < s.len() - 1 {
                    assert(q[j] == s[j]);
                }
            }
        }
    }
}

/// Rewrites a list of expressions, in order.
fn rewrite_exprs(v: Vec<Expr>, ctx: &RewriteContext) -> (r: Result<Vec<Expr>, ForgeError>)
    requires
        context_ok(*ctx),
    ensures
        match r {
            Ok(o) => exprs_rewrite_ok(v@, env_of(*ctx)) && exprs_rewritten(v@, o@, env_of(*ctx)),
            Err(_) => !exprs_rewrite_ok(v@, env_of(*ctx)),
        },
    decreases v,
{
    let ghost env = env_of(*ctx);
    let ghost orig = v;
    let mut rest = v;
    let mut out: Vec<Expr> = Vec::new();
    while rest.len() > 0
        invariant
            context_ok(*ctx),
            env == env_of(*ctx),
            orig == v,
            out@.len() + rest@.len() == orig@.len(),
            rest@ == orig@.skip(out@.len() as int),
            exprs_rewrite_ok(orig@.take(out@.len() as int), env),
            exprs_rewritten(orig@.take(out@.len() as int), out@, env),
        decreases rest.len(),
    {
        let k = out.len();
        let e = rest.remove(0);
        proof {
            assert(e == orig@[k as int]);
            assert(decreases_to!(orig => orig@));
            assert(decreases_to!(orig@ => orig@[k as int]));
        }
        let done = match rewrite_expr(e, ctx) {
            Ok(d) => d,
            Err(err) => {
                proof {
                    lemma_exprs_rewrite_ok(orig@, env);
                }
                return Err(err);
            },
        };
        let ghost before = out@;
        out.push(done);
        proof {
            assert(rest@ =~= orig@.skip(out@.len() as int));
            let t = orig@.take(k + 1);
            assert(t.subrange(0, k as int) =~= orig@.take(k as int));
            assert(t[k as int] == orig@[k as int]);
            assert(out@.subrange(0, k as int) =~= before);
            assert(out@[k as int] == done);
        }
    }
    assert(orig@.take(orig@.len() as int) =~= orig@);
    Ok(out)
}

/// Rewrites calls and module-qualified calls of an expression to resolved names.
fn rewrite_expr(expression: Expr, ctx: &RewriteContext) -> (r: Result<Expr, ForgeError>)
    requires
        context_ok(*ctx),
    ensures
        match r {
            Ok(o) => expr_rewrite_ok(expression, env_of(*ctx)) && expr_rewritten(
                expression,
                o,
                env_of(*ctx),
            ),
            Err(_) => !expr_rewrite_ok(expression, env_of(*ctx)),
        },
    decreases expression,
{
    let ghost env = env_of(*ctx);
    let ghost input = expression;
    match expression {
        Expr::Call { callee, args } => {
            let args = rewrite_exprs(args, ctx)?;
            match local_or_selected(ctx, callee.as_str()) {
                Some(symbol) => {
                    require_symbol_kind(ctx.importer_path, callee.as_str(), symbol, SymbolKind::Function)?;
                    Ok(Expr::Call { callee: symbol.mangled_name.clone(), args })
                },
                None => Ok(Expr::Call { callee, args }),
            }
        },
        Expr::MethodCall { object, method, args } => {
            let args = rewrite_exprs(args, ctx)?;
            match expression_path(&object) {
                Some(path) => {
                    let name = dotted_path(&path);
                    match find_key(&ctx.scope.namespaces, name.as_str()) {
                        Some(k) => {
                            proof {
                                lemma_key_found(ctx.scope.namespaces@, name@, k as int);
                            }
                            let target = ctx.scope.namespaces[k].1;
                            let theirs = &ctx.symbols[target];
                            assert(env.symbols[target as int] == symbols_view(theirs@));
                            let symbol = match find_symbol(theirs, method.as_str()) {
                                Some(i) => {
                                    proof {
                                        lemma_symbol_found(theirs@, method@, i as int);
                                    }
                                    &theirs[i]
                                },
                                None => {
                                    proof {
                                        lemma_symbol_absent(theirs@, method@);
                                    }
                                    let mut m = concat(ctx.importer_path.as_str(), ": symbol '");
                                    append(&mut m, method.as_str());
                                    append(&mut m, "' not found in module '");
                                    append(&mut m, ctx.names[target].as_str());
                                    append(&mut m, "'");
                                    return Err(ForgeError::parse(m));
                                },
                            };
                            if !symbol.is_public {
                                let mut m = concat(ctx.importer_path.as_str(), ": symbol '");
                                append(&mut m, method.as_str());
                                append(&mut m, "' in module '");
                                append(&mut m, ctx.names[target].as_str());
                                append(&mut m, "' is private");
                                return Err(ForgeError::parse(m));
                            }
                            require_symbol_kind(
                                ctx.importer_path,
                                method.as_str(),
                                symbol,
                                SymbolKind::Function,
                            )?;
                            return Ok(Expr::Call { callee: symbol.mangled_name.clone(), args });
                        },
                        None => {
                            proof {
                                lemma_key_absent(ctx.scope.namespaces@, name@);
                            }
                        },
                    }
                },
                None => {},
            }
            let object = rewrite_expr(*object, ctx)?;
            Ok(Expr::MethodCall { object: Box::new(object), method, args })
        },
        Expr::NamespaceCall { namespace, method, args } => {
            let args = rewrite_exprs(args, ctx)?;
            Ok(Expr::NamespaceCall { namespace, method, args })
        },
        Expr::MemberAccess { object, member } => {
            let object = rewrite_expr(*object, ctx)?;
            Ok(Expr::MemberAccess { object: Box::new(object), member })
        },
        Expr::IndexAccess { object, index } => {
            let object = rewrite_expr(*object, ctx)?;
            let index = rewrite_expr(*index, ctx)?;
            Ok(Expr::IndexAccess { object: Box::new(object), index: Box::new(index) })
        },
        Expr::BinaryOp { op, lhs, rhs } => {
            let lhs = rewrite_expr(*lhs, ctx)?;
            let rhs = rewrite_expr(*rhs, ctx)?;
            Ok(Expr::BinaryOp { op, lhs: Box::new(lhs), rhs: Box::new(rhs) })
        },
        Expr::UnaryOp { op, operand } => {
            let operand = rewrite_expr(*operand, ctx)?;
            Ok(Expr::UnaryOp { op, operand: Box::new(operand) })
        },
        Expr::ArrayLiteral(elements) => Ok(Expr::ArrayLiteral(rewrite_exprs(elements, ctx)?)),
        Expr::TupleLiteral(elements) => Ok(Expr::TupleLiteral(rewrite_exprs(elements, ctx)?)),
        Expr::ListLiteral(elements) => Ok(Expr::ListLiteral(rewrite_exprs(elements, ctx)?)),
        other => Ok(other),
    }
}

/// Whether the `Data` type an object declaration names may be used: a
/// `Data` declaration of the module or selected by `Using`, or a name that
/// is not an imported module's namespace.
pub open spec fn data_type_ok(name: Seq<char>, env: RewriteEnv) -> bool {
    match own_or_selected(env, name) {
        Some(s) => s.3 == SymbolKind::Data,
        None => key_of(env.namespaces, name) is None,
    }
}

/// The name an object declaration's `Data` type has after rewriting.
pub open spec fn data_type_rewritten(name: Seq<char>, env: RewriteEnv) -> Seq<char> {
    match own_or_selected(env, name) {
        Some(s) => s.1,
        None => name,
    }
}

/// Whether the index expressions of an assignment target pass `expr_rewrite_ok`.
pub open spec fn target_rewrite_ok(t: AssignmentTarget, env: RewriteEnv) -> bool
    decreases t,
{
    match t {
        AssignmentTarget::Var(_) => true,
        AssignmentTarget::Member { object, .. } => target_rewrite_ok(*object, env),
        AssignmentTarget::Index { object, index } => target_rewrite_ok(*object, env) && expr_rewrite_ok(
            index,
            env,
        ),
    }
}

/// Whether `o` is the target `t` with its index expressions rewritten.
pub open spec fn target_rewritten(t: AssignmentTarget, o: AssignmentTarget, env: RewriteEnv) -> bool
    decreases t,
{
    match t {
        AssignmentTarget::Var(_) => o == t,
        AssignmentTarget::Member { object, member } => o matches AssignmentTarget::Member {
            object: o2,
            member: m2,
        } && m2 == member && target_rewritten(*object, *o2, env),
        AssignmentTarget::Index { object, index } => o matches AssignmentTarget::Index {
            object: o2,
            index: i2,
        } && target_rewritten(*object, *o2, env) && expr_rewritten(index, i2, env),
    }
}

/// Whether an optional expression passes `expr_rewrite_ok`.
pub open spec fn opt_rewrite_ok(e: Option<Expr>, env: RewriteEnv) -> bool {
    match e {
        Some(x) => expr_rewrite_ok(x, env),
        None => true,
    }
}

/// Whether `o` is the optional expression `e` rewritten.
pub open spec fn opt_rewritten(e: Option<Expr>, o: Option<Expr>, env: RewriteEnv) -> bool {
    match (e, o) {
        (Some(x), Some(y)) => expr_rewritten(x, y, env),
        (None, None) => true,
        _ => false,
    }
}

/// Whether the values of an object's member initializers pass `expr_rewrite_ok`.
pub open spec fn inits_rewrite_ok(s: Seq<(Vec<String>, Expr)>, env: RewriteEnv) -> bool
    decreases s.len(),
{
    if s.len() == 0 {
        true
    } else {
        inits_rewrite_ok(s.subrange(0, s.len() - 1), env) && expr_rewrite_ok(s[s.len() - 1].1, env)
    }
}

/// Whether `t` are the initializers `s` with their values rewritten.
pub open spec fn inits_rewritten(s: Seq<(Vec<String>, Expr)>, t: Seq<(Vec<String>, Expr)>, env: RewriteEnv) -> bool
    decreases s.len(),
{
    if s.len() != t.len() {
        false
    } else if s.len() == 0 {
        true
    } else {
        inits_rewritten(s.subrange(0, s.len() - 1), t.subrange(0, t.len() - 1), env) && t[t.len()
            - 1].0 == s[s.len() - 1].0 && expr_rewritten(s[s.len() - 1].1, t[t.len() - 1].1, env)
    }
}

/// Whether a statement's uses of imported names are allowed (see
/// `expr_rewrite_ok` and `data_type_ok`), and it is an import only at the
/// top level of its module (`nested` is false there).
pub open spec fn stmt_rewrite_ok(s: Statement, env: RewriteEnv, nested: bool) -> bool
    decreases s,
{
    match s {
        Statement::Use(_) => !nested,
        Statement::Using(_) => !nested,
        Statement::VarDecl(d) => opt_rewrite_ok(d.initializer, env),
        Statement::ObjectDecl(o) => data_type_ok(o.data_type@, env) && inits_rewrite_ok(o.inits@, env),
        Statement::FunctionDecl(f) => {
            proof {
                assert(decreases_to!(s => f));
                assert(decreases_to!(f => f.body));
                assert(decreases_to!(f.body => f.body@));
            }
            body_rewrite_ok(f.body@, env)
        },
        Statement::Print(p) => expr_rewrite_ok(p.expr, env),
        Statement::If(node) => {
            proof {
                assert(decreases_to!(s => node));
                assert(decreases_to!(node => node.branches));
                assert(decreases_to!(node.branches => node.branches@));
            }
            branches_rewrite_ok(node.branches@, env) && match node.else_body {
                Some(b) => {
                    proof {
                        assert(decreases_to!(node => node.else_body));
                        assert(decreases_to!(node.else_body => b));
                        assert(decreases_to!(b => b@));
                    }
                    body_rewrite_ok(b@, env)
                },
                None => true,
            }
        },
        Statement::While(n) => {
            proof {
                assert(decreases_to!(s => n));
                assert(decreases_to!(n => n.body));
                assert(decreases_to!(n.body => n.body@));
            }
            expr_rewrite_ok(n.condition, env) && body_rewrite_ok(n.body@, env)
        },
        Statement::For(n) => {
            proof {
                assert(decreases_to!(s => n));
                assert(decreases_to!(n => n.body));
                assert(decreases_to!(n.body => n.body@));
            }
            opt_rewrite_ok(n.init.initializer, env) && expr_rewrite_ok(n.condition, env)
                && body_rewrite_ok(n.body@, env)
        },
        Statement::ForEach(n) => {
            proof {
                assert(decreases_to!(s => n));
                assert(decreases_to!(n => n.body));
                assert(decreases_to!(n.body => n.body@));
            }
            body_rewrite_ok(n.body@, env)
        },
        Statement::Return(v) => opt_rewrite_ok(v, env),
        Statement::Assignment(a) => target_rewrite_ok(a.target, env) && expr_rewrite_ok(a.value, env),
        Statement::ExprStmt(e) => expr_rewrite_ok(e, env),
        _ => true,
    }
}

/// Whether the statements of a nested body pass `stmt_rewrite_ok`.
pub open spec fn body_rewrite_ok(ss: Seq<Statement>, env: RewriteEnv) -> bool
    decreases ss,
{
    if ss.len() == 0 {
        true
    } else {
        proof {
            assert(decreases_to!(ss => ss.subrange(0, ss.len() - 1)));
            assert(decreases_to!(ss => ss[ss.len() - 1]));
        }
        body_rewrite_ok(ss.subrange(0, ss.len() - 1), env) && stmt_rewrite_ok(ss[ss.len() - 1], env, true)
    }
}

/// Whether the branches of an `If` pass the checks.
pub open spec fn branches_rewrite_ok(bs: Seq<(Expr, Vec<Statement>)>, env: RewriteEnv) -> bool
    decreases bs,
{
    if bs.len() == 0 {
        true
    } else {
        proof {
            assert(decreases_to!(bs => bs.subrange(0, bs.len() - 1)));
            assert(decreases_to!(bs => bs[bs.len() - 1]));
            assert(decreases_to!(bs[bs.len() - 1] => bs[bs.len() - 1].1));
            assert(decreases_to!(bs[bs.len() - 1].1 => bs[bs.len() - 1].1@));
        }
        branches_rewrite_ok(bs.subrange(0, bs.len() - 1), env) && expr_rewrite_ok(bs[bs.len() - 1].0, env)
            && body_rewrite_ok(bs[bs.len() - 1].1@, env)
    }
}

/// Whether `o` is the statement `s` with its imported names rewritten: the
/// same statement, with its expressions, nested bodies and an object's
/// `Data` type rewritten.
pub open spec fn stmt_rewritten(s: Statement, o: Statement, env: RewriteEnv) -> bool
    decreases s,
{
    match s {
        Statement::VarDecl(d) => o matches Statement::VarDecl(d2) && d2.modifier == d.modifier
            && d2.type_decl == d.type_decl && d2.name == d.name && opt_rewritten(
            d.initializer,
            d2.initializer,
            env,
        ),
        Statement::ObjectDecl(ob) => o matches Statement::ObjectDecl(o2) && o2.data_type@
            == data_type_rewritten(ob.data_type@, env) && o2.name == ob.name && inits_rewritten(
            ob.inits@,
            o2.inits@,
            env,
        ),
        Statement::FunctionDecl(f) => {
            proof {
                assert(decreases_to!(s => f));
                assert(decreases_to!(f => f.body));
                assert(decreases_to!(f.body => f.body@));
            }
            o matches Statement::FunctionDecl(f2) && f2.modifier == f.modifier && f2.ret_kind
                == f.ret_kind && f2.name == f.name && f2.params == f.params && bodies_rewritten(
                f.body@,
                f2.body@,
                env,
            )
        },
        Statement::Print(p) => o matches Statement::Print(p2) && expr_rewritten(p.expr, p2.expr, env),
        Statement::If(node) => {
            proof {
                assert(decreases_to!(s => node));
                assert(decreases_to!(node => node.branches));
                assert(decreases_to!(node.branches => node.branches@));
            }
            o matches Statement::If(n2) && branches_rewritten(node.branches@, n2.branches@, env)
                && match (node.else_body, n2.else_body) {
                (Some(b), Some(b2)) => {
                    proof {
                        assert(decreases_to!(node => node.else_body));
                        assert(decreases_to!(node.else_body => b));
                        assert(decreases_to!(b => b@));
                    }
                    bodies_rewritten(b@, b2@, env)
                },
                (None, None) => true,
                _ => false,
            }
        },
        Statement::While(n) => {
            proof {
                assert(decreases_to!(s => n));
                assert(decreases_to!(n => n.body));
                assert(decreases_to!(n.body => n.body@));
            }
            o matches Statement::While(n2) && expr_rewritten(n.condition, n2.condition, env)
                && bodies_rewritten(n.body@, n2.body@, env)
        },
        Statement::For(n) => {
            proof {
                assert(decreases_to!(s => n));
                assert(decreases_to!(n => n.body));
                assert(decreases_to!(n.body => n.body@));
            }
            o matches Statement::For(n2) && n2.init.modifier == n.init.modifier && n2.init.type_decl
                == n.init.type_decl && n2.init.name == n.init.name && opt_rewritten(
                n.init.initializer,
                n2.init.initializer,
                env,
            ) && expr_rewritten(n.condition, n2.condition, env) && n2.increment_var
                == n.increment_var && n2.increment_op == n.increment_op && bodies_rewritten(
                n.body@,
                n2.body@,
                env,
            )
        },
        Statement::ForEach(n) => {
            proof {
                assert(decreases_to!(s => n));
                assert(decreases_to!(n => n.body));
                assert(decreases_to!(n.body => n.body@));
            }
            o matches Statement::ForEach(n2) && n2.item_type == n.item_type && n2.item_name
                == n.item_name && n2.collection_name == n.collection_name && bodies_rewritten(
                n.body@,
                n2.body@,
                env,
            )
        },
        Statement::Return(v) => o matches Statement::Return(v2) && opt_rewritten(v, v2, env),
        Statement::Assignment(a) => o matches Statement::Assignment(a2) && target_rewritten(
            a.target,
            a2.target,
            env,
        ) && expr_rewritten(a.value, a2.value, env),
        Statement::ExprStmt(e) => o matches Statement::ExprStmt(e2) && expr_rewritten(e, e2, env),
        _ => o == s,
    }
}

/// Whether each statement of `t` is the rewriting of the one of `s`.
pub open spec fn bodies_rewritten(s: Seq<Statement>, t: Seq<Statement>, env: RewriteEnv) -> bool
    decreases s,
{
    if s.len() != t.len() {
        false
    } else if s.len() == 0 {
        true
    } else {
        proof {
            assert(decreases_to!(s => s.subrange(0, s.len() - 1)));
            assert(decreases_to!(s => s[s.len() - 1]));
        }
        bodies_rewritten(s.subrange(0, s.len() - 1), t.subrange(0, t.len() - 1), env)
            && stmt_rewritten(s[s.len() - 1], t[t.len() - 1], env)
    }
}

/// Whether each branch of `t` is the rewriting of the one of `s`.
pub open spec fn branches_rewritten(
    s: Seq<(Expr, Vec<Statement>)>,
    t: Seq<(Expr, Vec<Statement>)>,
    env: RewriteEnv,
) -> bool
    decreases s,
{
    if s.len() != t.len() {
        false
    } else if s.len() == 0 {
        true
    } else {
        proof {
            assert(decreases_to!(s => s.subrange(0, s.len() - 1)));
            assert(decreases_to!(s => s[s.len() - 1]));
            assert(decreases_to!(s[s.len() - 1] => s[s.len() - 1].1));
            assert(decreases_to!(s[s.len() - 1].1 => s[s.len() - 1].1@));
        }
        branches_rewritten(s.subrange(0, s.len() - 1), t.subrange(0, t.len() - 1), env)
            && expr_rewritten(s[s.len() - 1].0, t[t.len() - 1].0, env) && bodies_rewritten(
            s[s.len() - 1].1@,
            t[t.len() - 1].1@,
            env,
        )
    }
}

proof fn lemma_body_rewrite_ok(s: Seq<Statement>, env: RewriteEnv)
    ensures
        body_rewrite_ok(s, env) <==> forall|j: int| 0 <= j < s.len() ==> #[trigger] stmt_rewrite_ok(s[j], env, true),
    decreases s.len(),
{
    if s.len() > 0 {
        let q = s.subrange(0, s.len() - 1);
        lemma_body_rewrite_ok(q, env);
        assert forall|j: int| 0 <= j < q.len() implies q[j] == s[j] by {}
        if forall|j: int| 0 <= j < s.len() ==> #[trigger] stmt_rewrite_ok(s[j], env, true) {
            assert forall|j: int| 0 <= j < q.len() implies #[trigger] stmt_rewrite_ok(q[j], env, true) by {
                assert(q[j] == s[j]);
            }
            assert(stmt_rewrite_ok(s[s.len() - 1], env, true));
        }
        if body_rewrite_ok(s, env) {
            assert forall|j: int| 0 <= j < s.len() implies #[trigger] stmt_rewrite_ok(s[j], env, true) by {
                if j < s.len() - 1 {
                    assert(q[j] == s[j]);
                }
            }
        }
    }
}

/// Whether one `If` branch passes the checks.
pub open spec fn branch_rewrite_ok(b: (Expr, Vec<Statement>), env: RewriteEnv) -> bool {
    expr_rewrite_ok(b.0, env) && body_rewrite_ok(b.1@, env)
}

proof fn lemma_branches_rewrite_ok(s: Seq<(Expr, Vec<Statement>)>, env: RewriteEnv)
    ensures
        branches_rewrite_ok(s, env) <==> forall|j: int| 0 <= j < s.len() ==> #[trigger] branch_rewrite_ok(s[j], env),
    decreases s.len(),
{
    if s.len() > 0 {
        let q = s.subrange(0, s.len() - 1);
        lemma_branches_rewrite_ok(q, env);
        assert forall|j: int| 0 <= j < q.len() implies q[j] == s[j] by {}
        if forall|j: int| 0 <= j < s.len() ==> #[trigger] branch_rewrite_ok(s[j], env) {
            assert forall|j: int| 0 <= j < q.len() implies #[trigger] branch_rewrite_ok(q[j], env) by {
                assert(q[j] == s[j]);
            }
            assert(branch_rewrite_ok(s[s.len() - 1], env));
        }
        if branches_rewrite_ok(s, env) {
            assert forall|j: int| 0 <= j < s.len() implies #[trigger] branch_rewrite_ok(s[j], env) by {
                if j < s.len() - 1 {
                    assert(q[j] == s[j]);
                }
            }
        }
    }
}

proof fn lemma_inits_rewrite_ok(s: Seq<(Vec<String>, Expr)>, env: RewriteEnv)
    ensures
        inits_rewrite_ok(s, env) <==> forall|j: int| 0 <= j < s.len() ==> #[trigger] expr_rewrite_ok(s[j].1, env),
    decreases s.len(),
{
    if s.len() > 0 {
        let q = s.subrange(0, s.len() - 1);
        lemma_inits_rewrite_ok(q, env);
        assert forall|j: int| 0 <= j < q.len() implies q[j] == s[j] by {}
        if forall|j: int| 0 <= j < s.len() ==> #[trigger] expr_rewrite_ok(s[j].1, env) {
            assert forall|j: int| 0 <= j < q.len() implies #[trigger] expr_rewrite_ok(q[j].1, env) by {
                assert(q[j] == s[j]);
            }
            assert(expr_rewrite_ok(s[s.len() - 1].1, env));
        }
        if inits_rewrite_ok(s, env) {
            assert forall|j: int| 0 <= j < s.len() implies #[trigger] expr_rewrite_ok(s[j].1, env) by {
                if j < s.len() - 1 {
                    assert(q[j] == s[j]);
                }
            }
        }
    }
}

/// Rewrites the name of a `Data` type used by an object declaration.
fn rewrite_data_type(name: String, ctx: &RewriteContext) -> (r: Result<String, ForgeError>)
    requires
        context_ok(*ctx),
    ensures
        match r {
            Ok(n) => data_type_ok(name@, env_of(*ctx)) && n@ == data_type_rewritten(name@, env_of(*ctx)),
            Err(_) => !data_type_ok(name@, env_of(*ctx)),
        },
{
    match local_or_selected(ctx, name.as_str()) {
        Some(symbol) => {
            require_symbol_kind(ctx.importer_path, name.as_str(), symbol, SymbolKind::Data)?;
            Ok(symbol.mangled_name.clone())
        },
        None => match find_key(&ctx.scope.namespaces, name.as_str()) {
            Some(k) => {
                proof {
                    lemma_key_found(ctx.scope.namespaces@, name@, k as int);
                }
                let target = ctx.scope.namespaces[k].1;
                let mut m = concat(ctx.importer_path.as_str(), ": module '");
                append(&mut m, ctx.names[target].as_str());
                append(&mut m, "' cannot be used as a Data type");
                Err(ForgeError::parse(m))
            },
            None => {
                proof {
                    lemma_key_absent(ctx.scope.namespaces@, name@);
                }
                Ok(name)
            },
        },
    }
}

/// Rewrites the index expressions of an assignment target.
fn rewrite_assignment_target(target: AssignmentTarget, ctx: &RewriteContext) -> (r: Result<
    AssignmentTarget,
    ForgeError,
>)
    requires
        context_ok(*ctx),
    ensures
        match r {
            Ok(o) => target_rewrite_ok(target, env_of(*ctx)) && target_rewritten(target, o, env_of(*ctx)),
            Err(_) => !target_rewrite_ok(target, env_of(*ctx)),
        },
    decreases target,
{
    match target {
        AssignmentTarget::Var(name) => Ok(AssignmentTarget::Var(name)),
        AssignmentTarget::Member { object, member } => {
            let object = rewrite_assignment_target(*object, ctx)?;
            Ok(AssignmentTarget::Member { object: Box::new(object), member })
        },
        AssignmentTarget::Index { object, index } => {
            let object = rewrite_assignment_target(*object, ctx)?;
            let index = rewrite_expr(index, ctx)?;
            Ok(AssignmentTarget::Index { object: Box::new(object), index })
        },
    }
}

/// Rewrites an optional expression.
fn rewrite_optional(e: Option<Expr>, ctx: &RewriteContext) -> (r: Result<Option<Expr>, ForgeError>)
    requires
        context_ok(*ctx),
    ensures
        match r {
            Ok(o) => opt_rewrite_ok(e, env_of(*ctx)) && opt_rewritten(e, o, env_of(*ctx)),
            Err(_) => !opt_rewrite_ok(e, env_of(*ctx)),
        },
    decreases e,
{
    match e {
        Some(x) => Ok(Some(rewrite_expr(x, ctx)?)),
        None => Ok(None),
    }
}

/// Rewrites the statements of a nested body; imports there are errors.
fn rewrite_body(v: Vec<Statement>, ctx: &RewriteContext) -> (r: Result<Vec<Statement>, ForgeError>)
    requires
        context_ok(*ctx),
    ensures
        match r {
            Ok(o) => body_rewrite_ok(v@, env_of(*ctx)) && bodies_rewritten(v@, o@, env_of(*ctx)),
            Err(_) => !body_rewrite_ok(v@, env_of(*ctx)),
        },
    decreases v,
{
    let ghost env = env_of(*ctx);
    let ghost orig = v;
    let mut rest = v;
    let mut out: Vec<Statement> = Vec::new();
    while rest.len() > 0
        invariant
            context_ok(*ctx),
            env == env_of(*ctx),
            orig == v,
            out@.len() + rest@.len() == orig@.len(),
            rest@ == orig@.skip(out@.len() as int),
            body_rewrite_ok(orig@.take(out@.len() as int), env),
            bodies_rewritten(orig@.take(out@.len() as int), out@, env),
        decreases rest.len(),
    {
        let k = out.len();
        let st = rest.remove(0);
        proof {
            assert(st == orig@[k as int]);
            assert(decreases_to!(orig => orig@));
            assert(decreases_to!(orig@ => orig@[k as int]));
        }
        let done = match rewrite_statement(st, ctx, true) {
            Ok(d) => d,
            Err(err) => {
                proof {
                    lemma_body_rewrite_ok(orig@, env);
                }
                return Err(err);
            },
        };
        let ghost before = out@;
        out.push(done);
        proof {
            assert(rest@ =~= orig@.skip(out@.len() as int));
            let t = orig@.take(k + 1);
            assert(t.subrange(0, k as int) =~= orig@.take(k as int));
            assert(t[k as int] == orig@[k as int]);
            assert(out@.subrange(0, k as int) =~= before);
            assert(out@[k as int] == done);
        }
    }
    assert(orig@.take(orig@.len() as int) =~= orig@);
    Ok(out)
}

/// Rewrites one statement; `nested` tells whether it stands inside a body.
fn rewrite_statement(statement: Statement, ctx: &RewriteContext, nested: bool) -> (r: Result<
    Statement,
    ForgeError,
>)
    requires
        context_ok(*ctx),
    ensures
        match r {
            Ok(o) => (o is Use) == (statement is Use) && (o is Using) == (statement is Using)
                && stmt_rewrite_ok(statement, env_of(*ctx), nested) && stmt_rewritten(
                statement,
                o,
                env_of(*ctx),
            ),
            Err(_) => !stmt_rewrite_ok(statement, env_of(*ctx), nested),
        },
    decreases statement,
{
    let ghost env = env_of(*ctx);
    let ghost input = statement;
    match statement {
        Statement::Use(import) => {
            if nested {
                let site = use_site(&import);
                return Err(import_error(ctx.importer_path.as_str(), &site, owned("Use must be top-level")));
            }
            Ok(Statement::Use(import))
        },
        Statement::Using(import) => {
            if nested {
                let site = using_site(&import);
                return Err(
                    import_error(ctx.importer_path.as_str(), &site, owned("Using must be top-level")),
                );
            }
            Ok(Statement::Using(import))
        },
        Statement::VarDecl(declaration) => {
            let VarDecl { modifier, type_decl, name, initializer } = declaration;
            let initializer = rewrite_optional(initializer, ctx)?;
            Ok(Statement::VarDecl(VarDecl { modifier, type_decl, name, initializer }))
        },
        Statement::ObjectDecl(object) => {
            let ObjectDecl { data_type, name, inits } = object;
            let data_type = rewrite_data_type(data_type, ctx)?;
            let ghost orig = inits;
            proof {
                lemma_inits_rewrite_ok(orig@, env);
            }
            let mut rest = inits;
            let mut out: Vec<(Vec<String>, Expr)> = Vec::new();
            while rest.len() > 0
                invariant
                    context_ok(*ctx),
                    env == env_of(*ctx),
                    out@.len() + rest@.len() == orig@.len(),
                    rest@ == orig@.skip(out@.len() as int),
                    inits_rewrite_ok(orig@.take(out@.len() as int), env),
                    inits_rewritten(orig@.take(out@.len() as int), out@, env),
                    inits_rewrite_ok(orig@, env) <==> forall|j: int|
                        0 <= j < orig@.len() ==> #[trigger] expr_rewrite_ok(orig@[j].1, env),
                    stmt_rewrite_ok(input, env, nested) ==> inits_rewrite_ok(orig@, env),
                    input == statement,
                decreases rest.len(),
            {
                let k = out.len();
                let (path, value) = rest.remove(0);
                assert(value == orig@[k as int].1);
                assert(path == orig@[k as int].0);
                let value = match rewrite_expr(value, ctx) {
                    Ok(v) => v,
                    Err(err) => {
                        assert(!expr_rewrite_ok(orig@[k as int].1, env));
                        return Err(err);
                    },
                };
                let ghost before = out@;
                out.push((path, value));
                proof {
                    assert(rest@ =~= orig@.skip(out@.len() as int));
                    let t = orig@.take(k + 1);
                    assert(t.subrange(0, k as int) =~= orig@.take(k as int));
                    assert(t[k as int] == orig@[k as int]);
                    assert(out@.subrange(0, k as int) =~= before);
                }
            }
            assert(orig@.take(orig@.len() as int) =~= orig@);
            Ok(Statement::ObjectDecl(ObjectDecl { data_type, name, inits: out }))
        },
        Statement::FunctionDecl(function) => {
            let FunctionDecl { modifier, ret_kind, name, params, body } = function;
            let body = rewrite_body(body, ctx)?;
            Ok(Statement::FunctionDecl(FunctionDecl { modifier, ret_kind, name, params, body }))
        },
        Statement::Print(print) => {
            let expr = rewrite_expr(print.expr, ctx)?;
            Ok(Statement::Print(PrintNode { expr }))
        },
        Statement::If(node) => {
            let IfNode { branches, else_body } = node;
            let ghost orig = branches;
            proof {
                lemma_branches_rewrite_ok(orig@, env);
            }
            let mut rest = branches;
            let mut out: Vec<(Expr, Vec<Statement>)> = Vec::new();
            while rest.len() > 0
                invariant
                    context_ok(*ctx),
                    env == env_of(*ctx),
                    decreases_to!(statement => orig),
                    out@.len() + rest@.len() == orig@.len(),
                    rest@ == orig@.skip(out@.len() as int),
                    branches_rewrite_ok(orig@.take(out@.len() as int), env),
                    branches_rewritten(orig@.take(out@.len() as int), out@, env),
                    branches_rewrite_ok(orig@, env) <==> forall|j: int|
                        0 <= j < orig@.len() ==> #[trigger] branch_rewrite_ok(orig@[j], env),
                    stmt_rewrite_ok(input, env, nested) ==> branches_rewrite_ok(orig@, env),
                    input == statement,
                decreases rest.len(),
            {
                let k = out.len();
                let (condition, body) = rest.remove(0);
                proof {
                    assert(decreases_to!(orig => orig@));
                    assert(decreases_to!(orig@ => orig@[k as int]));
                    assert(decreases_to!(orig@[k as int] => orig@[k as int].0));
                    assert(decreases_to!(orig@[k as int] => orig@[k as int].1));
                }
                let condition = match rewrite_expr(condition, ctx) {
                    Ok(c) => c,
                    Err(err) => {
                        assert(!branch_rewrite_ok(orig@[k as int], env));
                        return Err(err);
                    },
                };
                let body = match rewrite_body(body, ctx) {
                    Ok(b) => b,
                    Err(err) => {
                        assert(!branch_rewrite_ok(orig@[k as int], env));
                        return Err(err);
                    },
                };
                let ghost before = out@;
                out.push((condition, body));
                proof {
                    assert(rest@ =~= orig@.skip(out@.len() as int));
                    let t = orig@.take(k + 1);
                    assert(t.subrange(0, k as int) =~= orig@.take(k as int));
                    assert(t[k as int] == orig@[k as int]);
                    assert(out@.subrange(0, k as int) =~= before);
                }
            }
            assert(orig@.take(orig@.len() as int) =~= orig@);
            let else_body = match else_body {
                Some(body) => Some(rewrite_body(body, ctx)?),
                None => None,
            };
            Ok(Statement::If(IfNode { branches: out, else_body }))
        },
        Statement::While(node) => {
            let WhileNode { condition, body } = node;
            let condition = rewrite_expr(condition, ctx)?;
            let body = rewrite_body(body, ctx)?;
            Ok(Statement::While(WhileNode { condition, body }))
        },
        Statement::For(node) => {
            let ForNode { init, condition, increment_var, increment_op, body } = node;
            let VarDecl { modifier, type_decl, name, initializer } = init;
            let initializer = rewrite_optional(initializer, ctx)?;
            let condition = rewrite_expr(condition, ctx)?;
            let body = rewrite_body(body, ctx)?;
            Ok(
                Statement::For(
                    ForNode {
                        init: VarDecl { modifier, type_decl, name, initializer },
                        condition,
                        increment_var,
                        increment_op,
                        body,
                    },
                ),
            )
        },
        Statement::ForEach(node) => {
            let ForEachNode { item_type, item_name, collection_name, body } = node;
            let body = rewrite_body(body, ctx)?;
            Ok(Statement::ForEach(ForEachNode { item_type, item_name, collection_name, body }))
        },
        Statement::Return(value) => Ok(Statement::Return(rewrite_optional(value, ctx)?)),
        Statement::Assignment(assignment) => {
            let AssignmentNode { target, value } = assignment;
            let target = rewrite_assignment_target(target, ctx)?;
            let value = rewrite_expr(value, ctx)?;
            Ok(Statement::Assignment(AssignmentNode { target, value }))
        },
        Statement::ExprStmt(expression) => Ok(Statement::ExprStmt(rewrite_expr(expression, ctx)?)),
        other => Ok(other),
    }
}

/// Whether an order lists every module once, each after every module its
/// imports name.
pub open spec fn imports_ordered(ms: Seq<ModuleSource>, mode: ResolutionMode, order: Seq<usize>) -> bool {
    &&& forall|k: int| 0 <= k < order.len() ==> (#[trigger] order[k]) < ms.len()
    &&& forall|a: int, b: int| 0 <= a < b < order.len() ==> order[a] != order[b]
    &&& forall|u: int| 0 <= u < ms.len() ==> #[trigger] listed(order, u)
    &&& forall|k: int, x: int|
        0 <= k < order.len() && 0 <= x < module_sites(ms, order[k] as int).len() ==> (#[trigger] site_target(
            ms,
            mode,
            order[k] as int,
            x,
        )) is Some && appears_before(order, k, site_target(ms, mode, order[k] as int, x)->0 as usize)
}

/// Whether no statement is an import.
pub open spec fn no_imports(stmts: Seq<Statement>) -> bool {
    forall|i: int| 0 <= i < stmts.len() ==> !(#[trigger] stmts[i] is Use) && !(stmts[i] is Using)
}

/// Whether the modules of a resolved program can be named and ordered:
/// declarations are distinct, at most one `Main`, every import names a
/// module, and the modules can be ordered so that each comes after the
/// modules it imports (so no module imports itself through other modules).
pub open spec fn resolvable(ms: Seq<ModuleSource>, mode: ResolutionMode) -> bool {
    symbols_ok(ms) && exists|order: Seq<usize>| imports_ordered(ms, mode, order)
}

proof fn lemma_topological_orders_imports(
    ms: Seq<ModuleSource>,
    mode: ResolutionMode,
    g: Seq<Seq<usize>>,
    order: Seq<usize>,
)
    requires
        graph_of_imports(ms, mode, g),
        is_topological(g, order),
    ensures
        imports_ordered(ms, mode, order),
{
    assert forall|k: int, x: int|
        0 <= k < order.len() && 0 <= x < module_sites(ms, order[k] as int).len() implies (#[trigger] site_target(
        ms,
        mode,
        order[k] as int,
        x,
    )) is Some && appears_before(order, k, site_target(ms, mode, order[k] as int, x)->0 as usize) by {
        let u = order[k] as int;
        let v = site_target(ms, mode, u, x)->0 as usize;
        assert(g[u].contains(v));
        let e = choose|e: int| 0 <= e < g[u].len() && g[u][e] == v;
        assert(appears_before(order, k, g[order[k] as int][e]));
    }
}

/// The context of rewriting module `u`, given every module's scope.
pub open spec fn module_env(ms: Seq<ModuleSource>, scopes: Seq<ScopeView>, u: int) -> RewriteEnv {
    RewriteEnv {
        module: u,
        path: ms[u].path@,
        names: module_names(ms),
        symbols: Seq::new(ms.len(), |v: int| module_syms(ms, v)),
        namespaces: scopes[u].namespaces,
        selective: scopes[u].selective,
    }
}

/// Whether `c` is a cycle of imports: a walk from each module to one it
/// imports that ends where it starts.
pub open spec fn import_cycle(ms: Seq<ModuleSource>, mode: ResolutionMode, c: Seq<usize>) -> bool {
    &&& c.len() >= 2
    &&& c[0] == c.last()
    &&& forall|k: int| 0 <= k < c.len() ==> (#[trigger] c[k]) < ms.len()
    &&& forall|k: int| 0 <= k < c.len() - 1 ==> imports_module(ms, mode, c[k] as int, #[trigger] c[k + 1] as int)
}

/// Whether every statement of every module may be rewritten at the top
/// level of its module.
pub open spec fn modules_rewrite_ok(ms: Seq<ModuleSource>, scopes: Seq<ScopeView>) -> bool {
    forall|u: int, i: int|
        0 <= u < ms.len() && 0 <= i < ms[u].program.statements@.len() ==> stmt_rewrite_ok(
            #[trigger] ms[u].program.statements@[i],
            module_env(ms, scopes, u),
            false,
        )
}

/// Whether the modules resolve into one program: their declarations can be
/// named (`symbols_ok`), every import is accepted (`import_scopes`), no
/// module imports itself through other modules, and every use of an
/// imported name is allowed (`modules_rewrite_ok`).
pub open spec fn resolution_ok(ms: Seq<ModuleSource>, mode: ResolutionMode) -> bool {
    &&& symbols_ok(ms)
    &&& import_scopes(ms, mode) matches Ok(scopes) && !(exists|c: Seq<usize>| import_cycle(ms, mode, c))
        && modules_rewrite_ok(ms, scopes)
}

/// The position of `v` in an order that lists it.
spec fn position_in(order: Seq<usize>, v: usize) -> int {
    choose|k: int| 0 <= k < order.len() && order[k] == v
}

proof fn lemma_position_in(order: Seq<usize>, v: usize, k: int)
    requires
        forall|a: int, b: int| 0 <= a < b < order.len() ==> order[a] != order[b],
        0 <= k < order.len(),
        order[k] == v,
    ensures
        position_in(order, v) == k,
{
    let p = position_in(order, v);
    assert(0 <= p < order.len() && order[p] == v);
    if p < k {
        assert(order[p] != order[k]);
    } else if k < p {
        assert(order[k] != order[p]);
    }
}

proof fn lemma_cycle_positions(g: Seq<Seq<usize>>, order: Seq<usize>, c: Seq<usize>, m: int)
    requires
        is_topological(g, order),
        is_cycle(g, c),
        0 <= m < c.len(),
    ensures
        0 <= position_in(order, c[m]) < order.len(),
        order[position_in(order, c[m])] == c[m],
        position_in(order, c[m]) + m <= position_in(order, c[0]),
    decreases m,
{
    assert(listed(order, c[m] as int));
    let km = choose|k: int| 0 <= k < order.len() && order[k] == c[m];
    lemma_position_in(order, c[m], km);
    assert(listed(order, c[0] as int));
    let k0 = choose|k: int| 0 <= k < order.len() && order[k] == c[0];
    lemma_position_in(order, c[0], k0);
    if m > 0 {
        lemma_cycle_positions(g, order, c, m - 1);
        let p = position_in(order, c[m - 1]);
        let k = m - 1;
        assert(g[c[k] as int].contains(c[k + 1]));
        assert(c[k + 1] == c[m]);
        let e = choose|e: int| 0 <= e < g[c[m - 1] as int].len() && #[trigger] g[c[m - 1] as int][e] == c[m];
        assert(g[order[p] as int][e] == c[m]);
        assert(appears_before(order, p, g[order[p] as int][e]));
        let k2 = choose|k2: int| 0 <= k2 < p && order[k2] == c[m];
        lemma_position_in(order, c[m], k2);
    }
}

/// A graph with a topological order has no cycle.
proof fn lemma_topological_acyclic(g: Seq<Seq<usize>>, order: Seq<usize>, c: Seq<usize>)
    requires
        is_topological(g, order),
    ensures
        !is_cycle(g, c),
{
    if is_cycle(g, c) {
        lemma_cycle_positions(g, order, c, c.len() - 1);
    }
}

proof fn lemma_cycles_agree(ms: Seq<ModuleSource>, mode: ResolutionMode, g: Seq<Seq<usize>>, c: Seq<usize>)
    requires
        graph_of_imports(ms, mode, g),
    ensures
        is_cycle(g, c) <==> import_cycle(ms, mode, c),
{
    if is_cycle(g, c) {
        assert forall|k: int| 0 <= k < c.len() - 1 implies imports_module(
            ms,
            mode,
            c[k] as int,
            #[trigger] c[k + 1] as int,
        ) by {
            assert(g[c[k] as int].contains(c[k + 1]));
            let e = choose|e: int| 0 <= e < g[c[k] as int].len() && #[trigger] g[c[k] as int][e] == c[k + 1];
            assert(imports_module(ms, mode, c[k] as int, g[c[k] as int][e] as int));
        }
    }
    if import_cycle(ms, mode, c) {
        assert forall|k: int| 0 <= k < c.len() - 1 implies g[c[k] as int].contains(#[trigger] c[k + 1]) by {
            assert(imports_module(ms, mode, c[k] as int, c[k + 1] as int));
            let x = choose|x: int|
                0 <= x < module_sites(ms, c[k] as int).len() && site_target(ms, mode, c[k] as int, x)
                    == Some(c[k + 1] as int);
            assert(site_target(ms, mode, c[k] as int, x) is Some);
        }
    }
}

/// The name a declaration takes in the resolved program: the qualified name
/// of the first symbol of its module with that name, or its own name where
/// the module has no such symbol.
pub open spec fn name_resolved(syms: Seq<SymView>, name: Seq<char>, out: Seq<char>) -> bool {
    ||| exists|i: int|
        0 <= i < syms.len() && (#[trigger] syms[i]).0 == name && out == syms[i].1 && forall|k: int|
            0 <= k < i ==> (#[trigger] syms[k]).0 != name
    ||| (forall|i: int| 0 <= i < syms.len() ==> (#[trigger] syms[i]).0 != name) && out == name
}

/// A rewritten statement with its declared name, if it declares a function
/// or a `Data` type, replaced by its resolved name.
pub open spec fn decl_renamed(o1: Statement, o: Statement, syms: Seq<SymView>) -> bool {
    match o1 {
        Statement::FunctionDecl(f) => o matches Statement::FunctionDecl(f2) && f2.modifier == f.modifier
            && f2.ret_kind == f.ret_kind && f2.params == f.params && f2.body == f.body && name_resolved(
            syms,
            f.name@,
            f2.name@,
        ),
        Statement::DataDecl(d) => o matches Statement::DataDecl(d2) && d2.modifier == d.modifier
            && d2.members == d.members && name_resolved(syms, d.name@, d2.name@),
        _ => o == o1,
    }
}

/// What a top-level statement of a module becomes in the resolved program:
/// its rewriting, with its declaration renamed.
pub open spec fn stmt_resolved(s: Statement, o: Statement, env: RewriteEnv) -> bool {
    exists|o1: Statement| stmt_rewritten(s, o1, env) && #[trigger] decl_renamed(o1, o, env.symbols[env.module])
}

/// What a module contributes to the resolved program: each of its
/// statements but the imports, resolved, in order.
pub open spec fn module_output(src: Seq<Statement>, out: Seq<Statement>, env: RewriteEnv) -> bool
    decreases src.len(),
{
    if src.len() == 0 {
        out.len() == 0
    } else if src.last() is Use || src.last() is Using {
        module_output(src.drop_last(), out, env)
    } else {
        &&& out.len() > 0
        &&& stmt_resolved(src.last(), out.last(), env)
        &&& module_output(src.drop_last(), out.drop_last(), env)
    }
}

/// The statement lists of `blocks`, one after another.
pub open spec fn joined(blocks: Seq<Seq<Statement>>) -> Seq<Statement>
    decreases blocks.len(),
{
    if blocks.len() == 0 {
        seq![]
    } else {
        joined(blocks.drop_last()) + blocks.last()
    }
}

/// Whether `stmts` is what the modules contribute, taken in `order`.
pub open spec fn program_built(
    ms: Seq<ModuleSource>,
    mode: ResolutionMode,
    order: Seq<usize>,
    stmts: Seq<Statement>,
) -> bool {
    match import_scopes(ms, mode) {
        Ok(ss) => exists|blocks: Seq<Seq<Statement>>|
            {
                &&& blocks.len() == order.len()
                &&& stmts == joined(blocks)
                &&& forall|k: int|
                    0 <= k < order.len() ==> module_output(
                        ms[order[k] as int].program.statements@,
                        #[trigger] blocks[k],
                        module_env(ms, ss, order[k] as int),
                    )
            },
        Err(_) => false,
    }
}

/// The name a declaration of a module takes in the resolved program.
fn resolve_decl_name(syms: &Vec<ModuleSymbol>, name: String) -> (r: String)
    ensures
        name_resolved(symbols_view(syms@), name@, r@),
{
    let ghost sv = symbols_view(syms@);
    match find_symbol(syms, name.as_str()) {
        Some(i) => {
            let r = syms[i].mangled_name.clone();
            proof {
                assert(sv[i as int] == symbol_view(syms@[i as int]));
                assert forall|k: int| 0 <= k < i implies (#[trigger] sv[k]).0 != name@ by {
                    assert(sv[k] == symbol_view(syms@[k]));
                }
            }
            r
        },
        None => {
            proof {
                assert forall|k: int| 0 <= k < sv.len() implies (#[trigger] sv[k]).0 != name@ by {
                    assert(sv[k] == symbol_view(syms@[k]));
                }
            }
            name
        },
    }
}

/// Resolves the imports of a table of modules into one program: checks every
/// import, orders the modules so that each follows the modules it imports,
/// and renames every top-level function and `Data` declaration (but `Main`)
/// and its uses to module-qualified names.
pub fn resolve_table(table: ModuleTable, mode: ResolutionMode) -> (r: Result<Program, ForgeError>)
    requires
        table.wf(),
    ensures
        match r {
            Ok(p) => resolution_ok(table.entries(), mode) && resolvable(table.entries(), mode)
                && no_imports(p.statements@) && exists|order: Seq<usize>|
                imports_ordered(table.entries(), mode, order) && program_built(
                    table.entries(),
                    mode,
                    order,
                    p.statements@,
                ),
            Err(_) => !resolution_ok(table.entries(), mode),
        },
{
    let ghost ms = table.entries();
    let symbols = build_module_symbols(&table)?;
    let (graph, scopes) = check_imports(&table, &symbols, &mode)?;
    let ghost ss = scopes@.map_values(|sc: ImportScope| scope_view(sc));
    let order = match dependency_order(&table, &graph) {
        Ok(o) => o,
        Err(e) => {
            proof {
                let c = choose|c: Seq<usize>| is_cycle(graph_view(graph@), c) && e.message@ == cycle_message(ms, c);
                lemma_cycles_agree(ms, mode, graph_view(graph@), c);
            }
            return Err(e);
        },
    };
    proof {
        lemma_topological_orders_imports(ms, mode, graph_view(graph@), order@);
        assert forall|c: Seq<usize>| !import_cycle(ms, mode, c) by {
            lemma_topological_acyclic(graph_view(graph@), order@, c);
            lemma_cycles_agree(ms, mode, graph_view(graph@), c);
        }
    }
    let n = table.modules.len();
    let ModuleTable { modules } = table;
    let mut rest = modules;
    let mut names: Vec<String> = Vec::new();
    let mut paths: Vec<String> = Vec::new();
    let mut programs: Vec<Vec<Statement>> = Vec::new();
    while rest.len() > 0
        invariant
            n == ms.len(),
            names@.len() == paths@.len(),
            names@.len() == programs@.len(),
            names@.len() + rest@.len() == n,
            rest@ == ms.skip(names@.len() as int),
            forall|v: int|
                0 <= v < names@.len() ==> (#[trigger] names@[v])@ == ms[v].name@ && paths@[v]@
                    == ms[v].path@ && programs@[v] == ms[v].program.statements,
        decreases rest.len(),
    {
        let ghost j = names@.len() as int;
        let m = rest.remove(0);
        assert(m == ms[j]);
        let ModuleSource { name, path, relative_path: _, program } = m;
        names.push(name);
        paths.push(path);
        programs.push(program.statements);
        assert(rest@ =~= ms.skip(names@.len() as int));
    }
    proof {
        assert forall|v: int| 0 <= v < n implies (#[trigger] paths@[v])@ == ms[v].path@ && programs@[v]
            == ms[v].program.statements by {
            assert(names@[v]@ == ms[v].name@);
        }
        assert forall|k2: int| 0 <= k2 < order@.len() implies programs@[#[trigger] order@[k2] as int]
            == ms[order@[k2] as int].program.statements by {
            assert(paths@[order@[k2] as int]@ == ms[order@[k2] as int].path@);
        }
        assert(names@.map_values(|s: String| s@) =~= module_names(ms));
        assert(symbols@.map_values(|t: Vec<ModuleSymbol>| symbols_view(t@)) =~= Seq::new(
            ms.len(),
            |v: int| module_syms(ms, v),
        ));
    }
    let mut statements: Vec<Statement> = Vec::new();
    let ghost mut blocks: Seq<Seq<Statement>> = seq![];
    let mut k: usize = 0;
    while k < order.len()
        invariant
            blocks.len() == k,
            statements@ == joined(blocks),
            forall|k2: int|
                0 <= k2 < k ==> module_output(
                    ms[order@[k2] as int].program.statements@,
                    #[trigger] blocks[k2],
                    module_env(ms, ss, order@[k2] as int),
                ),
            n == ms.len(),
            names@.len() == n,
            paths@.len() == n,
            programs@.len() == n,
            symbols@.len() == n,
            scopes@.len() == n,
            ss == scopes@.map_values(|sc: ImportScope| scope_view(sc)),
            import_scopes(ms, mode) == Ok::<Seq<ScopeView>, Seq<char>>(ss),
            ms == table.entries(),
            forall|u: int| 0 <= u < scopes@.len() ==> scope_ok(#[trigger] scopes@[u], symbols@),
            forall|i: int| 0 <= i < order@.len() ==> (#[trigger] order@[i]) < n,
            forall|a: int, b: int| 0 <= a < b < order@.len() ==> order@[a] != order@[b],
            k <= order@.len(),
            no_imports(statements@),
            names@.map_values(|s: String| s@) == module_names(ms),
            symbols@.map_values(|t: Vec<ModuleSymbol>| symbols_view(t@)) == Seq::new(
                ms.len(),
                |v: int| module_syms(ms, v),
            ),
            forall|v: int| 0 <= v < n ==> (#[trigger] paths@[v])@ == ms[v].path@,
            forall|k2: int|
                k <= k2 < order@.len() ==> programs@[#[trigger] order@[k2] as int]
                    == ms[order@[k2] as int].program.statements,
            forall|k2: int, i: int|
                0 <= k2 < k && 0 <= i < ms[order@[k2] as int].program.statements@.len()
                    ==> stmt_rewrite_ok(
                    #[trigger] ms[order@[k2] as int].program.statements@[i],
                    module_env(ms, ss, order@[k2] as int),
                    false,
                ),
        decreases order.len() - k,
    {
        let mi = order[k];
        let ghost before_programs = programs@;
        let stmts = programs.remove(mi);
        programs.insert(mi, Vec::new());
        proof {
            assert forall|k2: int| k + 1 <= k2 < order@.len() implies programs@[#[trigger] order@[k2] as int]
                == ms[order@[k2] as int].program.statements by {
                assert(order@[k2] != order@[k as int]);
                assert(programs@[order@[k2] as int] == before_programs[order@[k2] as int]);
            }
        }
        let ghost module_stmts = ms[mi as int].program.statements@;
        assert(stmts@ == module_stmts);
        let ctx = RewriteContext {
            module_index: mi,
            importer_path: &paths[mi],
            names: &names,
            symbols: &symbols,
            scope: &scopes[mi],
        };
        let ghost env = module_env(ms, ss, mi as int);
        assert(env_of(ctx) == env) by {
            assert(ss[mi as int] == scope_view(scopes@[mi as int]));
        }
        let mut pending = stmts;
        let ghost mut done_count: int = 0;
        let ghost mut cur: Seq<Statement> = seq![];
        proof {
            assert(module_stmts.take(0) =~= seq![]);
        }
        while pending.len() > 0
            invariant
                blocks.len() == k,
                statements@ == joined(blocks) + cur,
                module_output(module_stmts.take(done_count), cur, env),
                forall|k2: int|
                    0 <= k2 < k ==> module_output(
                        ms[order@[k2] as int].program.statements@,
                        #[trigger] blocks[k2],
                        module_env(ms, ss, order@[k2] as int),
                    ),
                mi == order@[k as int],
                symbols@.map_values(|t: Vec<ModuleSymbol>| symbols_view(t@)) == Seq::new(
                    ms.len(),
                    |v: int| module_syms(ms, v),
                ),
                symbols@.len() == ms.len(),
                context_ok(ctx),
                ctx.module_index == mi,
                ctx.symbols == &symbols,
                mi < symbols@.len(),
                no_imports(statements@),
                env_of(ctx) == env,
                env == module_env(ms, ss, mi as int),
                import_scopes(ms, mode) == Ok::<Seq<ScopeView>, Seq<char>>(ss),
                ms == table.entries(),
                mi < ms.len(),
                module_stmts == ms[mi as int].program.statements@,
                0 <= done_count <= module_stmts.len(),
                pending@ == module_stmts.skip(done_count),
                forall|i: int| 0 <= i < done_count ==> stmt_rewrite_ok(#[trigger] module_stmts[i], env, false),
            decreases pending.len(),
        {
            let st = pending.remove(0);
            assert(st == module_stmts[done_count]);
            let skip = match &st {
                Statement::Use(_) => true,
                Statement::Using(_) => true,
                _ => false,
            };
            if !skip {
                let done = match rewrite_statement(st, &ctx, false) {
                    Ok(d) => d,
                    Err(e) => {
                        assert(!stmt_rewrite_ok(module_stmts[done_count], env, false));
                        assert(module_stmts[done_count] == ms[mi as int].program.statements@[done_count]);
                        assert(!modules_rewrite_ok(ms, ss));
                        return Err(e);
                    },
                };
                let ghost syms = symbols_view(symbols@[mi as int]@);
                let ghost done0 = done;
                let renamed = match done {
                    Statement::FunctionDecl(f) => {
                        let FunctionDecl { modifier, ret_kind, name, params, body } = f;
                        let name = resolve_decl_name(&symbols[mi], name);
                        Statement::FunctionDecl(FunctionDecl { modifier, ret_kind, name, params, body })
                    },
                    Statement::DataDecl(d) => {
                        let crate::ast::DataDecl { modifier, name, members } = d;
                        let name = resolve_decl_name(&symbols[mi], name);
                        Statement::DataDecl(crate::ast::DataDecl { modifier, name, members })
                    },
                    other => other,
                };
                proof {
                    assert(env.symbols[env.module] == symbols_view(symbols@[mi as int]@));
                    assert(decl_renamed(done0, renamed, env.symbols[env.module]));
                    let c2 = cur.push(renamed);
                    assert(module_stmts.take(done_count + 1).drop_last() =~= module_stmts.take(done_count));
                    assert(c2.drop_last() =~= cur);
                    assert(stmt_resolved(module_stmts[done_count], renamed, env));
                    cur = c2;
                }
                let ghost before = statements@;
                statements.push(renamed);
                proof {
                    assert forall|i: int| 0 <= i < statements@.len() implies !(#[trigger] statements@[i] is Use)
                        && !(statements@[i] is Using) by {
                        if i < before.len() {
                            assert(statements@[i] == before[i]);
                        }
                    }
                }
            }
            proof {
                if skip {
                    assert(module_stmts.take(done_count + 1).drop_last() =~= module_stmts.take(done_count));
                }
                done_count = done_count + 1;
                assert(pending@ =~= module_stmts.skip(done_count));
            }
        }
        proof {
            assert(module_stmts.take(done_count) =~= module_stmts);
            let b2 = blocks.push(cur);
            assert(b2.drop_last() =~= blocks);
            assert(joined(b2) == joined(blocks) + cur);
            assert forall|k2: int|
                0 <= k2 < k + 1 implies module_output(
                ms[order@[k2] as int].program.statements@,
                #[trigger] b2[k2],
                module_env(ms, ss, order@[k2] as int),
            ) by {
                if k2 < k {
                    assert(b2[k2] == blocks[k2]);
                }
            }
            blocks = b2;
        }
        k += 1;
    }
    proof {
        assert forall|u: int, i: int|
            0 <= u < ms.len() && 0 <= i < ms[u].program.statements@.len() implies stmt_rewrite_ok(
            #[trigger] ms[u].program.statements@[i],
            module_env(ms, ss, u),
            false,
        ) by {
            assert(listed(order@, u));
            let k2 = choose|k2: int| 0 <= k2 < order@.len() && order@[k2] == u as usize;
            assert(ms[order@[k2] as int].program.statements@[i] == ms[u].program.statements@[i]);
        }
        assert(program_built(ms, mode, order@, statements@));
    }
    Ok(Program { statements })
}

/// Whether `ms` are the modules of `sources`, in order, each named by the
/// file stem of its source's path.
pub open spec fn modules_of_sources(sources: Seq<ProjectSource>, ms: Seq<ModuleSource>) -> bool {
    &&& ms.len() == sources.len()
    &&& forall|i: int|
        0 <= i < sources.len() ==> {
            &&& path_file_stem(sources[i].path@) == Some((#[trigger] ms[i]).name@)
            &&& ms[i].path == sources[i].path
            &&& ms[i].relative_path == sources[i].relative_path
            &&& ms[i].program == sources[i].program
        }
}

/// Resolves the imports of a project's sources into one program (see
/// `resolve_table`); each source is a module named by its file stem, and two
/// sources with one stem are an error.
pub fn resolve_project(sources: Vec<ProjectSource>) -> (r: Result<Program, ForgeError>)
    ensures
        match r {
            Ok(p) => exists|ms: Seq<ModuleSource>|
                modules_of_sources(sources@, ms) && names_distinct(module_names(ms)) && resolution_ok(
                    ms,
                    ResolutionMode::Project,
                ) && resolvable(ms, ResolutionMode::Project) && no_imports(p.statements@) && exists|
                    order: Seq<usize>,
                |
                    imports_ordered(ms, ResolutionMode::Project, order) && program_built(
                        ms,
                        ResolutionMode::Project,
                        order,
                        p.statements@,
                    ),
            Err(_) => !all_stems(sources@) || !names_distinct(source_module_names(sources@)) || exists|
                ms: Seq<ModuleSource>,
            |
                modules_of_sources(sources@, ms) && names_distinct(module_names(ms)) && !resolution_ok(
                    ms,
                    ResolutionMode::Project,
                ),
        },
{
    let ghost original = sources@;
    let table = ModuleTable::from_project(sources)?;
    let ghost ms = table.entries();
    proof {
        assert forall|i: int| 0 <= i < original.len() implies path_file_stem(original[i].path@) == Some(
            (#[trigger] ms[i]).name@,
        ) by {
            assert(path_file_stem(original[i].path@) is Some);
        }
        assert(modules_of_sources(original, ms));
    }
    resolve_table(table, ResolutionMode::Project)
}

} // verus!

verus! {

/// The bytes of `__forge_m`, with which a module-qualified name begins.
pub open spec fn forge_prefix() -> Seq<u8> {
    seq![95u8, 95u8, 102u8, 111u8, 114u8, 103u8, 101u8, 95u8, 109u8]
}

/// The position of the first `b` in `s`, if any.
pub open spec fn byte_index(s: Seq<u8>, b: u8) -> Option<int>
    decreases s.len(),
{
    if s.len() == 0 {
        None
    } else if s[0] == b {
        Some(0)
    } else {
        match byte_index(s.drop_first(), b) {
            Some(k) => Some(k + 1),
            None => None,
        }
    }
}

/// Whether a byte is an ASCII decimal digit.
pub open spec fn is_digit_byte(b: u8) -> bool {
    48 <= b && b <= 57
}

/// The number a run of ASCII decimal digits denotes.
pub open spec fn digits_number(d: Seq<u8>) -> nat
    decreases d.len(),
{
    if d.len() == 0 {
        0
    } else {
        (digits_number(d.drop_last()) * 10 + (d.last() - 48)) as nat
    }
}

/// The digits of a number text: without a leading `+`.
pub open spec fn usize_digits(d: Seq<u8>) -> Seq<u8> {
    if d.len() > 0 && d[0] == 43u8 {
        d.drop_first()
    } else {
        d
    }
}

/// The `usize` a text denotes, as `str::parse::<usize>` reads it: an
/// optional `+` and then one or more decimal digits, within range.
pub open spec fn usize_text(d: Seq<u8>) -> Option<nat> {
    let digits = usize_digits(d);
    if digits.len() > 0 && (forall|i: int| 0 <= i < digits.len() ==> is_digit_byte(#[trigger] digits[i]))
        && digits_number(digits) <= usize::MAX {
        Some(digits_number(digits))
    } else {
        None
    }
}

/// The source name a module-qualified name shows, as bytes: the symbol after
/// `__forge_m<len>_<module>_`; any other name shows as itself.
pub open spec fn displayed_bytes(b: Seq<u8>) -> Seq<u8> {
    if b.len() >= 9 && b.take(9) == forge_prefix() {
        let enc = b.skip(9);
        match byte_index(enc, 95u8) {
            None => b,
            Some(k) => match usize_text(enc.take(k)) {
                None => b,
                Some(n) => {
                    let rem = enc.skip(k + 1);
                    if n < rem.len() && rem[n as int] == 95u8 && n + 1 < rem.len() {
                        rem.skip(n + 1 as int)
                    } else {
                        b
                    }
                },
            },
        }
    } else {
        b
    }
}

proof fn lemma_byte_index(s: Seq<u8>, b: u8, k: int)
    requires
        0 <= k <= s.len(),
        forall|j: int| 0 <= j < k ==> s[j] != b,
        k == s.len() || s[k] == b,
    ensures
        byte_index(s, b) == if k == s.len() {
            None::<int>
        } else {
            Some(k)
        },
    decreases k,
{
    if k > 0 {
        let t = s.drop_first();
        assert forall|j: int| 0 <= j < k - 1 implies t[j] != b by {
            assert(t[j] == s[j + 1]);
        }
        if k < s.len() {
            assert(t[k - 1] == s[k]);
        }
        lemma_byte_index(t, b, k - 1);
    }
}

proof fn lemma_digits_number_grows(d: Seq<u8>, k: int)
    requires
        0 <= k <= d.len(),
        forall|i: int| 0 <= i < d.len() ==> is_digit_byte(#[trigger] d[i]),
    ensures
        digits_number(d.take(k)) <= digits_number(d),
    decreases d.len(),
{
    if k < d.len() {
        assert(d.drop_last().take(k) =~= d.take(k));
        lemma_digits_number_grows(d.drop_last(), k);
    } else {
        assert(d.take(k) =~= d);
    }
}

/// The `usize` the bytes `b[start..end]` denote.
fn parse_usize_bytes(b: &[u8], start: usize, end: usize) -> (r: Option<usize>)
    requires
        start <= end <= b@.len(),
    ensures
        match r {
            Some(v) => usize_text(b@.subrange(start as int, end as int)) == Some(v as nat),
            None => usize_text(b@.subrange(start as int, end as int)) is None,
        },
{
    let ghost d = b@.subrange(start as int, end as int);
    let mut first = start;
    if start < end && b[start] == 43u8 {
        first = start + 1;
    }
    let ghost digits = b@.subrange(first as int, end as int);
    proof {
        if start < end {
            assert(d[0] == b@[start as int]);
        }
        if start < end && b@[start as int] == 43u8 {
            assert(d.drop_first() =~= digits);
        } else {
            assert(d =~= digits);
        }
        assert(usize_digits(d) == digits);
    }
    if first == end {
        return None;
    }
    assert(usize_text(d) == (if (forall|j: int| 0 <= j < digits.len() ==> is_digit_byte(#[trigger] digits[j]))
        && digits_number(digits) <= usize::MAX {
        Some(digits_number(digits))
    } else {
        None
    }));
    let mut v: usize = 0;
    let mut i = first;
    while i < end
        invariant
            first <= i <= end <= b@.len(),
            digits == b@.subrange(first as int, end as int),
            d == b@.subrange(start as int, end as int),
            digits.len() > 0,
            usize_text(d) == (if (forall|j: int| 0 <= j < digits.len() ==> is_digit_byte(#[trigger] digits[j]))
                && digits_number(digits) <= usize::MAX {
                Some(digits_number(digits))
            } else {
                None
            }),
            v == digits_number(digits.take(i - first)),
            forall|j: int| 0 <= j < i - first ==> is_digit_byte(#[trigger] digits[j]),
        decreases end - i,
    {
        let c = b[i];
        assert(digits[i - first] == c);
        if !(48u8 <= c && c <= 57u8) {
            return None;
        }
        proof {
            assert(digits.take(i + 1 - first).drop_last() =~= digits.take(i - first));
        }
        let next = match v.checked_mul(10) {
            Some(t) => t.checked_add((c - 48u8) as usize),
            None => None,
        };
        match next {
            Some(t) => {
                v = t;
            },
            None => {
                proof {
                    if forall|j: int| 0 <= j < digits.len() ==> is_digit_byte(#[trigger] digits[j]) {
                        lemma_digits_number_grows(digits, i + 1 - first);
                    }
                }
                return None;
            },
        }
        i += 1;
    }
    proof {
        assert(digits.take(end - first) =~= digits);
    }
    Some(v)
}

/// Whether `b` begins with `__forge_m`.
fn has_forge_prefix(b: &[u8]) -> (r: bool)
    ensures
        r == (b@.len() >= 9 && b@.take(9) == forge_prefix()),
{
    if b.len() < 9 {
        return false;
    }
    let r = b[0] == 95u8 && b[1] == 95u8 && b[2] == 102u8 && b[3] == 111u8 && b[4] == 114u8
        && b[5] == 103u8 && b[6] == 101u8 && b[7] == 95u8 && b[8] == 109u8;
    proof {
        if r {
            assert(b@.take(9) =~= forge_prefix());
        } else {
            assert(b@.take(9) != forge_prefix()) by {
                if b@.take(9) == forge_prefix() {
                    assert(b@.take(9)[0] == b@[0]);
                    assert(b@.take(9)[1] == b@[1]);
                    assert(b@.take(9)[2] == b@[2]);
                    assert(b@.take(9)[3] == b@[3]);
                    assert(b@.take(9)[4] == b@[4]);
                    assert(b@.take(9)[5] == b@[5]);
                    assert(b@.take(9)[6] == b@[6]);
                    assert(b@.take(9)[7] == b@[7]);
                    assert(b@.take(9)[8] == b@[8]);
                }
            }
        }
    }
    r
}

/// After a one-byte character that starts at a character boundary, the next
/// position is a character boundary too.
proof fn lemma_boundary_after_ascii(bytes: Seq<u8>, i: int)
    requires
        valid_utf8(bytes),
        0 <= i < bytes.len(),
        is_char_boundary(bytes, i),
        bytes[i] < 128,
    ensures
        is_char_boundary(bytes, i + 1),
    decreases bytes.len(),
{
    reveal_with_fuel(is_char_boundary, 2);
    if i == 0 {
        assert(length_of_first_scalar(bytes) == 1);
    } else {
        let l = length_of_first_scalar(bytes);
        let pop = pop_first_scalar(bytes);
        assert(valid_utf8(pop));
        assert(is_char_boundary(pop, i - l));
        assert(i - l >= 0);
        assert(pop[i - l] == bytes[i]);
        lemma_boundary_after_ascii(pop, i - l);
    }
}

/// The source name a diagnostic shows for a module-qualified name: the
/// symbol it was made from; other names show as themselves.
pub fn display_symbol_name(name: &str) -> (r: &str)
    ensures
        encode_utf8(r@) == displayed_bytes(encode_utf8(name@)),
{
    let b = name.as_bytes();
    let ghost bv = b@;
    assert(bv == encode_utf8(name@));
    if !has_forge_prefix(b) {
        return name;
    }
    let n = b.len();
    let mut k: usize = 9;
    while k < n && b[k] != 95u8
        invariant
            9 <= k <= n,
            n == bv.len(),
            bv == b@,
            forall|j: int| 9 <= j < k ==> bv[j] != 95u8,
        decreases n - k,
    {
        k += 1;
    }
    let ghost enc = bv.skip(9);
    proof {
        assert forall|j: int| 0 <= j < k - 9 implies enc[j] != 95u8 by {
            assert(enc[j] == bv[j + 9]);
        }
        if k < n {
            assert(enc[k - 9] == bv[k as int]);
        }
        lemma_byte_index(enc, 95u8, k - 9);
    }
    if k == n {
        return name;
    }
    proof {
        assert(enc.take(k - 9) =~= bv.subrange(9, k as int));
    }
    let width = match parse_usize_bytes(b, 9, k) {
        Some(w) => w,
        None => {
            return name;
        },
    };
    let start = k + 1;
    let rem_len = n - start;
    let ghost rem = enc.skip(k - 9 + 1);
    proof {
        assert(rem =~= bv.skip(start as int));
    }
    if !(width < rem_len && b[start + width] == 95u8 && width + 1 < rem_len) {
        proof {
            if width < rem_len {
                assert(rem[width as int] == bv[start + width]);
            }
        }
        return name;
    }
    let idx = start + width + 1;
    proof {
        assert(rem[width as int] == bv[start + width]);
        broadcast use vstd::utf8::encode_utf8_valid_utf8;
        assert(valid_utf8(bv));
        vstd::utf8::is_char_boundary_iff_not_is_continuation_byte(bv, idx - 1);
        assert(!is_continuation_byte(bv[idx - 1]));
        lemma_boundary_after_ascii(bv, idx - 1);
        assert(rem.skip(width + 1) =~= bv.subrange(idx as int, n as int));
    }
    let (_, tail) = name.split_at(idx);
    tail
}

proof fn lemma_encode_concat(a: Seq<char>, b: Seq<char>)
    ensures
        encode_utf8(a + b) == encode_utf8(a) + encode_utf8(b),
    decreases a.len(),
{
    if a.len() == 0 {
        assert(a + b =~= b);
        assert(encode_utf8(a) =~= Seq::<u8>::empty());
        assert(encode_utf8(a) + encode_utf8(b) =~= encode_utf8(b));
    } else {
        assert((a + b).drop_first() =~= a.drop_first() + b);
        assert((a + b)[0] == a[0]);
        lemma_encode_concat(a.drop_first(), b);
        assert(encode_utf8(a + b) =~= encode_utf8(a) + encode_utf8(b));
    }
}

/// The bytes of the decimal rendering of `n`.
pub open spec fn decimal_bytes(n: nat) -> Seq<u8> {
    encode_utf8(decimal(n))
}

proof fn lemma_decimal_ascii(n: nat)
    ensures
        vstd::utf8::is_ascii_chars(decimal(n)),
        forall|i: int| 0 <= i < decimal(n).len() ==> '0' <= #[trigger] decimal(n)[i] <= '9',
        decimal(n).len() > 0,
    decreases n,
{
    if n >= 10 {
        lemma_decimal_ascii(n / 10);
        let d = decimal(n);
        assert forall|i: int| 0 <= i < d.len() implies '0' <= #[trigger] d[i] <= '9' by {
            if i < d.len() - 1 {
                assert(d[i] == decimal(n / 10)[i]);
            }
        }
    }
}

proof fn lemma_decimal_bytes(n: nat)
    ensures
        decimal_bytes(n).len() == decimal(n).len(),
        forall|i: int| 0 <= i < decimal_bytes(n).len() ==> is_digit_byte(#[trigger] decimal_bytes(n)[i]),
        digits_number(decimal_bytes(n)) == n,
        decimal_bytes(n).len() > 0,
    decreases n,
{
    lemma_decimal_ascii(n);
    let d = decimal(n);
    vstd::utf8::is_ascii_chars_encode_utf8(d);
    let db = decimal_bytes(n);
    assert forall|i: int| 0 <= i < db.len() implies is_digit_byte(#[trigger] db[i]) by {
        assert(d[i] as u8 == db[i]);
        assert('0' <= d[i] <= '9');
    }
    if n < 10 {
        assert(db.drop_last() =~= Seq::<u8>::empty());
        assert(db.last() == d[0] as u8);
        lemma_digit_char_value(n);
        assert(d[0] == digit_char_of(n));
        assert(digits_number(db.drop_last()) == 0);
        assert(digits_number(db) == digits_number(db.drop_last()) * 10 + (db.last() - 48));
    } else {
        lemma_digit_char_value(n % 10);
        assert(n == (n / 10) * 10 + n % 10);
        lemma_decimal_bytes(n / 10);
        let e = decimal(n / 10);
        assert(d == e.push(digit_char_of(n % 10)));
        lemma_encode_concat(e, seq![digit_char_of(n % 10)]);
        assert(d =~= e + seq![digit_char_of(n % 10)]);
        vstd::utf8::is_ascii_chars_encode_utf8(seq![digit_char_of(n % 10)]);
        let tail = encode_utf8(seq![digit_char_of(n % 10)]);
        assert(db =~= decimal_bytes(n / 10) + tail);
        assert(db.drop_last() =~= decimal_bytes(n / 10));
        assert(db.last() == tail[0]);
        assert(tail[0] == digit_char_of(n % 10) as u8);
        assert(digits_number(db) == digits_number(db.drop_last()) * 10 + (db.last() - 48));
        assert(digits_number(db.drop_last()) == n / 10);
    }
}

proof fn lemma_digit_char_value(d: nat)
    requires
        d < 10,
    ensures
        digit_char_of(d) as u8 == 48 + d,
        '0' <= digit_char_of(d) <= '9',
{
    if d == 0 {
    } else if d == 1 {
    } else if d == 2 {
    } else if d == 3 {
    } else if d == 4 {
    } else if d == 5 {
    } else if d == 6 {
    } else if d == 7 {
    } else if d == 8 {
    } else {
    }
}

/// The digit character of `d` (a decimal digit).
pub open spec fn digit_char_of(d: nat) -> char {
    crate::text::digit_char(d)
}

/// A name that does not begin with `__forge_m` shows as itself.
pub proof fn lemma_display_plain(name: Seq<char>)
    requires
        encode_utf8(name).len() < 9 || encode_utf8(name).take(9) != forge_prefix(),
    ensures
        displayed_bytes(encode_utf8(name)) == encode_utf8(name),
        decode_utf8(displayed_bytes(encode_utf8(name))) == name,
{
    vstd::utf8::encode_utf8_decode_utf8(name);
}

/// Showing the module-qualified name of a symbol gives back the symbol's
/// name, for every module and every non-empty symbol name.
#[verifier::rlimit(80)]
pub proof fn lemma_display_mangled(module: Seq<char>, symbol: Seq<char>)
    requires
        symbol.len() > 0,
        encode_utf8(module).len() <= usize::MAX,
    ensures
        displayed_bytes(encode_utf8(mangled_text(module, symbol))) == encode_utf8(symbol),
        decode_utf8(displayed_bytes(encode_utf8(mangled_text(module, symbol)))) == symbol,
{
    reveal_strlit("__forge_m");
    reveal_strlit("_");
    let w = encode_utf8(module).len();
    let p = "__forge_m"@;
    let u = "_"@;
    lemma_encode_concat(p, decimal(w));
    lemma_encode_concat(p + decimal(w), u);
    lemma_encode_concat(p + decimal(w) + u, module);
    lemma_encode_concat(p + decimal(w) + u + module, u);
    lemma_encode_concat(p + decimal(w) + u + module + u, symbol);
    vstd::utf8::is_ascii_chars_encode_utf8(p);
    vstd::utf8::is_ascii_chars_encode_utf8(u);
    assert(vstd::utf8::is_ascii_chars(p));
    assert(vstd::utf8::is_ascii_chars(u));
    let pb = encode_utf8(p);
    let ub = encode_utf8(u);
    assert(pb =~= forge_prefix());
    assert(ub =~= seq![95u8]);
    lemma_decimal_bytes(w);
    let db = decimal_bytes(w);
    let mb = encode_utf8(module);
    let sb = encode_utf8(symbol);
    let all = encode_utf8(mangled_text(module, symbol));
    assert(all =~= pb + db + ub + mb + ub + sb);
    assert(all.take(9) =~= forge_prefix());
    let enc = all.skip(9);
    assert(enc =~= db + ub + mb + ub + sb);
    assert forall|j: int| 0 <= j < db.len() implies enc[j] != 95u8 by {
        assert(enc[j] == db[j]);
        assert(is_digit_byte(db[j]));
    }
    assert(enc[db.len() as int] == 95u8);
    lemma_byte_index(enc, 95u8, db.len() as int);
    assert(enc.take(db.len() as int) =~= db);
    assert(db.len() == 0 || db[0] != 43u8);
    assert(usize_text(db) == Some(w));
    let rem = enc.skip(db.len() as int + 1);
    assert(rem =~= mb + ub + sb);
    assert(rem[w as int] == 95u8);
    assert(sb.len() > 0) by {
        assert(symbol.len() > 0);
        vstd::utf8::encode_utf8_first_scalar(symbol);
    }
    assert(rem.skip(w as int + 1) =~= sb);
    broadcast use vstd::utf8::encode_utf8_decode_utf8;
}

} // verus!
