use furnace::ast::Program;
use furnace::backend::compile_to_elf;
use furnace::discovery::{discover_sources, SourceTree};
use furnace::imports::{
    display_symbol_name, mangle_symbol, module_name, resolve_table, ModuleSource, ModuleTable,
    ResolutionMode,
};
use furnace::parser::parse_program;
use furnace::project::{parse_project_config, parse_source};
use furnace::semantic::analyze;

const ROOT: &str = "/work/imports";

// The text of a project file `Imports.blower` with the given locations.
fn project_text(patterns: &[&str]) -> String {
    let locations = patterns
        .iter()
        .map(|pattern| format!("    location = \"{}\";\n", pattern))
        .collect::<String>();
    format!("Project {{ Name=\"Imports\"; }}\nFiles {{\n{locations}}}\n")
}

fn dirs_of(files: &[(&str, &str)]) -> Vec<String> {
    let mut dirs: Vec<String> = Vec::new();
    for (path, _) in files {
        let parts: Vec<&str> = path.split('/').collect();
        for k in 1..parts.len() {
            let d = parts[..k].join("/");
            if !dirs.contains(&d) {
                dirs.push(d);
            }
        }
    }
    dirs
}

// Builds a project the way `Furnace build` does up to semantic analysis,
// with the files given in memory; gives the diagnostic on failure.
fn build(files: &[(&str, &str)], patterns: &[&str]) -> Result<Program, String> {
    let config = parse_project_config(&project_text(patterns)).map_err(|e| e.to_string())?;
    let tree = SourceTree {
        files: files.iter().map(|(p, _)| p.to_string()).collect(),
        dirs: dirs_of(files),
    };
    let found = discover_sources(&tree, &config.source_patterns).map_err(|e| e.to_string())?;
    let mut sources = Vec::new();
    for relative in found {
        let text = files.iter().find(|(p, _)| *p == relative).unwrap().1;
        let path = format!("{}/{}", ROOT, relative);
        sources.push(parse_source(path, relative, text.to_string()).map_err(|e| e.to_string())?);
    }
    let program = furnace::imports::resolve_project(sources).map_err(|e| e.to_string())?;
    analyze(&program).map_err(|e| e.to_string())?;
    Ok(program)
}

fn error(result: Result<Program, String>) -> String {
    match result {
        Ok(_) => panic!("the build succeeded"),
        Err(message) => message,
    }
}

#[test]
fn imported_calls_keep_normal_semantic_checks_and_source_names() {
    let message = error(build(
        &[
            ("src/Math.anvil", "Open Int Add(Int A, Int B) { Return A + B; }"),
            ("src/Main.anvil", "Using Math: Add; Open Nunction Main() { Add(1); }"),
        ],
        &["src/*.anvil"],
    ));
    assert!(message.contains("Function Add expects 2 arguments, got 1"), "{message}");
    assert!(!message.contains("__forge_"), "{message}");
}

#[test]
fn use_preserves_namespace_and_does_not_import_direct_symbol() {
    let message = error(build(
        &[
            ("src/File.anvil", "Open Nunction Function1() {}"),
            ("src/Main.anvil", "Use File; Open Nunction Main() { Function1(); }"),
        ],
        &["src/*.anvil"],
    ));
    assert!(message.contains("Undefined function: Function1"), "{message}");
}

#[test]
fn reports_missing_modules_symbols_and_private_symbols() {
    let message = error(build(
        &[("src/Main.anvil", "Use Missing; Open Nunction Main() {}")],
        &["src/*.anvil"],
    ));
    assert!(message.contains("Main.anvil:1:1"), "{message}");
    assert!(message.contains("module 'Missing' not found"), "{message}");

    let message = error(build(
        &[
            ("src/File.anvil", "Open Nunction Present() {}"),
            ("src/Main.anvil", "Using File: Absent; Open Nunction Main() {}"),
        ],
        &["src/*.anvil"],
    ));
    assert!(message.contains("symbol 'Absent' not found in module 'File'"), "{message}");

    let message = error(build(
        &[
            ("src/File.anvil", "Closed Nunction Hidden() {}"),
            ("src/Main.anvil", "Use File; Open Nunction Main() { File.Hidden(); }"),
        ],
        &["src/*.anvil"],
    ));
    assert!(message.contains("symbol 'Hidden' in module 'File' is private"), "{message}");

    let message = error(build(
        &[
            ("src/File.anvil", "Closed Nunction Hidden() {}"),
            ("src/Main.anvil", "Using File: Hidden; Open Nunction Main() { Hidden(); }"),
        ],
        &["src/*.anvil"],
    ));
    assert!(message.contains("symbol 'Hidden' in module 'File' is private"), "{message}");
}

#[test]
fn selective_import_conflicts_are_rejected() {
    let message = error(build(
        &[
            ("src/A.anvil", "Open Nunction Run() {}"),
            ("src/B.anvil", "Open Nunction Run() {}"),
            ("src/Main.anvil", "Using A: Run; Using B: Run; Open Nunction Main() {}"),
        ],
        &["src/*.anvil"],
    ));
    assert!(message.contains("imported symbol 'Run' conflicts"), "{message}");

    let message = error(build(
        &[
            ("src/A.anvil", "Open Nunction Run() {}"),
            ("src/B.anvil", "Open Nunction Run() {}"),
            ("src/Main.anvil", "Using A: Run; Nunction Run() {} Open Nunction Main() {}"),
        ],
        &["src/*.anvil"],
    ));
    assert!(message.contains("conflicts with a declaration in module 'Main'"), "{message}");
}

#[test]
fn duplicate_module_filenames_are_rejected() {
    let message = error(build(
        &[
            ("src/File.anvil", "Open Nunction One() {}"),
            ("tests/File.anvil", "Open Nunction Two() {}"),
            ("src/Main.anvil", "Open Nunction Main() {}"),
        ],
        &["src/*.anvil", "tests/*.anvil"],
    ));
    assert!(message.contains("duplicate module name 'File'"), "{message}");
}

#[test]
fn direct_and_long_circular_imports_are_rejected() {
    let message = error(build(
        &[
            ("src/A.anvil", "Use B;"),
            ("src/B.anvil", "Use A;"),
            ("src/Main.anvil", "Open Nunction Main() {}"),
        ],
        &["src/*.anvil"],
    ));
    assert!(message.contains("circular import detected: A -> B -> A"), "{message}");

    let message = error(build(
        &[
            ("src/A.anvil", "Use B;"),
            ("src/B.anvil", "Use C;"),
            ("src/C.anvil", "Use A;"),
            ("src/Main.anvil", "Open Nunction Main() {}"),
        ],
        &["src/*.anvil"],
    ));
    assert!(message.contains("circular import detected: A -> B -> C -> A"), "{message}");
}

#[test]
fn project_imports_cannot_see_excluded_files() {
    let message = error(build(
        &[
            ("src/Main.anvil", "Use Secret; Open Nunction Main() {}"),
            ("hidden/Secret.anvil", "Open Nunction Hidden() {}"),
        ],
        &["src/*.anvil"],
    ));
    assert!(message.contains("module 'Secret' not found"), "{message}");
}

#[test]
fn standalone_entry_filenames_do_not_have_to_be_import_identifiers() {
    let path = "/work/standalone-program.anvil";
    let program = parse_program("Open Nunction Main() {}").unwrap();
    let module = ModuleSource {
        name: module_name(path).unwrap(),
        path: path.to_string(),
        relative_path: "standalone-program.anvil".to_string(),
        program,
    };
    assert_eq!(module.name, "standalone-program");
    let table = ModuleTable::new(vec![module]).unwrap();
    let program = resolve_table(table, ResolutionMode::Standalone(vec![vec![]])).unwrap();
    analyze(&program).unwrap();
    assert!(!compile_to_elf(&program).unwrap().is_empty());
}

#[test]
fn standalone_imports_name_modules_found_next_to_the_importer() {
    let file = ModuleSource {
        name: "File".to_string(),
        path: "/work/File.anvil".to_string(),
        relative_path: "File.anvil".to_string(),
        program: parse_program("Open Int Add(Int A, Int B) { Return A + B; }").unwrap(),
    };
    let main = ModuleSource {
        name: "Main".to_string(),
        path: "/work/Main.anvil".to_string(),
        relative_path: "Main.anvil".to_string(),
        program: parse_program("Using File: Add; Open Int Main() { Return Add(20, 4); }").unwrap(),
    };
    let table = ModuleTable::new(vec![main, file]).unwrap();
    let program =
        resolve_table(table, ResolutionMode::Standalone(vec![vec![Some(1)], vec![]])).unwrap();
    analyze(&program).unwrap();

    let main = ModuleSource {
        name: "Main".to_string(),
        path: "/work/Main.anvil".to_string(),
        relative_path: "Main.anvil".to_string(),
        program: parse_program("Use File; Open Int Main() {}").unwrap(),
    };
    let table = ModuleTable::new(vec![main]).unwrap();
    let message = resolve_table(table, ResolutionMode::Standalone(vec![vec![None]]))
        .err()
        .unwrap()
        .to_string();
    assert!(message.contains("/work/Main.anvil:1:1: module 'File' not found"), "{message}");
}

#[test]
fn mangled_names_show_their_source_names() {
    let mangled = mangle_symbol("Math", "Add");
    assert_eq!(mangled, "__forge_m4_Math_Add");
    assert_eq!(display_symbol_name(&mangled), "Add");
    let wide = mangle_symbol("Mäth_x", "Add_One");
    assert_eq!(wide, "__forge_m7_Mäth_x_Add_One");
    assert_eq!(display_symbol_name(&wide), "Add_One");
    assert_eq!(display_symbol_name("Main"), "Main");
    assert_eq!(display_symbol_name("__forge_m9_Math_Add"), "__forge_m9_Math_Add");
    assert_eq!(display_symbol_name("__forge_mx_Math_Add"), "__forge_mx_Math_Add");
    assert_eq!(display_symbol_name("__forge_m4_Math_"), "__forge_m4_Math_");
    assert_eq!(display_symbol_name("__forge_m+4_Math_Add"), "Add");
}

#[test]
fn resolution_renames_declarations_and_drops_imports() {
    let program = build(
        &[
            ("src/Math.anvil", "Open Int Seven() { Return 7; }"),
            ("src/Main.anvil", "Use Math; Open Int Main() { Return Math.Seven(); }"),
        ],
        &["src/*.anvil"],
    )
    .unwrap();
    assert_eq!(program.statements.len(), 2);
    let names: Vec<String> = program
        .statements
        .iter()
        .map(|s| match s {
            furnace::ast::Statement::FunctionDecl(f) => f.name.clone(),
            other => panic!("unexpected {:?}", other),
        })
        .collect();
    assert_eq!(names, ["__forge_m4_Math_Seven", "Main"]);
}

#[test]
fn duplicate_symbols_and_mains_are_rejected() {
    let message = error(build(
        &[("src/Main.anvil", "Open Nunction Main() {} Nunction Main() {}")],
        &["src/*.anvil"],
    ));
    assert!(message.contains("duplicate symbol 'Main' in module 'Main'"), "{message}");
    let message = error(build(
        &[
            ("src/A.anvil", "Open Nunction Main() {}"),
            ("src/Main.anvil", "Open Nunction Main() {}"),
        ],
        &["src/*.anvil"],
    ));
    assert!(message.contains("multiple Main functions in modules 'A' and 'Main'"), "{message}");
}

#[test]
fn a_module_loaded_before_keeps_its_first_place() {
    let paths = vec!["/p/main.fe".to_string(), "/p/a.fe".to_string(), "/p/a.fe".to_string()];
    assert_eq!(furnace::imports::loaded_position(&paths, "/p/a.fe"), Some(1));
    assert_eq!(furnace::imports::loaded_position(&paths, "/p/main.fe"), Some(0));
    assert_eq!(furnace::imports::loaded_position(&paths, "/p/b.fe"), None);
}
