use furnace::discovery::{discover_sources, validate_location, SourceTree};
use furnace::project::{check_project_file, parse_project_config, parse_source, Project};
use furnace::semantic::analyze;

// A project tree: files with their contents, by path relative to the root.
fn tree(files: &[&str], dirs: &[&str]) -> SourceTree {
    SourceTree {
        files: files.iter().map(|f| f.to_string()).collect(),
        dirs: dirs.iter().map(|d| d.to_string()).collect(),
    }
}

fn patterns(list: &[&str]) -> Vec<String> {
    list.iter().map(|p| p.to_string()).collect()
}

// The directories that hold the given files.
fn dirs_of(files: &[(&str, &str)]) -> Vec<String> {
    let mut dirs: Vec<String> = Vec::new();
    for (path, _) in files {
        let parts: Vec<&str> = path.split('/').collect();
        for k in 1..parts.len() {
            let d = parts[..k].join("/");
            if !dirs.contains(&d) {
                dirs.push(d);
            }
        }
    }
    dirs
}

// Loads a project the way the `build` command does, with the files given in
// memory: the project file `app.blower` under `root`.
fn load_project(root: &str, blower: &str, files: &[(&str, &str)]) -> Result<Project, String> {
    let project_file = format!("{}/app.blower", root);
    check_project_file(&project_file).map_err(|e| e.to_string())?;
    let config = parse_project_config(blower).map_err(|e| e.to_string())?;
    let tree = SourceTree {
        files: files.iter().map(|(p, _)| p.to_string()).collect(),
        dirs: dirs_of(files),
    };
    let found = discover_sources(&tree, &config.source_patterns).map_err(|e| e.to_string())?;
    let mut source_files = Vec::new();
    for relative in found {
        let text = files.iter().find(|(p, _)| *p == relative).unwrap().1;
        let path = format!("{}/{}", root, relative);
        let source = parse_source(path, relative, text.to_string()).map_err(|e| e.to_string())?;
        source_files.push(source);
    }
    Ok(Project { config, project_file, root: root.to_string(), source_files })
}

#[test]
fn discovers_relative_globs_deduplicated_and_sorted() {
    let t = tree(
        &["src/Z.anvil", "src/A.anvil", "src/nested/B.anvil"],
        &["src", "src/nested"],
    );
    let relative = discover_sources(&t, &patterns(&["src/**/*.anvil", "src/A*.anvil"])).unwrap();
    assert_eq!(relative, ["src/A.anvil", "src/Z.anvil", "src/nested/B.anvil"]);

    let dotted = discover_sources(&t, &patterns(&["./src/*.anvil"])).unwrap();
    assert_eq!(dotted.len(), 2);
}

#[test]
fn exact_and_question_mark_locations_match_only_anvil_sources() {
    let t = tree(&["src/A1.anvil", "src/A2.anvil", "src/A3.txt"], &["src"]);
    let exact = discover_sources(&t, &patterns(&["src/A1.anvil"])).unwrap();
    assert_eq!(exact, ["src/A1.anvil"]);

    let wildcard = discover_sources(&t, &patterns(&["src/A?.*"])).unwrap();
    assert_eq!(wildcard, ["src/A1.anvil", "src/A2.anvil"]);
}

#[test]
fn single_star_does_not_match_nested_directories() {
    let t = tree(&["src/Top.anvil", "src/nested/Deep.anvil"], &["src", "src/nested"]);
    let shallow = discover_sources(&t, &patterns(&["src/*.anvil"])).unwrap();
    assert_eq!(shallow, ["src/Top.anvil"]);

    let recursive = discover_sources(&t, &patterns(&["src/**/*.anvil"])).unwrap();
    assert_eq!(recursive, ["src/Top.anvil", "src/nested/Deep.anvil"]);
}

#[test]
fn every_declared_location_must_match() {
    let t = tree(&["src/Main.anvil"], &["src", "tests"]);
    let error = discover_sources(&t, &patterns(&["src/*.anvil", "tests/*.anvil"]))
        .unwrap_err()
        .to_string();
    assert!(error.contains("no Sydrogen source files matched 'tests/*.anvil'"));
}

#[test]
fn reports_invalid_missing_and_zero_match_locations() {
    let t = tree(&[], &["src"]);
    assert!(discover_sources(&t, &patterns(&["../*.anvil"]))
        .unwrap_err()
        .to_string()
        .contains("invalid location"));
    assert!(discover_sources(&t, &patterns(&["..\\*.anvil"]))
        .unwrap_err()
        .to_string()
        .contains("invalid location"));
    assert!(discover_sources(&t, &patterns(&["missing/*.anvil"]))
        .unwrap_err()
        .to_string()
        .contains("directory does not exist"));
    assert!(discover_sources(&t, &patterns(&["src/*.anvil"]))
        .unwrap_err()
        .to_string()
        .contains("no Sydrogen source files matched"));
}

#[test]
fn location_rules() {
    assert!(validate_location("src/*.anvil").is_ok());
    assert!(validate_location("  ").is_err());
    assert!(validate_location("/abs/*.anvil").is_err());
    assert!(validate_location("src/[ab].anvil").is_err());
    assert!(validate_location("a/../b").is_err());
    assert!(validate_location("a/..b/c.anvil").is_ok());
    assert_eq!(validate_location("{x}").unwrap_err().message, "invalid location '{x}'");
}

#[test]
fn later_locations_may_reuse_earlier_files() {
    let t = tree(&["src/A.anvil", "src/B.anvil"], &["src"]);
    let found = discover_sources(&t, &patterns(&["src/*.anvil", "src/A.anvil"])).unwrap();
    assert_eq!(found, ["src/A.anvil", "src/B.anvil"]);
    let ordered = discover_sources(
        &tree(&["a-c/X.anvil", "a/b/Y.anvil"], &["a", "a/b", "a-c"]),
        &patterns(&["**/*.anvil"]),
    )
    .unwrap();
    assert_eq!(ordered, ["a/b/Y.anvil", "a-c/X.anvil"]);
}

#[test]
fn project_load_retains_actual_and_relative_source_paths() {
    let project = load_project(
        "/work/app",
        "Project { Name=\"App\"; } Files { location=\"sources/*.anvil\"; }",
        &[("sources/Main.anvil", "Open Nunction Main() {}")],
    )
    .unwrap();
    assert_eq!(project.source_files.len(), 1);
    assert_eq!(project.source_files[0].path, "/work/app/sources/Main.anvil");
    assert_eq!(project.source_files[0].relative_path, "sources/Main.anvil");
    assert_eq!(project.output_path(), "/work/app/build/App");
}

#[test]
fn project_program_combines_independently_parsed_source_asts() {
    let project = load_project(
        "/work/app",
        "Project { Name=\"App\"; } Files { location=\"src/*.anvil\"; }",
        &[
            ("src/Helper.anvil", "Open Int Helper() { Return 7; }"),
            ("src/Main.anvil", "Using Helper: Helper; Open Int Main() { Return Helper(); }"),
        ],
    )
    .unwrap();
    assert_eq!(project.source_files.len(), 2);
    let program = project.resolved_program().unwrap();
    assert_eq!(program.statements.len(), 2);
    analyze(&program).unwrap();
}

#[test]
fn project_program_keeps_every_statement_in_source_order() {
    let project = load_project(
        "/work/app",
        "Project { Name=\"App\"; } Files { location=\"src/*.anvil\"; }",
        &[
            ("src/B.anvil", "Open Int Two() { Return 2; } Open Int Three() { Return 3; }"),
            ("src/A.anvil", "Open Int One() { Return 1; }"),
        ],
    )
    .unwrap();
    assert_eq!(project.program().statements.len(), 3);
}

#[test]
fn project_load_includes_source_path_in_parse_diagnostics() {
    let error = load_project(
        "/work/app",
        "Project { Name=\"App\"; } Files { location=\"src/*.anvil\"; }",
        &[("src/Broken.anvil", "not Sydrogen")],
    )
    .err()
    .unwrap();
    assert!(error.contains("src/Broken.anvil"), "{error}");
}

#[test]
fn project_file_needs_blower_extension() {
    assert!(check_project_file("project.txt")
        .unwrap_err()
        .to_string()
        .contains("requires a .blower project file"));
    assert!(check_project_file("dir/app.blower").is_ok());
}

#[test]
fn output_path_joins_like_paths() {
    let mut project = load_project(
        "",
        "Project { Name=\"App\"; } Files { location=\"src/*.anvil\"; }",
        &[("src/Main.anvil", "Open Nunction Main() {}")],
    )
    .unwrap();
    project.root = String::new();
    assert_eq!(project.output_path(), "build/App");
    project.root = "/srv/".to_string();
    assert_eq!(project.output_path(), "/srv/build/App");
}
