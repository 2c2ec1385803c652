use furnace::cli::args::BackendKind;
use furnace::cli::config::{
    load_from, parse_config, resolve_backend, save_backend, BUILT_IN_BACKEND,
};

#[test]
fn missing_config_uses_existing_cranelift_default() {
    let saved = load_from("/nonexistent/missing", None);
    assert_eq!(resolve_backend(None, saved).unwrap(), BackendKind::Cranelift);
}

#[test]
fn native_and_cranelift_persist_across_separate_loads() {
    let path = "/home/user/.config/furnace/config";
    let saved = save_backend(BackendKind::Native);
    assert_eq!(
        load_from(path, Some(saved.as_str())).unwrap().unwrap().backend,
        BackendKind::Native
    );
    assert_eq!(
        load_from(path, Some(saved.as_str())).unwrap().unwrap().backend,
        BackendKind::Native
    );

    let saved = save_backend(BackendKind::Cranelift);
    assert_eq!(
        load_from(path, Some(saved.as_str())).unwrap().unwrap().backend,
        BackendKind::Cranelift
    );
}

#[test]
fn explicit_override_wins_even_when_saved_config_is_malformed() {
    let saved = load_from("config", Some("this is broken"));
    assert!(saved.is_err());
    assert_eq!(
        resolve_backend(Some(BackendKind::Native), saved).unwrap(),
        BackendKind::Native
    );
}

#[test]
fn malformed_and_unknown_saved_backends_are_errors() {
    assert!(load_from("config", Some("this is broken"))
        .unwrap_err()
        .contains("malformed Furnace configuration"));
    assert!(load_from("config", Some("backend = \"llvm\"\n"))
        .unwrap_err()
        .contains("unknown backend 'llvm'"));
}

#[test]
fn saved_text_is_one_backend_line() {
    assert_eq!(save_backend(BackendKind::Native), "backend = \"native\"\n");
    assert_eq!(save_backend(BackendKind::Cranelift), "backend = \"cranelift\"\n");
}

#[test]
fn parse_config_accepts_comments_blank_lines_and_any_case() {
    let config = parse_config("# saved by Furnace\n\n  backend = \"NATIVE\"  \r\n").unwrap();
    assert_eq!(config.backend, BackendKind::Native);
}

#[test]
fn parse_config_errors_name_the_line() {
    assert_eq!(parse_config("").unwrap_err(), "backend setting is required");
    assert_eq!(parse_config("# only a comment\n").unwrap_err(), "backend setting is required");
    assert_eq!(parse_config("\nbackend native").unwrap_err(), "invalid syntax at line 2");
    assert_eq!(
        parse_config("color = \"red\"").unwrap_err(),
        "unknown setting 'color' at line 1"
    );
    assert_eq!(
        parse_config("backend = \"native\"\nbackend = \"native\"").unwrap_err(),
        "duplicate backend setting at line 2"
    );
    assert_eq!(
        parse_config("backend = native").unwrap_err(),
        "backend must be a quoted string at line 1"
    );
    assert_eq!(
        parse_config("backend = \"").unwrap_err(),
        "backend must be a quoted string at line 1"
    );
    assert_eq!(
        parse_config("backend = \"llvm\"").unwrap_err(),
        "unknown backend 'llvm'; available backends: native, cranelift"
    );
}

#[test]
fn resolve_backend_prefers_explicit_then_saved_then_built_in() {
    assert_eq!(resolve_backend(None, Ok(None)).unwrap(), BUILT_IN_BACKEND);
    let saved = load_from("config", Some("backend = \"native\"")).unwrap();
    assert_eq!(resolve_backend(None, Ok(saved)).unwrap(), BackendKind::Native);
    assert_eq!(
        resolve_backend(Some(BackendKind::Cranelift), Ok(saved)).unwrap(),
        BackendKind::Cranelift
    );
    assert_eq!(
        resolve_backend(None, Err("cannot read".to_string())).unwrap_err(),
        "cannot read"
    );
}

#[test]
fn load_error_names_the_file() {
    assert_eq!(
        load_from("/etc/furnace/config", Some("backend = 1")).unwrap_err(),
        "malformed Furnace configuration '/etc/furnace/config': backend must be a quoted string at line 1"
    );
}
