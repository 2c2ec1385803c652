use furnace::cli::args::{parse_args, BackendKind, Command};
use furnace::cli::new_project::{check_new_project, project_file, validate_name, CONSOLE_TEMPLATE};
use furnace::cli::options;
use furnace::cli::platform::Platform;
use furnace::project::parse_project_config;

fn args(list: &[&str]) -> Vec<String> {
    list.iter().map(|s| s.to_string()).collect()
}

#[test]
fn backend_names_parse_in_any_case() {
    assert_eq!(BackendKind::parse("NATIVE"), Some(BackendKind::Native));
    assert_eq!(BackendKind::parse("Cranelift"), Some(BackendKind::Cranelift));
    assert_eq!(BackendKind::parse("llvm"), None);
    assert_eq!(BackendKind::Native.name(), "native");
    assert_eq!(BackendKind::Cranelift.name(), "cranelift");
}

#[test]
fn platform_parse_lowers_the_name() {
    assert_eq!(Platform::parse("Linux"), Ok(Platform::Linux));
    assert_eq!(
        Platform::parse("Windows"),
        Err("unsupported target platform 'windows'. Currently supported platforms: linux".to_string())
    );
    assert_eq!(Platform::Linux.linker_name(), "cc");
    assert_eq!(Platform::Linux.default_linker_flags(), vec!["-lm"]);
    assert_eq!(Platform::Linux.name(), "linux");
}

#[test]
fn compile_command_reads_input_platform_and_backend() {
    match parse_args(&args(&["compile", "main.anvil", "LINUX", "--backend", "native"]), None) {
        Ok(Command::Compile { input, platform, backend }) => {
            assert_eq!(input, "main.anvil");
            assert_eq!(platform, Platform::Linux);
            assert_eq!(backend, Some(BackendKind::Native));
        }
        other => panic!("unexpected {:?}", other),
    }
    match parse_args(&args(&["Run", "main.anvil"]), Some(BackendKind::Native)) {
        Ok(Command::Run { input, backend }) => {
            assert_eq!(input, "main.anvil");
            assert_eq!(backend, Some(BackendKind::Native));
        }
        other => panic!("unexpected {:?}", other),
    }
    match parse_args(&args(&["run", "main.anvil", "-b", "native", "-b", "cranelift"]), Some(BackendKind::Native)) {
        Ok(Command::Run { backend, .. }) => assert_eq!(backend, Some(BackendKind::Cranelift)),
        other => panic!("unexpected {:?}", other),
    }
}

#[test]
fn command_line_errors() {
    assert!(parse_args(&args(&[]), None)
        .unwrap_err()
        .starts_with("error: no command specified\n\nUsage:\n"));
    assert_eq!(
        parse_args(&args(&["compile", "main.txt", "linux"]), None).unwrap_err(),
        "error: input file 'main.txt' must have a .anvil extension\n"
    );
    assert_eq!(
        parse_args(&args(&["compile", "main.anvil", "mac"]), None).unwrap_err(),
        "error: unsupported target platform 'mac'. Currently supported platforms: linux\n"
    );
    assert_eq!(
        parse_args(&args(&["run", "main.anvil", "--backend"]), None).unwrap_err(),
        "error: missing argument for --backend\n"
    );
    assert_eq!(
        parse_args(&args(&["backend", "llvm"]), None).unwrap_err(),
        "error: unknown backend 'llvm'. Available backends: native, cranelift\n"
    );
    assert_eq!(
        parse_args(&args(&["new", "console", "-x", "App"]), None).unwrap_err(),
        "error: 'new' requires -n <NAME>\nusage: Furnace new <APP_TYPE> -n <NAME>\n"
    );
    assert_eq!(
        parse_args(&args(&["new", "console", "-n", ""]), None).unwrap_err(),
        "error: project name cannot be empty\n"
    );
    assert!(parse_args(&args(&["frobnicate"]), None)
        .unwrap_err()
        .starts_with("error: unknown command 'frobnicate'\n"));
}

#[test]
fn build_command_takes_a_project_and_backend_flags_only() {
    match parse_args(&args(&["build", "app.blower"]), None) {
        Ok(Command::Build { project, backend }) => {
            assert_eq!(project, "app.blower");
            assert_eq!(backend, None);
        }
        other => panic!("unexpected {:?}", other),
    }
    match parse_args(&args(&["build", "app.blower", "-b", "native"]), None) {
        Ok(Command::Build { backend, .. }) => assert_eq!(backend, Some(BackendKind::Native)),
        other => panic!("unexpected {:?}", other),
    }
    assert!(parse_args(&args(&["build"]), None)
        .unwrap_err()
        .contains("'build' requires a .blower project file"));
    assert!(parse_args(&args(&["build", "app.blower", "linux"]), None)
        .unwrap_err()
        .contains("unsupported furnace build argument 'linux'"));
    assert!(parse_args(&args(&["build", "app.blower", "--backend", "llvm"]), None)
        .unwrap_err()
        .contains("unknown backend 'llvm'"));
    assert!(parse_args(&args(&["build", "app.blower", "--backend"]), None)
        .unwrap_err()
        .contains("unsupported furnace build argument '--backend'"));
    assert!(matches!(parse_args(&args(&["update"]), None), Ok(Command::Update)));
}

#[test]
fn version_help_backend_and_new_commands() {
    assert!(matches!(parse_args(&args(&["-v"]), None), Ok(Command::Version)));
    assert!(matches!(parse_args(&args(&["help"]), None), Ok(Command::Help)));
    assert!(matches!(
        parse_args(&args(&["Backend", "NATIVE"]), None),
        Ok(Command::Backend { backend: BackendKind::Native })
    ));
    match parse_args(&args(&["new", "console", "-n", "App"]), None) {
        Ok(Command::New { app_type, name }) => {
            assert_eq!(app_type, "console");
            assert_eq!(name, "App");
        }
        other => panic!("unexpected {:?}", other),
    }
}

#[test]
fn driver_options() {
    let o = options::parse_args(&args(&["main.anvil", "-o", "out", "--emit-llvm", "-lm"])).unwrap();
    assert_eq!(o.input, "main.anvil");
    assert_eq!(o.output.as_deref(), Some("out"));
    assert!(o.emit_ir && o.link_math && !o.keep_ll && !o.version);
    assert!(options::parse_args(&args(&["--version"])).unwrap().version);
    assert_eq!(options::parse_args(&args(&["-o"])).unwrap_err(), "error: -o requires an argument\n");
    assert_eq!(options::parse_args(&args(&["-x"])).unwrap_err(), "error: unknown flag: -x\n");
    assert_eq!(
        options::parse_args(&args(&["a.anvil", "b.anvil"])).unwrap_err(),
        "error: multiple input files not supported\n"
    );
    assert_eq!(options::parse_args(&args(&["--keep-ll"])).unwrap_err(), "error: no input file\n");
    assert!(options::parse_args(&args(&[])).unwrap_err().starts_with("usage: furnace"));
}

#[test]
fn project_names_are_single_safe_names() {
    assert_eq!(validate_name("App_1-x"), Ok(()));
    assert_eq!(validate_name(""), Err("project name cannot be empty"));
    assert_eq!(validate_name(".."), Err("project name must be a single safe filesystem name"));
    assert_eq!(validate_name("a/b"), Err("project name must be a single safe filesystem name"));
    assert_eq!(validate_name("a\tb"), Err("project name cannot contain control characters"));
    assert_eq!(
        validate_name("has space"),
        Err("project name may contain only letters, numbers, '_' and '-'")
    );
    assert_eq!(
        check_new_project("gui", "App"),
        Err("unsupported application type 'gui'; expected console".to_string())
    );
    assert_eq!(check_new_project("console", "App"), Ok(()));
}

#[test]
fn new_project_file_is_a_valid_project() {
    let text = project_file("Demo");
    let config = parse_project_config(&text).unwrap();
    assert_eq!(config.name, "Demo");
    assert_eq!(config.source_patterns, ["src/*.anvil"]);
    assert_eq!(CONSOLE_TEMPLATE, "Open Nunction Main()\n{\n}\n");
}
