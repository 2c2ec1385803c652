//! Code generation backends selectable on the command line.

use vstd::prelude::*;

use crate::cli::platform::{unsupported_platform_message, Platform};
use crate::paths::{extension_of, path_extension};
use crate::text::{append, concat, owned, str_eq};

verus! {

/// Whether every character is ASCII.
pub open spec fn all_ascii(s: Seq<char>) -> bool {
    forall|i: int| 0 <= i < s.len() ==> (#[trigger] s[i]) <= '\u{7F}'
}

/// A character with ASCII capitals lowered.
pub open spec fn lower_char(c: char) -> char {
    if 'A' <= c && c <= 'Z' {
        ((c as u32) + 32) as char
    } else {
        c
    }
}

/// Text with ASCII capitals lowered.
pub open spec fn ascii_lower(s: Seq<char>) -> Seq<char> {
    s.map_values(|c: char| lower_char(c))
}

/// The Unicode lowercase of a text, as `str::to_lowercase` computes it.
pub uninterp spec fn lowercase(s: Seq<char>) -> Seq<char>;

/// `str::to_lowercase`: its result is named `lowercase`; on ASCII text it is
/// the text with each capital letter lowered, as the documentation of
/// `str::to_ascii_lowercase` and `str::to_lowercase` agree. The Unicode case
/// tables behind other text are not restated here.
#[verifier::external_body]
pub(crate) fn to_lowercase(s: &str) -> (r: String)
    ensures
        r@ == lowercase(s@),
        all_ascii(s@) ==> r@ == ascii_lower(s@),
{
    s.to_lowercase()
}

/// The lowercase of a text: on ASCII text each capital letter lowered, on
/// other text what `lowercase` names.
pub open spec fn lowered(s: Seq<char>) -> Seq<char> {
    if all_ascii(s) {
        ascii_lower(s)
    } else {
        lowercase(s)
    }
}

/// A code generation backend.
#[derive(Debug, Clone, Copy, PartialEq, Eq, Structural)]
pub enum BackendKind {
    Cranelift,
    Native,
}

/// The name of a backend, as the command line and the configuration write it.
pub open spec fn backend_name(b: BackendKind) -> Seq<char> {
    match b {
        BackendKind::Cranelift => "cranelift"@,
        BackendKind::Native => "native"@,
    }
}

/// The backend a lowercased name selects.
pub open spec fn backend_named(lower: Seq<char>) -> Option<BackendKind> {
    if lower == "cranelift"@ {
        Some(BackendKind::Cranelift)
    } else if lower == "native"@ {
        Some(BackendKind::Native)
    } else {
        None
    }
}

impl BackendKind {
    /// The backend named `value`, in any letter case.
    pub fn parse(value: &str) -> (r: Option<Self>)
        ensures
            r == backend_named(lowered(value@)),
    {
        let lower = to_lowercase(value);
        if crate::text::str_eq(lower.as_str(), "cranelift") {
            Some(BackendKind::Cranelift)
        } else if crate::text::str_eq(lower.as_str(), "native") {
            Some(BackendKind::Native)
        } else {
            None
        }
    }

    /// The backend's name.
    pub fn name(self) -> (s: &'static str)
        ensures
            s@ == backend_name(self),
    {
        match self {
            BackendKind::Cranelift => "cranelift",
            BackendKind::Native => "native",
        }
    }
}

/// A command of the `Furnace` command line.
#[derive(Debug)]
pub enum Command {
    Compile { input: String, platform: Platform, backend: Option<BackendKind> },
    Run { input: String, backend: Option<BackendKind> },
    Build { project: String, backend: Option<BackendKind> },
    New { app_type: String, name: String },
    Backend { backend: BackendKind },
    Update,
    Version,
    Help,
}

/// The kind of a command, with its non-text arguments.
#[derive(Debug, Clone, Copy, PartialEq, Eq, Structural)]
pub enum CommandShape {
    Compile(Platform, Option<BackendKind>),
    Run(Option<BackendKind>),
    Build(Option<BackendKind>),
    New,
    Backend(BackendKind),
    Update,
    Version,
    Help,
}

/// The kind of a command.
pub open spec fn shape_of(c: Command) -> CommandShape {
    match c {
        Command::Compile { platform, backend, .. } => CommandShape::Compile(platform, backend),
        Command::Run { backend, .. } => CommandShape::Run(backend),
        Command::Build { backend, .. } => CommandShape::Build(backend),
        Command::Update => CommandShape::Update,
        Command::New { .. } => CommandShape::New,
        Command::Backend { backend } => CommandShape::Backend(backend),
        Command::Version => CommandShape::Version,
        Command::Help => CommandShape::Help,
    }
}

/// The usage lines shared by the diagnostics for a missing or unknown command.
pub open spec fn usage_lines() -> Seq<char> {
    "Usage:\n    Furnace compile <file>.anvil <platform> [--backend cranelift|native]\n    Furnace run <file>.anvil [--backend cranelift|native]\n    Furnace backend <native|cranelift>\n    Furnace new <APP_TYPE> -n <NAME>\nAvailable backends: native, cranelift\n"@
}

/// The diagnostic for an empty command line.
pub open spec fn no_command_text() -> Seq<char> {
    "error: no command specified\n\n"@ + usage_lines()
        + "Helpers:\n    Furnace -version\n    Furnace -help\n"@
}

/// The diagnostic for an unknown command.
pub open spec fn unknown_command_text(c: Seq<char>) -> Seq<char> {
    "error: unknown command '"@ + c + "'\n\n"@ + usage_lines()
        + "    Furnace -version\n    Furnace -help\n"@
}

/// The diagnostic for an unknown backend name.
pub open spec fn unknown_backend_text(v: Seq<char>) -> Seq<char> {
    "error: unknown backend '"@ + v + "'. Available backends: native, cranelift\n"@
}

/// The diagnostic for an input without the `.anvil` extension.
pub open spec fn extension_text(p: Seq<char>) -> Seq<char> {
    "error: input file '"@ + p + "' must have a .anvil extension\n"@
}

/// Whether a path names a ForgeLang source file.
pub open spec fn anvil_path(p: Seq<char>) -> bool {
    path_extension(p) == Some("anvil"@)
}

/// The backend the `--backend` / `-b` flags from position `i` on select,
/// starting from `cur`; the last flag wins.
pub open spec fn flags_backend(a: Seq<Seq<char>>, i: int, cur: Option<BackendKind>) -> Result<
    Option<BackendKind>,
    Seq<char>,
>
    decreases a.len() - i,
{
    if i < 0 || i >= a.len() {
        Ok(cur)
    } else if a[i] == "--backend"@ || a[i] == "-b"@ {
        if i + 1 >= a.len() {
            Err("error: missing argument for --backend\n"@)
        } else {
            match backend_named(lowered(a[i + 1])) {
                Some(b) => flags_backend(a, i + 2, Some(b)),
                None => Err(unknown_backend_text(a[i + 1])),
            }
        }
    } else {
        flags_backend(a, i + 1, cur)
    }
}

/// The backend the arguments after a project file select, starting from
/// `cur`; only `--backend` / `-b` with a value may follow the project file.
pub open spec fn build_flags(a: Seq<Seq<char>>, i: int, cur: Option<BackendKind>) -> Result<
    Option<BackendKind>,
    Seq<char>,
>
    decreases a.len() - i,
{
    if i < 0 || i >= a.len() {
        Ok(cur)
    } else if (a[i] == "--backend"@ || a[i] == "-b"@) && i + 1 < a.len() {
        match backend_named(lowered(a[i + 1])) {
            Some(b) => build_flags(a, i + 2, Some(b)),
            None => Err(unknown_backend_text(a[i + 1])),
        }
    } else {
        Err("error: unsupported furnace build argument '"@ + a[i] + "'\n"@)
    }
}

/// What a command line asks for, or the diagnostic it gives; `d` is the
/// backend asked for when no flag names one (if any).
pub open spec fn command_result(a: Seq<Seq<char>>, d: Option<BackendKind>) -> Result<CommandShape, Seq<char>> {
    if a.len() == 0 {
        Err(no_command_text())
    } else {
        let f = a[0];
        if f == "-version"@ || f == "--version"@ || f == "-v"@ || f == "version"@ {
            Ok(CommandShape::Version)
        } else if f == "-help"@ || f == "--help"@ || f == "-h"@ || f == "help"@ {
            Ok(CommandShape::Help)
        } else if f == "compile"@ || f == "Compile"@ {
            if a.len() < 3 {
                Err(
                    "error: 'compile' requires an input .anvil file and a target platform\nusage: Furnace compile <file>.anvil <platform> [--backend cranelift|native]\n"@,
                )
            } else if !anvil_path(a[1]) {
                Err(extension_text(a[1]))
            } else if lowered(a[2]) != "linux"@ {
                Err("error: "@ + unsupported_platform_message(lowered(a[2])) + "\n"@)
            } else {
                match flags_backend(a, 3, d) {
                    Ok(b) => Ok(CommandShape::Compile(Platform::Linux, b)),
                    Err(m) => Err(m),
                }
            }
        } else if f == "run"@ || f == "Run"@ {
            if a.len() < 2 {
                Err(
                    "error: 'run' requires an input .anvil file\nusage: Furnace run <file>.anvil [--backend cranelift|native]\n"@,
                )
            } else if !anvil_path(a[1]) {
                Err(extension_text(a[1]))
            } else {
                match flags_backend(a, 2, d) {
                    Ok(b) => Ok(CommandShape::Run(b)),
                    Err(m) => Err(m),
                }
            }
        } else if f == "backend"@ || f == "Backend"@ {
            if a.len() != 2 {
                Err(
                    "error: 'backend' requires a backend type\nusage: Furnace backend <native|cranelift>\navailable backends: native, cranelift\n"@,
                )
            } else {
                match backend_named(lowered(a[1])) {
                    Some(b) => Ok(CommandShape::Backend(b)),
                    None => Err(unknown_backend_text(a[1])),
                }
            }
        } else if f == "build"@ || f == "Build"@ {
            if a.len() < 2 {
                Err(
                    "error: 'build' requires a .blower project file\nusage: Furnace build <project>.blower [--backend native|cranelift]\n"@,
                )
            } else {
                match build_flags(a, 2, d) {
                    Ok(b) => Ok(CommandShape::Build(b)),
                    Err(m) => Err(m),
                }
            }
        } else if f == "update"@ || f == "Update"@ {
            Ok(CommandShape::Update)
        } else if f == "new"@ || f == "New"@ {
            if a.len() < 2 {
                Err(
                    "error: 'new' requires an application type and a project name\nusage: Furnace new <APP_TYPE> -n <NAME>\n"@,
                )
            } else if a.len() != 4 || a[2] != "-n"@ {
                Err("error: 'new' requires -n <NAME>\nusage: Furnace new <APP_TYPE> -n <NAME>\n"@)
            } else if a[3].len() == 0 {
                Err("error: project name cannot be empty\n"@)
            } else {
                Ok(CommandShape::New)
            }
        } else {
            Err(unknown_command_text(f))
        }
    }
}

/// The backend named by a command-line argument.
fn parse_backend_kind(value: &str) -> (r: Result<BackendKind, String>)
    ensures
        match r {
            Ok(b) => backend_named(lowered(value@)) == Some(b),
            Err(m) => backend_named(lowered(value@)) is None && m@ == unknown_backend_text(value@),
        },
{
    match BackendKind::parse(value) {
        Some(b) => Ok(b),
        None => {
            let mut m = concat("error: unknown backend '", value);
            append(&mut m, "'. Available backends: native, cranelift\n");
            Err(m)
        },
    }
}

/// The backend the flags from position `from` on select, starting from `default`.
fn parse_backend_flag(args: &Vec<String>, from: usize, default: Option<BackendKind>) -> (r: Result<
    Option<BackendKind>,
    String,
>)
    ensures
        match r {
            Ok(b) => flags_backend(args@.map_values(|s: String| s@), from as int, default) == Ok::<
                Option<BackendKind>,
                Seq<char>,
            >(b),
            Err(m) => flags_backend(args@.map_values(|s: String| s@), from as int, default) == Err::<
                Option<BackendKind>,
                Seq<char>,
            >(m@),
        },
{
    let ghost a = args@.map_values(|s: String| s@);
    let mut backend = default;
    let mut i = from;
    while i < args.len()
        invariant
            a == args@.map_values(|s: String| s@),
            from <= i,
            flags_backend(a, i as int, backend) == flags_backend(a, from as int, default),
        decreases args.len() - i,
    {
        assert(a[i as int] == args@[i as int]@);
        if str_eq(args[i].as_str(), "--backend") || str_eq(args[i].as_str(), "-b") {
            if i + 1 >= args.len() {
                return Err(owned("error: missing argument for --backend\n"));
            }
            assert(a[i + 1] == args@[i + 1]@);
            backend = Some(parse_backend_kind(args[i + 1].as_str())?);
            i += 2;
        } else {
            i += 1;
        }
    }
    Ok(backend)
}

/// Whether a path names a ForgeLang source file.
fn has_anvil_extension(p: &str) -> (b: bool)
    ensures
        b == anvil_path(p@),
{
    match extension_of(p) {
        Some(e) => str_eq(e.as_str(), "anvil"),
        None => false,
    }
}

/// The diagnostic for an input without the `.anvil` extension.
fn extension_error(p: &str) -> (m: String)
    ensures
        m@ == extension_text(p@),
{
    let mut m = concat("error: input file '", p);
    append(&mut m, "' must have a .anvil extension\n");
    m
}

/// The backend the arguments after a project file select.
fn parse_build_flags(args: &Vec<String>, from: usize, default: Option<BackendKind>) -> (r: Result<
    Option<BackendKind>,
    String,
>)
    ensures
        match r {
            Ok(b) => build_flags(args@.map_values(|s: String| s@), from as int, default) == Ok::<
                Option<BackendKind>,
                Seq<char>,
            >(b),
            Err(m) => build_flags(args@.map_values(|s: String| s@), from as int, default) == Err::<
                Option<BackendKind>,
                Seq<char>,
            >(m@),
        },
{
    let ghost a = args@.map_values(|s: String| s@);
    let mut backend = default;
    let mut i = from;
    while i < args.len()
        invariant
            a == args@.map_values(|s: String| s@),
            from <= i,
            build_flags(a, i as int, backend) == build_flags(a, from as int, default),
        decreases args.len() - i,
    {
        assert(a[i as int] == args@[i as int]@);
        if (str_eq(args[i].as_str(), "--backend") || str_eq(args[i].as_str(), "-b")) && i + 1
            < args.len() {
            assert(a[i + 1] == args@[i + 1]@);
            backend = Some(parse_backend_kind(args[i + 1].as_str())?);
            i += 2;
        } else {
            let mut m = concat("error: unsupported furnace build argument '", args[i].as_str());
            append(&mut m, "'\n");
            return Err(m);
        }
    }
    Ok(backend)
}

/// Reads the `Furnace` command line (without the program name): the command
/// it asks for, or the text to report (the program then exits with status 2).
/// `default_backend` is the backend asked for when no `--backend` flag is
/// given (the caller resolves `None` from the saved configuration).
pub fn parse_args(args: &Vec<String>, default_backend: Option<BackendKind>) -> (r: Result<Command, String>)
    ensures
        match r {
            Ok(c) => command_result(args@.map_values(|s: String| s@), default_backend) == Ok::<
                CommandShape,
                Seq<char>,
            >(shape_of(c)) && match c {
                Command::Compile { input, .. } => input@ == args@[1]@,
                Command::Run { input, .. } => input@ == args@[1]@,
                Command::Build { project, .. } => project@ == args@[1]@,
                Command::New { app_type, name } => app_type@ == args@[1]@ && name@ == args@[3]@,
                _ => true,
            },
            Err(m) => command_result(args@.map_values(|s: String| s@), default_backend) == Err::<
                CommandShape,
                Seq<char>,
            >(m@),
        },
{
    let ghost a = args@.map_values(|s: String| s@);
    if args.len() == 0 {
        let mut m = owned("error: no command specified\n\n");
        append(&mut m, "Usage:\n    Furnace compile <file>.anvil <platform> [--backend cranelift|native]\n    Furnace run <file>.anvil [--backend cranelift|native]\n    Furnace backend <native|cranelift>\n    Furnace new <APP_TYPE> -n <NAME>\nAvailable backends: native, cranelift\n");
        append(&mut m, "Helpers:\n    Furnace -version\n    Furnace -help\n");
        return Err(m);
    }
    let first = args[0].as_str();
    assert(a[0] == first@);
    if str_eq(first, "-version") || str_eq(first, "--version") || str_eq(first, "-v") || str_eq(
        first,
        "version",
    ) {
        return Ok(Command::Version);
    }
    if str_eq(first, "-help") || str_eq(first, "--help") || str_eq(first, "-h") || str_eq(
        first,
        "help",
    ) {
        return Ok(Command::Help);
    }
    if str_eq(first, "compile") || str_eq(first, "Compile") {
        if args.len() < 3 {
            return Err(
                owned(
                    "error: 'compile' requires an input .anvil file and a target platform\nusage: Furnace compile <file>.anvil <platform> [--backend cranelift|native]\n",
                ),
            );
        }
        assert(a[1] == args@[1]@ && a[2] == args@[2]@);
        if !has_anvil_extension(args[1].as_str()) {
            return Err(extension_error(args[1].as_str()));
        }
        let platform = match Platform::parse(args[2].as_str()) {
            Ok(p) => p,
            Err(message) => {
                let mut m = concat("error: ", message.as_str());
                append(&mut m, "\n");
                return Err(m);
            },
        };
        let backend = parse_backend_flag(args, 3, default_backend)?;
        return Ok(Command::Compile { input: args[1].clone(), platform, backend });
    }
    if str_eq(first, "run") || str_eq(first, "Run") {
        if args.len() < 2 {
            return Err(
                owned(
                    "error: 'run' requires an input .anvil file\nusage: Furnace run <file>.anvil [--backend cranelift|native]\n",
                ),
            );
        }
        assert(a[1] == args@[1]@);
        if !has_anvil_extension(args[1].as_str()) {
            return Err(extension_error(args[1].as_str()));
        }
        let backend = parse_backend_flag(args, 2, default_backend)?;
        return Ok(Command::Run { input: args[1].clone(), backend });
    }
    if str_eq(first, "backend") || str_eq(first, "Backend") {
        if args.len() != 2 {
            return Err(
                owned(
                    "error: 'backend' requires a backend type\nusage: Furnace backend <native|cranelift>\navailable backends: native, cranelift\n",
                ),
            );
        }
        assert(a[1] == args@[1]@);
        let backend = parse_backend_kind(args[1].as_str())?;
        return Ok(Command::Backend { backend });
    }
    if str_eq(first, "build") || str_eq(first, "Build") {
        if args.len() < 2 {
            return Err(
                owned(
                    "error: 'build' requires a .blower project file\nusage: Furnace build <project>.blower [--backend native|cranelift]\n",
                ),
            );
        }
        let backend = parse_build_flags(args, 2, default_backend)?;
        return Ok(Command::Build { project: args[1].clone(), backend });
    }
    if str_eq(first, "update") || str_eq(first, "Update") {
        return Ok(Command::Update);
    }
    if str_eq(first, "new") || str_eq(first, "New") {
        if args.len() < 2 {
            return Err(
                owned(
                    "error: 'new' requires an application type and a project name\nusage: Furnace new <APP_TYPE> -n <NAME>\n",
                ),
            );
        }
        if args.len() != 4 || !str_eq(args[2].as_str(), "-n") {
            proof {
                if args@.len() == 4 {
                    assert(a[2] == args@[2]@);
                }
            }
            return Err(owned("error: 'new' requires -n <NAME>\nusage: Furnace new <APP_TYPE> -n <NAME>\n"));
        }
        assert(a[2] == args@[2]@ && a[3] == args@[3]@);
        if args[3].as_str().is_empty() {
            return Err(owned("error: project name cannot be empty\n"));
        }
        return Ok(Command::New { app_type: args[1].clone(), name: args[3].clone() });
    }
    let mut m = concat("error: unknown command '", first);
    append(&mut m, "'\n\n");
    append(&mut m, "Usage:\n    Furnace compile <file>.anvil <platform> [--backend cranelift|native]\n    Furnace run <file>.anvil [--backend cranelift|native]\n    Furnace backend <native|cranelift>\n    Furnace new <APP_TYPE> -n <NAME>\nAvailable backends: native, cranelift\n");
    append(&mut m, "    Furnace -version\n    Furnace -help\n");
    Err(m)
}

} // verus!
