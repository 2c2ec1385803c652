//! New projects: which names are accepted, and the files a new console
//! project starts with.

use vstd::prelude::*;

use crate::text::{chars_of, concat, is_ascii_alnum, str_eq};

verus! {

/// The source of `src/Main.anvil` in a new console project.
pub const CONSOLE_TEMPLATE: &'static str = "Open Nunction Main()\n{\n}\n";

/// Whether `c` is a control character (Unicode category Cc).
pub open spec fn is_control(c: char) -> bool {
    c <= '\u{1F}' || ('\u{7F}' <= c && c <= '\u{9F}')
}

/// Whether `c` may stand in a project name.
pub open spec fn name_char(c: char) -> bool {
    is_ascii_alnum(c) || c == '_' || c == '-'
}

/// Why a project name is refused, if it is.
pub open spec fn name_problem(name: Seq<char>) -> Option<Seq<char>> {
    if name.len() == 0 {
        Some("project name cannot be empty"@)
    } else if name == "."@ || name == ".."@ || name.contains('/') || name.contains('\\') {
        Some("project name must be a single safe filesystem name"@)
    } else if exists|i: int| 0 <= i < name.len() && is_control(#[trigger] name[i]) {
        Some("project name cannot contain control characters"@)
    } else if exists|i: int| 0 <= i < name.len() && !name_char(#[trigger] name[i]) {
        Some("project name may contain only letters, numbers, '_' and '-'"@)
    } else {
        None
    }
}

/// Checks a project name: a single file-system name of ASCII letters, digits,
/// `_` and `-`.
pub fn validate_name(name: &str) -> (r: Result<(), &'static str>)
    ensures
        match r {
            Ok(()) => name_problem(name@) is None,
            Err(m) => name_problem(name@) == Some(m@),
        },
{
    let cs = chars_of(name);
    if cs.len() == 0 {
        return Err("project name cannot be empty");
    }
    if str_eq(name, ".") || str_eq(name, "..") || crate::text::contains_char(name, '/')
        || crate::text::contains_char(name, '\\') {
        return Err("project name must be a single safe filesystem name");
    }
    let mut i: usize = 0;
    while i < cs.len()
        invariant
            i <= cs@.len(),
            cs@ == name@,
            name@.len() > 0,
            !(name@ == "."@ || name@ == ".."@ || name@.contains('/') || name@.contains('\\')),
            forall|j: int| 0 <= j < i ==> !is_control(#[trigger] cs@[j]),
        decreases cs.len() - i,
    {
        let c = cs[i];
        if c <= '\u{1F}' || ('\u{7F}' <= c && c <= '\u{9F}') {
            assert(is_control(name@[i as int]));
            return Err("project name cannot contain control characters");
        }
        i += 1;
    }
    let mut i: usize = 0;
    while i < cs.len()
        invariant
            i <= cs@.len(),
            cs@ == name@,
            name@.len() > 0,
            !(name@ == "."@ || name@ == ".."@ || name@.contains('/') || name@.contains('\\')),
            forall|j: int| 0 <= j < cs@.len() ==> !is_control(#[trigger] cs@[j]),
            forall|j: int| 0 <= j < i ==> name_char(#[trigger] cs@[j]),
        decreases cs.len() - i,
    {
        let c = cs[i];
        let ok = ('a' <= c && c <= 'z') || ('A' <= c && c <= 'Z') || ('0' <= c && c <= '9') || c
            == '_' || c == '-';
        if !ok {
            assert(!name_char(name@[i as int]));
            return Err("project name may contain only letters, numbers, '_' and '-'");
        }
        i += 1;
    }
    Ok(())
}

/// The message for an application type other than `console`.
pub open spec fn unsupported_app_type(app_type: Seq<char>) -> Seq<char> {
    "unsupported application type '"@ + app_type + "'; expected console"@
}

/// Checks a request for a new project: the application type must be
/// `console` and the name acceptable.
pub fn check_new_project(app_type: &str, name: &str) -> (r: Result<(), String>)
    ensures
        match r {
            Ok(()) => app_type@ == "console"@ && name_problem(name@) is None,
            Err(m) => if app_type@ != "console"@ {
                m@ == unsupported_app_type(app_type@)
            } else {
                name_problem(name@) == Some(m@)
            },
        },
{
    if !str_eq(app_type, "console") {
        let mut m = concat("unsupported application type '", app_type);
        crate::text::append(&mut m, "'; expected console");
        return Err(m);
    }
    match validate_name(name) {
        Ok(()) => Ok(()),
        Err(m) => Err(crate::text::owned(m)),
    }
}

/// The project file of a new project named `name`.
pub open spec fn project_file_text(name: Seq<char>) -> Seq<char> {
    "Project\n{\n    Name = \""@ + name
        + "\";\n}\n\nFiles\n{\n    location = \"src/*.anvil\";\n}\n"@
}

/// The text of the project file (`<name>.blower`) of a new project.
pub fn project_file(name: &str) -> (text: String)
    ensures
        text@ == project_file_text(name@),
{
    let mut t = concat("Project\n{\n    Name = \"", name);
    crate::text::append(&mut t, "\";\n}\n\nFiles\n{\n    location = \"src/*.anvil\";\n}\n");
    t
}

} // verus!
