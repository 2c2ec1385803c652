//! The saved Furnace configuration: which backend to use by default.
//!
//! The configuration file holds one setting per line, `backend = "<name>"`;
//! blank lines and lines starting with `#` are ignored.

use vstd::prelude::*;

use crate::cli::args::{all_ascii, ascii_lower, backend_name, backend_named, lowered, BackendKind};
use crate::text::{
    chars_of, concat, decimal, decimal_string, find, first_match, lemma_first_match_is,
    lemma_single_line, lines, lines_of, match_at, owned, str_eq, string_of_range, strip_cr, trim,
    trim_end, trim_start, trimmed,
};

verus! {

/// The backend used when neither the command line nor the configuration names one.
pub const BUILT_IN_BACKEND: BackendKind = BackendKind::Cranelift;

/// The saved configuration.
#[derive(Debug, Clone, Copy, PartialEq, Eq, Structural)]
pub struct FurnaceConfig {
    pub backend: BackendKind,
}

/// What one line of the configuration says, given its 1-based number and
/// whether a backend was already set: nothing, a backend, or an error.
pub open spec fn line_setting(raw: Seq<char>, number: nat, seen: bool) -> Result<
    Option<BackendKind>,
    Seq<char>,
> {
    let line = trimmed(raw);
    if line.len() == 0 || line[0] == '#' {
        Ok(None)
    } else {
        match first_match(line, seq!['=']) {
            None => Err("invalid syntax at line "@ + decimal(number)),
            Some(k) => {
                let key = trimmed(line.take(k));
                let value = trimmed(line.skip(k + 1));
                if key != "backend"@ {
                    Err("unknown setting '"@ + key + "' at line "@ + decimal(number))
                } else if seen {
                    Err("duplicate backend setting at line "@ + decimal(number))
                } else if !(value.len() >= 2 && value[0] == '"' && value.last() == '"') {
                    Err("backend must be a quoted string at line "@ + decimal(number))
                } else {
                    let name = value.subrange(1, value.len() - 1);
                    match backend_named(lowered(name)) {
                        Some(b) => Ok(Some(b)),
                        None => Err(
                            "unknown backend '"@ + name + "'; available backends: native, cranelift"@,
                        ),
                    }
                }
            },
        }
    }
}

/// The backend the first `n` lines set, or the first error among them.
pub open spec fn config_upto(ls: Seq<Seq<char>>, n: nat) -> Result<Option<BackendKind>, Seq<char>>
    decreases n,
{
    if n == 0 {
        Ok(None)
    } else {
        match config_upto(ls, (n - 1) as nat) {
            Err(m) => Err(m),
            Ok(b) => match line_setting(ls[n - 1], n, b is Some) {
                Err(m) => Err(m),
                Ok(None) => Ok(b),
                Ok(Some(nb)) => Ok(Some(nb)),
            },
        }
    }
}

/// The backend a configuration text sets, or the error that reading it gives.
pub open spec fn config_of(contents: Seq<char>) -> Result<BackendKind, Seq<char>> {
    let ls = lines_of(contents);
    match config_upto(ls, ls.len()) {
        Err(m) => Err(m),
        Ok(None) => Err("backend setting is required"@),
        Ok(Some(b)) => Ok(b),
    }
}

/// The configuration text that saves `b`.
pub open spec fn saved_text(b: BackendKind) -> Seq<char> {
    "backend = \""@ + backend_name(b) + "\"\n"@
}

/// Saving a backend and reading the configuration back gives that backend.
pub proof fn lemma_saved_config_round_trip(b: BackendKind)
    ensures
        config_of(saved_text(b)) == Ok::<BackendKind, Seq<char>>(b),
{
    reveal_strlit("backend = \"");
    reveal_strlit("\"\n");
    reveal_strlit("native");
    reveal_strlit("cranelift");
    reveal_strlit("backend");
    let name = backend_name(b);
    let q = seq!['"'];
    let s = "backend = \""@ + name + q;
    assert(saved_text(b) =~= s + seq!['\n']);
    assert(!s.contains('\n')) by {
        if s.contains('\n') {
            let i = choose|i: int| 0 <= i < s.len() && s[i] == '\n';
            if i >= 11 && i < 11 + name.len() {
                assert(name[i - 11] == s[i]);
            }
        }
    }
    lemma_single_line(s);
    assert(strip_cr(s) == s);
    let ls = lines_of(saved_text(b));
    assert(ls == seq![s]);
    assert(trim_start(s) == s);
    assert(trim_end(s) == s);
    assert(trimmed(s) == s);
    let eq = seq!['='];
    assert(match_at(s, eq, 8)) by {
        assert(s.subrange(8, 9) =~= eq);
    }
    assert forall|j: int| 0 <= j < 8 implies !match_at(s, eq, j) by {
        assert(s.subrange(j, j + 1)[0] == s[j]);
    }
    lemma_first_match_is(s, eq, 8);
    let k8 = s.take(8);
    assert(k8.drop_last() =~= "backend"@);
    assert(trim_end(k8.drop_last()) == k8.drop_last());
    assert(trim_end(k8) == k8.drop_last());
    assert(trim_start(k8) == k8);
    assert(trimmed(k8) =~= "backend"@);
    let v = s.skip(9);
    assert(v.drop_first() =~= q + name + q);
    assert(trim_start(v.drop_first()) == v.drop_first());
    assert(trim_start(v) == v.drop_first());
    assert(trim_end(v.drop_first()) == v.drop_first());
    let value = trimmed(v);
    assert(value == q + name + q);
    assert(value.subrange(1, value.len() - 1) =~= name);
    assert(all_ascii(name));
    assert(ascii_lower(name) =~= name);
    assert(lowered(name) == name);
    assert(backend_named(name) == Some(b));
    assert(line_setting(s, 1, false) == Ok::<Option<BackendKind>, Seq<char>>(Some(b)));
    assert(ls[0] == s);
    assert(config_upto(ls, 0) == Ok::<Option<BackendKind>, Seq<char>>(None));
    assert(config_upto(ls, 1) == Ok::<Option<BackendKind>, Seq<char>>(Some(b)));
    assert(ls.len() == 1);
}

proof fn lemma_config_error_stays(ls: Seq<Seq<char>>, n: nat, k: nat, m: Seq<char>)
    requires
        n <= k,
        config_upto(ls, n) == Err::<Option<BackendKind>, Seq<char>>(m),
    ensures
        config_upto(ls, k) == Err::<Option<BackendKind>, Seq<char>>(m),
    decreases k,
{
    if n < k {
        lemma_config_error_stays(ls, n, (k - 1) as nat, m);
    }
}

/// What one line of the configuration says.
fn parse_line(raw: &str, number: u64, seen: bool) -> (r: Result<Option<BackendKind>, String>)
    ensures
        match r {
            Ok(o) => line_setting(raw@, number as nat, seen) == Ok::<
                Option<BackendKind>,
                Seq<char>,
            >(o),
            Err(m) => line_setting(raw@, number as nat, seen) == Err::<
                Option<BackendKind>,
                Seq<char>,
            >(m@),
        },
{
    let line = trim(raw);
    let cs = chars_of(line.as_str());
    if cs.len() == 0 || cs[0] == '#' {
        return Ok(None);
    }
    let eq = vec!['='];
    assert(eq@ =~= seq!['=']);
    match find(&cs, &eq) {
        None => Err(concat("invalid syntax at line ", decimal_string(number).as_str())),
        Some(k) => {
            let key = trim(string_of_range(&cs, 0, k).as_str());
            let value = trim(string_of_range(&cs, k + 1, cs.len()).as_str());
            proof {
                assert(cs@.subrange(0, k as int) =~= cs@.take(k as int));
                assert(cs@.subrange(k + 1, cs@.len() as int) =~= cs@.skip(k + 1));
            }
            if !str_eq(key.as_str(), "backend") {
                let mut m = concat("unknown setting '", key.as_str());
                crate::text::append(&mut m, "' at line ");
                crate::text::append(&mut m, decimal_string(number).as_str());
                return Err(m);
            }
            if seen {
                return Err(
                    concat("duplicate backend setting at line ", decimal_string(number).as_str()),
                );
            }
            let vs = chars_of(value.as_str());
            let n = vs.len();
            if !(n >= 2 && vs[0] == '"' && vs[n - 1] == '"') {
                return Err(
                    concat(
                        "backend must be a quoted string at line ",
                        decimal_string(number).as_str(),
                    ),
                );
            }
            let name = string_of_range(&vs, 1, n - 1);
            match BackendKind::parse(name.as_str()) {
                Some(b) => Ok(Some(b)),
                None => {
                    let mut m = concat("unknown backend '", name.as_str());
                    crate::text::append(&mut m, "'; available backends: native, cranelift");
                    Err(m)
                },
            }
        },
    }
}

/// Reads a configuration text: the backend it sets, or the first error.
pub fn parse_config(contents: &str) -> (r: Result<FurnaceConfig, String>)
    ensures
        match r {
            Ok(c) => config_of(contents@) == Ok::<BackendKind, Seq<char>>(c.backend),
            Err(m) => config_of(contents@) == Err::<BackendKind, Seq<char>>(m@),
        },
{
    let ls = lines(contents);
    let ghost view = ls@.map_values(|l: String| l@);
    let mut backend: Option<BackendKind> = None;
    let mut i: usize = 0;
    while i < ls.len()
        invariant
            view == ls@.map_values(|l: String| l@),
            view == lines_of(contents@),
            i <= ls@.len(),
            config_upto(view, i as nat) == Ok::<Option<BackendKind>, Seq<char>>(backend),
        decreases ls.len() - i,
    {
        assert(view[i as int] == ls@[i as int]@);
        let number: u64 = (i as u64) + 1;
        match parse_line(ls[i].as_str(), number, backend.is_some()) {
            Err(m) => {
                proof {
                    assert(config_upto(view, (i + 1) as nat) == Err::<
                        Option<BackendKind>,
                        Seq<char>,
                    >(m@));
                    lemma_config_error_stays(view, (i + 1) as nat, view.len(), m@);
                }
                return Err(m);
            },
            Ok(Some(b)) => {
                backend = Some(b);
            },
            Ok(None) => {},
        }
        i += 1;
    }
    match backend {
        Some(b) => Ok(FurnaceConfig { backend: b }),
        None => Err(owned("backend setting is required")),
    }
}

/// The saved configuration, given the file's path for diagnostics and its
/// contents (`None` when the file does not exist).
pub fn load_from(path: &str, contents: Option<&str>) -> (r: Result<Option<FurnaceConfig>, String>)
    ensures
        match contents {
            None => r == Ok::<Option<FurnaceConfig>, String>(None),
            Some(text) => match config_of(text@) {
                Ok(b) => r matches Ok(Some(c)) && c.backend == b,
                Err(m) => r matches Err(e) && e@ == "malformed Furnace configuration '"@ + path@
                    + "': "@ + m,
            },
        },
{
    match contents {
        None => Ok(None),
        Some(text) => match parse_config(text) {
            Ok(c) => Ok(Some(c)),
            Err(message) => {
                let mut e = concat("malformed Furnace configuration '", path);
                crate::text::append(&mut e, "': ");
                crate::text::append(&mut e, message.as_str());
                Err(e)
            },
        },
    }
}

/// The backend to use: the one named on the command line if any, else the
/// saved one, else the built-in default; an unreadable saved configuration is
/// an error only when the command line names no backend.
pub fn resolve_backend(explicit: Option<BackendKind>, saved: Result<Option<FurnaceConfig>, String>) -> (r:
    Result<BackendKind, String>)
    ensures
        match explicit {
            Some(b) => r == Ok::<BackendKind, String>(b),
            None => match saved {
                Ok(None) => r == Ok::<BackendKind, String>(BUILT_IN_BACKEND),
                Ok(Some(c)) => r == Ok::<BackendKind, String>(c.backend),
                Err(m) => r == Err::<BackendKind, String>(m),
            },
        },
{
    match explicit {
        Some(b) => Ok(b),
        None => match saved {
            Ok(None) => Ok(BUILT_IN_BACKEND),
            Ok(Some(c)) => Ok(c.backend),
            Err(m) => Err(m),
        },
    }
}

/// The configuration text that saving `backend` writes.
pub fn save_backend(backend: BackendKind) -> (text: String)
    ensures
        text@ == saved_text(backend),
{
    let mut t = concat("backend = \"", backend.name());
    crate::text::append(&mut t, "\"\n");
    t
}

} // verus!
