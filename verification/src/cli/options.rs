//! The options of the single-file `furnace` compiler driver.

use vstd::prelude::*;

use crate::text::{append, chars_of, concat, owned, str_eq};

verus! {

/// The options of a `furnace` run: the input, the output, and the flags.
#[derive(Debug)]
pub struct CliOptions {
    pub input: String,
    pub output: Option<String>,
    pub emit_ir: bool,
    pub keep_ll: bool,
    pub link_math: bool,
    pub version: bool,
}

/// Options as plain values: input, output, `--emit-ir`, `--keep-ll`, `-lm`,
/// `--version`.
pub type OptionsView = (Seq<char>, Option<Seq<char>>, bool, bool, bool, bool);

/// The options as plain values.
pub open spec fn options_view(o: CliOptions) -> OptionsView {
    (
        o.input@,
        match o.output {
            Some(p) => Some(p@),
            None => None,
        },
        o.emit_ir,
        o.keep_ll,
        o.link_math,
        o.version,
    )
}

/// The options after reading the arguments from position `i` on, starting
/// from `st`, or the diagnostic they give.
pub open spec fn options_from(a: Seq<Seq<char>>, i: int, st: OptionsView) -> Result<OptionsView, Seq<char>>
    decreases a.len() - i,
{
    if i < 0 || i >= a.len() {
        Ok(st)
    } else {
        let s = a[i];
        if s == "--version"@ {
            options_from(a, i + 1, (st.0, st.1, st.2, st.3, st.4, true))
        } else if s == "--emit-ir"@ || s == "--emit-llvm"@ {
            options_from(a, i + 1, (st.0, st.1, true, st.3, st.4, st.5))
        } else if s == "--keep-ll"@ {
            options_from(a, i + 1, (st.0, st.1, st.2, true, st.4, st.5))
        } else if s == "-lm"@ {
            options_from(a, i + 1, (st.0, st.1, st.2, st.3, true, st.5))
        } else if s == "-o"@ {
            if i + 1 >= a.len() {
                Err("error: -o requires an argument\n"@)
            } else {
                options_from(a, i + 2, (st.0, Some(a[i + 1]), st.2, st.3, st.4, st.5))
            }
        } else if s.len() > 0 && s[0] == '-' {
            Err("error: unknown flag: "@ + s + "\n"@)
        } else if st.0.len() == 0 {
            options_from(a, i + 1, (s, st.1, st.2, st.3, st.4, st.5))
        } else {
            Err("error: multiple input files not supported\n"@)
        }
    }
}

/// The options a command line gives, or the diagnostic to report.
pub open spec fn options_result(a: Seq<Seq<char>>) -> Result<OptionsView, Seq<char>> {
    if a.len() == 0 {
        Err("usage: furnace <input.anvil> [-o out] [--emit-ir] [--keep-ll] [-lm] [--version]\n"@)
    } else {
        match options_from(a, 0, (seq![], None, false, false, false, false)) {
            Err(m) => Err(m),
            Ok(st) => if st.5 {
                Ok(st)
            } else if st.0.len() == 0 {
                Err("error: no input file\n"@)
            } else {
                Ok(st)
            },
        }
    }
}

/// Reads the `furnace` command line (without the program name): the options,
/// or the text to report (the program then exits with status 2).
pub fn parse_args(args: &Vec<String>) -> (r: Result<CliOptions, String>)
    ensures
        match r {
            Ok(o) => options_result(args@.map_values(|s: String| s@)) == Ok::<OptionsView, Seq<char>>(
                options_view(o),
            ),
            Err(m) => options_result(args@.map_values(|s: String| s@)) == Err::<OptionsView, Seq<char>>(
                m@,
            ),
        },
{
    let ghost a = args@.map_values(|s: String| s@);
    if args.len() == 0 {
        return Err(
            owned("usage: furnace <input.anvil> [-o out] [--emit-ir] [--keep-ll] [-lm] [--version]\n"),
        );
    }
    let mut opts = CliOptions {
        input: String::new(),
        output: None,
        emit_ir: false,
        keep_ll: false,
        link_math: false,
        version: false,
    };
    assert(options_view(opts) == (Seq::<char>::empty(), None::<Seq<char>>, false, false, false, false));
    let mut i: usize = 0;
    while i < args.len()
        invariant
            a == args@.map_values(|s: String| s@),
            options_from(a, i as int, options_view(opts)) == options_from(
                a,
                0,
                (seq![], None, false, false, false, false),
            ),
        decreases args.len() - i,
    {
        let s = args[i].as_str();
        assert(a[i as int] == s@);
        if str_eq(s, "--version") {
            opts.version = true;
            i += 1;
        } else if str_eq(s, "--emit-ir") || str_eq(s, "--emit-llvm") {
            opts.emit_ir = true;
            i += 1;
        } else if str_eq(s, "--keep-ll") {
            opts.keep_ll = true;
            i += 1;
        } else if str_eq(s, "-lm") {
            opts.link_math = true;
            i += 1;
        } else if str_eq(s, "-o") {
            if i + 1 >= args.len() {
                return Err(owned("error: -o requires an argument\n"));
            }
            assert(a[i + 1] == args@[i + 1]@);
            opts.output = Some(args[i + 1].clone());
            i += 2;
        } else {
            let cs = chars_of(s);
            if cs.len() > 0 && cs[0] == '-' {
                let mut m = concat("error: unknown flag: ", s);
                append(&mut m, "\n");
                return Err(m);
            }
            if opts.input.as_str().is_empty() {
                opts.input = args[i].clone();
                i += 1;
            } else {
                return Err(owned("error: multiple input files not supported\n"));
            }
        }
    }
    if opts.version {
        return Ok(opts);
    }
    if opts.input.as_str().is_empty() {
        return Err(owned("error: no input file\n"));
    }
    Ok(opts)
}

} // verus!
