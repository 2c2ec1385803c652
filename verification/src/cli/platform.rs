//! Target platforms.

use vstd::prelude::*;

use crate::cli::args::{lowered, to_lowercase};

verus! {

/// A target platform.
#[derive(Debug, Clone, Copy, PartialEq, Eq, Structural)]
pub enum Platform {
    Linux,
}

/// The diagnostic for an unsupported platform, given the lowercased name.
pub open spec fn unsupported_platform_message(lower: Seq<char>) -> Seq<char> {
    "unsupported target platform '"@ + lower + "'. Currently supported platforms: linux"@
}

impl Platform {
    /// The platform named `s`, in any letter case.
    pub fn parse(s: &str) -> (r: Result<Self, String>)
        ensures
            match r {
                Ok(p) => lowered(s@) == "linux"@ && p == Platform::Linux,
                Err(m) => lowered(s@) != "linux"@ && m@ == unsupported_platform_message(lowered(s@)),
            },
    {
        let lower = to_lowercase(s);
        if crate::text::str_eq(lower.as_str(), "linux") {
            Ok(Platform::Linux)
        } else {
            let mut m = crate::text::concat("unsupported target platform '", lower.as_str());
            crate::text::append(&mut m, "'. Currently supported platforms: linux");
            Err(m)
        }
    }

    /// The linker driver for the platform.
    pub fn linker_name(&self) -> (s: &'static str)
        ensures
            s@ == "cc"@,
    {
        match self {
            Platform::Linux => "cc",
        }
    }

    /// The flags the linker always receives on the platform.
    pub fn default_linker_flags(&self) -> (flags: Vec<&'static str>)
        ensures
            flags@.len() == 1,
            flags@[0]@ == "-lm"@,
    {
        match self {
            Platform::Linux => {
                let mut v: Vec<&'static str> = Vec::new();
                v.push("-lm");
                v
            },
        }
    }

    /// The platform's name.
    pub fn name(&self) -> (s: &'static str)
        ensures
            s@ == "linux"@,
    {
        match self {
            Platform::Linux => "linux",
        }
    }
}

} // verus!
