//! Diagnostics reported by every stage of the compiler.

use vstd::prelude::*;

use crate::text::{concat, decimal, decimal_string, owned};

verus! {

/// A diagnostic: a message with an optional source position (line 0 means none).
#[derive(Debug, Clone)]
pub struct ForgeError {
    pub message: String,
    pub line: usize,
    pub col: usize,
}

/// The rendering of a diagnostic, as it is shown to users.
pub open spec fn rendered(message: Seq<char>, line: nat, col: nat) -> Seq<char> {
    if line > 0 {
        "error at "@ + decimal(line) + ":"@ + decimal(col) + ": "@ + message
    } else {
        "error: "@ + message
    }
}

/// A message alone becomes a diagnostic without a position.
impl From<String> for ForgeError {
    fn from(message: String) -> (e: Self) {
        ForgeError { message, line: 0, col: 0 }
    }
}

impl vstd::std_specs::convert::FromSpecImpl<String> for ForgeError {
    open spec fn obeys_from_spec() -> bool {
        true
    }

    open spec fn from_spec(v: String) -> ForgeError {
        ForgeError { message: v, line: 0, col: 0 }
    }
}

impl ForgeError {
    /// A diagnostic at the given position.
    pub fn new(message: String, line: usize, col: usize) -> (e: Self)
        ensures
            e.message@ == message@,
            e.line == line,
            e.col == col,
    {
        ForgeError { message, line, col }
    }

    /// A diagnostic of the front end, without a position.
    pub fn parse(message: String) -> (e: Self)
        ensures
            e.message@ == message@,
            e.line == 0,
            e.col == 0,
    {
        ForgeError { message, line: 0, col: 0 }
    }

    /// A diagnostic of code generation, without a position.
    pub fn codegen(message: String) -> (e: Self)
        ensures
            e.message@ == message@,
            e.line == 0,
            e.col == 0,
    {
        ForgeError { message, line: 0, col: 0 }
    }

    /// The user-facing rendering of the diagnostic.
    pub fn to_string(&self) -> (s: String)
        ensures
            s@ == rendered(self.message@, self.line as nat, self.col as nat),
    {
        if self.line > 0 {
            let line = decimal_string(self.line as u64);
            let col = decimal_string(self.col as u64);
            let mut s = owned("error at ");
            s.append(line.as_str());
            s.append(":");
            s.append(col.as_str());
            s.append(": ");
            s.append(self.message.as_str());
            s
        } else {
            concat("error: ", self.message.as_str())
        }
    }
}

} // verus!
