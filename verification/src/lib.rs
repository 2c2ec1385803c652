//! Furnace: the ForgeLang compiler library.

use vstd::prelude::*;

pub mod ast;
pub mod cli;
pub mod discovery;
pub mod backend;
pub mod errors;
pub mod glob;
pub mod imports;
pub mod ir;
pub mod lowering;
pub mod parser;
pub mod paths;
pub mod project;
pub mod render;
pub mod semantic;
pub mod text;

verus! {

/// The release name of this compiler.
pub const VERSION: &'static str = "Alpha-6";

} // verus!
