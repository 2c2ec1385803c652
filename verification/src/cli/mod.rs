//! The logic of the `Furnace` command line: backend and platform names, the
//! saved configuration, release tags and new-project names. Reading files,
//! running tools and printing stay with the program around the library.

pub mod args;
pub mod config;
pub mod new_project;
pub mod options;
pub mod platform;
pub mod update;
