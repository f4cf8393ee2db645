//! Core library of a polyglot runtime-version manager.
//!
//! The library models version identifiers and version files, a typed
//! environment (PATH entries plus variables) with a stable textual codec,
//! the shell-state engine that turns a resolved environment into a shell
//! command script, and the decision logic behind plugin script invocations.
//! All side effects (running scripts, reading directories, reading the
//! process environment) happen outside the library; the functions here take
//! the observed values as arguments and are verified against their contracts.

pub mod strutil;
pub mod activate;
pub mod env;
pub mod ops;
pub mod paths;
pub mod process;
pub mod scripts;
pub mod shell;
pub mod versions;
