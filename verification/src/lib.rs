//! Turning an interpreted script into the source of a native program that
//! carries the script and runs it through its interpreter.
//!
//! The library holds the pure stages of that pipeline: finding the
//! interpreter a script names, the reversible stream cipher over its bytes,
//! rendering the program text from a template, and the decisions taken once
//! the compiler has run. Reading files and running the compiler are left to
//! the caller.

pub mod codec;
pub mod detect;
pub mod driver;
pub mod program;
pub mod render;
pub mod template;
pub mod text;

pub use codec::{decode, encode, encode_vec, KeyError};
pub use detect::{find_interp, DEFAULT_INTERPRETER};
pub use driver::{artifact_path, compiler_arguments, CompileResult, CompilerRun, COMPILER};
pub use program::PROGRAM_TEMPLATE;
pub use render::{byte_array, generate, render};
pub use template::is_well_formed;
