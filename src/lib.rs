//! An interpreter for a small English-like scripting language: declarations,
//! reassignments, printing with string interpolation, and nested conditional
//! blocks, all verified against a mathematical semantics.
//!
//! A program is a sequence of lines of characters. `interp::Interpreter`
//! runs it and collects the printed lines. Doubles are read by the host:
//! a run stops with `ErrorKind::UnreadFloat` on a token that the
//! `env::FloatTable` has no reading for, and is started again once the
//! reading is added. The interpreter is not meant to be driven from several
//! threads at once.

pub mod condition;
pub mod env;
pub mod interp;
pub mod laws;
pub mod literal;
pub mod number;
pub mod text;
pub mod value;
