//! VoltTS: a transpiler for a small line-oriented scripting language. Source
//! text is parsed into a program, its return types are checked, and it is
//! lowered to one C translation unit or written back as canonical source.
//! Import resolution is driven by a `Loader` that decides which files to
//! open; reading them is left to the caller.
pub mod ast;
pub mod text;
pub mod numbers;
pub mod diagnostics;
pub mod parser;
pub mod checker;
pub mod codegen;
pub mod formatter;
pub mod resolver;
pub mod roundtrip;
