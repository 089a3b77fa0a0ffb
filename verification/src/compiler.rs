//! The front of a small compiler: error values, the lexer, the syntax
//! tree, the type checker and the start of an interpreter.
pub mod ast;
pub mod checker;
pub mod interp;
pub mod parser;
pub mod types;
