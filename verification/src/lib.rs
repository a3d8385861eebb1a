//! A lexer and operator-precedence parser for a small expression-oriented
//! language: let-bindings, return statements, conditionals, first-class
//! functions, calls, and arithmetic/comparison operators.
pub mod ast;
pub mod lexer;
pub mod parser;
pub mod token;
