//! Lexing, parsing, printing and evaluating a small expression language.
pub mod ast;
pub mod ast_printer;
pub mod interpreter;
pub mod parser;
pub mod tokenizer;
