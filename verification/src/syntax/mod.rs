//! The language's syntax: string escapes, the lexer and the parser.

pub mod escapes;
pub mod lexer;
pub mod ast;
pub mod parser;
pub mod imports;
