//! A small interpreter front end for the Lox language: a lexer, a string
//! unescaper, a recursive-descent parser, a scope resolver and the variable
//! store that an evaluator runs on.

pub mod ast;
pub mod environment;
pub mod grammar;
pub mod ident;
pub mod lexer;
pub mod native;
pub mod parser;
pub mod range;
pub mod report;
pub mod resolver;
pub mod string;
pub mod text;
pub mod token;
