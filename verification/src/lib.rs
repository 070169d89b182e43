//! An interpreter for the Monkey programming language: a lexer that turns
//! source text into tokens, a Pratt parser that builds an abstract syntax
//! tree, and a tree-walking evaluator.

pub mod text;
pub mod token;
pub mod lexer;
pub mod ast;
pub mod grammar;
pub mod parser;
pub mod object;
pub mod evaluator;
pub mod repl;
