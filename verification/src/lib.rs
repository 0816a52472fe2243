//! A small expression language: a lexer from UTF-8 text to tokens, a
//! precedence-climbing parser from tokens to statements, and an evaluator of
//! statements over integers and booleans, each with its behaviour stated and
//! proved.

pub mod text;
pub mod token;
pub mod ast;
pub mod lexer;
pub mod parser;
pub mod objects;
pub mod eval;
