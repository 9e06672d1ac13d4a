//! A small calculator: a lexer, a precedence-climbing parser and an evaluator
//! for arithmetic expressions over integers and decimal numbers.
pub mod number;
pub mod text;
pub mod lexer;
pub mod parser;
pub mod evaluator;
pub mod render;
