//! An arithmetic-expression calculator: a byte-level lexer, a recursive-descent
//! parser producing an expression tree, and the input check used by the
//! graphical front end.

pub mod common;
pub mod lexer;
pub mod parser;
pub mod gui;
