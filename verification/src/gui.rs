//! The check that the graphical front end makes on an operation before it sends it.

pub mod error;
pub mod parser;
