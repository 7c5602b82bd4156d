//! The Earley recognizer and the data it works on.

pub mod closure;
pub mod grammar;
pub mod item;
pub mod lexer;
pub mod lexerspec;
pub mod parser;
pub mod rowbuild;
