//! Incremental Earley recognition driven by a bytewise lexer, for constraining
//! token-by-token generation to a context-free grammar.

pub mod earley;
pub mod iface;
pub mod mapper;
