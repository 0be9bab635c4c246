//! Rift's routing library: the rule language, its lexer and parser, the
//! first-match router that the proxy consults for every request, and what the
//! proxy makes of the router's answer.

pub mod forward;
pub mod grammar;
pub mod laws;
pub mod matcher_laws;
pub mod pattern;
pub mod rules;
pub mod text;
