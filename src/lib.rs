//! Turns grammars written in a small ABNF-like notation into LALRPOP
//! rule blocks: a recognizer builds a tree of rules and patterns, and a
//! printer renders that tree in the target syntax.
pub mod grammar;
pub mod model;
pub mod parser;
pub mod printer;

pub use model::{Pat, Rule};
pub use printer::render;
