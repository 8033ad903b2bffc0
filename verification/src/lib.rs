//! A compiler from a small regular-expression syntax to a deterministic
//! transition table, and the matcher that walks the table.
//!
//! A pattern is scanned into tokens, parsed into a syntax tree, turned into a
//! position automaton and determinised by the subset construction. Every step
//! is verified against the language that the syntax tree denotes.

pub mod alphabet;
pub mod error;
pub mod token;
pub mod table;
pub mod syntax;
pub mod marks;
pub mod positions;
pub mod nfa;
pub mod parser;
pub mod fronts;
pub mod builder;
pub mod laws;
pub mod compiler;
pub mod report;
