//! A rule-table-driven shift-reduce recognizer for context-free grammars.
//!
//! A [`Grammar`] lists productions over a fixed alphabet of terminals and
//! non-terminals. A [`Parser`] shifts tokens onto a stack and, between any
//! two shifts and once more at the end, reduces the stack's tail to tree
//! nodes for as long as exactly one production matches it. Two productions
//! that match at once are reported as an ambiguity of the grammar. The parse
//! succeeds when the stack collapses to a single value.
//!
//! The modules, leaves first:
//! - [`symbol`]: terminals, non-terminals and the slots of a production;
//! - [`grammar`]: grammars, their flat list of productions, and their text;
//! - [`tree`]: the entries of the stack and the trees they stand for;
//! - [`error`]: the three ways in which a parse fails;
//! - [`model`]: the recognizer as a mathematical machine, which the
//!   contracts of the executable functions speak of;
//! - [`language`]: the language of a grammar, told by its parse trees;
//! - [`laws`]: what holds of every parse;
//! - [`termination`]: the grammars on which the recognizer is sure to stop;
//! - [`tokenizer`]: from text to tokens;
//! - [`engine`]: the steps of the recognizer and the parse built from them;
//! - [`parser`]: the parser itself.
pub mod engine;
pub mod error;
pub mod grammar;
pub mod language;
pub mod laws;
pub mod model;
pub mod parser;
pub mod symbol;
pub mod termination;
pub mod tokenizer;
pub mod tree;

pub use error::ParseFailure;
pub use grammar::Grammar;
pub use model::Step;
pub use parser::Parser;
pub use symbol::{Expression, NonTerminal, Terminal};
pub use tree::StackValue;
