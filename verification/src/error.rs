//! The ways in which a parse fails.
use vstd::prelude::*;
use crate::symbol::NonTerminal;
use crate::tree::{nodes, Node, StackValue};

verus! {

/// The mathematical value of a [`ParseFailure`].
pub enum Failure {
    /// The text of the word that is no token.
    Lex(Seq<char>),
    /// For each production that matched, its non-terminal and the tail of
    /// the stack that it would have consumed.
    Ambiguous(Seq<(NonTerminal, Seq<Node>)>),
    /// The stack that was left when the input ran out.
    Rejected(Seq<Node>),
}

/// Why a parse did not succeed.
///
/// `LexError` and `AmbiguousGrammar` say that the parse could not be carried
/// out: the input holds a word outside the alphabet, or the grammar lets two
/// productions match at once. `Rejected` is the ordinary negative answer.
#[derive(Debug)]
pub enum ParseFailure {
    /// A word of the input is no token; `token` is that word.
    LexError { token: String },
    /// More than one production matched the tail of the stack. Each
    /// candidate is given with the entries it would have consumed.
    AmbiguousGrammar { candidates: Vec<(NonTerminal, Vec<StackValue>)> },
    /// The input ran out and the stack did not collapse to one accepted
    /// value; `stack` is what was left.
    Rejected { stack: Vec<StackValue> },
}

impl View for ParseFailure {
    type V = Failure;

    open spec fn view(&self) -> Failure {
        match self {
            ParseFailure::LexError { token } => Failure::Lex(token@),
            ParseFailure::AmbiguousGrammar { candidates } => Failure::Ambiguous(
                candidates@.map_values(|c: (NonTerminal, Vec<StackValue>)| (c.0, nodes(c.1@))),
            ),
            ParseFailure::Rejected { stack } => Failure::Rejected(nodes(stack@)),
        }
    }
}

} // verus!
