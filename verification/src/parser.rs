//! The parser: a grammar, and the recognizer run on tokens or on text.
use vstd::prelude::*;
use crate::engine::recognize;
use crate::error::{Failure, ParseFailure};
use crate::grammar::{Grammar, Rule};
use crate::model::{halts, outcome};
use crate::symbol::Terminal;
use crate::termination::{lemma_well_founded_halts, well_founded};
use crate::tokenizer::{lexed, tokenize};
use crate::tree::Node;

verus! {

/// A recognizer for the language of one grammar.
///
/// The grammar is fixed when the parser is made and is only read afterwards,
/// so one parser serves any number of parses.
pub struct Parser {
    grammar: Grammar,
}

impl Parser {
    /// The grammar that the parser was made with.
    pub closed spec fn spec_grammar(&self) -> &Grammar {
        &self.grammar
    }

    /// The grammar that the parser was made with.
    #[verifier::when_used_as_spec(spec_grammar)]
    pub fn grammar(&self) -> (grammar: &Grammar)
        ensures
            grammar == self.spec_grammar(),
    {
        &self.grammar
    }

    /// The flat list of the grammar's productions.
    pub open spec fn rules(&self) -> Seq<Rule> {
        self.grammar().productions()
    }

    /// A parser for `grammar`.
    pub fn new(grammar: Grammar) -> (parser: Parser)
        ensures
            parser.grammar() == grammar,
    {
        Parser { grammar }
    }

    /// Whether `result` is the right answer to the parse of `tokens`:
    /// success when the recognizer accepts, and otherwise the failure in
    /// which the recognizer ends.
    pub open spec fn answers(
        &self,
        tokens: Seq<Terminal>,
        result: Result<(), ParseFailure>,
    ) -> bool {
        let end = outcome(self.rules(), self.grammar().starting_symbol, tokens);
        match result {
            Ok(_) => end is Ok,
            Err(failure) => end == Err::<Node, Failure>(failure@),
        }
    }

    /// Whether `result` is the right answer to the parse of the text
    /// `input`: a `LexError` with the first word that is no token, if there
    /// is such a word, and otherwise the answer to the parse of the tokens.
    pub open spec fn answers_text(
        &self,
        input: Seq<char>,
        result: Result<(), ParseFailure>,
    ) -> bool {
        match lexed(input) {
            Err(word) => result is Err && result->Err_0@ == Failure::Lex(word),
            Ok(tokens) => self.answers(tokens, result),
        }
    }

    /// Parses a sequence of tokens.
    ///
    /// The parse succeeds exactly when the recognizer's stack collapses to
    /// one value that is a terminal or a tree under the starting symbol.
    /// Otherwise the error says whether two productions matched at once or
    /// the input was rejected, and carries the candidates or the stack that
    /// was left.
    ///
    /// The caller sees to it that the recognizer stops on this input; on a
    /// grammar that [`Grammar::is_well_founded`] it always does.
    pub fn parse_expression(&self, tokens: &Vec<Terminal>) -> (result: Result<(), ParseFailure>)
        requires
            halts(self.rules(), tokens@),
        ensures
            self.answers(tokens@, result),
    {
        let items = self.grammar.flatten();
        match recognize(&items, self.grammar.starting_symbol, tokens) {
            Ok(_) => Ok(()),
            Err(failure) => Err(failure),
        }
    }

    /// Parses a text: its words, split at white space, are the tokens.
    ///
    /// A word that is no token makes the parse fail with a `LexError` that
    /// names the first such word, whatever the grammar. Otherwise the result
    /// is that of [`Parser::parse_expression`] on the tokens.
    ///
    /// The caller sees to it that the recognizer stops on this input; on a
    /// grammar that [`Grammar::is_well_founded`] it always does.
    pub fn parse(&self, input: &str) -> (result: Result<(), ParseFailure>)
        requires
            lexed(input@) is Ok ==> halts(self.rules(), lexed(input@)->Ok_0),
        ensures
            self.answers_text(input@, result),
    {
        match tokenize(input) {
            Ok(tokens) => self.parse_expression(&tokens),
            Err(failure) => Err(failure),
        }
    }

    /// Parses a text if the grammar is well-founded, so that the recognizer
    /// is sure to stop, and declines with `None` if it is not.
    pub fn parse_checked(&self, input: &str) -> (result: Option<Result<(), ParseFailure>>)
        ensures
            result is Some <==> well_founded(self.rules()),
            result is Some ==> self.answers_text(input@, result->Some_0),
    {
        if self.grammar.is_well_founded() {
            proof {
                if lexed(input@) is Ok {
                    lemma_well_founded_halts(self.rules(), lexed(input@)->Ok_0);
                }
            }
            Some(self.parse(input))
        } else {
            None
        }
    }
}

} // verus!
