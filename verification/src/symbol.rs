//! The alphabet: terminals, non-terminals, and the slots of a production.
use vstd::prelude::*;

verus! {

/// A grammar category, produced by one or more alternative productions.
#[derive(Debug, Clone, Copy, PartialEq, Eq, Hash, Structural)]
pub enum NonTerminal {
    Sum,
    Sub,
    Mult,
    Atom,
    Number,
}

/// An atomic input symbol.
#[derive(Debug, Clone, Copy, PartialEq, Eq, Hash, Structural)]
pub enum Terminal {
    Plus,
    Minus,
    Star,
    LeftParen,
    RightParen,
    Zero,
}

/// One slot in the right-hand side of a production.
#[derive(Debug, Clone, Copy, PartialEq, Eq, Hash, Structural)]
pub enum Expression {
    Terminal(Terminal),
    NonTerminal(NonTerminal),
}

/// How many non-terminals there are.
pub const KINDS: usize = 5;

impl NonTerminal {
    /// The place of the non-terminal among all of them, counted from zero.
    pub open spec fn spec_index(self) -> nat {
        match self {
            NonTerminal::Sum => 0,
            NonTerminal::Sub => 1,
            NonTerminal::Mult => 2,
            NonTerminal::Atom => 3,
            NonTerminal::Number => 4,
        }
    }

    /// The place of the non-terminal among all of them, counted from zero.
    pub fn index(&self) -> (place: usize)
        ensures
            place == self.spec_index(),
            place < KINDS,
    {
        match self {
            NonTerminal::Sum => 0,
            NonTerminal::Sub => 1,
            NonTerminal::Mult => 2,
            NonTerminal::Atom => 3,
            NonTerminal::Number => 4,
        }
    }

    /// The non-terminal at `place`.
    pub open spec fn spec_at(place: int) -> NonTerminal {
        if place == 0 {
            NonTerminal::Sum
        } else if place == 1 {
            NonTerminal::Sub
        } else if place == 2 {
            NonTerminal::Mult
        } else if place == 3 {
            NonTerminal::Atom
        } else {
            NonTerminal::Number
        }
    }

    /// The non-terminal at `place`.
    pub fn at(place: usize) -> (kind: NonTerminal)
        requires
            place < KINDS,
        ensures
            kind == Self::spec_at(place as int),
            kind.spec_index() == place,
    {
        if place == 0 {
            NonTerminal::Sum
        } else if place == 1 {
            NonTerminal::Sub
        } else if place == 2 {
            NonTerminal::Mult
        } else if place == 3 {
            NonTerminal::Atom
        } else {
            NonTerminal::Number
        }
    }

    /// The lower-case name under which the category is written.
    pub open spec fn spec_name(self) -> Seq<char> {
        match self {
            NonTerminal::Sum => "sum"@,
            NonTerminal::Sub => "sub"@,
            NonTerminal::Mult => "mult"@,
            NonTerminal::Atom => "atom"@,
            NonTerminal::Number => "number"@,
        }
    }

    /// The lower-case name under which the category is written.
    pub fn name(&self) -> (text: &'static str)
        ensures
            text@ == self.spec_name(),
    {
        match self {
            NonTerminal::Sum => "sum",
            NonTerminal::Sub => "sub",
            NonTerminal::Mult => "mult",
            NonTerminal::Atom => "atom",
            NonTerminal::Number => "number",
        }
    }
}

impl Terminal {
    /// The text of the token that stands for the terminal.
    pub open spec fn spec_name(self) -> Seq<char> {
        match self {
            Terminal::Plus => "+"@,
            Terminal::Minus => "-"@,
            Terminal::Star => "*"@,
            Terminal::LeftParen => "("@,
            Terminal::RightParen => ")"@,
            Terminal::Zero => "0"@,
        }
    }

    /// The text of the token that stands for the terminal.
    pub fn name(&self) -> (text: &'static str)
        ensures
            text@ == self.spec_name(),
    {
        match self {
            Terminal::Plus => "+",
            Terminal::Minus => "-",
            Terminal::Star => "*",
            Terminal::LeftParen => "(",
            Terminal::RightParen => ")",
            Terminal::Zero => "0",
        }
    }
}

} // verus!
