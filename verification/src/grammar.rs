//! Grammars: a starting symbol and, for each non-terminal, its alternatives.
use vstd::prelude::*;
use vstd::string::*;
use crate::symbol::{Expression, NonTerminal};

verus! {

/// One production as the recognizer sees it: the non-terminal it produces and
/// the slots of its right-hand side, left to right.
pub struct Rule {
    pub head: NonTerminal,
    pub body: Seq<Expression>,
}

/// A production held in memory: the non-terminal and its right-hand side.
pub type Item = (NonTerminal, Vec<Expression>);

/// One entry of a grammar: a non-terminal and its alternative productions.
pub type Entry = (NonTerminal, Vec<Vec<Expression>>);

/// The mathematical value of an entry.
pub type Alternatives = (NonTerminal, Seq<Seq<Expression>>);

/// A context-free grammar.
///
/// `rules` associates a non-terminal with the list of its alternative
/// productions. The order of the entries carries no meaning, and entries
/// that name the same non-terminal are taken together. Nothing is checked
/// when a grammar is built: a symbol that no production yields simply never
/// reduces.
pub struct Grammar {
    pub starting_symbol: NonTerminal,
    pub rules: Vec<Entry>,
}

/// The productions of one entry of a grammar.
pub open spec fn alternatives(entry: Alternatives) -> Seq<Rule> {
    entry.1.map_values(|body: Seq<Expression>| Rule { head: entry.0, body })
}

/// All productions of a list of entries, entry by entry.
pub open spec fn flattened(entries: Seq<Alternatives>) -> Seq<Rule>
    decreases entries.len(),
{
    if entries.len() == 0 {
        Seq::empty()
    } else {
        flattened(entries.drop_last()) + alternatives(entries.last())
    }
}

/// The value of an entry held in memory.
pub open spec fn entry_of(entry: Entry) -> Alternatives {
    (entry.0, entry.1@.map_values(|body: Vec<Expression>| body@))
}

/// The productions that a list of items stands for.
pub open spec fn rules_of(items: Seq<Item>) -> Seq<Rule> {
    items.map_values(|item: Item| Rule { head: item.0, body: item.1@ })
}

/// A copy of a production's right-hand side.
pub fn copy_body(body: &Vec<Expression>) -> (copy: Vec<Expression>)
    ensures
        copy@ == body@,
{
    let mut copy: Vec<Expression> = Vec::new();
    let mut k: usize = 0;
    while k < body.len()
        invariant
            k <= body.len(),
            copy@ == body@.take(k as int),
        decreases body.len() - k,
    {
        copy.push(body[k]);
        assert(body@.take(k + 1) == body@.take(k as int).push(body@[k as int]));
        k += 1;
    }
    assert(body@.take(body.len() as int) == body@);
    copy
}

/// How one slot of a production is written: a terminal between quotes, a
/// non-terminal bare, and a blank after either.
pub open spec fn slot_text(slot: Expression) -> Seq<char> {
    match slot {
        Expression::Terminal(t) => "'"@ + t.spec_name() + "' "@,
        Expression::NonTerminal(n) => n.spec_name() + " "@,
    }
}

/// How a right-hand side is written: its slots, left to right.
pub open spec fn body_text(body: Seq<Expression>) -> Seq<char>
    decreases body.len(),
{
    if body.len() == 0 {
        Seq::empty()
    } else {
        body_text(body.drop_last()) + slot_text(body.last())
    }
}

/// The line that shows one production.
pub open spec fn rule_text(rule: Rule) -> Seq<char> {
    rule.head.spec_name() + " -> "@ + body_text(rule.body) + "\n"@
}

/// The lines that show a list of productions, one line for each.
pub open spec fn rules_text(rules: Seq<Rule>) -> Seq<char>
    decreases rules.len(),
{
    if rules.len() == 0 {
        Seq::empty()
    } else {
        rules_text(rules.drop_last()) + rule_text(rules.last())
    }
}

impl Grammar {
    /// The text that shows the grammar: a line for each production.
    pub open spec fn rendering(&self) -> Seq<char> {
        rules_text(self.productions())
    }

    /// Writes the grammar out, one production per line: the non-terminal,
    /// an arrow, then the symbols of the right-hand side, terminals between
    /// quotes.
    pub fn render(&self) -> (text: String)
        ensures
            text@ == self.rendering(),
    {
        let items = self.flatten();
        let ghost rules = rules_of(items@);
        let mut text = String::new();
        let mut i: usize = 0;
        assert(rules.take(0).len() == 0);
        while i < items.len()
            invariant
                i <= items.len(),
                rules == rules_of(items@),
                text@ == rules_text(rules.take(i as int)),
            decreases items.len() - i,
        {
            let ghost before = text@;
            let body = &items[i].1;
            text.append(items[i].0.name());
            text.append(" -> ");
            let ghost start = text@;
            let mut k: usize = 0;
            assert(body@.take(0).len() == 0);
            assert(text@ == start + body_text(body@.take(0)));
            while k < body.len()
                invariant
                    k <= body.len(),
                    text@ == start + body_text(body@.take(k as int)),
                decreases body.len() - k,
            {
                let ghost earlier = text@;
                match body[k] {
                    Expression::Terminal(t) => {
                        text.append("'");
                        text.append(t.name());
                        text.append("' ");
                        assert(text@ == earlier + slot_text(body@[k as int]));
                    },
                    Expression::NonTerminal(n) => {
                        text.append(n.name());
                        text.append(" ");
                        assert(text@ == earlier + slot_text(body@[k as int]));
                    },
                }
                assert(body@.take(k + 1).drop_last() == body@.take(k as int));
                assert(body@.take(k + 1).last() == body@[k as int]);
                assert(text@ == start + body_text(body@.take(k + 1)));
                k += 1;
            }
            text.append("\n");
            assert(body@.take(body.len() as int) == body@);
            assert(text@ == before + rule_text(rules[i as int]));
            assert(rules.take(i + 1).drop_last() == rules.take(i as int));
            assert(rules.take(i + 1).last() == rules[i as int]);
            i += 1;
        }
        assert(rules.take(items.len() as int) == rules);
        text
    }

    /// The grammar's entries, each a non-terminal with its alternatives.
    pub open spec fn entries(&self) -> Seq<Alternatives> {
        self.rules@.map_values(|entry: Entry| entry_of(entry))
    }

    /// The flat list of the grammar's productions.
    pub open spec fn productions(&self) -> Seq<Rule> {
        flattened(self.entries())
    }

    /// Lists every production of the grammar with its non-terminal.
    pub fn flatten(&self) -> (items: Vec<Item>)
        ensures
            rules_of(items@) == self.productions(),
    {
        let ghost entries = self.entries();
        let mut items: Vec<Item> = Vec::new();
        let mut i: usize = 0;
        assert(rules_of(items@) == flattened(entries.take(0)));
        while i < self.rules.len()
            invariant
                i <= self.rules.len(),
                entries == self.entries(),
                rules_of(items@) == flattened(entries.take(i as int)),
            decreases self.rules.len() - i,
        {
            let head = self.rules[i].0;
            let bodies = &self.rules[i].1;
            let ghost entry = entries[i as int];
            let ghost before = rules_of(items@);
            let mut j: usize = 0;
            assert(alternatives((head, entry.1.take(0))) == Seq::<Rule>::empty());
            while j < bodies.len()
                invariant
                    j <= bodies.len(),
                    entry == (head, bodies@.map_values(|body: Vec<Expression>| body@)),
                    rules_of(items@) == before + alternatives((head, entry.1.take(j as int))),
                decreases bodies.len() - j,
            {
                let body = copy_body(&bodies[j]);
                let ghost earlier = items@;
                items.push((head, body));
                assert(entry.1.take(j + 1) == entry.1.take(j as int).push(entry.1[j as int]));
                assert(rules_of(items@) == rules_of(earlier).push(
                    Rule { head, body: entry.1[j as int] },
                ));
                assert(alternatives((head, entry.1.take(j + 1))) == alternatives(
                    (head, entry.1.take(j as int)),
                ).push(Rule { head, body: entry.1[j as int] }));
                j += 1;
            }
            assert(entry.1.take(bodies.len() as int) == entry.1);
            assert(entries.take(i + 1).drop_last() == entries.take(i as int));
            assert(entries.take(i + 1).last() == entry);
            i += 1;
        }
        assert(entries.take(self.rules.len() as int) == entries);
        items
    }
}

} // verus!
