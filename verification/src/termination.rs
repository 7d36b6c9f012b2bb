//! Grammars on which the recognizer is sure to stop.
//!
//! Reducing by a production with two or more slots shortens the stack, and
//! reducing a terminal to a tree can happen once per entry. What can go on
//! for ever is reducing by productions with one non-terminal slot, round a
//! cycle, and reducing by a production with no slot at all. A ranking of the
//! non-terminals rules both out.
use vstd::prelude::*;
use crate::grammar::{rules_of, Grammar, Item, Rule};
use crate::language::lemma_candidate;
use crate::model::{candidates, halted, halts, halts_from, initial, next, run, State};
use crate::symbol::{Expression, NonTerminal, Terminal, KINDS};
use crate::tree::Node;

verus! {

/// Whether `rank` orders the non-terminals so that reducing goes downhill:
/// no production is empty, and a production whose one slot is a
/// non-terminal has a head of lower rank than that slot.
pub open spec fn ranked(rules: Seq<Rule>, rank: spec_fn(NonTerminal) -> nat) -> bool {
    forall|i: int|
        0 <= i < rules.len() ==> {
            let rule = #[trigger] rules[i];
            &&& rule.body.len() >= 1
            &&& rule.body.len() == 1 ==> match rule.body[0] {
                Expression::NonTerminal(below) => rank(rule.head) < rank(below),
                Expression::Terminal(_) => true,
            }
        }
}

/// Whether the non-terminals can be ranked so that reducing goes downhill.
pub open spec fn well_founded(rules: Seq<Rule>) -> bool {
    exists|rank: spec_fn(NonTerminal) -> nat| ranked(rules, rank)
}

/// How many tokens are still to be shifted.
pub open spec fn unread(tokens: Seq<Terminal>, state: State) -> nat {
    if state.shifted < tokens.len() {
        (tokens.len() - state.shifted) as nat
    } else {
        0
    }
}

/// One for a stack that ends in a terminal, zero otherwise.
pub open spec fn raw(stack: Seq<Node>) -> nat {
    if stack.len() > 0 && stack.last() is Leaf {
        1
    } else {
        0
    }
}

/// The rank of the tree that the stack ends in.
pub open spec fn height(stack: Seq<Node>, rank: spec_fn(NonTerminal) -> nat) -> nat {
    if stack.len() > 0 && stack.last() is Branch {
        rank(stack.last()->head)
    } else {
        0
    }
}

/// With a ranking, the machine stops from every state.
pub proof fn lemma_ranked_halts_from(
    rules: Seq<Rule>,
    rank: spec_fn(NonTerminal) -> nat,
    tokens: Seq<Terminal>,
    state: State,
)
    requires
        ranked(rules, rank),
    ensures
        halts_from(rules, tokens, state),
    decreases unread(tokens, state), state.stack.len(), raw(state.stack), height(state.stack, rank),
{
    if halted(rules, tokens, state) {
        assert(halted(rules, tokens, run(rules, tokens, state, 0)));
    } else {
        let after = next(rules, tokens, state);
        let found = candidates(rules, state.stack);
        if found.len() == 1 {
            let rule = found[0];
            lemma_candidate(rules, state.stack, 0);
            let at = choose|i: int| 0 <= i < rules.len() && rules[i] == rule;
            assert(rules[at].body.len() >= 1);
            if rule.body.len() == 1 {
                assert(state.stack[state.stack.len() - rule.body.len() + 0].fits(rule.body[0]));
                assert(after.stack.last() == Node::Branch {
                    head: rule.head,
                    children: state.stack.skip(state.stack.len() - 1),
                });
            }
        }
        lemma_ranked_halts_from(rules, rank, tokens, after);
        let steps = choose|n: nat| halted(rules, tokens, #[trigger] run(rules, tokens, after, n));
        assert(run(rules, tokens, state, steps + 1) == run(rules, tokens, after, steps));
        assert(halted(rules, tokens, run(rules, tokens, state, steps + 1)));
    }
}

/// On a grammar whose non-terminals can be ranked, the recognizer stops on
/// every input.
pub proof fn lemma_well_founded_halts(rules: Seq<Rule>, tokens: Seq<Terminal>)
    requires
        well_founded(rules),
    ensures
        halts(rules, tokens),
{
    let rank = choose|rank: spec_fn(NonTerminal) -> nat| ranked(rules, rank);
    lemma_ranked_halts_from(rules, rank, tokens, initial());
}

/// How many of `flags` are set.
pub open spec fn count_set(flags: Seq<bool>) -> nat
    decreases flags.len(),
{
    if flags.len() == 0 {
        0
    } else {
        count_set(flags.drop_last()) + if flags.last() {
            1nat
        } else {
            0nat
        }
    }
}

/// Setting a flag that was clear adds one to the count.
proof fn lemma_count_grows(flags: Seq<bool>, at: int)
    requires
        0 <= at < flags.len(),
        !flags[at],
    ensures
        count_set(flags.update(at, true)) == count_set(flags) + 1,
    decreases flags.len(),
{
    let after = flags.update(at, true);
    if at == flags.len() - 1 {
        assert(after.drop_last() == flags.drop_last());
    } else {
        lemma_count_grows(flags.drop_last(), at);
        assert(after.drop_last() == flags.drop_last().update(at, true));
    }
}

/// No more flags are set than there are, and where one is clear, fewer.
proof fn lemma_count_bound(flags: Seq<bool>)
    ensures
        count_set(flags) <= flags.len(),
        count_set(flags) == flags.len() <==> forall|i: int|
            0 <= i < flags.len() ==> #[trigger] flags[i],
    decreases flags.len(),
{
    if flags.len() > 0 {
        let front = flags.drop_last();
        lemma_count_bound(front);
        if count_set(flags) == flags.len() {
            assert forall|i: int| 0 <= i < flags.len() implies #[trigger] flags[i] by {
                if i < front.len() {
                    assert(front[i] == flags[i]);
                }
            }
        }
        if forall|i: int| 0 <= i < flags.len() ==> #[trigger] flags[i] {
            assert forall|i: int| 0 <= i < front.len() implies #[trigger] front[i] by {
                assert(front[i] == flags[i]);
            }
        }
    }
}

/// Whether `rule` keeps `below` from being ranked: its one slot is `below`,
/// and its head is not yet ranked itself.
pub open spec fn blocks(rule: Rule, below: NonTerminal, placed: Seq<bool>) -> bool {
    &&& rule.body.len() == 1
    &&& rule.body[0] == Expression::NonTerminal(below)
    &&& !placed[rule.head.spec_index() as int]
}

/// Whether some production keeps `below` from being ranked.
pub open spec fn blocked(rules: Seq<Rule>, below: NonTerminal, placed: Seq<bool>) -> bool {
    exists|i: int| 0 <= i < rules.len() && blocks(#[trigger] rules[i], below, placed)
}

/// Whether the levels given so far respect `rule`: where its one slot is a
/// non-terminal that has its level, the head has a lower one.
pub open spec fn settled(rule: Rule, placed: Seq<bool>, level: Seq<usize>) -> bool {
    rule.body.len() == 1 ==> match rule.body[0] {
        Expression::NonTerminal(below) => placed[below.spec_index() as int] ==> {
            &&& placed[rule.head.spec_index() as int]
            &&& level[rule.head.spec_index() as int] < level[below.spec_index() as int]
        },
        Expression::Terminal(_) => true,
    }
}

/// Under a ranking, a non-terminal that is left can be ranked next: where
/// every one that is left is kept back by another that is left, none is
/// left.
proof fn lemma_descent(
    rules: Seq<Rule>,
    rank: spec_fn(NonTerminal) -> nat,
    placed: Seq<bool>,
    kind: NonTerminal,
)
    requires
        ranked(rules, rank),
        placed.len() == KINDS,
        forall|other: NonTerminal|
            !placed[other.spec_index() as int] ==> #[trigger] blocked(rules, other, placed),
    ensures
        placed[kind.spec_index() as int],
    decreases rank(kind),
{
    if !placed[kind.spec_index() as int] {
        assert(blocked(rules, kind, placed));
        let i = choose|i: int| 0 <= i < rules.len() && blocks(#[trigger] rules[i], kind, placed);
        lemma_descent(rules, rank, placed, rules[i].head);
    }
}

/// Whether some production among `items` keeps `below` from being ranked.
fn is_blocked(items: &Vec<Item>, placed: &Vec<bool>, below: NonTerminal) -> (yes: bool)
    requires
        placed.len() == KINDS,
    ensures
        yes == blocked(rules_of(items@), below, placed@),
{
    let ghost rules = rules_of(items@);
    let mut i: usize = 0;
    while i < items.len()
        invariant
            i <= items.len(),
            rules == rules_of(items@),
            placed.len() == KINDS,
            forall|k: int| 0 <= k < i ==> !blocks(#[trigger] rules[k], below, placed@),
        decreases items.len() - i,
    {
        let head = items[i].0;
        let body = &items[i].1;
        if body.len() == 1 && body[0] == Expression::NonTerminal(below) && !placed[head.index()] {
            assert(blocks(rules[i as int], below, placed@));
            return true;
        }
        i += 1;
    }
    false
}

/// The place of the first non-terminal that is not ranked yet and that no
/// production keeps from being ranked, if there is one.
fn next_free(items: &Vec<Item>, placed: &Vec<bool>) -> (pick: Option<usize>)
    requires
        placed.len() == KINDS,
    ensures
        match pick {
            Some(place) => {
                &&& place < KINDS
                &&& !placed@[place as int]
                &&& !blocked(rules_of(items@), NonTerminal::spec_at(place as int), placed@)
            },
            None => forall|other: NonTerminal|
                !placed@[other.spec_index() as int] ==> #[trigger] blocked(
                    rules_of(items@),
                    other,
                    placed@,
                ),
        },
{
    let mut place: usize = 0;
    while place < KINDS
        invariant
            place <= KINDS,
            placed.len() == KINDS,
            forall|other: NonTerminal|
                other.spec_index() < place && !placed@[other.spec_index() as int]
                    ==> #[trigger] blocked(rules_of(items@), other, placed@),
        decreases KINDS - place,
    {
        if !placed[place] && !is_blocked(items, placed, NonTerminal::at(place)) {
            return Some(place);
        }
        place += 1;
    }
    None
}

/// Whether one of `items` has an empty right-hand side.
fn has_empty(items: &Vec<Item>) -> (yes: bool)
    ensures
        yes == exists|i: int|
            0 <= i < items.len() && (#[trigger] rules_of(items@)[i]).body.len() == 0,
{
    let mut i: usize = 0;
    while i < items.len()
        invariant
            i <= items.len(),
            forall|k: int| 0 <= k < i ==> (#[trigger] rules_of(items@)[k]).body.len() != 0,
        decreases items.len() - i,
    {
        if items[i].1.len() == 0 {
            assert(rules_of(items@)[i as int].body.len() == 0);
            return true;
        }
        i += 1;
    }
    false
}

impl Grammar {
    /// Decides whether the grammar's non-terminals can be ranked so that
    /// reducing goes downhill: whether no production is empty and no chain of
    /// productions with a single non-terminal slot leads back to where it
    /// began. On such a grammar the recognizer stops on every input.
    ///
    /// The non-terminals are ranked one by one, each time one that no
    /// production keeps back. Where all that are left keep each other back,
    /// they lie on a circle.
    pub fn is_well_founded(&self) -> (yes: bool)
        ensures
            yes == well_founded(self.productions()),
    {
        let items = self.flatten();
        let ghost rules = rules_of(items@);
        if has_empty(&items) {
            assert(!well_founded(rules)) by {
                let i = choose|i: int| 0 <= i < rules.len() && (#[trigger] rules[i]).body.len() == 0;
                if well_founded(rules) {
                    let rank = choose|rank: spec_fn(NonTerminal) -> nat| ranked(rules, rank);
                    assert(rules[i].body.len() >= 1);
                }
            }
            return false;
        }
        let mut placed: Vec<bool> = Vec::new();
        let mut level: Vec<usize> = Vec::new();
        while placed.len() < KINDS
            invariant
                placed.len() <= KINDS,
                level.len() == placed.len(),
                count_set(placed@) == 0,
                forall|k: int| 0 <= k < placed.len() ==> !(#[trigger] placed@[k]),
            decreases KINDS - placed.len(),
        {
            let ghost before = placed@;
            placed.push(false);
            level.push(0);
            assert(placed@.drop_last() == before);
        }
        let mut round: usize = 0;
        while round < KINDS
            invariant
                round <= KINDS,
                placed.len() == KINDS,
                level.len() == KINDS,
                rules == rules_of(items@),
                rules == self.productions(),
                count_set(placed@) == round,
                forall|k: int| 0 <= k < rules.len() ==> (#[trigger] rules[k]).body.len() != 0,
                forall|k: int| 0 <= k < KINDS && placed@[k] ==> #[trigger] level@[k] < round,
                forall|k: int| 0 <= k < rules.len() ==> settled(#[trigger] rules[k], placed@, level@),
            decreases KINDS - round,
        {
            let Some(place) = next_free(&items, &placed) else {
                proof {
                    lemma_count_bound(placed@);
                    let k = choose|k: int| 0 <= k < placed@.len() && !placed@[k];
                    assert(NonTerminal::spec_at(k).spec_index() == k);
                    assert(!well_founded(rules)) by {
                        if well_founded(rules) {
                            let rank = choose|rank: spec_fn(NonTerminal) -> nat|
                                ranked(rules, rank);
                            lemma_descent(rules, rank, placed@, NonTerminal::spec_at(k));
                        }
                    }
                }
                return false;
            };
            let ghost earlier = placed@;
            let ghost lower = level@;
            placed.set(place, true);
            level.set(place, round);
            proof {
                lemma_count_grows(earlier, place as int);
                assert forall|k: int| 0 <= k < rules.len() implies settled(
                    #[trigger] rules[k],
                    placed@,
                    level@,
                ) by {
                    let rule = rules[k];
                    assert(settled(rule, earlier, lower));
                    if rule.body.len() == 1 {
                        match rule.body[0] {
                            Expression::NonTerminal(below) => {
                                if below.spec_index() == place {
                                    assert(below == NonTerminal::spec_at(place as int));
                                    assert(!blocks(rule, below, earlier));
                                }
                            },
                            Expression::Terminal(_) => {},
                        }
                    }
                }
            }
            round += 1;
        }
        proof {
            lemma_count_bound(placed@);
            let rank = |kind: NonTerminal| level@[kind.spec_index() as int] as nat;
            assert forall|k: int| 0 <= k < rules.len() implies {
                let rule = #[trigger] rules[k];
                &&& rule.body.len() >= 1
                &&& rule.body.len() == 1 ==> match rule.body[0] {
                    Expression::NonTerminal(below) => rank(rule.head) < rank(below),
                    Expression::Terminal(_) => true,
                }
            } by {
                assert(settled(rules[k], placed@, level@));
            }
            assert(ranked(rules, rank));
        }
        true
    }
}

} // verus!
