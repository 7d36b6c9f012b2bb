//! What holds of every parse.
use vstd::prelude::*;
use vstd::seq_lib::*;
use crate::error::Failure;
use crate::grammar::{alternatives, flattened, Alternatives, Grammar, Rule};
use crate::language::{
    derived, faithful, frontier, frontier_of, in_language, lemma_initial_faithful,
    lemma_run_faithful,
};
use crate::model::{
    applies, candidates, halted, halts, initial, lemma_rest_unique, next, outcome, reports, rest,
    run, State,
};
use crate::symbol::{NonTerminal, Terminal};
use crate::tree::Node;

verus! {

/// Whatever the end of a parse, the stack that is left holds parse trees of
/// the grammar, and their leaves are the tokens that were shifted: the state
/// in which the machine comes to rest is faithful to the input.
pub proof fn lemma_rest_faithful(rules: Seq<Rule>, tokens: Seq<Terminal>)
    requires
        halts(rules, tokens),
    ensures
        halted(rules, tokens, rest(rules, tokens, initial())),
        faithful(rules, tokens, rest(rules, tokens, initial())),
{
    let steps = choose|n: nat| halted(rules, tokens, #[trigger] run(rules, tokens, initial(), n));
    lemma_initial_faithful(rules, tokens);
    lemma_run_faithful(rules, tokens, initial(), steps);
}

/// An accepted input has collapsed the stack to exactly one value, and that
/// value accounts for the whole input: it is a parse tree of the grammar
/// whose leaves are the tokens. A tree that is accepted stands under the
/// starting symbol, so the input is in the grammar's language; a terminal
/// that is accepted is the input's only token.
pub proof fn lemma_accepted_collapses(rules: Seq<Rule>, start: NonTerminal, tokens: Seq<Terminal>)
    requires
        halts(rules, tokens),
        outcome(rules, start, tokens) is Ok,
    ensures
        rest(rules, tokens, initial()).stack == seq![outcome(rules, start, tokens)->Ok_0],
        rest(rules, tokens, initial()).shifted == tokens.len(),
        derived(outcome(rules, start, tokens)->Ok_0, rules),
        frontier(outcome(rules, start, tokens)->Ok_0) == tokens,
        match outcome(rules, start, tokens)->Ok_0 {
            Node::Branch { head, .. } => head == start && in_language(rules, start, tokens),
            Node::Leaf(t) => tokens == seq![t],
        },
{
    lemma_rest_faithful(rules, tokens);
    let end = rest(rules, tokens, initial());
    let value = end.stack[0];
    assert(end.stack == seq![value]);
    assert(tokens.take(tokens.len() as int) == tokens);
    assert(end.stack.drop_last() == Seq::<Node>::empty());
    assert(frontier_of(Seq::<Node>::empty()) == Seq::<Terminal>::empty());
    assert(end.stack.last() == value);
    assert(frontier_of(end.stack) == Seq::<Terminal>::empty() + frontier(value));
    assert(frontier(value) == tokens);
}

/// An input outside the grammar's language is rejected, with the stack that
/// was left. Two kinds of input are set aside: one on which the grammar
/// shows itself ambiguous, which ends in that failure instead, and one that
/// is a single token which no production matches, which is accepted as it
/// stands.
pub proof fn lemma_outside_language_rejected(
    rules: Seq<Rule>,
    start: NonTerminal,
    tokens: Seq<Terminal>,
)
    requires
        halts(rules, tokens),
        !in_language(rules, start, tokens),
        candidates(rules, rest(rules, tokens, initial()).stack).len() <= 1,
        !(tokens.len() == 1 && candidates(rules, seq![Node::Leaf(tokens[0])]).len() == 0),
    ensures
        outcome(rules, start, tokens) == Err::<Node, Failure>(
            Failure::Rejected(rest(rules, tokens, initial()).stack),
        ),
{
    if outcome(rules, start, tokens) is Ok {
        lemma_accepted_collapses(rules, start, tokens);
        lemma_rest_faithful(rules, tokens);
        let end = rest(rules, tokens, initial());
        assert(end.stack == seq![Node::Leaf(tokens[0])]);
    }
}

/// An input outside the grammar's language never succeeds, unless it is a
/// single token.
pub proof fn lemma_outside_language_fails(
    rules: Seq<Rule>,
    start: NonTerminal,
    tokens: Seq<Terminal>,
)
    requires
        halts(rules, tokens),
        !in_language(rules, start, tokens),
        tokens.len() != 1,
    ensures
        outcome(rules, start, tokens) is Err,
{
    if outcome(rules, start, tokens) is Ok {
        lemma_accepted_collapses(rules, start, tokens);
    }
}

/// Two productions that match at different places of the list make two
/// candidates.
pub proof fn lemma_two_matches(rules: Seq<Rule>, stack: Seq<Node>, i: int, j: int)
    requires
        0 <= i < j < rules.len(),
        applies(rules[i], stack),
        applies(rules[j], stack),
    ensures
        candidates(rules, stack).len() >= 2,
        candidates(rules, stack).contains(rules[i]),
        candidates(rules, stack).contains(rules[j]),
    decreases rules.len(),
{
    let matching = |rule: Rule| applies(rule, stack);
    let front = rules.drop_last();
    assert(rules == front.push(rules.last()));
    front.lemma_filter_push(rules.last(), matching);
    rules.lemma_filter_contains(matching, i);
    rules.lemma_filter_contains(matching, j);
    if j == rules.len() - 1 {
        assert(front[i] == rules[i]);
        front.lemma_filter_contains(matching, i);
        assert(front.filter(matching).len() >= 1);
    } else {
        assert(front[i] == rules[i]);
        assert(front[j] == rules[j]);
        lemma_two_matches(front, stack, i, j);
    }
}

/// Ambiguity is never passed over: when two productions match the stack in
/// some state of a parse, the parse stops in that state and ends in
/// `Ambiguous`, with a report that names every production that matched,
/// these two among them.
pub proof fn lemma_ambiguity_reported(
    rules: Seq<Rule>,
    start: NonTerminal,
    tokens: Seq<Terminal>,
    steps: nat,
    i: int,
    j: int,
)
    requires
        0 <= i < j < rules.len(),
        applies(rules[i], run(rules, tokens, initial(), steps).stack),
        applies(rules[j], run(rules, tokens, initial(), steps).stack),
    ensures
        halts(rules, tokens),
        rest(rules, tokens, initial()) == run(rules, tokens, initial(), steps),
        outcome(rules, start, tokens) == Err::<Node, Failure>(
            Failure::Ambiguous(
                reports(
                    candidates(rules, run(rules, tokens, initial(), steps).stack),
                    run(rules, tokens, initial(), steps).stack,
                ),
            ),
        ),
        candidates(rules, run(rules, tokens, initial(), steps).stack).contains(rules[i]),
        candidates(rules, run(rules, tokens, initial(), steps).stack).contains(rules[j]),
{
    let state = run(rules, tokens, initial(), steps);
    lemma_two_matches(rules, state.stack, i, j);
    lemma_rest_unique(rules, tokens, initial(), steps);
}

/// How often a production stands among those that a test lets through.
proof fn lemma_filter_count(rules: Seq<Rule>, test: spec_fn(Rule) -> bool, rule: Rule)
    ensures
        rules.filter(test).to_multiset().count(rule) == if test(rule) {
            rules.to_multiset().count(rule)
        } else {
            0
        },
    decreases rules.len(),
{
    broadcast use {group_to_multiset_ensures, vstd::multiset::group_multiset_properties};

    if rules.len() == 0 {
        reveal(Seq::filter);
        assert(rules.filter(test) == rules);
        assert(rules.to_multiset().len() == 0);
    } else {
        let front = rules.drop_last();
        let last = rules.last();
        lemma_filter_count(front, test, rule);
        assert(rules == front.push(last));
        front.lemma_filter_push(last, test);
        to_multiset_build(front, last);
        to_multiset_build(front.filter(test), last);
    }
}

/// The candidates do not depend on the order of the rules: two lists that
/// hold the same productions equally often have the same candidates equally
/// often, and where one has a single candidate the other has the same one.
pub proof fn lemma_candidates_reordered(first: Seq<Rule>, second: Seq<Rule>, stack: Seq<Node>)
    requires
        first.to_multiset() == second.to_multiset(),
    ensures
        candidates(first, stack).to_multiset() == candidates(second, stack).to_multiset(),
        candidates(first, stack).len() == candidates(second, stack).len(),
        candidates(first, stack).len() == 1 ==> candidates(first, stack) == candidates(
            second,
            stack,
        ),
{
    broadcast use group_to_multiset_ensures;

    let matching = |rule: Rule| applies(rule, stack);
    let one = candidates(first, stack);
    let two = candidates(second, stack);
    assert forall|rule: Rule| one.to_multiset().count(rule) == two.to_multiset().count(rule) by {
        lemma_filter_count(first, matching, rule);
        lemma_filter_count(second, matching, rule);
    }
    assert(one.to_multiset() =~= two.to_multiset());
    assert(one.len() == one.to_multiset().len());
    assert(two.len() == two.to_multiset().len());
    if one.len() == 1 {
        assert(one.contains(one[0]));
        assert(two.to_multiset().count(one[0]) > 0);
        assert(two.contains(one[0]));
        assert(one =~= two);
    }
}

/// The productions of two lists of entries, one after the other, are those
/// of the first and then those of the second.
pub proof fn lemma_flattened_concat(first: Seq<Alternatives>, second: Seq<Alternatives>)
    ensures
        flattened(first + second) == flattened(first) + flattened(second),
    decreases second.len(),
{
    if second.len() == 0 {
        assert(first + second == first);
        assert(flattened(first) + Seq::<Rule>::empty() == flattened(first));
    } else {
        lemma_flattened_concat(first, second.drop_last());
        assert((first + second).drop_last() == first + second.drop_last());
        assert((first + second).last() == second.last());
        let tail = alternatives(second.last());
        assert((flattened(first) + flattened(second.drop_last())) + tail == flattened(first) + (
        flattened(second.drop_last()) + tail));
    }
}

/// A grammar holds the same productions, each as often, whatever the order
/// of its entries.
pub proof fn lemma_entries_reordered(first: Seq<Alternatives>, second: Seq<Alternatives>)
    requires
        first.to_multiset() == second.to_multiset(),
    ensures
        flattened(first).to_multiset() == flattened(second).to_multiset(),
    decreases first.len(),
{
    broadcast use group_to_multiset_ensures;

    assert(first.len() == first.to_multiset().len());
    assert(second.len() == second.to_multiset().len());
    if first.len() > 0 {
        let entry = first.last();
        assert(first.contains(entry));
        assert(second.to_multiset().count(entry) > 0);
        assert(second.contains(entry));
        let at = choose|at: int| 0 <= at < second.len() && second[at] == entry;
        let front = first.drop_last();
        let others = second.remove(at);
        assert(front == first.remove(first.len() - 1));
        assert(front.to_multiset() == first.to_multiset().remove(entry));
        assert(others.to_multiset() == second.to_multiset().remove(entry));
        lemma_entries_reordered(front, others);
        let before = second.take(at);
        let after = second.skip(at + 1);
        let own = alternatives(entry);
        assert(second == (before + seq![entry]) + after);
        assert(others == before + after);
        lemma_flattened_concat(before + seq![entry], after);
        lemma_flattened_concat(before, seq![entry]);
        lemma_flattened_concat(before, after);
        assert(flattened(seq![entry]) == own) by {
            assert(seq![entry].drop_last() == Seq::<Alternatives>::empty());
            assert(flattened(Seq::<Alternatives>::empty()) == Seq::<Rule>::empty());
            assert(Seq::<Rule>::empty() + own == own);
        }
        lemma_multiset_commutative(flattened(front), own);
        lemma_multiset_commutative(flattened(before) + own, flattened(after));
        lemma_multiset_commutative(flattened(before), own);
        lemma_multiset_commutative(flattened(before), flattened(after));
        assert(flattened(first).to_multiset() =~= flattened(second).to_multiset());
    } else {
        assert(second.len() == 0);
    }
}

/// A parse goes the same way whatever the order of the rules.
pub proof fn lemma_run_reordered(
    first: Seq<Rule>,
    second: Seq<Rule>,
    tokens: Seq<Terminal>,
    state: State,
    steps: nat,
)
    requires
        first.to_multiset() == second.to_multiset(),
    ensures
        run(first, tokens, state, steps) == run(second, tokens, state, steps),
        halted(first, tokens, run(first, tokens, state, steps)) == halted(
            second,
            tokens,
            run(second, tokens, state, steps),
        ),
    decreases steps,
{
    lemma_candidates_reordered(first, second, state.stack);
    if steps > 0 {
        lemma_run_reordered(first, second, tokens, next(first, tokens, state), (steps - 1) as nat);
    }
    lemma_candidates_reordered(first, second, run(first, tokens, state, steps).stack);
}

/// The order in which the rules are listed does not matter. Two lists that
/// hold the same productions equally often stop on the same inputs and come
/// to rest in the same state, with the same stack. Unless that state is
/// ambiguous, in which case it is so for both, the parse ends the same way.
pub proof fn lemma_order_irrelevant(
    first: Seq<Rule>,
    second: Seq<Rule>,
    start: NonTerminal,
    tokens: Seq<Terminal>,
)
    requires
        first.to_multiset() == second.to_multiset(),
    ensures
        halts(first, tokens) == halts(second, tokens),
        halts(first, tokens) ==> {
            &&& rest(first, tokens, initial()) == rest(second, tokens, initial())
            &&& outcome(first, start, tokens) is Ok ==> outcome(second, start, tokens) == outcome(
                first,
                start,
                tokens,
            )
            &&& (outcome(first, start, tokens) matches Err(Failure::Rejected(_)))
                ==> outcome(second, start, tokens) == outcome(first, start, tokens)
            &&& (outcome(first, start, tokens) matches Err(Failure::Ambiguous(_))) ==> (outcome(
                second,
                start,
                tokens,
            ) matches Err(Failure::Ambiguous(_)))
        },
{
    if halts(first, tokens) {
        let steps = choose|n: nat|
            halted(first, tokens, #[trigger] run(first, tokens, initial(), n));
        lemma_run_reordered(first, second, tokens, initial(), steps);
        lemma_rest_unique(second, tokens, initial(), steps);
        lemma_candidates_reordered(first, second, rest(first, tokens, initial()).stack);
    }
    if halts(second, tokens) {
        let steps = choose|n: nat|
            halted(second, tokens, #[trigger] run(second, tokens, initial(), n));
        lemma_run_reordered(first, second, tokens, initial(), steps);
        lemma_rest_unique(first, tokens, initial(), steps);
    }
}

/// The order of a grammar's entries does not matter either: two grammars
/// with the same starting symbol and the same entries, each as often, stop
/// on the same inputs, come to rest in the same state, and end the same way
/// unless that state is ambiguous, in which case it is so for both.
pub proof fn lemma_grammar_order_irrelevant(first: Grammar, second: Grammar, tokens: Seq<Terminal>)
    requires
        first.starting_symbol == second.starting_symbol,
        first.entries().to_multiset() == second.entries().to_multiset(),
    ensures
        halts(first.productions(), tokens) == halts(second.productions(), tokens),
        halts(first.productions(), tokens) ==> {
            let one = outcome(first.productions(), first.starting_symbol, tokens);
            let two = outcome(second.productions(), second.starting_symbol, tokens);
            &&& rest(first.productions(), tokens, initial()) == rest(
                second.productions(),
                tokens,
                initial(),
            )
            &&& one is Ok ==> two == one
            &&& (one matches Err(Failure::Rejected(_))) ==> two == one
            &&& (one matches Err(Failure::Ambiguous(_))) ==> (two matches Err(
                Failure::Ambiguous(_),
            ))
        },
{
    lemma_entries_reordered(first.entries(), second.entries());
    lemma_order_irrelevant(
        first.productions(),
        second.productions(),
        first.starting_symbol,
        tokens,
    );
}

} // verus!
