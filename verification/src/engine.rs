//! The steps of the recognizer: matching productions against the tail of the
//! stack, reducing the tail to a tree, and the parse built from the two.
use vstd::prelude::*;
use crate::error::{Failure, ParseFailure};
use crate::grammar::{rules_of, Item, Rule};
use crate::language::{derived, frontier};
use crate::laws::lemma_accepted_collapses;
use crate::model;
use crate::model::Step;
use crate::symbol::{NonTerminal, Terminal};
use crate::tree::{copy_tail, lemma_tree_view, nodes, Node, StackValue};

verus! {

/// Length and non-terminal of each production in `found`.
pub open spec fn sizes(found: Seq<Rule>) -> Seq<(usize, NonTerminal)> {
    found.map_values(|rule: Rule| (rule.body.len() as usize, rule.head))
}

/// Whether the right-hand side of `item` matches the tail of `stack`.
pub fn applies(item: &Item, stack: &Vec<StackValue>) -> (yes: bool)
    ensures
        yes == model::applies(Rule { head: item.0, body: item.1@ }, nodes(stack@)),
{
    let body = &item.1;
    if stack.len() < body.len() {
        return false;
    }
    let base = stack.len() - body.len();
    let mut k: usize = 0;
    while k < body.len()
        invariant
            *body == item.1,
            k <= body.len(),
            base + body.len() == stack.len(),
            forall|j: int| 0 <= j < k ==> nodes(stack@)[base + j].fits(#[trigger] body@[j]),
        decreases body.len() - k,
    {
        if !stack[base + k].fits(&body[k]) {
            assert(!nodes(stack@)[stack.len() - body.len() + k].fits(body@[k as int]));
            return false;
        }
        k += 1;
    }
    true
}

/// The productions among `items` that match the tail of `stack`, each as its
/// length and its non-terminal, in the order of `items`.
pub fn candidates(items: &Vec<Item>, stack: &Vec<StackValue>) -> (found: Vec<(usize, NonTerminal)>)
    ensures
        found@ == sizes(model::candidates(rules_of(items@), nodes(stack@))),
{
    let ghost rules = rules_of(items@);
    let ghost matching = |rule: Rule| model::applies(rule, nodes(stack@));
    let mut found: Vec<(usize, NonTerminal)> = Vec::new();
    let mut i: usize = 0;
    proof {
        reveal(Seq::filter);
        assert(rules.take(0).filter(matching) =~= Seq::<Rule>::empty());
    }
    while i < items.len()
        invariant
            i <= items.len(),
            rules == rules_of(items@),
            matching == |rule: Rule| model::applies(rule, nodes(stack@)),
            found@ == sizes(rules.take(i as int).filter(matching)),
        decreases items.len() - i,
    {
        let ghost before = rules.take(i as int).filter(matching);
        proof {
            assert(rules.take(i + 1) == rules.take(i as int).push(rules[i as int]));
            rules.take(i as int).lemma_filter_push(rules[i as int], matching);
        }
        if applies(&items[i], stack) {
            found.push((items[i].1.len(), items[i].0));
            assert(found@ == sizes(before.push(rules[i as int])));
        }
        i += 1;
    }
    assert(rules.take(items.len() as int) == rules);
    found
}

/// Reduces the last `len` entries of the stack to one tree under `head`.
pub fn reduce(stack: &mut Vec<StackValue>, len: usize, head: NonTerminal)
    requires
        len <= old(stack).len(),
    ensures
        nodes(final(stack)@) == model::reduced(nodes(old(stack)@), len as int, head),
{
    let at = stack.len() - len;
    let values = stack.split_off(at);
    proof {
        lemma_tree_view(head, values);
        assert(nodes(values@) == nodes(old(stack)@).skip(at as int));
    }
    stack.push(StackValue::Tree { head, values });
    assert(nodes(stack@) == model::reduced(nodes(old(stack)@), len as int, head));
}

/// Decides what to do with the stack as it stands.
///
/// `Ok(None)` says that no production matches its tail, `Ok(Some(..))` that
/// exactly one does, and gives that production's length and non-terminal.
/// When more than one matches, the grammar is ambiguous, and the error lists
/// every candidate with the entries it would consume.
pub fn find_reduction(items: &Vec<Item>, stack: &Vec<StackValue>) -> (decision: Result<
    Option<(usize, NonTerminal)>,
    ParseFailure,
>)
    ensures
        ({
            let found = model::candidates(rules_of(items@), nodes(stack@));
            match decision {
                Ok(None) => found.len() == 0,
                Ok(Some(one)) => {
                    &&& found.len() == 1
                    &&& one == (found[0].body.len() as usize, found[0].head)
                    &&& one.0 <= stack.len()
                },
                Err(failure) => {
                    &&& found.len() > 1
                    &&& failure@ == Failure::Ambiguous(model::reports(found, nodes(stack@)))
                },
            }
        }),
{
    let ghost matching = |rule: Rule| model::applies(rule, nodes(stack@));
    let ghost all = model::candidates(rules_of(items@), nodes(stack@));
    let found = candidates(items, stack);
    if found.len() == 0 {
        return Ok(None);
    }
    if found.len() == 1 {
        proof {
            rules_of(items@).lemma_filter_pred(matching, 0);
        }
        return Ok(Some(found[0]));
    }
    let mut reports: Vec<(NonTerminal, Vec<StackValue>)> = Vec::new();
    let mut i: usize = 0;
    while i < found.len()
        invariant
            i <= found.len(),
            matching == |rule: Rule| model::applies(rule, nodes(stack@)),
            all == rules_of(items@).filter(matching),
            found@ == sizes(all),
            reports@.len() == i,
            forall|k: int|
                0 <= k < i ==> {
                    &&& (#[trigger] reports@[k]).0 == all[k].head
                    &&& nodes(reports@[k].1@) == nodes(stack@).skip(
                        stack.len() - all[k].body.len(),
                    )
                },
        decreases found.len() - i,
    {
        let len = found[i].0;
        let head = found[i].1;
        proof {
            rules_of(items@).lemma_filter_pred(matching, i as int);
        }
        let tail = copy_tail(stack, len);
        reports.push((head, tail));
        i += 1;
    }
    let failure = ParseFailure::AmbiguousGrammar { candidates: reports };
    assert(failure@->Ambiguous_0 =~= model::reports(all, nodes(stack@)));
    Err(failure)
}

/// The acceptance test on the stack that is left when the input is used up:
/// the parse succeeds when the stack holds exactly one value and that value
/// is a terminal or a tree under the starting symbol `start`. Any other
/// stack is handed back in the rejection.
pub fn accept(stack: Vec<StackValue>, start: NonTerminal) -> (verdict: Result<
    StackValue,
    ParseFailure,
>)
    ensures
        match verdict {
            Ok(value) => {
                &&& stack.len() == 1
                &&& model::acceptable(stack@[0]@, start)
                &&& value@ == stack@[0]@
            },
            Err(failure) => {
                &&& !(stack.len() == 1 && model::acceptable(stack@[0]@, start))
                &&& failure@ == Failure::Rejected(nodes(stack@))
            },
        },
{
    let mut stack = stack;
    let ghost given = stack@;
    if stack.len() == 1 {
        let good = match &stack[0] {
            StackValue::Terminal(_) => true,
            StackValue::Tree { head, values: _ } => *head == start,
        };
        if good {
            let value = stack.pop();
            return Ok(value.unwrap());
        }
    }
    Err(ParseFailure::Rejected { stack })
}

/// The values of a parse's result.
pub open spec fn verdict_of(result: Result<StackValue, ParseFailure>) -> Result<Node, Failure> {
    match result {
        Ok(value) => Ok(value@),
        Err(failure) => Err(failure@),
    }
}

/// Runs the recognizer on `tokens` and keeps a log of its steps.
///
/// Between any two shifts, and once more after the last, the stack's tail is
/// reduced for as long as exactly one production matches it. The result is
/// the one value to which the stack collapsed, an ambiguity as soon as two
/// productions match at once, or a rejection with the stack that was left.
/// An accepted value is a parse tree of the grammar whose leaves are the
/// tokens. The log holds every shift and every reduction, in the order in which
/// they were made.
///
/// The caller sees to it that the machine stops on this input: a grammar
/// whose reductions can go on for ever is outside what the recognizer handles.
pub fn trace(items: &Vec<Item>, start: NonTerminal, tokens: &Vec<Terminal>) -> (ended: (
    Result<StackValue, ParseFailure>,
    Vec<Step>,
))
    requires
        model::halts(rules_of(items@), tokens@),
    ensures
        verdict_of(ended.0) == model::outcome(rules_of(items@), start, tokens@),
        ended.0 matches Ok(value) ==> derived(value@, rules_of(items@)) && frontier(value@)
            == tokens@,
        ended.1@ == model::history(rules_of(items@), tokens@),
{
    proof {
        if model::outcome(rules_of(items@), start, tokens@) is Ok {
            lemma_accepted_collapses(rules_of(items@), start, tokens@);
        }
    }
    let ghost rules = rules_of(items@);
    let ghost limit: nat = choose|n: nat|
        model::halted(rules, tokens@, #[trigger] model::run(rules, tokens@, model::initial(), n));
    let ghost mut done: nat = 0;
    let mut stack: Vec<StackValue> = Vec::new();
    let mut log: Vec<Step> = Vec::new();
    let mut pos: usize = 0;
    assert(nodes(stack@) == Seq::<Node>::empty());
    loop
        invariant
            rules == rules_of(items@),
            pos <= tokens.len(),
            (model::State { stack: nodes(stack@), shifted: pos as nat }) == model::run(
                rules,
                tokens@,
                model::initial(),
                done,
            ),
            done <= limit,
            model::halted(rules, tokens@, model::run(rules, tokens@, model::initial(), limit)),
            model::outcome(rules, start, tokens@) matches Ok(value) ==> derived(value, rules)
                && frontier(value) == tokens@,
            log@.len() == done,
            forall|k: nat|
                k < done ==> {
                    &&& !model::halted(
                        rules,
                        tokens@,
                        #[trigger] model::run(rules, tokens@, model::initial(), k),
                    )
                    &&& log@[k as int] == model::step_from(
                        rules,
                        tokens@,
                        model::run(rules, tokens@, model::initial(), k),
                    )
                },
        decreases limit - done,
    {
        proof {
            model::lemma_run_step(rules, tokens@, model::initial(), done);
        }
        match find_reduction(items, &stack) {
            Err(failure) => {
                proof {
                    model::lemma_pace(rules, tokens@, done);
                    assert(log@ =~= model::history(rules, tokens@));
                }
                return (Err(failure), log);
            },
            Ok(Some(one)) => {
                reduce(&mut stack, one.0, one.1);
                log.push(Step::Reduce { len: one.0, head: one.1 });
                proof {
                    done = done + 1;
                }
            },
            Ok(None) => {
                if pos < tokens.len() {
                    let ghost before = stack@;
                    stack.push(StackValue::Terminal(tokens[pos]));
                    log.push(Step::Shift(tokens[pos]));
                    assert(nodes(stack@) == nodes(before).push(Node::Leaf(tokens@[pos as int])));
                    pos += 1;
                    proof {
                        done = done + 1;
                    }
                } else {
                    proof {
                        model::lemma_pace(rules, tokens@, done);
                        assert(log@ =~= model::history(rules, tokens@));
                    }
                    return (accept(stack, start), log);
                }
            },
        }
    }
}

/// Runs the recognizer on `tokens`.
///
/// The result is the one value to which the stack collapsed, an ambiguity as
/// soon as two productions match at once, or a rejection with the stack that
/// was left. An accepted value is a parse tree of the grammar whose leaves
/// are the tokens.
///
/// The caller sees to it that the machine stops on this input.
pub fn recognize(items: &Vec<Item>, start: NonTerminal, tokens: &Vec<Terminal>) -> (result: Result<
    StackValue,
    ParseFailure,
>)
    requires
        model::halts(rules_of(items@), tokens@),
    ensures
        verdict_of(result) == model::outcome(rules_of(items@), start, tokens@),
        result matches Ok(value) ==> derived(value@, rules_of(items@)) && frontier(value@)
            == tokens@,
{
    trace(items, start, tokens).0
}

} // verus!
