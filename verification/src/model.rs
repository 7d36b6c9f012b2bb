//! The recognizer as a mathematical machine.
//!
//! A state is a stack of trees and the number of tokens shifted so far. From
//! a state the machine reduces the stack's tail when exactly one production
//! matches it, shifts the next token when none does, and stops when two or
//! more match or when nothing matches and the input is used up.
use vstd::prelude::*;
use crate::error::Failure;
use crate::grammar::Rule;
use crate::symbol::{NonTerminal, Terminal};
use crate::tree::Node;

verus! {

/// Whether the right-hand side of `rule` matches the tail of `stack`, slot by
/// slot and left to right.
pub open spec fn applies(rule: Rule, stack: Seq<Node>) -> bool {
    &&& rule.body.len() <= stack.len()
    &&& forall|k: int|
        0 <= k < rule.body.len() ==> stack[stack.len() - rule.body.len() + k].fits(
            #[trigger] rule.body[k],
        )
}

/// The productions that match the tail of `stack`, in the order of `rules`.
pub open spec fn candidates(rules: Seq<Rule>, stack: Seq<Node>) -> Seq<Rule> {
    rules.filter(|rule: Rule| applies(rule, stack))
}

/// The stack after its last `len` entries are reduced to one tree under
/// `head`.
pub open spec fn reduced(stack: Seq<Node>, len: int, head: NonTerminal) -> Seq<Node> {
    stack.take(stack.len() - len).push(
        Node::Branch { head, children: stack.skip(stack.len() - len) },
    )
}

/// A state of the machine.
pub struct State {
    /// The stack, bottom first.
    pub stack: Seq<Node>,
    /// How many tokens have been shifted.
    pub shifted: nat,
}

/// The state before anything is shifted.
pub open spec fn initial() -> State {
    State { stack: Seq::empty(), shifted: 0 }
}

/// Whether the machine stops in `state`: two or more productions match, or
/// none matches and no token is left.
pub open spec fn halted(rules: Seq<Rule>, tokens: Seq<Terminal>, state: State) -> bool {
    let found = candidates(rules, state.stack);
    found.len() > 1 || (found.len() == 0 && state.shifted >= tokens.len())
}

/// The state that follows `state`; a state in which the machine stops
/// follows itself.
pub open spec fn next(rules: Seq<Rule>, tokens: Seq<Terminal>, state: State) -> State {
    let found = candidates(rules, state.stack);
    if found.len() == 1 {
        State {
            stack: reduced(state.stack, found[0].body.len() as int, found[0].head),
            shifted: state.shifted,
        }
    } else if found.len() == 0 && state.shifted < tokens.len() {
        State {
            stack: state.stack.push(Node::Leaf(tokens[state.shifted as int])),
            shifted: state.shifted + 1,
        }
    } else {
        state
    }
}

/// The state that the machine reaches from `state` in `steps` steps.
pub open spec fn run(rules: Seq<Rule>, tokens: Seq<Terminal>, state: State, steps: nat) -> State
    decreases steps,
{
    if steps == 0 {
        state
    } else {
        run(rules, tokens, next(rules, tokens, state), (steps - 1) as nat)
    }
}

/// Whether the machine, started in `state`, ever stops.
pub open spec fn halts_from(rules: Seq<Rule>, tokens: Seq<Terminal>, state: State) -> bool {
    exists|steps: nat| halted(rules, tokens, #[trigger] run(rules, tokens, state, steps))
}

/// The state in which the machine stops when started in `state`.
pub open spec fn rest(rules: Seq<Rule>, tokens: Seq<Terminal>, state: State) -> State {
    run(
        rules,
        tokens,
        state,
        choose|steps: nat| halted(rules, tokens, #[trigger] run(rules, tokens, state, steps)),
    )
}

/// Whether the machine stops on the input `tokens`.
pub open spec fn halts(rules: Seq<Rule>, tokens: Seq<Terminal>) -> bool {
    halts_from(rules, tokens, initial())
}

/// One step of the machine, as a log keeps it.
#[derive(Debug, Clone, Copy, PartialEq, Eq, Structural)]
pub enum Step {
    /// The next token went onto the stack.
    Shift(Terminal),
    /// The last `len` entries of the stack were reduced to one tree under
    /// `head`.
    Reduce { len: usize, head: NonTerminal },
}

/// The step that the machine takes from `state`, a state in which it does
/// not stop.
pub open spec fn step_from(rules: Seq<Rule>, tokens: Seq<Terminal>, state: State) -> Step {
    let found = candidates(rules, state.stack);
    if found.len() == 1 {
        Step::Reduce { len: found[0].body.len() as usize, head: found[0].head }
    } else {
        Step::Shift(tokens[state.shifted as int])
    }
}

/// Whether the machine stops after `steps` steps on `tokens`, and not
/// before.
pub open spec fn stops_after(rules: Seq<Rule>, tokens: Seq<Terminal>, steps: nat) -> bool {
    &&& halted(rules, tokens, run(rules, tokens, initial(), steps))
    &&& forall|earlier: nat|
        earlier < steps ==> !halted(
            rules,
            tokens,
            #[trigger] run(rules, tokens, initial(), earlier),
        )
}

/// How many steps the machine takes on `tokens` until it stops.
pub open spec fn pace(rules: Seq<Rule>, tokens: Seq<Terminal>) -> nat {
    choose|steps: nat| stops_after(rules, tokens, steps)
}

/// The steps of the parse of `tokens`, first to last.
pub open spec fn history(rules: Seq<Rule>, tokens: Seq<Terminal>) -> Seq<Step> {
    Seq::new(
        pace(rules, tokens),
        |k: int| step_from(rules, tokens, run(rules, tokens, initial(), k as nat)),
    )
}

/// The reports of an ambiguity: for each matching production its
/// non-terminal and the tail of the stack that it would consume.
pub open spec fn reports(found: Seq<Rule>, stack: Seq<Node>) -> Seq<(NonTerminal, Seq<Node>)> {
    found.map_values(|rule: Rule| (rule.head, stack.skip(stack.len() - rule.body.len())))
}

/// Whether `node` alone on the stack counts as a completed parse: a shifted
/// terminal, or a tree under the starting symbol.
pub open spec fn acceptable(node: Node, start: NonTerminal) -> bool {
    match node {
        Node::Leaf(_) => true,
        Node::Branch { head, .. } => head == start,
    }
}

/// What the machine makes of a stack on which it stopped: an ambiguity when
/// two or more productions match, the one value when the stack holds exactly
/// one acceptable value, and a rejection otherwise.
pub open spec fn judged(rules: Seq<Rule>, start: NonTerminal, stack: Seq<Node>) -> Result<
    Node,
    Failure,
> {
    let found = candidates(rules, stack);
    if found.len() > 1 {
        Err(Failure::Ambiguous(reports(found, stack)))
    } else if stack.len() == 1 && acceptable(stack[0], start) {
        Ok(stack[0])
    } else {
        Err(Failure::Rejected(stack))
    }
}

/// How the parse of `tokens` ends, for an input on which the machine stops.
pub open spec fn outcome(rules: Seq<Rule>, start: NonTerminal, tokens: Seq<Terminal>) -> Result<
    Node,
    Failure,
> {
    judged(rules, start, rest(rules, tokens, initial()).stack)
}

/// A run can be cut in two.
pub proof fn lemma_run_split(
    rules: Seq<Rule>,
    tokens: Seq<Terminal>,
    state: State,
    first: nat,
    second: nat,
)
    ensures
        run(rules, tokens, state, first + second) == run(
            rules,
            tokens,
            run(rules, tokens, state, first),
            second,
        ),
    decreases first,
{
    if first > 0 {
        lemma_run_split(rules, tokens, next(rules, tokens, state), (first - 1) as nat, second);
    }
}

/// One more step of a run is a step from where the run ended.
pub proof fn lemma_run_step(rules: Seq<Rule>, tokens: Seq<Terminal>, state: State, steps: nat)
    ensures
        run(rules, tokens, state, steps + 1) == next(
            rules,
            tokens,
            run(rules, tokens, state, steps),
        ),
{
    lemma_run_split(rules, tokens, state, steps, 1);
    let reached = run(rules, tokens, state, steps);
    assert(run(rules, tokens, reached, 1) == run(rules, tokens, next(rules, tokens, reached), 0));
}

/// Once stopped, the machine stays where it is.
pub proof fn lemma_halted_stays(rules: Seq<Rule>, tokens: Seq<Terminal>, state: State, steps: nat)
    requires
        halted(rules, tokens, state),
    ensures
        run(rules, tokens, state, steps) == state,
    decreases steps,
{
    if steps > 0 {
        lemma_halted_stays(rules, tokens, state, (steps - 1) as nat);
    }
}

/// Every state in which the machine stops after some steps is the state in
/// which it rests.
pub proof fn lemma_rest_unique(rules: Seq<Rule>, tokens: Seq<Terminal>, state: State, steps: nat)
    requires
        halted(rules, tokens, run(rules, tokens, state, steps)),
    ensures
        halts_from(rules, tokens, state),
        rest(rules, tokens, state) == run(rules, tokens, state, steps),
{
    let chosen = choose|n: nat| halted(rules, tokens, #[trigger] run(rules, tokens, state, n));
    if chosen <= steps {
        lemma_run_split(rules, tokens, state, chosen, (steps - chosen) as nat);
        lemma_halted_stays(
            rules,
            tokens,
            run(rules, tokens, state, chosen),
            (steps - chosen) as nat,
        );
    } else {
        lemma_run_split(rules, tokens, state, steps, (chosen - steps) as nat);
        lemma_halted_stays(
            rules,
            tokens,
            run(rules, tokens, state, steps),
            (chosen - steps) as nat,
        );
    }
}

/// The machine stops for the first time only once.
pub proof fn lemma_pace(rules: Seq<Rule>, tokens: Seq<Terminal>, steps: nat)
    requires
        stops_after(rules, tokens, steps),
    ensures
        pace(rules, tokens) == steps,
        halts(rules, tokens),
        rest(rules, tokens, initial()) == run(rules, tokens, initial(), steps),
{
    let chosen = pace(rules, tokens);
    assert(stops_after(rules, tokens, chosen));
    if chosen < steps {
        assert(!halted(rules, tokens, run(rules, tokens, initial(), chosen)));
    } else if steps < chosen {
        assert(!halted(rules, tokens, run(rules, tokens, initial(), steps)));
    }
    lemma_rest_unique(rules, tokens, initial(), steps);
}

} // verus!
