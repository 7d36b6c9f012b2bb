//! The language of a grammar, told by its parse trees, and what the
//! recognizer's stack has to do with it.
use vstd::prelude::*;
use crate::grammar::Rule;
use crate::model::{applies, candidates, reduced, initial, next, run, State};
use crate::symbol::{NonTerminal, Terminal};
use crate::tree::Node;

verus! {

/// The terminals at the leaves of `node`, left to right.
pub open spec fn frontier(node: Node) -> Seq<Terminal>
    decreases node,
{
    match node {
        Node::Leaf(t) => seq![t],
        Node::Branch { children, .. } => frontier_of(children),
    }
}

/// The terminals at the leaves of a row of trees, left to right.
pub open spec fn frontier_of(row: Seq<Node>) -> Seq<Terminal>
    decreases row,
{
    if row.len() == 0 {
        Seq::empty()
    } else {
        frontier_of(row.drop_last()) + frontier(row.last())
    }
}

/// Whether `rule` produces `head` from exactly the row `children`: it has
/// one slot for each child, and each child fits its slot.
pub open spec fn produces(rule: Rule, head: NonTerminal, children: Seq<Node>) -> bool {
    &&& rule.head == head
    &&& rule.body.len() == children.len()
    &&& applies(rule, children)
}

/// Whether `node` is a parse tree of the grammar: every tree in it was
/// built by one of `rules`, with as many children as the production has
/// slots and each child of the kind that its slot asks for.
pub open spec fn derived(node: Node, rules: Seq<Rule>) -> bool
    decreases node,
{
    match node {
        Node::Leaf(_) => true,
        Node::Branch { head, children } => {
            &&& exists|i: int| 0 <= i < rules.len() && produces(#[trigger] rules[i], head, children)
            &&& forall|k: int| 0 <= k < children.len() ==> derived(#[trigger] children[k], rules)
        },
    }
}

/// Whether the grammar generates `tokens` from `start`: some parse tree
/// under `start` has exactly these terminals at its leaves.
pub open spec fn in_language(rules: Seq<Rule>, start: NonTerminal, tokens: Seq<Terminal>) -> bool {
    exists|tree: Node|
        {
            &&& tree is Branch
            &&& tree->head == start
            &&& derived(tree, rules)
            &&& #[trigger] frontier(tree) == tokens
        }
}

/// Whether a state is faithful to the input: the stack holds parse trees of
/// the grammar, and their leaves are the tokens shifted so far.
pub open spec fn faithful(rules: Seq<Rule>, tokens: Seq<Terminal>, state: State) -> bool {
    &&& state.shifted <= tokens.len()
    &&& forall|i: int| 0 <= i < state.stack.len() ==> derived(#[trigger] state.stack[i], rules)
    &&& frontier_of(state.stack) == tokens.take(state.shifted as int)
}

/// The leaves of two rows, one after the other, are the leaves of the first
/// and then those of the second.
pub proof fn lemma_frontier_concat(first: Seq<Node>, second: Seq<Node>)
    ensures
        frontier_of(first + second) == frontier_of(first) + frontier_of(second),
    decreases second.len(),
{
    if second.len() == 0 {
        assert(first + second == first);
        assert(frontier_of(first) + Seq::<Terminal>::empty() == frontier_of(first));
    } else {
        lemma_frontier_concat(first, second.drop_last());
        assert((first + second).drop_last() == first + second.drop_last());
        assert((first + second).last() == second.last());
        assert((frontier_of(first) + frontier_of(second.drop_last())) + frontier(second.last())
            == frontier_of(first) + (frontier_of(second.drop_last()) + frontier(second.last())));
    }
}

/// A candidate is one of the rules, and it matches.
pub proof fn lemma_candidate(rules: Seq<Rule>, stack: Seq<Node>, k: int)
    requires
        0 <= k < candidates(rules, stack).len(),
    ensures
        applies(candidates(rules, stack)[k], stack),
        rules.contains(candidates(rules, stack)[k]),
{
    let matching = |rule: Rule| applies(rule, stack);
    rules.lemma_filter_pred(matching, k);
    let found = rules.filter(matching);
    assert(found.contains(found[k]));
    rules.lemma_filter_contains_rev(matching, found[k]);
}

/// Reducing by a production that matches keeps the stack's trees parse trees
/// and its leaves in place.
pub proof fn lemma_reduce_faithful(rules: Seq<Rule>, stack: Seq<Node>, rule: Rule)
    requires
        rules.contains(rule),
        applies(rule, stack),
        forall|i: int| 0 <= i < stack.len() ==> derived(#[trigger] stack[i], rules),
    ensures
        forall|i: int|
            0 <= i < reduced(stack, rule.body.len() as int, rule.head).len() ==> derived(
                #[trigger] reduced(stack, rule.body.len() as int, rule.head)[i],
                rules,
            ),
        frontier_of(reduced(stack, rule.body.len() as int, rule.head)) == frontier_of(stack),
{
    let len = rule.body.len() as int;
    let base = stack.len() - len;
    let kept = stack.take(base);
    let children = stack.skip(base);
    let tree = Node::Branch { head: rule.head, children };
    let after = reduced(stack, len, rule.head);
    assert(after == kept.push(tree));
    assert(produces(rule, rule.head, children)) by {
        assert forall|k: int| 0 <= k < rule.body.len() implies children[children.len()
            - rule.body.len() + k].fits(#[trigger] rule.body[k]) by {
            assert(children[k] == stack[stack.len() - rule.body.len() + k]);
        }
    }
    let at = choose|i: int| 0 <= i < rules.len() && rules[i] == rule;
    assert(produces(rules[at], rule.head, children));
    assert forall|k: int| 0 <= k < children.len() implies derived(
        #[trigger] children[k],
        rules,
    ) by {
        assert(children[k] == stack[base + k]);
    }
    assert(derived(tree, rules));
    assert forall|i: int| 0 <= i < after.len() implies derived(#[trigger] after[i], rules) by {
        if i < base {
            assert(after[i] == stack[i]);
        }
    }
    assert(stack == kept + children);
    lemma_frontier_concat(kept, children);
    assert(kept.push(tree).drop_last() == kept);
    assert(frontier(tree) == frontier_of(children));
}

/// A step of the machine keeps a faithful state faithful.
pub proof fn lemma_next_faithful(rules: Seq<Rule>, tokens: Seq<Terminal>, state: State)
    requires
        faithful(rules, tokens, state),
    ensures
        faithful(rules, tokens, next(rules, tokens, state)),
{
    let found = candidates(rules, state.stack);
    if found.len() == 1 {
        lemma_candidate(rules, state.stack, 0);
        lemma_reduce_faithful(rules, state.stack, found[0]);
    } else if found.len() == 0 && state.shifted < tokens.len() {
        let leaf = Node::Leaf(tokens[state.shifted as int]);
        let after = state.stack.push(leaf);
        assert(after.drop_last() == state.stack);
        assert(frontier(leaf) == seq![tokens[state.shifted as int]]);
        assert(tokens.take(state.shifted as int + 1) == tokens.take(state.shifted as int) + seq![
            tokens[state.shifted as int],
        ]);
        assert forall|i: int| 0 <= i < after.len() implies derived(#[trigger] after[i], rules) by {
            if i < state.stack.len() {
                assert(after[i] == state.stack[i]);
            }
        }
    }
}

/// Every state of a run that starts faithful is faithful.
pub proof fn lemma_run_faithful(
    rules: Seq<Rule>,
    tokens: Seq<Terminal>,
    state: State,
    steps: nat,
)
    requires
        faithful(rules, tokens, state),
    ensures
        faithful(rules, tokens, run(rules, tokens, state, steps)),
    decreases steps,
{
    if steps > 0 {
        lemma_next_faithful(rules, tokens, state);
        lemma_run_faithful(rules, tokens, next(rules, tokens, state), (steps - 1) as nat);
    }
}

/// The state before anything is shifted is faithful.
pub proof fn lemma_initial_faithful(rules: Seq<Rule>, tokens: Seq<Terminal>)
    ensures
        faithful(rules, tokens, initial()),
{
    assert(tokens.take(0) == Seq::<Terminal>::empty());
}

} // verus!
