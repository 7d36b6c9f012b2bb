//! The values that a parse keeps on its stack, and the trees they stand for.
use vstd::prelude::*;
use crate::symbol::{Expression, NonTerminal, Terminal};

verus! {

/// The mathematical value of a stack entry: a shifted terminal, or a tree
/// that a reduction built.
pub enum Node {
    /// A shifted terminal.
    Leaf(Terminal),
    /// A tree under `head` with the row `children` below it.
    Branch { head: NonTerminal, children: Seq<Node> },
}

/// An entry of the parse stack.
#[derive(Debug)]
pub enum StackValue {
    /// A completed reduction: the non-terminal it reduced to, and the
    /// entries it consumed, left to right.
    Tree { head: NonTerminal, values: Vec<StackValue> },
    /// A shifted token.
    Terminal(Terminal),
}

impl View for StackValue {
    type V = Node;

    open spec fn view(&self) -> Node
        decreases self,
    {
        match self {
            StackValue::Terminal(t) => Node::Leaf(*t),
            StackValue::Tree { head, values } => Node::Branch {
                head: *head,
                children: Seq::new(
                    values.len() as nat,
                    |i: int|
                        if 0 <= i < values.len() {
                            proof {
                                vstd::std_specs::vec::axiom_vec_index_decreases(*values, i);
                            }
                            values[i]@
                        } else {
                            // Outside the row: never read.
                            Node::Leaf(Terminal::Zero)
                        },
                ),
            },
        }
    }
}

/// The values of a run of stack entries.
pub open spec fn nodes(entries: Seq<StackValue>) -> Seq<Node> {
    entries.map_values(|v: StackValue| v@)
}

impl Node {
    /// Whether the entry can stand in the slot `slot` of a production: a tree
    /// in a non-terminal slot of its own head, a terminal in a slot of the
    /// same terminal.
    pub open spec fn fits(self, slot: Expression) -> bool {
        match (self, slot) {
            (Node::Branch { head, .. }, Expression::NonTerminal(n)) => head == n,
            (Node::Leaf(t), Expression::Terminal(u)) => t == u,
            _ => false,
        }
    }
}

impl StackValue {
    /// Whether the entry can stand in the slot `slot` of a production.
    pub fn fits(&self, slot: &Expression) -> (yes: bool)
        ensures
            yes == self@.fits(*slot),
    {
        match (self, slot) {
            (StackValue::Tree { head, values: _ }, Expression::NonTerminal(n)) => *head == *n,
            (StackValue::Terminal(t), Expression::Terminal(u)) => *t == *u,
            _ => false,
        }
    }
}

/// A tree's children are the values of the entries it holds.
pub proof fn lemma_tree_view(head: NonTerminal, values: Vec<StackValue>)
    ensures
        (StackValue::Tree { head, values })@ == (Node::Branch { head, children: nodes(values@) }),
{
    let tree = StackValue::Tree { head, values };
    assert(tree@->children =~= nodes(values@));
}

impl Clone for StackValue {
    /// A copy of the entry and of everything below it.
    fn clone(&self) -> (copy: Self)
        ensures
            copy@ == self@,
        decreases self,
    {
        match self {
            StackValue::Terminal(t) => StackValue::Terminal(*t),
            StackValue::Tree { head, values } => {
                let mut copies: Vec<StackValue> = Vec::new();
                let mut i: usize = 0;
                while i < values.len()
                    invariant
                        *self == (StackValue::Tree { head: *head, values: *values }),
                        i <= values.len(),
                        copies@.len() == i,
                        forall|k: int| 0 <= k < i ==> (#[trigger] copies@[k])@ == values@[k]@,
                    decreases values.len() - i,
                {
                    proof {
                        assert(self->values == *values);
                        vstd::std_specs::vec::axiom_vec_index_decreases(*values, i as int);
                    }
                    let child = values[i].clone();
                    copies.push(child);
                    i += 1;
                }
                proof {
                    lemma_tree_view(*head, *values);
                    lemma_tree_view(*head, copies);
                    assert(nodes(copies@) =~= nodes(values@));
                }
                StackValue::Tree { head: *head, values: copies }
            },
        }
    }
}

/// A copy of the last `len` entries of `stack`.
pub fn copy_tail(stack: &Vec<StackValue>, len: usize) -> (tail: Vec<StackValue>)
    requires
        len <= stack.len(),
    ensures
        nodes(tail@) == nodes(stack@).skip(stack.len() - len),
{
    let base = stack.len() - len;
    let mut tail: Vec<StackValue> = Vec::new();
    let mut i: usize = 0;
    while i < len
        invariant
            i <= len,
            base + len == stack.len(),
            tail@.len() == i,
            forall|k: int| 0 <= k < i ==> (#[trigger] tail@[k])@ == stack@[base + k]@,
        decreases len - i,
    {
        tail.push(stack[base + i].clone());
        i += 1;
    }
    assert(nodes(tail@) =~= nodes(stack@).skip(stack.len() - len));
    tail
}

} // verus!
