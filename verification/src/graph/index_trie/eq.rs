//! Equality of tries: two tries are equal when they have the same tree.

use crate::bytes::{compare, Order};
use crate::graph::index_trie::node::{same_list_shape, same_shape, Node};
use crate::graph::index_trie::shape::{lemma_list_shape, lemma_same_list_shape};
use crate::graph::index_trie::IndexTrie;
use vstd::prelude::*;
use vstd::std_specs::cmp::PartialEqSpecImpl;

verus! {

/// Whether two lists of siblings are the same trees, one by one.
fn same_list(a: &Vec<Node>, b: &Vec<Node>) -> (same: bool)
    ensures
        same == same_list_shape(a@, b@),
    decreases a,
{
    if a.len() != b.len() {
        return false;
    }
    let mut i: usize = 0;
    while i < a.len()
        invariant
            i <= a@.len(),
            a@.len() == b@.len(),
            forall|j: int| 0 <= j < i ==> same_shape(#[trigger] a@[j], b@[j]),
        decreases a@.len() - i,
    {
        if !same_node(&a[i], &b[i]) {
            return false;
        }
        i += 1;
    }
    true
}

/// Whether two nodes are the same tree.
fn same_node(a: &Node, b: &Node) -> (same: bool)
    ensures
        same == same_shape(*a, *b),
    decreases a,
{
    match a {
        Node::Leaf { rest } => match b {
            Node::Leaf { rest: other } => compare(rest.as_slice(), other.as_slice())
                == Order::Equal,
            Node::NonLeaf { .. } => false,
        },
        Node::NonLeaf { prefix, children, len } => match b {
            Node::Leaf { .. } => false,
            Node::NonLeaf { prefix: other_prefix, children: other_children, len: other_len } => {
                compare(prefix.as_slice(), other_prefix.as_slice()) == Order::Equal && *len
                    == *other_len && same_list(children, other_children)
            },
        },
    }
}

impl PartialEq for Node {
    fn eq(&self, other: &Self) -> (same: bool) {
        same_node(self, other)
    }
}

impl PartialEqSpecImpl for Node {
    open spec fn obeys_eq_spec() -> bool {
        true
    }

    open spec fn eq_spec(&self, other: &Self) -> bool {
        same_shape(*self, *other)
    }
}

impl Eq for Node {

}

impl IndexTrie {
    /// Whether two tries have the same tree and the same number of strings.
    pub closed spec fn same_tree(&self, other: &Self) -> bool {
        same_list_shape(self.roots@, other.roots@) && self.len == other.len
    }
}

impl PartialEq for IndexTrie {
    fn eq(&self, other: &Self) -> (same: bool) {
        self.len == other.len && same_list(&self.roots, &other.roots)
    }
}

impl PartialEqSpecImpl for IndexTrie {
    open spec fn obeys_eq_spec() -> bool {
        true
    }

    open spec fn eq_spec(&self, other: &Self) -> bool {
        self.same_tree(other)
    }
}

impl Eq for IndexTrie {

}

/// Two well-formed tries are equal, which is to have the same tree, just when
/// they have the same strings.
pub proof fn lemma_equal_tries(a: IndexTrie, b: IndexTrie)
    requires
        a.wf(),
        b.wf(),
    ensures
        a.same_tree(&b) <==> a@ == b@,
{
    a.lemma_roots();
    b.lemma_roots();
    if a@ == b@ {
        lemma_list_shape(a.roots@, b.roots@);
    }
    if a.same_tree(&b) {
        lemma_same_list_shape(a.roots@, b.roots@);
    }
}

} // verus!
