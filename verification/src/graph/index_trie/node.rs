//! The tree of an `IndexTrie`: its nodes, the keys they stand for, and the
//! invariant that insertion keeps.

use crate::bytes::{head, lemma_head_lt, lemma_lex_lt_prepend, lex_lt};
use crate::graph::index_trie::order::strictly_sorted;
use vstd::prelude::*;

verus! {

/// A node below the root.
///
/// A `NonLeaf` owns a non-empty prefix shared by all the keys below it, its
/// children, and the number of leaves below it. A `Leaf` owns what is left of
/// one key after the prefixes of the branches above it.
#[derive(Debug)]
pub enum Node {
    NonLeaf { prefix: Vec<u8>, children: Vec<Node>, len: usize },
    Leaf { rest: Vec<u8> },
}

/// `p` put in front of every key.
pub open spec fn prepend_all(p: Seq<u8>, keys: Seq<Seq<u8>>) -> Seq<Seq<u8>> {
    Seq::new(keys.len(), |i: int| p + keys[i])
}

impl Node {
    /// The head shared by every key of the node.
    pub open spec fn head(self) -> int {
        match self {
            Node::Leaf { rest } => head(rest@),
            Node::NonLeaf { prefix, .. } => head(prefix@),
        }
    }

    /// The keys of the node, in the order of its leaves.
    pub open spec fn keys(self) -> Seq<Seq<u8>>
        decreases self,
    {
        match self {
            Node::Leaf { rest } => seq![rest@],
            Node::NonLeaf { prefix, children, .. } => prepend_all(prefix@, list_keys(children@)),
        }
    }

    /// The invariant of a node: a branch has a non-empty prefix, at least two
    /// children in ascending order of their heads, and a size equal to the
    /// number of leaves below it.
    pub open spec fn wf(self) -> bool
        decreases self,
    {
        match self {
            Node::Leaf { .. } => true,
            Node::NonLeaf { prefix, children, len } => {
                &&& prefix@.len() > 0
                &&& children@.len() >= 2
                &&& list_wf(children@)
                &&& len == list_keys(children@).len()
            },
        }
    }
}

/// The keys of a list of siblings, in the order of their leaves.
pub open spec fn list_keys(nodes: Seq<Node>) -> Seq<Seq<u8>>
    decreases nodes,
{
    if nodes.len() == 0 {
        Seq::empty()
    } else {
        list_keys(nodes.drop_last()) + nodes.last().keys()
    }
}

/// The invariant of a list of siblings: each is well formed, and their heads
/// ascend strictly, so that no two share a first byte and an empty leaf can
/// only stand first.
pub open spec fn list_wf(nodes: Seq<Node>) -> bool
    decreases nodes,
{
    &&& forall|i: int| 0 <= i < nodes.len() ==> (#[trigger] nodes[i]).wf()
    &&& forall|i: int, j: int|
        0 <= i < j < nodes.len() ==> (#[trigger] nodes[i]).head() < (#[trigger] nodes[j]).head()
}

/// Keys of siblings follow one another list by list.
pub(crate) proof fn lemma_list_keys_concat(a: Seq<Node>, b: Seq<Node>)
    ensures
        list_keys(a + b) == list_keys(a) + list_keys(b),
    decreases b.len(),
{
    if b.len() == 0 {
        assert(a + b =~= a);
        assert(list_keys(a) + list_keys(b) =~= list_keys(a));
    } else {
        assert((a + b).drop_last() =~= a + b.drop_last());
        assert((a + b).last() == b.last());
        lemma_list_keys_concat(a, b.drop_last());
        assert(list_keys(a + b) =~= list_keys(a) + list_keys(b));
    }
}

/// A list of one node has the keys of that node.
pub(crate) proof fn lemma_list_keys_one(n: Node)
    ensures
        list_keys(seq![n]) == n.keys(),
{
    let s = seq![n];
    assert(s.drop_last() =~= Seq::<Node>::empty());
    assert(list_keys(s.drop_last()) =~= Seq::<Seq<u8>>::empty());
    assert(s.last() == n);
    assert(list_keys(s) =~= n.keys());
}

/// The keys of a list, split around its node `i`.
pub(crate) proof fn lemma_list_keys_split(nodes: Seq<Node>, i: int)
    requires
        0 <= i < nodes.len(),
    ensures
        list_keys(nodes) == list_keys(nodes.take(i)) + nodes[i].keys() + list_keys(
            nodes.skip(i + 1),
        ),
        list_keys(nodes.take(i + 1)) == list_keys(nodes.take(i)) + nodes[i].keys(),
{
    assert(nodes =~= nodes.take(i) + seq![nodes[i]] + nodes.skip(i + 1));
    assert(nodes.take(i + 1) =~= nodes.take(i) + seq![nodes[i]]);
    lemma_list_keys_one(nodes[i]);
    lemma_list_keys_concat(nodes.take(i), seq![nodes[i]]);
    lemma_list_keys_concat(nodes.take(i) + seq![nodes[i]], nodes.skip(i + 1));
}

/// A well-formed node has a key, and all its keys have the node's head.
pub(crate) proof fn lemma_node_keys_head(n: Node)
    requires
        n.wf(),
    ensures
        n.keys().len() >= 1,
        forall|g: int| 0 <= g < n.keys().len() ==> head(#[trigger] n.keys()[g]) == n.head(),
    decreases n,
{
    match n {
        Node::Leaf { rest } => {},
        Node::NonLeaf { prefix, children, len } => {
            let c = children@;
            lemma_list_keys_split(c, 0);
            lemma_node_keys_head(c[0]);
        },
    }
}

/// Each key of a list of well-formed nodes has the head of one of them.
pub(crate) proof fn lemma_key_owner(nodes: Seq<Node>, g: int) -> (i: int)
    requires
        forall|i: int| 0 <= i < nodes.len() ==> (#[trigger] nodes[i]).wf(),
        0 <= g < list_keys(nodes).len(),
    ensures
        0 <= i < nodes.len(),
        head(list_keys(nodes)[g]) == nodes[i].head(),
    decreases nodes.len(),
{
    let front = list_keys(nodes.drop_last());
    if g < front.len() {
        lemma_key_owner(nodes.drop_last(), g)
    } else {
        lemma_node_keys_head(nodes.last());
        assert(list_keys(nodes)[g] == nodes.last().keys()[g - front.len()]);
        nodes.len() - 1
    }
}

/// The keys of a well-formed node ascend strictly.
pub(crate) proof fn lemma_node_keys_sorted(n: Node)
    requires
        n.wf(),
    ensures
        strictly_sorted(n.keys()),
    decreases n, 0nat,
{
    match n {
        Node::Leaf { rest } => {},
        Node::NonLeaf { prefix, children, len } => {
            lemma_list_keys_sorted(children@);
            let ck = list_keys(children@);
            assert forall|i: int, j: int| 0 <= i < j < n.keys().len() implies lex_lt(
                #[trigger] n.keys()[i],
                #[trigger] n.keys()[j],
            ) by {
                assert(lex_lt(ck[i], ck[j]));
                lemma_lex_lt_prepend(prefix@, ck[i], ck[j]);
            }
        },
    }
}

/// The keys of a well-formed list of siblings ascend strictly.
pub(crate) proof fn lemma_list_keys_sorted(nodes: Seq<Node>)
    requires
        list_wf(nodes),
    ensures
        strictly_sorted(list_keys(nodes)),
    decreases nodes, nodes.len(),
{
    if nodes.len() > 0 {
        let front = nodes.drop_last();
        let fk = list_keys(front);
        let lk = nodes.last().keys();
        assert(list_wf(front));
        lemma_list_keys_sorted(front);
        lemma_node_keys_sorted(nodes.last());
        lemma_node_keys_head(nodes.last());
        let keys = list_keys(nodes);
        assert forall|i: int, j: int| 0 <= i < j < keys.len() implies lex_lt(
            #[trigger] keys[i],
            #[trigger] keys[j],
        ) by {
            if j < fk.len() {
                assert(lex_lt(fk[i], fk[j]));
            } else if i >= fk.len() {
                assert(lex_lt(lk[i - fk.len()], lk[j - fk.len()]));
            } else {
                let o = lemma_key_owner(front, i);
                assert(front[o] == nodes[o]);
                assert(head(lk[j - fk.len()]) == nodes.last().head());
                lemma_head_lt(keys[i], keys[j]);
            }
        }
    }
}

/// A key with a head no larger than that of node `j` is not among the keys
/// of the nodes behind `j`.
pub(crate) proof fn lemma_not_in_later(nodes: Seq<Node>, j: int, k: Seq<u8>)
    requires
        list_wf(nodes),
        0 <= j < nodes.len(),
        head(k) <= nodes[j].head(),
    ensures
        !list_keys(nodes.skip(j + 1)).contains(k),
{
    let later = nodes.skip(j + 1);
    let lk = list_keys(later);
    if lk.contains(k) {
        let g = choose|g: int| 0 <= g < lk.len() && lk[g] == k;
        let o = lemma_key_owner(later, g);
        assert(later[o] == nodes[j + 1 + o]);
    }
}

/// A key that is in none of three parts is not in the three put together.
pub(crate) proof fn lemma_not_in_parts(a: Seq<Seq<u8>>, b: Seq<Seq<u8>>, c: Seq<Seq<u8>>, k: Seq<u8>)
    requires
        !a.contains(k),
        !b.contains(k),
        !c.contains(k),
    ensures
        !(a + b + c).contains(k),
        !(a + b).contains(k),
{
    let all = a + b + c;
    assert forall|g: int| 0 <= g < all.len() implies all[g] != k by {
        if g < a.len() {
            assert(a[g] != k);
        } else if g < a.len() + b.len() {
            assert(b[g - a.len()] != k);
        } else {
            assert(c[g - a.len() - b.len()] != k);
        }
    }
    let two = a + b;
    assert forall|g: int| 0 <= g < two.len() implies two[g] != k by {
        if g < a.len() {
            assert(a[g] != k);
        } else {
            assert(b[g - a.len()] != k);
        }
    }
}

/// A key is below a branch just when it starts with the branch's prefix and
/// goes on with a key of the children.
pub(crate) proof fn lemma_branch_contains(prefix: Seq<u8>, ck: Seq<Seq<u8>>, k: Seq<u8>)
    ensures
        prepend_all(prefix, ck).contains(k) <==> (prefix.len() <= k.len() && k.take(
            prefix.len() as int,
        ) == prefix && ck.contains(k.skip(prefix.len() as int))),
{
    let keys = prepend_all(prefix, ck);
    let n = prefix.len() as int;
    if keys.contains(k) {
        let g = choose|g: int| 0 <= g < keys.len() && keys[g] == k;
        assert(k == prefix + ck[g]);
        assert(k.take(n) =~= prefix);
        assert(k.skip(n) =~= ck[g]);
    }
    if prefix.len() <= k.len() && k.take(n) == prefix && ck.contains(k.skip(n)) {
        let g = choose|g: int| 0 <= g < ck.len() && ck[g] == k.skip(n);
        assert(k =~= k.take(n) + k.skip(n));
        assert(keys[g] == k);
    }
}

impl Node {
    /// The number of leaves of the node.
    pub fn len(&self) -> (n: usize)
        requires
            self.wf(),
        ensures
            n == self.keys().len(),
    {
        match self {
            Node::NonLeaf { prefix: _, children: _, len } => *len,
            Node::Leaf { rest: _ } => 1,
        }
    }
}

/// A key with the head of none of the nodes is not among their keys.
pub(crate) proof fn lemma_not_in_heads(nodes: Seq<Node>, k: Seq<u8>)
    requires
        forall|i: int| 0 <= i < nodes.len() ==> (#[trigger] nodes[i]).wf(),
        forall|i: int| 0 <= i < nodes.len() ==> (#[trigger] nodes[i]).head() != head(k),
    ensures
        !list_keys(nodes).contains(k),
{
    let keys = list_keys(nodes);
    if keys.contains(k) {
        let g = choose|g: int| 0 <= g < keys.len() && keys[g] == k;
        let o = lemma_key_owner(nodes, g);
    }
}

/// The first byte of the keys of a node, `None` for the leaf without bytes.
pub(crate) fn first_byte(n: &Node) -> (b: Option<u8>)
    requires
        n.wf(),
    ensures
        match b {
            Some(h) => n.head() == h,
            None => n.head() == -1,
        },
{
    match n {
        Node::Leaf { rest } => if rest.len() == 0 {
            None
        } else {
            Some(rest[0])
        },
        Node::NonLeaf { prefix, .. } => Some(prefix[0]),
    }
}

/// Whether two nodes are the same tree.
pub open spec fn same_shape(a: Node, b: Node) -> bool
    decreases a,
{
    match a {
        Node::Leaf { rest } => b matches Node::Leaf { rest: other } && rest@ == other@,
        Node::NonLeaf { prefix, children, len } => b matches Node::NonLeaf {
            prefix: other_prefix,
            children: other_children,
            len: other_len,
        } && prefix@ == other_prefix@ && len == other_len && same_list_shape(
            children@,
            other_children@,
        ),
    }
}

/// Whether two lists of siblings are the same trees, one by one.
pub open spec fn same_list_shape(a: Seq<Node>, b: Seq<Node>) -> bool
    decreases a,
{
    a.len() == b.len() && forall|i: int| 0 <= i < a.len() ==> same_shape(#[trigger] a[i], b[i])
}

impl Clone for Node {
    /// A copy of the node and of all below it.
    fn clone(&self) -> (copy: Self)
        ensures
            same_shape(*self, copy),
        decreases self,
    {
        match self {
            Node::Leaf { rest } => Node::Leaf { rest: rest.clone() },
            Node::NonLeaf { prefix, children, len } => {
                let mut copies: Vec<Node> = Vec::new();
                let mut i: usize = 0;
                while i < children.len()
                    invariant
                        i <= children@.len(),
                        copies@.len() == i,
                        *self is NonLeaf,
                        self->children == *children,
                        forall|j: int|
                            0 <= j < i ==> same_shape(
                                #[trigger] children@[j],
                                copies@[j],
                            ),
                    decreases children@.len() - i,
                {
                    copies.push(children[i].clone());
                    i += 1;
                }
                Node::NonLeaf { prefix: prefix.clone(), children: copies, len: *len }
            },
        }
    }
}

/// A copy of a list of siblings and of all below them.
pub(crate) fn clone_list(nodes: &Vec<Node>) -> (copies: Vec<Node>)
    ensures
        same_list_shape(nodes@, copies@),
{
    let mut copies: Vec<Node> = Vec::new();
    let mut i: usize = 0;
    while i < nodes.len()
        invariant
            i <= nodes@.len(),
            copies@.len() == i,
            forall|j: int| 0 <= j < i ==> same_shape(#[trigger] nodes@[j], copies@[j]),
        decreases nodes@.len() - i,
    {
        copies.push(nodes[i].clone());
        i += 1;
    }
    copies
}

} // verus!
