//! Adding a key to the tree of an `IndexTrie`.
//!
//! A key goes down the tree by its bytes. Among siblings it passes the nodes
//! with a smaller first byte. Where it meets none with its own first byte it
//! becomes a new leaf in its place among them. Where it meets one, it either
//! goes on below that branch, or it parts from the bytes of the node, which
//! is then split at the point where the two part.

use crate::bytes::{common_prefix, head};
use crate::graph::index_trie::node::{
    first_byte, lemma_branch_contains, lemma_list_keys_concat, lemma_list_keys_one,
    lemma_list_keys_split, lemma_node_keys_head, lemma_not_in_heads, lemma_not_in_later,
    lemma_not_in_parts, list_keys, list_wf, prepend_all, Node,
};
use vstd::prelude::*;
use vstd::slice::{slice_subrange, slice_to_vec};

verus! {

/// The keys of two leaves side by side.
proof fn lemma_list_keys_pair(a: Node, b: Node)
    ensures
        list_keys(seq![a, b]) == a.keys() + b.keys(),
{
    assert(seq![a, b] =~= seq![a] + seq![b]);
    lemma_list_keys_concat(seq![a], seq![b]);
    lemma_list_keys_one(a);
    lemma_list_keys_one(b);
}

/// A leaf that holds a copy of `rest`.
fn leaf(rest: &[u8]) -> (n: Node)
    ensures
        n matches Node::Leaf { rest: r } && r@ == rest@,
{
    Node::Leaf { rest: slice_to_vec(rest) }
}

/// What putting a leaf for `k` in front of node `j` does, where the nodes in
/// front of it have smaller heads than `k` and those from `j` on larger ones.
proof fn lemma_insert_leaf(nodes: Seq<Node>, j: int, new_leaf: Node, k: Seq<u8>)
    requires
        list_wf(nodes),
        0 <= j <= nodes.len(),
        new_leaf matches Node::Leaf { rest } && rest@ == k,
        forall|i: int| 0 <= i < j ==> (#[trigger] nodes[i]).head() < head(k),
        forall|i: int| j <= i < nodes.len() ==> (#[trigger] nodes[i]).head() > head(k),
    ensures
        list_wf(nodes.insert(j, new_leaf)),
        !list_keys(nodes).contains(k),
        list_keys(nodes.take(j)).len() <= list_keys(nodes).len(),
        list_keys(nodes.insert(j, new_leaf)) == list_keys(nodes).insert(
            list_keys(nodes.take(j)).len() as int,
            k,
        ),
{
    let front = nodes.take(j);
    let back = nodes.skip(j);
    let after = nodes.insert(j, new_leaf);
    assert(nodes =~= front + back);
    assert(after =~= front + seq![new_leaf] + back);
    lemma_list_keys_concat(front, back);
    lemma_list_keys_concat(front, seq![new_leaf]);
    lemma_list_keys_concat(front + seq![new_leaf], back);
    lemma_list_keys_one(new_leaf);
    assert(new_leaf.keys() =~= seq![k]);
    assert(list_keys(after) =~= list_keys(nodes).insert(list_keys(front).len() as int, k));
    lemma_not_in_heads(nodes, k);
    assert forall|a: int, b: int| 0 <= a < b < after.len() implies (#[trigger] after[a]).head() < (
    #[trigger] after[b]).head() by {
        let oa = if a < j { a } else { a - 1 };
        let ob = if b < j { b } else { b - 1 };
        if a != j && b != j {
            assert(nodes[oa].head() < nodes[ob].head());
        } else if a == j {
            assert(nodes[ob].head() > head(k));
        } else {
            assert(nodes[oa].head() < head(k));
        }
    }
    assert forall|i: int| 0 <= i < after.len() implies (#[trigger] after[i]).wf() by {
        if i < j {
            assert(nodes[i].wf());
        } else if i > j {
            assert(nodes[i - 1].wf());
        }
    }
}

/// What adding `k` below node `j` does to the keys of the list, where `k` has
/// the head of that node.
proof fn lemma_replace_node(nodes: Seq<Node>, j: int, new_node: Node, k: Seq<u8>, p: int)
    requires
        list_wf(nodes),
        0 <= j < nodes.len(),
        new_node.wf(),
        new_node.head() == nodes[j].head(),
        head(k) == nodes[j].head(),
        0 <= p <= nodes[j].keys().len(),
        new_node.keys() == nodes[j].keys().insert(p, k) || new_node.keys() == nodes[j].keys(),
    ensures
        list_wf(nodes.update(j, new_node)),
        list_keys(nodes).contains(k) <==> nodes[j].keys().contains(k),
        new_node.keys() == nodes[j].keys() ==> list_keys(nodes.update(j, new_node)) == list_keys(
            nodes,
        ),
        list_keys(nodes.take(j)).len() + nodes[j].keys().len() <= list_keys(nodes).len(),
        new_node.keys() == nodes[j].keys().insert(p, k) ==> list_keys(nodes.update(j, new_node))
            == list_keys(nodes).insert(list_keys(nodes.take(j)).len() + p, k),
{
    let after = nodes.update(j, new_node);
    let before = list_keys(nodes.take(j));
    let here = nodes[j].keys();
    let later = list_keys(nodes.skip(j + 1));
    lemma_list_keys_split(nodes, j);
    lemma_list_keys_split(after, j);
    assert(after.take(j) =~= nodes.take(j));
    assert(after.skip(j + 1) =~= nodes.skip(j + 1));
    if new_node.keys() == here.insert(p, k) {
        assert(list_keys(after) =~= list_keys(nodes).insert(before.len() + p, k));
    }
    assert forall|i: int| 0 <= i < j implies (#[trigger] nodes.take(j)[i]).head() != head(k) by {
        assert(nodes[i].head() < nodes[j].head());
    }
    lemma_not_in_heads(nodes.take(j), k);
    lemma_not_in_later(nodes, j, k);
    if here.contains(k) {
        let g = choose|g: int| 0 <= g < here.len() && here[g] == k;
        assert(list_keys(nodes)[before.len() + g] == k);
    } else {
        lemma_not_in_parts(before, here, later, k);
    }
    assert forall|a: int, b: int| 0 <= a < b < after.len() implies (#[trigger] after[a]).head() < (
    #[trigger] after[b]).head() by {
        assert(nodes[a].head() < nodes[b].head());
    }
    assert forall|i: int| 0 <= i < after.len() implies (#[trigger] after[i]).wf() by {
        if i != j {
            assert(nodes[i].wf());
        }
    }
}

/// The branch that takes the place of a leaf `old_rest` when the key `k`,
/// another key with the same first byte, is added: its prefix is what the two
/// share, and its children are leaves for what is left of each.
proof fn lemma_split_leaf(old_rest: Seq<u8>, k: Seq<u8>, c: int, res: Node, k_first: bool)
    requires
        0 < c <= k.len(),
        c <= old_rest.len(),
        k.take(c) == old_rest.take(c),
        c < k.len() || c < old_rest.len(),
        c < k.len() && c < old_rest.len() ==> k[c] != old_rest[c],
        k_first <==> (k.len() == c || (old_rest.len() != c && k[c] < old_rest[c])),
        res matches Node::NonLeaf { prefix, children, len } && {
            &&& prefix@ == old_rest.take(c)
            &&& len == 2
            &&& children@.len() == 2
            &&& children@[if k_first { 0int } else { 1int }] matches Node::Leaf { rest } && rest@
                == k.skip(c)
            &&& children@[if k_first { 1int } else { 0int }] matches Node::Leaf { rest } && rest@
                == old_rest.skip(c)
        },
    ensures
        res.wf(),
        res.head() == head(k),
        !seq![old_rest].contains(k),
        res.keys() == seq![old_rest].insert(if k_first { 0int } else { 1int }, k),
{
    let prefix = res->prefix@;
    let children = res->children@;
    let kr = k.skip(c);
    let rr = old_rest.skip(c);
    assert(k =~= prefix + kr);
    assert(old_rest =~= prefix + rr);
    assert(prefix[0] == k.take(c)[0]);
    lemma_list_keys_pair(children[0], children[1]);
    assert(children =~= seq![children[0], children[1]]);
    let ck = list_keys(children);
    if k_first {
        assert(children[0].keys() =~= seq![kr]);
        assert(children[1].keys() =~= seq![rr]);
        assert(ck =~= seq![kr, rr]);
        assert(children[0].head() < children[1].head());
    } else {
        assert(children[0].keys() =~= seq![rr]);
        assert(children[1].keys() =~= seq![kr]);
        assert(ck =~= seq![rr, kr]);
        assert(children[0].head() < children[1].head());
    }
    assert(res.keys() =~= seq![old_rest].insert(if k_first { 0int } else { 1int }, k));
    if k == old_rest {
        assert(kr =~= rr);
    }
    assert(list_wf(children)) by {
        assert forall|i: int| 0 <= i < children.len() implies (#[trigger] children[i]).wf() by {
            assert(i == 0 || i == 1);
        }
    }
    assert(ck.len() == 2);
}

/// The branch that takes the place of a branch when a key `k` is added that
/// leaves the branch's prefix early: it keeps what the two share, and the old
/// children move below a new branch for the rest of the prefix.
proof fn lemma_split_branch(old: Node, k: Seq<u8>, c: int, res: Node, k_first: bool)
    requires
        old.wf(),
        old is NonLeaf,
        0 < c <= k.len(),
        c < old->prefix@.len(),
        k.take(c) == old->prefix@.take(c),
        c < k.len() ==> k[c] != old->prefix@[c],
        k_first <==> (k.len() == c || k[c] < old->prefix@[c]),
        res matches Node::NonLeaf { prefix, children, len } && {
            &&& prefix@ == old->prefix@.take(c)
            &&& len == old->len + 1
            &&& children@.len() == 2
            &&& children@[if k_first { 0int } else { 1int }] matches Node::Leaf { rest } && rest@
                == k.skip(c)
            &&& children@[if k_first { 1int } else { 0int }] matches Node::NonLeaf {
                prefix: tail,
                children: lower,
                len: lower_len,
            } && tail@ == old->prefix@.skip(c) && lower == old->children && lower_len == old->len
        },
    ensures
        res.wf(),
        res.head() == old.head(),
        !old.keys().contains(k),
        res.keys() == old.keys().insert(if k_first { 0int } else { old.keys().len() as int }, k),
{
    let old_prefix = old->prefix@;
    let ck = list_keys(old->children@);
    let prefix = res->prefix@;
    let children = res->children@;
    let kr = k.skip(c);
    let pr = old_prefix.skip(c);
    let lower = children[if k_first { 1int } else { 0int }];
    let new_leaf = children[if k_first { 0int } else { 1int }];
    assert(k =~= prefix + kr);
    assert(old_prefix =~= prefix + pr);
    assert(prefix[0] == old_prefix[0]);
    assert(lower.wf());
    lemma_list_keys_pair(children[0], children[1]);
    assert(children =~= seq![children[0], children[1]]);
    let lk = prepend_all(pr, ck);
    assert(lower.keys() == lk);
    assert(new_leaf.keys() =~= seq![kr]);
    let kk = list_keys(children);
    assert(kk =~= if k_first { seq![kr] + lk } else { lk + seq![kr] });
    assert(children[0].head() < children[1].head());
    let old_keys = old.keys();
    assert forall|g: int| 0 <= g < ck.len() implies prefix + #[trigger] lk[g] == old_keys[g] by {
        assert(prefix + (pr + ck[g]) =~= old_prefix + ck[g]);
    }
    assert(res.keys() =~= old_keys.insert(if k_first { 0int } else { old_keys.len() as int }, k));
    lemma_branch_contains(old_prefix, ck, k);
    if old_prefix.len() <= k.len() && k.take(old_prefix.len() as int) == old_prefix {
        assert(k.take(old_prefix.len() as int)[c] == k[c]);
    }
    assert(list_wf(children)) by {
        assert forall|i: int| 0 <= i < children.len() implies (#[trigger] children[i]).wf() by {
            assert(i == 0 || i == 1);
        }
    }
    assert(kk.len() == ck.len() + 1);
}

/// Adds the key `k` below a node whose keys begin with the byte `k` begins
/// with. Returns the node with the key added, whether the key was new, and
/// the rank at which it then stands among the keys of the node.
fn insert_node(node: Node, k: &[u8]) -> (r: (Node, bool, Ghost<int>))
    requires
        node.wf(),
        k@.len() > 0,
        node.head() == k@[0],
        node.keys().len() < usize::MAX,
    ensures
        r.0.wf(),
        r.0.head() == node.head(),
        r.1 <==> !node.keys().contains(k@),
        r.1 ==> 0 <= r.2@ <= node.keys().len() && r.0.keys() == node.keys().insert(r.2@, k@),
        !r.1 ==> r.0.keys() == node.keys(),
    decreases node,
{
    match node {
        Node::Leaf { rest } => {
            let c = common_prefix(k, rest.as_slice());
            let ghost old_rest = rest@;
            if k.len() == c && rest.len() == c {
                proof {
                    assert(k@ =~= k@.take(c as int));
                    assert(rest@ =~= rest@.take(c as int));
                    assert(seq![rest@][0] == k@);
                }
                return (Node::Leaf { rest }, false, Ghost(0));
            }
            // The two remainders become leaves below a new branch, the one
            // that sorts first in front; an empty remainder sorts first.
            let k_first = k.len() == c || (rest.len() != c && k[c] < rest[c]);
            let new_leaf = leaf(slice_subrange(k, c, k.len()));
            let old_leaf = leaf(slice_subrange(rest.as_slice(), c, rest.len()));
            let mut children: Vec<Node> = Vec::new();
            if k_first {
                children.push(new_leaf);
                children.push(old_leaf);
            } else {
                children.push(old_leaf);
                children.push(new_leaf);
            }
            let mut prefix = rest;
            prefix.truncate(c);
            let res = Node::NonLeaf { prefix, children, len: 2 };
            proof {
                lemma_split_leaf(old_rest, k@, c as int, res, k_first);
            }
            (res, true, Ghost(if k_first { 0int } else { 1int }))
        },
        Node::NonLeaf { prefix, children, len } => {
            let c = common_prefix(k, prefix.as_slice());
            let ghost old_keys = node.keys();
            let ghost ck = list_keys(children@);
            if prefix.len() == c {
                // The key belongs below this branch.
                let mut children = children;
                let (added, Ghost(p)) = insert_list(&mut children, slice_subrange(k, c, k.len()));
                let len = if added { len + 1 } else { len };
                let res = Node::NonLeaf { prefix, children, len };
                proof {
                    lemma_branch_contains(prefix@, ck, k@);
                    assert(prefix@.take(c as int) =~= prefix@);
                    assert(k@ =~= prefix@ + k@.skip(c as int));
                    if added {
                        assert(res.keys() =~= old_keys.insert(p, k@));
                    }
                }
                (res, added, Ghost(p))
            } else {
                // The key leaves the prefix early: the branch keeps what they
                // share, and its children move below a branch for the rest.
                let k_first = k.len() == c || k[c] < prefix[c];
                let new_leaf = leaf(slice_subrange(k, c, k.len()));
                let tail = slice_to_vec(slice_subrange(prefix.as_slice(), c, prefix.len()));
                let lower = Node::NonLeaf { prefix: tail, children, len };
                let mut kids: Vec<Node> = Vec::new();
                if k_first {
                    kids.push(new_leaf);
                    kids.push(lower);
                } else {
                    kids.push(lower);
                    kids.push(new_leaf);
                }
                let mut prefix = prefix;
                prefix.truncate(c);
                let res = Node::NonLeaf { prefix, children: kids, len: len + 1 };
                proof {
                    lemma_split_branch(node, k@, c as int, res, k_first);
                }
                (res, true, Ghost(if k_first { 0int } else { len as int }))
            }
        },
    }
}

/// Adds the key `k` to a list of siblings. Returns whether the key was new,
/// and the rank at which it then stands among the keys of the list.
pub(crate) fn insert_list(vec: &mut Vec<Node>, k: &[u8]) -> (r: (bool, Ghost<int>))
    requires
        list_wf(old(vec)@),
        list_keys(old(vec)@).len() < usize::MAX,
    ensures
        list_wf(final(vec)@),
        final(vec)@.len() >= old(vec)@.len(),
        r.0 <==> !list_keys(old(vec)@).contains(k@),
        r.0 ==> 0 <= r.1@ <= list_keys(old(vec)@).len() && list_keys(final(vec)@) == list_keys(
            old(vec)@,
        ).insert(r.1@, k@),
        !r.0 ==> list_keys(final(vec)@) == list_keys(old(vec)@),
    decreases old(vec)@,
{
    let ghost nodes = vec@;
    let ghost keys = list_keys(nodes);
    if k.len() == 0 {
        // The key without bytes needs a leaf without bytes, which stands
        // first among its siblings.
        if vec.len() > 0 {
            let h = first_byte(&vec[0]);
            if h.is_none() {
                proof {
                    lemma_list_keys_split(nodes, 0);
                    lemma_node_keys_head(nodes[0]);
                    assert(nodes.take(0) =~= Seq::<Node>::empty());
                    assert(nodes[0].keys()[0] =~= k@);
                    assert(keys[0] == k@);
                }
                return (false, Ghost(0));
            }
        }
        let empty = Node::Leaf { rest: Vec::new() };
        proof {
            assert(empty->rest@ =~= k@);
            assert forall|i: int| 0 <= i < nodes.len() implies (#[trigger] nodes[i]).head() > head(
                k@,
            ) by {
                if i > 0 {
                    assert(nodes[0].head() < nodes[i].head());
                }
            }
            lemma_insert_leaf(nodes, 0, empty, k@);
            assert(nodes.take(0) =~= Seq::<Node>::empty());
        }
        vec.insert(0, empty);
        return (true, Ghost(0));
    }
    let mut j: usize = 0;
    while j < vec.len()
        invariant
            vec@ == nodes,
            nodes == old(vec)@,
            j <= nodes.len(),
            list_wf(nodes),
            keys == list_keys(nodes),
            keys.len() < usize::MAX,
            k@.len() > 0,
            forall|i: int| 0 <= i < j ==> (#[trigger] nodes[i]).head() < k@[0],
        decreases nodes.len() - j,
    {
        if let Some(h) = first_byte(&vec[j]) {
            if k[0] < h {
                // The key is new and goes in front of the first node with a
                // larger head.
                let new_leaf = leaf(k);
                proof {
                    assert forall|i: int| j <= i < nodes.len() implies (#[trigger] nodes[i]).head()
                        > head(k@) by {
                        if i > j {
                            assert(nodes[j as int].head() < nodes[i].head());
                        }
                    }
                    lemma_insert_leaf(nodes, j as int, new_leaf, k@);
                }
                vec.insert(j, new_leaf);
                return (true, Ghost(list_keys(nodes.take(j as int)).len() as int));
            } else if k[0] == h {
                // The key shares its first byte with this node.
                let mut node = Node::Leaf { rest: Vec::new() };
                vec.set_and_swap(j, &mut node);
                proof {
                    lemma_list_keys_split(nodes, j as int);
                }
                let (new_node, added, Ghost(p)) = insert_node(node, k);
                vec.set(j, new_node);
                proof {
                    assert(vec@ =~= nodes.update(j as int, new_node));
                    lemma_replace_node(nodes, j as int, new_node, k@, if added { p } else { 0 });
                }
                return (added, Ghost(list_keys(nodes.take(j as int)).len() + p));
            }
        }
        j += 1;
    }
    let new_leaf = leaf(k);
    proof {
        lemma_insert_leaf(nodes, nodes.len() as int, new_leaf, k@);
        assert(nodes.take(nodes.len() as int) =~= nodes);
        assert(nodes.insert(nodes.len() as int, new_leaf) =~= nodes.push(new_leaf));
    }
    vec.push(new_leaf);
    (true, Ghost(keys.len() as int))
}

} // verus!
