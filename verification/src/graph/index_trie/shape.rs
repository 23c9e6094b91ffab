//! The tree of an `IndexTrie` is determined by its strings.
//!
//! Whatever the order in which strings are added, and whether a trie was
//! built or put together from stored parts, two well-formed tries with the
//! same strings have the same tree: the same branches with the same prefixes
//! and sizes, and the same leaves.

use crate::bytes::head;
use crate::graph::index_trie::node::{
    lemma_key_owner, lemma_list_keys_split, lemma_node_keys_head, list_keys, list_wf,
    same_list_shape, same_shape, Node,
};
use crate::graph::index_trie::IndexTrie;
use vstd::prelude::*;

verus! {

/// A well-formed branch has two keys at least.
proof fn lemma_branch_keys(n: Node)
    requires
        n.wf(),
        n is NonLeaf,
    ensures
        n.keys().len() >= 2,
        n.keys().len() == list_keys(n->children@).len(),
        // The first keys of its first two children part right behind its
        // prefix.
        n->children@[0].keys().len() < n.keys().len(),
        head(list_keys(n->children@)[0]) != head(
            list_keys(n->children@)[n->children@[0].keys().len() as int],
        ),
{
    let c = n->children@;
    lemma_list_keys_split(c, 0);
    lemma_list_keys_split(c, 1);
    lemma_node_keys_head(c[0]);
    lemma_node_keys_head(c[1]);
    assert(c.take(0) =~= Seq::<Node>::empty());
    assert(list_keys(c.take(0)) =~= Seq::<Seq<u8>>::empty());
    let ck = list_keys(c);
    let first = c[0].keys();
    assert(list_keys(c.take(1)) =~= first);
    assert(ck[0] == first[0]);
    assert(ck[first.len() as int] == c[1].keys()[0]);
    assert(c[0].head() < c[1].head());
}

/// Two well-formed nodes with the same keys are the same tree.
pub proof fn lemma_node_shape(a: Node, b: Node)
    requires
        a.wf(),
        b.wf(),
        a.keys() == b.keys(),
    ensures
        same_shape(a, b),
    decreases a, 0nat,
{
    match a {
        Node::Leaf { rest } => {
            if b is NonLeaf {
                lemma_branch_keys(b);
            }
            assert(a.keys()[0] == rest@);
            assert(b.keys()[0] == b->rest@);
        },
        Node::NonLeaf { prefix, children, len } => {
            lemma_branch_keys(a);
            if b is Leaf {
                assert(b.keys().len() == 1);
            }
            lemma_branch_keys(b);
            let keys = a.keys();
            let p = prefix@;
            let q = b->prefix@;
            let ck = list_keys(children@);
            let dk = list_keys(b->children@);
            assert(forall|g: int| 0 <= g < keys.len() ==> #[trigger] keys[g] == p + ck[g]);
            assert(forall|g: int| 0 <= g < keys.len() ==> #[trigger] b.keys()[g] == q + dk[g]);
            if p.len() < q.len() {
                let g = children@[0].keys().len() as int;
                assert(keys[0] == q + dk[0]);
                assert(keys[g] == q + dk[g]);
                assert(keys[0] == p + ck[0]);
                assert(keys[g] == p + ck[g]);
                assert(keys[0][p.len() as int] == q[p.len() as int]);
                assert(keys[g][p.len() as int] == q[p.len() as int]);
                assert(ck[0].len() > 0 && ck[0][0] == keys[0][p.len() as int]);
                assert(ck[g].len() > 0 && ck[g][0] == keys[g][p.len() as int]);
                assert(false);
            }
            if q.len() < p.len() {
                let g = b->children@[0].keys().len() as int;
                assert(keys[0] == q + dk[0]);
                assert(keys[g] == q + dk[g]);
                assert(keys[0] == p + ck[0]);
                assert(keys[g] == p + ck[g]);
                assert(keys[0][q.len() as int] == p[q.len() as int]);
                assert(keys[g][q.len() as int] == p[q.len() as int]);
                assert(dk[0].len() > 0 && dk[0][0] == keys[0][q.len() as int]);
                assert(dk[g].len() > 0 && dk[g][0] == keys[g][q.len() as int]);
                assert(false);
            }
            assert(p =~= q) by {
                assert(keys[0] == p + ck[0]);
                assert(keys[0] == q + dk[0]);
                assert forall|i: int| 0 <= i < p.len() implies p[i] == q[i] by {
                    assert((p + ck[0])[i] == p[i]);
                    assert((q + dk[0])[i] == q[i]);
                }
            }
            assert(ck =~= dk) by {
                assert forall|g: int| 0 <= g < ck.len() implies ck[g] == dk[g] by {
                    assert(keys[g] == p + ck[g]);
                    assert(keys[g] == p + dk[g]);
                    assert(ck[g] =~= (p + ck[g]).skip(p.len() as int));
                    assert(dk[g] =~= (p + dk[g]).skip(p.len() as int));
                }
            }
            lemma_list_shape(children@, b->children@);
        },
    }
}

/// Two well-formed lists of siblings with the same keys are the same trees.
pub proof fn lemma_list_shape(a: Seq<Node>, b: Seq<Node>)
    requires
        list_wf(a),
        list_wf(b),
        list_keys(a) == list_keys(b),
    ensures
        same_list_shape(a, b),
    decreases a, a.len(),
{
    let keys = list_keys(a);
    if a.len() == 0 {
        if b.len() > 0 {
            lemma_node_keys_head(b.last());
        }
    } else if b.len() == 0 {
        lemma_node_keys_head(a.last());
    } else {
        let fa = a.drop_last();
        let fb = b.drop_last();
        let la = a.last().keys();
        let lb = b.last().keys();
        lemma_node_keys_head(a.last());
        lemma_node_keys_head(b.last());
        assert(keys.last() == la.last());
        assert(keys.last() == lb.last());
        assert(a.last().head() == b.last().head());
        if la.len() < lb.len() {
            // A key of the last node of `b` would be a key of an earlier
            // node of `a`, which has another head.
            let g = keys.len() - lb.len();
            assert(keys[g] == lb[0]);
            assert(keys[g] == list_keys(fa)[g]);
            let o = lemma_key_owner(fa, g);
            assert(fa[o] == a[o]);
            assert(a[o].head() < a.last().head());
            assert(false);
        }
        if lb.len() < la.len() {
            let g = keys.len() - la.len();
            assert(keys[g] == la[0]);
            assert(keys[g] == list_keys(fb)[g]);
            let o = lemma_key_owner(fb, g);
            assert(fb[o] == b[o]);
            assert(b[o].head() < b.last().head());
            assert(false);
        }
        assert(la =~= lb) by {
            assert forall|g: int| 0 <= g < la.len() implies la[g] == lb[g] by {
                assert(keys[list_keys(fa).len() + g] == la[g]);
                assert(keys[list_keys(fb).len() + g] == lb[g]);
            }
        }
        assert(list_keys(fa) =~= list_keys(fb)) by {
            assert forall|g: int| 0 <= g < list_keys(fa).len() implies list_keys(fa)[g]
                == list_keys(fb)[g] by {
                assert(keys[g] == list_keys(fa)[g]);
                assert(keys[g] == list_keys(fb)[g]);
            }
        }
        assert(list_wf(fa));
        assert(list_wf(fb));
        lemma_list_shape(fa, fb);
        lemma_node_shape(a.last(), b.last());
        assert forall|i: int| 0 <= i < a.len() implies same_shape(#[trigger] a[i], b[i]) by {
            if i < fa.len() {
                assert(same_shape(fa[i], fb[i]));
            }
        }
    }
}

/// Two well-formed tries with the same strings have the same tree.
pub proof fn lemma_tree_determined(a: IndexTrie, b: IndexTrie)
    requires
        a.wf(),
        b.wf(),
        a@ == b@,
    ensures
        same_list_shape(a.spec_roots(), b.spec_roots()),
{
    a.lemma_roots();
    b.lemma_roots();
    a.lemma_spec_roots();
    b.lemma_spec_roots();
    lemma_list_shape(a.spec_roots(), b.spec_roots());
}

/// Trees that are the same have the same keys, and are well formed
/// together.
pub proof fn lemma_same_shape(a: Node, b: Node)
    requires
        same_shape(a, b),
    ensures
        a.keys() == b.keys(),
        a.head() == b.head(),
        a.wf() == b.wf(),
    decreases a, 0nat,
{
    match a {
        Node::Leaf { rest } => {},
        Node::NonLeaf { prefix, children, len } => {
            lemma_same_list_shape(children@, b->children@);
        },
    }
}

/// Lists of trees that are the same one by one have the same keys, and are
/// well formed together.
pub proof fn lemma_same_list_shape(a: Seq<Node>, b: Seq<Node>)
    requires
        same_list_shape(a, b),
    ensures
        list_keys(a) == list_keys(b),
        list_wf(a) == list_wf(b),
    decreases a, a.len(),
{
    assert forall|i: int| 0 <= i < a.len() implies (#[trigger] a[i]).keys() == b[i].keys()
        && a[i].head() == b[i].head() && a[i].wf() == b[i].wf() by {
        lemma_same_shape(a[i], b[i]);
    }
    if a.len() > 0 {
        assert(same_list_shape(a.drop_last(), b.drop_last())) by {
            assert forall|i: int| 0 <= i < a.drop_last().len() implies same_shape(
                #[trigger] a.drop_last()[i],
                b.drop_last()[i],
            ) by {
                assert(same_shape(a[i], b[i]));
            }
        }
        lemma_same_list_shape(a.drop_last(), b.drop_last());
    }
    if list_wf(a) {
        assert forall|i: int, j: int| 0 <= i < j < b.len() implies (#[trigger] b[i]).head() < (
        #[trigger] b[j]).head() by {
            assert(a[i].head() < a[j].head());
        }
        assert forall|i: int| 0 <= i < b.len() implies (#[trigger] b[i]).wf() by {
            assert(a[i].wf());
        }
    }
    if list_wf(b) {
        assert forall|i: int, j: int| 0 <= i < j < a.len() implies (#[trigger] a[i]).head() < (
        #[trigger] a[j]).head() by {
            assert(b[i].head() < b[j].head());
        }
        assert forall|i: int| 0 <= i < a.len() implies (#[trigger] a[i]).wf() by {
            assert(b[i].wf());
        }
    }
}

} // verus!
