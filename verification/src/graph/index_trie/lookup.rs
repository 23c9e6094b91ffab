//! Looking up a key for its rank and a rank for its key, by the sizes that
//! the branches record.

use crate::bytes::{compare, head, lemma_lex_lt_irreflexive, lemma_lt_head, Order};
use crate::graph::index_trie::node::{
    lemma_branch_contains, lemma_list_keys_split, lemma_node_keys_head, lemma_not_in_later,
    lemma_not_in_parts, list_keys, list_wf, Node,
};
use vstd::prelude::*;
use vstd::slice::slice_subrange;

verus! {

/// The rank of `k` among the keys of `nodes`, counted from `base`.
pub(crate) fn rank_in(nodes: &Vec<Node>, k: &[u8], base: usize) -> (r: Option<usize>)
    requires
        list_wf(nodes@),
        base + list_keys(nodes@).len() <= usize::MAX,
    ensures
        match r {
            Some(i) => base <= i < base + list_keys(nodes@).len() && list_keys(nodes@)[i - base]
                == k@,
            None => !list_keys(nodes@).contains(k@),
        },
    decreases nodes,
{
    let mut acc = base;
    let mut j: usize = 0;
    while j < nodes.len()
        invariant
            j <= nodes@.len(),
            list_wf(nodes@),
            base + list_keys(nodes@).len() <= usize::MAX,
            acc == base + list_keys(nodes@.take(j as int)).len(),
            !list_keys(nodes@.take(j as int)).contains(k@),
        decreases nodes@.len() - j,
    {
        let ghost before = list_keys(nodes@.take(j as int));
        let ghost here = nodes@[j as int].keys();
        let ghost later = list_keys(nodes@.skip(j + 1));
        proof {
            lemma_list_keys_split(nodes@, j as int);
            lemma_node_keys_head(nodes@[j as int]);
        }
        match &nodes[j] {
            Node::Leaf { rest } => {
                proof {
                    lemma_lex_lt_irreflexive(k@);
                }
                match compare(k, rest.as_slice()) {
                    Order::Greater => {
                        proof {
                            lemma_not_in_parts(before, here, Seq::empty(), k@);
                        }
                        acc += 1;
                    },
                    Order::Equal => {
                        return Some(acc);
                    },
                    Order::Less => {
                        proof {
                            lemma_lt_head(k@, rest@);
                            lemma_not_in_later(nodes@, j as int, k@);
                            lemma_not_in_parts(before, here, later, k@);
                        }
                        return None;
                    },
                }
            },
            Node::NonLeaf { prefix, children, len } => {
                let m = if k.len() < prefix.len() {
                    k.len()
                } else {
                    prefix.len()
                };
                let front = slice_subrange(k, 0, m);
                proof {
                    lemma_branch_contains(prefix@, list_keys(children@), k@);
                    lemma_lex_lt_irreflexive(prefix@);
                    assert(front@ == k@.take(m as int));
                }
                match compare(front, prefix.as_slice()) {
                    Order::Greater => {
                        proof {
                            lemma_not_in_parts(before, here, Seq::empty(), k@);
                        }
                        acc += *len;
                    },
                    Order::Equal => {
                        let r = rank_in(children, slice_subrange(k, m, k.len()), acc);
                        proof {
                            assert(head(k@) == head(prefix@));
                            if r is None {
                                lemma_not_in_later(nodes@, j as int, k@);
                                lemma_not_in_parts(before, here, later, k@);
                            } else {
                                let i = r->0;
                                assert(k@ =~= prefix@ + k@.skip(m as int));
                                assert(here[i - acc] == k@);
                            }
                        }
                        return r;
                    },
                    Order::Less => {
                        proof {
                            lemma_lt_head(front@, prefix@);
                            assert(head(k@) <= head(prefix@));
                            lemma_not_in_later(nodes@, j as int, k@);
                            lemma_not_in_parts(before, here, later, k@);
                        }
                        return None;
                    },
                }
            },
        }
        j += 1;
    }
    proof {
        assert(nodes@.take(j as int) =~= nodes@);
    }
    None
}

/// Appends to `buf` the key of rank `i` among the keys of `nodes`, if there
/// is one.
pub(crate) fn select_in(nodes: &Vec<Node>, i: usize, buf: &mut Vec<u8>) -> (found: bool)
    requires
        list_wf(nodes@),
    ensures
        found == (i < list_keys(nodes@).len()),
        found ==> final(buf)@ == old(buf)@ + list_keys(nodes@)[i as int],
        !found ==> final(buf)@ == old(buf)@,
    decreases nodes,
{
    // The number of leaves still to skip.
    let mut rem = i;
    let mut j: usize = 0;
    while j < nodes.len()
        invariant
            j <= nodes@.len(),
            list_wf(nodes@),
            buf@ == old(buf)@,
            rem + list_keys(nodes@.take(j as int)).len() == i,
        decreases nodes@.len() - j,
    {
        proof {
            lemma_list_keys_split(nodes@, j as int);
        }
        match &nodes[j] {
            Node::Leaf { rest } => {
                if rem == 0 {
                    buf.extend_from_slice(rest.as_slice());
                    return true;
                }
                rem -= 1;
            },
            Node::NonLeaf { prefix, children, len } => {
                if rem >= *len {
                    rem -= *len;
                } else {
                    buf.extend_from_slice(prefix.as_slice());
                    let found = select_in(children, rem, buf);
                    proof {
                        let ck = list_keys(children@);
                        assert(buf@ =~= old(buf)@ + (prefix@ + ck[rem as int]));
                    }
                    return found;
                }
            },
        }
        j += 1;
    }
    proof {
        assert(nodes@.take(j as int) =~= nodes@);
    }
    false
}

} // verus!
