//! Taking an `IndexTrie` apart and putting one together from its parts, as
//! when it is stored and read back.
//!
//! The parts that come back from storage may be anything. A trie is made of
//! them only if they have the shape that insertion gives a trie, so that a
//! trie read back answers as the trie that was stored.

use crate::bytes::string_from_utf8;
use crate::graph::index_trie::node::{
    first_byte, lemma_list_keys_sorted, lemma_list_keys_split, list_keys, list_wf, Node,
};
use crate::graph::index_trie::IndexTrie;
use vstd::prelude::*;
use vstd::utf8::valid_utf8;

verus! {

/// Whether `roots` and `len` are the parts of a trie: the nodes are well
/// formed, as a list of siblings and each below it, `len` is the number of
/// their keys, and the keys are valid UTF-8.
pub open spec fn parts_wf(roots: Seq<Node>, len: usize) -> bool {
    &&& list_wf(roots)
    &&& len == list_keys(roots).len()
    &&& forall|g: int| 0 <= g < list_keys(roots).len() ==> valid_utf8(#[trigger] list_keys(roots)[g])
}

/// The number of keys of a node, if the node is well formed.
fn check_node(node: &Node) -> (count: Option<usize>)
    ensures
        count is Some <==> node.wf(),
        count matches Some(n) ==> n == node.keys().len(),
    decreases node,
{
    match node {
        Node::Leaf { .. } => Some(1),
        Node::NonLeaf { prefix, children, len } => {
            if prefix.len() == 0 || children.len() < 2 {
                return None;
            }
            match check_list(children) {
                Some(n) => if n == *len {
                    Some(n)
                } else {
                    None
                },
                None => None,
            }
        },
    }
}

/// The number of keys of a list of siblings that fits `usize`, if the list is
/// well formed.
fn check_list(nodes: &Vec<Node>) -> (count: Option<usize>)
    ensures
        count is Some <==> list_wf(nodes@) && list_keys(nodes@).len() <= usize::MAX,
        count matches Some(n) ==> n == list_keys(nodes@).len(),
    decreases nodes,
{
    let mut total: usize = 0;
    // The head of the node in front, below every head where there is none.
    let mut last: i32 = -2;
    let mut j: usize = 0;
    while j < nodes.len()
        invariant
            j <= nodes@.len(),
            list_wf(nodes@.take(j as int)),
            total == list_keys(nodes@.take(j as int)).len(),
            -2 <= last < 256,
            j == 0 ==> last == -2,
            j > 0 ==> last == nodes@[j - 1].head(),
        decreases nodes@.len() - j,
    {
        let ghost front = nodes@.take(j as int);
        let ghost longer = nodes@.take(j + 1);
        proof {
            lemma_list_keys_split(nodes@, j as int);
            assert(longer.drop_last() =~= front);
        }
        let n = match check_node(&nodes[j]) {
            Some(n) => n,
            None => {
                proof {
                    if list_wf(nodes@) {
                        assert(nodes@[j as int].wf());
                    }
                }
                return None;
            },
        };
        let head: i32 = match first_byte(&nodes[j]) {
            Some(b) => b as i32,
            None => -1,
        };
        if head <= last {
            proof {
                if list_wf(nodes@) {
                    assert(nodes@[j - 1].head() < nodes@[j as int].head());
                }
            }
            return None;
        }
        total = match total.checked_add(n) {
            Some(t) => t,
            None => {
                proof {
                    lemma_list_keys_split(nodes@, j as int);
                }
                return None;
            },
        };
        proof {
            assert forall|a: int, b: int| 0 <= a < b < longer.len() implies (
            #[trigger] longer[a]).head() < (#[trigger] longer[b]).head() by {
                if b < j {
                    assert(front[a].head() < front[b].head());
                } else if a < j - 1 {
                    assert(front[a].head() < front[j - 1].head());
                }
            }
            assert forall|a: int| 0 <= a < longer.len() implies (#[trigger] longer[a]).wf() by {
                if a < j {
                    assert(front[a].wf());
                }
            }
        }
        last = head;
        j += 1;
    }
    proof {
        assert(nodes@.take(j as int) =~= nodes@);
    }
    Some(total)
}

/// Whether each key of the nodes, behind the bytes of `buf`, is valid UTF-8.
fn check_utf8(nodes: &Vec<Node>, buf: &mut Vec<u8>) -> (valid: bool)
    requires
        list_wf(nodes@),
    ensures
        final(buf)@ == old(buf)@,
        valid <==> forall|g: int|
            0 <= g < list_keys(nodes@).len() ==> valid_utf8(
                old(buf)@ + #[trigger] list_keys(nodes@)[g],
            ),
    decreases nodes,
{
    let ghost path = buf@;
    let ghost keys = list_keys(nodes@);
    let mut j: usize = 0;
    while j < nodes.len()
        invariant
            j <= nodes@.len(),
            list_wf(nodes@),
            buf@ == path,
            path == old(buf)@,
            keys == list_keys(nodes@),
            forall|g: int|
                0 <= g < list_keys(nodes@.take(j as int)).len() ==> valid_utf8(
                    path + #[trigger] list_keys(nodes@.take(j as int))[g],
                ),
        decreases nodes@.len() - j,
    {
        let ghost before = list_keys(nodes@.take(j as int));
        let ghost here = nodes@[j as int].keys();
        let ghost longer = list_keys(nodes@.take(j + 1));
        proof {
            lemma_list_keys_split(nodes@, j as int);
        }
        let valid = match &nodes[j] {
            Node::Leaf { rest } => {
                let mut key: Vec<u8> = Vec::new();
                key.extend_from_slice(buf.as_slice());
                key.extend_from_slice(rest.as_slice());
                proof {
                    assert(key@ =~= path + rest@);
                    assert(here =~= seq![rest@]);
                    assert(here[0] == rest@);
                }
                string_from_utf8(key).is_some()
            },
            Node::NonLeaf { prefix, children, .. } => {
                let depth = buf.len();
                buf.extend_from_slice(prefix.as_slice());
                let ghost deeper = buf@;
                let valid = check_utf8(children, buf);
                proof {
                    assert(deeper == path + prefix@);
                    assert(buf@ == deeper);
                    assert(valid ==> forall|g: int|
                        0 <= g < list_keys(children@).len() ==> valid_utf8(
                            deeper + #[trigger] list_keys(children@)[g],
                        ));
                }
                buf.truncate(depth);
                proof {
                    assert(buf@ =~= path);
                    let ck = list_keys(children@);
                    assert forall|g: int| 0 <= g < ck.len() implies (path + prefix@) + ck[g]
                        == path + #[trigger] here[g] by {
                        assert((path + prefix@) + ck[g] =~= path + (prefix@ + ck[g]));
                    }
                    if valid {
                        assert forall|g: int| 0 <= g < here.len() implies valid_utf8(
                            path + #[trigger] here[g],
                        ) by {
                            assert(valid_utf8((path + prefix@) + ck[g]));
                        }
                    } else {
                        let g = choose|g: int|
                            0 <= g < ck.len() && !valid_utf8((path + prefix@) + #[trigger] ck[g]);
                        assert(!valid_utf8(path + here[g]));
                    }
                }
                valid
            },
        };
        proof {
            assert(valid <==> forall|g: int|
                0 <= g < here.len() ==> valid_utf8(path + #[trigger] here[g]));
        }
        if !valid {
            proof {
                let g = choose|g: int| 0 <= g < here.len() && !valid_utf8(path + #[trigger] here[g]);
                assert(keys[before.len() + g] == here[g]);
            }
            return false;
        }
        proof {
            assert forall|g: int| 0 <= g < longer.len() implies valid_utf8(
                path + #[trigger] longer[g],
            ) by {
                if g < before.len() {
                    assert(longer[g] == before[g]);
                } else {
                    assert(longer[g] == here[g - before.len()]);
                }
            }
        }
        j += 1;
    }
    proof {
        assert(nodes@.take(j as int) =~= nodes@);
    }
    true
}

impl IndexTrie {
    /// The nodes below the root, as a spec value.
    pub closed spec fn spec_roots(&self) -> Seq<Node> {
        self.roots@
    }

    /// What `spec_roots` is.
    pub(crate) proof fn lemma_spec_roots(&self)
        ensures
            self.spec_roots() == self.roots@,
    {
    }

    /// The nodes below the root.
    pub fn roots(&self) -> (roots: &Vec<Node>)
        ensures
            roots@ == self.spec_roots(),
            self@ == list_keys(roots@),
            self.wf() ==> parts_wf(roots@, self@.len() as usize),
    {
        &self.roots
    }

    /// The trie with the nodes `roots` below its root and `len` strings, if
    /// these are the parts of a trie.
    pub fn from_parts(roots: Vec<Node>, len: usize) -> (trie: Option<Self>)
        ensures
            trie is Some <==> parts_wf(roots@, len),
            trie matches Some(t) ==> t.wf() && t.spec_roots() == roots@ && t@ == list_keys(roots@),
    {
        match check_list(&roots) {
            Some(n) => {
                if n != len {
                    return None;
                }
            },
            None => {
                return None;
            },
        }
        let mut buf: Vec<u8> = Vec::new();
        let valid = check_utf8(&roots, &mut buf);
        proof {
            let keys = list_keys(roots@);
            assert forall|g: int| 0 <= g < keys.len() implies Seq::<u8>::empty() + #[trigger] keys[g]
                == keys[g] by {
                assert(Seq::<u8>::empty() + keys[g] =~= keys[g]);
            }
            if valid {
                assert forall|g: int| 0 <= g < keys.len() implies valid_utf8(#[trigger] keys[g]) by {
                    assert(valid_utf8(Seq::<u8>::empty() + keys[g]));
                }
            } else {
                let g = choose|g: int|
                    0 <= g < keys.len() && !valid_utf8(Seq::<u8>::empty() + #[trigger] keys[g]);
                assert(!valid_utf8(keys[g]));
            }
        }
        if !valid {
            return None;
        }
        proof {
            lemma_list_keys_sorted(roots@);
        }
        Some(IndexTrie { roots, len })
    }
}

} // verus!
