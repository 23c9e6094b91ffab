//! Walking an `IndexTrie` in the order of its strings.

use crate::bytes::string_from_utf8;
use crate::graph::index_trie::node::{
    lemma_list_keys_concat, lemma_list_keys_one, list_keys, list_wf, prepend_all, Node,
};
use crate::graph::index_trie::IndexTrie;
use vstd::prelude::*;
use vstd::utf8::{encode_utf8, valid_utf8};

verus! {

/// One level of the walk: a list of siblings and the number of them that the
/// walk has passed. The lowest level is the root's; each level above it is
/// the branch that the level below has entered.
#[derive(Clone, Debug)]
enum IterItem<'a> {
    Root(&'a IndexTrie, usize),
    Prefix(&'a Node, usize),
}

impl<'a> IterItem<'a> {
    /// The siblings of this level.
    spec fn list(self) -> Seq<Node> {
        match self {
            IterItem::Root(trie, _) => trie.roots@,
            IterItem::Prefix(node, _) => match *node {
                Node::NonLeaf { children, .. } => children@,
                Node::Leaf { .. } => Seq::empty(),
            },
        }
    }

    /// How many of the siblings the walk has passed.
    spec fn passed(self) -> int {
        match self {
            IterItem::Root(_, i) => i as int,
            IterItem::Prefix(_, i) => i as int,
        }
    }

    /// The bytes that this level adds in front of the keys below it.
    spec fn own_prefix(self) -> Seq<u8> {
        match self {
            IterItem::Root(_, _) => Seq::empty(),
            IterItem::Prefix(node, _) => match *node {
                Node::NonLeaf { prefix, .. } => prefix@,
                Node::Leaf { .. } => Seq::empty(),
            },
        }
    }

    /// The keys of the siblings still to come, as they stand below this
    /// level.
    spec fn rest(self) -> Seq<Seq<u8>> {
        list_keys(self.list().skip(self.passed()))
    }

    /// The invariant of a level.
    spec fn wf(self) -> bool {
        &&& 0 <= self.passed() <= self.list().len()
        &&& list_wf(self.list())
        &&& match self {
            IterItem::Root(_, _) => true,
            IterItem::Prefix(node, _) => *node is NonLeaf,
        }
    }
}

/// The bytes in front of the keys of the top level.
spec fn path(state: Seq<IterItem>) -> Seq<u8>
    decreases state.len(),
{
    if state.len() == 0 {
        Seq::empty()
    } else {
        path(state.drop_last()) + state.last().own_prefix()
    }
}

/// The keys that a walk in this state still yields: those of the top level
/// first.
spec fn remaining(state: Seq<IterItem>) -> Seq<Seq<u8>>
    decreases state.len(),
{
    if state.len() == 0 {
        Seq::empty()
    } else {
        prepend_all(path(state), state.last().rest()) + remaining(state.drop_last())
    }
}

/// The steps that a walk below a node takes at most.
spec fn node_steps(n: Node) -> nat
    decreases n,
{
    match n {
        Node::Leaf { .. } => 1,
        Node::NonLeaf { children, .. } => 2 + list_steps(children@),
    }
}

/// The steps that a walk over a list of siblings takes at most.
spec fn list_steps(nodes: Seq<Node>) -> nat
    decreases nodes,
{
    if nodes.len() == 0 {
        0
    } else {
        list_steps(nodes.drop_last()) + node_steps(nodes.last())
    }
}

/// The steps that a walk in this state takes at most until it ends.
spec fn steps_left(state: Seq<IterItem>) -> nat
    decreases state.len(),
{
    if state.len() == 0 {
        0
    } else {
        steps_left(state.drop_last()) + 1 + list_steps(
            state.last().list().skip(state.last().passed()),
        )
    }
}

/// The steps over siblings add up list by list.
proof fn lemma_list_steps_concat(a: Seq<Node>, b: Seq<Node>)
    ensures
        list_steps(a + b) == list_steps(a) + list_steps(b),
    decreases b.len(),
{
    if b.len() == 0 {
        assert(a + b =~= a);
    } else {
        assert((a + b).drop_last() =~= a + b.drop_last());
        lemma_list_steps_concat(a, b.drop_last());
    }
}

/// What passing one more sibling takes from the keys and the steps that a
/// level has left.
proof fn lemma_pass_one(nodes: Seq<Node>, i: int)
    requires
        0 <= i < nodes.len(),
    ensures
        list_keys(nodes.skip(i)) == nodes[i].keys() + list_keys(nodes.skip(i + 1)),
        list_steps(nodes.skip(i)) == node_steps(nodes[i]) + list_steps(nodes.skip(i + 1)),
{
    let one = seq![nodes[i]];
    assert(nodes.skip(i) =~= one + nodes.skip(i + 1));
    lemma_list_keys_concat(one, nodes.skip(i + 1));
    lemma_list_keys_one(nodes[i]);
    lemma_list_steps_concat(one, nodes.skip(i + 1));
    assert(one.drop_last() =~= Seq::<Node>::empty());
    assert(list_steps(Seq::<Node>::empty()) == 0);
    assert(one.last() == nodes[i]);
    assert(list_steps(one) == node_steps(nodes[i]));
}

/// An iterator over the strings of an `IndexTrie`, in ascending order.
#[derive(Clone, Debug)]
pub struct IndexTrieIterator<'a> {
    state: Vec<IterItem<'a>>,
}

impl<'a> IndexTrieIterator<'a> {
    /// The strings that the iterator still yields, as byte strings, in the
    /// order in which they come.
    pub closed spec fn remaining(&self) -> Seq<Seq<u8>> {
        remaining(self.state@)
    }

    /// The invariant of the iterator.
    pub closed spec fn wf(&self) -> bool {
        &&& forall|k: int| 0 <= k < self.state@.len() ==> (#[trigger] self.state@[k]).wf()
        &&& forall|k: int|
            0 <= k < self.state@.len() ==> ((#[trigger] self.state@[k]) is Root <==> k == 0)
        &&& remaining(self.state@).len() <= usize::MAX
        &&& forall|g: int|
            0 <= g < remaining(self.state@).len() ==> valid_utf8(
                #[trigger] remaining(self.state@)[g],
            )
    }

    /// The iterator that stands in front of the first string of `trie`.
    pub(crate) fn start(trie: &'a IndexTrie) -> (it: Self)
        requires
            trie.wf(),
        ensures
            it.wf(),
            it.remaining() == trie@,
    {
        let mut state: Vec<IterItem<'a>> = Vec::new();
        state.push(IterItem::Root(trie, 0));
        proof {
            trie.lemma_roots();
            let s = state@;
            assert(s.drop_last() =~= Seq::<IterItem>::empty());
            assert(path(Seq::<IterItem>::empty()) =~= Seq::<u8>::empty());
            assert(remaining(Seq::<IterItem>::empty()) =~= Seq::<Seq<u8>>::empty());
            assert(path(s) =~= Seq::<u8>::empty());
            assert(trie.roots@.skip(0) =~= trie.roots@);
            assert(prepend_all(path(s), trie@) =~= trie@) by {
                assert forall|g: int| 0 <= g < trie@.len() implies #[trigger] prepend_all(
                    path(s),
                    trie@,
                )[g] == trie@[g] by {
                    assert(Seq::<u8>::empty() + trie@[g] =~= trie@[g]);
                }
            }
            assert(remaining(s) =~= trie@);
        }
        IndexTrieIterator { state }
    }

    /// The next string of the trie, or `None` when all have been yielded.
    pub fn next(&mut self) -> (r: Option<String>)
        requires
            old(self).wf(),
        ensures
            final(self).wf(),
            match r {
                Some(text) => {
                    &&& old(self).remaining().len() > 0
                    &&& encode_utf8(text@) == old(self).remaining()[0]
                    &&& final(self).remaining() == old(self).remaining().drop_first()
                },
                None => old(self).remaining().len() == 0 && final(self).remaining().len() == 0,
            },
    {
        loop
            invariant
                self.wf(),
                self.remaining() == old(self).remaining(),
            decreases steps_left(self.state@),
        {
            let depth = self.state.len();
            if depth == 0 {
                return None;
            }
            let ghost before = self.state@;
            let ghost below = before.drop_last();
            let top = self.state.pop().unwrap();
            proof {
                assert(self.state@ =~= below);
                assert(top == before.last());
                assert(top.wf());
            }
            // The list of siblings at the top, and how many of them are
            // passed.
            let (cur, i): (&'a Vec<Node>, usize) = match &top {
                IterItem::Root(trie, i) => {
                    let trie: &'a IndexTrie = *trie;
                    (&trie.roots, *i)
                },
                IterItem::Prefix(node, i) => {
                    let node: &'a Node = *node;
                    match node {
                        Node::NonLeaf { children, .. } => (children, *i),
                        Node::Leaf { .. } => {
                            proof {
                                assert(false);
                            }
                            vstd::pervasive::unreached()
                        },
                    }
                },
            };
            if i >= cur.len() {
                // This list has run out: return to the level below.
                proof {
                    assert(top.list().skip(top.passed()) =~= Seq::<Node>::empty());
                    assert(prepend_all(path(before), top.rest()) =~= Seq::<Seq<u8>>::empty());
                    assert(remaining(before) =~= remaining(below));
                    assert(list_steps(Seq::<Node>::empty()) == 0);
                    assert(steps_left(before) == steps_left(below) + 1);
                }
                continue;
            }
            let n: &'a Node = &cur[i];
            let moved = match top {
                IterItem::Root(trie, _) => IterItem::Root(trie, i + 1),
                IterItem::Prefix(node, _) => IterItem::Prefix(node, i + 1),
            };
            self.state.push(moved);
            let ghost passed = self.state@;
            proof {
                lemma_pass_one(top.list(), i as int);
                assert(passed.drop_last() =~= below);
                assert(passed.last() == moved);
                assert(moved.list() == top.list());
                assert(moved.own_prefix() == top.own_prefix());
                assert(path(passed) == path(before));
                assert(moved.wf());
                assert(remaining(before) =~= prepend_all(path(before), n.keys()) + remaining(
                    passed,
                ));
                assert(steps_left(before) == steps_left(passed) + node_steps(*n));
            }
            match n {
                Node::NonLeaf { prefix: _, children: _, len: _ } => {
                    // Descend into the branch.
                    self.state.push(IterItem::Prefix(n, 0));
                    proof {
                        let entered = self.state@;
                        let child = entered.last();
                        assert(entered.drop_last() =~= passed);
                        assert(child.list().skip(0) =~= child.list());
                        assert(n.wf());
                        assert(child.wf());
                        assert(prepend_all(path(entered), child.rest()) =~= prepend_all(
                            path(before),
                            n.keys(),
                        )) by {
                            let ck = list_keys(n->children@);
                            assert forall|g: int| 0 <= g < ck.len() implies path(entered) + ck[g]
                                == path(before) + #[trigger] n.keys()[g] by {
                                assert((path(before) + n->prefix@) + ck[g] =~= path(before) + (
                                n->prefix@ + ck[g]));
                            }
                        }
                        assert(remaining(entered) =~= remaining(before));
                        assert(steps_left(entered) == steps_left(passed) + 1 + list_steps(
                            n->children@,
                        ));
                        assert forall|k: int| 0 <= k < entered.len() implies (
                        #[trigger] entered[k]).wf() && (entered[k] is Root <==> k == 0) by {
                            if k < below.len() {
                                assert(entered[k] == before[k]);
                            } else if k == below.len() {
                                assert(entered[k] == moved);
                                assert(before[k] == top);
                            }
                        }
                    }
                },
                Node::Leaf { rest } => {
                    // Put the string together from the prefixes of the
                    // branches entered and what the leaf holds.
                    let mut res: Vec<u8> = Vec::new();
                    let mut k: usize = 1;
                    proof {
                        assert forall|k: int| 0 <= k < passed.len() implies (
                        #[trigger] passed[k]).wf() && (passed[k] is Root <==> k == 0) by {
                            if k < below.len() {
                                assert(passed[k] == before[k]);
                            } else {
                                assert(before[k] == top);
                            }
                        }
                        assert(passed.take(1).drop_last() =~= Seq::<IterItem>::empty());
                        assert(path(Seq::<IterItem>::empty()) =~= Seq::<u8>::empty());
                        assert(passed.take(1).last() == passed[0]);
                        assert(passed[0] is Root);
                        assert(path(passed.take(1)) =~= Seq::<u8>::empty());
                    }
                    while k < self.state.len()
                        invariant
                            1 <= k <= self.state@.len(),
                            self.state@ == passed,
                            res@ == path(passed.take(k as int)),
                            forall|k: int|
                                0 <= k < passed.len() ==> (#[trigger] passed[k]).wf() && (
                                passed[k] is Root <==> k == 0),
                        decreases self.state@.len() - k,
                    {
                        proof {
                            assert(passed.take(k + 1).drop_last() =~= passed.take(k as int));
                            assert(passed.take(k + 1).last() == passed[k as int]);
                            assert(passed[k as int].wf());
                        }
                        match &self.state[k] {
                            IterItem::Prefix(node, _) => match node {
                                Node::NonLeaf { prefix, .. } => {
                                    res.extend_from_slice(prefix.as_slice());
                                },
                                Node::Leaf { .. } => {},
                            },
                            IterItem::Root(_, _) => {},
                        }
                        k += 1;
                    }
                    res.extend_from_slice(rest.as_slice());
                    proof {
                        assert(passed.take(k as int) =~= passed);
                        let first = prepend_all(path(before), n.keys());
                        assert(first =~= seq![path(before) + rest@]);
                        let all = remaining(before);
                        assert(all[0] == res@);
                        assert(remaining(passed) =~= all.drop_first());
                        assert forall|g: int| 0 <= g < remaining(passed).len() implies valid_utf8(
                            #[trigger] remaining(passed)[g],
                        ) by {
                            assert(remaining(passed)[g] == all[g + 1]);
                        }
                    }
                    return string_from_utf8(res);
                },
            }
        }
    }

    /// The number of strings that the iterator still yields.
    pub fn len(&self) -> (n: usize)
        requires
            self.wf(),
        ensures
            n == self.remaining().len(),
    {
        let ghost state = self.state@;
        let mut total: usize = 0;
        let mut k: usize = 0;
        proof {
            assert(state.take(0) =~= Seq::<IterItem>::empty());
        }
        while k < self.state.len()
            invariant
                k <= state.len(),
                state == self.state@,
                self.wf(),
                total == remaining(state.take(k as int)).len(),
            decreases state.len() - k,
        {
            let (cur, i): (&Vec<Node>, usize) = match &self.state[k] {
                IterItem::Root(trie, i) => (&trie.roots, *i),
                IterItem::Prefix(node, i) => match node {
                    Node::NonLeaf { children, .. } => (children, *i),
                    Node::Leaf { .. } => {
                        proof {
                            assert(state[k as int].wf());
                            assert(false);
                        }
                        vstd::pervasive::unreached()
                    },
                },
            };
            let ghost level = state[k as int];
            let ghost base = total as int;
            proof {
                assert(level.wf());
                assert(state.take(k + 1).drop_last() =~= state.take(k as int));
                assert(state.take(k + 1).last() == level);
                lemma_remaining_grows(state, k + 1);
                assert(level.list().subrange(i as int, i as int) =~= Seq::<Node>::empty());
            }
            let mut j: usize = i;
            while j < cur.len()
                invariant
                    i <= j <= cur@.len(),
                    cur@ == level.list(),
                    i == level.passed(),
                    list_wf(cur@),
                    total == base + list_keys(cur@.subrange(i as int, j as int)).len(),
                    base + level.rest().len() <= usize::MAX,
                decreases cur@.len() - j,
            {
                proof {
                    let done = cur@.subrange(i as int, j as int);
                    let one = seq![cur@[j as int]];
                    let ahead = cur@.skip(j + 1);
                    assert(cur@.subrange(i as int, j + 1) =~= done + one);
                    assert(cur@.skip(i as int) =~= done + one + ahead);
                    lemma_list_keys_concat(done, one);
                    lemma_list_keys_concat(done + one, ahead);
                    lemma_list_keys_one(cur@[j as int]);
                    assert(cur@[j as int].wf());
                }
                total += cur[j].len();
                j += 1;
            }
            proof {
                assert(cur@.subrange(i as int, j as int) =~= cur@.skip(i as int));
            }
            k += 1;
        }
        proof {
            assert(state.take(k as int) =~= state);
        }
        total
    }

    /// Bounds on the number of strings still to come, which is known
    /// exactly.
    pub fn size_hint(&self) -> (r: (usize, Option<usize>))
        requires
            self.wf(),
        ensures
            r.0 == self.remaining().len(),
            r.1 == Some(r.0),
    {
        let rem = self.len();
        (rem, Some(rem))
    }
}

/// The lower levels of a walk yield no more keys than the whole.
proof fn lemma_remaining_grows(state: Seq<IterItem>, k: int)
    requires
        0 <= k <= state.len(),
    ensures
        remaining(state.take(k)).len() <= remaining(state).len(),
    decreases state.len() - k,
{
    if k < state.len() {
        lemma_remaining_grows(state, k + 1);
        assert(state.take(k + 1).drop_last() =~= state.take(k));
    } else {
        assert(state.take(k) =~= state);
    }
}

} // verus!
