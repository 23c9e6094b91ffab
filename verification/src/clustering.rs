//! Turning a batch of graphs into one table of features.
//!
//! The graphs of a batch each have a vocabulary of their own. The labels that
//! occur in enough of them form the shared vocabulary, and each unordered
//! pair of shared labels is a feature: a column of the table. A graph's row
//! holds, for each such pair, the value of the graph's edge between the two
//! labels.

use crate::graph::adj_matrix::AMGraph;
use crate::bytes::lemma_lex_lt_irreflexive;
use crate::graph::index_trie::{
    lemma_position_unique, lemma_rank_of_member, lemma_sorted_determined, rank_of,
    strictly_sorted, IndexTrie,
};
use crate::graph::lower_triangular::{
    col_of, lemma_row_of_bounds, lemma_slot_in_range, lemma_slot_injective,
    lemma_slot_of_row_col, lemma_triangle_monotonic, row_of, slot, triangle,
    triangle_of,
};
use crate::graph::IndexMap;
use vstd::prelude::*;
use vstd::utf8::encode_utf8;

verus! {

/// A label is shared when it occurs in more graphs than this.
pub const MIN_OCCURRENCES: usize = 3;

/// The number of graphs that have `label` among their vertices.
pub open spec fn occurrences<E>(graphs: Seq<AMGraph<E>>, label: Seq<u8>) -> nat
    decreases graphs.len(),
{
    if graphs.len() == 0 {
        0
    } else {
        occurrences(graphs.drop_last(), label) + if graphs.last().vocabulary().contains(label) {
            1nat
        } else {
            0nat
        }
    }
}

/// The number of vertices of all the graphs together.
pub open spec fn vocabulary_total<E>(graphs: Seq<AMGraph<E>>) -> nat
    decreases graphs.len(),
{
    if graphs.len() == 0 {
        0
    } else {
        vocabulary_total(graphs.drop_last()) + graphs.last().vocabulary().len()
    }
}

/// Whether `labels` is the shared vocabulary of the graphs: the labels that
/// occur in more than `MIN_OCCURRENCES` of them, in ascending order.
pub open spec fn is_shared_vocabulary<E>(graphs: Seq<AMGraph<E>>, labels: Seq<Seq<u8>>) -> bool {
    &&& strictly_sorted(labels)
    &&& forall|x: Seq<u8>| #[trigger]
        labels.contains(x) <==> occurrences(graphs, x) > MIN_OCCURRENCES
}

/// The shared vocabulary of the graphs.
pub open spec fn shared_labels<E>(graphs: Seq<AMGraph<E>>) -> Seq<Seq<u8>> {
    choose|labels: Seq<Seq<u8>>| is_shared_vocabulary(graphs, labels)
}

/// The graphs have no other shared vocabulary than `shared_labels`.
pub proof fn lemma_shared_vocabulary_unique<E>(graphs: Seq<AMGraph<E>>, labels: Seq<Seq<u8>>)
    requires
        is_shared_vocabulary(graphs, labels),
    ensures
        labels == shared_labels(graphs),
{
    let chosen = shared_labels(graphs);
    assert(is_shared_vocabulary(graphs, chosen));
    assert forall|x: Seq<u8>| labels.contains(x) <==> chosen.contains(x) by {}
    lemma_sorted_determined(labels, chosen);
}

/// A label occurs in no more graphs than there are.
proof fn lemma_occurrences_bound<E>(graphs: Seq<AMGraph<E>>, label: Seq<u8>)
    ensures
        occurrences(graphs, label) <= graphs.len(),
    decreases graphs.len(),
{
    if graphs.len() > 0 {
        lemma_occurrences_bound(graphs.drop_last(), label);
    }
}

/// A label that occurs in some graph is a vertex of one of them.
proof fn lemma_occurrences_witness<E>(graphs: Seq<AMGraph<E>>, label: Seq<u8>) -> (i: int)
    requires
        occurrences(graphs, label) > 0,
    ensures
        0 <= i < graphs.len(),
        graphs[i].vocabulary().contains(label),
    decreases graphs.len(),
{
    if graphs.last().vocabulary().contains(label) {
        graphs.len() - 1
    } else {
        lemma_occurrences_witness(graphs.drop_last(), label)
    }
}

/// The first graphs of a batch have no more vertices than the whole batch.
proof fn lemma_vocabulary_total_grows<E>(graphs: Seq<AMGraph<E>>, k: int)
    requires
        0 <= k <= graphs.len(),
    ensures
        vocabulary_total(graphs.take(k)) <= vocabulary_total(graphs),
    decreases graphs.len() - k,
{
    if k < graphs.len() {
        lemma_vocabulary_total_grows(graphs, k + 1);
        assert(graphs.take(k + 1).drop_last() =~= graphs.take(k));
    } else {
        assert(graphs.take(k) =~= graphs);
    }
}

/// The index of every label that is a vertex of one of the graphs.
fn union_vocabulary<E>(graphs: &[AMGraph<E>]) -> (all: IndexMap)
    requires
        forall|i: int| 0 <= i < graphs@.len() ==> (#[trigger] graphs@[i]).wf(),
        vocabulary_total(graphs@) <= usize::MAX,
    ensures
        all.wf(),
        forall|x: Seq<u8>| #[trigger]
            all@.contains(x) <==> exists|i: int|
                0 <= i < graphs@.len() && (#[trigger] graphs@[i]).vocabulary().contains(x),
{
    let mut all = IndexTrie::new();
    let mut n: usize = 0;
    proof {
        assert(graphs@.take(0) =~= Seq::<AMGraph<E>>::empty());
    }
    while n < graphs.len()
        invariant
            n <= graphs@.len(),
            forall|i: int| 0 <= i < graphs@.len() ==> (#[trigger] graphs@[i]).wf(),
            vocabulary_total(graphs@) <= usize::MAX,
            all.wf(),
            all@.len() <= vocabulary_total(graphs@.take(n as int)),
            forall|x: Seq<u8>| #[trigger]
                all@.contains(x) <==> exists|i: int|
                    0 <= i < n && (#[trigger] graphs@[i]).vocabulary().contains(x),
        decreases graphs@.len() - n,
    {
        let graph = &graphs[n];
        let ghost vocabulary = graph.vocabulary();
        let ghost before = vocabulary_total(graphs@.take(n as int));
        let ghost mut m: int = 0;
        proof {
            assert(graphs@.take(n + 1).drop_last() =~= graphs@.take(n as int));
            assert(graphs@.take(n + 1).last() == graphs@[n as int]);
            lemma_vocabulary_total_grows(graphs@, n + 1);
            assert(vocabulary.skip(0) =~= vocabulary);
        }
        let mut it = graph.vertices();
        loop
            invariant
                n < graphs@.len(),
                vocabulary == graphs@[n as int].vocabulary(),
                before + vocabulary.len() <= usize::MAX,
                it.wf(),
                0 <= m <= vocabulary.len(),
                it.remaining() == vocabulary.skip(m),
                all.wf(),
                all@.len() <= before + m,
                forall|x: Seq<u8>| #[trigger]
                    all@.contains(x) <==> ((exists|i: int|
                        0 <= i < n && (#[trigger] graphs@[i]).vocabulary().contains(x))
                        || vocabulary.take(m).contains(x)),
            ensures
                m == vocabulary.len(),
                all.wf(),
                all@.len() <= before + m,
                forall|x: Seq<u8>| #[trigger]
                    all@.contains(x) <==> ((exists|i: int|
                        0 <= i < n && (#[trigger] graphs@[i]).vocabulary().contains(x))
                        || vocabulary.take(m).contains(x)),
            decreases it.remaining().len(),
        {
            match it.next() {
                Some(label) => {
                    let ghost prev = all@;
                    all.insert(label.as_str());
                    proof {
                        assert(encode_utf8(label@) == vocabulary[m]);
                        assert(vocabulary.skip(m).drop_first() =~= vocabulary.skip(m + 1));
                        assert(vocabulary.take(m + 1) =~= vocabulary.take(m).push(vocabulary[m]));
                        assert forall|x: Seq<u8>| #[trigger]
                            all@.contains(x) <==> ((exists|i: int|
                                0 <= i < n && (#[trigger] graphs@[i]).vocabulary().contains(x))
                                || vocabulary.take(m + 1).contains(x)) by {
                            let shorter = vocabulary.take(m);
                            let longer = vocabulary.take(m + 1);
                            if longer.contains(x) {
                                let g = choose|g: int| 0 <= g < longer.len() && longer[g] == x;
                                if g < m {
                                    assert(shorter[g] == x);
                                }
                            }
                            if shorter.contains(x) {
                                let g = choose|g: int| 0 <= g < shorter.len() && shorter[g] == x;
                                assert(longer[g] == x);
                            }
                            if x == vocabulary[m] {
                                assert(longer[m] == x);
                            }
                            assert(prev.contains(x) <==> ((exists|i: int|
                                0 <= i < n && (#[trigger] graphs@[i]).vocabulary().contains(x))
                                || vocabulary.take(m).contains(x)));
                        }
                        m = m + 1;
                    }
                },
                None => {
                    break ;
                },
            }
        }
        n += 1;
        proof {
            assert(vocabulary.take(m) =~= vocabulary);
            assert forall|x: Seq<u8>| #[trigger]
                all@.contains(x) <==> exists|i: int|
                    0 <= i < n && (#[trigger] graphs@[i]).vocabulary().contains(x) by {
                if vocabulary.contains(x) {
                    assert(graphs@[n - 1].vocabulary().contains(x));
                }
            }
        }
    }
    proof {
        assert(graphs@.take(n as int) =~= graphs@);
    }
    all
}

/// In distinct labels, one that stands at a position stands in front of it
/// nowhere.
proof fn lemma_not_before(labels: Seq<Seq<u8>>, m: int)
    requires
        strictly_sorted(labels),
        0 <= m < labels.len(),
    ensures
        !labels.take(m).contains(labels[m]),
{
    let front = labels.take(m);
    if front.contains(labels[m]) {
        let g = choose|g: int| 0 <= g < front.len() && front[g] == labels[m];
        assert(crate::bytes::lex_lt(labels[g], labels[m]));
        lemma_lex_lt_irreflexive(labels[m]);
    }
}

/// For each label of `all`, by rank, the number of graphs that have it among
/// their vertices.
fn count_occurrences<E>(graphs: &[AMGraph<E>], all: &IndexMap) -> (counts: Vec<usize>)
    requires
        forall|i: int| 0 <= i < graphs@.len() ==> (#[trigger] graphs@[i]).wf(),
        all.wf(),
        forall|i: int, x: Seq<u8>|
            0 <= i < graphs@.len() && (#[trigger] graphs@[i]).vocabulary().contains(x)
                ==> #[trigger] all@.contains(x),
    ensures
        counts@.len() == all@.len(),
        forall|r: int|
            0 <= r < all@.len() ==> counts@[r] == occurrences(graphs@, #[trigger] all@[r]),
{
    let size = all.len();
    let mut counts: Vec<usize> = Vec::new();
    while counts.len() < size
        invariant
            counts@.len() <= size,
            forall|r: int| 0 <= r < counts@.len() ==> counts@[r] == 0,
        decreases size - counts@.len(),
    {
        counts.push(0);
    }
    let mut n: usize = 0;
    proof {
        assert(graphs@.take(0) =~= Seq::<AMGraph<E>>::empty());
    }
    while n < graphs.len()
        invariant
            n <= graphs@.len(),
            forall|i: int| 0 <= i < graphs@.len() ==> (#[trigger] graphs@[i]).wf(),
            all.wf(),
            forall|i: int, x: Seq<u8>|
                0 <= i < graphs@.len() && (#[trigger] graphs@[i]).vocabulary().contains(x)
                    ==> #[trigger] all@.contains(x),
            counts@.len() == all@.len(),
            forall|r: int|
                0 <= r < all@.len() ==> counts@[r] == occurrences(
                    graphs@.take(n as int),
                    #[trigger] all@[r],
                ),
        decreases graphs@.len() - n,
    {
        let graph = &graphs[n];
        let ghost vocabulary = graph.vocabulary();
        let ghost done = graphs@.take(n as int);
        let ghost mut m: int = 0;
        proof {
            assert(graphs@.take(n + 1).drop_last() =~= done);
            assert(graphs@.take(n + 1).last() == graphs@[n as int]);
            assert(vocabulary.skip(0) =~= vocabulary);
            assert(graph.wf());
        }
        let mut it = graph.vertices();
        loop
            invariant
                n < graphs@.len(),
                graphs@.len() <= usize::MAX,
                done == graphs@.take(n as int),
                vocabulary == graphs@[n as int].vocabulary(),
                strictly_sorted(vocabulary),
                forall|x: Seq<u8>| vocabulary.contains(x) ==> #[trigger] all@.contains(x),
                all.wf(),
                it.wf(),
                0 <= m <= vocabulary.len(),
                it.remaining() == vocabulary.skip(m),
                counts@.len() == all@.len(),
                forall|r: int|
                    0 <= r < all@.len() ==> counts@[r] == occurrences(done, #[trigger] all@[r])
                        + if vocabulary.take(m).contains(all@[r]) {
                        1nat
                    } else {
                        0nat
                    },
            ensures
                m == vocabulary.len(),
                counts@.len() == all@.len(),
                forall|r: int|
                    0 <= r < all@.len() ==> counts@[r] == occurrences(done, #[trigger] all@[r])
                        + if vocabulary.take(m).contains(all@[r]) {
                        1nat
                    } else {
                        0nat
                    },
            decreases it.remaining().len(),
        {
            match it.next() {
                Some(label) => {
                    let ghost key = vocabulary[m];
                    let ghost prev = counts@;
                    proof {
                        assert(vocabulary.contains(key));
                    }
                    let rank = all.get(label.as_str()).unwrap();
                    proof {
                        lemma_not_before(vocabulary, m);
                        lemma_occurrences_bound(done, key);
                        assert(all@[rank as int] == key);
                        assert(counts@[rank as int] == occurrences(done, key));
                    }
                    let seen = counts[rank];
                    counts.set(rank, seen + 1);
                    proof {
                        let shorter = vocabulary.take(m);
                        let longer = vocabulary.take(m + 1);
                        assert(longer =~= shorter.push(key));
                        assert(vocabulary.skip(m).drop_first() =~= vocabulary.skip(m + 1));
                        assert forall|r: int| 0 <= r < all@.len() implies counts@[r]
                            == occurrences(done, #[trigger] all@[r]) + if longer.contains(all@[r]) {
                            1nat
                        } else {
                            0nat
                        } by {
                            let x = all@[r];
                            if r == rank {
                                assert(longer[m] == x);
                            } else {
                                if r < rank {
                                    assert(crate::bytes::lex_lt(all@[r], all@[rank as int]));
                                } else {
                                    assert(crate::bytes::lex_lt(all@[rank as int], all@[r]));
                                }
                                lemma_lex_lt_irreflexive(x);
                                if longer.contains(x) {
                                    let g = choose|g: int| 0 <= g < longer.len() && longer[g] == x;
                                    assert(shorter[g] == x);
                                }
                                if shorter.contains(x) {
                                    let g = choose|g: int|
                                        0 <= g < shorter.len() && shorter[g] == x;
                                    assert(longer[g] == x);
                                }
                            }
                        }
                        m = m + 1;
                    }
                },
                None => {
                    break ;
                },
            }
        }
        n += 1;
        proof {
            assert(vocabulary.take(m) =~= vocabulary);
        }
    }
    proof {
        assert(graphs@.take(n as int) =~= graphs@);
    }
    counts
}

/// The index of the labels that the graphs share: those that are a vertex of
/// more than `MIN_OCCURRENCES` of them. Its ranks give the features their
/// order.
pub fn shared_vocabulary<E>(graphs: &[AMGraph<E>]) -> (language: IndexMap)
    requires
        forall|i: int| 0 <= i < graphs@.len() ==> (#[trigger] graphs@[i]).wf(),
        vocabulary_total(graphs@) <= usize::MAX,
    ensures
        language.wf(),
        language@ == shared_labels(graphs@),
        is_shared_vocabulary(graphs@, language@),
{
    let all = union_vocabulary(graphs);
    let counts = count_occurrences(graphs, &all);
    let mut language = IndexTrie::new();
    let size = all.len();
    let mut r: usize = 0;
    while r < size
        invariant
            r <= size,
            size == all@.len(),
            all.wf(),
            counts@.len() == all@.len(),
            language.wf(),
            language@.len() <= r,
            forall|x: Seq<u8>| #[trigger]
                language@.contains(x) <==> exists|q: int|
                    0 <= q < r && #[trigger] all@[q] == x && counts@[q] > MIN_OCCURRENCES,
        decreases size - r,
    {
        if counts[r] > MIN_OCCURRENCES {
            let label = all.get(r).unwrap();
            let ghost prev = language@;
            language.insert(label.as_str());
            proof {
                assert forall|x: Seq<u8>| #[trigger]
                    language@.contains(x) <==> exists|q: int|
                        0 <= q < r + 1 && #[trigger] all@[q] == x && counts@[q]
                            > MIN_OCCURRENCES by {
                    if prev.contains(x) {
                        let q = choose|q: int|
                            0 <= q < r && #[trigger] all@[q] == x && counts@[q] > MIN_OCCURRENCES;
                        assert(0 <= q < r + 1);
                    }
                    if x == all@[r as int] {
                        assert(all@[r as int] == x && counts@[r as int] > MIN_OCCURRENCES);
                    }
                }
            }
        }
        r += 1;
    }
    proof {
        assert forall|x: Seq<u8>| #[trigger]
            language@.contains(x) <==> occurrences(graphs@, x) > MIN_OCCURRENCES by {
            if occurrences(graphs@, x) > MIN_OCCURRENCES {
                let i = lemma_occurrences_witness(graphs@, x);
                assert(all@.contains(x));
                let q = choose|q: int| 0 <= q < all@.len() && all@[q] == x;
                assert(counts@[q] == occurrences(graphs@, all@[q]));
            }
            if language@.contains(x) {
                let q = choose|q: int|
                    0 <= q < r && #[trigger] all@[q] == x && counts@[q] > MIN_OCCURRENCES;
                assert(counts@[q] == occurrences(graphs@, all@[q]));
            }
        }
        lemma_shared_vocabulary_unique(graphs@, language@);
    }
    language
}

/// What a graph has for the pair of labels `a` and `b`: the value of its
/// edge between them, and nothing where there is no such edge or where it
/// lacks one of the two as a vertex.
pub open spec fn cell<E>(graph: AMGraph<E>, a: Seq<u8>, b: Seq<u8>) -> Option<E> {
    if graph.vocabulary().contains(a) && graph.vocabulary().contains(b) {
        graph.edge_between(a, b)
    } else {
        None
    }
}

/// Whether an entry of a row stands for `value`.
pub open spec fn holds<E>(entry: Option<&E>, value: Option<E>) -> bool {
    match entry {
        Some(v) => value == Some(*v),
        None => value is None,
    }
}

/// Whether `row` is the row of `graph` in the table over the shared labels
/// `labels`: it has an entry for each unordered pair of them, at the slot of
/// the pair's ranks, and the entry holds what the graph has for the pair.
pub open spec fn is_row<E>(row: Seq<Option<&E>>, graph: AMGraph<E>, labels: Seq<Seq<u8>>) -> bool {
    &&& row.len() == triangle(labels.len())
    &&& forall|r: nat, c: nat|
        c <= r < labels.len() ==> holds(
            row[#[trigger] slot(r, c) as int],
            cell(graph, labels[r as int], labels[c as int]),
        )
}

/// What a graph has for a pair of labels in its slots in front of `p`.
spec fn cell_upto<E>(graph: AMGraph<E>, a: Seq<u8>, b: Seq<u8>, p: nat) -> Option<E> {
    if graph.vocabulary().contains(a) && graph.vocabulary().contains(b) && slot(
        rank_of(graph.vocabulary(), a) as nat,
        rank_of(graph.vocabulary(), b) as nat,
    ) < p {
        graph.edge_between(a, b)
    } else {
        None
    }
}

/// Whether `row` holds what the slots of `graph` in front of `p` give.
#[verifier::opaque]
spec fn row_upto<E>(row: Seq<Option<&E>>, graph: AMGraph<E>, labels: Seq<Seq<u8>>, p: nat) -> bool {
    &&& row.len() == triangle(labels.len())
    &&& forall|r: nat, c: nat|
        c <= r < labels.len() ==> holds(
            row[#[trigger] slot(r, c) as int],
            cell_upto(graph, labels[r as int], labels[c as int], p),
        )
}

/// The rank of a vertex label in its graph.
proof fn lemma_vertex_rank<E>(graph: AMGraph<E>, a: Seq<u8>) -> (i: nat)
    requires
        graph.wf(),
        graph.vocabulary().contains(a),
    ensures
        i == rank_of(graph.vocabulary(), a),
        i < graph.vocabulary().len(),
        graph.vocabulary()[i as int] == a,
{
    let v = graph.vocabulary();
    let i = choose|i: int| 0 <= i < v.len() && v[i] == a;
    lemma_rank_of_member(v, i);
    i as nat
}

/// Slots without a value change nothing in a row.
proof fn lemma_row_skip<E>(
    row: Seq<Option<&E>>,
    graph: AMGraph<E>,
    labels: Seq<Seq<u8>>,
    p: nat,
    q: nat,
)
    requires
        graph.wf(),
        p <= q <= graph.slots().len(),
        forall|x: int| p <= x < q ==> graph.slots()[x] is None,
        row_upto(row, graph, labels, p),
    ensures
        row_upto(row, graph, labels, q),
{
    reveal(row_upto);
    assert forall|r: nat, c: nat| c <= r < labels.len() implies holds(
        row[#[trigger] slot(r, c) as int],
        cell_upto(graph, labels[r as int], labels[c as int], q),
    ) by {
        let a = labels[r as int];
        let b = labels[c as int];
        assert(holds(row[slot(r, c) as int], cell_upto(graph, a, b, p)));
        if graph.vocabulary().contains(a) && graph.vocabulary().contains(b) {
            let i = lemma_vertex_rank(graph, a);
            let j = lemma_vertex_rank(graph, b);
            let s = slot(i, j);
            if p <= s < q {
                assert(graph.slots()[s as int] is None);
            }
        }
    }
}

/// Once all the slots of the graph are done, the row is the graph's row.
proof fn lemma_row_done<E>(row: Seq<Option<&E>>, graph: AMGraph<E>, labels: Seq<Seq<u8>>)
    requires
        graph.wf(),
        row_upto(row, graph, labels, graph.slots().len()),
    ensures
        is_row(row, graph, labels),
{
    reveal(row_upto);
    assert forall|r: nat, c: nat| c <= r < labels.len() implies holds(
        row[#[trigger] slot(r, c) as int],
        cell(graph, labels[r as int], labels[c as int]),
    ) by {
        let a = labels[r as int];
        let b = labels[c as int];
        assert(holds(row[slot(r, c) as int], cell_upto(graph, a, b, graph.slots().len())));
        if graph.vocabulary().contains(a) && graph.vocabulary().contains(b) {
            let i = lemma_vertex_rank(graph, a);
            let j = lemma_vertex_rank(graph, b);
            lemma_slot_in_range(i, j, graph.vocabulary().len());
        }
    }
}

/// What the edge in slot `q` of the graph does to a row: where both its
/// labels are shared, its value goes to the slot of their ranks among the
/// shared labels, and otherwise nothing changes.
proof fn lemma_row_step<E>(
    before: Seq<Option<&E>>,
    after: Seq<Option<&E>>,
    graph: AMGraph<E>,
    labels: Seq<Seq<u8>>,
    q: nat,
    v1: Option<usize>,
    v2: Option<usize>,
    e: &E,
)
    requires
        graph.wf(),
        strictly_sorted(labels),
        q < graph.slots().len(),
        graph.slots()[q as int] == Some(*e),
        row_upto(before, graph, labels, q),
        match v1 {
            Some(i) => i < labels.len() && labels[i as int] == graph.vocabulary()[row_of(q) as int],
            None => !labels.contains(graph.vocabulary()[row_of(q) as int]),
        },
        match v2 {
            Some(i) => i < labels.len() && labels[i as int] == graph.vocabulary()[col_of(q) as int],
            None => !labels.contains(graph.vocabulary()[col_of(q) as int]),
        },
        after == if v1 is Some && v2 is Some {
            before.update(slot(v1->0 as nat, v2->0 as nat) as int, Some(e))
        } else {
            before
        },
    ensures
        row_upto(after, graph, labels, q + 1),
{
    reveal(row_upto);
    let vocabulary = graph.vocabulary();
    let gr = row_of(q);
    let gc = col_of(q);
    lemma_slot_of_row_col(q);
    lemma_row_of_bounds(q);
    if gr >= vocabulary.len() {
        lemma_triangle_monotonic(vocabulary.len(), gr);
    }
    let a0 = vocabulary[gr as int];
    let b0 = vocabulary[gc as int];
    assert(vocabulary.contains(a0));
    assert(vocabulary.contains(b0));
    if v1 is Some && v2 is Some {
        lemma_slot_in_range(v1->0 as nat, v2->0 as nat, labels.len());
    }
    assert forall|r: nat, c: nat| c <= r < labels.len() implies holds(
        after[#[trigger] slot(r, c) as int],
        cell_upto(graph, labels[r as int], labels[c as int], q + 1),
    ) by {
        let a = labels[r as int];
        let b = labels[c as int];
        assert(labels.contains(a));
        assert(labels.contains(b));
        lemma_slot_in_range(r, c, labels.len());
        assert(holds(before[slot(r, c) as int], cell_upto(graph, a, b, q)));
        // Whether this entry is the one written.
        let written = v1 is Some && v2 is Some && slot(v1->0 as nat, v2->0 as nat) == slot(r, c);
        // Whether this pair of labels is the pair of the edge.
        let same = (a == a0 && b == b0) || (a == b0 && b == a0);
        if written {
            lemma_slot_injective(v1->0 as nat, v2->0 as nat, r, c);
            assert(same);
        }
        if vocabulary.contains(a) && vocabulary.contains(b) {
            let i = lemma_vertex_rank(graph, a);
            let j = lemma_vertex_rank(graph, b);
            if slot(i, j) == q {
                lemma_slot_injective(i, j, gr, gc);
                assert(same);
            }
            if same {
                lemma_position_unique(vocabulary, i as int, if a == a0 { gr as int } else { gc as int });
                lemma_position_unique(vocabulary, j as int, if b == b0 { gc as int } else { gr as int });
                assert(slot(i, j) == q);
                assert(v1 is Some && v2 is Some);
                lemma_position_unique(labels, v1->0 as int, if a == a0 { r as int } else { c as int });
                lemma_position_unique(labels, v2->0 as int, if b == b0 { c as int } else { r as int });
                assert(written);
            }
        }
    }
}

/// The slot of the feature for the pair of shared labels of ranks `i1` and
/// `i2`.
pub fn term_indices_to_edge_index(i1: usize, i2: usize) -> (index: usize)
    requires
        slot(i1 as nat, i2 as nat) <= usize::MAX,
    ensures
        index == slot(i1 as nat, i2 as nat),
{
    let row = if i1 >= i2 { i1 } else { i2 };
    let col = if i1 >= i2 { i2 } else { i1 };
    triangle_of(row) + col
}

/// The row of one graph in the table of features over the shared vocabulary
/// `language`.
pub fn vectorize_row<'a, E>(graph: &'a AMGraph<E>, language: &IndexMap) -> (row: Vec<
    Option<&'a E>,
>)
    requires
        graph.wf(),
        language.wf(),
        triangle(language@.len()) <= usize::MAX,
    ensures
        is_row(row@, *graph, language@),
{
    let dim = language.len();
    let len = triangle_of(dim);
    let mut row: Vec<Option<&'a E>> = Vec::new();
    while row.len() < len
        invariant
            row@.len() <= len,
            forall|p: int| 0 <= p < row@.len() ==> row@[p] is None,
        decreases len - row@.len(),
    {
        row.push(None);
    }
    let mut it = graph.edges();
    proof {
        reveal(row_upto);
        assert forall|r: nat, c: nat| c <= r < language@.len() implies holds(
            row@[#[trigger] slot(r, c) as int],
            cell_upto(*graph, language@[r as int], language@[c as int], 0),
        ) by {
            lemma_slot_in_range(r, c, language@.len());
        }
    }
    loop
        invariant
            graph.wf(),
            language.wf(),
            it.wf(),
            it.graph() == *graph,
            it.position() <= graph.slots().len(),
            row@.len() == triangle(language@.len()),
            triangle(language@.len()) <= usize::MAX,
            row_upto(row@, *graph, language@, it.position()),
        ensures
            is_row(row@, *graph, language@),
        decreases graph.slots().len() - it.position(),
    {
        let ghost p = it.position();
        let ghost before = row@;
        match it.next() {
            Some((row_label, col_label, e)) => {
                let ghost q = (it.position() - 1) as nat;
                proof {
                    lemma_row_skip(before, *graph, language@, p, q);
                }
                let v1 = language.get(row_label.as_str());
                let v2 = language.get(col_label.as_str());
                if let (Some(i1), Some(i2)) = (v1, v2) {
                    proof {
                        lemma_slot_in_range(i1 as nat, i2 as nat, language@.len());
                    }
                    let index = term_indices_to_edge_index(i1, i2);
                    row.set(index, Some(e));
                }
                proof {
                    lemma_row_step(before, row@, *graph, language@, q, v1, v2, e);
                }
            },
            None => {
                proof {
                    lemma_row_skip(before, *graph, language@, p, graph.slots().len());
                    lemma_row_done(before, *graph, language@);
                }
                break ;
            },
        }
    }
    row
}

/// Converts graphs into a table of features.
///
/// The table has a row for each graph, in their order, and a column for each
/// unordered pair of labels of the vocabulary that the graphs share, a label
/// with itself included, at the slot of the two ranks. An entry holds the
/// value of the graph's edge between the two labels. It is `None` where the
/// graph has no such edge; edges to a label that is not shared are left out.
pub fn vectorize<'a, E>(graphs: &'a [AMGraph<E>]) -> (rows: Vec<Vec<Option<&'a E>>>)
    requires
        forall|i: int| 0 <= i < graphs@.len() ==> (#[trigger] graphs@[i]).wf(),
        vocabulary_total(graphs@) <= usize::MAX,
        triangle(shared_labels(graphs@).len()) <= usize::MAX,
    ensures
        rows@.len() == graphs@.len(),
        forall|i: int|
            0 <= i < graphs@.len() ==> is_row(
                (#[trigger] rows@[i])@,
                graphs@[i],
                shared_labels(graphs@),
            ),
{
    let language = shared_vocabulary(graphs);
    let mut rows: Vec<Vec<Option<&'a E>>> = Vec::new();
    let mut n: usize = 0;
    while n < graphs.len()
        invariant
            n <= graphs@.len(),
            forall|i: int| 0 <= i < graphs@.len() ==> (#[trigger] graphs@[i]).wf(),
            language.wf(),
            language@ == shared_labels(graphs@),
            triangle(language@.len()) <= usize::MAX,
            rows@.len() == n,
            forall|i: int|
                0 <= i < n ==> is_row((#[trigger] rows@[i])@, graphs@[i], language@),
        decreases graphs@.len() - n,
    {
        let row = vectorize_row(&graphs[n], &language);
        rows.push(row);
        n += 1;
    }
    rows
}

/// The columns of a table that a selection keeps, in their order: the
/// column that stands at position `j` of the result becomes column `j` when
/// the table is packed anew.
pub fn kept_columns(keep: &[bool]) -> (columns: Vec<usize>)
    ensures
        forall|j: int|
            0 <= j < columns@.len() ==> (#[trigger] columns@[j]) < keep@.len() && keep@[columns@[j] as int],
        forall|j: int, k: int|
            0 <= j < k < columns@.len() ==> (#[trigger] columns@[j]) < (#[trigger] columns@[k]),
        forall|i: int| 0 <= i < keep@.len() && #[trigger] keep@[i] ==> columns@.contains(i as usize),
{
    let mut columns: Vec<usize> = Vec::new();
    let mut i: usize = 0;
    while i < keep.len()
        invariant
            i <= keep@.len(),
            forall|j: int|
                0 <= j < columns@.len() ==> (#[trigger] columns@[j]) < i && keep@[columns@[j] as int],
            forall|j: int, k: int|
                0 <= j < k < columns@.len() ==> (#[trigger] columns@[j]) < (
                #[trigger] columns@[k]),
            forall|x: int| 0 <= x < i && #[trigger] keep@[x] ==> columns@.contains(x as usize),
        decreases keep@.len() - i,
    {
        if keep[i] {
            let ghost before = columns@;
            columns.push(i);
            proof {
                assert(columns@[before.len() as int] == i);
                assert forall|x: int| 0 <= x < i + 1 && #[trigger] keep@[x] implies columns@.contains(
                    x as usize,
                ) by {
                    if x < i {
                        let j = choose|j: int| 0 <= j < before.len() && before[j] == x as usize;
                        assert(columns@[j] == x as usize);
                    }
                }
            }
        }
        i += 1;
    }
    columns
}

} // verus!
