//! Holding a clustering against the clusters that the names of the items
//! tell.
//!
//! The name of an item begins with the label of its true cluster, up to the
//! first hyphen. The clusters that a clustering has found carry numbers of
//! their own, so they are matched with the true ones first: again and again
//! the found cluster and the true cluster that share the most items are
//! paired, among those that are not paired yet.

use crate::graph::index_trie::{
    lemma_rank_of_member, lemma_sorted_determined, rank_of, strictly_sorted, IndexTrie,
};
use crate::bytes::{chars_of, string_of};
use vstd::prelude::*;
use vstd::utf8::encode_utf8;

verus! {

/// Whether `label` is the label of the cluster in `name`: what stands in
/// front of its first hyphen, or all of it where it has none.
pub open spec fn is_label(name: Seq<char>, label: Seq<char>) -> bool {
    &&& label.len() <= name.len()
    &&& label == name.take(label.len() as int)
    &&& forall|j: int| 0 <= j < label.len() ==> #[trigger] name[j] != '-'
    &&& label.len() < name.len() ==> name[label.len() as int] == '-'
}

/// A name has one label.
pub proof fn lemma_label_unique(name: Seq<char>, a: Seq<char>, b: Seq<char>)
    requires
        is_label(name, a),
        is_label(name, b),
    ensures
        a == b,
{
    if a.len() < b.len() {
        assert(name[a.len() as int] != '-');
    } else if b.len() < a.len() {
        assert(name[b.len() as int] != '-');
    }
}

/// The label of the cluster in a name.
pub open spec fn label_of(name: Seq<char>) -> Seq<char> {
    choose|label: Seq<char>| is_label(name, label)
}

/// The label of the cluster in a name.
pub fn cluster_label(name: &str) -> (label: String)
    ensures
        is_label(name@, label@),
        label@ == label_of(name@),
{
    let chars = chars_of(name);
    let mut front: Vec<char> = Vec::new();
    let mut i: usize = 0;
    while i < chars.len() && chars[i] != '-'
        invariant
            i <= chars@.len(),
            front@ == chars@.take(i as int),
            forall|j: int| 0 <= j < i ==> #[trigger] chars@[j] != '-',
        decreases chars@.len() - i,
    {
        front.push(chars[i]);
        proof {
            assert(front@ =~= chars@.take(i + 1));
        }
        i += 1;
    }
    let label = string_of(&front);
    proof {
        lemma_label_unique(name@, label@, label_of(name@));
    }
    label
}

/// Whether `labels` are the labels of the clusters in the names, each once,
/// in ascending order.
pub open spec fn is_label_index(names: Seq<Seq<char>>, labels: Seq<Seq<u8>>) -> bool {
    &&& strictly_sorted(labels)
    &&& forall|x: Seq<u8>| #[trigger]
        labels.contains(x) <==> exists|i: int|
            0 <= i < names.len() && x == encode_utf8(label_of(#[trigger] names[i]))
}

/// The labels of the clusters in the names, each once, in ascending order.
pub open spec fn label_index(names: Seq<Seq<char>>) -> Seq<Seq<u8>> {
    choose|labels: Seq<Seq<u8>>| is_label_index(names, labels)
}

/// For each name the number of its true cluster: the rank of the label in
/// the name among the labels in all the names.
pub fn names_to_clusters(names: &[String]) -> (truth: Vec<usize>)
    ensures
        truth@.len() == names@.len(),
        forall|i: int|
            0 <= i < names@.len() ==> (#[trigger] truth@[i]) == rank_of(
                label_index(Seq::new(names@.len(), |i: int| names@[i]@)),
                encode_utf8(label_of(names@[i]@)),
            ),
        forall|i: int|
            0 <= i < names@.len() ==> (#[trigger] truth@[i]) < label_index(
                Seq::new(names@.len(), |i: int| names@[i]@),
            ).len(),
{
    let ghost given = Seq::new(names@.len(), |i: int| names@[i]@);
    let mut map = IndexTrie::new();
    let mut n: usize = 0;
    while n < names.len()
        invariant
            n <= names@.len(),
            given == Seq::new(names@.len(), |i: int| names@[i]@),
            map.wf(),
            map@.len() <= n,
            forall|x: Seq<u8>| #[trigger]
                map@.contains(x) <==> exists|i: int|
                    0 <= i < n && x == encode_utf8(label_of(#[trigger] given[i])),
        decreases names@.len() - n,
    {
        let label = cluster_label(names[n].as_str());
        let ghost prev = map@;
        map.insert(label.as_str());
        proof {
            assert(label@ == label_of(given[n as int]));
            assert forall|x: Seq<u8>| #[trigger]
                map@.contains(x) <==> exists|i: int|
                    0 <= i < n + 1 && x == encode_utf8(label_of(#[trigger] given[i])) by {
                if prev.contains(x) {
                    let i = choose|i: int|
                        0 <= i < n && x == encode_utf8(label_of(#[trigger] given[i]));
                    assert(0 <= i < n + 1);
                }
                if x == encode_utf8(label@) {
                    assert(x == encode_utf8(label_of(given[n as int])));
                }
            }
        }
        n += 1;
    }
    proof {
        assert(is_label_index(given, map@));
        let chosen = label_index(given);
        assert(is_label_index(given, chosen));
        assert forall|x: Seq<u8>| map@.contains(x) <==> chosen.contains(x) by {}
        lemma_sorted_determined(map@, chosen);
    }
    let mut truth: Vec<usize> = Vec::new();
    let mut n: usize = 0;
    while n < names.len()
        invariant
            n <= names@.len(),
            given == Seq::new(names@.len(), |i: int| names@[i]@),
            map.wf(),
            map@ == label_index(given),
            is_label_index(given, map@),
            truth@.len() == n,
            forall|i: int|
                0 <= i < n ==> (#[trigger] truth@[i]) == rank_of(
                    map@,
                    encode_utf8(label_of(given[i])),
                ) && truth@[i] < map@.len(),
        decreases names@.len() - n,
    {
        let label = cluster_label(names[n].as_str());
        proof {
            assert(label@ == label_of(given[n as int]));
            assert(map@.contains(encode_utf8(label@)));
        }
        let rank = map.get(label.as_str()).unwrap();
        proof {
            lemma_rank_of_member(map@, rank as int);
        }
        truth.push(rank);
        n += 1;
    }
    truth
}

/// The number of items that a clustering has put in the cluster `p` and
/// that are of the true cluster `t`.
pub open spec fn overlap(pred: Seq<usize>, truth: Seq<usize>, p: usize, t: usize) -> nat
    decreases pred.len(),
{
    if pred.len() == 0 || truth.len() != pred.len() {
        0
    } else {
        overlap(pred.drop_last(), truth.drop_last(), p, t) + if pred.last() == p && truth.last()
            == t {
            1nat
        } else {
            0nat
        }
    }
}

/// The number of items that a clustering has put in the cluster `p` and
/// that are of the true cluster `t`.
pub fn count_overlap(pred: &[usize], truth: &[usize], p: usize, t: usize) -> (count: usize)
    requires
        pred@.len() == truth@.len(),
    ensures
        count == overlap(pred@, truth@, p, t),
{
    let mut count: usize = 0;
    let mut i: usize = 0;
    while i < pred.len()
        invariant
            i <= pred@.len(),
            pred@.len() == truth@.len(),
            count <= i,
            count == overlap(pred@.take(i as int), truth@.take(i as int), p, t),
        decreases pred@.len() - i,
    {
        proof {
            assert(pred@.take(i + 1).drop_last() =~= pred@.take(i as int));
            assert(truth@.take(i + 1).drop_last() =~= truth@.take(i as int));
        }
        if pred[i] == p && truth[i] == t {
            count += 1;
        }
        i += 1;
    }
    proof {
        assert(pred@.take(i as int) =~= pred@);
        assert(truth@.take(i as int) =~= truth@);
    }
    count
}

/// Whether the found cluster `p` is not paired in the first `k` of the
/// pairs.
pub open spec fn free_found(pairs: Seq<(usize, usize)>, k: int, p: usize) -> bool {
    forall|j: int| 0 <= j < k && j < pairs.len() ==> (#[trigger] pairs[j]).0 != p
}

/// Whether the true cluster `t` is not paired in the first `k` of the pairs.
pub open spec fn free_true(pairs: Seq<(usize, usize)>, k: int, t: usize) -> bool {
    forall|j: int| 0 <= j < k && j < pairs.len() ==> (#[trigger] pairs[j]).1 != t
}

/// Whether `pairs` match the found clusters with the true ones, of which
/// there are `clusters` each: every cluster is paired once, and each pair in
/// its turn shares the most items among the clusters still free.
pub open spec fn is_matching(
    pred: Seq<usize>,
    truth: Seq<usize>,
    clusters: usize,
    pairs: Seq<(usize, usize)>,
) -> bool {
    &&& pairs.len() == clusters
    &&& forall|k: int|
        0 <= k < pairs.len() ==> {
            &&& (#[trigger] pairs[k]).0 < clusters
            &&& pairs[k].1 < clusters
            &&& free_found(pairs, k, pairs[k].0)
            &&& free_true(pairs, k, pairs[k].1)
        }
    &&& forall|k: int, p: usize, t: usize|
        0 <= k < pairs.len() && p < clusters && t < clusters && #[trigger] free_found(pairs, k, p)
            && #[trigger] free_true(pairs, k, t) ==> overlap(pred, truth, p, t) <= overlap(
            pred,
            truth,
            pairs[k].0,
            pairs[k].1,
        )
}

/// Matches the clusters that a clustering has found with the true ones.
/// Returns the pairs in the order in which they are made, each as the found
/// cluster and the true one.
pub fn match_clusters(pred: &[usize], truth: &[usize], clusters: usize) -> (pairs: Vec<
    (usize, usize),
>)
    requires
        pred@.len() == truth@.len(),
    ensures
        is_matching(pred@, truth@, clusters, pairs@),
{
    let mut pairs: Vec<(usize, usize)> = Vec::new();
    let mut remaining_p: Vec<usize> = Vec::new();
    let mut remaining_t: Vec<usize> = Vec::new();
    let mut c: usize = 0;
    while c < clusters
        invariant
            c <= clusters,
            remaining_p@.len() == c,
            remaining_t@ == remaining_p@,
            forall|i: int| 0 <= i < c ==> #[trigger] remaining_p@[i] == i,
        decreases clusters - c,
    {
        remaining_p.push(c);
        remaining_t.push(c);
        c += 1;
    }
    proof {
        assert forall|p: usize| p < clusters implies #[trigger] remaining_p@.contains(p) by {
            assert(remaining_p@[p as int] == p);
        }
    }
    while remaining_p.len() > 0
        invariant
            pairs@.len() + remaining_p@.len() == clusters,
            remaining_t@.len() == remaining_p@.len(),
            pred@.len() == truth@.len(),
            forall|p: usize|
                p < clusters ==> (#[trigger] remaining_p@.contains(p) <==> free_found(
                    pairs@,
                    pairs@.len() as int,
                    p,
                )),
            forall|t: usize|
                t < clusters ==> (#[trigger] remaining_t@.contains(t) <==> free_true(
                    pairs@,
                    pairs@.len() as int,
                    t,
                )),
            forall|i: int| 0 <= i < remaining_p@.len() ==> #[trigger] remaining_p@[i] < clusters,
            forall|i: int| 0 <= i < remaining_t@.len() ==> #[trigger] remaining_t@[i] < clusters,
            forall|i: int, j: int|
                0 <= i < j < remaining_p@.len() ==> #[trigger] remaining_p@[i]
                    != #[trigger] remaining_p@[j],
            forall|i: int, j: int|
                0 <= i < j < remaining_t@.len() ==> #[trigger] remaining_t@[i]
                    != #[trigger] remaining_t@[j],
            forall|k: int|
                0 <= k < pairs@.len() ==> {
                    &&& (#[trigger] pairs@[k]).0 < clusters
                    &&& pairs@[k].1 < clusters
                    &&& free_found(pairs@, k, pairs@[k].0)
                    &&& free_true(pairs@, k, pairs@[k].1)
                },
            forall|k: int, p: usize, t: usize|
                0 <= k < pairs@.len() && p < clusters && t < clusters && #[trigger] free_found(
                    pairs@,
                    k,
                    p,
                ) && #[trigger] free_true(pairs@, k, t) ==> overlap(pred@, truth@, p, t) <= overlap(
                    pred@,
                    truth@,
                    pairs@[k].0,
                    pairs@[k].1,
                ),
        decreases remaining_p@.len(),
    {
        // The free clusters that share the most items, by their places
        // among the free ones.
        let mut best_i: usize = 0;
        let mut best_j: usize = 0;
        let mut best: usize = count_overlap(pred, truth, remaining_p[0], remaining_t[0]);
        let mut i: usize = 0;
        while i < remaining_p.len()
            invariant
                i <= remaining_p@.len(),
                remaining_p@.len() > 0,
                remaining_t@.len() == remaining_p@.len(),
                pred@.len() == truth@.len(),
                best_i < remaining_p@.len(),
                best_j < remaining_t@.len(),
                best == overlap(
                    pred@,
                    truth@,
                    remaining_p@[best_i as int],
                    remaining_t@[best_j as int],
                ),
                forall|a: int, b: int|
                    0 <= a < i && 0 <= b < remaining_t@.len() ==> overlap(
                        pred@,
                        truth@,
                        #[trigger] remaining_p@[a],
                        #[trigger] remaining_t@[b],
                    ) <= best,
            decreases remaining_p@.len() - i,
        {
            let mut j: usize = 0;
            while j < remaining_t.len()
                invariant
                    i < remaining_p@.len(),
                    j <= remaining_t@.len(),
                    remaining_t@.len() == remaining_p@.len(),
                    pred@.len() == truth@.len(),
                    best_i < remaining_p@.len(),
                    best_j < remaining_t@.len(),
                    best == overlap(
                        pred@,
                        truth@,
                        remaining_p@[best_i as int],
                        remaining_t@[best_j as int],
                    ),
                    forall|a: int, b: int|
                        0 <= a < i && 0 <= b < remaining_t@.len() ==> overlap(
                            pred@,
                            truth@,
                            #[trigger] remaining_p@[a],
                            #[trigger] remaining_t@[b],
                        ) <= best,
                    forall|b: int|
                        0 <= b < j ==> overlap(
                            pred@,
                            truth@,
                            remaining_p@[i as int],
                            #[trigger] remaining_t@[b],
                        ) <= best,
                decreases remaining_t@.len() - j,
            {
                let shared = count_overlap(pred, truth, remaining_p[i], remaining_t[j]);
                if shared >= best {
                    best = shared;
                    best_i = i;
                    best_j = j;
                }
                j += 1;
            }
            i += 1;
        }
        let ghost before = pairs@;
        let ghost free_p = remaining_p@;
        let ghost free_t = remaining_t@;
        let p = remaining_p.remove(best_i);
        let t = remaining_t.remove(best_j);
        pairs.push((p, t));
        proof {
            let k = before.len() as int;
            assert(pairs@[k] == (p, t));
            assert(free_p.contains(p));
            assert(free_t.contains(t));
            assert forall|j: int| 0 <= j < k implies pairs@[j] == before[j] by {}
            assert forall|q: usize| q < clusters implies (#[trigger] remaining_p@.contains(q)
                <==> free_found(pairs@, k + 1, q)) by {
                assert(free_p.contains(q) <==> free_found(before, k, q));
                if remaining_p@.contains(q) {
                    let a = choose|a: int| 0 <= a < remaining_p@.len() && remaining_p@[a] == q;
                    let old_a = if a < best_i { a } else { a + 1 };
                    assert(free_p[old_a] == q);
                    assert(q != p);
                    assert forall|j: int| 0 <= j < k + 1 && j < pairs@.len() implies (
                    #[trigger] pairs@[j]).0 != q by {
                        if j < k {
                            assert(before[j].0 != q);
                        }
                    }
                }
                if free_found(pairs@, k + 1, q) {
                    assert(pairs@[k].0 != q);
                    assert forall|j: int| 0 <= j < k && j < before.len() implies (
                    #[trigger] before[j]).0 != q by {
                        assert(pairs@[j].0 != q);
                    }
                    let a = choose|a: int| 0 <= a < free_p.len() && free_p[a] == q;
                    let new_a = if a < best_i { a } else { a - 1 };
                    assert(remaining_p@[new_a] == q);
                }
            }
            assert forall|q: usize| q < clusters implies (#[trigger] remaining_t@.contains(q)
                <==> free_true(pairs@, k + 1, q)) by {
                assert(free_t.contains(q) <==> free_true(before, k, q));
                if remaining_t@.contains(q) {
                    let a = choose|a: int| 0 <= a < remaining_t@.len() && remaining_t@[a] == q;
                    let old_a = if a < best_j { a } else { a + 1 };
                    assert(free_t[old_a] == q);
                    assert(q != t);
                    assert forall|j: int| 0 <= j < k + 1 && j < pairs@.len() implies (
                    #[trigger] pairs@[j]).1 != q by {
                        if j < k {
                            assert(before[j].1 != q);
                        }
                    }
                }
                if free_true(pairs@, k + 1, q) {
                    assert(pairs@[k].1 != q);
                    assert forall|j: int| 0 <= j < k && j < before.len() implies (
                    #[trigger] before[j]).1 != q by {
                        assert(pairs@[j].1 != q);
                    }
                    let a = choose|a: int| 0 <= a < free_t.len() && free_t[a] == q;
                    let new_a = if a < best_j { a } else { a - 1 };
                    assert(remaining_t@[new_a] == q);
                }
            }
            assert forall|i: int, j: int| 0 <= i < j < remaining_p@.len() implies (
            #[trigger] remaining_p@[i]) != (#[trigger] remaining_p@[j]) by {
                let oi = if i < best_i { i } else { i + 1 };
                let oj = if j < best_i { j } else { j + 1 };
                assert(free_p[oi] != free_p[oj]);
            }
            assert forall|i: int, j: int| 0 <= i < j < remaining_t@.len() implies (
            #[trigger] remaining_t@[i]) != (#[trigger] remaining_t@[j]) by {
                let oi = if i < best_j { i } else { i + 1 };
                let oj = if j < best_j { j } else { j + 1 };
                assert(free_t[oi] != free_t[oj]);
            }
            assert forall|j: int| 0 <= j < pairs@.len() implies {
                &&& (#[trigger] pairs@[j]).0 < clusters
                &&& pairs@[j].1 < clusters
                &&& free_found(pairs@, j, pairs@[j].0)
                &&& free_true(pairs@, j, pairs@[j].1)
            } by {
                if j < k {
                    assert(free_found(before, j, before[j].0));
                    assert(free_true(before, j, before[j].1));
                    assert forall|h: int| 0 <= h < j && h < pairs@.len() implies (
                    #[trigger] pairs@[h]).0 != pairs@[j].0 by {
                        assert(before[h].0 != before[j].0);
                    }
                    assert forall|h: int| 0 <= h < j && h < pairs@.len() implies (
                    #[trigger] pairs@[h]).1 != pairs@[j].1 by {
                        assert(before[h].1 != before[j].1);
                    }
                } else {
                    assert(free_found(before, k, p));
                    assert(free_true(before, k, t));
                    assert forall|h: int| 0 <= h < j && h < pairs@.len() implies (
                    #[trigger] pairs@[h]).0 != p by {
                        assert(before[h].0 != p);
                    }
                    assert forall|h: int| 0 <= h < j && h < pairs@.len() implies (
                    #[trigger] pairs@[h]).1 != t by {
                        assert(before[h].1 != t);
                    }
                }
            }
            assert forall|j: int, q: usize, u: usize|
                0 <= j < pairs@.len() && q < clusters && u < clusters && #[trigger] free_found(
                    pairs@,
                    j,
                    q,
                ) && #[trigger] free_true(pairs@, j, u) implies overlap(pred@, truth@, q, u)
                <= overlap(pred@, truth@, pairs@[j].0, pairs@[j].1) by {
                if j < k {
                    assert forall|h: int| 0 <= h < j && h < before.len() implies (
                    #[trigger] before[h]).0 != q by {
                        assert(pairs@[h].0 != q);
                    }
                    assert forall|h: int| 0 <= h < j && h < before.len() implies (
                    #[trigger] before[h]).1 != u by {
                        assert(pairs@[h].1 != u);
                    }
                    assert(free_found(before, j, q));
                    assert(free_true(before, j, u));
                } else {
                    assert forall|h: int| 0 <= h < k && h < before.len() implies (
                    #[trigger] before[h]).0 != q by {
                        assert(pairs@[h].0 != q);
                    }
                    assert forall|h: int| 0 <= h < k && h < before.len() implies (
                    #[trigger] before[h]).1 != u by {
                        assert(pairs@[h].1 != u);
                    }
                    assert(free_found(before, k, q));
                    assert(free_true(before, k, u));
                    assert(free_p.contains(q));
                    assert(free_t.contains(u));
                    let a = choose|a: int| 0 <= a < free_p.len() && free_p[a] == q;
                    let b = choose|b: int| 0 <= b < free_t.len() && free_t[b] == u;
                    assert(overlap(pred@, truth@, free_p[a], free_t[b]) <= best);
                }
            }
        }
    }
    pairs
}

/// Whether the found cluster `p` is paired in `pairs`.
pub open spec fn is_paired(pairs: Seq<(usize, usize)>, p: usize) -> bool {
    exists|k: int| 0 <= k < pairs.len() && (#[trigger] pairs[k]).0 == p
}

/// The clusters of a clustering under the numbers of the true clusters that
/// they are paired with.
pub fn relabel(pred: &[usize], pairs: &[(usize, usize)]) -> (renamed: Vec<usize>)
    requires
        forall|i: int| 0 <= i < pred@.len() ==> is_paired(pairs@, #[trigger] pred@[i]),
    ensures
        renamed@.len() == pred@.len(),
        forall|i: int|
            0 <= i < pred@.len() ==> pairs@.contains((pred@[i], #[trigger] renamed@[i])),
{
    let mut renamed: Vec<usize> = Vec::new();
    let mut i: usize = 0;
    while i < pred.len()
        invariant
            i <= pred@.len(),
            renamed@.len() == i,
            forall|i: int| 0 <= i < pred@.len() ==> is_paired(pairs@, #[trigger] pred@[i]),
            forall|n: int| 0 <= n < i ==> pairs@.contains((pred@[n], #[trigger] renamed@[n])),
        decreases pred@.len() - i,
    {
        let found = pred[i];
        let mut k: usize = 0;
        proof {
            assert(is_paired(pairs@, pred@[i as int]));
        }
        while pairs[k].0 != found
            invariant
                k < pairs@.len(),
                exists|w: int| k <= w < pairs@.len() && (#[trigger] pairs@[w]).0 == found,
            decreases pairs@.len() - k,
        {
            proof {
                let w = choose|w: int| k <= w < pairs@.len() && (#[trigger] pairs@[w]).0 == found;
                assert(k + 1 <= w);
            }
            k += 1;
        }
        let ghost before = renamed@;
        renamed.push(pairs[k].1);
        proof {
            assert forall|n: int| 0 <= n < i + 1 implies pairs@.contains(
                (pred@[n], #[trigger] renamed@[n]),
            ) by {
                if n < i {
                    assert(renamed@[n] == before[n]);
                } else {
                    assert(pairs@[k as int] == (pred@[n], renamed@[n]));
                }
            }
        }
        i += 1;
    }
    renamed
}

} // verus!
