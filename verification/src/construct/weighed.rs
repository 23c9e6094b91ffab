//! The graph of a document whose edges weigh how close its terms stand.

use crate::construct::{
    build_language, document_terms, is_pair, is_term, paragraph_terms, vocabulary_of,
};
use crate::graph::adj_matrix::{lemma_edge_in_range, lemma_set_get, AMGraph};
use crate::graph::lower_triangular::triangle;
use crate::input::Document;
use vstd::prelude::*;
use vstd::std_specs::ops::AddSpec;
use vstd::utf8::encode_utf8;

verus! {

/// The terms of a sentence, each with the number of its paragraph and the
/// number of its sentence in the paragraph.
pub open spec fn sentence_places(sentence: Seq<Seq<char>>, p: int, s: int) -> Seq<
    (int, int, Seq<char>),
> {
    Seq::new(sentence.len(), |i: int| (p, s, sentence[i]))
}

/// The terms of the paragraph with the number `p`, in their order, each with
/// the numbers of its paragraph and sentence.
pub open spec fn paragraph_places(paragraph: Seq<Seq<Seq<char>>>, p: int) -> Seq<
    (int, int, Seq<char>),
>
    decreases paragraph.len(),
{
    if paragraph.len() == 0 {
        Seq::empty()
    } else {
        paragraph_places(paragraph.drop_last(), p) + sentence_places(
            paragraph.last(),
            p,
            paragraph.len() - 1,
        )
    }
}

/// The terms of a document, in their order, each with the numbers of its
/// paragraph and sentence.
pub open spec fn document_places(document: Seq<Seq<Seq<Seq<char>>>>) -> Seq<(int, int, Seq<char>)>
    decreases document.len(),
{
    if document.len() == 0 {
        Seq::empty()
    } else {
        document_places(document.drop_last()) + paragraph_places(
            document.last(),
            document.len() - 1,
        )
    }
}

/// The weight of the pairing of the terms at the places `k` and `m`: the
/// first of the weights for a term with itself, the second for two terms of
/// one sentence, the third for two terms of one paragraph, and the fourth for
/// any other two.
pub open spec fn weight_at<T>(
    places: Seq<(int, int, Seq<char>)>,
    weights: Seq<T>,
    k: int,
    m: int,
) -> T {
    if k == m {
        weights[0]
    } else if places[k].0 == places[m].0 {
        if places[k].1 == places[m].1 {
            weights[1]
        } else {
            weights[2]
        }
    } else {
        weights[3]
    }
}

/// The value of an edge with the weight `w` added.
pub open spec fn add_to<T: core::ops::Add<Output = T>>(e: Option<T>, w: T) -> Option<T> {
    match e {
        Some(v) => Some(v.add_spec(w)),
        None => Some(w),
    }
}

/// The value of the edge between `a` and `b` after the pairings of each
/// place in front of `k` with itself and each place behind it, and those of
/// the place `k` with the places from `k` on in front of `m`, in that order.
pub open spec fn sum_upto<T: core::ops::Add<Output = T>>(
    places: Seq<(int, int, Seq<char>)>,
    weights: Seq<T>,
    k: int,
    m: int,
    a: Seq<u8>,
    b: Seq<u8>,
) -> Option<T>
    decreases k, m,
{
    if k < 0 || m < k {
        None
    } else if m > k {
        let before = sum_upto(places, weights, k, m - 1, a, b);
        if is_pair(encode_utf8(places[k].2), encode_utf8(places[m - 1].2), a, b) {
            add_to(before, weight_at(places, weights, k, m - 1))
        } else {
            before
        }
    } else if k > 0 {
        sum_upto(places, weights, k - 1, places.len() as int, a, b)
    } else {
        None
    }
}

/// The value of the edge between `a` and `b` in the weighed graph of a
/// document: the sum of the weights of the pairings of the two terms, added
/// up in the order of the places of the document, each place with itself
/// and then with each place behind it.
pub open spec fn weighed<T: core::ops::Add<Output = T>>(
    places: Seq<(int, int, Seq<char>)>,
    weights: Seq<T>,
    a: Seq<u8>,
    b: Seq<u8>,
) -> Option<T> {
    sum_upto(places, weights, places.len() as int, places.len() as int, a, b)
}

/// Whether every sum that the weighed graph of the document calls for can be
/// taken.
pub open spec fn sums_allowed<T: core::ops::Add<Output = T>>(
    places: Seq<(int, int, Seq<char>)>,
    weights: Seq<T>,
) -> bool {
    forall|k: int, m: int, a: Seq<u8>, b: Seq<u8>|
        0 <= k <= m < places.len() && is_pair(
            encode_utf8(places[k].2),
            encode_utf8(places[m].2),
            a,
            b,
        ) ==> (#[trigger] sum_upto(places, weights, k, m, a, b) matches Some(v) ==> v.add_req(
            weight_at(places, weights, k, m),
        ))
}

/// What one more sentence adds to the places and the terms of a paragraph.
proof fn lemma_paragraph_places_step(paragraph: Seq<Seq<Seq<char>>>, p: int, s: int)
    requires
        0 <= s < paragraph.len(),
    ensures
        paragraph_places(paragraph.take(s + 1), p) == paragraph_places(paragraph.take(s), p)
            + sentence_places(paragraph[s], p, s),
        paragraph_terms(paragraph.take(s + 1)) == paragraph_terms(paragraph.take(s)) + paragraph[s],
{
    assert(paragraph.take(s + 1).drop_last() =~= paragraph.take(s));
}

/// What one more paragraph adds to the places and the terms of a document.
proof fn lemma_document_places_step(document: Seq<Seq<Seq<Seq<char>>>>, p: int)
    requires
        0 <= p < document.len(),
    ensures
        document_places(document.take(p + 1)) == document_places(document.take(p))
            + paragraph_places(document[p], p),
        document_terms(document.take(p + 1)) == document_terms(document.take(p)) + paragraph_terms(
            document[p],
        ),
{
    assert(document.take(p + 1).drop_last() =~= document.take(p));
}

/// The places of a paragraph hold its terms.
proof fn lemma_paragraph_places_terms(paragraph: Seq<Seq<Seq<char>>>, p: int)
    ensures
        paragraph_places(paragraph, p).len() == paragraph_terms(paragraph).len(),
        forall|k: int|
            0 <= k < paragraph_terms(paragraph).len() ==> (#[trigger] paragraph_places(
                paragraph,
                p,
            )[k]).2 == paragraph_terms(paragraph)[k],
    decreases paragraph.len(),
{
    if paragraph.len() > 0 {
        lemma_paragraph_places_terms(paragraph.drop_last(), p);
    }
}

/// The places of a document hold its terms.
proof fn lemma_document_places_terms(document: Seq<Seq<Seq<Seq<char>>>>)
    ensures
        document_places(document).len() == document_terms(document).len(),
        forall|k: int|
            0 <= k < document_terms(document).len() ==> (#[trigger] document_places(document)[k]).2
                == document_terms(document)[k],
    decreases document.len(),
{
    if document.len() > 0 {
        lemma_document_places_terms(document.drop_last());
        lemma_paragraph_places_terms(document.last(), document.len() - 1);
    }
}

/// The terms of a document, in their order, each with the numbers of its
/// paragraph and sentence.
fn places_of<'a>(document: &'a Document) -> (places: Vec<(usize, usize, &'a str)>)
    ensures
        places@.len() == document_places(document@).len(),
        forall|k: int|
            0 <= k < places@.len() ==> {
                &&& (#[trigger] places@[k]).0 == document_places(document@)[k].0
                &&& places@[k].1 == document_places(document@)[k].1
                &&& places@[k].2@ == document_places(document@)[k].2
            },
{
    let ghost doc = document@;
    let mut places: Vec<(usize, usize, &'a str)> = Vec::new();
    let mut p: usize = 0;
    proof {
        assert(doc.take(0) =~= Seq::<Seq<Seq<Seq<char>>>>::empty());
    }
    while p < document.0.len()
        invariant
            p <= doc.len(),
            doc == document@,
            places@.len() == document_places(doc.take(p as int)).len(),
            forall|k: int|
                0 <= k < places@.len() ==> {
                    &&& (#[trigger] places@[k]).0 == document_places(doc.take(p as int))[k].0
                    &&& places@[k].1 == document_places(doc.take(p as int))[k].1
                    &&& places@[k].2@ == document_places(doc.take(p as int))[k].2
                },
        decreases doc.len() - p,
    {
        let paragraph = &document.0[p];
        let ghost par = paragraph@;
        let ghost done = document_places(doc.take(p as int));
        let mut s: usize = 0;
        proof {
            assert(par == doc[p as int]);
            lemma_document_places_step(doc, p as int);
            assert(par.take(0) =~= Seq::<Seq<Seq<char>>>::empty());
            assert(done + paragraph_places(par.take(0), p as int) =~= done);
        }
        while s < paragraph.0.len()
            invariant
                s <= par.len(),
                par == paragraph@,
                places@.len() == (done + paragraph_places(par.take(s as int), p as int)).len(),
                forall|k: int|
                    0 <= k < places@.len() ==> {
                        &&& (#[trigger] places@[k]).0 == (done + paragraph_places(
                            par.take(s as int),
                            p as int,
                        ))[k].0
                        &&& places@[k].1 == (done + paragraph_places(
                            par.take(s as int),
                            p as int,
                        ))[k].1
                        &&& places@[k].2@ == (done + paragraph_places(
                            par.take(s as int),
                            p as int,
                        ))[k].2
                    },
            decreases par.len() - s,
        {
            let sentence = &paragraph.0[s];
            let ghost sen = sentence@;
            let ghost earlier = done + paragraph_places(par.take(s as int), p as int);
            proof {
                assert(sen == par[s as int]);
                lemma_paragraph_places_step(par, p as int, s as int);
            }
            let mut i: usize = 0;
            while i < sentence.0.len()
                invariant
                    i <= sen.len(),
                    sen == sentence@,
                    places@.len() == earlier.len() + i,
                    forall|k: int|
                        0 <= k < earlier.len() ==> {
                            &&& (#[trigger] places@[k]).0 == earlier[k].0
                            &&& places@[k].1 == earlier[k].1
                            &&& places@[k].2@ == earlier[k].2
                        },
                    forall|k: int|
                        0 <= k < i ==> {
                            &&& (#[trigger] places@[earlier.len() + k]).0 == p
                            &&& places@[earlier.len() + k].1 == s
                            &&& places@[earlier.len() + k].2@ == sen[k]
                        },
                decreases sen.len() - i,
            {
                let ghost before = places@;
                places.push((p, s, sentence.0[i].0.as_str()));
                proof {
                    assert forall|k: int| 0 <= k < i + 1 implies {
                        &&& (#[trigger] places@[earlier.len() + k]).0 == p
                        &&& places@[earlier.len() + k].1 == s
                        &&& places@[earlier.len() + k].2@ == sen[k]
                    } by {
                        if k < i {
                            assert(places@[earlier.len() + k] == before[earlier.len() + k]);
                        }
                    }
                    assert forall|k: int| 0 <= k < earlier.len() implies {
                        &&& (#[trigger] places@[k]).0 == earlier[k].0
                        &&& places@[k].1 == earlier[k].1
                        &&& places@[k].2@ == earlier[k].2
                    } by {
                        assert(places@[k] == before[k]);
                    }
                }
                i += 1;
            }
            proof {
                let longer = done + paragraph_places(par.take(s + 1), p as int);
                assert(longer =~= earlier + sentence_places(sen, p as int, s as int));
                assert forall|k: int| 0 <= k < places@.len() implies {
                    &&& (#[trigger] places@[k]).0 == longer[k].0
                    &&& places@[k].1 == longer[k].1
                    &&& places@[k].2@ == longer[k].2
                } by {
                    if k >= earlier.len() {
                        let off = k - earlier.len();
                        assert(places@[earlier.len() + off].2@ == sen[off]);
                    }
                }
            }
            s += 1;
        }
        proof {
            assert(par.take(s as int) =~= par);
        }
        p += 1;
    }
    proof {
        assert(doc.take(p as int) =~= doc);
    }
    places
}

/// Constructs a graph from a document, where the value of an edge is the
/// sum of the weights of the pairings of its two terms in the document. The
/// weight of a pairing depends on how close the two terms stand, and the
/// weights are given by `weights`: for a term with itself, for two terms of
/// one sentence, for two terms of one paragraph, and for two terms of the
/// document.
///
/// The resulting graph is fully connected.
pub fn construct_hierarchial_weighed<T: core::ops::Add<Output = T> + Copy>(
    document: &Document,
    weights: [T; 4],
) -> (graph: AMGraph<T>)
    requires
        document_terms(document@).len() <= usize::MAX,
        triangle(vocabulary_of(document@).len()) <= usize::MAX,
        T::obeys_add_spec(),
        sums_allowed(document_places(document@), weights@),
    ensures
        graph.wf(),
        graph.vocabulary() == vocabulary_of(document@),
        forall|a: Seq<u8>, b: Seq<u8>|
            graph.vocabulary().contains(a) && graph.vocabulary().contains(b) ==> {
                &&& #[trigger] graph.edge_between(a, b) == weighed(
                    document_places(document@),
                    weights@,
                    a,
                    b,
                )
                &&& graph.edge_between(a, b) is Some
            },
{
    let ghost doc = document@;
    let ghost labels = vocabulary_of(doc);
    let ghost all = document_places(doc);
    let ghost w = weights@;
    let mut graph: AMGraph<T> = AMGraph::new(build_language(document));
    let places = places_of(document);
    let len = places.len();
    proof {
        lemma_document_places_terms(doc);
        assert forall|k: int| 0 <= k < all.len() implies labels.contains(
            encode_utf8(#[trigger] all[k].2),
        ) by {
            assert(all[k].2 == document_terms(doc)[k]);
            assert(is_term(doc, encode_utf8(all[k].2)));
        }
        assert forall|a: Seq<u8>, b: Seq<u8>|
            labels.contains(a) && labels.contains(b) implies #[trigger] graph.edge_between(a, b)
            == sum_upto(all, w, 0, 0, a, b) by {
            lemma_edge_in_range(graph, a, b);
        }
    }
    let mut k: usize = 0;
    while k < len
        invariant
            k <= len,
            len == all.len(),
            len == places@.len(),
            w == weights@,
            forall|k: int|
                0 <= k < places@.len() ==> {
                    &&& (#[trigger] places@[k]).0 == all[k].0
                    &&& places@[k].1 == all[k].1
                    &&& places@[k].2@ == all[k].2
                },
            forall|k: int| 0 <= k < all.len() ==> labels.contains(encode_utf8(#[trigger] all[k].2)),
            T::obeys_add_spec(),
            sums_allowed(all, w),
            graph.wf(),
            graph.vocabulary() == labels,
            forall|a: Seq<u8>, b: Seq<u8>|
                labels.contains(a) && labels.contains(b) ==> #[trigger] graph.edge_between(a, b)
                    == sum_upto(all, w, k as int, k as int, a, b),
        decreases len - k,
    {
        let (par_k, sen_k, term) = places[k];
        let mut m: usize = k;
        while m < len
            invariant
                k <= m <= len,
                k < len,
                len == all.len(),
                len == places@.len(),
                w == weights@,
                (par_k, sen_k, term) == places@[k as int],
                forall|k: int|
                    0 <= k < places@.len() ==> {
                        &&& (#[trigger] places@[k]).0 == all[k].0
                        &&& places@[k].1 == all[k].1
                        &&& places@[k].2@ == all[k].2
                    },
                forall|k: int|
                    0 <= k < all.len() ==> labels.contains(encode_utf8(#[trigger] all[k].2)),
                T::obeys_add_spec(),
                sums_allowed(all, w),
                graph.wf(),
                graph.vocabulary() == labels,
                forall|a: Seq<u8>, b: Seq<u8>|
                    labels.contains(a) && labels.contains(b) ==> #[trigger] graph.edge_between(
                        a,
                        b,
                    ) == sum_upto(all, w, k as int, m as int, a, b),
            decreases len - m,
        {
            let (par_m, sen_m, other) = places[m];
            let weight = if m == k {
                weights[0]
            } else if par_m == par_k {
                if sen_m == sen_k {
                    weights[1]
                } else {
                    weights[2]
                }
            } else {
                weights[3]
            };
            let ghost before = graph;
            let ghost x = encode_utf8(all[k as int].2);
            let ghost y = encode_utf8(all[m as int].2);
            proof {
                assert(places@[k as int].2@ == all[k as int].2);
                assert(places@[m as int].2@ == all[m as int].2);
                assert(labels.contains(x));
                assert(labels.contains(y));
                assert(weight == weight_at(all, w, k as int, m as int));
                assert(is_pair(x, y, x, y));
                assert(before.edge_between(x, y) == sum_upto(all, w, k as int, m as int, x, y));
            }
            graph.add_weight(term, other, weight);
            proof {
                lemma_set_get(before, graph, x, y, graph.edge_between(x, y));
                assert forall|a: Seq<u8>, b: Seq<u8>|
                    labels.contains(a) && labels.contains(b) implies #[trigger] graph.edge_between(
                    a,
                    b,
                ) == sum_upto(all, w, k as int, m + 1, a, b) by {
                    if !is_pair(x, y, a, b) {
                        assert(graph.edge_between(a, b) == before.edge_between(a, b));
                    } else {
                        assert(before.edge_between(a, b) == before.edge_between(x, y));
                        assert(graph.edge_between(a, b) == graph.edge_between(x, y));
                        assert(sum_upto(all, w, k as int, m as int, a, b) == sum_upto(
                            all,
                            w,
                            k as int,
                            m as int,
                            x,
                            y,
                        )) by {
                            lemma_sum_symmetric(all, w, k as int, m as int, a, b);
                        }
                    }
                }
            }
            m += 1;
        }
        k += 1;
    }
    proof {
        assert forall|a: Seq<u8>, b: Seq<u8>|
            labels.contains(a) && labels.contains(b) implies weighed(all, w, a, b) is Some by {
            let i = choose|i: int| 0 <= i < labels.len() && labels[i] == a;
            let j = choose|j: int| 0 <= j < labels.len() && labels[j] == b;
            assert(is_term(doc, a));
            assert(is_term(doc, b));
            let ta = choose|t: int|
                0 <= t < document_terms(doc).len() && encode_utf8(
                    #[trigger] document_terms(doc)[t],
                ) == a;
            let tb = choose|t: int|
                0 <= t < document_terms(doc).len() && encode_utf8(
                    #[trigger] document_terms(doc)[t],
                ) == b;
            assert(all[ta].2 == document_terms(doc)[ta]);
            assert(all[tb].2 == document_terms(doc)[tb]);
            let lo = if ta <= tb { ta } else { tb };
            let hi = if ta <= tb { tb } else { ta };
            lemma_sum_some(all, w, lo, hi, all.len() as int, all.len() as int, a, b);
        }
    }
    graph
}

/// The order in which the two labels of an edge are named makes no
/// difference to its sum.
proof fn lemma_sum_symmetric<T: core::ops::Add<Output = T>>(
    places: Seq<(int, int, Seq<char>)>,
    weights: Seq<T>,
    k: int,
    m: int,
    a: Seq<u8>,
    b: Seq<u8>,
)
    ensures
        sum_upto(places, weights, k, m, a, b) == sum_upto(places, weights, k, m, b, a),
    decreases k, m,
{
    if k < 0 || m < k {
    } else if m > k {
        lemma_sum_symmetric(places, weights, k, m - 1, a, b);
    } else if k > 0 {
        lemma_sum_symmetric(places, weights, k - 1, places.len() as int, a, b);
    }
}

/// Once the two labels have been paired, their edge has a value.
proof fn lemma_sum_some<T: core::ops::Add<Output = T>>(
    places: Seq<(int, int, Seq<char>)>,
    weights: Seq<T>,
    lo: int,
    hi: int,
    k: int,
    m: int,
    a: Seq<u8>,
    b: Seq<u8>,
)
    requires
        0 <= lo <= hi < places.len(),
        is_pair(encode_utf8(places[lo].2), encode_utf8(places[hi].2), a, b),
        0 <= k <= m <= places.len(),
        lo < k || (lo == k && hi < m),
    ensures
        sum_upto(places, weights, k, m, a, b) is Some,
    decreases k, m,
{
    if m > k {
        if lo == k && hi == m - 1 {
        } else {
            lemma_sum_some(places, weights, lo, hi, k, m - 1, a, b);
        }
    } else {
        lemma_sum_some(places, weights, lo, hi, k - 1, places.len() as int, a, b);
    }
}

} // verus!
