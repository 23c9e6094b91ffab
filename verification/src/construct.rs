//! Building the graph of a document.
//!
//! The vertices of the graph are the terms of the document, and the edges
//! tell how its terms occur together.

use crate::graph::adj_matrix::{lemma_edge_in_range, lemma_set_get, AMGraph};
use crate::graph::index_trie::{lemma_sorted_determined, rank_of, strictly_sorted, IndexTrie};
use crate::graph::lower_triangular::{slot, triangle};
use crate::graph::IndexMap;
use crate::input::{Document, Sentence};
use vstd::prelude::*;
use vstd::std_specs::ops::AddSpec;
use vstd::utf8::encode_utf8;

pub mod weighed;

pub use weighed::construct_hierarchial_weighed;

verus! {

/// The terms of a paragraph, sentence by sentence.
pub open spec fn paragraph_terms(paragraph: Seq<Seq<Seq<char>>>) -> Seq<Seq<char>>
    decreases paragraph.len(),
{
    if paragraph.len() == 0 {
        Seq::empty()
    } else {
        paragraph_terms(paragraph.drop_last()) + paragraph.last()
    }
}

/// The terms of a document, paragraph by paragraph.
pub open spec fn document_terms(document: Seq<Seq<Seq<Seq<char>>>>) -> Seq<Seq<char>>
    decreases document.len(),
{
    if document.len() == 0 {
        Seq::empty()
    } else {
        document_terms(document.drop_last()) + paragraph_terms(document.last())
    }
}

/// Whether `x` is a term of the document, as a byte string.
pub open spec fn is_term(document: Seq<Seq<Seq<Seq<char>>>>, x: Seq<u8>) -> bool {
    exists|t: int|
        0 <= t < document_terms(document).len() && encode_utf8(
            #[trigger] document_terms(document)[t],
        ) == x
}

/// Whether `labels` is the vocabulary of the document: its terms, each once,
/// in ascending order.
pub open spec fn is_vocabulary(document: Seq<Seq<Seq<Seq<char>>>>, labels: Seq<Seq<u8>>) -> bool {
    &&& strictly_sorted(labels)
    &&& forall|x: Seq<u8>| #[trigger] labels.contains(x) <==> is_term(document, x)
}

/// The vocabulary of the document.
pub open spec fn vocabulary_of(document: Seq<Seq<Seq<Seq<char>>>>) -> Seq<Seq<u8>> {
    choose|labels: Seq<Seq<u8>>| is_vocabulary(document, labels)
}

/// A document has no other vocabulary than `vocabulary_of`.
pub proof fn lemma_vocabulary_unique(document: Seq<Seq<Seq<Seq<char>>>>, labels: Seq<Seq<u8>>)
    requires
        is_vocabulary(document, labels),
    ensures
        labels == vocabulary_of(document),
{
    let chosen = vocabulary_of(document);
    assert(is_vocabulary(document, chosen));
    assert forall|x: Seq<u8>| labels.contains(x) <==> chosen.contains(x) by {}
    lemma_sorted_determined(labels, chosen);
}

/// The terms of the first sentences of a paragraph are the first of its
/// terms.
proof fn lemma_paragraph_terms_step(paragraph: Seq<Seq<Seq<char>>>, s: int)
    requires
        0 <= s < paragraph.len(),
    ensures
        paragraph_terms(paragraph.take(s + 1)) == paragraph_terms(paragraph.take(s)) + paragraph[s],
        paragraph_terms(paragraph.take(s + 1)).len() <= paragraph_terms(paragraph).len(),
    decreases paragraph.len() - s,
{
    assert(paragraph.take(s + 1).drop_last() =~= paragraph.take(s));
    if s + 1 < paragraph.len() {
        lemma_paragraph_terms_step(paragraph, s + 1);
    } else {
        assert(paragraph.take(s + 1) =~= paragraph);
    }
}

/// The terms of the first paragraphs of a document are the first of its
/// terms.
proof fn lemma_document_terms_step(document: Seq<Seq<Seq<Seq<char>>>>, p: int)
    requires
        0 <= p < document.len(),
    ensures
        document_terms(document.take(p + 1)) == document_terms(document.take(p)) + paragraph_terms(
            document[p],
        ),
        document_terms(document.take(p + 1)).len() <= document_terms(document).len(),
    decreases document.len() - p,
{
    assert(document.take(p + 1).drop_last() =~= document.take(p));
    if p + 1 < document.len() {
        lemma_document_terms_step(document, p + 1);
    } else {
        assert(document.take(p + 1) =~= document);
    }
}

/// Whether `x` is one of `terms`, as a byte string.
spec fn among(terms: Seq<Seq<char>>, x: Seq<u8>) -> bool {
    exists|t: int| 0 <= t < terms.len() && encode_utf8(#[trigger] terms[t]) == x
}

/// What is among terms put together is among the one or the other.
proof fn lemma_among_concat(a: Seq<Seq<char>>, b: Seq<Seq<char>>, x: Seq<u8>)
    ensures
        among(a + b, x) <==> among(a, x) || among(b, x),
{
    let all = a + b;
    if among(all, x) {
        let t = choose|t: int| 0 <= t < all.len() && encode_utf8(#[trigger] all[t]) == x;
        if t < a.len() {
            assert(encode_utf8(a[t]) == x);
        } else {
            assert(encode_utf8(b[t - a.len()]) == x);
        }
    }
    if among(a, x) {
        let t = choose|t: int| 0 <= t < a.len() && encode_utf8(#[trigger] a[t]) == x;
        assert(encode_utf8(all[t]) == x);
    }
    if among(b, x) {
        let t = choose|t: int| 0 <= t < b.len() && encode_utf8(#[trigger] b[t]) == x;
        assert(encode_utf8(all[a.len() + t]) == x);
    }
}

/// The index of the terms of a document.
pub fn build_language(document: &Document) -> (language: IndexMap)
    requires
        document_terms(document@).len() <= usize::MAX,
    ensures
        language.wf(),
        language@ == vocabulary_of(document@),
        is_vocabulary(document@, language@),
{
    let ghost doc = document@;
    let mut language = IndexTrie::new();
    let mut p: usize = 0;
    proof {
        assert(doc.take(0) =~= Seq::<Seq<Seq<Seq<char>>>>::empty());
    }
    while p < document.0.len()
        invariant
            p <= doc.len(),
            doc == document@,
            document_terms(doc).len() <= usize::MAX,
            language.wf(),
            language@.len() <= document_terms(doc.take(p as int)).len(),
            forall|x: Seq<u8>| #[trigger]
                language@.contains(x) <==> among(document_terms(doc.take(p as int)), x),
        decreases doc.len() - p,
    {
        let paragraph = &document.0[p];
        let ghost par = paragraph@;
        let ghost done = document_terms(doc.take(p as int));
        proof {
            assert(par == doc[p as int]);
            lemma_document_terms_step(doc, p as int);
            assert(par.take(0) =~= Seq::<Seq<Seq<char>>>::empty());
            assert(done + paragraph_terms(par.take(0)) =~= done);
        }
        let mut s: usize = 0;
        while s < paragraph.0.len()
            invariant
                s <= par.len(),
                par == paragraph@,
                done.len() + paragraph_terms(par).len() <= usize::MAX,
                language.wf(),
                language@.len() <= done.len() + paragraph_terms(par.take(s as int)).len(),
                forall|x: Seq<u8>| #[trigger]
                    language@.contains(x) <==> among(done + paragraph_terms(par.take(s as int)), x),
            decreases par.len() - s,
        {
            let sentence = &paragraph.0[s];
            let ghost sen = sentence@;
            let ghost earlier = done + paragraph_terms(par.take(s as int));
            proof {
                assert(sen == par[s as int]);
                lemma_paragraph_terms_step(par, s as int);
                assert(earlier + sen.take(0) =~= earlier);
            }
            let mut i: usize = 0;
            while i < sentence.0.len()
                invariant
                    i <= sen.len(),
                    sen == sentence@,
                    earlier.len() + sen.len() <= usize::MAX,
                    language.wf(),
                    language@.len() <= earlier.len() + i,
                    forall|x: Seq<u8>| #[trigger]
                        language@.contains(x) <==> among(earlier + sen.take(i as int), x),
                decreases sen.len() - i,
            {
                let term = &sentence.0[i];
                let ghost prev = language@;
                language.insert(term.0.as_str());
                proof {
                    let key = encode_utf8(term@);
                    assert(term@ == sen[i as int]);
                    let shorter = earlier + sen.take(i as int);
                    let longer = earlier + sen.take(i + 1);
                    assert(longer =~= shorter + seq![sen[i as int]]);
                    assert forall|x: Seq<u8>| #[trigger]
                        language@.contains(x) <==> among(longer, x) by {
                        lemma_among_concat(shorter, seq![sen[i as int]], x);
                        if among(seq![sen[i as int]], x) {
                            let t = choose|t: int|
                                0 <= t < 1 && encode_utf8(#[trigger] seq![sen[i as int]][t]) == x;
                        }
                        if x == key {
                            assert(encode_utf8(seq![sen[i as int]][0]) == x);
                        }
                        assert(prev.contains(x) <==> among(shorter, x));
                    }
                }
                i += 1;
            }
            proof {
                assert(sen.take(i as int) =~= sen);
                assert(earlier + sen =~= done + paragraph_terms(par.take(s + 1)));
            }
            s += 1;
        }
        proof {
            assert(par.take(s as int) =~= par);
        }
        p += 1;
    }
    proof {
        assert(doc.take(p as int) =~= doc);
        assert forall|x: Seq<u8>| #[trigger] language@.contains(x) <==> is_term(doc, x) by {}
        lemma_vocabulary_unique(doc, language@);
    }
    language
}

impl<T: core::ops::Add<Output = T> + Copy> AMGraph<T> {
    /// Adds `weight` to the value of the edge between two vertices of the
    /// graph, or gives the edge that value where it has none.
    pub fn add_weight(&mut self, t1: &str, t2: &str, weight: T)
        requires
            old(self).wf(),
            old(self).vocabulary().contains(encode_utf8(t1@)),
            old(self).vocabulary().contains(encode_utf8(t2@)),
            old(self).edge_between(encode_utf8(t1@), encode_utf8(t2@)) matches Some(v)
                ==> v.add_req(weight),
        ensures
            final(self).wf(),
            final(self).vocabulary() == old(self).vocabulary(),
            final(self).slots() == old(self).slots().update(
                slot(
                    rank_of(old(self).vocabulary(), encode_utf8(t1@)) as nat,
                    rank_of(old(self).vocabulary(), encode_utf8(t2@)) as nat,
                ) as int,
                final(self).edge_between(encode_utf8(t1@), encode_utf8(t2@)),
            ),
            match old(self).edge_between(encode_utf8(t1@), encode_utf8(t2@)) {
                Some(v) => {
                    &&& final(self).edge_between(encode_utf8(t1@), encode_utf8(t2@)) is Some
                    &&& T::obeys_add_spec() ==> final(self).edge_between(
                        encode_utf8(t1@),
                        encode_utf8(t2@),
                    ) == Some(v.add_spec(weight))
                },
                None => final(self).edge_between(encode_utf8(t1@), encode_utf8(t2@)) == Some(
                    weight,
                ),
            },
    {
        let ghost before = *self;
        let ghost a = encode_utf8(t1@);
        let ghost b = encode_utf8(t2@);
        proof {
            lemma_edge_in_range(before, a, b);
        }
        match self.get_mut(t1, t2) {
            Ok(edge) => {
                let sum = match *edge {
                    Some(v) => Some(v + weight),
                    None => Some(weight),
                };
                *edge = sum;
            },
            Err(_) => {},
        }
        proof {
            let p = slot(rank_of(before.vocabulary(), a) as nat, rank_of(before.vocabulary(), b) as nat);
            assert(self.slots()[p as int] == self.edge_between(a, b));
            assert(self.slots() =~= before.slots().update(p as int, self.edge_between(a, b)));
        }
    }
}

/// Whether `x` and `y` are the labels `a` and `b`, in one order or the other.
pub open spec fn is_pair(x: Seq<u8>, y: Seq<u8>, a: Seq<u8>, b: Seq<u8>) -> bool {
    (x == a && y == b) || (x == b && y == a)
}

/// Whether the labels `a` and `b` stand at two places of the sentence.
pub open spec fn together(sentence: Seq<Seq<char>>, a: Seq<u8>, b: Seq<u8>) -> bool {
    exists|i: int, j: int|
        0 <= i < j < sentence.len() && is_pair(
            encode_utf8(#[trigger] sentence[i]),
            encode_utf8(#[trigger] sentence[j]),
            a,
            b,
        )
}

/// Whether the labels `a` and `b` stand together in a sentence of the
/// document.
pub open spec fn linked(document: Seq<Seq<Seq<Seq<char>>>>, a: Seq<u8>, b: Seq<u8>) -> bool {
    exists|p: int, s: int|
        0 <= p < document.len() && 0 <= s < document[p].len() && together(
            #[trigger] document[p][s],
            a,
            b,
        )
}

/// Whether the labels stand together in a sentence of the paragraph.
spec fn paragraph_linked(paragraph: Seq<Seq<Seq<char>>>, a: Seq<u8>, b: Seq<u8>) -> bool {
    exists|s: int| 0 <= s < paragraph.len() && together(#[trigger] paragraph[s], a, b)
}

/// Whether the labels are the term at place `i` of the sentence and one
/// behind it, in front of place `j`.
spec fn row_linked(sentence: Seq<Seq<char>>, i: int, j: int, a: Seq<u8>, b: Seq<u8>) -> bool {
    exists|k: int|
        i < k < j && k < sentence.len() && is_pair(
            encode_utf8(sentence[i]),
            encode_utf8(#[trigger] sentence[k]),
            a,
            b,
        )
}

/// Whether the labels are a term in front of place `i` of the sentence and
/// one behind that term.
spec fn rows_linked(sentence: Seq<Seq<char>>, i: int, a: Seq<u8>, b: Seq<u8>) -> bool {
    exists|h: int, k: int|
        0 <= h < i && h < k < sentence.len() && is_pair(
            encode_utf8(#[trigger] sentence[h]),
            encode_utf8(#[trigger] sentence[k]),
            a,
            b,
        )
}

/// What one more place behind the term at `i` adds to its links.
proof fn lemma_row_linked_step(sentence: Seq<Seq<char>>, i: int, j: int, a: Seq<u8>, b: Seq<u8>)
    requires
        0 <= i < j < sentence.len(),
    ensures
        row_linked(sentence, i, j + 1, a, b) <==> row_linked(sentence, i, j, a, b) || is_pair(
            encode_utf8(sentence[i]),
            encode_utf8(sentence[j]),
            a,
            b,
        ),
{
    if row_linked(sentence, i, j + 1, a, b) {
        let k = choose|k: int|
            i < k < j + 1 && k < sentence.len() && is_pair(
                encode_utf8(sentence[i]),
                encode_utf8(#[trigger] sentence[k]),
                a,
                b,
            );
        if k < j {
            assert(row_linked(sentence, i, j, a, b));
        }
    }
    if row_linked(sentence, i, j, a, b) {
        let k = choose|k: int|
            i < k < j && k < sentence.len() && is_pair(
                encode_utf8(sentence[i]),
                encode_utf8(#[trigger] sentence[k]),
                a,
                b,
            );
        assert(i < k < j + 1);
    }
    if is_pair(encode_utf8(sentence[i]), encode_utf8(sentence[j]), a, b) {
        assert(i < j < j + 1 && is_pair(encode_utf8(sentence[i]), encode_utf8(sentence[j]), a, b));
    }
}

/// What the links of the term at `i` add to those of the terms in front of
/// it.
proof fn lemma_rows_linked_step(sentence: Seq<Seq<char>>, i: int, a: Seq<u8>, b: Seq<u8>)
    requires
        0 <= i < sentence.len(),
    ensures
        rows_linked(sentence, i + 1, a, b) <==> rows_linked(sentence, i, a, b) || row_linked(
            sentence,
            i,
            sentence.len() as int,
            a,
            b,
        ),
        !rows_linked(sentence, 0, a, b),
        !row_linked(sentence, i, i + 1, a, b),
{
    if rows_linked(sentence, i + 1, a, b) {
        let (h, k) = choose|h: int, k: int|
            0 <= h < i + 1 && h < k < sentence.len() && is_pair(
                encode_utf8(#[trigger] sentence[h]),
                encode_utf8(#[trigger] sentence[k]),
                a,
                b,
            );
        if h < i {
            assert(rows_linked(sentence, i, a, b));
        } else {
            assert(row_linked(sentence, i, sentence.len() as int, a, b));
        }
    }
    if rows_linked(sentence, i, a, b) {
        let (h, k) = choose|h: int, k: int|
            0 <= h < i && h < k < sentence.len() && is_pair(
                encode_utf8(#[trigger] sentence[h]),
                encode_utf8(#[trigger] sentence[k]),
                a,
                b,
            );
        assert(0 <= h < i + 1);
    }
    if row_linked(sentence, i, sentence.len() as int, a, b) {
        let k = choose|k: int|
            i < k < sentence.len() && k < sentence.len() && is_pair(
                encode_utf8(sentence[i]),
                encode_utf8(#[trigger] sentence[k]),
                a,
                b,
            );
        assert(0 <= i < i + 1 && i < k < sentence.len() && is_pair(
            encode_utf8(sentence[i]),
            encode_utf8(sentence[k]),
            a,
            b,
        ));
    }
}

/// What one more sentence adds to the links of a paragraph.
proof fn lemma_paragraph_linked_step(paragraph: Seq<Seq<Seq<char>>>, s: int, a: Seq<u8>, b: Seq<u8>)
    requires
        0 <= s < paragraph.len(),
    ensures
        paragraph_linked(paragraph.take(s + 1), a, b) <==> paragraph_linked(
            paragraph.take(s),
            a,
            b,
        ) || together(paragraph[s], a, b),
        !paragraph_linked(paragraph.take(0), a, b),
{
    let shorter = paragraph.take(s);
    let longer = paragraph.take(s + 1);
    if paragraph_linked(longer, a, b) {
        let k = choose|k: int| 0 <= k < longer.len() && together(#[trigger] longer[k], a, b);
        if k < s {
            assert(together(shorter[k], a, b));
        }
    }
    if paragraph_linked(shorter, a, b) {
        let k = choose|k: int| 0 <= k < shorter.len() && together(#[trigger] shorter[k], a, b);
        assert(together(longer[k], a, b));
    }
    if together(paragraph[s], a, b) {
        assert(together(longer[s], a, b));
    }
}

/// What one more paragraph adds to the links of a document.
proof fn lemma_linked_step(document: Seq<Seq<Seq<Seq<char>>>>, p: int, a: Seq<u8>, b: Seq<u8>)
    requires
        0 <= p < document.len(),
    ensures
        linked(document.take(p + 1), a, b) <==> linked(document.take(p), a, b) || paragraph_linked(
            document[p],
            a,
            b,
        ),
        !linked(document.take(0), a, b),
{
    let shorter = document.take(p);
    let longer = document.take(p + 1);
    if linked(longer, a, b) {
        let (q, s) = choose|q: int, s: int|
            0 <= q < longer.len() && 0 <= s < longer[q].len() && together(
                #[trigger] longer[q][s],
                a,
                b,
            );
        if q < p {
            assert(together(shorter[q][s], a, b));
        } else {
            assert(together(document[p][s], a, b));
        }
    }
    if linked(shorter, a, b) {
        let (q, s) = choose|q: int, s: int|
            0 <= q < shorter.len() && 0 <= s < shorter[q].len() && together(
                #[trigger] shorter[q][s],
                a,
                b,
            );
        assert(together(longer[q][s], a, b));
    }
    if paragraph_linked(document[p], a, b) {
        let s = choose|s: int|
            0 <= s < document[p].len() && together(#[trigger] document[p][s], a, b);
        assert(together(longer[p][s], a, b));
    }
}

/// Connects the terms of a sentence among each other.
fn link_sentence(graph: &mut AMGraph<()>, sentence: &Sentence)
    requires
        old(graph).wf(),
        forall|i: int|
            0 <= i < sentence@.len() ==> old(graph).vocabulary().contains(
                encode_utf8(#[trigger] sentence@[i]),
            ),
    ensures
        final(graph).wf(),
        final(graph).vocabulary() == old(graph).vocabulary(),
        forall|a: Seq<u8>, b: Seq<u8>|
            old(graph).vocabulary().contains(a) && old(graph).vocabulary().contains(b) ==> (
            #[trigger] final(graph).edge_between(a, b) is Some <==> (old(graph).edge_between(a, b)
                is Some || together(sentence@, a, b))),
{
    let ghost sen = sentence@;
    let ghost labels = graph.vocabulary();
    let len = sentence.0.len();
    let mut i: usize = 0;
    while i < len
        invariant
            i <= len,
            len == sen.len(),
            sen == sentence@,
            graph.wf(),
            labels == old(graph).vocabulary(),
            graph.vocabulary() == labels,
            forall|i: int| 0 <= i < sen.len() ==> labels.contains(encode_utf8(#[trigger] sen[i])),
            forall|a: Seq<u8>, b: Seq<u8>|
                labels.contains(a) && labels.contains(b) ==> (#[trigger] graph.edge_between(a, b)
                    is Some <==> (old(graph).edge_between(a, b) is Some || rows_linked(
                    sen,
                    i as int,
                    a,
                    b,
                ))),
        decreases len - i,
    {
        let term = &sentence.0[i];
        let mut j: usize = i + 1;
        proof {
            assert forall|a: Seq<u8>, b: Seq<u8>|
                labels.contains(a) && labels.contains(b) implies (#[trigger] graph.edge_between(
                a,
                b,
            ) is Some <==> (old(graph).edge_between(a, b) is Some || rows_linked(
                sen,
                i as int,
                a,
                b,
            ) || row_linked(sen, i as int, j as int, a, b))) by {
                lemma_rows_linked_step(sen, i as int, a, b);
            }
        }
        while j < len
            invariant
                i < j <= len,
                len == sen.len(),
                sen == sentence@,
                term@ == sen[i as int],
                graph.wf(),
                graph.vocabulary() == labels,
                forall|i: int|
                    0 <= i < sen.len() ==> labels.contains(encode_utf8(#[trigger] sen[i])),
                forall|a: Seq<u8>, b: Seq<u8>|
                    labels.contains(a) && labels.contains(b) ==> (#[trigger] graph.edge_between(
                        a,
                        b,
                    ) is Some <==> (old(graph).edge_between(a, b) is Some || rows_linked(
                        sen,
                        i as int,
                        a,
                        b,
                    ) || row_linked(sen, i as int, j as int, a, b))),
            decreases len - j,
        {
            let other = &sentence.0[j];
            let ghost before = *graph;
            let ghost x = encode_utf8(sen[i as int]);
            let ghost y = encode_utf8(sen[j as int]);
            proof {
                assert(other@ == sen[j as int]);
                assert(labels.contains(x));
                assert(labels.contains(y));
            }
            match graph.get_mut(term.0.as_str(), other.0.as_str()) {
                Ok(edge) => {
                    *edge = Some(());
                },
                Err(_) => {},
            }
            proof {
                lemma_set_get(before, *graph, x, y, Some(()));
                assert forall|a: Seq<u8>, b: Seq<u8>|
                    labels.contains(a) && labels.contains(b) implies (#[trigger] graph.edge_between(
                    a,
                    b,
                ) is Some <==> (old(graph).edge_between(a, b) is Some || rows_linked(
                    sen,
                    i as int,
                    a,
                    b,
                ) || row_linked(sen, i as int, j + 1, a, b))) by {
                    lemma_row_linked_step(sen, i as int, j as int, a, b);
                    if !is_pair(x, y, a, b) {
                        assert(graph.edge_between(a, b) == before.edge_between(a, b));
                    }
                }
            }
            j += 1;
        }
        proof {
            assert forall|a: Seq<u8>, b: Seq<u8>|
                labels.contains(a) && labels.contains(b) implies (#[trigger] graph.edge_between(
                a,
                b,
            ) is Some <==> (old(graph).edge_between(a, b) is Some || rows_linked(
                sen,
                i + 1,
                a,
                b,
            ))) by {
                lemma_rows_linked_step(sen, i as int, a, b);
            }
        }
        i += 1;
    }
    proof {
        assert forall|a: Seq<u8>, b: Seq<u8>|
            labels.contains(a) && labels.contains(b) implies (#[trigger] graph.edge_between(a, b)
            is Some <==> (old(graph).edge_between(a, b) is Some || together(sen, a, b))) by {
            assert(rows_linked(sen, len as int, a, b) <==> together(sen, a, b));
        }
    }
}

/// Constructs a graph from a document, where vertices are connected if the
/// terms occur together in a sentence: at two places of it.
pub fn construct_sentence_link(document: &Document) -> (graph: AMGraph<()>)
    requires
        document_terms(document@).len() <= usize::MAX,
        triangle(vocabulary_of(document@).len()) <= usize::MAX,
    ensures
        graph.wf(),
        graph.vocabulary() == vocabulary_of(document@),
        forall|a: Seq<u8>, b: Seq<u8>|
            graph.vocabulary().contains(a) && graph.vocabulary().contains(b) ==> (
            #[trigger] graph.edge_between(a, b) is Some <==> linked(document@, a, b)),
{
    let ghost doc = document@;
    let ghost labels = vocabulary_of(doc);
    let mut graph = AMGraph::new(build_language(document));
    let mut p: usize = 0;
    proof {
        assert forall|a: Seq<u8>, b: Seq<u8>| labels.contains(a) && labels.contains(b) implies (
        #[trigger] graph.edge_between(a, b) is Some <==> linked(doc.take(0), a, b)) by {
            lemma_edge_in_range(graph, a, b);
        }
    }
    while p < document.0.len()
        invariant
            p <= doc.len(),
            doc == document@,
            graph.wf(),
            graph.vocabulary() == labels,
            is_vocabulary(doc, labels),
            forall|a: Seq<u8>, b: Seq<u8>|
                labels.contains(a) && labels.contains(b) ==> (#[trigger] graph.edge_between(a, b)
                    is Some <==> linked(doc.take(p as int), a, b)),
        decreases doc.len() - p,
    {
        let paragraph = &document.0[p];
        let ghost par = paragraph@;
        let mut s: usize = 0;
        proof {
            assert(par == doc[p as int]);
            assert forall|a: Seq<u8>, b: Seq<u8>|
                labels.contains(a) && labels.contains(b) implies (#[trigger] graph.edge_between(
                a,
                b,
            ) is Some <==> (linked(doc.take(p as int), a, b) || paragraph_linked(
                par.take(0),
                a,
                b,
            ))) by {
                assert(!paragraph_linked(par.take(0), a, b));
            }
        }
        while s < paragraph.0.len()
            invariant
                p < doc.len(),
                s <= par.len(),
                par == paragraph@,
                par == doc[p as int],
                graph.wf(),
                graph.vocabulary() == labels,
                is_vocabulary(doc, labels),
                forall|a: Seq<u8>, b: Seq<u8>|
                    labels.contains(a) && labels.contains(b) ==> (#[trigger] graph.edge_between(
                        a,
                        b,
                    ) is Some <==> (linked(doc.take(p as int), a, b) || paragraph_linked(
                        par.take(s as int),
                        a,
                        b,
                    ))),
            decreases par.len() - s,
        {
            let sentence = &paragraph.0[s];
            let ghost before = graph;
            proof {
                assert(sentence@ == par[s as int]);
                assert forall|i: int| 0 <= i < sentence@.len() implies labels.contains(
                    encode_utf8(#[trigger] sentence@[i]),
                ) by {
                    lemma_term_at(doc, p as int, s as int, i);
                }
            }
            link_sentence(&mut graph, sentence);
            proof {
                assert forall|a: Seq<u8>, b: Seq<u8>|
                    labels.contains(a) && labels.contains(b) implies (#[trigger] graph.edge_between(
                    a,
                    b,
                ) is Some <==> (linked(doc.take(p as int), a, b) || paragraph_linked(
                    par.take(s + 1),
                    a,
                    b,
                ))) by {
                    lemma_paragraph_linked_step(par, s as int, a, b);
                    assert(before.edge_between(a, b) is Some <==> (linked(doc.take(p as int), a, b)
                        || paragraph_linked(par.take(s as int), a, b)));
                }
            }
            s += 1;
        }
        proof {
            assert(par.take(s as int) =~= par);
            assert forall|a: Seq<u8>, b: Seq<u8>|
                labels.contains(a) && labels.contains(b) implies (#[trigger] graph.edge_between(
                a,
                b,
            ) is Some <==> linked(doc.take(p + 1), a, b)) by {
                lemma_linked_step(doc, p as int, a, b);
            }
        }
        p += 1;
    }
    proof {
        assert(doc.take(p as int) =~= doc);
    }
    graph
}

/// One if `x` and `y` are the labels `a` and `b`, and zero if not.
pub open spec fn pairing(x: Seq<u8>, y: Seq<u8>, a: Seq<u8>, b: Seq<u8>) -> nat {
    if is_pair(x, y, a, b) {
        1
    } else {
        0
    }
}

/// The number of places from `i` on and in front of `end` at which the
/// sentence has, with its term at place `i`, the labels `a` and `b`.
pub open spec fn row_pairings(
    sentence: Seq<Seq<char>>,
    i: int,
    end: int,
    a: Seq<u8>,
    b: Seq<u8>,
) -> nat
    decreases end - i,
{
    if end <= i {
        0
    } else {
        row_pairings(sentence, i, end - 1, a, b) + pairing(
            encode_utf8(sentence[i]),
            encode_utf8(sentence[end - 1]),
            a,
            b,
        )
    }
}

/// The number of pairs of places of the sentence, the first in front of
/// `end` and the second not in front of the first, at which it has the
/// labels `a` and `b`.
pub open spec fn sentence_pairings_upto(
    sentence: Seq<Seq<char>>,
    end: int,
    a: Seq<u8>,
    b: Seq<u8>,
) -> nat
    decreases end,
{
    if end <= 0 {
        0
    } else {
        sentence_pairings_upto(sentence, end - 1, a, b) + row_pairings(
            sentence,
            end - 1,
            sentence.len() as int,
            a,
            b,
        )
    }
}

/// The number of times that the sentence pairs the labels `a` and `b`: once
/// for each place with each place that is not in front of it. A term is
/// paired with itself, and a pair that stands several times counts each
/// time.
pub open spec fn sentence_pairings(sentence: Seq<Seq<char>>, a: Seq<u8>, b: Seq<u8>) -> nat {
    sentence_pairings_upto(sentence, sentence.len() as int, a, b)
}

/// The number of times that the sentences of the paragraph pair the labels.
pub open spec fn paragraph_pairings(paragraph: Seq<Seq<Seq<char>>>, a: Seq<u8>, b: Seq<u8>) -> nat
    decreases paragraph.len(),
{
    if paragraph.len() == 0 {
        0
    } else {
        paragraph_pairings(paragraph.drop_last(), a, b) + sentence_pairings(paragraph.last(), a, b)
    }
}

/// The number of times that the sentences of the document pair the labels.
pub open spec fn pairings(document: Seq<Seq<Seq<Seq<char>>>>, a: Seq<u8>, b: Seq<u8>) -> nat
    decreases document.len(),
{
    if document.len() == 0 {
        0
    } else {
        pairings(document.drop_last(), a, b) + paragraph_pairings(document.last(), a, b)
    }
}

/// The value of an edge that has been paired `n` times.
pub open spec fn tally(n: nat) -> Option<u32> {
    if n == 0 {
        None
    } else {
        Some(n as u32)
    }
}

/// The pairings of a term with the places up to `j` are among its pairings
/// with all the places of the sentence.
proof fn lemma_row_pairings_grow(sentence: Seq<Seq<char>>, i: int, j: int, a: Seq<u8>, b: Seq<u8>)
    requires
        i <= j <= sentence.len(),
    ensures
        row_pairings(sentence, i, j, a, b) <= row_pairings(sentence, i, sentence.len() as int, a, b),
    decreases sentence.len() - j,
{
    if j < sentence.len() {
        lemma_row_pairings_grow(sentence, i, j + 1, a, b);
    }
}

/// The pairings of the first terms of a sentence are among the pairings of
/// the sentence.
proof fn lemma_sentence_pairings_grow(sentence: Seq<Seq<char>>, i: int, a: Seq<u8>, b: Seq<u8>)
    requires
        0 <= i <= sentence.len(),
    ensures
        sentence_pairings_upto(sentence, i, a, b) <= sentence_pairings(sentence, a, b),
    decreases sentence.len() - i,
{
    if i < sentence.len() {
        lemma_sentence_pairings_grow(sentence, i + 1, a, b);
    }
}

/// What one more sentence adds to the pairings of a paragraph.
proof fn lemma_paragraph_pairings_step(
    paragraph: Seq<Seq<Seq<char>>>,
    s: int,
    a: Seq<u8>,
    b: Seq<u8>,
)
    requires
        0 <= s < paragraph.len(),
    ensures
        paragraph_pairings(paragraph.take(s + 1), a, b) == paragraph_pairings(
            paragraph.take(s),
            a,
            b,
        ) + sentence_pairings(paragraph[s], a, b),
        paragraph_pairings(paragraph.take(s + 1), a, b) <= paragraph_pairings(paragraph, a, b),
    decreases paragraph.len() - s,
{
    assert(paragraph.take(s + 1).drop_last() =~= paragraph.take(s));
    if s + 1 < paragraph.len() {
        lemma_paragraph_pairings_step(paragraph, s + 1, a, b);
    } else {
        assert(paragraph.take(s + 1) =~= paragraph);
    }
}

/// What one more paragraph adds to the pairings of a document.
proof fn lemma_pairings_step(document: Seq<Seq<Seq<Seq<char>>>>, p: int, a: Seq<u8>, b: Seq<u8>)
    requires
        0 <= p < document.len(),
    ensures
        pairings(document.take(p + 1), a, b) == pairings(document.take(p), a, b)
            + paragraph_pairings(document[p], a, b),
        pairings(document.take(p + 1), a, b) <= pairings(document, a, b),
    decreases document.len() - p,
{
    assert(document.take(p + 1).drop_last() =~= document.take(p));
    if p + 1 < document.len() {
        lemma_pairings_step(document, p + 1, a, b);
    } else {
        assert(document.take(p + 1) =~= document);
    }
}

/// Counts the pairings of a sentence on top of what the edges of the graph
/// hold, which is `base`.
fn count_sentence(
    graph: &mut AMGraph<u32>,
    sentence: &Sentence,
    Ghost(base): Ghost<spec_fn(Seq<u8>, Seq<u8>) -> nat>,
)
    requires
        old(graph).wf(),
        forall|i: int|
            0 <= i < sentence@.len() ==> old(graph).vocabulary().contains(
                encode_utf8(#[trigger] sentence@[i]),
            ),
        forall|a: Seq<u8>, b: Seq<u8>|
            old(graph).vocabulary().contains(a) && old(graph).vocabulary().contains(b) ==> {
                &&& #[trigger] old(graph).edge_between(a, b) == tally(base(a, b))
                &&& base(a, b) + sentence_pairings(sentence@, a, b) <= u32::MAX
            },
    ensures
        final(graph).wf(),
        final(graph).vocabulary() == old(graph).vocabulary(),
        forall|a: Seq<u8>, b: Seq<u8>|
            old(graph).vocabulary().contains(a) && old(graph).vocabulary().contains(b)
                ==> #[trigger] final(graph).edge_between(a, b) == tally(
                base(a, b) + sentence_pairings(sentence@, a, b),
            ),
{
    let ghost sen = sentence@;
    let ghost labels = graph.vocabulary();
    let len = sentence.0.len();
    let mut i: usize = 0;
    proof {
        assert forall|a: Seq<u8>, b: Seq<u8>|
            labels.contains(a) && labels.contains(b) implies base(a, b)
            + #[trigger] sentence_pairings(sen, a, b) <= u32::MAX by {
            assert(graph.edge_between(a, b) == tally(base(a, b)));
        }
    }
    while i < len
        invariant
            i <= len,
            len == sen.len(),
            sen == sentence@,
            graph.wf(),
            graph.vocabulary() == labels,
            forall|i: int| 0 <= i < sen.len() ==> labels.contains(encode_utf8(#[trigger] sen[i])),
            forall|a: Seq<u8>, b: Seq<u8>|
                labels.contains(a) && labels.contains(b) ==> base(a, b) + #[trigger] sentence_pairings(
                    sen,
                    a,
                    b,
                ) <= u32::MAX,
            forall|a: Seq<u8>, b: Seq<u8>|
                labels.contains(a) && labels.contains(b) ==> #[trigger] graph.edge_between(a, b)
                    == tally(base(a, b) + sentence_pairings_upto(sen, i as int, a, b)),
        decreases len - i,
    {
        let term = &sentence.0[i];
        let mut j: usize = i;
        while j < len
            invariant
                i <= j <= len,
                i < len,
                len == sen.len(),
                sen == sentence@,
                term@ == sen[i as int],
                graph.wf(),
                graph.vocabulary() == labels,
                forall|i: int|
                    0 <= i < sen.len() ==> labels.contains(encode_utf8(#[trigger] sen[i])),
                forall|a: Seq<u8>, b: Seq<u8>|
                    labels.contains(a) && labels.contains(b) ==> base(a, b) + #[trigger] sentence_pairings(
                        sen,
                        a,
                        b,
                    ) <= u32::MAX,
                forall|a: Seq<u8>, b: Seq<u8>|
                    labels.contains(a) && labels.contains(b) ==> #[trigger] graph.edge_between(
                        a,
                        b,
                    ) == tally(
                        base(a, b) + sentence_pairings_upto(sen, i as int, a, b) + row_pairings(
                            sen,
                            i as int,
                            j as int,
                            a,
                            b,
                        ),
                    ),
            decreases len - j,
        {
            let other = &sentence.0[j];
            let ghost before = *graph;
            let ghost x = encode_utf8(sen[i as int]);
            let ghost y = encode_utf8(sen[j as int]);
            proof {
                assert(other@ == sen[j as int]);
                assert(labels.contains(x));
                assert(labels.contains(y));
                lemma_row_pairings_grow(sen, i as int, j + 1, x, y);
                lemma_sentence_pairings_grow(sen, i + 1, x, y);
                assert(before.edge_between(x, y) == tally(
                    base(x, y) + sentence_pairings_upto(sen, i as int, x, y) + row_pairings(
                        sen,
                        i as int,
                        j as int,
                        x,
                        y,
                    ),
                ));
            }
            graph.add_weight(term.0.as_str(), other.0.as_str(), 1);
            proof {
                lemma_set_get(before, *graph, x, y, graph.edge_between(x, y));
                assert forall|a: Seq<u8>, b: Seq<u8>|
                    labels.contains(a) && labels.contains(b) implies #[trigger] graph.edge_between(
                    a,
                    b,
                ) == tally(
                    base(a, b) + sentence_pairings_upto(sen, i as int, a, b) + row_pairings(
                        sen,
                        i as int,
                        j + 1,
                        a,
                        b,
                    ),
                ) by {
                    if !is_pair(x, y, a, b) {
                        assert(graph.edge_between(a, b) == before.edge_between(a, b));
                    } else {
                        lemma_row_pairings_grow(sen, i as int, j + 1, a, b);
                        lemma_sentence_pairings_grow(sen, i + 1, a, b);
                        assert(before.edge_between(a, b) == before.edge_between(x, y));
                        assert(graph.edge_between(a, b) == graph.edge_between(x, y));
                    }
                }
            }
            j += 1;
        }
        i += 1;
    }
}

/// Constructs a graph from a document, where the value of an edge is the
/// number of times that its two terms are paired in a sentence.
///
/// Terms that are never paired are not connected. A sentence pairs each of
/// its terms with itself and with each term behind it, so that a sentence
/// with several instances of a pair counts several times: "cat dog dog" adds
/// 2 to the edge between "cat" and "dog".
pub fn construct_sentence_count(document: &Document) -> (graph: AMGraph<u32>)
    requires
        document_terms(document@).len() <= usize::MAX,
        triangle(vocabulary_of(document@).len()) <= usize::MAX,
        forall|a: Seq<u8>, b: Seq<u8>| #[trigger] pairings(document@, a, b) <= u32::MAX,
    ensures
        graph.wf(),
        graph.vocabulary() == vocabulary_of(document@),
        forall|a: Seq<u8>, b: Seq<u8>|
            graph.vocabulary().contains(a) && graph.vocabulary().contains(b)
                ==> #[trigger] graph.edge_between(a, b) == tally(pairings(document@, a, b)),
{
    let ghost doc = document@;
    let ghost labels = vocabulary_of(doc);
    let mut graph = AMGraph::new(build_language(document));
    let mut p: usize = 0;
    proof {
        assert(doc.take(0) =~= Seq::<Seq<Seq<Seq<char>>>>::empty());
        assert forall|a: Seq<u8>, b: Seq<u8>|
            labels.contains(a) && labels.contains(b) implies #[trigger] graph.edge_between(a, b)
            == tally(pairings(doc.take(0), a, b)) by {
            lemma_edge_in_range(graph, a, b);
        }
    }
    while p < document.0.len()
        invariant
            p <= doc.len(),
            doc == document@,
            graph.wf(),
            graph.vocabulary() == labels,
            is_vocabulary(doc, labels),
            forall|a: Seq<u8>, b: Seq<u8>| #[trigger] pairings(doc, a, b) <= u32::MAX,
            forall|a: Seq<u8>, b: Seq<u8>|
                labels.contains(a) && labels.contains(b) ==> #[trigger] graph.edge_between(a, b)
                    == tally(pairings(doc.take(p as int), a, b)),
        decreases doc.len() - p,
    {
        let paragraph = &document.0[p];
        let ghost par = paragraph@;
        let mut s: usize = 0;
        proof {
            assert(par == doc[p as int]);
            assert(par.take(0) =~= Seq::<Seq<Seq<char>>>::empty());
        }
        while s < paragraph.0.len()
            invariant
                p < doc.len(),
                s <= par.len(),
                par == paragraph@,
                par == doc[p as int],
                graph.wf(),
                graph.vocabulary() == labels,
                is_vocabulary(doc, labels),
                forall|a: Seq<u8>, b: Seq<u8>| #[trigger] pairings(doc, a, b) <= u32::MAX,
                forall|a: Seq<u8>, b: Seq<u8>|
                    labels.contains(a) && labels.contains(b) ==> #[trigger] graph.edge_between(
                        a,
                        b,
                    ) == tally(
                        pairings(doc.take(p as int), a, b) + paragraph_pairings(
                            par.take(s as int),
                            a,
                            b,
                        ),
                    ),
            decreases par.len() - s,
        {
            let sentence = &paragraph.0[s];
            let ghost base = |a: Seq<u8>, b: Seq<u8>|
                pairings(doc.take(p as int), a, b) + paragraph_pairings(par.take(s as int), a, b);
            proof {
                assert(sentence@ == par[s as int]);
                assert forall|i: int| 0 <= i < sentence@.len() implies labels.contains(
                    encode_utf8(#[trigger] sentence@[i]),
                ) by {
                    lemma_term_at(doc, p as int, s as int, i);
                }
                assert forall|a: Seq<u8>, b: Seq<u8>|
                    labels.contains(a) && labels.contains(b) implies {
                    &&& #[trigger] graph.edge_between(a, b) == tally(base(a, b))
                    &&& base(a, b) + sentence_pairings(sentence@, a, b) <= u32::MAX
                } by {
                    lemma_paragraph_pairings_step(par, s as int, a, b);
                    lemma_pairings_step(doc, p as int, a, b);
                    assert(pairings(doc, a, b) <= u32::MAX);
                }
            }
            count_sentence(&mut graph, sentence, Ghost(base));
            proof {
                assert forall|a: Seq<u8>, b: Seq<u8>|
                    labels.contains(a) && labels.contains(b) implies #[trigger] graph.edge_between(
                    a,
                    b,
                ) == tally(
                    pairings(doc.take(p as int), a, b) + paragraph_pairings(par.take(s + 1), a, b),
                ) by {
                    lemma_paragraph_pairings_step(par, s as int, a, b);
                }
            }
            s += 1;
        }
        proof {
            assert(par.take(s as int) =~= par);
            assert forall|a: Seq<u8>, b: Seq<u8>|
                labels.contains(a) && labels.contains(b) implies #[trigger] graph.edge_between(
                a,
                b,
            ) == tally(pairings(doc.take(p + 1), a, b)) by {
                lemma_pairings_step(doc, p as int, a, b);
            }
        }
        p += 1;
    }
    proof {
        assert(doc.take(p as int) =~= doc);
    }
    graph
}

/// Each term of a document is a term of the document.
proof fn lemma_term_at(document: Seq<Seq<Seq<Seq<char>>>>, p: int, s: int, i: int)
    requires
        0 <= p < document.len(),
        0 <= s < document[p].len(),
        0 <= i < document[p][s].len(),
    ensures
        is_term(document, encode_utf8(document[p][s][i])),
{
    let x = encode_utf8(document[p][s][i]);
    lemma_paragraph_terms_step(document[p], s);
    let upto_s = paragraph_terms(document[p].take(s));
    let here = paragraph_terms(document[p].take(s + 1));
    assert(here[upto_s.len() + i] == document[p][s][i]);
    lemma_paragraph_prefix(document[p], s + 1);
    let par = paragraph_terms(document[p]);
    assert(par[upto_s.len() + i] == document[p][s][i]);
    lemma_document_terms_step(document, p);
    let upto_p = document_terms(document.take(p));
    let there = document_terms(document.take(p + 1));
    assert(there[upto_p.len() + upto_s.len() + i] == document[p][s][i]);
    lemma_document_prefix(document, p + 1);
    let all = document_terms(document);
    assert(all[upto_p.len() + upto_s.len() + i] == document[p][s][i]);
}

/// The terms of the first sentences of a paragraph stand first among its
/// terms.
proof fn lemma_paragraph_prefix(paragraph: Seq<Seq<Seq<char>>>, s: int)
    requires
        0 <= s <= paragraph.len(),
    ensures
        paragraph_terms(paragraph.take(s)).len() <= paragraph_terms(paragraph).len(),
        paragraph_terms(paragraph.take(s)) == paragraph_terms(paragraph).take(
            paragraph_terms(paragraph.take(s)).len() as int,
        ),
    decreases paragraph.len() - s,
{
    if s < paragraph.len() {
        lemma_paragraph_prefix(paragraph, s + 1);
        lemma_paragraph_terms_step(paragraph, s);
        let shorter = paragraph_terms(paragraph.take(s));
        let longer = paragraph_terms(paragraph.take(s + 1));
        assert(shorter =~= longer.take(shorter.len() as int));
        assert(shorter =~= paragraph_terms(paragraph).take(shorter.len() as int));
    } else {
        assert(paragraph.take(s) =~= paragraph);
        assert(paragraph_terms(paragraph) =~= paragraph_terms(paragraph).take(
            paragraph_terms(paragraph).len() as int,
        ));
    }
}

/// The terms of the first paragraphs of a document stand first among its
/// terms.
proof fn lemma_document_prefix(document: Seq<Seq<Seq<Seq<char>>>>, p: int)
    requires
        0 <= p <= document.len(),
    ensures
        document_terms(document.take(p)).len() <= document_terms(document).len(),
        document_terms(document.take(p)) == document_terms(document).take(
            document_terms(document.take(p)).len() as int,
        ),
    decreases document.len() - p,
{
    if p < document.len() {
        lemma_document_prefix(document, p + 1);
        lemma_document_terms_step(document, p);
        let shorter = document_terms(document.take(p));
        let longer = document_terms(document.take(p + 1));
        assert(shorter =~= longer.take(shorter.len() as int));
        assert(shorter =~= document_terms(document).take(shorter.len() as int));
    } else {
        assert(document.take(p) =~= document);
        assert(document_terms(document) =~= document_terms(document).take(
            document_terms(document).len() as int,
        ));
    }
}

} // verus!
