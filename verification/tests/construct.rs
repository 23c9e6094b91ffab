use fact_graph::construct::{build_language, construct_sentence_count, construct_sentence_link};
use fact_graph::graph::adj_matrix::AMGraph;
use fact_graph::graph::index_trie::IndexTrie;
use fact_graph::input::{Document, NddFile, Paragraph, Sentence, Term};

fn document(paragraphs: &[&[&str]]) -> Document {
    Document(
        paragraphs
            .iter()
            .map(|p| {
                Paragraph(
                    p.iter()
                        .map(|s| Sentence(s.split(' ').map(|t| Term(t.to_string())).collect()))
                        .collect(),
                )
            })
            .collect(),
    )
}

fn words(doc: &Document) -> Vec<Vec<Vec<String>>> {
    doc.0
        .iter()
        .map(|p| p.0.iter().map(|s| s.0.iter().map(|t| t.0.clone()).collect()).collect())
        .collect()
}

#[test]
fn language_holds_each_term_once() {
    let doc = document(&[&["cat dog dog", "fish"], &["dog ant"]]);
    let language = build_language(&doc);
    assert_eq!(language.len(), 4);
    assert_eq!(language.get("ant"), Some(0));
    assert_eq!(language.get("cat"), Some(1));
    assert_eq!(language.get("dog"), Some(2));
    assert_eq!(language.get("fish"), Some(3));
    assert_eq!(build_language(&Document(Vec::new())).len(), 0);
}

#[test]
fn sentence_count_counts_each_pairing() {
    let doc = document(&[&["cat dog dog", "fish"], &["dog cat"]]);
    let g = construct_sentence_count(&doc);
    assert_eq!(g.len(), 3);
    assert_eq!(g.get("cat", "dog"), Ok(&Some(3)));
    assert_eq!(g.get("dog", "cat"), Ok(&Some(3)));
    assert_eq!(g.get("cat", "cat"), Ok(&Some(2)));
    assert_eq!(g.get("dog", "dog"), Ok(&Some(4)));
    assert_eq!(g.get("fish", "fish"), Ok(&Some(1)));
    assert_eq!(g.get("fish", "cat"), Ok(&None));
    assert_eq!(g.get("fish", "dog"), Ok(&None));
    assert_eq!(g.get("fish", "bird"), Err(()));
}

#[test]
fn sentence_link_connects_terms_of_a_sentence() {
    let doc = document(&[&["a b c", "d"], &["c d", "e e"]]);
    let g = construct_sentence_link(&doc);
    assert_eq!(g.len(), 5);
    for (x, y) in [("a", "b"), ("a", "c"), ("b", "c"), ("c", "d"), ("e", "e")] {
        assert_eq!(g.get(x, y), Ok(&Some(())));
        assert_eq!(g.get(y, x), Ok(&Some(())));
    }
    for (x, y) in [("a", "d"), ("b", "d"), ("a", "a"), ("d", "d"), ("d", "e"), ("a", "e")] {
        assert_eq!(g.get(x, y), Ok(&None));
    }
}

#[test]
fn add_weight_sums_on_an_edge() {
    let mut t = IndexTrie::new();
    t.insert("x");
    t.insert("y");
    let mut g: AMGraph<u32> = AMGraph::new(t);
    g.add_weight("x", "y", 2);
    assert_eq!(g.get("y", "x"), Ok(&Some(2)));
    g.add_weight("y", "x", 5);
    assert_eq!(g.get("x", "y"), Ok(&Some(7)));
    assert_eq!(g.get("x", "x"), Ok(&None));
    let mut t = IndexTrie::new();
    t.insert("x");
    let mut h: AMGraph<f32> = AMGraph::new(t);
    h.add_weight("x", "x", 0.5);
    h.add_weight("x", "x", 0.25);
    assert_eq!(h.get("x", "x"), Ok(&Some(0.75)));
}

#[test]
fn lines_become_paragraphs_of_sentences() {
    let lines: Vec<String> = [
        "this is the first sentence",
        "the  second\tone ",
        "",
        "",
        "next paragraph",
        " ",
        "",
    ]
    .iter()
    .map(|l| l.to_string())
    .collect();
    let doc = NddFile::parse_lines(&lines);
    let want: Vec<Vec<Vec<String>>> = vec![
        vec![
            vec!["this", "is", "the", "first", "sentence"],
            vec!["the", "second", "one"],
        ],
        vec![vec!["next", "paragraph"], vec![]],
    ]
    .into_iter()
    .map(|p| p.into_iter().map(|s| s.into_iter().map(String::from).collect()).collect())
    .collect();
    assert_eq!(words(&doc), want);
    assert!(NddFile::parse_lines(&[]).0.is_empty());
    assert!(NddFile::parse_lines(&[String::new()]).0.is_empty());
}

#[test]
fn sentences_group_by_empty_lines() {
    let s = |t: &str| Some(Sentence(vec![Term(t.to_string())]));
    let doc = NddFile::group(vec![None, s("a"), s("b"), None, s("c"), None, None, s("d")]);
    assert_eq!(
        words(&doc),
        vec![
            vec![vec!["a".to_string()], vec!["b".to_string()]],
            vec![vec!["c".to_string()]],
            vec![vec!["d".to_string()]],
        ]
    );
}
