use fact_graph::construct::construct_hierarchial_weighed;
use fact_graph::graph::index_trie::IndexTrie;
use fact_graph::input::{Document, Paragraph, Sentence, Term};
use fact_graph::preprocess::{
    assemble, group_runs, is_separator, keep_marked, make_term, preprocess, process_word,
    split_words, word_ends_sentence, write_doc,
};

fn stopwords() -> IndexTrie {
    let mut t = IndexTrie::new();
    for w in ["the", "a", "and"] {
        t.insert(w);
    }
    t
}

fn doc(paragraphs: &[&[&[&str]]]) -> Vec<Vec<Vec<String>>> {
    paragraphs
        .iter()
        .map(|p| p.iter().map(|s| s.iter().map(|w| w.to_string()).collect()).collect())
        .collect()
}

#[test]
fn words_stand_between_white_space_and_dashes() {
    assert_eq!(split_words("The Cat sat. A dog-house!"), ["The", "Cat", "sat.", "A", "dog", "house!"]);
    assert_eq!(split_words("  one \u{2014} two\t--three "), ["one", "two", "three"]);
    assert_eq!(split_words(""), Vec::<String>::new());
    assert_eq!(split_words(" \t- "), Vec::<String>::new());
    assert!(is_separator(' '));
    assert!(is_separator('-'));
    assert!(is_separator('\u{2014}'));
    assert!(is_separator('\u{a0}'));
    assert!(!is_separator('_'));
    assert!(!is_separator('a'));
}

#[test]
fn a_word_gives_its_letters_in_lower_case() {
    let stop = stopwords();
    assert_eq!(process_word("Cat", &stop), (Some("cat".to_string()), false));
    assert_eq!(process_word("sat.", &stop), (Some("sat".to_string()), true));
    assert_eq!(process_word("it's", &stop), (Some("its".to_string()), false));
    assert_eq!(process_word("Émile?", &stop), (Some("émile".to_string()), true));
    assert_eq!(process_word("The", &stop), (None, false));
    assert_eq!(process_word("A!", &stop), (None, true));
    assert_eq!(process_word("42", &stop), (None, false));
    assert_eq!(process_word("...", &stop), (None, true));
    assert_eq!(process_word("end.)", &stop), (Some("end".to_string()), false));
}

#[test]
fn lines_become_a_document() {
    let lines: Vec<String> =
        ["The Cat sat. A dog-house!", "", "", "Second one \u{2014} here?", "And more"]
            .iter()
            .map(|l| l.to_string())
            .collect();
    let got = preprocess(&lines, &stopwords());
    let want = doc(&[
        &[&["cat", "sat"], &["dog", "house"], &[]],
        &[&["second", "one", "here"], &["more"]],
    ]);
    assert_eq!(got, want);
    assert_eq!(write_doc(&got), "cat sat\ndog house\n\n\nsecond one here\nmore");
}

#[test]
fn empty_ends_are_cut() {
    let stop = stopwords();
    let none: Vec<Vec<Vec<String>>> = Vec::new();
    assert_eq!(preprocess(&[], &stop), none);
    assert_eq!(preprocess(&["".to_string(), " ".to_string()], &stop), none);
    assert_eq!(preprocess(&["the a".to_string()], &stop), none);
    assert_eq!(preprocess(&["One.".to_string()], &stop), doc(&[&[&["one"]]]));
    assert_eq!(
        preprocess(&["One.".to_string(), "".to_string()], &stop),
        doc(&[&[&["one"], &[]]])
    );
    assert_eq!(
        preprocess(&["one".to_string(), "".to_string(), "the".to_string()], &stop),
        doc(&[&[&["one"]]])
    );
    assert_eq!(
        preprocess(&["one . two".to_string()], &stop),
        doc(&[&[&["one"], &["two"]]])
    );
}

#[test]
fn a_document_as_text() {
    assert_eq!(write_doc(&Vec::new()), "");
    assert_eq!(write_doc(&doc(&[&[&["a"]]])), "a");
    assert_eq!(write_doc(&doc(&[&[&["a", "b", "c"]]])), "a b c");
    assert_eq!(write_doc(&doc(&[&[&["a", "b"], &["c"]], &[&["d"]], &[&["e", "f"]]])), "a b\nc\n\nd\n\ne f");
    assert_eq!(write_doc(&doc(&[&[], &[&[]]])), "\n\n");
}

#[test]
fn weights_by_how_close_terms_stand() {
    let sentence = |s: &str| Sentence(s.split(' ').map(|t| Term(t.to_string())).collect());
    let document = Document(vec![
        Paragraph(vec![sentence("a b"), sentence("c")]),
        Paragraph(vec![sentence("a")]),
    ]);
    let g = construct_hierarchial_weighed(&document, [10.0f32, 1.0, 0.5, 0.25]);
    assert_eq!(g.len(), 3);
    assert_eq!(g.get("a", "a"), Ok(&Some(20.25)));
    assert_eq!(g.get("a", "b"), Ok(&Some(1.25)));
    assert_eq!(g.get("c", "a"), Ok(&Some(0.75)));
    assert_eq!(g.get("b", "b"), Ok(&Some(10.0)));
    assert_eq!(g.get("b", "c"), Ok(&Some(0.5)));
    assert_eq!(g.get("c", "c"), Ok(&Some(10.0)));
    let h = construct_hierarchial_weighed(&document, [0u32, 1, 0, 0]);
    assert_eq!(h.get("a", "b"), Ok(&Some(1)));
    assert_eq!(h.get("a", "c"), Ok(&Some(0)));
    assert_eq!(h.get("a", "a"), Ok(&Some(0)));
}

#[test]
fn runs_stand_between_breaks() {
    let chars: Vec<char> = "ab,c,,d".chars().collect();
    let breaks: Vec<bool> = chars.iter().map(|c| *c == ',').collect();
    assert_eq!(group_runs(&chars, &breaks), ["ab", "c", "d"]);
    assert_eq!(group_runs(&chars, &[false; 7]), ["ab,c,,d"]);
    assert_eq!(group_runs(&chars, &[true; 7]), Vec::<String>::new());
    assert_eq!(group_runs(&[], &[]), Vec::<String>::new());
}

#[test]
fn marked_characters_are_kept() {
    let chars: Vec<char> = "a1b2".chars().collect();
    assert_eq!(keep_marked(&chars, &[true, false, true, false]), vec!['a', 'b']);
    assert_eq!(keep_marked(&chars, &[false, true, true, true]), vec!['1', 'b', '2']);
    assert_eq!(keep_marked(&chars, &[false; 4]), Vec::<char>::new());
}

#[test]
fn terms_are_not_empty_and_not_stop_words() {
    let stop = stopwords();
    assert_eq!(make_term("cat".to_string(), &stop), Some("cat".to_string()));
    assert_eq!(make_term("the".to_string(), &stop), None);
    assert_eq!(make_term(String::new(), &stop), None);
    assert!(word_ends_sentence(&['a', '.']));
    assert!(word_ends_sentence(&['?']));
    assert!(word_ends_sentence(&['n', 'o', '!']));
    assert!(!word_ends_sentence(&['.', 'a']));
    assert!(!word_ends_sentence(&[]));
}

#[test]
fn words_are_put_together() {
    let t = |s: &str, end: bool| (Some(s.to_string()), end);
    let lines = vec![
        vec![(None, false), t("cat", false), t("sat", true), (None, true), t("dog", false)],
        vec![],
        vec![],
        vec![(None, true), t("more", true)],
    ];
    assert_eq!(assemble(&lines), doc(&[&[&["cat", "sat"], &["dog"]], &[&["more"]]]));
    assert_eq!(assemble(&vec![vec![], vec![(None, true)]]), Vec::<Vec<Vec<String>>>::new());
}
