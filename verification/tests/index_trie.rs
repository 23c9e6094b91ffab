use fact_graph::graph::index_trie::IndexTrie;

const STRINGS: [&str; 7] = ["aaa", "aaa", "aaaaa", "aaaab", "aabb", "aacb", "aacee"];

fn test_trie() -> IndexTrie {
    let mut t = IndexTrie::new();
    for s in &STRINGS {
        t.insert(s);
    }
    t
}

fn expected_contents() -> Vec<&'static str> {
    let mut entries = STRINGS.to_vec();
    entries.sort();
    entries.dedup();
    entries
}

#[test]
fn len() {
    let t = test_trie();
    let c = expected_contents();
    assert_eq!(t.len(), c.len());
}

#[test]
fn get_by_str() {
    let t = test_trie();
    let c = expected_contents();
    for (i, &s) in c.iter().enumerate() {
        assert_eq!(t.get(s), Some(i));
    }
}

#[test]
fn get_by_index() {
    let t = test_trie();
    let c = expected_contents();
    for (i, &s) in c.iter().enumerate() {
        assert_eq!(t.get(i), Some(s.to_string()));
    }
}

#[test]
fn iter() {
    let t = test_trie();
    let c = expected_contents();
    let mut it = t.iter();
    let mut got = Vec::new();
    while let Some(s) = it.next() {
        got.push(s);
    }
    assert_eq!(got.into_iter().eq(c.iter().map(|s| s.to_string())), true);
}

#[test]
fn iter_len() {
    let t = test_trie();
    let len = t.len();
    let mut iter = t.iter();
    for i in 0..len {
        assert_eq!(iter.len(), len - i);
        iter.next();
    }
}

#[test]
fn iter_is_restartable_and_fused() {
    let t = test_trie();
    let mut first = t.iter();
    assert_eq!(first.next(), Some("aaa".to_string()));
    assert_eq!(first.size_hint(), (5, Some(5)));
    let mut second = t.iter();
    assert_eq!(second.len(), 6);
    assert_eq!(second.next(), Some("aaa".to_string()));
    assert_eq!(second.next(), Some("aaaaa".to_string()));
    assert_eq!(second.next(), Some("aaaab".to_string()));
    assert_eq!(second.next(), Some("aabb".to_string()));
    assert_eq!(second.next(), Some("aacb".to_string()));
    assert_eq!(second.next(), Some("aacee".to_string()));
    assert_eq!(second.next(), None);
    assert_eq!(second.next(), None);
    assert_eq!(second.len(), 0);
    let empty = IndexTrie::new();
    assert_eq!(empty.iter().next(), None);
}

#[test]
fn insert_reports_whether_added() {
    let mut t = IndexTrie::new();
    assert!(t.is_empty());
    assert!(t.insert("aaa"));
    assert!(!t.insert("aaa"));
    assert!(t.insert("aaaaa"));
    assert!(t.insert("aaaab"));
    assert!(t.insert("aabb"));
    assert!(!t.insert("aaaab"));
    assert_eq!(t.len(), 4);
    assert!(!t.is_empty());
}

#[test]
fn four_strings_end_to_end() {
    let mut t = IndexTrie::new();
    for s in ["aaa", "aaaaa", "aaaab", "aabb"] {
        t.insert(s);
    }
    assert_eq!(t.len(), 4);
    assert_eq!(t.get("aaaaa"), Some(1));
    assert_eq!(t.get(2usize), Some("aaaab".to_string()));
    assert_eq!(t.get(4usize), None);
    assert_eq!(t.get("aab"), None);
    let mut it = t.iter();
    let mut got = Vec::new();
    while let Some(s) = it.next() {
        got.push(s);
    }
    assert_eq!(got, ["aaa", "aaaaa", "aaaab", "aabb"]);
}

#[test]
fn empty_string_sorts_first() {
    let mut t = IndexTrie::new();
    assert!(t.insert("b"));
    assert!(t.insert(""));
    assert!(t.insert("a"));
    assert!(!t.insert(""));
    assert_eq!(t.get(""), Some(0));
    assert_eq!(t.get("a"), Some(1));
    assert_eq!(t.get("b"), Some(2));
    assert_eq!(t.get(0usize), Some(String::new()));
}

#[test]
fn prefix_of_existing_string() {
    let mut t = IndexTrie::new();
    assert!(t.insert("abcd"));
    assert!(t.insert("ab"));
    assert!(t.insert("abce"));
    assert!(t.insert("a"));
    assert!(t.insert("abc"));
    let want = ["a", "ab", "abc", "abcd", "abce"];
    assert_eq!(t.len(), want.len());
    for (i, s) in want.iter().enumerate() {
        assert_eq!(t.get(*s), Some(i));
        assert_eq!(t.get(i), Some(s.to_string()));
    }
    assert_eq!(t.get("abcde"), None);
    assert_eq!(t.get("b"), None);
}

#[test]
fn insert_raises_later_ranks() {
    let mut t = IndexTrie::new();
    t.insert("m");
    t.insert("z");
    assert_eq!(t.get("z"), Some(1));
    t.insert("n");
    assert_eq!(t.get("m"), Some(0));
    assert_eq!(t.get("n"), Some(1));
    assert_eq!(t.get("z"), Some(2));
    t.insert("a");
    assert_eq!(t.get("m"), Some(1));
    assert_eq!(t.get("z"), Some(3));
}

#[test]
fn ranks_and_strings_are_inverse() {
    let words = ["delta", "alpha", "gamma", "beta", "alphabet", "", "be", "gam", "über", "u"];
    let mut t = IndexTrie::new();
    for w in words {
        t.insert(w);
    }
    for w in words {
        let r = t.get(w).unwrap();
        assert_eq!(t.get(r), Some(w.to_string()));
    }
    for r in 0..t.len() {
        let s = t.get(r).unwrap();
        assert_eq!(t.get(s.as_str()), Some(r));
    }
}

#[test]
fn ranks_give_sorted_distinct_input() {
    let words = ["pear", "apple", "fig", "apple", "peach", "figs", "pear", "kiwi"];
    let mut t = IndexTrie::new();
    for w in words {
        t.insert(w);
    }
    let mut want: Vec<String> = words.iter().map(|w| w.to_string()).collect();
    want.sort();
    want.dedup();
    let got: Vec<String> = (0..t.len()).map(|r| t.get(r).unwrap()).collect();
    assert_eq!(got, want);
}

#[test]
fn extend_and_from_iter() {
    let items = vec!["b".to_string(), "a".to_string(), "b".to_string()];
    let t = IndexTrie::from_iter(&items);
    assert_eq!(t.len(), 2);
    assert_eq!(t.get("a"), Some(0));
    let mut u = IndexTrie::new();
    u.insert("c");
    u.extend(&items);
    assert_eq!(u.len(), 3);
    assert_eq!(u.get("c"), Some(2));
}

#[test]
fn tries_with_the_same_strings_are_equal() {
    let t = test_trie();
    let mut u = IndexTrie::new();
    for s in STRINGS.iter().rev() {
        u.insert(s);
    }
    assert!(t == u);
    assert!(t.clone() == t);
    u.insert("aad");
    assert!(t != u);
    assert!(IndexTrie::new() == IndexTrie::default());
    let copy = u.clone();
    assert_eq!(copy.len(), 7);
    assert_eq!(copy.get("aad"), Some(6));
    assert_eq!(copy.get(5usize), Some("aacee".to_string()));
}

#[test]
fn trie_agrees_with_a_sorted_set() {
    let mut seed: u64 = 0x2545_f491_4f6c_dd1d;
    let mut next = move || {
        seed ^= seed << 13;
        seed ^= seed >> 7;
        seed ^= seed << 17;
        seed
    };
    let mut t = IndexTrie::new();
    let mut set = std::collections::BTreeSet::new();
    for _ in 0..2000 {
        let len = (next() % 6) as usize;
        let word: String = (0..len).map(|_| ['a', 'b', 'c', 'é'][(next() % 4) as usize]).collect();
        assert_eq!(t.insert(&word), set.insert(word.clone()));
        assert_eq!(t.len(), set.len());
    }
    let sorted: Vec<&String> = set.iter().collect();
    for (r, w) in sorted.iter().enumerate() {
        assert_eq!(t.get(w.as_str()), Some(r));
        assert_eq!(t.get(r).as_ref(), Some(*w));
    }
    assert_eq!(t.get(sorted.len()), None);
    assert_eq!(t.get("abcabca"), None);
    let mut it = t.iter();
    for w in &sorted {
        assert_eq!(it.next().as_ref(), Some(*w));
    }
    assert_eq!(it.next(), None);
}
