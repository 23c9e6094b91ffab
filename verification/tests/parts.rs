use fact_graph::clustering::kept_columns;
use fact_graph::graph::adj_matrix::AMGraph;
use fact_graph::graph::index_trie::{IndexTrie, Node};
use fact_graph::graph::lower_triangular::{checked_triangle, triangle_of};

fn copy(nodes: &[Node]) -> Vec<Node> {
    nodes
        .iter()
        .map(|n| match n {
            Node::Leaf { rest } => Node::Leaf { rest: rest.clone() },
            Node::NonLeaf { prefix, children, len } => {
                Node::NonLeaf { prefix: prefix.clone(), children: copy(children), len: *len }
            }
        })
        .collect()
}

fn leaf(s: &str) -> Node {
    Node::Leaf { rest: s.as_bytes().to_vec() }
}

fn branch(prefix: &str, children: Vec<Node>, len: usize) -> Node {
    Node::NonLeaf { prefix: prefix.as_bytes().to_vec(), children, len }
}

#[test]
fn a_trie_comes_back_from_its_parts() {
    let mut t = IndexTrie::new();
    for s in ["aaa", "aaaaa", "aaaab", "aabb", "", "b"] {
        t.insert(s);
    }
    let back = IndexTrie::from_parts(copy(t.roots()), t.len()).unwrap();
    assert_eq!(back.len(), t.len());
    for r in 0..t.len() {
        let s = t.get(r).unwrap();
        assert_eq!(back.get(r), Some(s.clone()));
        assert_eq!(back.get(s.as_str()), Some(r));
    }
}

#[test]
fn the_shape_that_insertion_gives() {
    let mut t = IndexTrie::new();
    for s in ["aaa", "aaaaa", "aaaab", "aabb"] {
        t.insert(s);
    }
    let want = vec![branch(
        "aa",
        vec![
            branch("a", vec![leaf(""), branch("a", vec![leaf("a"), leaf("b")], 2)], 3),
            leaf("bb"),
        ],
        4,
    )];
    let back = IndexTrie::from_parts(want, 4).unwrap();
    assert_eq!(format_nodes(back.roots()), format_nodes(t.roots()));
}

fn format_nodes(nodes: &[Node]) -> String {
    let parts: Vec<String> = nodes
        .iter()
        .map(|n| match n {
            Node::Leaf { rest } => format!("L{:?}", rest),
            Node::NonLeaf { prefix, children, len } => {
                format!("B{:?}/{}({})", prefix, len, format_nodes(children))
            }
        })
        .collect();
    parts.join(",")
}

#[test]
fn malformed_parts_are_refused() {
    // A wrong count of strings.
    assert!(IndexTrie::from_parts(vec![leaf("a"), leaf("b")], 3).is_none());
    // Siblings out of order, and siblings that share a first byte.
    assert!(IndexTrie::from_parts(vec![leaf("b"), leaf("a")], 2).is_none());
    assert!(IndexTrie::from_parts(vec![leaf("ab"), leaf("ac")], 2).is_none());
    // An empty leaf that does not stand first.
    assert!(IndexTrie::from_parts(vec![leaf("a"), leaf("")], 2).is_none());
    // A branch without a prefix, with one child, or with a wrong size.
    assert!(IndexTrie::from_parts(vec![branch("", vec![leaf("a"), leaf("b")], 2)], 2).is_none());
    assert!(IndexTrie::from_parts(vec![branch("a", vec![leaf("b")], 1)], 1).is_none());
    assert!(IndexTrie::from_parts(vec![branch("a", vec![leaf("a"), leaf("b")], 3)], 3).is_none());
    // A string that is not UTF-8.
    assert!(IndexTrie::from_parts(vec![Node::Leaf { rest: vec![0xff] }], 1).is_none());
    assert!(IndexTrie::from_parts(
        vec![Node::NonLeaf {
            prefix: vec![0xc3],
            children: vec![Node::Leaf { rest: vec![0xa4] }, Node::Leaf { rest: vec![0x28] }],
            len: 2,
        }],
        2
    )
    .is_none());
    // Well-formed parts, one of them split inside a character.
    assert!(IndexTrie::from_parts(vec![leaf("a"), leaf("b")], 2).is_some());
    assert!(IndexTrie::from_parts(
        vec![Node::NonLeaf {
            prefix: vec![0xc3],
            children: vec![Node::Leaf { rest: vec![0xa4] }, Node::Leaf { rest: vec![0xb6] }],
            len: 2,
        }],
        2
    )
    .is_some());
    assert!(IndexTrie::from_parts(Vec::new(), 0).is_some());
}

#[test]
fn a_graph_comes_back_from_its_parts() {
    let mut t = IndexTrie::new();
    for s in ["x", "y", "z"] {
        t.insert(s);
    }
    let mut g: AMGraph<u32> = AMGraph::new(t);
    g.set("x", "z", Some(4)).unwrap();
    g.set("y", "y", Some(9)).unwrap();
    assert_eq!(g.edge_slots(), &vec![None, None, Some(9), Some(4), None, None]);
    let map = IndexTrie::from_parts(copy(g.index().roots()), g.index().len()).unwrap();
    let back = AMGraph::from_parts(map, g.edge_slots().clone()).unwrap();
    assert_eq!(back.get("z", "x"), Ok(&Some(4)));
    assert_eq!(back.get("y", "y"), Ok(&Some(9)));
    assert_eq!(back.get("x", "y"), Ok(&None));
    let map = IndexTrie::from_parts(copy(g.index().roots()), 3).unwrap();
    assert!(AMGraph::<u32>::from_parts(map, vec![None; 5]).is_none());
}

#[test]
fn triangle_numbers() {
    assert_eq!(triangle_of(0), 0);
    assert_eq!(triangle_of(1), 1);
    assert_eq!(triangle_of(4), 10);
    assert_eq!(triangle_of(5), 15);
    assert_eq!(checked_triangle(7), Some(28));
    assert_eq!(checked_triangle(usize::MAX), None);
    assert_eq!(checked_triangle(usize::MAX - 1), None);
}

#[test]
fn kept_columns_keep_their_order() {
    assert_eq!(kept_columns(&[false, true, true, false, true]), vec![1, 2, 4]);
    assert_eq!(kept_columns(&[false, false]), Vec::<usize>::new());
    assert_eq!(kept_columns(&[]), Vec::<usize>::new());
}

#[test]
fn the_tree_does_not_depend_on_the_order_of_insertion() {
    let words = ["romane", "romanus", "romulus", "rubens", "ruber", "rub", "", "rubicon", "r"];
    let mut forward = IndexTrie::new();
    for w in words {
        forward.insert(w);
    }
    let mut backward = IndexTrie::new();
    for w in words.iter().rev() {
        backward.insert(w);
    }
    let mut sorted = words.to_vec();
    sorted.sort();
    let items: Vec<String> = sorted.iter().map(|w| w.to_string()).collect();
    let ascending = IndexTrie::from_iter(&items);
    assert_eq!(format_nodes(forward.roots()), format_nodes(backward.roots()));
    assert_eq!(format_nodes(forward.roots()), format_nodes(ascending.roots()));
    for (r, w) in sorted.iter().enumerate() {
        assert_eq!(backward.get(*w), Some(r));
        assert_eq!(ascending.get(r), Some(w.to_string()));
    }
}
