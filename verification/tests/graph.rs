use fact_graph::graph::adj_matrix::AMGraph;
use fact_graph::graph::index_trie::IndexTrie;
use fact_graph::graph::lower_triangular::LowerTriangular;

fn graph_over(labels: &[&str]) -> AMGraph<f64> {
    let mut t = IndexTrie::new();
    for l in labels {
        t.insert(l);
    }
    AMGraph::new(t)
}

#[test]
fn two_vertices_end_to_end() {
    let mut g = graph_over(&["x", "y"]);
    assert_eq!(g.get("x", "y"), Ok(&None));
    assert_eq!(g.set("x", "y", Some(2.0)), Ok(()));
    assert_eq!(g.get("x", "y"), Ok(&Some(2.0)));
    assert_eq!(g.get("y", "x"), Ok(&Some(2.0)));
    assert_eq!(g.get("x", "z"), Err(()));
    assert_eq!(g.get("z", "x"), Err(()));
    assert_eq!(g.set("x", "z", Some(1.0)), Err(()));
}

#[test]
fn get_mut_writes_the_shared_slot() {
    let mut g = graph_over(&["a", "b", "c"]);
    *g.get_mut("c", "a").unwrap() = Some(7.5);
    assert_eq!(g.get("a", "c"), Ok(&Some(7.5)));
    assert_eq!(g.get("a", "b"), Ok(&None));
    assert_eq!(g.get("c", "c"), Ok(&None));
    assert!(g.get_mut("a", "d").is_err());
    *g.get_mut("a", "c").unwrap() = None;
    assert_eq!(g.get("c", "a"), Ok(&None));
}

#[test]
fn vertices_of_a_graph() {
    let g = graph_over(&["b", "a"]);
    assert_eq!(g.len(), 2);
    assert!(!g.is_empty());
    assert!(g.contains_vertex("a"));
    assert!(!g.contains_vertex("c"));
    let e = graph_over(&[]);
    assert!(e.is_empty());
    assert_eq!(e.len(), 0);
}

#[test]
fn vertices_in_rank_order() {
    let g = graph_over(&["pear", "apple", "fig"]);
    let mut it = g.vertices();
    assert_eq!(it.len(), 3);
    assert_eq!(it.next(), Some("apple".to_string()));
    assert_eq!(it.next(), Some("fig".to_string()));
    assert_eq!(it.next(), Some("pear".to_string()));
    assert_eq!(it.next(), None);
}

#[test]
fn edges_in_row_major_order() {
    let mut g = graph_over(&["a", "b", "c"]);
    g.set("c", "b", Some(3.0)).unwrap();
    g.set("a", "a", Some(1.0)).unwrap();
    g.set("a", "c", Some(2.0)).unwrap();
    let mut it = g.edges();
    assert_eq!(it.size_hint(), (0, Some(6)));
    assert_eq!(it.next(), Some(("a".to_string(), "a".to_string(), &1.0)));
    assert_eq!(it.size_hint(), (0, Some(5)));
    assert_eq!(it.next(), Some(("c".to_string(), "a".to_string(), &2.0)));
    assert_eq!(it.size_hint(), (0, Some(2)));
    assert_eq!(it.next(), Some(("c".to_string(), "b".to_string(), &3.0)));
    assert_eq!(it.next(), None);
    assert_eq!(it.next(), None);
    assert_eq!(it.size_hint(), (0, Some(0)));
}

#[test]
fn packed_matrix_is_symmetric() {
    let mut m = LowerTriangular(vec![0u32; 10]);
    for i in 0..4usize {
        for j in 0..4usize {
            *m.index_mut((i, j)) = (10 * i.max(j) + i.min(j)) as u32;
            assert_eq!(*m.index((j, i)), (10 * i.max(j) + i.min(j)) as u32);
        }
    }
    assert_eq!(m.0, vec![0, 10, 11, 20, 21, 22, 30, 31, 32, 33]);
}

#[test]
fn a_copy_of_a_graph() {
    let mut g = graph_over(&["a", "b"]);
    g.set("a", "b", Some(1.5)).unwrap();
    let mut copy = g.clone();
    copy.set("b", "b", Some(2.5)).unwrap();
    assert_eq!(copy.get("a", "b"), Ok(&Some(1.5)));
    assert_eq!(copy.get("b", "b"), Ok(&Some(2.5)));
    assert_eq!(g.get("b", "b"), Ok(&None));
}
