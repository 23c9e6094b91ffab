use fact_graph::clustering::{
    shared_vocabulary, term_indices_to_edge_index, vectorize, vectorize_row,
};
use fact_graph::graph::adj_matrix::AMGraph;
use fact_graph::graph::index_trie::IndexTrie;

fn graph_over(labels: &[&str]) -> AMGraph<f32> {
    let mut t = IndexTrie::new();
    for l in labels {
        t.insert(l);
    }
    AMGraph::new(t)
}

#[test]
fn edges_to_rare_labels_are_left_out() {
    let mut first = graph_over(&["a", "b", "c"]);
    first.set("a", "b", Some(5.0)).unwrap();
    first.set("b", "c", Some(3.0)).unwrap();
    let graphs = vec![
        first,
        graph_over(&["b", "c"]),
        graph_over(&["c", "b"]),
        graph_over(&["b", "c"]),
    ];
    let language = shared_vocabulary(&graphs);
    assert_eq!(language.len(), 2);
    assert_eq!(language.get("a"), None);
    assert_eq!(language.get("b"), Some(0));
    assert_eq!(language.get("c"), Some(1));
    let rows = vectorize(&graphs);
    assert_eq!(rows.len(), 4);
    let bc = term_indices_to_edge_index(0, 1);
    assert_eq!(bc, 1);
    assert_eq!(rows[0], vec![None, Some(&3.0), None]);
    assert_eq!(rows[0][bc], Some(&3.0));
    for row in &rows[1..] {
        assert_eq!(row, &vec![None, None, None]);
    }
}

#[test]
fn a_label_is_shared_from_the_fourth_graph_on() {
    let three = vec![graph_over(&["x"]), graph_over(&["x"]), graph_over(&["x", "y"])];
    assert_eq!(shared_vocabulary(&three).len(), 0);
    assert_eq!(vectorize(&three), vec![Vec::<Option<&f32>>::new(); 3]);
    let four = vec![
        graph_over(&["x"]),
        graph_over(&["x"]),
        graph_over(&["x", "y"]),
        graph_over(&["z", "x"]),
    ];
    let language = shared_vocabulary(&four);
    assert_eq!(language.len(), 1);
    assert_eq!(language.get(0usize), Some("x".to_string()));
}

#[test]
fn rows_follow_the_ranks_of_the_shared_labels() {
    let mut graphs = Vec::new();
    for n in 0..4 {
        let mut g = graph_over(&["k", "m", "z", if n == 0 { "a" } else { "q" }]);
        g.set("z", "k", Some(n as f32 + 0.5)).unwrap();
        g.set("m", "m", Some(10.0 * n as f32)).unwrap();
        if n == 0 {
            g.set("a", "z", Some(9.0)).unwrap();
        } else {
            g.set("q", "q", Some(1.0)).unwrap();
        }
        graphs.push(g);
    }
    graphs.push(graph_over(&[]));
    let language = shared_vocabulary(&graphs);
    let labels: Vec<String> = (0..language.len()).map(|r| language.get(r).unwrap()).collect();
    assert_eq!(labels, vec!["k", "m", "z"]);
    let rows = vectorize(&graphs);
    assert_eq!(rows.len(), 5);
    for (n, row) in rows.iter().enumerate().take(4) {
        let weight = n as f32 + 0.5;
        let own = 10.0 * n as f32;
        assert_eq!(row, &vec![None, None, Some(&own), Some(&weight), None, None]);
        assert_eq!(row, &vectorize_row(&graphs[n], &language));
    }
    assert_eq!(rows[4], vec![None; 6]);
}

#[test]
fn feature_slots() {
    assert_eq!(term_indices_to_edge_index(0, 0), 0);
    assert_eq!(term_indices_to_edge_index(1, 0), 1);
    assert_eq!(term_indices_to_edge_index(0, 1), 1);
    assert_eq!(term_indices_to_edge_index(1, 1), 2);
    assert_eq!(term_indices_to_edge_index(3, 2), 8);
    assert_eq!(term_indices_to_edge_index(2, 3), 8);
    assert_eq!(term_indices_to_edge_index(4, 0), 10);
}
