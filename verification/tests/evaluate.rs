use fact_graph::evaluate::{
    cluster_label, count_overlap, match_clusters, names_to_clusters, relabel,
};

#[test]
fn the_label_stands_in_front_of_the_first_hyphen() {
    assert_eq!(cluster_label("sports-0012"), "sports");
    assert_eq!(cluster_label("a-b-c"), "a");
    assert_eq!(cluster_label("plain"), "plain");
    assert_eq!(cluster_label("-x"), "");
    assert_eq!(cluster_label(""), "");
}

#[test]
fn true_clusters_are_ranks_of_labels() {
    let names: Vec<String> =
        ["tech-1", "arts-7", "tech-2", "news", "arts-1"].iter().map(|n| n.to_string()).collect();
    assert_eq!(names_to_clusters(&names), vec![2, 0, 2, 1, 0]);
    assert_eq!(names_to_clusters(&[]), Vec::<usize>::new());
}

#[test]
fn overlaps_are_counted() {
    let pred = [0, 0, 1, 1, 1, 2];
    let truth = [1, 1, 0, 0, 2, 2];
    assert_eq!(count_overlap(&pred, &truth, 0, 1), 2);
    assert_eq!(count_overlap(&pred, &truth, 1, 0), 2);
    assert_eq!(count_overlap(&pred, &truth, 1, 2), 1);
    assert_eq!(count_overlap(&pred, &truth, 2, 2), 1);
    assert_eq!(count_overlap(&pred, &truth, 0, 0), 0);
}

#[test]
fn clusters_are_matched_by_what_they_share() {
    let pred = [0, 0, 0, 1, 1, 2, 2, 2, 2];
    let truth = [1, 1, 0, 0, 0, 2, 2, 2, 1];
    let pairs = match_clusters(&pred, &truth, 3);
    assert_eq!(pairs, vec![(2, 2), (1, 0), (0, 1)]);
    assert_eq!(relabel(&pred, &pairs), vec![1, 1, 1, 0, 0, 2, 2, 2, 2]);
    assert_eq!(match_clusters(&[], &[], 0), vec![]);
}

#[test]
fn every_cluster_is_paired_once() {
    let pred = [3, 3, 1, 0, 0, 0];
    let truth = [0, 0, 0, 2, 2, 2];
    let pairs = match_clusters(&pred, &truth, 4);
    assert_eq!(pairs.len(), 4);
    assert_eq!(pairs[0], (0, 2));
    assert_eq!(pairs[1], (3, 0));
    let mut found: Vec<usize> = pairs.iter().map(|p| p.0).collect();
    let mut truths: Vec<usize> = pairs.iter().map(|p| p.1).collect();
    found.sort();
    truths.sort();
    assert_eq!(found, vec![0, 1, 2, 3]);
    assert_eq!(truths, vec![0, 1, 2, 3]);
}
