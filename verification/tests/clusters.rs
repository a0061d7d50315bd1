use grad::clusters::cluster_members;
use grad::embeddings::Embeddings;

#[test]
fn every_token_alone_without_pairs() {
    let groups = cluster_members(3, &[]);
    assert_eq!(groups, vec![vec![0], vec![1], vec![2]]);
}

#[test]
fn chained_pairs_join_one_cluster() {
    // 0-3 and 3-4 join 0, 3 and 4; 1 and 2 stay alone.
    let groups = cluster_members(5, &[(0, 3), (3, 4)]);
    assert_eq!(groups, vec![vec![0, 3, 4], vec![1], vec![2]]);
}

#[test]
fn clusters_are_ordered_by_their_smallest_token() {
    let groups = cluster_members(6, &[(4, 5), (1, 2), (2, 5), (0, 3)]);
    assert_eq!(groups, vec![vec![0, 3], vec![1, 2, 4, 5]]);
}

#[test]
fn repeated_and_reflexive_pairs_change_nothing_more() {
    let groups = cluster_members(4, &[(1, 1), (2, 3), (3, 2), (2, 3)]);
    assert_eq!(groups, vec![vec![0], vec![1], vec![2, 3]]);
}

#[test]
fn the_order_of_the_pairs_does_not_matter() {
    let a = cluster_members(7, &[(0, 6), (6, 2), (3, 4), (4, 5)]);
    let b = cluster_members(7, &[(4, 5), (2, 6), (5, 3), (6, 0)]);
    assert_eq!(a, b);
    assert_eq!(a, vec![vec![0, 2, 6], vec![1], vec![3, 4, 5]]);
}

#[test]
fn larger_trees_merge_through_their_roots() {
    // Two stars joined by their leaves: every token ends in one cluster.
    let mut links = Vec::new();
    for i in 1..5 {
        links.push((0, i));
    }
    for i in 6..10 {
        links.push((5, i));
    }
    links.push((9, 4));
    let groups = cluster_members(10, &links);
    assert_eq!(groups, vec![(0..10).collect::<Vec<usize>>()]);
}

#[test]
fn embedding_clusters_keep_only_shared_ones() {
    let e = Embeddings::new(0, 5, 2);
    assert_eq!(e.find_clusters(&[(0, 3), (3, 4)]), vec![vec![0, 3, 4]]);
    assert_eq!(e.find_clusters(&[]), Vec::<Vec<usize>>::new());
    assert_eq!(e.find_clusters(&[(1, 2), (0, 4)]), vec![vec![0, 4], vec![1, 2]]);
}
