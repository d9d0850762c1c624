use spatio::cluster::cluster_indices;

#[test]
fn dense_point_seeds_a_cluster_with_its_neighbours() {
    let neighbors = vec![vec![1, 2], vec![0], vec![0], vec![]];
    assert_eq!(cluster_indices(&neighbors, 2), vec![vec![0, 1, 2]]);
}

#[test]
fn clusters_grow_through_dense_members() {
    let neighbors = vec![vec![1], vec![0, 2], vec![1, 3], vec![2]];
    assert_eq!(cluster_indices(&neighbors, 2), vec![vec![1, 0, 2, 3]]);
}

#[test]
fn with_no_minimum_every_free_point_is_a_cluster() {
    let neighbors: Vec<Vec<usize>> = vec![vec![], vec![]];
    assert_eq!(cluster_indices(&neighbors, 0), vec![vec![0], vec![1]]);
    assert!(cluster_indices(&Vec::new(), 1).is_empty());
}

#[test]
fn sparse_points_form_no_cluster() {
    let neighbors = vec![vec![1], vec![0], vec![]];
    assert!(cluster_indices(&neighbors, 2).is_empty());
}
