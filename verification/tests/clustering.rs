use saba::clustering::{
    assemble_clusters, assign_queues, check_queue_inputs, cluster_count, group_by_nearest,
    merge_groups, merge_levels, rebalance_empty_clusters, ClusteringError,
};
use saba::order::{first_indices_by_name, sort_names, stable_key_order};

#[test]
fn rebalance_fills_empty_clusters_from_the_largest() {
    let mut clusters = vec![vec![], vec![0, 1, 2], vec![3]];
    assert_eq!(rebalance_empty_clusters(&mut clusters), Ok(()));
    assert_eq!(clusters, vec![vec![2], vec![0, 1], vec![3]]);
}

#[test]
fn rebalance_takes_from_the_last_of_equally_large_clusters() {
    let mut clusters = vec![vec![], vec![0, 1], vec![2, 3]];
    assert_eq!(rebalance_empty_clusters(&mut clusters), Ok(()));
    assert_eq!(clusters, vec![vec![3], vec![0, 1], vec![2]]);
}

#[test]
fn rebalance_may_leave_a_later_cluster_empty() {
    let mut clusters = vec![vec![], vec![], vec![0, 1]];
    assert_eq!(rebalance_empty_clusters(&mut clusters), Ok(()));
    // cluster 0 takes 1 from [0, 1]; cluster 1 takes 0 from cluster 2, the last of the
    // largest; cluster 2, now empty, takes it back from cluster 1, the last of the largest
    assert_eq!(clusters, vec![vec![1], vec![], vec![0]]);
}

#[test]
fn rebalance_fails_without_members() {
    let mut clusters: Vec<Vec<usize>> = vec![vec![], vec![]];
    assert!(matches!(rebalance_empty_clusters(&mut clusters), Err(ClusteringError::Internal(_))));
    assert_eq!(clusters, vec![Vec::<usize>::new(), vec![]]);
    let mut none: Vec<Vec<usize>> = vec![];
    assert_eq!(rebalance_empty_clusters(&mut none), Ok(()));
}

#[test]
fn cluster_and_queue_input_checks() {
    assert_eq!(cluster_count(0, 2), Err(ClusteringError::EmptyInput));
    assert_eq!(cluster_count(3, 0), Err(ClusteringError::InvalidClusterCount));
    assert_eq!(cluster_count(3, 2), Ok(2));
    assert_eq!(cluster_count(3, 8), Ok(3));
    assert_eq!(check_queue_inputs(0, 2), Err(ClusteringError::EmptyInput));
    assert_eq!(check_queue_inputs(2, 0), Err(ClusteringError::ZeroQueueBudget));
    assert_eq!(check_queue_inputs(2, 2), Ok(()));
}

#[test]
fn names_sort_by_code_point() {
    let names = vec!["batch-2".to_string(), "Zeta".to_string(), "analytics".to_string(), "batch".to_string()];
    assert_eq!(sort_names(&names), vec!["Zeta", "analytics", "batch", "batch-2"]);
}

#[test]
fn first_indices_follow_name_order() {
    let names = vec!["c".to_string(), "a".to_string(), "b".to_string(), "a".to_string()];
    assert_eq!(first_indices_by_name(&names, 3), vec![1, 3, 2]);
    assert_eq!(first_indices_by_name(&names, 0), Vec::<usize>::new());
    assert_eq!(first_indices_by_name(&names, 9), vec![1, 3, 2, 0]);
}

#[test]
fn stable_order_by_key() {
    assert_eq!(stable_key_order(&vec![3, 1, 3, 0, 1]), vec![3, 1, 4, 0, 2]);
}

#[test]
fn assembles_clusters_by_priority() {
    let names = vec!["b".to_string(), "a".to_string(), "c".to_string()];
    let members = vec![vec![2, 0], vec![], vec![1]];
    let clusters = assemble_clusters(&members, &names, vec!["m0", "m1", "m2"], 1);
    assert_eq!(clusters.len(), 2);
    assert_eq!(clusters[0].priority_level, 1);
    assert_eq!(clusters[0].applications, vec!["b", "c"]);
    assert_eq!(clusters[0].centroid, "m0");
    assert_eq!(clusters[1].priority_level, 3);
    assert_eq!(clusters[1].applications, vec!["a"]);
    assert_eq!(clusters[1].centroid, "m2");
}

#[test]
fn merges_priority_levels_sorted() {
    assert_eq!(merge_levels(&vec![1, 4], &vec![3, 2]), vec![1, 2, 3, 4]);
    assert_eq!(merge_levels(&vec![], &vec![2, 2]), vec![2, 2]);
}

#[test]
fn queues_numbered_by_first_level() {
    let queues = assign_queues(vec![vec![3, 4], vec![1], vec![2]], vec!['x', 'y', 'z']);
    assert_eq!(queues.len(), 3);
    assert_eq!(queues[0].queue_index, 0);
    assert_eq!(queues[0].priority_levels, vec![1]);
    assert_eq!(queues[0].centroid, 'y');
    assert_eq!(queues[1].priority_levels, vec![2]);
    assert_eq!(queues[2].priority_levels, vec![3, 4]);
    assert_eq!(queues[2].queue_index, 2);
    let total: usize = queues.iter().map(|q| q.priority_levels.len()).sum();
    assert_eq!(total, 4);
}

#[test]
fn points_grouped_by_nearest_centroid() {
    let groups = group_by_nearest(&vec![1, 0, 1, 1, 0], 3);
    assert_eq!(groups, vec![vec![1, 4], vec![0, 2, 3], vec![]]);
    assert_eq!(group_by_nearest(&vec![], 2), vec![Vec::<usize>::new(), vec![]]);
}

#[test]
fn merging_groups_keeps_every_level() {
    let mut work = vec![(vec![1], 'a'), (vec![4, 5], 'b'), (vec![2], 'c'), (vec![3], 'd')];
    merge_groups(&mut work, 1, 3, 'm');
    assert_eq!(work, vec![(vec![1], 'a'), (vec![2], 'c'), (vec![3, 4, 5], 'm')]);
    merge_groups(&mut work, 0, 1, 'n');
    assert_eq!(work, vec![(vec![3, 4, 5], 'm'), (vec![1, 2], 'n')]);
    let total: usize = work.iter().map(|(levels, _)| levels.len()).sum();
    assert_eq!(total, 5);
}
