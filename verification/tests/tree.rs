use rklearn::tree::{build_tree, SplitRule, TreeNode};

fn leaves(nodes: &[TreeNode]) -> Vec<Vec<usize>> {
    nodes.iter().filter(|n| n.left.is_none()).map(|n| n.indices.clone()).collect()
}

fn all_leaf_indices(nodes: &[TreeNode]) -> Vec<usize> {
    let mut v: Vec<usize> = leaves(nodes).into_iter().flatten().collect();
    v.sort();
    v
}

/// The samples in the leaves below node `t`, left to right.
fn samples_below(nodes: &[TreeNode], t: usize) -> Vec<usize> {
    match (nodes[t].left, nodes[t].right) {
        (Some(l), Some(r)) => {
            let mut v = samples_below(nodes, l);
            v.extend(samples_below(nodes, r));
            v
        }
        _ => nodes[t].indices.clone(),
    }
}

/// Keys of a one-feature data set.
fn column(values: &[u64]) -> Vec<Vec<u64>> {
    values.iter().map(|&v| vec![v]).collect()
}

#[test]
fn kd_tree_leaves_partition_samples() {
    let keys = column(&[5, 3, 9, 1, 7, 2, 8, 6, 4, 0]);
    let nodes = build_tree(&keys, 1, 2, SplitRule::Median, |_ix: &Vec<usize>| 0);
    assert_eq!(all_leaf_indices(&nodes), (0..10).collect::<Vec<_>>());
    for leaf in leaves(&nodes) {
        assert!(leaf.len() <= 2);
    }
    // root splits at the median key 5 (sorted keys 0..9, position 5)
    assert_eq!(nodes[0].split_key, Some(5));
    assert_eq!(nodes[0].left, Some(1));
}

#[test]
fn kd_tree_median_split_separates_keys() {
    let keys = column(&[5, 3, 9, 1, 7, 2]);
    let nodes = build_tree(&keys, 1, 3, SplitRule::Median, |_ix: &Vec<usize>| 0);
    // median of sorted [1,2,3,5,7,9] at position 3 is 5: keys below 5 go left
    assert_eq!(nodes.len(), 3);
    assert_eq!(nodes[1].indices, vec![1, 3, 5]);
    assert_eq!(nodes[2].indices, vec![0, 2, 4]);
}

#[test]
fn kd_tree_equal_keys_fall_back_to_halves() {
    let keys = column(&[4, 4, 4, 4]);
    let nodes = build_tree(&keys, 1, 2, SplitRule::Median, |_ix: &Vec<usize>| 0);
    assert_eq!(nodes.len(), 3);
    assert_eq!(nodes[1].indices, vec![0, 1]);
    assert_eq!(nodes[2].indices, vec![2, 3]);
}

#[test]
fn ball_tree_sorted_halves() {
    let keys = column(&[30, 10, 20, 10, 50]);
    let nodes = build_tree(&keys, 1, 2, SplitRule::SortedHalves, |_ix: &Vec<usize>| 0);
    // sorted by key with ties in input order: 1,3,2,0,4; first half [1,3]
    assert_eq!(nodes[1].indices, vec![1, 3]);
    assert_eq!(all_leaf_indices(&nodes), vec![0, 1, 2, 3, 4]);
    assert_eq!(nodes[0].split_key, None);
}

#[test]
fn small_or_empty_data_is_one_leaf() {
    let nodes = build_tree(&column(&[1, 2]), 1, 30, SplitRule::Median, |_ix: &Vec<usize>| 0);
    assert_eq!(nodes.len(), 1);
    assert_eq!(nodes[0].indices, vec![0, 1]);
    let nodes = build_tree(&Vec::new(), 0, 0, SplitRule::SortedHalves, |_ix: &Vec<usize>| 0);
    assert_eq!(nodes.len(), 1);
    assert!(nodes[0].indices.is_empty());
}

#[test]
fn split_dimension_comes_from_the_chooser() {
    // feature 1 orders the samples in reverse
    let keys = vec![vec![0, 3], vec![1, 2], vec![2, 1], vec![3, 0]];
    let nodes = build_tree(&keys, 2, 2, SplitRule::SortedHalves, |_ix: &Vec<usize>| 1);
    assert_eq!(nodes[0].split_dim, Some(1));
    assert_eq!(nodes[1].indices, vec![3, 2]);
    assert_eq!(nodes[2].indices, vec![1, 0]);
}

#[test]
fn kd_tree_median_with_repeated_keys() {
    let keys = column(&[3, 1, 2, 2, 2, 5]);
    let nodes = build_tree(&keys, 1, 3, SplitRule::Median, |_ix: &Vec<usize>| 0);
    // sorted keys [1,2,2,2,3,5]: the median (position 3) is 2; only key 1 lies below it
    assert_eq!(nodes[0].split_key, Some(2));
    assert_eq!(nodes[1].indices, vec![1]);
    // the right side [3,2,2,2,5] has median 2 and nothing below it: the samples at
    // the median key go left, the larger ones right
    assert!(nodes[2].indices.is_empty());
    assert_eq!(nodes[2].split_key, Some(2));
    assert_eq!(nodes[2].left, Some(3));
    assert_eq!(nodes[2].right, Some(4));
    assert_eq!(nodes[3].indices, vec![2, 3, 4]);
    assert_eq!(nodes[4].indices, vec![0, 5]);
}

#[test]
fn kd_tree_keeps_larger_keys_right_of_the_median() {
    let keys = column(&[2, 1, 1, 1]);
    let nodes = build_tree(&keys, 1, 1, SplitRule::Median, |_ix: &Vec<usize>| 0);
    assert!(nodes[0].indices.is_empty());
    assert_eq!(nodes[0].split_key, Some(1));
    // sample 0 (key 2) is the only one above the median key 1
    let mut left = samples_below(&nodes, 1);
    left.sort();
    assert_eq!(left, vec![1, 2, 3]);
    let right = nodes[0].right.unwrap();
    assert_eq!(nodes[right].indices, vec![0]);
    // every internal node keeps its left keys at most, and its right keys at least, its split key
    for node in &nodes {
        if let (Some(l), Some(r), Some(k)) = (node.left, node.right, node.split_key) {
            assert!(samples_below(&nodes, l).iter().all(|&x| keys[x][0] <= k));
            assert!(samples_below(&nodes, r).iter().all(|&x| keys[x][0] >= k));
        }
    }
}

#[test]
fn nodes_above_the_leaf_size_are_split_and_the_others_are_leaves() {
    let keys = column(&[9, 8, 7, 6, 5, 4, 3, 2, 1, 0, 10]);
    for leaf_size in 1..12 {
        let nodes = build_tree(&keys, 1, leaf_size, SplitRule::Median, |_ix: &Vec<usize>| 0);
        for t in 0..nodes.len() {
            let held = samples_below(&nodes, t).len();
            if nodes[t].left.is_some() {
                assert!(held > leaf_size);
            } else {
                assert!(held <= leaf_size);
            }
        }
    }
}
