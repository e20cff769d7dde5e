use rklearn::selection::{find_k_nearest, nearest_centroid, NeighborHeap};

/// Order key of a non-negative distance: its bit pattern, which orders as the value does.
fn key(d: f64) -> u64 {
    d.to_bits()
}

fn keys(ds: &[f64]) -> Vec<u64> {
    ds.iter().map(|&d| key(d)).collect()
}

fn values(ks: &[u64]) -> Vec<f64> {
    ks.iter().map(|&k| f64::from_bits(k)).collect()
}

#[test]
fn test_find_k_nearest() {
    let distances = vec![5.0, 1.0, 3.0, 2.0, 4.0];
    let (indices, dist_keys) = find_k_nearest(&keys(&distances), 3);
    let dists = values(&dist_keys);

    assert_eq!(indices, vec![1, 3, 2]); // Indices of 1.0, 2.0, 3.0
    assert_eq!(dists, vec![1.0, 2.0, 3.0]);
}

#[test]
fn test_find_k_nearest_k_larger_than_len() {
    let distances = vec![3.0, 1.0, 2.0];
    let (indices, dist_keys) = find_k_nearest(&keys(&distances), 10);
    let dists = values(&dist_keys);

    assert_eq!(indices.len(), 3);
    assert_eq!(indices, vec![1, 2, 0]);
    assert_eq!(dists, vec![1.0, 2.0, 3.0]);
}

#[test]
fn find_k_nearest_ties_go_to_lower_index() {
    let distances = vec![2.0, 1.0, 2.0, 1.0, 0.5];
    let (indices, dist_keys) = find_k_nearest(&keys(&distances), 4);
    assert_eq!(indices, vec![4, 1, 3, 0]);
    assert_eq!(values(&dist_keys), vec![0.5, 1.0, 1.0, 2.0]);
}

#[test]
fn find_k_nearest_k_zero_and_empty() {
    let (i, d) = find_k_nearest(&keys(&[1.0, 2.0]), 0);
    assert!(i.is_empty() && d.is_empty());
    let (i, d) = find_k_nearest(&Vec::new(), 3);
    assert!(i.is_empty() && d.is_empty());
}

#[test]
fn heap_keeps_the_k_nearest_offered() {
    let mut heap = NeighborHeap::new(3);
    assert_eq!(heap.worst_key(), None);
    let offered = [(7usize, 9.0), (3, 1.0), (5, 4.0), (2, 8.0), (9, 0.5), (4, 4.0)];
    for &(i, d) in offered.iter() {
        heap.offer(i, key(d));
    }
    assert_eq!(heap.len(), 3);
    assert_eq!(heap.worst_key(), Some(key(4.0)));
    let (idx, ks) = heap.into_sorted();
    // an equal key (4.0 for index 4) does not replace the kept one
    assert_eq!(idx, vec![9, 3, 5]);
    assert_eq!(values(&ks), vec![0.5, 1.0, 4.0]);
}

#[test]
fn heap_below_capacity_keeps_everything() {
    let mut heap = NeighborHeap::new(5);
    heap.offer(1, key(3.0));
    heap.offer(0, key(2.0));
    assert_eq!(heap.len(), 2);
    let (idx, _) = heap.into_sorted();
    assert_eq!(idx, vec![0, 1]);
}

#[test]
fn heap_of_capacity_zero_keeps_nothing() {
    let mut heap = NeighborHeap::new(0);
    heap.offer(1, key(3.0));
    assert_eq!(heap.len(), 0);
    assert_eq!(heap.worst_key(), None);
}

#[test]
fn nearest_centroid_takes_first_minimum() {
    let bound = f64::MAX.to_bits();
    assert_eq!(nearest_centroid(&keys(&[4.0, 1.0, 3.0, 1.0]), bound), (1, key(1.0)));
    assert_eq!(nearest_centroid(&keys(&[0.0]), bound), (0, key(0.0)));
}

#[test]
fn nearest_centroid_without_candidates_is_zero() {
    let bound = f64::MAX.to_bits();
    assert_eq!(nearest_centroid(&Vec::new(), bound), (0, bound));
    // infinite distances never beat the bound
    assert_eq!(nearest_centroid(&keys(&[f64::INFINITY, f64::INFINITY]), bound), (0, bound));
}

#[test]
fn find_k_nearest_matches_a_stable_sort_on_many_keys() {
    let mut state: u64 = 12345;
    let keys: Vec<u64> = (0..2000)
        .map(|_| {
            state = state.wrapping_mul(6364136223846793005).wrapping_add(1442695040888963407);
            (state >> 33) % 97
        })
        .collect();
    let mut expected: Vec<usize> = (0..keys.len()).collect();
    expected.sort_by_key(|&i| (keys[i], i));
    let (idx, vals) = rklearn::selection::find_k_nearest(&keys, 2000);
    assert_eq!(idx, expected);
    assert!(vals.windows(2).all(|w| w[0] <= w[1]));
    let (idx10, _) = rklearn::selection::find_k_nearest(&keys, 10);
    assert_eq!(idx10, expected[..10].to_vec());
}
