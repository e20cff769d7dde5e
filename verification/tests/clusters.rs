use rklearn::arrays::Labels;
use rklearn::clusters::cluster_sizes;

#[test]
fn cluster_sizes_count_labels() {
    let labels = Labels::from_vec(vec![0, 2, 2, 1, 2, 0]);
    let sizes = cluster_sizes(&labels, 3);
    assert_eq!(sizes, vec![2, 1, 3]);
    assert_eq!(sizes.iter().sum::<usize>(), 6);
}

#[test]
fn cluster_sizes_skip_labels_outside_the_clusters() {
    let odd = Labels::from_vec(vec![-1, 0, 5]);
    assert_eq!(cluster_sizes(&odd, 2), vec![1, 0]);
}

#[test]
fn cluster_sizes_of_no_samples_are_zero() {
    let empty = Labels::from_vec(vec![]);
    assert_eq!(cluster_sizes(&empty, 4), vec![0, 0, 0, 0]);
}
