use rklearn::arrays::{Labels, NeighborIndices};
use rklearn::voting::{
    class_vote_counts, count_correct, majority_vote, predict_uniform, try_class_vote_counts, try_predict_uniform,
    unique_classes,
};

fn grid(rows: usize, cols: usize, v: Vec<usize>) -> NeighborIndices {
    NeighborIndices::from_shape_vec(rows, cols, v).unwrap()
}

fn labels(v: Vec<i64>) -> Labels {
    Labels::from_vec(v)
}

#[test]
fn majority_vote_picks_most_frequent() {
    assert_eq!(majority_vote(&vec![3, 1, 3, 2, 3, 1]), 3);
}

#[test]
fn majority_vote_ties_go_to_lowest_label() {
    assert_eq!(majority_vote(&vec![5, 2, 5, 2, 9]), 2);
    assert_eq!(majority_vote(&vec![-1, 4]), -1);
    assert_eq!(majority_vote(&vec![7]), 7);
}

#[test]
fn predict_uniform_votes_per_row() {
    let y = labels(vec![0, 1, 1, 2, 0]);
    let idx = grid(3, 3, vec![0, 1, 2, 3, 4, 0, 3, 1, 4]);
    // row 0: labels 0,1,1 -> 1; row 1: 2,0,0 -> 0; row 2: 2,1,0 -> tie -> 0
    assert_eq!(predict_uniform(&idx, &y), vec![1, 0, 0]);
}

#[test]
fn predict_uniform_no_rows() {
    let y = labels(vec![4]);
    let idx = grid(0, 2, vec![]);
    assert_eq!(predict_uniform(&idx, &y), Vec::<i64>::new());
}

#[test]
fn unique_classes_sorts_and_dedups() {
    assert_eq!(unique_classes(&labels(vec![3, -1, 3, 7, -1, 0])), vec![-1, 0, 3, 7]);
    assert_eq!(unique_classes(&labels(vec![])), Vec::<i64>::new());
}

#[test]
fn class_vote_counts_sum_to_neighbors() {
    let y = labels(vec![10, 20, 20, 30]);
    let classes = unique_classes(&y);
    let idx = grid(2, 3, vec![0, 1, 2, 3, 3, 0]);
    let votes = class_vote_counts(&idx, &y, &classes);
    assert_eq!(votes, vec![vec![1, 2, 0], vec![1, 0, 2]]);
    for row in votes.iter() {
        assert_eq!(row.iter().sum::<usize>(), 3);
    }
}

#[test]
fn class_vote_counts_repeated_class_uses_last_slot() {
    let y = labels(vec![1, 2]);
    let classes = vec![1, 2, 1];
    let idx = grid(1, 2, vec![0, 1]);
    assert_eq!(class_vote_counts(&idx, &y, &classes), vec![vec![0, 1, 1]]);
}

#[test]
fn count_correct_counts_agreements() {
    assert_eq!(count_correct(&labels(vec![1, 2, 3, 4]), &labels(vec![1, 0, 3, 0])), 2);
    // only the positions both arrays have are compared
    assert_eq!(count_correct(&labels(vec![1, 2]), &labels(vec![1, 2, 3])), 2);
    assert_eq!(count_correct(&labels(vec![]), &labels(vec![5])), 0);
}

#[test]
fn fitted_classes_cover_every_prediction_and_vote() {
    let y = labels(vec![8, -3, 8, 5, -3, 8]);
    let classes = unique_classes(&y);
    let idx = grid(3, 2, vec![0, 1, 4, 3, 5, 2]);
    for p in predict_uniform(&idx, &y) {
        assert!(classes.contains(&p));
    }
    let votes = class_vote_counts(&idx, &y, &classes);
    assert_eq!(votes, vec![vec![1, 0, 1], vec![1, 1, 0], vec![0, 0, 2]]);
}

#[test]
fn neighbor_grid_needs_rows_times_columns_entries() {
    assert!(NeighborIndices::from_shape_vec(2, 2, vec![0, 1, 2]).is_none());
    assert!(NeighborIndices::from_shape_vec(2, 0, vec![]).is_some());
    assert!(NeighborIndices::from_shape_vec(usize::MAX, 2, vec![]).is_none());
    // ndarray refuses shapes whose non-zero axes exceed isize::MAX, even when empty
    assert!(NeighborIndices::from_shape_vec(0, usize::MAX, vec![]).is_none());
    assert!(NeighborIndices::from_shape_vec(0, 5, vec![]).is_some());
}

#[test]
fn try_predict_uniform_checks_its_inputs() {
    let y = labels(vec![0, 1, 1, 2, 0]);
    let idx = grid(2, 3, vec![0, 1, 2, 3, 4, 0]);
    assert_eq!(try_predict_uniform(&idx, &y), Some(vec![1, 0]));
    // an index that is not a training sample
    assert_eq!(try_predict_uniform(&grid(1, 2, vec![0, 5]), &y), None);
    // a query without neighbors
    assert_eq!(try_predict_uniform(&grid(2, 0, vec![]), &y), None);
    // no queries at all
    assert_eq!(try_predict_uniform(&grid(0, 0, vec![]), &y), Some(vec![]));
}

#[test]
fn try_class_vote_counts_checks_its_inputs() {
    let y = labels(vec![0, 1, 1, 2, 0]);
    let classes = vec![0, 1, 2];
    let idx = grid(2, 3, vec![0, 1, 2, 3, 4, 0]);
    assert_eq!(try_class_vote_counts(&idx, &y, &classes), Some(vec![vec![1, 2, 0], vec![2, 0, 1]]));
    assert_eq!(try_class_vote_counts(&grid(1, 1, vec![9]), &y, &classes), None);
    // label 2 has no class slot
    assert_eq!(try_class_vote_counts(&grid(1, 1, vec![3]), &y, &vec![0, 1]), None);
    // queries without neighbors have no votes
    assert_eq!(try_class_vote_counts(&grid(2, 0, vec![]), &y, &classes), Some(vec![vec![0, 0, 0], vec![0, 0, 0]]));
}

#[test]
fn uniform_prediction_is_the_first_class_with_most_votes() {
    let y = labels(vec![3, 1, 3, 1, 2]);
    let classes = unique_classes(&y);
    let idx = grid(2, 4, vec![0, 1, 2, 3, 4, 4, 0, 1]);
    let pred = predict_uniform(&idx, &y);
    let votes = class_vote_counts(&idx, &y, &classes);
    for (row, p) in votes.iter().zip(pred.iter()) {
        let top = *row.iter().max().unwrap();
        let first = row.iter().position(|&v| v == top).unwrap();
        assert_eq!(classes[first], *p);
    }
    assert_eq!(pred, vec![1, 2]);
}
