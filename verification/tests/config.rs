use rklearn::config::{
    algorithm_from_name, check_fit_shapes, check_max_iter, check_solver, metric_kind_from_str,
    EffectiveAlgorithm, InitMethod, KMeansParams, MetricKind, NeighborsParams, ParamError,
};

fn params(algorithm: &str) -> NeighborsParams {
    NeighborsParams::new(5, "uniform", algorithm, 30, "euclidean", 1)
}

#[test]
fn classifier_auto_algorithm() {
    let p = params("auto");
    assert_eq!(p.classifier_algorithm(3, 100), EffectiveAlgorithm::KdTree);
    assert_eq!(p.classifier_algorithm(16, 100), EffectiveAlgorithm::Brute);
    assert_eq!(p.classifier_algorithm(15, 30), EffectiveAlgorithm::KdTree);
    assert_eq!(p.classifier_algorithm(3, 29), EffectiveAlgorithm::Brute);
}

#[test]
fn regressor_auto_algorithm() {
    let p = params("auto");
    assert_eq!(p.regressor_algorithm(19), EffectiveAlgorithm::KdTree);
    assert_eq!(p.regressor_algorithm(20), EffectiveAlgorithm::BallTree);
}

#[test]
fn named_algorithms() {
    assert_eq!(params("kd_tree").classifier_algorithm(50, 2), EffectiveAlgorithm::KdTree);
    assert_eq!(params("ball_tree").regressor_algorithm(1), EffectiveAlgorithm::BallTree);
    assert_eq!(params("brute").regressor_algorithm(1), EffectiveAlgorithm::Brute);
    assert_eq!(algorithm_from_name("something else"), EffectiveAlgorithm::Brute);
}

#[test]
fn weights_and_jobs() {
    let p = NeighborsParams::new(3, "distance", "auto", 10, "manhattan", 4);
    assert!(p.uses_distance_weights());
    assert!(p.use_parallel());
    let q = NeighborsParams::new(3, "uniform", "auto", 10, "manhattan", 1);
    assert!(!q.uses_distance_weights());
    assert!(!q.use_parallel());
    assert_eq!(q.metric, "manhattan");
}

#[test]
fn metric_names() {
    assert_eq!(metric_kind_from_str("euclidean"), MetricKind::Euclidean);
    assert_eq!(metric_kind_from_str("manhattan"), MetricKind::Manhattan);
    assert_eq!(metric_kind_from_str("minkowski"), MetricKind::Minkowski);
    assert_eq!(metric_kind_from_str("cosine"), MetricKind::Euclidean);
}

#[test]
fn kmeans_init_and_runs() {
    let p = KMeansParams::new(8, "k-means++", None, 300, None, 1).unwrap();
    assert_eq!(p.init, InitMethod::KMeansPlusPlus);
    assert_eq!(p.n_init, 1);
    let r = KMeansParams::new(8, "random", None, 300, Some(3), 2).unwrap();
    assert_eq!(r.init, InitMethod::Random);
    assert_eq!(r.n_init, 10);
    assert_eq!(r.random_state, Some(3));
    assert!(r.use_parallel());
    let e = KMeansParams::new(8, "random", Some(4), 300, None, 1).unwrap();
    assert_eq!(e.n_init, 4);
}

#[test]
fn kmeans_rejects_unknown_init() {
    assert!(matches!(KMeansParams::new(2, "kmeans", None, 10, None, 1), Err(ParamError::InvalidInit)));
}

#[test]
fn kmeans_needs_enough_samples() {
    let p = KMeansParams::new(4, "random", None, 10, None, 1).unwrap();
    assert_eq!(p.check_n_samples(4), Ok(()));
    assert_eq!(
        p.check_n_samples(3),
        Err(ParamError::TooFewSamples { n_samples: 3, n_clusters: 4 })
    );
}

#[test]
fn ridge_solver_check() {
    assert_eq!(check_solver("auto"), Ok(()));
    assert_eq!(check_solver("cholesky"), Ok(()));
    assert_eq!(check_solver("svd"), Err(ParamError::InvalidSolver));
}

#[test]
fn huber_max_iter_check() {
    assert_eq!(check_max_iter(100), Ok(()));
    assert_eq!(check_max_iter(0), Err(ParamError::ZeroMaxIter));
}

#[test]
fn linear_fit_shape_checks() {
    assert_eq!(check_fit_shapes(3, 2, 3), Ok(()));
    assert_eq!(check_fit_shapes(3, 2, 4), Err(ParamError::IncompatibleShapes));
    assert_eq!(check_fit_shapes(0, 2, 0), Err(ParamError::EmptyInput));
    assert_eq!(check_fit_shapes(3, 0, 3), Err(ParamError::EmptyInput));
    // a length mismatch is reported before emptiness
    assert_eq!(check_fit_shapes(0, 0, 1), Err(ParamError::IncompatibleShapes));
}
