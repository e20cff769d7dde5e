use vstd::prelude::*;

verus! {

/// Whether two strings hold the same characters.
fn same_text(a: &str, b: &str) -> (r: bool)
    ensures
        r == (a@ == b@),
{
    let x: String = a.to_owned();
    let y: String = b.to_owned();
    x == y
}

/// The neighbor search structure a fitted estimator uses.
#[derive(PartialEq, Eq, Structural, Clone, Copy, Debug)]
pub enum EffectiveAlgorithm {
    KdTree,
    BallTree,
    Brute,
}

/// The search structure an explicitly named algorithm selects: `"kd_tree"` and
/// `"ball_tree"` name the trees, every other name means brute force.
pub open spec fn named_algorithm(name: Seq<char>) -> EffectiveAlgorithm {
    if name == "kd_tree"@ {
        EffectiveAlgorithm::KdTree
    } else if name == "ball_tree"@ {
        EffectiveAlgorithm::BallTree
    } else {
        EffectiveAlgorithm::Brute
    }
}

/// The distance metric a metric name selects; unknown names mean Euclidean.
#[derive(PartialEq, Eq, Structural, Clone, Copy, Debug)]
pub enum MetricKind {
    Euclidean,
    Manhattan,
    Minkowski,
}

pub open spec fn metric_kind_of(name: Seq<char>) -> MetricKind {
    if name == "manhattan"@ {
        MetricKind::Manhattan
    } else if name == "minkowski"@ {
        MetricKind::Minkowski
    } else {
        MetricKind::Euclidean
    }
}

/// Maps a metric name to its kind: `"manhattan"`, `"minkowski"`, and Euclidean for
/// `"euclidean"` and every other name.
pub fn metric_kind_from_str(metric: &str) -> (m: MetricKind)
    ensures
        m == metric_kind_of(metric@),
{
    if same_text(metric, "manhattan") {
        MetricKind::Manhattan
    } else if same_text(metric, "minkowski") {
        MetricKind::Minkowski
    } else {
        MetricKind::Euclidean
    }
}

/// Rejected parameters or inputs.
#[derive(PartialEq, Eq, Structural, Clone, Copy, Debug)]
pub enum ParamError {
    /// `init` is neither `"k-means++"` nor `"random"`.
    InvalidInit,
    /// `solver` is neither `"auto"` nor `"cholesky"`.
    InvalidSolver,
    /// `max_iter` is zero.
    ZeroMaxIter,
    /// Fewer samples than clusters.
    TooFewSamples { n_samples: usize, n_clusters: usize },
    /// `X` and `y` disagree on the number of samples.
    IncompatibleShapes,
    /// `X` has no samples or no features.
    EmptyInput,
}

/// Settings shared by the nearest-neighbor estimators (all but the Minkowski power).
pub struct NeighborsParams {
    pub n_neighbors: usize,
    pub weights: String,
    pub algorithm: String,
    pub leaf_size: usize,
    pub metric: String,
    pub n_jobs: i32,
}

impl NeighborsParams {
    /// Keeps the settings as given.
    pub fn new(n_neighbors: usize, weights: &str, algorithm: &str, leaf_size: usize, metric: &str, n_jobs: i32) -> (r: Self)
        ensures
            r.n_neighbors == n_neighbors,
            r.weights@ == weights@,
            r.algorithm@ == algorithm@,
            r.leaf_size == leaf_size,
            r.metric@ == metric@,
            r.n_jobs == n_jobs,
    {
        NeighborsParams {
            n_neighbors,
            weights: weights.to_owned(),
            algorithm: algorithm.to_owned(),
            leaf_size,
            metric: metric.to_owned(),
            n_jobs,
        }
    }

    /// Neighbors are weighted by inverse distance exactly when `weights` is `"distance"`.
    pub fn uses_distance_weights(&self) -> (r: bool)
        ensures
            r == (self.weights@ == "distance"@),
    {
        same_text(self.weights.as_str(), "distance")
    }

    /// Work is spread over threads unless `n_jobs` is 1.
    pub fn use_parallel(&self) -> (r: bool)
        ensures
            r == (self.n_jobs != 1),
    {
        self.n_jobs != 1
    }

    /// The classifier's search structure: for `"auto"`, brute force when there are
    /// more than 15 features or fewer than 30 samples, else a KD-tree.
    pub fn classifier_algorithm(&self, n_features: usize, n_samples: usize) -> (r: EffectiveAlgorithm)
        ensures
            self.algorithm@ == "auto"@ ==> r == if n_features > 15 || n_samples < 30 {
                EffectiveAlgorithm::Brute
            } else {
                EffectiveAlgorithm::KdTree
            },
            self.algorithm@ != "auto"@ ==> r == named_algorithm(self.algorithm@),
    {
        if same_text(self.algorithm.as_str(), "auto") {
            if n_features > 15 || n_samples < 30 {
                EffectiveAlgorithm::Brute
            } else {
                EffectiveAlgorithm::KdTree
            }
        } else {
            algorithm_from_name(self.algorithm.as_str())
        }
    }

    /// The regressor's search structure: for `"auto"`, a KD-tree below 20 features,
    /// else a ball tree.
    pub fn regressor_algorithm(&self, n_features: usize) -> (r: EffectiveAlgorithm)
        ensures
            self.algorithm@ == "auto"@ ==> r == if n_features < 20 {
                EffectiveAlgorithm::KdTree
            } else {
                EffectiveAlgorithm::BallTree
            },
            self.algorithm@ != "auto"@ ==> r == named_algorithm(self.algorithm@),
    {
        if same_text(self.algorithm.as_str(), "auto") {
            if n_features < 20 {
                EffectiveAlgorithm::KdTree
            } else {
                EffectiveAlgorithm::BallTree
            }
        } else {
            algorithm_from_name(self.algorithm.as_str())
        }
    }
}

/// The search structure an explicitly named algorithm selects.
pub fn algorithm_from_name(name: &str) -> (r: EffectiveAlgorithm)
    ensures
        r == named_algorithm(name@),
{
    if same_text(name, "kd_tree") {
        EffectiveAlgorithm::KdTree
    } else if same_text(name, "ball_tree") {
        EffectiveAlgorithm::BallTree
    } else {
        EffectiveAlgorithm::Brute
    }
}

/// How k-means picks its first centroids.
#[derive(PartialEq, Eq, Structural, Clone, Copy, Debug)]
pub enum InitMethod {
    KMeansPlusPlus,
    Random,
}

/// The k-means settings (all but the tolerance).
pub struct KMeansParams {
    pub n_clusters: usize,
    pub init: InitMethod,
    pub n_init: usize,
    pub max_iter: usize,
    pub random_state: Option<u64>,
    pub n_jobs: i32,
}

impl KMeansParams {
    /// Checks `init` and resolves the number of runs: `init` must be `"k-means++"` or
    /// `"random"`; without `n_init`, k-means++ runs once and random initialization
    /// ten times.
    pub fn new(
        n_clusters: usize,
        init: &str,
        n_init: Option<usize>,
        max_iter: usize,
        random_state: Option<u64>,
        n_jobs: i32,
    ) -> (r: Result<Self, ParamError>)
        ensures
            (init@ == "k-means++"@ || init@ == "random"@) <==> r is Ok,
            (init@ != "k-means++"@ && init@ != "random"@) <==> r == Err::<Self, ParamError>(
                ParamError::InvalidInit,
            ),
            r is Ok ==> {
                let p = r->Ok_0;
                &&& p.n_clusters == n_clusters
                &&& p.init == if init@ == "k-means++"@ {
                    InitMethod::KMeansPlusPlus
                } else {
                    InitMethod::Random
                }
                &&& p.n_init == match n_init {
                    Some(n) => n,
                    None => if init@ == "k-means++"@ {
                        1usize
                    } else {
                        10usize
                    },
                }
                &&& p.max_iter == max_iter
                &&& p.random_state == random_state
                &&& p.n_jobs == n_jobs
            },
    {
        let plus = same_text(init, "k-means++");
        let random = same_text(init, "random");
        if !plus && !random {
            return Err(ParamError::InvalidInit);
        }
        let method = if plus {
            InitMethod::KMeansPlusPlus
        } else {
            InitMethod::Random
        };
        let runs = match n_init {
            Some(n) => n,
            None => if plus {
                1
            } else {
                10
            },
        };
        Ok(KMeansParams { n_clusters, init: method, n_init: runs, max_iter, random_state, n_jobs })
    }

    /// Work is spread over threads unless `n_jobs` is 1.
    pub fn use_parallel(&self) -> (r: bool)
        ensures
            r == (self.n_jobs != 1),
    {
        self.n_jobs != 1
    }

    /// A fit needs at least as many samples as clusters.
    pub fn check_n_samples(&self, n_samples: usize) -> (r: Result<(), ParamError>)
        ensures
            n_samples >= self.n_clusters <==> r is Ok,
            n_samples < self.n_clusters ==> r == Err::<(), ParamError>(
                ParamError::TooFewSamples { n_samples, n_clusters: self.n_clusters },
            ),
    {
        if n_samples < self.n_clusters {
            Err(ParamError::TooFewSamples { n_samples, n_clusters: self.n_clusters })
        } else {
            Ok(())
        }
    }
}

/// The ridge solver must be `"auto"` or `"cholesky"`.
pub fn check_solver(solver: &str) -> (r: Result<(), ParamError>)
    ensures
        (solver@ == "auto"@ || solver@ == "cholesky"@) <==> r is Ok,
        r is Err ==> r == Err::<(), ParamError>(ParamError::InvalidSolver),
{
    if same_text(solver, "auto") || same_text(solver, "cholesky") {
        Ok(())
    } else {
        Err(ParamError::InvalidSolver)
    }
}

/// The iteration limit of the Huber fit must be positive.
pub fn check_max_iter(max_iter: usize) -> (r: Result<(), ParamError>)
    ensures
        max_iter > 0 <==> r is Ok,
        r is Err ==> r == Err::<(), ParamError>(ParamError::ZeroMaxIter),
{
    if max_iter == 0 {
        Err(ParamError::ZeroMaxIter)
    } else {
        Ok(())
    }
}

/// The shape checks of a linear fit: `y` has one entry per sample, and `X` has at
/// least one sample and one feature (checked in that order).
pub fn check_fit_shapes(n_samples: usize, n_features: usize, y_len: usize) -> (r: Result<(), ParamError>)
    ensures
        y_len != n_samples ==> r == Err::<(), ParamError>(ParamError::IncompatibleShapes),
        y_len == n_samples && (n_samples == 0 || n_features == 0) ==> r == Err::<(), ParamError>(
            ParamError::EmptyInput,
        ),
        y_len == n_samples && n_samples > 0 && n_features > 0 ==> r is Ok,
{
    if y_len != n_samples {
        Err(ParamError::IncompatibleShapes)
    } else if n_samples == 0 || n_features == 0 {
        Err(ParamError::EmptyInput)
    } else {
        Ok(())
    }
}

} // verus!
