use vstd::prelude::*;
use crate::arrays::{label_seq, labels_get, labels_len, Labels};
use crate::voting::{count_label, lemma_count_push, lemma_total_bump, lemma_total_zeros, total};

verus! {

/// Every label names one of the clusters `0..n_clusters`.
pub open spec fn labels_in_range(labels: Seq<i64>, n_clusters: nat) -> bool {
    forall|i: int| 0 <= i < labels.len() ==> 0 <= #[trigger] labels[i] < n_clusters
}

/// The number of samples assigned to each cluster: entry `k` counts the labels equal
/// to `k`. When every label names a cluster, the sizes add up to the number of samples.
pub fn cluster_sizes(labels: &Labels, n_clusters: usize) -> (sizes: Vec<usize>)
    requires
        n_clusters <= i64::MAX,
    ensures
        sizes.len() == n_clusters,
        forall|k: int| 0 <= k < n_clusters ==> #[trigger] sizes@[k] == count_label(label_seq(*labels), k as i64),
        labels_in_range(label_seq(*labels), n_clusters as nat) ==> total(sizes@) == label_seq(*labels).len(),
{
    let n = labels_len(labels);
    let ghost ls = label_seq(*labels);
    let mut sizes: Vec<usize> = Vec::new();
    let mut c: usize = 0;
    while c < n_clusters
        invariant
            c <= n_clusters,
            sizes@ == Seq::new(c as nat, |i: int| 0usize),
        decreases n_clusters - c,
    {
        sizes.push(0);
        c = c + 1;
        assert(sizes@ =~= Seq::new(c as nat, |i: int| 0usize));
    }
    proof {
        lemma_total_zeros(n_clusters as nat);
    }
    let mut j: usize = 0;
    while j < n
        invariant
            j <= n,
            n == ls.len(),
            ls == label_seq(*labels),
            n_clusters <= i64::MAX,
            sizes.len() == n_clusters,
            forall|k: int| 0 <= k < n_clusters ==> #[trigger] sizes@[k] == count_label(ls.take(j as int), k as i64),
            forall|k: int| 0 <= k < n_clusters ==> #[trigger] sizes@[k] <= j,
            labels_in_range(ls, n_clusters as nat) ==> total(sizes@) == j,
        decreases n - j,
    {
        let l = labels_get(labels, j);
        proof {
            let pre = ls.take(j as int);
            let post = ls.take(j + 1);
            assert(post =~= pre.push(l));
            assert forall|k: int| 0 <= k < n_clusters implies #[trigger] count_label(post, k as i64) == count_label(
                pre,
                k as i64,
            ) + if l == k as i64 {
                1nat
            } else {
                0nat
            } by {
                lemma_count_push(pre, l, k as i64);
            }
        }
        if 0 <= l && l < n_clusters as i64 {
            let k = l as usize;
            proof {
                if labels_in_range(ls, n_clusters as nat) {
                    lemma_total_bump(sizes@, k as int);
                }
            }
            let v = sizes[k];
            sizes.set(k, v + 1);
        } else {
            proof {
                assert(!labels_in_range(ls, n_clusters as nat)) by {
                    assert(ls[j as int] == l);
                }
            }
        }
        j = j + 1;
    }
    assert(ls.take(n as int) =~= ls);
    sizes
}

} // verus!
