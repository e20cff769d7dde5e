use vstd::prelude::*;
use vstd::set_lib::{lemma_int_range, lemma_len_subset, lemma_subset_equality, set_int_range};
use crate::selection::{find_k_nearest, is_k_nearest, precedes};

verus! {

/// A node of a search tree laid out in preorder: an internal node splits on a
/// feature and has two children; a leaf lists its samples in `indices` (empty for an
/// internal node). `members` names, for proofs only, the samples the node was built
/// from, in the order they reached it.
pub struct TreeNode {
    pub split_dim: Option<usize>,
    pub split_key: Option<u64>,
    pub left: Option<usize>,
    pub right: Option<usize>,
    pub indices: Vec<usize>,
    pub members: Ghost<Vec<usize>>,
}

/// How an internal node divides its samples.
#[derive(PartialEq, Eq, Structural, Clone, Copy, Debug)]
pub enum SplitRule {
    /// KD-tree: samples whose key on the split feature is below the median key go
    /// left, the rest right; when none is below, those at the median key go left
    /// and the larger ones right; when all keys are equal, the first half (in
    /// input order) goes left. Either way no left key exceeds the median key and no
    /// right key is below it.
    Median,
    /// Ball tree: samples ordered by their key on the split feature (ties in input
    /// order), the first half goes left.
    SortedHalves,
}

/// Nodes `t..end` form one subtree: node `t` is a leaf listing the at most
/// `leaf_size` samples it was built from (then `end == t + 1`), or an internal node,
/// built from more than `leaf_size` samples, whose left child is `t + 1` and whose
/// right child `m` starts right after the left subtree.
pub open spec fn subtree_ok(nodes: Seq<TreeNode>, t: int, end: int, leaf_size: nat) -> bool
    decreases end - t,
{
    if !(0 <= t < end <= nodes.len()) {
        false
    } else if nodes[t].left is None {
        &&& nodes[t].right is None
        &&& nodes[t].split_dim is None
        &&& nodes[t].split_key is None
        &&& end == t + 1
        &&& nodes[t].indices@.len() <= leaf_size
        &&& nodes[t].indices@ == nodes[t].members@@
    } else {
        let m = nodes[t].right->0 as int;
        &&& nodes[t].left == Some((t + 1) as usize)
        &&& nodes[t].right is Some
        &&& nodes[t].split_dim is Some
        &&& nodes[t].indices@.len() == 0
        &&& nodes[t].members@@.len() > leaf_size
        &&& t + 1 < m < end
        &&& subtree_ok(nodes, t + 1, m, leaf_size)
        &&& subtree_ok(nodes, m, end, leaf_size)
    }
}

/// The sample indices in the leaves of the subtree `t..end`, left to right.
pub open spec fn covered(nodes: Seq<TreeNode>, t: int, end: int) -> Seq<usize>
    decreases end - t,
{
    if !(0 <= t < end <= nodes.len()) {
        Seq::empty()
    } else if nodes[t].left is None {
        nodes[t].indices@
    } else {
        let m = nodes[t].right->0 as int;
        if t + 1 < m < end {
            covered(nodes, t + 1, m) + covered(nodes, m, end)
        } else {
            Seq::empty()
        }
    }
}

/// The same values, each once.
pub open spec fn same_members(a: Seq<usize>, b: Seq<usize>) -> bool {
    &&& a.no_duplicates()
    &&& forall|x: usize| a.contains(x) <==> b.contains(x)
}

/// A subtree only depends on its own nodes.
proof fn lemma_frame(nodes: Seq<TreeNode>, nodes2: Seq<TreeNode>, t: int, end: int, leaf_size: nat)
    requires
        subtree_ok(nodes, t, end, leaf_size),
        end <= nodes2.len(),
        forall|i: int| t <= i < end ==> nodes2[i] == nodes[i],
    ensures
        subtree_ok(nodes2, t, end, leaf_size),
        covered(nodes2, t, end) == covered(nodes, t, end),
    decreases end - t,
{
    assert(nodes2[t] == nodes[t]);
    if nodes[t].left is Some {
        let m = nodes[t].right->0 as int;
        lemma_frame(nodes, nodes2, t + 1, m, leaf_size);
        lemma_frame(nodes, nodes2, m, end, leaf_size);
    }
}

/// The key of sample `x` on feature `d`.
pub open spec fn key_of(keys: Seq<Vec<u64>>, x: usize, d: usize) -> u64 {
    keys[x as int]@[d as int]
}

/// How a median split divides its samples: no left sample has a key above `s` and
/// no right sample a key below it.
pub open spec fn median_split_ok(keys: Seq<Vec<u64>>, d: usize, s: u64, l: Seq<usize>, r: Seq<usize>) -> bool {
    &&& forall|i: int| 0 <= i < l.len() ==> key_of(keys, #[trigger] l[i], d) <= s
    &&& forall|i: int| 0 <= i < r.len() ==> key_of(keys, #[trigger] r[i], d) >= s
}

/// Whether sample `x` goes left at a split on `d` at key `v`: its key is below `v`,
/// or (when `inclusive`) at most `v`.
pub open spec fn goes_left(keys: Seq<Vec<u64>>, d: usize, v: u64, inclusive: bool, x: usize) -> bool {
    if inclusive {
        key_of(keys, x, d) <= v
    } else {
        key_of(keys, x, d) < v
    }
}

/// The samples of `s` that go left, in their order in `s`.
pub open spec fn left_of(keys: Seq<Vec<u64>>, d: usize, v: u64, inclusive: bool, s: Seq<usize>) -> Seq<usize> {
    s.filter(|x: usize| goes_left(keys, d, v, inclusive, x))
}

/// The samples of `s` that do not go left, in their order in `s`.
pub open spec fn right_of(keys: Seq<Vec<u64>>, d: usize, v: u64, inclusive: bool, s: Seq<usize>) -> Seq<usize> {
    s.filter(|x: usize| !goes_left(keys, d, v, inclusive, x))
}

/// The median split of the samples `s` at key `v`: the samples below `v` go left and
/// the others right; when one side is empty, the samples at most `v` go left and the
/// others right; when a side is still empty, the first half of `s` goes left.
pub open spec fn median_split(keys: Seq<Vec<u64>>, d: usize, v: u64, s: Seq<usize>) -> (Seq<usize>, Seq<usize>) {
    let l = left_of(keys, d, v, false, s);
    let r = right_of(keys, d, v, false, s);
    if l.len() > 0 && r.len() > 0 {
        (l, r)
    } else {
        let l2 = left_of(keys, d, v, true, s);
        let r2 = right_of(keys, d, v, true, s);
        if l2.len() > 0 && r2.len() > 0 {
            (l2, r2)
        } else {
            (s.take((s.len() / 2) as int), s.skip((s.len() / 2) as int))
        }
    }
}

/// `out` holds the samples of `s` ordered by their key on `d`, ties in their order
/// in `s`.
pub open spec fn sorted_stably(keys: Seq<Vec<u64>>, d: usize, s: Seq<usize>, out: Seq<usize>) -> bool {
    &&& out.len() == s.len()
    &&& forall|y: usize| out.contains(y) <==> s.contains(y)
    &&& forall|i: int, j: int, a: int, b: int|
        #![trigger out[i], out[j], s[a], s[b]]
        0 <= i < j < out.len() && 0 <= a < s.len() && 0 <= b < s.len() && out[i] == s[a] && out[j] == s[b]
            ==> precedes(key_of(keys, s[a], d), a, key_of(keys, s[b], d), b)
}

/// The children of an internal node built from the samples `s` hold exactly `l` and
/// `r`, in order, as the node's rule prescribes.
pub open spec fn split_exact(rule: SplitRule, keys: Seq<Vec<u64>>, node: TreeNode, s: Seq<usize>, l: Seq<usize>, r: Seq<usize>) -> bool {
    let d = node.split_dim->0;
    match rule {
        SplitRule::Median => node.split_key is Some && is_median_key(keys, d, s, node.split_key->0) && (l, r)
            == median_split(keys, d, node.split_key->0, s),
        SplitRule::SortedHalves => node.split_key is None && sorted_stably(keys, d, s, l + r) && l.len() == s.len()
            / 2,
    }
}

/// Every internal node of the subtree `t..end` hands its samples to its children as
/// its rule prescribes.
pub open spec fn layout_ok(nodes: Seq<TreeNode>, keys: Seq<Vec<u64>>, rule: SplitRule, t: int, end: int) -> bool
    decreases end - t,
{
    if !(0 <= t < end <= nodes.len()) {
        true
    } else if nodes[t].left is None {
        true
    } else {
        let m = nodes[t].right->0 as int;
        if t + 1 < m < end {
            &&& split_exact(rule, keys, nodes[t], nodes[t].members@@, nodes[t + 1].members@@, nodes[m].members@@)
            &&& layout_ok(nodes, keys, rule, t + 1, m)
            &&& layout_ok(nodes, keys, rule, m, end)
        } else {
            true
        }
    }
}

/// How a sorted-halves split divides its samples: no left sample has a larger key
/// than a right sample.
pub open spec fn halves_ordered(keys: Seq<Vec<u64>>, d: usize, l: Seq<usize>, r: Seq<usize>) -> bool {
    forall|i: int, j: int| 0 <= i < l.len() && 0 <= j < r.len() ==> key_of(keys, #[trigger] l[i], d)
        <= key_of(keys, #[trigger] r[j], d)
}

/// The samples of `s` whose key on `d` is below `v`.
pub open spec fn keys_below(keys: Seq<Vec<u64>>, d: usize, s: Seq<usize>, v: u64) -> Set<usize> {
    s.to_set().filter(|x: usize| key_of(keys, x, d) < v)
}

/// The samples of `s` whose key on `d` is at most `v`.
pub open spec fn keys_at_most(keys: Seq<Vec<u64>>, d: usize, s: Seq<usize>, v: u64) -> Set<usize> {
    s.to_set().filter(|x: usize| key_of(keys, x, d) <= v)
}

/// `v` is the median key of `s` on `d`: the key at position `s.len() / 2` once the
/// keys are sorted, i.e. at most `s.len() / 2` keys lie below it and more than that
/// lie at or below it.
pub open spec fn is_median_key(keys: Seq<Vec<u64>>, d: usize, s: Seq<usize>, v: u64) -> bool {
    keys_below(keys, d, s, v).len() <= s.len() / 2 < keys_at_most(keys, d, s, v).len()
}

/// An internal node's split divides the samples `l` (left subtree) and `r` (right
/// subtree) as its rule prescribes.
pub open spec fn split_ok(rule: SplitRule, keys: Seq<Vec<u64>>, node: TreeNode, l: Seq<usize>, r: Seq<usize>) -> bool {
    match rule {
        SplitRule::Median => node.split_key is Some && median_split_ok(
            keys,
            node.split_dim->0,
            node.split_key->0,
            l,
            r,
        ) && is_median_key(keys, node.split_dim->0, l + r, node.split_key->0),
        SplitRule::SortedHalves => node.split_key is None && halves_ordered(keys, node.split_dim->0, l, r)
            && l.len() == (l.len() + r.len()) / 2,
    }
}

/// Every internal node of the subtree `t..end` divides its samples by its split.
pub open spec fn splits_ordered(nodes: Seq<TreeNode>, keys: Seq<Vec<u64>>, rule: SplitRule, t: int, end: int) -> bool
    decreases end - t,
{
    if !(0 <= t < end <= nodes.len()) {
        true
    } else if nodes[t].left is None {
        true
    } else {
        let m = nodes[t].right->0 as int;
        if t + 1 < m < end {
            &&& split_ok(rule, keys, nodes[t], covered(nodes, t + 1, m), covered(nodes, m, end))
            &&& splits_ordered(nodes, keys, rule, t + 1, m)
            &&& splits_ordered(nodes, keys, rule, m, end)
        } else {
            true
        }
    }
}

/// Every internal node of the subtree `t..end` splits on the feature that
/// `choose_dim` picked for the samples the node was built from.
pub open spec fn dims_chosen<F: Fn(&Vec<usize>) -> usize>(nodes: Seq<TreeNode>, choose_dim: F, t: int, end: int) -> bool
    decreases end - t,
{
    if !(0 <= t < end <= nodes.len()) {
        true
    } else if nodes[t].left is None {
        true
    } else {
        let m = nodes[t].right->0 as int;
        if t + 1 < m < end {
            &&& choose_dim.ensures((&nodes[t].members@,), nodes[t].split_dim->0)
            &&& dims_chosen(nodes, choose_dim, t + 1, m)
            &&& dims_chosen(nodes, choose_dim, m, end)
        } else {
            true
        }
    }
}

proof fn lemma_frame_dims<F: Fn(&Vec<usize>) -> usize>(
    nodes: Seq<TreeNode>,
    nodes2: Seq<TreeNode>,
    choose_dim: F,
    t: int,
    end: int,
    leaf_size: nat,
)
    requires
        subtree_ok(nodes, t, end, leaf_size),
        dims_chosen(nodes, choose_dim, t, end),
        end <= nodes2.len(),
        forall|i: int| t <= i < end ==> nodes2[i] == nodes[i],
    ensures
        dims_chosen(nodes2, choose_dim, t, end),
    decreases end - t,
{
    assert(nodes2[t] == nodes[t]);
    lemma_frame(nodes, nodes2, t, end, leaf_size);
    if nodes[t].left is Some {
        let m = nodes[t].right->0 as int;
        lemma_frame_dims(nodes, nodes2, choose_dim, t + 1, m, leaf_size);
        lemma_frame_dims(nodes, nodes2, choose_dim, m, end, leaf_size);
    }
}

proof fn lemma_frame_splits(
    nodes: Seq<TreeNode>,
    nodes2: Seq<TreeNode>,
    keys: Seq<Vec<u64>>,
    rule: SplitRule,
    t: int,
    end: int,
    leaf_size: nat,
)
    requires
        subtree_ok(nodes, t, end, leaf_size),
        splits_ordered(nodes, keys, rule, t, end),
        end <= nodes2.len(),
        forall|i: int| t <= i < end ==> nodes2[i] == nodes[i],
    ensures
        splits_ordered(nodes2, keys, rule, t, end),
    decreases end - t,
{
    assert(nodes2[t] == nodes[t]);
    if nodes[t].left is Some {
        let m = nodes[t].right->0 as int;
        lemma_frame(nodes, nodes2, t + 1, m, leaf_size);
        lemma_frame(nodes, nodes2, m, end, leaf_size);
        lemma_frame_splits(nodes, nodes2, keys, rule, t + 1, m, leaf_size);
        lemma_frame_splits(nodes, nodes2, keys, rule, m, end, leaf_size);
    }
}

proof fn lemma_frame_layout(
    nodes: Seq<TreeNode>,
    nodes2: Seq<TreeNode>,
    keys: Seq<Vec<u64>>,
    rule: SplitRule,
    t: int,
    end: int,
    leaf_size: nat,
)
    requires
        subtree_ok(nodes, t, end, leaf_size),
        layout_ok(nodes, keys, rule, t, end),
        end <= nodes2.len(),
        forall|i: int| t <= i < end ==> nodes2[i] == nodes[i],
    ensures
        layout_ok(nodes2, keys, rule, t, end),
    decreases end - t,
{
    assert(nodes2[t] == nodes[t]);
    if nodes[t].left is Some {
        let m = nodes[t].right->0 as int;
        assert(nodes2[t + 1] == nodes[t + 1]);
        assert(nodes2[m] == nodes[m]);
        lemma_frame_layout(nodes, nodes2, keys, rule, t + 1, m, leaf_size);
        lemma_frame_layout(nodes, nodes2, keys, rule, m, end, leaf_size);
    }
}

/// The split property only depends on which samples each side holds.
proof fn lemma_split_members(
    rule: SplitRule,
    keys: Seq<Vec<u64>>,
    node: TreeNode,
    l: Seq<usize>,
    r: Seq<usize>,
    l2: Seq<usize>,
    r2: Seq<usize>,
)
    requires
        split_ok(rule, keys, node, l, r),
        forall|y: usize| l2.contains(y) ==> l.contains(y),
        forall|y: usize| r2.contains(y) ==> r.contains(y),
        (l2 + r2).to_set() == (l + r).to_set(),
        l2.len() == l.len(),
        r2.len() == r.len(),
    ensures
        split_ok(rule, keys, node, l2, r2),
{
    let d = node.split_dim->0;
    match rule {
        SplitRule::Median => {
            let s = node.split_key->0;
            assert(keys_below(keys, d, l2 + r2, s) == keys_below(keys, d, l + r, s));
            assert(keys_at_most(keys, d, l2 + r2, s) == keys_at_most(keys, d, l + r, s));
            assert forall|i: int| 0 <= i < r2.len() implies key_of(keys, #[trigger] r2[i], d) >= s by {
                assert(r2.contains(r2[i]));
                let a = choose|a: int| 0 <= a < r.len() && r[a] == r2[i];
            }
            assert forall|i: int| 0 <= i < l2.len() implies key_of(keys, #[trigger] l2[i], d) <= s by {
                assert(l2.contains(l2[i]));
                let a = choose|a: int| 0 <= a < l.len() && l[a] == l2[i];
            }
        },
        SplitRule::SortedHalves => {
            assert forall|i: int, j: int| 0 <= i < l2.len() && 0 <= j < r2.len() implies key_of(
                keys,
                #[trigger] l2[i],
                d,
            ) <= key_of(keys, #[trigger] r2[j], d) by {
                assert(l2.contains(l2[i]));
                assert(r2.contains(r2[j]));
                let a = choose|a: int| 0 <= a < l.len() && l[a] == l2[i];
                let b = choose|b: int| 0 <= b < r.len() && r[b] == r2[j];
                assert(key_of(keys, l[a], d) <= key_of(keys, r[b], d));
            }
        },
    }
}

/// A duplicate-free sequence of `n` values below `n` holds every value below `n`.
pub proof fn lemma_full_range(s: Seq<usize>, n: nat)
    requires
        s.no_duplicates(),
        s.len() == n,
        forall|i: int| 0 <= i < s.len() ==> #[trigger] s[i] < n,
    ensures
        forall|m: usize| m < n ==> s.contains(m),
{
    let f = |x: usize| x as int;
    let si = s.map_values(f);
    s.lemma_no_duplicates_injective(f);
    si.unique_seq_to_set();
    lemma_int_range(0, n as int);
    assert(si.to_set().subset_of(set_int_range(0, n as int))) by {
        assert forall|x: int| si.to_set().contains(x) implies set_int_range(0, n as int).contains(x) by {
            let i = choose|i: int| 0 <= i < si.len() && si[i] == x;
            assert(si[i] == s[i] as int);
        }
    }
    lemma_len_subset(si.to_set(), set_int_range(0, n as int));
    lemma_subset_equality(si.to_set(), set_int_range(0, n as int));
    assert forall|m: usize| m < n implies s.contains(m) by {
        assert(set_int_range(0, n as int).contains(m as int));
        assert(si.to_set().contains(m as int));
        let i = choose|i: int| 0 <= i < si.len() && si[i] == m as int;
        assert(s[i] == m);
    }
}

proof fn lemma_concat_members(a: Seq<usize>, b: Seq<usize>)
    ensures
        forall|x: usize| (a + b).contains(x) <==> (a.contains(x) || b.contains(x)),
{
    assert forall|x: usize| (a + b).contains(x) <==> (a.contains(x) || b.contains(x)) by {
        if (a + b).contains(x) {
            let i = choose|i: int| 0 <= i < (a + b).len() && (a + b)[i] == x;
            if i < a.len() {
                assert(a[i] == x);
            } else {
                assert(b[i - a.len()] == x);
            }
        }
        if a.contains(x) {
            let i = choose|i: int| 0 <= i < a.len() && a[i] == x;
            assert((a + b)[i] == x);
        }
        if b.contains(x) {
            let i = choose|i: int| 0 <= i < b.len() && b[i] == x;
            assert((a + b)[a.len() + i] == x);
        }
    }
}

proof fn lemma_concat_parts(l: Seq<usize>, r: Seq<usize>)
    requires
        (l + r).no_duplicates(),
    ensures
        l.no_duplicates(),
        r.no_duplicates(),
        forall|i: int, j: int| 0 <= i < l.len() && 0 <= j < r.len() ==> l[i] != r[j],
{
    let s = l + r;
    assert forall|i: int, j: int| 0 <= i < l.len() && 0 <= j < l.len() && i != j implies l[i] != l[j] by {
        assert(s[i] == l[i] && s[j] == l[j]);
    }
    assert forall|i: int, j: int| 0 <= i < r.len() && 0 <= j < r.len() && i != j implies r[i] != r[j] by {
        assert(s[l.len() + i] == r[i] && s[l.len() + j] == r[j]);
    }
    assert forall|i: int, j: int| 0 <= i < l.len() && 0 <= j < r.len() implies l[i] != r[j] by {
        assert(s[i] == l[i] && s[l.len() + j] == r[j]);
    }
}

/// Pushing a fresh value onto either part keeps the concatenation duplicate-free.
proof fn lemma_push_fresh(l: Seq<usize>, r: Seq<usize>, x: usize)
    requires
        (l + r).no_duplicates(),
        !(l + r).contains(x),
    ensures
        (l.push(x) + r).no_duplicates(),
        (l + r.push(x)).no_duplicates(),
{
    lemma_concat_parts(l, r);
    lemma_concat_members(l, r);
    assert(!l.contains(x));
    assert(!r.contains(x));
    assert forall|i: int| 0 <= i < l.len() implies l[i] != x by {
        assert(l.contains(l[i]));
    }
    assert forall|i: int| 0 <= i < r.len() implies r[i] != x by {
        assert(r.contains(r[i]));
    }
    let lp = l.push(x);
    let rp = r.push(x);
    assert(lp.no_duplicates()) by {
        assert forall|i: int, j: int| 0 <= i < lp.len() && 0 <= j < lp.len() && i != j implies lp[i] != lp[j] by {
            if i < l.len() && j < l.len() {
                assert(lp[i] == l[i] && lp[j] == l[j]);
            } else if i < l.len() {
                assert(lp[i] == l[i]);
            } else if j < l.len() {
                assert(lp[j] == l[j]);
            }
        }
    }
    assert(rp.no_duplicates()) by {
        assert forall|i: int, j: int| 0 <= i < rp.len() && 0 <= j < rp.len() && i != j implies rp[i] != rp[j] by {
            if i < r.len() && j < r.len() {
                assert(rp[i] == r[i] && rp[j] == r[j]);
            } else if i < r.len() {
                assert(rp[i] == r[i]);
            } else if j < r.len() {
                assert(rp[j] == r[j]);
            }
        }
    }
    assert forall|i: int, j: int| 0 <= i < lp.len() && 0 <= j < r.len() implies lp[i] != r[j] by {
        if i < l.len() {
            assert(lp[i] == l[i]);
        }
    }
    assert forall|i: int, j: int| 0 <= i < l.len() && 0 <= j < rp.len() implies l[i] != rp[j] by {
        if j < r.len() {
            assert(rp[j] == r[j]);
        }
    }
    vstd::seq_lib::lemma_no_dup_in_concat(lp, r);
    vstd::seq_lib::lemma_no_dup_in_concat(l, rp);
}

/// The keys of `indices` on feature `dim`.
fn column_keys(keys: &Vec<Vec<u64>>, n_features: usize, indices: &Vec<usize>, dim: usize) -> (kv: Vec<u64>)
    requires
        dim < n_features,
        forall|i: int| 0 <= i < keys.len() ==> (#[trigger] keys@[i]).len() == n_features,
        forall|j: int| 0 <= j < indices.len() ==> #[trigger] indices@[j] < keys.len(),
    ensures
        kv.len() == indices.len(),
        forall|j: int| 0 <= j < kv.len() ==> #[trigger] kv@[j] == keys@[indices@[j] as int]@[dim as int],
{
    let mut kv: Vec<u64> = Vec::new();
    let mut j: usize = 0;
    while j < indices.len()
        invariant
            j <= indices.len(),
            dim < n_features,
            forall|i: int| 0 <= i < keys.len() ==> (#[trigger] keys@[i]).len() == n_features,
            forall|j2: int| 0 <= j2 < indices.len() ==> #[trigger] indices@[j2] < keys.len(),
            kv.len() == j,
            forall|j2: int| 0 <= j2 < j ==> #[trigger] kv@[j2] == keys@[indices@[j2] as int]@[dim as int],
        decreases indices.len() - j,
    {
        let ix = indices[j];
        kv.push(keys[ix][dim]);
        j = j + 1;
    }
    kv
}

/// `indices[from..to]`.
fn slice_of(indices: &Vec<usize>, from: usize, to: usize) -> (r: Vec<usize>)
    requires
        from <= to <= indices.len(),
    ensures
        r@ == indices@.subrange(from as int, to as int),
{
    let mut r: Vec<usize> = Vec::new();
    let mut j: usize = from;
    while j < to
        invariant
            from <= j <= to <= indices.len(),
            r@ == indices@.subrange(from as int, j as int),
        decreases to - j,
    {
        r.push(indices[j]);
        j = j + 1;
        assert(r@ =~= indices@.subrange(from as int, j as int));
    }
    r
}

/// The key of the last of the `n / 2 + 1` nearest entries is the median key.
proof fn lemma_median_of_nearest(
    keys: Seq<Vec<u64>>,
    dim: usize,
    indices: Seq<usize>,
    kv: Seq<u64>,
    order: Seq<usize>,
    v: u64,
)
    requires
        1 <= indices.len() <= usize::MAX,
        indices.no_duplicates(),
        kv.len() == indices.len(),
        forall|t: int| 0 <= t < kv.len() ==> #[trigger] kv[t] == key_of(keys, indices[t], dim),
        is_k_nearest(kv, (indices.len() / 2 + 1) as nat, order),
        v == kv[order[(indices.len() / 2) as int] as int],
    ensures
        is_median_key(keys, dim, indices, v),
{
    let n = indices.len();
    let m = n / 2;
    assert(order.len() == m + 1);
    let first = Seq::new(m as nat, |i: int| indices[order[i] as int]);
    let sel = Seq::new((m + 1) as nat, |i: int| indices[order[i] as int]);
    // selected positions are distinct, hence so are the selected samples
    assert forall|a: int, b: int| 0 <= a < b < m + 1 implies order[a] != order[b] by {
        assert(precedes(kv[order[a] as int], order[a] as int, kv[order[b] as int], order[b] as int));
    }
    assert(sel.no_duplicates()) by {
        assert forall|a: int, b: int| 0 <= a < sel.len() && 0 <= b < sel.len() && a != b implies sel[a] != sel[b] by {
            if a < b {
                assert(order[a] != order[b]);
            } else {
                assert(order[b] != order[a]);
            }
        }
    }
    assert(first.no_duplicates()) by {
        assert forall|a: int, b: int| 0 <= a < first.len() && 0 <= b < first.len() && a != b implies first[a]
            != first[b] by {
            assert(first[a] == sel[a] && first[b] == sel[b]);
        }
    }
    sel.unique_seq_to_set();
    first.unique_seq_to_set();
    let all = indices.to_set();
    let below = keys_below(keys, dim, indices, v);
    let at_most = keys_at_most(keys, dim, indices, v);
    assert(below.subset_of(first.to_set())) by {
        assert forall|x: usize| below.contains(x) implies first.to_set().contains(x) by {
            assert(indices.contains(x));
            let q = choose|q: int| 0 <= q < n && indices[q] == x;
            assert(kv[q] < v);
            assert(order.contains(q as usize)) by {
                if !order.contains(q as usize) {
                    assert(0 <= m < order.len());
                    assert(precedes(kv[order[m as int] as int], order[m as int] as int, kv[q], q));
                }
            }
            let i = choose|i: int| 0 <= i < order.len() && order[i] == q as usize;
            assert(order[i] as int == q);
            if i == m {
                assert(kv[q] == v);
            }
            assert(first[i] == x);
        }
    }
    assert(sel.to_set().subset_of(at_most)) by {
        assert forall|x: usize| sel.to_set().contains(x) implies at_most.contains(x) by {
            let i = choose|i: int| 0 <= i < sel.len() && sel[i] == x;
            if i < m {
                assert(precedes(kv[order[i] as int], order[i] as int, kv[order[m as int] as int], order[m as int] as int));
            }
            assert(indices.contains(x));
        }
    }
    vstd::set_lib::lemma_len_subset(below, first.to_set());
    vstd::seq_lib::seq_to_set_is_finite(indices);
    assert(at_most.subset_of(all));
    vstd::set_lib::lemma_len_subset(at_most, all);
    vstd::set_lib::lemma_len_subset(sel.to_set(), at_most);
}

/// Sequences with the same members, each once, have the same set and length.
proof fn lemma_same_members_set(a: Seq<usize>, b: Seq<usize>)
    requires
        same_members(a, b),
        b.no_duplicates(),
    ensures
        a.to_set() == b.to_set(),
        a.len() == b.len(),
{
    assert(a.to_set() =~= b.to_set());
    a.unique_seq_to_set();
    b.unique_seq_to_set();
}

/// Partitions `indices` (keeping their order) into the samples that go left at key
/// `v` on `dim` and the others.
fn partition_at(keys: &Vec<Vec<u64>>, indices: &Vec<usize>, dim: usize, kv: &Vec<u64>, v: u64, inclusive: bool) -> (r: (
    Vec<usize>,
    Vec<usize>,
))
    requires
        kv.len() == indices.len(),
        forall|t: int| 0 <= t < kv.len() ==> #[trigger] kv@[t] == key_of(keys@, indices@[t], dim),
        indices@.no_duplicates(),
    ensures
        r.0@ == left_of(keys@, dim, v, inclusive, indices@),
        r.1@ == right_of(keys@, dim, v, inclusive, indices@),
        same_members(r.0@ + r.1@, indices@),
        forall|t: int| 0 <= t < r.0.len() ==> goes_left(keys@, dim, v, inclusive, #[trigger] r.0@[t]),
        forall|t: int| 0 <= t < r.1.len() ==> !goes_left(keys@, dim, v, inclusive, #[trigger] r.1@[t]),
{
    let n = indices.len();
    let mut left: Vec<usize> = Vec::new();
    let mut right: Vec<usize> = Vec::new();
    let mut j: usize = 0;
    while j < n
        invariant
            j <= n,
            n == indices.len(),
            kv.len() == n,
            forall|t: int| 0 <= t < kv.len() ==> #[trigger] kv@[t] == key_of(keys@, indices@[t], dim),
            left@ == left_of(keys@, dim, v, inclusive, indices@.take(j as int)),
            right@ == right_of(keys@, dim, v, inclusive, indices@.take(j as int)),
            forall|t: int| 0 <= t < left.len() ==> goes_left(keys@, dim, v, inclusive, #[trigger] left@[t]),
            forall|t: int| 0 <= t < right.len() ==> !goes_left(keys@, dim, v, inclusive, #[trigger] right@[t]),
            same_members(left@ + right@, indices@.take(j as int)),
            indices@.no_duplicates(),
        decreases n - j,
    {
        let x = indices[j];
        let ghost pre = left@ + right@;
        proof {
            lemma_concat_members(left@, right@);
            assert(!(left@ + right@).contains(x)) by {
                if pre.contains(x) {
                    assert(indices@.take(j as int).contains(x));
                    let t = choose|t: int| 0 <= t < j && indices@.take(j as int)[t] == x;
                    assert(indices@[t] == indices@[j as int]);
                }
            }
            lemma_push_fresh(left@, right@, x);
        }
        let ghost l0 = left@;
        let ghost r0 = right@;
        let goes = if inclusive {
            kv[j] <= v
        } else {
            kv[j] < v
        };
        assert(goes == goes_left(keys@, dim, v, inclusive, x));
        if goes {
            left.push(x);
        } else {
            right.push(x);
        }
        proof {
            let post = left@ + right@;
            lemma_concat_members(left@, right@);
            lemma_concat_members(l0, r0);
            assert forall|y: usize| post.contains(y) <==> (pre.contains(y) || y == x) by {
                if left@ == l0.push(x) {
                    assert(left@[l0.len() as int] == x);
                    if l0.contains(y) {
                        let t = choose|t: int| 0 <= t < l0.len() && l0[t] == y;
                        assert(left@[t] == y);
                    }
                    if left@.contains(y) && y != x {
                        let t = choose|t: int| 0 <= t < left@.len() && left@[t] == y;
                        assert(l0[t] == y);
                    }
                } else {
                    assert(right@ == r0.push(x));
                    assert(right@[r0.len() as int] == x);
                    if r0.contains(y) {
                        let t = choose|t: int| 0 <= t < r0.len() && r0[t] == y;
                        assert(right@[t] == y);
                    }
                    if right@.contains(y) && y != x {
                        let t = choose|t: int| 0 <= t < right@.len() && right@[t] == y;
                        assert(r0[t] == y);
                    }
                }
            }
            let tk0 = indices@.take(j as int);
            let tk1 = indices@.take(j + 1);
            assert(tk1 =~= tk0.push(x));
            assert forall|y: usize| post.contains(y) <==> tk1.contains(y) by {
                assert(pre.contains(y) <==> tk0.contains(y));
                assert(post.contains(y) <==> (pre.contains(y) || y == x));
                if y == x {
                    assert(tk1[j as int] == x);
                }
                if tk1.contains(y) {
                    let t = choose|t: int| 0 <= t < tk1.len() && tk1[t] == y;
                    if t < j {
                        assert(tk0[t] == y);
                    }
                }
                if tk0.contains(y) {
                    let t = choose|t: int| 0 <= t < tk0.len() && tk0[t] == y;
                    assert(tk1[t] == y);
                }
            }
            reveal(Seq::filter);
            assert(tk1.drop_last() =~= tk0);
            assert(tk1.last() == x);
            assert(left@ == left_of(keys@, dim, v, inclusive, tk1));
            assert(right@ == right_of(keys@, dim, v, inclusive, tk1));
        }
        j = j + 1;
    }
    assert(indices@.take(n as int) =~= indices@);
    (left, right)
}

/// Splits `indices` at their median key on `dim` into two non-empty, smaller parts
/// holding the same members, no left key above the median key and no right key
/// below it.
fn split_median(keys: &Vec<Vec<u64>>, n_features: usize, indices: &Vec<usize>, dim: usize) -> (r: (
    u64,
    Vec<usize>,
    Vec<usize>,
))
    requires
        dim < n_features,
        indices.len() >= 2,
        indices@.no_duplicates(),
        forall|i: int| 0 <= i < keys.len() ==> (#[trigger] keys@[i]).len() == n_features,
        forall|j: int| 0 <= j < indices.len() ==> #[trigger] indices@[j] < keys.len(),
    ensures
        0 < r.1.len() < indices.len(),
        0 < r.2.len() < indices.len(),
        same_members(r.1@ + r.2@, indices@),
        median_split_ok(keys@, dim, r.0, r.1@, r.2@),
        is_median_key(keys@, dim, indices@, r.0),
        (r.1@, r.2@) == median_split(keys@, dim, r.0, indices@),
{
    let n = indices.len();
    let kv = column_keys(keys, n_features, indices, dim);
    let mid = n / 2;
    let (order, sorted_keys) = find_k_nearest(&kv, mid + 1);
    let split_key = sorted_keys[mid];
    proof {
        lemma_median_of_nearest(keys@, dim, indices@, kv@, order@, split_key);
    }
    // the sample holding the split key
    let ghost q = order@[mid as int] as int;
    let ghost xq = indices@[q];
    assert(kv@[q] == split_key);
    assert(key_of(keys@, xq, dim) == split_key);
    assert(indices@.contains(xq));
    let (l1, r1) = partition_at(keys, indices, dim, &kv, split_key, false);
    proof {
        lemma_concat_members(l1@, r1@);
        lemma_same_members_set(l1@ + r1@, indices@);
        assert(r1@.contains(xq)) by {
            if l1@.contains(xq) {
                let a = choose|a: int| 0 <= a < l1@.len() && l1@[a] == xq;
                assert(goes_left(keys@, dim, split_key, false, l1@[a]));
            }
        }
    }
    if l1.len() > 0 && r1.len() > 0 {
        return (split_key, l1, r1);
    }
    let (l2, r2) = partition_at(keys, indices, dim, &kv, split_key, true);
    proof {
        lemma_concat_members(l2@, r2@);
        lemma_same_members_set(l2@ + r2@, indices@);
        assert(l2@.contains(xq)) by {
            if r2@.contains(xq) {
                let a = choose|a: int| 0 <= a < r2@.len() && r2@[a] == xq;
                assert(!goes_left(keys@, dim, split_key, true, r2@[a]));
            }
        }
    }
    if l2.len() > 0 && r2.len() > 0 {
        return (split_key, l2, r2);
    }
    let l = slice_of(indices, 0, mid);
    let r = slice_of(indices, mid, n);
    proof {
        assert(l@ + r@ =~= indices@);
        assert(l@ =~= indices@.take(mid as int));
        assert(r@ =~= indices@.skip(mid as int));
        // every key equals the split key
        assert forall|i: int| 0 <= i < n implies key_of(keys@, #[trigger] indices@[i], dim) == split_key by {
            let x = indices@[i];
            assert(indices@.contains(x));
            assert(r1@.contains(x));
            assert(l2@.contains(x));
            let a = choose|a: int| 0 <= a < r1@.len() && r1@[a] == x;
            let b = choose|b: int| 0 <= b < l2@.len() && l2@[b] == x;
            assert(!goes_left(keys@, dim, split_key, false, r1@[a]));
            assert(goes_left(keys@, dim, split_key, true, l2@[b]));
        }
        assert forall|i: int| 0 <= i < l@.len() implies key_of(keys@, #[trigger] l@[i], dim) <= split_key by {
            assert(l@[i] == indices@[i]);
        }
        assert forall|i: int| 0 <= i < r@.len() implies key_of(keys@, #[trigger] r@[i], dim) >= split_key by {
            assert(r@[i] == indices@[mid + i]);
        }
    }
    (split_key, l, r)
}

/// Orders `indices` by their key on `dim` (ties in input order) and cuts the result
/// in half: the first `len / 2` go left.
fn split_sorted(keys: &Vec<Vec<u64>>, n_features: usize, indices: &Vec<usize>, dim: usize) -> (r: (
    Vec<usize>,
    Vec<usize>,
))
    requires
        dim < n_features,
        indices.len() >= 2,
        indices@.no_duplicates(),
        forall|i: int| 0 <= i < keys.len() ==> (#[trigger] keys@[i]).len() == n_features,
        forall|j: int| 0 <= j < indices.len() ==> #[trigger] indices@[j] < keys.len(),
    ensures
        0 < r.0.len() < indices.len(),
        0 < r.1.len() < indices.len(),
        same_members(r.0@ + r.1@, indices@),
        halves_ordered(keys@, dim, r.0@, r.1@),
        r.0.len() == indices.len() / 2,
        sorted_stably(keys@, dim, indices@, r.0@ + r.1@),
{
    let n = indices.len();
    let kv = column_keys(keys, n_features, indices, dim);
    let (order, _sorted_keys) = find_k_nearest(&kv, n);
    proof {
        assert(order@.no_duplicates()) by {
            assert forall|a: int, b: int| 0 <= a < order@.len() && 0 <= b < order@.len() && a != b implies order@[a]
                != order@[b] by {
                if a < b {
                    assert(precedes(kv@[order@[a] as int], order@[a] as int, kv@[order@[b] as int], order@[b] as int));
                } else {
                    assert(precedes(kv@[order@[b] as int], order@[b] as int, kv@[order@[a] as int], order@[a] as int));
                }
            }
        }
        lemma_full_range(order@, n as nat);
    }
    let mut sorted: Vec<usize> = Vec::new();
    let mut j: usize = 0;
    while j < n
        invariant
            j <= n,
            n == indices.len(),
            order.len() == n,
            forall|t: int| 0 <= t < n ==> #[trigger] order@[t] < n,
            sorted.len() == j,
            forall|t: int| 0 <= t < j ==> #[trigger] sorted@[t] == indices@[order@[t] as int],
        decreases n - j,
    {
        sorted.push(indices[order[j]]);
        j = j + 1;
    }
    proof {
        assert(sorted@.no_duplicates()) by {
            assert forall|a: int, b: int| 0 <= a < n && 0 <= b < n && a != b implies sorted@[a] != sorted@[b] by {
                assert(order@[a] != order@[b]);
            }
        }
        assert forall|y: usize| sorted@.contains(y) <==> indices@.contains(y) by {
            if sorted@.contains(y) {
                let t = choose|t: int| 0 <= t < sorted@.len() && sorted@[t] == y;
                assert(indices@[order@[t] as int] == y);
            }
            if indices@.contains(y) {
                let q = choose|q: int| 0 <= q < indices@.len() && indices@[q] == y;
                assert(order@.contains(q as usize));
                let t = choose|t: int| 0 <= t < order@.len() && order@[t] == q as usize;
                assert(sorted@[t] == y);
            }
        }
    }
    let mid = n / 2;
    let l = slice_of(&sorted, 0, mid);
    let r = slice_of(&sorted, mid, n);
    assert(l@ + r@ =~= sorted@);
    proof {
        assert forall|i: int, j: int| 0 <= i < l@.len() && 0 <= j < r@.len() implies key_of(
            keys@,
            #[trigger] l@[i],
            dim,
        ) <= key_of(keys@, #[trigger] r@[j], dim) by {
            assert(l@[i] == sorted@[i]);
            assert(r@[j] == sorted@[mid + j]);
            assert(precedes(kv@[order@[i] as int], order@[i] as int, kv@[order@[mid + j] as int], order@[mid + j] as int));
        }
        assert forall|i: int, j: int, a: int, b: int|
            #![trigger sorted@[i], sorted@[j], indices@[a], indices@[b]]
            0 <= i < j < sorted@.len() && 0 <= a < n && 0 <= b < n && sorted@[i] == indices@[a] && sorted@[j]
                == indices@[b] implies precedes(
            key_of(keys@, indices@[a], dim),
            a,
            key_of(keys@, indices@[b], dim),
            b,
        ) by {
            assert(indices@[order@[i] as int] == indices@[a]);
            assert(order@[i] as int == a);
            assert(indices@[order@[j] as int] == indices@[b]);
            assert(order@[j] as int == b);
            assert(precedes(kv@[order@[i] as int], order@[i] as int, kv@[order@[j] as int], order@[j] as int));
        }
        assert(sorted_stably(keys@, dim, indices@, sorted@));
    }
    (l, r)
}

/// Builds the subtree for `indices` at the end of `nodes` and returns its root.
fn build_node<F: Fn(&Vec<usize>) -> usize>(
    nodes: &mut Vec<TreeNode>,
    keys: &Vec<Vec<u64>>,
    n_features: usize,
    leaf_size: usize,
    rule: SplitRule,
    choose_dim: &F,
    indices: Vec<usize>,
) -> (t: usize)
    requires
        leaf_size > 0 || indices.len() == 0,
        n_features > 0 || indices.len() <= leaf_size,
        indices@.no_duplicates(),
        forall|j: int| 0 <= j < indices.len() ==> #[trigger] indices@[j] < keys.len(),
        forall|i: int| 0 <= i < keys.len() ==> (#[trigger] keys@[i]).len() == n_features,
        forall|s: &Vec<usize>| s@.len() > leaf_size ==> #[trigger] choose_dim.requires((s,)),
        n_features > 0 ==> forall|s: &Vec<usize>, d: usize| #[trigger] choose_dim.ensures((s,), d) ==> d < n_features,
    ensures
        t == old(nodes).len(),
        final(nodes).len() > t,
        forall|i: int| 0 <= i < t ==> final(nodes)@[i] == old(nodes)@[i],
        subtree_ok(final(nodes)@, t as int, final(nodes).len() as int, leaf_size as nat),
        same_members(covered(final(nodes)@, t as int, final(nodes).len() as int), indices@),
        splits_ordered(final(nodes)@, keys@, rule, t as int, final(nodes).len() as int),
        dims_chosen(final(nodes)@, *choose_dim, t as int, final(nodes).len() as int),
        final(nodes)@[t as int].members@ == indices,
        layout_ok(final(nodes)@, keys@, rule, t as int, final(nodes).len() as int),
    decreases indices.len(),
{
    let t = nodes.len();
    if indices.len() <= leaf_size {
        let ghost ix: Vec<usize> = indices;
        nodes.push(TreeNode { split_dim: None, split_key: None, left: None, right: None, indices, members: Ghost(ix) });
        proof {
            assert(nodes@[t as int].indices@ == ix@);
        }
        return t;
    }
    let ghost ix_vec: Vec<usize> = indices;
    let dim = choose_dim(&indices);
    assert(choose_dim.ensures((&ix_vec,), dim));
    let (key, left, right) = match rule {
        SplitRule::Median => {
            let (k, l, r) = split_median(keys, n_features, &indices, dim);
            proof {
                assert(median_split_ok(keys@, dim, k, l@, r@));
                assert(is_median_key(keys@, dim, indices@, k));
                assert((l@, r@) == median_split(keys@, dim, k, indices@));
                lemma_same_members_set(l@ + r@, indices@);
                assert(keys_below(keys@, dim, l@ + r@, k) == keys_below(keys@, dim, indices@, k));
                assert(keys_at_most(keys@, dim, l@ + r@, k) == keys_at_most(keys@, dim, indices@, k));
                assert(is_median_key(keys@, dim, l@ + r@, k));
            }
            (Some(k), l, r)
        },
        SplitRule::SortedHalves => {
            let (l, r) = split_sorted(keys, n_features, &indices, dim);
            proof {
                assert(halves_ordered(keys@, dim, l@, r@));
                lemma_same_members_set(l@ + r@, indices@);
            }
            (None, l, r)
        },
    };
    proof {
        lemma_concat_parts(left@, right@);
        lemma_concat_members(left@, right@);
        assert forall|j: int| 0 <= j < left.len() implies #[trigger] left@[j] < keys.len() by {
            assert(left@.contains(left@[j]));
            assert((left@ + right@).contains(left@[j]));
            assert(indices@.contains(left@[j]));
        }
        assert forall|j: int| 0 <= j < right.len() implies #[trigger] right@[j] < keys.len() by {
            assert(right@.contains(right@[j]));
            assert((left@ + right@).contains(right@[j]));
            assert(indices@.contains(right@[j]));
        }
    }
    let ghost lv = left@;
    let ghost rv = right@;
    nodes.push(
        TreeNode {
            split_dim: Some(dim),
            split_key: key,
            left: None,
            right: None,
            indices: Vec::new(),
            members: Ghost(ix_vec),
        },
    );
    let ghost nodes0 = nodes@;
    let ghost placeholder = nodes@[t as int];
    assert(split_ok(rule, keys@, placeholder, lv, rv));
    assert(split_exact(rule, keys@, placeholder, indices@, lv, rv));
    let lt = build_node(nodes, keys, n_features, leaf_size, rule, choose_dim, left);
    let m = nodes.len();
    let ghost nodes1 = nodes@;
    let rt = build_node(nodes, keys, n_features, leaf_size, rule, choose_dim, right);
    let end = nodes.len();
    let ghost nodes2 = nodes@;
    proof {
        lemma_frame(nodes1, nodes2, lt as int, m as int, leaf_size as nat);
        lemma_frame_splits(nodes1, nodes2, keys@, rule, lt as int, m as int, leaf_size as nat);
        lemma_frame_dims(nodes1, nodes2, *choose_dim, lt as int, m as int, leaf_size as nat);
        lemma_frame_layout(nodes1, nodes2, keys@, rule, lt as int, m as int, leaf_size as nat);
        assert(nodes2[lt as int] == nodes1[lt as int]);
    }
    nodes.set(
        t,
        TreeNode {
            split_dim: Some(dim),
            split_key: key,
            left: Some(lt),
            right: Some(rt),
            indices: Vec::new(),
            members: Ghost(ix_vec),
        },
    );
    proof {
        let nodes3 = nodes@;
        lemma_frame(nodes2, nodes3, lt as int, m as int, leaf_size as nat);
        lemma_frame(nodes2, nodes3, rt as int, end as int, leaf_size as nat);
        assert(nodes3[t as int].left == Some(lt));
        assert(lt == t + 1);
        assert(rt == m);
        assert(subtree_ok(nodes3, t as int, end as int, leaf_size as nat));
        let cl = covered(nodes3, lt as int, m as int);
        let cr = covered(nodes3, rt as int, end as int);
        assert(covered(nodes3, t as int, end as int) == cl + cr);
        lemma_concat_members(cl, cr);
        assert forall|i: int, j: int| 0 <= i < cl.len() && 0 <= j < cr.len() implies cl[i] != cr[j] by {
            assert(cl.contains(cl[i]));
            assert(cr.contains(cr[j]));
            assert(lv.contains(cl[i]));
            assert(rv.contains(cr[j]));
            let a = choose|a: int| 0 <= a < lv.len() && lv[a] == cl[i];
            let b = choose|b: int| 0 <= b < rv.len() && rv[b] == cr[j];
        }
        vstd::seq_lib::lemma_no_dup_in_concat(cl, cr);
        assert forall|y: usize| (cl + cr).contains(y) <==> indices@.contains(y) by {
            assert((lv + rv).contains(y) <==> indices@.contains(y));
            assert((lv + rv).contains(y) <==> (lv.contains(y) || rv.contains(y)));
            assert(cl.contains(y) <==> lv.contains(y));
            assert(cr.contains(y) <==> rv.contains(y));
            assert((cl + cr).contains(y) <==> (cl.contains(y) || cr.contains(y)));
        }
        lemma_frame_splits(nodes2, nodes3, keys@, rule, lt as int, m as int, leaf_size as nat);
        lemma_frame_splits(nodes2, nodes3, keys@, rule, rt as int, end as int, leaf_size as nat);
        lemma_same_members_set(cl + cr, indices@);
        lemma_same_members_set(lv + rv, indices@);
        lemma_concat_parts(cl, cr);
        lemma_concat_parts(lv, rv);
        lemma_same_members_set(cl, lv);
        lemma_same_members_set(cr, rv);
        lemma_split_members(rule, keys@, placeholder, lv, rv, cl, cr);
        assert(split_ok(rule, keys@, nodes3[t as int], cl, cr));
        assert(splits_ordered(nodes3, keys@, rule, t as int, end as int));
        lemma_frame_dims(nodes2, nodes3, *choose_dim, lt as int, m as int, leaf_size as nat);
        lemma_frame_dims(nodes2, nodes3, *choose_dim, rt as int, end as int, leaf_size as nat);
        assert(nodes3[t as int].members@ == ix_vec);
        assert(dims_chosen(nodes3, *choose_dim, t as int, end as int));
        lemma_frame_layout(nodes2, nodes3, keys@, rule, lt as int, m as int, leaf_size as nat);
        lemma_frame_layout(nodes2, nodes3, keys@, rule, rt as int, end as int, leaf_size as nat);
        assert(nodes3[lt as int].members@@ == lv);
        assert(nodes3[rt as int].members@@ == rv);
        assert(split_exact(rule, keys@, nodes3[t as int], ix_vec@, lv, rv));
        assert(layout_ok(nodes3, keys@, rule, t as int, end as int));
        assert forall|i: int| 0 <= i < t implies nodes3[i] == old(nodes)@[i] by {
            assert(nodes0[i] == old(nodes)@[i]);
        }
    }
    t
}

/// The leaf layout of a search tree over samples `0..keys.len()`, built top-down in
/// preorder. `keys[i][d]` is an order key of sample `i` on feature `d` (a smaller
/// key is a smaller value); `choose_dim` picks the split feature of a node from the
/// samples it holds; nodes with at most `leaf_size` samples become leaves. The root
/// is built from the samples in increasing order, and each node hands its samples
/// to its children as `rule` prescribes (`layout_ok`), so the whole layout is
/// determined by the keys and the features `choose_dim` picks. `choose_dim` need
/// only accept sample lists longer than `leaf_size`: it is never asked about a leaf.
pub fn build_tree<F: Fn(&Vec<usize>) -> usize>(
    keys: &Vec<Vec<u64>>,
    n_features: usize,
    leaf_size: usize,
    rule: SplitRule,
    choose_dim: F,
) -> (nodes: Vec<TreeNode>)
    requires
        leaf_size > 0 || keys.len() == 0,
        n_features > 0 || keys.len() <= leaf_size,
        forall|i: int| 0 <= i < keys.len() ==> (#[trigger] keys@[i]).len() == n_features,
        forall|s: &Vec<usize>| s@.len() > leaf_size ==> #[trigger] choose_dim.requires((s,)),
        n_features > 0 ==> forall|s: &Vec<usize>, d: usize| #[trigger] choose_dim.ensures((s,), d) ==> d < n_features,
    ensures
        nodes.len() >= 1,
        subtree_ok(nodes@, 0, nodes.len() as int, leaf_size as nat),
        covered(nodes@, 0, nodes.len() as int).no_duplicates(),
        forall|x: usize| #[trigger] covered(nodes@, 0, nodes.len() as int).contains(x) <==> x < keys.len(),
        splits_ordered(nodes@, keys@, rule, 0, nodes.len() as int),
        dims_chosen(nodes@, choose_dim, 0, nodes.len() as int),
        nodes@[0].members@@ == Seq::new(keys.len() as nat, |i: int| i as usize),
        layout_ok(nodes@, keys@, rule, 0, nodes.len() as int),
{
    let n = keys.len();
    let mut all: Vec<usize> = Vec::new();
    let mut i: usize = 0;
    while i < n
        invariant
            i <= n,
            all@ == Seq::new(i as nat, |t: int| t as usize),
        decreases n - i,
    {
        all.push(i);
        i = i + 1;
        assert(all@ =~= Seq::new(i as nat, |t: int| t as usize));
    }
    assert forall|x: usize| all@.contains(x) <==> x < n by {
        if x < n {
            assert(all@[x as int] == x);
        }
    }
    let mut nodes: Vec<TreeNode> = Vec::new();
    let root = build_node(&mut nodes, keys, n_features, leaf_size, rule, &choose_dim, all);
    nodes
}

} // verus!
