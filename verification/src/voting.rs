use vstd::prelude::*;
use crate::arrays::{grid_dim, grid_get, label_seq, labels_get, labels_len, neighbor_rows, Labels, NeighborIndices};

verus! {

/// Number of occurrences of `c` in `s`.
pub open spec fn count_label(s: Seq<i64>, c: i64) -> nat
    decreases s.len(),
{
    if s.len() == 0 {
        0
    } else {
        count_label(s.drop_last(), c) + if s.last() == c { 1nat } else { 0nat }
    }
}

/// `c` wins the vote among `s`: it occurs in `s`, no label occurs more often, and
/// every label that occurs as often is not smaller than `c`.
pub open spec fn is_majority(s: Seq<i64>, c: i64) -> bool {
    &&& s.contains(c)
    &&& forall|d: i64| #[trigger] count_label(s, d) <= count_label(s, c)
    &&& forall|d: i64| #[trigger] count_label(s, d) == count_label(s, c) ==> c <= d
}

/// The labels of the neighbors listed in `row`.
pub open spec fn labels_of(row: Seq<usize>, y: Seq<i64>) -> Seq<i64> {
    row.map_values(|ix: usize| y[ix as int])
}

/// Every entry of every row indexes into `y`.
pub open spec fn rows_index_into(rows: Seq<Seq<usize>>, n: nat) -> bool {
    forall|i: int, j: int| 0 <= i < rows.len() && 0 <= j < rows[i].len() ==> #[trigger] rows[i][j] < n
}

/// Strictly increasing, hence without repetition.
pub open spec fn strictly_increasing(s: Seq<i64>) -> bool {
    forall|i: int, j: int| 0 <= i < j < s.len() ==> s[i] < s[j]
}

pub(crate) proof fn lemma_count_push(s: Seq<i64>, x: i64, c: i64)
    ensures
        count_label(s.push(x), c) == count_label(s, c) + if x == c { 1nat } else { 0nat },
{
    assert(s.push(x).drop_last() =~= s);
}

proof fn lemma_count_positive(s: Seq<i64>, c: i64)
    requires
        s.contains(c),
    ensures
        count_label(s, c) >= 1,
    decreases s.len(),
{
    if s.last() != c {
        let i = choose|i: int| 0 <= i < s.len() && s[i] == c;
        assert(s.drop_last()[i] == c);
        lemma_count_positive(s.drop_last(), c);
    }
}

proof fn lemma_count_absent(s: Seq<i64>, c: i64)
    requires
        !s.contains(c),
    ensures
        count_label(s, c) == 0,
    decreases s.len(),
{
    if s.len() > 0 {
        assert(s.last() == s[s.len() - 1]);
        assert forall|i: int| 0 <= i < s.drop_last().len() implies s.drop_last()[i] != c by {
            assert(s.drop_last()[i] == s[i]);
        }
        lemma_count_absent(s.drop_last(), c);
    }
}

/// Counts how often `c` occurs in `s`.
fn count_in(s: &Vec<i64>, c: i64) -> (n: usize)
    ensures
        n == count_label(s@, c),
{
    let mut n: usize = 0;
    let mut j: usize = 0;
    while j < s.len()
        invariant
            j <= s.len(),
            n == count_label(s@.take(j as int), c),
            n <= j,
        decreases s.len() - j,
    {
        proof {
            lemma_count_push(s@.take(j as int), s@[j as int], c);
            assert(s@.take(j as int).push(s@[j as int]) =~= s@.take(j + 1));
        }
        if s[j] == c {
            n = n + 1;
        }
        j = j + 1;
    }
    assert(s@.take(s.len() as int) =~= s@);
    n
}

/// The majority label among `s`, ties going to the smallest label.
pub fn majority_vote(s: &Vec<i64>) -> (c: i64)
    requires
        s.len() > 0,
    ensures
        is_majority(s@, c),
{
    let mut best = s[0];
    let mut best_count = count_in(s, best);
    let mut j: usize = 1;
    while j < s.len()
        invariant
            1 <= j <= s.len(),
            s@.contains(best),
            best_count == count_label(s@, best),
            forall|i: int| 0 <= i < j ==> count_label(s@, #[trigger] s@[i]) < best_count
                || (count_label(s@, s@[i]) == best_count && best <= s@[i]),
        decreases s.len() - j,
    {
        let cand = s[j];
        let cnt = count_in(s, cand);
        if cnt > best_count || (cnt == best_count && cand < best) {
            best = cand;
            best_count = cnt;
        }
        j = j + 1;
    }
    proof {
        assert forall|d: i64| #[trigger] count_label(s@, d) <= count_label(s@, best) && (count_label(
            s@,
            d,
        ) == count_label(s@, best) ==> best <= d) by {
            if s@.contains(d) {
                let i = choose|i: int| 0 <= i < s@.len() && s@[i] == d;
                assert(count_label(s@, s@[i]) < best_count || (count_label(s@, s@[i]) == best_count
                    && best <= s@[i]));
            } else {
                lemma_count_absent(s@, d);
                lemma_count_positive(s@, best);
            }
        }
    }
    best
}

/// The labels of the neighbors in row `i` of `indices`.
fn row_labels(indices: &NeighborIndices, ncols: usize, i: usize, y_train: &Labels) -> (r: Vec<i64>)
    requires
        i < neighbor_rows(*indices).len(),
        neighbor_rows(*indices)[i as int].len() == ncols,
        rows_index_into(neighbor_rows(*indices), label_seq(*y_train).len()),
    ensures
        r@ == labels_of(neighbor_rows(*indices)[i as int], label_seq(*y_train)),
{
    let ghost row = neighbor_rows(*indices)[i as int];
    let ghost y = label_seq(*y_train);
    let mut r: Vec<i64> = Vec::new();
    let mut j: usize = 0;
    while j < ncols
        invariant
            j <= ncols,
            i < neighbor_rows(*indices).len(),
            row == neighbor_rows(*indices)[i as int],
            y == label_seq(*y_train),
            row.len() == ncols,
            rows_index_into(neighbor_rows(*indices), y.len()),
            r@ == labels_of(row, y).take(j as int),
        decreases ncols - j,
    {
        let ix = grid_get(indices, i, j);
        assert(row[j as int] < y.len());
        let lab = labels_get(y_train, ix);
        r.push(lab);
        j = j + 1;
        assert(r@ =~= labels_of(row, y).take(j as int));
    }
    assert(labels_of(row, y).take(ncols as int) =~= labels_of(row, y));
    r
}

/// Predicts one label per query row by a uniform vote of its neighbors' labels:
/// the most frequent label wins, ties going to the smallest label.
pub fn predict_uniform(indices: &NeighborIndices, y_train: &Labels) -> (pred: Vec<i64>)
    requires
        forall|i: int| 0 <= i < neighbor_rows(*indices).len() ==> #[trigger] neighbor_rows(
            *indices,
        )[i].len() > 0,
        rows_index_into(neighbor_rows(*indices), label_seq(*y_train).len()),
    ensures
        pred.len() == neighbor_rows(*indices).len(),
        forall|i: int| 0 <= i < pred.len() ==> is_majority(
            labels_of(neighbor_rows(*indices)[i], label_seq(*y_train)),
            #[trigger] pred@[i],
        ),
{
    let (nrows, ncols) = grid_dim(indices);
    let mut pred: Vec<i64> = Vec::new();
    let mut i: usize = 0;
    while i < nrows
        invariant
            i <= nrows,
            nrows == neighbor_rows(*indices).len(),
            forall|r: int| 0 <= r < nrows ==> #[trigger] neighbor_rows(*indices)[r].len() == ncols,
            forall|r: int| 0 <= r < nrows ==> #[trigger] neighbor_rows(*indices)[r].len() > 0,
            rows_index_into(neighbor_rows(*indices), label_seq(*y_train).len()),
            pred.len() == i,
            forall|r: int| 0 <= r < i ==> is_majority(
                labels_of(neighbor_rows(*indices)[r], label_seq(*y_train)),
                #[trigger] pred@[r],
            ),
        decreases nrows - i,
    {
        let labs = row_labels(indices, ncols, i, y_train);
        assert(neighbor_rows(*indices)[i as int].len() > 0);
        let c = majority_vote(&labs);
        pred.push(c);
        i = i + 1;
    }
    pred
}


/// Inserts `x` into the strictly increasing `r` unless it is already there.
fn insert_sorted_unique(r: &mut Vec<i64>, x: i64)
    requires
        strictly_increasing(old(r)@),
    ensures
        strictly_increasing(final(r)@),
        forall|v: i64| final(r)@.contains(v) <==> (old(r)@.contains(v) || v == x),
{
    let mut p: usize = 0;
    while p < r.len() && r[p] < x
        invariant
            p <= r.len(),
            r@ == old(r)@,
            forall|t: int| 0 <= t < p ==> r@[t] < x,
        decreases r.len() - p,
    {
        p = p + 1;
    }
    if p < r.len() && r[p] == x {
        assert(r@[p as int] == x);
        assert(r@.contains(x));
        assert(r@ == old(r)@);
        assert(forall|v: i64| r@.contains(v) <==> (old(r)@.contains(v) || v == x));
        return;
    }
    let ghost before = r@;
    assert(before == old(r)@);
    r.insert(p, x);
    assert(r@ =~= before.take(p as int).push(x) + before.skip(p as int));
    assert forall|v: i64| r@.contains(v) <==> (before.contains(v) || v == x) by {
        if r@.contains(v) {
            let t = choose|t: int| 0 <= t < r@.len() && r@[t] == v;
            if t < p {
                assert(before[t] == v);
            } else if t > p {
                assert(before[t - 1] == v);
            }
        }
        if before.contains(v) {
            let t = choose|t: int| 0 <= t < before.len() && before[t] == v;
            if t < p {
                assert(r@[t] == v);
            } else {
                assert(r@[t + 1] == v);
            }
        }
        if v == x {
            assert(r@[p as int] == v);
        }
    }
    assert(forall|v: i64| r@.contains(v) <==> (old(r)@.contains(v) || v == x));
}

/// The distinct labels of `y`, in increasing order.
pub fn unique_classes(y: &Labels) -> (classes: Vec<i64>)
    ensures
        strictly_increasing(classes@),
        forall|v: i64| classes@.contains(v) <==> label_seq(*y).contains(v),
{
    let n = labels_len(y);
    let ghost ys = label_seq(*y);
    let mut classes: Vec<i64> = Vec::new();
    let mut j: usize = 0;
    while j < n
        invariant
            j <= n,
            n == ys.len(),
            ys == label_seq(*y),
            strictly_increasing(classes@),
            forall|v: i64| classes@.contains(v) <==> ys.take(j as int).contains(v),
        decreases n - j,
    {
        let x = labels_get(y, j);
        insert_sorted_unique(&mut classes, x);
        proof {
            let pre = ys.take(j as int);
            let post = ys.take(j + 1);
            assert(post =~= pre.push(x));
            assert forall|v: i64| post.contains(v) <==> (pre.contains(v) || v == x) by {
                if post.contains(v) && v != x {
                    let t = choose|t: int| 0 <= t < post.len() && post[t] == v;
                    assert(t < pre.len());
                    assert(pre[t] == v);
                }
                if pre.contains(v) {
                    let t = choose|t: int| 0 <= t < pre.len() && pre[t] == v;
                    assert(post[t] == v);
                }
                if v == x {
                    assert(post[pre.len() as int] == v);
                }
            }
        }
        j = j + 1;
    }
    assert(ys.take(n as int) =~= ys);
    classes
}

/// The position of `label` in `classes` (the last one if it occurs more than once),
/// or -1 when it does not occur.
pub open spec fn class_slot(classes: Seq<i64>, label: i64) -> int
    decreases classes.len(),
{
    if classes.len() == 0 {
        -1
    } else if classes.last() == label {
        classes.len() - 1
    } else {
        class_slot(classes.drop_last(), label)
    }
}

/// How many of `labels` fall into slot `c` of `classes`.
pub open spec fn slot_votes(labels: Seq<i64>, classes: Seq<i64>, c: int) -> nat
    decreases labels.len(),
{
    if labels.len() == 0 {
        0
    } else {
        slot_votes(labels.drop_last(), classes, c) + if class_slot(classes, labels.last()) == c {
            1nat
        } else {
            0nat
        }
    }
}

/// Sum of the entries.
pub open spec fn total(s: Seq<usize>) -> nat
    decreases s.len(),
{
    if s.len() == 0 {
        0
    } else {
        total(s.drop_last()) + s.last() as nat
    }
}

proof fn lemma_class_slot_range(classes: Seq<i64>, label: i64)
    ensures
        -1 <= class_slot(classes, label) < classes.len(),
        classes.contains(label) ==> class_slot(classes, label) >= 0,
        class_slot(classes, label) >= 0 ==> classes[class_slot(classes, label)] == label,
    decreases classes.len(),
{
    if classes.len() > 0 {
        lemma_class_slot_range(classes.drop_last(), label);
        if classes.contains(label) && classes.last() != label {
            let t = choose|t: int| 0 <= t < classes.len() && classes[t] == label;
            assert(t != classes.len() - 1);
            assert(classes.drop_last()[t] == label);
        }
    }
}

pub(crate) proof fn lemma_total_bump(s: Seq<usize>, c: int)
    requires
        0 <= c < s.len(),
        s[c] < usize::MAX,
    ensures
        total(s.update(c, (s[c] + 1) as usize)) == total(s) + 1,
    decreases s.len(),
{
    let t = s.update(c, (s[c] + 1) as usize);
    if c == s.len() - 1 {
        assert(t.drop_last() =~= s.drop_last());
    } else {
        assert(t.drop_last() =~= s.drop_last().update(c, (s[c] + 1) as usize));
        lemma_total_bump(s.drop_last(), c);
    }
}

pub(crate) proof fn lemma_total_zeros(n: nat)
    ensures
        total(Seq::new(n, |i: int| 0usize)) == 0,
    decreases n,
{
    if n > 0 {
        assert(Seq::new(n, |i: int| 0usize).drop_last() =~= Seq::new((n - 1) as nat, |i: int| 0usize));
        lemma_total_zeros((n - 1) as nat);
    }
}

proof fn lemma_slot_votes_push(labels: Seq<i64>, x: i64, classes: Seq<i64>, c: int)
    ensures
        slot_votes(labels.push(x), classes, c) == slot_votes(labels, classes, c) + if class_slot(
            classes,
            x,
        ) == c {
            1nat
        } else {
            0nat
        },
{
    assert(labels.push(x).drop_last() =~= labels);
}

proof fn lemma_slot_votes_bound(labels: Seq<i64>, classes: Seq<i64>, c: int)
    ensures
        slot_votes(labels, classes, c) <= labels.len(),
    decreases labels.len(),
{
    if labels.len() > 0 {
        lemma_slot_votes_bound(labels.drop_last(), classes, c);
    }
}

/// The slot of `label` in `classes`, searching from the end.
fn find_slot(classes: &Vec<i64>, label: i64) -> (c: usize)
    requires
        classes@.contains(label),
    ensures
        c as int == class_slot(classes@, label),
        c < classes.len(),
{
    proof {
        lemma_class_slot_range(classes@, label);
    }
    let mut t: usize = classes.len();
    assert(classes@.take(t as int) =~= classes@);
    while t > 0
        invariant
            t <= classes.len(),
            class_slot(classes@, label) == class_slot(classes@.take(t as int), label),
            class_slot(classes@, label) >= 0,
        decreases t,
    {
        assert(classes@.take(t as int).drop_last() =~= classes@.take(t - 1));
        if classes[t - 1] == label {
            return t - 1;
        }
        t = t - 1;
    }
    assert(classes@.take(0) =~= Seq::<i64>::empty());
    0
}

/// Votes of one row: entry `c` counts the neighbors whose label falls into slot `c`.
fn row_votes(labels: &Vec<i64>, classes: &Vec<i64>) -> (votes: Vec<usize>)
    requires
        forall|j: int| 0 <= j < labels.len() ==> classes@.contains(#[trigger] labels@[j]),
    ensures
        votes.len() == classes.len(),
        forall|c: int| 0 <= c < votes.len() ==> #[trigger] votes@[c] == slot_votes(labels@, classes@, c),
        total(votes@) == labels.len(),
{
    let mut votes: Vec<usize> = Vec::new();
    let mut c: usize = 0;
    while c < classes.len()
        invariant
            c <= classes.len(),
            votes@ == Seq::new(c as nat, |i: int| 0usize),
        decreases classes.len() - c,
    {
        votes.push(0);
        c = c + 1;
        assert(votes@ =~= Seq::new(c as nat, |i: int| 0usize));
    }
    proof {
        lemma_total_zeros(classes.len() as nat);
    }
    let mut j: usize = 0;
    while j < labels.len()
        invariant
            j <= labels.len(),
            votes.len() == classes.len(),
            forall|j2: int| 0 <= j2 < labels.len() ==> classes@.contains(#[trigger] labels@[j2]),
            forall|c2: int| 0 <= c2 < votes.len() ==> #[trigger] votes@[c2] == slot_votes(
                labels@.take(j as int),
                classes@,
                c2,
            ),
            total(votes@) == j,
        decreases labels.len() - j,
    {
        let x = labels[j];
        let slot = find_slot(classes, x);
        proof {
            lemma_slot_votes_bound(labels@.take(j as int), classes@, slot as int);
            assert(labels@.take(j + 1) =~= labels@.take(j as int).push(x));
            assert forall|c2: int| 0 <= c2 < votes.len() implies slot_votes(
                labels@.take(j + 1),
                classes@,
                c2,
            ) == slot_votes(labels@.take(j as int), classes@, c2) + if c2 == slot {
                1nat
            } else {
                0nat
            } by {
                lemma_slot_votes_push(labels@.take(j as int), x, classes@, c2);
            }
            lemma_total_bump(votes@, slot as int);
        }
        let v = votes[slot];
        votes.set(slot, v + 1);
        j = j + 1;
    }
    assert(labels@.take(labels.len() as int) =~= labels@);
    votes
}

/// Per query row, the number of neighbors of each class: entry `[i][c]` counts the
/// neighbors in row `i` whose label falls into slot `c` of `classes`. Each row's
/// votes add up to the number of neighbors.
pub fn class_vote_counts(indices: &NeighborIndices, y_train: &Labels, classes: &Vec<i64>) -> (votes:
    Vec<Vec<usize>>)
    requires
        rows_index_into(neighbor_rows(*indices), label_seq(*y_train).len()),
        forall|i: int, j: int|
            0 <= i < neighbor_rows(*indices).len() && 0 <= j < neighbor_rows(*indices)[i].len()
                ==> classes@.contains(
                #[trigger] label_seq(*y_train)[neighbor_rows(*indices)[i][j] as int],
            ),
    ensures
        votes.len() == neighbor_rows(*indices).len(),
        forall|i: int| 0 <= i < votes.len() ==> (#[trigger] votes@[i]).len() == classes.len(),
        forall|i: int, c: int|
            0 <= i < votes.len() && 0 <= c < classes.len() ==> #[trigger] votes@[i]@[c]
                == slot_votes(labels_of(neighbor_rows(*indices)[i], label_seq(*y_train)), classes@, c),
        forall|i: int| 0 <= i < votes.len() ==> total(#[trigger] votes@[i]@) == neighbor_rows(
            *indices,
        )[i].len(),
{
    let (nrows, ncols) = grid_dim(indices);
    let mut votes: Vec<Vec<usize>> = Vec::new();
    let mut i: usize = 0;
    while i < nrows
        invariant
            i <= nrows,
            nrows == neighbor_rows(*indices).len(),
            forall|r: int| 0 <= r < nrows ==> #[trigger] neighbor_rows(*indices)[r].len() == ncols,
            rows_index_into(neighbor_rows(*indices), label_seq(*y_train).len()),
            forall|r: int, j: int|
                0 <= r < neighbor_rows(*indices).len() && 0 <= j < neighbor_rows(*indices)[r].len()
                    ==> classes@.contains(
                    #[trigger] label_seq(*y_train)[neighbor_rows(*indices)[r][j] as int],
                ),
            votes.len() == i,
            forall|r: int| 0 <= r < i ==> (#[trigger] votes@[r]).len() == classes.len(),
            forall|r: int, c: int|
                0 <= r < i && 0 <= c < classes.len() ==> #[trigger] votes@[r]@[c] == slot_votes(
                    labels_of(neighbor_rows(*indices)[r], label_seq(*y_train)),
                    classes@,
                    c,
                ),
            forall|r: int| 0 <= r < i ==> total(#[trigger] votes@[r]@) == neighbor_rows(
                *indices,
            )[r].len(),
        decreases nrows - i,
    {
        let labs = row_labels(indices, ncols, i, y_train);
        assert forall|j: int| 0 <= j < labs.len() implies classes@.contains(#[trigger] labs@[j]) by {
            assert(labs@[j] == label_seq(*y_train)[neighbor_rows(*indices)[i as int][j] as int]);
        }
        let row = row_votes(&labs, classes);
        votes.push(row);
        i = i + 1;
    }
    votes
}

/// Whether every neighbor index in `indices` is below `n`.
fn neighbors_within(indices: &NeighborIndices, n: usize) -> (ok: bool)
    ensures
        ok == rows_index_into(neighbor_rows(*indices), n as nat),
{
    let (nrows, ncols) = grid_dim(indices);
    let ghost rows = neighbor_rows(*indices);
    let mut i: usize = 0;
    while i < nrows
        invariant
            i <= nrows,
            rows == neighbor_rows(*indices),
            nrows == rows.len(),
            forall|r: int| 0 <= r < nrows ==> #[trigger] rows[r].len() == ncols,
            forall|r: int, t: int| 0 <= r < i && 0 <= t < rows[r].len() ==> #[trigger] rows[r][t] < n,
        decreases nrows - i,
    {
        let mut j: usize = 0;
        while j < ncols
            invariant
                j <= ncols,
                i < nrows,
                rows == neighbor_rows(*indices),
                nrows == rows.len(),
                forall|r: int| 0 <= r < nrows ==> #[trigger] rows[r].len() == ncols,
                forall|r: int, t: int| 0 <= r < i && 0 <= t < rows[r].len() ==> #[trigger] rows[r][t] < n,
                forall|t: int| 0 <= t < j ==> #[trigger] rows[i as int][t] < n,
            decreases ncols - j,
        {
            let ix = grid_get(indices, i, j);
            if ix >= n {
                assert(rows[i as int][j as int] >= n);
                return false;
            }
            j = j + 1;
        }
        assert forall|r: int, t: int| 0 <= r < i + 1 && 0 <= t < rows[r].len() implies #[trigger] rows[r][t] < n by {
            if r == i {
                assert(rows[i as int][t] < n);
            }
        }
        i = i + 1;
    }
    true
}

/// Whether `classes` holds `x`.
fn contains_label(classes: &Vec<i64>, x: i64) -> (b: bool)
    ensures
        b == classes@.contains(x),
{
    let mut p: usize = 0;
    while p < classes.len()
        invariant
            p <= classes.len(),
            forall|t: int| 0 <= t < p ==> classes@[t] != x,
        decreases classes.len() - p,
    {
        if classes[p] == x {
            assert(classes@[p as int] == x);
            return true;
        }
        p = p + 1;
    }
    false
}

/// Whether the label of every neighbor in `indices` is one of `classes`.
fn neighbor_labels_in(indices: &NeighborIndices, y_train: &Labels, classes: &Vec<i64>) -> (ok: bool)
    requires
        rows_index_into(neighbor_rows(*indices), label_seq(*y_train).len()),
    ensures
        ok == (forall|i: int, j: int|
            0 <= i < neighbor_rows(*indices).len() && 0 <= j < neighbor_rows(*indices)[i].len()
                ==> classes@.contains(#[trigger] label_seq(*y_train)[neighbor_rows(*indices)[i][j] as int])),
{
    let (nrows, ncols) = grid_dim(indices);
    let ghost rows = neighbor_rows(*indices);
    let ghost y = label_seq(*y_train);
    let mut i: usize = 0;
    while i < nrows
        invariant
            i <= nrows,
            rows == neighbor_rows(*indices),
            y == label_seq(*y_train),
            nrows == rows.len(),
            rows_index_into(rows, y.len()),
            forall|r: int| 0 <= r < nrows ==> #[trigger] rows[r].len() == ncols,
            forall|r: int, t: int|
                0 <= r < i && 0 <= t < rows[r].len() ==> classes@.contains(#[trigger] y[rows[r][t] as int]),
        decreases nrows - i,
    {
        let mut j: usize = 0;
        while j < ncols
            invariant
                j <= ncols,
                i < nrows,
                rows == neighbor_rows(*indices),
                y == label_seq(*y_train),
                nrows == rows.len(),
                rows_index_into(rows, y.len()),
                forall|r: int| 0 <= r < nrows ==> #[trigger] rows[r].len() == ncols,
                forall|r: int, t: int|
                    0 <= r < i && 0 <= t < rows[r].len() ==> classes@.contains(#[trigger] y[rows[r][t] as int]),
                forall|t: int| 0 <= t < j ==> classes@.contains(#[trigger] y[rows[i as int][t] as int]),
            decreases ncols - j,
        {
            let ix = grid_get(indices, i, j);
            assert(rows[i as int][j as int] < y.len());
            let lab = labels_get(y_train, ix);
            if !contains_label(classes, lab) {
                assert(!classes@.contains(y[rows[i as int][j as int] as int]));
                return false;
            }
            j = j + 1;
        }
        assert forall|r: int, t: int| 0 <= r < i + 1 && 0 <= t < rows[r].len() implies classes@.contains(
            #[trigger] y[rows[r][t] as int],
        ) by {
            if r == i {
                assert(classes@.contains(y[rows[i as int][t] as int]));
            }
        }
        i = i + 1;
    }
    true
}

/// `predict_uniform` for neighbor indices and labels of any shape: `None` when some
/// query row has no neighbors or some neighbor index is not a training sample,
/// otherwise the uniform-vote predictions.
pub fn try_predict_uniform(indices: &NeighborIndices, y_train: &Labels) -> (pred: Option<Vec<i64>>)
    ensures
        pred is Some <==> ((forall|i: int| 0 <= i < neighbor_rows(*indices).len() ==> #[trigger] neighbor_rows(
            *indices,
        )[i].len() > 0) && rows_index_into(neighbor_rows(*indices), label_seq(*y_train).len())),
        pred matches Some(p) ==> {
            &&& p.len() == neighbor_rows(*indices).len()
            &&& forall|i: int| 0 <= i < p.len() ==> is_majority(
                labels_of(neighbor_rows(*indices)[i], label_seq(*y_train)),
                #[trigger] p@[i],
            )
        },
{
    let (nrows, ncols) = grid_dim(indices);
    if nrows > 0 && ncols == 0 {
        assert(neighbor_rows(*indices)[0].len() == 0);
        return None;
    }
    let n = labels_len(y_train);
    if !neighbors_within(indices, n) {
        return None;
    }
    Some(predict_uniform(indices, y_train))
}

/// `class_vote_counts` for inputs of any shape: `None` when some neighbor index is
/// not a training sample or some neighbor's label is not one of `classes`,
/// otherwise the per-class vote counts.
pub fn try_class_vote_counts(indices: &NeighborIndices, y_train: &Labels, classes: &Vec<i64>) -> (votes:
    Option<Vec<Vec<usize>>>)
    ensures
        votes is Some <==> (rows_index_into(neighbor_rows(*indices), label_seq(*y_train).len()) && forall|
            i: int,
            j: int,
        |
            0 <= i < neighbor_rows(*indices).len() && 0 <= j < neighbor_rows(*indices)[i].len()
                ==> classes@.contains(
                #[trigger] label_seq(*y_train)[neighbor_rows(*indices)[i][j] as int],
            )),
        votes matches Some(v) ==> {
            &&& v.len() == neighbor_rows(*indices).len()
            &&& forall|i: int| 0 <= i < v.len() ==> (#[trigger] v@[i]).len() == classes.len()
            &&& forall|i: int, c: int|
                0 <= i < v.len() && 0 <= c < classes.len() ==> #[trigger] v@[i]@[c] == slot_votes(
                    labels_of(neighbor_rows(*indices)[i], label_seq(*y_train)),
                    classes@,
                    c,
                )
            &&& forall|i: int| 0 <= i < v.len() ==> total(#[trigger] v@[i]@) == neighbor_rows(*indices)[i].len()
        },
{
    let n = labels_len(y_train);
    if !neighbors_within(indices, n) {
        return None;
    }
    if !neighbor_labels_in(indices, y_train, classes) {
        return None;
    }
    Some(class_vote_counts(indices, y_train, classes))
}

/// In a strictly increasing class list, the slot of class `c` is `c`.
proof fn lemma_slot_of_class(classes: Seq<i64>, c: int)
    requires
        strictly_increasing(classes),
        0 <= c < classes.len(),
    ensures
        class_slot(classes, classes[c]) == c,
    decreases classes.len(),
{
    if c < classes.len() - 1 {
        assert(classes.last() != classes[c]);
        let d = classes.drop_last();
        assert(d[c] == classes[c]);
        lemma_slot_of_class(d, c);
    }
}

/// With a strictly increasing class list, slot `c` counts the labels equal to class `c`.
proof fn lemma_slot_votes_count(labels: Seq<i64>, classes: Seq<i64>, c: int)
    requires
        strictly_increasing(classes),
        0 <= c < classes.len(),
    ensures
        slot_votes(labels, classes, c) == count_label(labels, classes[c]),
    decreases labels.len(),
{
    if labels.len() > 0 {
        let x = labels.last();
        lemma_slot_votes_count(labels.drop_last(), classes, c);
        lemma_class_slot_range(classes, x);
        lemma_slot_of_class(classes, c);
        assert((class_slot(classes, x) == c) == (x == classes[c]));
    }
}

/// Uniform voting and class votes agree: with the classes in increasing order and
/// every neighbor's label among them, slot `c` counts the neighbors of class `c`,
/// and the uniform-vote winner is the class with the most votes, the first such
/// class in class order.
pub proof fn lemma_uniform_vote_is_first_top_slot(labels: Seq<i64>, classes: Seq<i64>, p: i64)
    requires
        strictly_increasing(classes),
        forall|j: int| 0 <= j < labels.len() ==> classes.contains(#[trigger] labels[j]),
        is_majority(labels, p),
    ensures
        forall|c: int| 0 <= c < classes.len() ==> #[trigger] slot_votes(labels, classes, c) == count_label(labels, classes[c]),
        0 <= class_slot(classes, p) < classes.len(),
        classes[class_slot(classes, p)] == p,
        forall|c: int| 0 <= c < classes.len() ==> #[trigger] slot_votes(labels, classes, c) <= slot_votes(
            labels,
            classes,
            class_slot(classes, p),
        ),
        forall|c: int| 0 <= c < class_slot(classes, p) ==> #[trigger] slot_votes(labels, classes, c) < slot_votes(
            labels,
            classes,
            class_slot(classes, p),
        ),
{
    assert forall|c: int| 0 <= c < classes.len() implies #[trigger] slot_votes(labels, classes, c) == count_label(
        labels,
        classes[c],
    ) by {
        lemma_slot_votes_count(labels, classes, c);
    }
    let j = choose|j: int| 0 <= j < labels.len() && labels[j] == p;
    assert(classes.contains(labels[j]));
    lemma_class_slot_range(classes, p);
    let s = class_slot(classes, p);
    assert forall|c: int| 0 <= c < classes.len() implies #[trigger] slot_votes(labels, classes, c) <= slot_votes(
        labels,
        classes,
        s,
    ) by {
        lemma_slot_votes_count(labels, classes, c);
        lemma_slot_votes_count(labels, classes, s);
        assert(count_label(labels, classes[c]) <= count_label(labels, p));
    }
    assert forall|c: int| 0 <= c < s implies #[trigger] slot_votes(labels, classes, c) < slot_votes(labels, classes, s) by {
        lemma_slot_votes_count(labels, classes, c);
        lemma_slot_votes_count(labels, classes, s);
        assert(classes[c] < classes[s]);
        assert(count_label(labels, classes[c]) <= count_label(labels, p));
        if count_label(labels, classes[c]) == count_label(labels, p) {
            assert(p <= classes[c]);
        }
    }
}

/// Number of positions, among the first `n`, where `a` and `b` agree.
pub open spec fn agreements(a: Seq<i64>, b: Seq<i64>, n: nat) -> nat
    decreases n,
{
    if n == 0 {
        0
    } else {
        agreements(a, b, (n - 1) as nat) + if a[n - 1] == b[n - 1] { 1nat } else { 0nat }
    }
}

/// The positions below `n` where `a` and `b` hold the same label.
pub open spec fn agreeing_positions(a: Seq<i64>, b: Seq<i64>, n: nat) -> Set<int> {
    Set::new(|i: int| 0 <= i < n && a[i] == b[i])
}

/// Counting agreements counts exactly the positions where the two label sequences
/// hold equal labels: a position counts when, and only when, its labels are equal.
pub proof fn lemma_agreements_are_equal_positions(a: Seq<i64>, b: Seq<i64>, n: nat)
    ensures
        agreeing_positions(a, b, n).finite(),
        agreements(a, b, n) == agreeing_positions(a, b, n).len(),
    decreases n,
{
    if n == 0 {
        assert(agreeing_positions(a, b, 0) =~= Set::<int>::empty());
    } else {
        let m = (n - 1) as nat;
        lemma_agreements_are_equal_positions(a, b, m);
        let prev = agreeing_positions(a, b, m);
        if a[m as int] == b[m as int] {
            assert(agreeing_positions(a, b, n) =~= prev.insert(m as int));
            assert(!prev.contains(m as int));
        } else {
            assert(agreeing_positions(a, b, n) =~= prev);
        }
    }
}

/// Number of positions where the true and the predicted labels agree, over the
/// positions both arrays have.
pub fn count_correct(y_true: &Labels, y_pred: &Labels) -> (n: usize)
    ensures
        n == agreements(
            label_seq(*y_true),
            label_seq(*y_pred),
            if label_seq(*y_true).len() <= label_seq(*y_pred).len() {
                label_seq(*y_true).len()
            } else {
                label_seq(*y_pred).len()
            },
        ),
        n == agreeing_positions(
            label_seq(*y_true),
            label_seq(*y_pred),
            if label_seq(*y_true).len() <= label_seq(*y_pred).len() {
                label_seq(*y_true).len()
            } else {
                label_seq(*y_pred).len()
            },
        ).len(),
{
    let la = labels_len(y_true);
    let lb = labels_len(y_pred);
    let m = if la <= lb { la } else { lb };
    let mut n: usize = 0;
    let mut i: usize = 0;
    while i < m
        invariant
            i <= m,
            m <= la,
            m <= lb,
            la == label_seq(*y_true).len(),
            lb == label_seq(*y_pred).len(),
            n == agreements(label_seq(*y_true), label_seq(*y_pred), i as nat),
            n <= i,
        decreases m - i,
    {
        if labels_get(y_true, i) == labels_get(y_pred, i) {
            n = n + 1;
        }
        i = i + 1;
    }
    proof {
        lemma_agreements_are_equal_positions(label_seq(*y_true), label_seq(*y_pred), m as nat);
    }
    n
}


/// After a fit, the classes hold every training label: then every neighbor's label
/// has a class slot (so class votes count every neighbor), and every uniform-vote
/// prediction is one of the classes.
pub proof fn lemma_fitted_classes_cover(classes: Seq<i64>, y: Seq<i64>, rows: Seq<Seq<usize>>, pred: Seq<i64>)
    requires
        forall|v: i64| classes.contains(v) <==> y.contains(v),
        rows_index_into(rows, y.len()),
        pred.len() == rows.len(),
        forall|i: int| 0 <= i < pred.len() ==> is_majority(labels_of(rows[i], y), #[trigger] pred[i]),
    ensures
        forall|i: int, j: int|
            0 <= i < rows.len() && 0 <= j < rows[i].len() ==> classes.contains(#[trigger] y[rows[i][j] as int]),
        forall|i: int| 0 <= i < pred.len() ==> classes.contains(#[trigger] pred[i]),
{
    assert forall|i: int, j: int| 0 <= i < rows.len() && 0 <= j < rows[i].len() implies classes.contains(
        #[trigger] y[rows[i][j] as int],
    ) by {
        assert(rows[i][j] < y.len());
        assert(y.contains(y[rows[i][j] as int]));
    }
    assert forall|i: int| 0 <= i < pred.len() implies classes.contains(#[trigger] pred[i]) by {
        let labs = labels_of(rows[i], y);
        assert(labs.contains(pred[i]));
        let j = choose|j: int| 0 <= j < labs.len() && labs[j] == pred[i];
        assert(labs[j] == y[rows[i][j] as int]);
        assert(y.contains(y[rows[i][j] as int]));
    }
}

} // verus!
