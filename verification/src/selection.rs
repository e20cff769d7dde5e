use vstd::prelude::*;

verus! {

broadcast use vstd::seq_lib::group_to_multiset_ensures, vstd::multiset::group_multiset_axioms;

/// `(ka, pa)` comes strictly before `(kb, pb)`: a smaller key, or an equal key and an
/// earlier position.
pub open spec fn precedes(ka: u64, pa: int, kb: u64, pb: int) -> bool {
    ka < kb || (ka == kb && pa < pb)
}

pub open spec fn min_nat(a: nat, b: nat) -> nat {
    if a <= b {
        a
    } else {
        b
    }
}

/// A bounded collection of the best (smallest-key) neighbors seen so far, as a
/// nearest-neighbor search keeps them. Keys are order keys: a smaller key is a
/// nearer neighbor.
pub struct NeighborHeap {
    k: usize,
    items: Vec<(usize, u64)>,
    offered_log: Ghost<Seq<(usize, u64)>>,
    positions: Ghost<Seq<int>>,
}

/// Inserting a newly offered pair at position `p` of the kept pairs, after every
/// pair with a key at most its own and before every pair with a larger key, keeps
/// each kept pair tied to the offer it came from and keeps them in order.
proof fn lemma_insert_in_order(
    items: Seq<(usize, u64)>,
    pos: Seq<int>,
    off: Seq<(usize, u64)>,
    p: int,
    entry: (usize, u64),
)
    requires
        items.len() == pos.len(),
        0 <= p <= items.len(),
        forall|i: int| 0 <= i < items.len() ==> 0 <= #[trigger] pos[i] < off.len(),
        forall|i: int| 0 <= i < items.len() ==> off[#[trigger] pos[i]] == items[i],
        forall|i: int, j: int| 0 <= i < j < items.len() ==> precedes(items[i].1, pos[i], items[j].1, pos[j]),
        forall|t: int| 0 <= t < p ==> #[trigger] items[t].1 <= entry.1,
        forall|t: int| p <= t < items.len() ==> #[trigger] items[t].1 > entry.1,
    ensures
        forall|i: int|
            0 <= i < items.len() + 1 ==> 0 <= #[trigger] pos.insert(p, off.len() as int)[i] < off.len() + 1
                && off.push(entry)[pos.insert(p, off.len() as int)[i]] == items.insert(p, entry)[i],
        forall|i: int, j: int|
            0 <= i < j < items.len() + 1 ==> precedes(
                items.insert(p, entry)[i].1,
                pos.insert(p, off.len() as int)[i],
                items.insert(p, entry)[j].1,
                pos.insert(p, off.len() as int)[j],
            ),
{
    let newp = off.len() as int;
    let items1 = items.insert(p, entry);
    let pos1 = pos.insert(p, newp);
    let off1 = off.push(entry);
    pos.insert_ensures(p, newp);
    items.insert_ensures(p, entry);
    assert forall|i: int| 0 <= i < items1.len() implies 0 <= #[trigger] pos1[i] < off1.len() && off1[pos1[i]]
        == items1[i] by {
        if i > p {
            assert(pos1[i] == pos[i - 1]);
            assert(items1[i] == items[i - 1]);
        }
    }
    assert forall|i: int, j: int| 0 <= i < j < items1.len() implies precedes(
        items1[i].1,
        pos1[i],
        items1[j].1,
        pos1[j],
    ) by {
        if j < p {
        } else if j == p {
            assert(items1[i] == items[i]);
        } else if i < p {
            assert(items1[j] == items[j - 1]);
            assert(items1[i] == items[i]);
        } else if i == p {
            assert(items1[j] == items[j - 1]);
        } else {
            assert(items1[j] == items[j - 1]);
            assert(items1[i] == items[i - 1]);
            assert(pos1[i] == pos[i - 1]);
            assert(pos1[j] == pos[j - 1]);
        }
    }
}

impl NeighborHeap {
    /// How many neighbors the heap keeps at most.
    pub closed spec fn capacity(&self) -> nat {
        self.k as nat
    }

    /// Every `(index, key)` pair offered so far, in the order offered.
    pub closed spec fn offered(&self) -> Seq<(usize, u64)> {
        self.offered_log@
    }

    /// The pairs kept, nearest first.
    pub closed spec fn held(&self) -> Seq<(usize, u64)> {
        self.items@
    }

    /// For each kept pair, the position at which it was offered.
    pub closed spec fn held_positions(&self) -> Seq<int> {
        self.positions@
    }

    /// The heap's internal invariant.
    pub closed spec fn wf(&self) -> bool {
        let items = self.items@;
        let pos = self.positions@;
        let offered = self.offered_log@;
        &&& items.len() == pos.len()
        &&& items.len() == min_nat(self.k as nat, offered.len())
        &&& forall|i: int| 0 <= i < items.len() ==> 0 <= #[trigger] pos[i] < offered.len()
        &&& forall|i: int| 0 <= i < items.len() ==> offered[#[trigger] pos[i]] == items[i]
        &&& forall|i: int, j: int|
            0 <= i < j < items.len() ==> precedes(items[i].1, pos[i], items[j].1, pos[j])
        &&& forall|p: int|
            0 <= p < offered.len() && !pos.contains(p) ==> forall|i: int|
                0 <= i < items.len() ==> precedes(
                    items[i].1,
                    pos[i],
                    (#[trigger] offered[p]).1,
                    p,
                )
        &&& items.len() < self.k ==> forall|p: int| 0 <= p < offered.len() ==> pos.contains(p)
    }

    /// An empty heap that keeps at most `k` neighbors.
    pub fn new(k: usize) -> (h: Self)
        ensures
            h.wf(),
            h.capacity() == k,
            h.offered() == Seq::<(usize, u64)>::empty(),
            h.held() == Seq::<(usize, u64)>::empty(),
    {
        NeighborHeap {
            k,
            items: Vec::new(),
            offered_log: Ghost(Seq::empty()),
            positions: Ghost(Seq::empty()),
        }
    }

    /// Number of neighbors kept.
    pub fn len(&self) -> (n: usize)
        ensures
            n == self.held().len(),
    {
        self.items.len()
    }

    /// The key of the farthest kept neighbor, or `None` when the heap is empty.
    pub fn worst_key(&self) -> (w: Option<u64>)
        requires
            self.wf(),
        ensures
            self.held().len() == 0 ==> w is None,
            self.held().len() > 0 ==> w == Some(self.held()[self.held().len() - 1].1),
            forall|i: int| 0 <= i < self.held().len() ==> (w matches Some(m) && #[trigger] self.held()[i].1 <= m),
    {
        let n = self.items.len();
        if n == 0 {
            None
        } else {
            proof {
                assert forall|i: int| 0 <= i < self.held().len() implies #[trigger] self.held()[i].1
                    <= self.items@[n - 1].1 by {
                    if i < n - 1 {
                        assert(precedes(
                            self.items@[i].1,
                            self.positions@[i],
                            self.items@[n - 1].1,
                            self.positions@[n - 1],
                        ));
                    }
                }
            }
            Some(self.items[n - 1].1)
        }
    }

    /// Offers a neighbor. While fewer than `capacity` are kept it is added; otherwise
    /// it replaces the farthest kept neighbor when its key is strictly smaller.
    pub fn offer(&mut self, index: usize, key: u64)
        requires
            old(self).wf(),
        ensures
            final(self).wf(),
            final(self).capacity() == old(self).capacity(),
            final(self).offered() == old(self).offered().push((index, key)),
    {
        let n = self.items.len();
        let ghost items0 = self.items@;
        let ghost pos0 = self.positions@;
        let ghost off0 = self.offered_log@;
        let ghost newp: int = off0.len() as int;
        let mut p: usize = 0;
        while p < n && self.items[p].1 <= key
            invariant
                p <= n,
                n == self.items.len(),
                self.items@ == items0,
                forall|t: int| 0 <= t < p ==> #[trigger] items0[t].1 <= key,
            decreases n - p,
        {
            p = p + 1;
        }
        proof {
            // every kept pair from position p on has a larger key
            assert forall|t: int| p <= t < n implies #[trigger] items0[t].1 > key by {
                if t > p {
                    assert(precedes(items0[p as int].1, pos0[p as int], items0[t].1, pos0[t]));
                }
            }
        }
        let off1 = Ghost(off0.push((index, key)));
        if n < self.k {
            self.items.insert(p, (index, key));
            let pos1 = Ghost(pos0.insert(p as int, newp));
            proof {
                lemma_insert_in_order(items0, pos0, off0, p as int, (index, key));
                let items1 = self.items@;
                assert forall|q: int| 0 <= q < off1@.len() implies pos1@.contains(q) by {
                    if q == newp {
                        assert(pos1@[p as int] == q);
                    } else {
                        assert(pos0.contains(q));
                        let t = choose|t: int| 0 <= t < pos0.len() && pos0[t] == q;
                        if t < p {
                            assert(pos1@[t] == q);
                        } else {
                            assert(pos1@[t + 1] == q);
                        }
                    }
                }
            }
            self.positions = pos1;
            self.offered_log = off1;
        } else if n > 0 && key < self.items[n - 1].1 {
            let _ = self.items.pop();
            let ghost items_mid = self.items@;
            let ghost pos_mid = pos0.drop_last();
            let ghost worst = items0[n - 1];
            let ghost worst_pos = pos0[n - 1];
            assert(p <= n - 1);
            self.items.insert(p, (index, key));
            let pos1 = Ghost(pos_mid.insert(p as int, newp));
            proof {
                assert(items_mid =~= items0.drop_last());
                lemma_insert_in_order(items_mid, pos_mid, off0, p as int, (index, key));
                pos_mid.insert_ensures(p as int, newp);
                items_mid.insert_ensures(p as int, (index, key));
                let items1 = self.items@;
                // every kept pair precedes the evicted one
                assert forall|i: int| 0 <= i < items1.len() implies precedes(
                    items1[i].1,
                    pos1@[i],
                    worst.1,
                    worst_pos,
                ) by {
                    if i < p {
                        assert(items1[i] == items0[i]);
                        assert(precedes(items0[i].1, pos0[i], worst.1, worst_pos));
                    } else if i > p {
                        assert(items1[i] == items0[i - 1]);
                        assert(pos1@[i] == pos0[i - 1]);
                        if i - 1 < n - 1 {
                            assert(precedes(items0[i - 1].1, pos0[i - 1], worst.1, worst_pos));
                        }
                    }
                }
                assert forall|q: int|
                    0 <= q < off1@.len() && !pos1@.contains(q) implies forall|i: int|
                    0 <= i < items1.len() ==> precedes(
                        items1[i].1,
                        pos1@[i],
                        (#[trigger] off1@[q]).1,
                        q,
                    ) by {
                    assert(q != newp) by {
                        assert(pos1@[p as int] == newp);
                    }
                    assert(off1@[q] == off0[q]);
                    if q == worst_pos {
                        assert(off0[q] == worst);
                    } else {
                        assert(!pos0.contains(q)) by {
                            if pos0.contains(q) {
                                let t = choose|t: int| 0 <= t < pos0.len() && pos0[t] == q;
                                assert(t != n - 1);
                                if t < p {
                                    assert(pos1@[t] == q);
                                } else {
                                    assert(pos1@[t + 1] == q);
                                }
                            }
                        }
                        assert(precedes(items0[n - 1].1, pos0[n - 1], off0[q].1, q));
                        assert forall|i: int| 0 <= i < items1.len() implies precedes(
                            items1[i].1,
                            pos1@[i],
                            off1@[q].1,
                            q,
                        ) by {
                            assert(precedes(items1[i].1, pos1@[i], worst.1, worst_pos));
                        }
                    }
                }
            }
            self.positions = pos1;
            self.offered_log = off1;
        } else {
            proof {
                assert(n == self.k);
                assert forall|q: int|
                    0 <= q < off1@.len() && !pos0.contains(q) implies forall|i: int|
                    0 <= i < items0.len() ==> precedes(
                        items0[i].1,
                        pos0[i],
                        (#[trigger] off1@[q]).1,
                        q,
                    ) by {
                    if q < off0.len() {
                        assert(off1@[q] == off0[q]);
                    } else {
                        assert forall|i: int| 0 <= i < items0.len() implies precedes(
                            items0[i].1,
                            pos0[i],
                            off1@[q].1,
                            q,
                        ) by {
                            if i < n - 1 {
                                assert(precedes(items0[i].1, pos0[i], items0[n - 1].1, pos0[n - 1]));
                            }
                        }
                    }
                }
            }
            self.offered_log = off1;
        }
    }

    /// The kept neighbors, nearest first: their indices and their keys.
    pub fn into_sorted(self) -> (r: (Vec<usize>, Vec<u64>))
        requires
            self.wf(),
        ensures
            r.0.len() == self.held().len(),
            r.1.len() == self.held().len(),
            forall|i: int| 0 <= i < r.0.len() ==> #[trigger] r.0@[i] == self.held()[i].0,
            forall|i: int| 0 <= i < r.1.len() ==> #[trigger] r.1@[i] == self.held()[i].1,
    {
        let mut idx: Vec<usize> = Vec::new();
        let mut keys: Vec<u64> = Vec::new();
        let mut i: usize = 0;
        while i < self.items.len()
            invariant
                i <= self.items.len(),
                idx.len() == i,
                keys.len() == i,
                forall|t: int| 0 <= t < i ==> #[trigger] idx@[t] == self.items@[t].0,
                forall|t: int| 0 <= t < i ==> #[trigger] keys@[t] == self.items@[t].1,
            decreases self.items.len() - i,
        {
            idx.push(self.items[i].0);
            keys.push(self.items[i].1);
            i = i + 1;
        }
        (idx, keys)
    }
}

/// What the heap guarantees after any sequence of offers: it keeps
/// `min(capacity, offered)` of the offered pairs, ordered by key (ties by offer
/// order), and every offered pair it does not keep has a key at least as large as
/// every kept key (the kept pairs are the nearest ones).
pub proof fn lemma_heap_keeps_nearest(h: &NeighborHeap)
    requires
        h.wf(),
    ensures
        h.held().len() == min_nat(h.capacity(), h.offered().len()),
        h.held_positions().len() == h.held().len(),
        forall|i: int|
            0 <= i < h.held().len() ==> 0 <= #[trigger] h.held_positions()[i] < h.offered().len()
                && h.offered()[h.held_positions()[i]] == h.held()[i],
        forall|i: int, j: int|
            0 <= i < j < h.held().len() ==> precedes(
                h.held()[i].1,
                h.held_positions()[i],
                h.held()[j].1,
                h.held_positions()[j],
            ),
        forall|p: int, i: int|
            0 <= p < h.offered().len() && !h.held_positions().contains(p) && 0 <= i < h.held().len()
                ==> precedes(
                (#[trigger] h.held()[i]).1,
                h.held_positions()[i],
                (#[trigger] h.offered()[p]).1,
                p,
            ),
{
    assert forall|p: int, i: int|
        0 <= p < h.offered().len() && !h.held_positions().contains(p) && 0 <= i < h.held().len()
            implies precedes(
            (#[trigger] h.held()[i]).1,
            h.held_positions()[i],
            (#[trigger] h.offered()[p]).1,
            p,
        ) by {
        assert(precedes(h.held()[i].1, h.held_positions()[i], h.offered()[p].1, p));
    }
}

/// `idx` lists the `min(k, d.len())` nearest entries of `d`, nearest first, ties
/// going to the lower index: every listed index is in range and listed once, the
/// list is increasing in (distance, index), and every unlisted index comes after
/// every listed one in that order.
pub open spec fn is_k_nearest(d: Seq<u64>, k: nat, idx: Seq<usize>) -> bool {
    &&& idx.len() == min_nat(k, d.len())
    &&& forall|i: int| 0 <= i < idx.len() ==> #[trigger] idx[i] < d.len()
    &&& forall|i: int, j: int|
        0 <= i < j < idx.len() ==> precedes(d[idx[i] as int], idx[i] as int, d[idx[j] as int], idx[j] as int)
    &&& forall|m: int, i: int|
        0 <= m < d.len() && !idx.contains(m as usize) && 0 <= i < idx.len() ==> precedes(
            d[(#[trigger] idx[i]) as int],
            idx[i] as int,
            #[trigger] d[m],
            m,
        )
}

/// The nearest entries come out sorted by distance and without repetition, and when
/// `k` is at least the number of entries every index is returned.
pub proof fn lemma_k_nearest_sorted_and_complete(d: Seq<u64>, k: nat, idx: Seq<usize>)
    requires
        is_k_nearest(d, k, idx),
    ensures
        forall|i: int, j: int| 0 <= i <= j < idx.len() ==> d[idx[i] as int] <= d[idx[j] as int],
        idx.no_duplicates(),
        k >= d.len() ==> forall|m: usize| m < d.len() ==> idx.contains(m),
{
    assert forall|i: int, j: int| 0 <= i < idx.len() && 0 <= j < idx.len() && i != j implies idx[i] != idx[j] by {
        if i < j {
            assert(precedes(d[idx[i] as int], idx[i] as int, d[idx[j] as int], idx[j] as int));
        } else {
            assert(precedes(d[idx[j] as int], idx[j] as int, d[idx[i] as int], idx[i] as int));
        }
    }
    assert forall|i: int, j: int| 0 <= i <= j < idx.len() implies d[idx[i] as int] <= d[idx[j] as int] by {
        if i < j {
            assert(precedes(d[idx[i] as int], idx[i] as int, d[idx[j] as int], idx[j] as int));
        }
    }
    if k >= d.len() {
        assert forall|m: usize| m < d.len() implies idx.contains(m) by {
            if !idx.contains(m) {
                // the listed indices are d.len() distinct values below d.len(), so m is among them
                crate::tree::lemma_full_range(idx, d.len());
            }
        }
    }
}

/// Positions of `d` listed in increasing (key, position) order.
pub open spec fn sorted_positions(d: Seq<u64>, o: Seq<usize>) -> bool {
    forall|i: int, j: int|
        0 <= i < j < o.len() ==> precedes(d[o[i] as int], o[i] as int, d[o[j] as int], o[j] as int)
}

/// Every listed position is below `n`.
pub open spec fn positions_below(o: Seq<usize>, n: nat) -> bool {
    forall|i: int| 0 <= i < o.len() ==> #[trigger] o[i] < n
}

/// Merges two position lists sorted by (key, position) into one.
fn merge_positions(d: &Vec<u64>, a: &Vec<usize>, b: &Vec<usize>) -> (out: Vec<usize>)
    requires
        sorted_positions(d@, a@),
        sorted_positions(d@, b@),
        positions_below(a@, d.len() as nat),
        positions_below(b@, d.len() as nat),
        forall|p: int, q: int| 0 <= p < a.len() && 0 <= q < b.len() ==> a@[p] != b@[q],
    ensures
        sorted_positions(d@, out@),
        out@.to_multiset() == a@.to_multiset().add(b@.to_multiset()),
        positions_below(out@, d.len() as nat),
{
    let mut out: Vec<usize> = Vec::new();
    let mut i: usize = 0;
    let mut j: usize = 0;
    assert(a@.take(0) =~= Seq::<usize>::empty());
    assert(b@.take(0) =~= Seq::<usize>::empty());
    assert(out@.to_multiset() =~= a@.take(0).to_multiset().add(b@.take(0).to_multiset()));
    while i < a.len() || j < b.len()
        invariant
            i <= a.len(),
            j <= b.len(),
            sorted_positions(d@, a@),
            sorted_positions(d@, b@),
            positions_below(a@, d.len() as nat),
            positions_below(b@, d.len() as nat),
            forall|p: int, q: int| 0 <= p < a.len() && 0 <= q < b.len() ==> a@[p] != b@[q],
            sorted_positions(d@, out@),
            positions_below(out@, d.len() as nat),
            out@.to_multiset() == a@.take(i as int).to_multiset().add(b@.take(j as int).to_multiset()),
            forall|p: int, q: int|
                #![trigger out@[p], a@[q]]
                0 <= p < out.len() && i <= q < a.len() ==> precedes(
                    d@[out@[p] as int],
                    out@[p] as int,
                    d@[a@[q] as int],
                    a@[q] as int,
                ),
            forall|p: int, q: int|
                #![trigger out@[p], b@[q]]
                0 <= p < out.len() && j <= q < b.len() ==> precedes(
                    d@[out@[p] as int],
                    out@[p] as int,
                    d@[b@[q] as int],
                    b@[q] as int,
                ),
        decreases a.len() + b.len() - i - j,
    {
        let take_a = if i < a.len() && j < b.len() {
            let x = a[i];
            let y = b[j];
            d[x] < d[y] || (d[x] == d[y] && x < y)
        } else {
            i < a.len()
        };
        let ghost out0 = out@;
        if take_a {
            let x = a[i];
            proof {
                assert(a@.take(i + 1) =~= a@.take(i as int).push(x));
                vstd::seq_lib::to_multiset_build(a@.take(i as int), x);
                vstd::seq_lib::to_multiset_build(out0, x);
                assert(out0.to_multiset().insert(x) =~= a@.take(i + 1).to_multiset().add(b@.take(j as int).to_multiset()));
            }
            out.push(x);
            i = i + 1;
            proof {
                assert forall|p: int, q: int| 0 <= p < out.len() && j <= q < b.len() implies #[trigger] precedes(
                    d@[out@[p] as int],
                    out@[p] as int,
                    d@[b@[q] as int],
                    b@[q] as int,
                ) by {
                    if p == out.len() - 1 {
                        assert(out@[p] == x);
                        if q > j {
                            assert(precedes(d@[b@[j as int] as int], b@[j as int] as int, d@[b@[q] as int], b@[q] as int));
                        }
                    } else {
                        assert(out@[p] == out0[p]);
                    }
                }
                assert forall|p: int, q: int| 0 <= p < out.len() && i <= q < a.len() implies #[trigger] precedes(
                    d@[out@[p] as int],
                    out@[p] as int,
                    d@[a@[q] as int],
                    a@[q] as int,
                ) by {
                    if p == out.len() - 1 {
                        assert(out@[p] == a@[i - 1]);
                        assert(precedes(d@[a@[i - 1] as int], a@[i - 1] as int, d@[a@[q] as int], a@[q] as int));
                    } else {
                        assert(out@[p] == out0[p]);
                    }
                }
                assert forall|p: int, q: int| 0 <= p < q < out.len() implies precedes(
                    d@[out@[p] as int],
                    out@[p] as int,
                    d@[out@[q] as int],
                    out@[q] as int,
                ) by {
                    assert(out@[p] == out0[p]);
                    if q < out.len() - 1 {
                        assert(out@[q] == out0[q]);
                    } else {
                        assert(out@[q] == a@[i - 1]);
                    }
                }
            }
        } else {
            let y = b[j];
            proof {
                assert(b@.take(j + 1) =~= b@.take(j as int).push(y));
                vstd::seq_lib::to_multiset_build(b@.take(j as int), y);
                vstd::seq_lib::to_multiset_build(out0, y);
                assert(out0.to_multiset().insert(y) =~= a@.take(i as int).to_multiset().add(b@.take(j + 1).to_multiset()));
            }
            out.push(y);
            j = j + 1;
            proof {
                assert forall|p: int, q: int| 0 <= p < out.len() && i <= q < a.len() implies #[trigger] precedes(
                    d@[out@[p] as int],
                    out@[p] as int,
                    d@[a@[q] as int],
                    a@[q] as int,
                ) by {
                    if p == out.len() - 1 {
                        assert(out@[p] == y);
                        assert(a@[i as int] != b@[j - 1]);
                        if q > i {
                            assert(precedes(d@[a@[i as int] as int], a@[i as int] as int, d@[a@[q] as int], a@[q] as int));
                        }
                    } else {
                        assert(out@[p] == out0[p]);
                    }
                }
                assert forall|p: int, q: int| 0 <= p < out.len() && j <= q < b.len() implies #[trigger] precedes(
                    d@[out@[p] as int],
                    out@[p] as int,
                    d@[b@[q] as int],
                    b@[q] as int,
                ) by {
                    if p == out.len() - 1 {
                        assert(out@[p] == b@[j - 1]);
                        assert(precedes(d@[b@[j - 1] as int], b@[j - 1] as int, d@[b@[q] as int], b@[q] as int));
                    } else {
                        assert(out@[p] == out0[p]);
                    }
                }
                assert forall|p: int, q: int| 0 <= p < q < out.len() implies precedes(
                    d@[out@[p] as int],
                    out@[p] as int,
                    d@[out@[q] as int],
                    out@[q] as int,
                ) by {
                    assert(out@[p] == out0[p]);
                    if q < out.len() - 1 {
                        assert(out@[q] == out0[q]);
                    } else {
                        assert(out@[q] == b@[j - 1]);
                    }
                }
            }
        }
    }
    assert(a@.take(a.len() as int) =~= a@);
    assert(b@.take(b.len() as int) =~= b@);
    out
}

/// Sorts the positions `v[lo..hi]` by (key in `d`, position).
fn sort_positions(d: &Vec<u64>, v: &Vec<usize>, lo: usize, hi: usize) -> (out: Vec<usize>)
    requires
        lo <= hi <= v.len(),
        positions_below(v@, d.len() as nat),
        v@.no_duplicates(),
    ensures
        sorted_positions(d@, out@),
        out@.to_multiset() == v@.subrange(lo as int, hi as int).to_multiset(),
        positions_below(out@, d.len() as nat),
    decreases hi - lo,
{
    if hi - lo <= 1 {
        let mut out: Vec<usize> = Vec::new();
        if hi - lo == 1 {
            out.push(v[lo]);
        }
        assert(out@ =~= v@.subrange(lo as int, hi as int));
        return out;
    }
    let mid = lo + (hi - lo) / 2;
    let a = sort_positions(d, v, lo, mid);
    let b = sort_positions(d, v, mid, hi);
    proof {
        assert forall|p: int, q: int| 0 <= p < a.len() && 0 <= q < b.len() implies a@[p] != b@[q] by {
            let sa = v@.subrange(lo as int, mid as int);
            let sb = v@.subrange(mid as int, hi as int);
            assert(a@.contains(a@[p]));
            assert(a@.to_multiset().count(a@[p]) > 0);
            assert(sa.contains(a@[p]));
            assert(b@.contains(b@[q]));
            assert(b@.to_multiset().count(b@[q]) > 0);
            assert(sb.contains(b@[q]));
            let r1 = choose|r: int| 0 <= r < sa.len() && sa[r] == a@[p];
            let r2 = choose|r: int| 0 <= r < sb.len() && sb[r] == b@[q];
            assert(v@[lo + r1] == a@[p]);
            assert(v@[mid + r2] == b@[q]);
        }
    }
    let out = merge_positions(d, &a, &b);
    proof {
        assert(v@.subrange(lo as int, hi as int) =~= v@.subrange(lo as int, mid as int) + v@.subrange(
            mid as int,
            hi as int,
        ));
        vstd::seq_lib::lemma_multiset_commutative(
            v@.subrange(lo as int, mid as int),
            v@.subrange(mid as int, hi as int),
        );
    }
    out
}

/// Finds the `k` smallest entries of `distances` (all of them when `k` is larger),
/// returning their indices and their values, nearest first; equal distances are
/// ordered by index.
pub fn find_k_nearest(distances: &Vec<u64>, k: usize) -> (r: (Vec<usize>, Vec<u64>))
    ensures
        is_k_nearest(distances@, k as nat, r.0@),
        r.1.len() == r.0.len(),
        forall|i: int| 0 <= i < r.1.len() ==> #[trigger] r.1@[i] == distances@[r.0@[i] as int],
{
    let n = distances.len();
    let mut all: Vec<usize> = Vec::new();
    let mut i: usize = 0;
    while i < n
        invariant
            i <= n,
            n == distances.len(),
            all@ == Seq::new(i as nat, |t: int| t as usize),
        decreases n - i,
    {
        all.push(i);
        i = i + 1;
        assert(all@ =~= Seq::new(i as nat, |t: int| t as usize));
    }
    assert(all@.no_duplicates());
    let sorted = sort_positions(distances, &all, 0, n);
    assert(all@.subrange(0, n as int) =~= all@);
    assert(sorted@.len() == n) by {
        assert(sorted@.len() == sorted@.to_multiset().len());
        assert(all@.len() == all@.to_multiset().len());
    }
    let kk = if k < n {
        k
    } else {
        n
    };
    let mut idx: Vec<usize> = Vec::new();
    let mut vals: Vec<u64> = Vec::new();
    let mut t: usize = 0;
    while t < kk
        invariant
            t <= kk <= n,
            n == distances.len(),
            sorted@.len() == n,
            positions_below(sorted@, n as nat),
            idx@ == sorted@.take(t as int),
            vals.len() == t,
            forall|q: int| 0 <= q < t ==> #[trigger] vals@[q] == distances@[idx@[q] as int],
        decreases kk - t,
    {
        let x = sorted[t];
        idx.push(x);
        vals.push(distances[x]);
        t = t + 1;
        assert(idx@ =~= sorted@.take(t as int));
    }
    proof {
        assert forall|m: int, q: int|
            0 <= m < n && !idx@.contains(m as usize) && 0 <= q < idx@.len() implies precedes(
            distances@[(#[trigger] idx@[q]) as int],
            idx@[q] as int,
            #[trigger] distances@[m],
            m,
        ) by {
            assert(all@[m] == m as usize);
            assert(all@.contains(m as usize));
            assert(all@.to_multiset().count(m as usize) > 0);
            assert(sorted@.to_multiset().count(m as usize) > 0);
            assert(sorted@.contains(m as usize));
            let p = choose|p: int| 0 <= p < sorted@.len() && sorted@[p] == m as usize;
            if p < kk {
                assert(idx@[p] == m as usize);
            }
            assert(idx@[q] == sorted@[q]);
        }
        assert forall|q: int| 0 <= q < idx@.len() implies #[trigger] idx@[q] < n by {
            assert(idx@[q] == sorted@[q]);
        }
    }
    (idx, vals)
}

/// The nearest centroid: scanning in order, the first position whose key is below
/// every earlier key and below `bound`; `(0, bound)` when no key is below `bound`.
pub fn nearest_centroid(keys: &Vec<u64>, bound: u64) -> (r: (usize, u64))
    ensures
        r.1 <= bound,
        r.1 == bound ==> r.0 == 0 && forall|t: int| 0 <= t < keys.len() ==> #[trigger] keys@[t] >= bound,
        r.1 < bound ==> r.0 < keys.len() && keys@[r.0 as int] == r.1,
        forall|t: int| 0 <= t < keys.len() ==> #[trigger] keys@[t] >= r.1,
        forall|t: int| 0 <= t < r.0 ==> #[trigger] keys@[t] > r.1,
{
    let mut best: usize = 0;
    let mut best_key: u64 = bound;
    let mut t: usize = 0;
    while t < keys.len()
        invariant
            t <= keys.len(),
            best_key <= bound,
            best_key == bound ==> best == 0,
            best_key < bound ==> best < t && keys@[best as int] == best_key,
            forall|s: int| 0 <= s < t ==> #[trigger] keys@[s] >= best_key,
            forall|s: int| 0 <= s < best ==> #[trigger] keys@[s] > best_key,
        decreases keys.len() - t,
    {
        if keys[t] < best_key {
            best_key = keys[t];
            best = t;
        }
        t = t + 1;
    }
    (best, best_key)
}

} // verus!
