use vstd::prelude::*;

verus! {

/// One step of the linear congruential generator (the glibc constants), modulo 2^64.
pub open spec fn lcg_step(state: u64) -> u64 {
    ((state as int * 1103515245 + 12345) % 0x1_0000_0000_0000_0000) as u64
}

/// The state after `steps` generator steps from `state`.
pub open spec fn lcg_after(state: u64, steps: nat) -> u64
    decreases steps,
{
    if steps == 0 {
        state
    } else {
        lcg_step(lcg_after(state, (steps - 1) as nat))
    }
}

/// What `choice(n)` returns when the generator is in `state` (before the step).
pub open spec fn choice_value(state: u64, n: usize) -> usize {
    ((lcg_step(state) as usize) as int % (n as int)) as usize
}

/// The identity permutation `[0, 1, ..., n - 1]`.
pub open spec fn identity_perm(n: nat) -> Seq<usize> {
    Seq::new(n, |i: int| i as usize)
}

/// `s` with the entries at `i` and `j` exchanged.
pub open spec fn swap_entries(s: Seq<usize>, i: int, j: int) -> Seq<usize> {
    s.update(i, s[j]).update(j, s[i])
}

/// The partial Fisher-Yates shuffle: for each position `i` from `from` up to `count`,
/// swap it with position `i + choice(len - i)`.
pub open spec fn partial_shuffle(perm: Seq<usize>, from: nat, count: nat, state: u64) -> Seq<usize>
    decreases count - from,
{
    if from >= count || from >= perm.len() {
        perm
    } else {
        let j = from + choice_value(state, (perm.len() - from) as usize);
        partial_shuffle(swap_entries(perm, from as int, j), from + 1, count, lcg_step(state))
    }
}

/// Each entry is below `n` and no entry occurs twice.
pub open spec fn distinct_below(s: Seq<usize>, n: nat) -> bool {
    &&& forall|i: int| 0 <= i < s.len() ==> #[trigger] s[i] < n
    &&& forall|i: int, j: int| 0 <= i < j < s.len() ==> s[i] != s[j]
}

/// Linear congruential generator used for reproducible centroid seeding.
pub struct SimpleRng {
    state: u64,
}

impl View for SimpleRng {
    type V = u64;

    /// The generator's current state.
    closed spec fn view(&self) -> u64 {
        self.state
    }
}

impl SimpleRng {
    /// A generator whose state is the seed.
    pub fn new(seed: u64) -> (rng: Self)
        ensures
            rng@ == seed,
    {
        SimpleRng { state: seed }
    }

    /// Advances the state by one step and returns the new state.
    pub fn next_u64(&mut self) -> (r: u64)
        ensures
            final(self)@ == lcg_step(old(self)@),
            r == final(self)@,
            r as int == (old(self)@ as int * 1103515245 + 12345) % 0x1_0000_0000_0000_0000,
    {
        let s = self.state.wrapping_mul(1103515245).wrapping_add(12345);
        self.state = s;
        s
    }

    /// Advances the state by one step and reduces it into `0..n`.
    pub fn choice(&mut self, n: usize) -> (r: usize)
        requires
            n > 0,
        ensures
            final(self)@ == lcg_step(old(self)@),
            r == choice_value(old(self)@, n),
            r as int == (((old(self)@ as int * 1103515245 + 12345) % 0x1_0000_0000_0000_0000) as usize) as int % (
            n as int),
            r < n,
    {
        let v = self.next_u64();
        (v as usize) % n
    }
}

/// The seed of the `init_run`-th k-means run: the random state (0 when absent)
/// plus the run number, wrapping modulo 2^64.
pub fn run_seed(random_state: Option<u64>, init_run: usize) -> (seed: u64)
    ensures
        seed == (match random_state {
            Some(s) => s as int,
            None => 0int,
        } + init_run as int) % 0x1_0000_0000_0000_0000,
{
    let base: u64 = match random_state {
        Some(s) => s,
        None => 0,
    };
    base.wrapping_add(init_run as u64)
}

/// A draw of `choice(n)` from state `s` is the generator's next state,
/// `(s * 1103515245 + 12345) mod 2^64`, reduced modulo `n`: which value is drawn
/// depends on the state.
pub proof fn lemma_choice_is_next_state_mod(s: u64, n: usize)
    requires
        n > 0,
    ensures
        choice_value(s, n) as int == (((s as int * 1103515245 + 12345) % 0x1_0000_0000_0000_0000) as usize) as int % (
        n as int),
        choice_value(s, n) < n,
{
}

/// The shuffle from position `from` on leaves the entries before `from` alone.
proof fn lemma_shuffle_keeps_prefix(perm: Seq<usize>, from: nat, count: nat, state: u64, i: int)
    requires
        0 <= i < from,
        i < perm.len(),
    ensures
        partial_shuffle(perm, from, count, state).len() == perm.len(),
        partial_shuffle(perm, from, count, state)[i] == perm[i],
    decreases count - from,
{
    if from < count && from < perm.len() {
        let j = from + choice_value(state, (perm.len() - from) as usize);
        let next = swap_entries(perm, from as int, j);
        lemma_shuffle_keeps_prefix(next, from + 1, count, lcg_step(state), i);
    }
}

/// The first sample picked for a seeded random start is the seed's next generator
/// state reduced modulo the number of samples.
pub proof fn lemma_first_pick_follows_seed(n_samples: usize, n_clusters: usize, seed: u64)
    requires
        0 < n_clusters <= n_samples,
    ensures
        partial_shuffle(identity_perm(n_samples as nat), 0, n_clusters as nat, seed)[0] as int == (((seed as int
            * 1103515245 + 12345) % 0x1_0000_0000_0000_0000) as usize) as int % (n_samples as int),
{
    let perm = identity_perm(n_samples as nat);
    let j = choice_value(seed, n_samples);
    let next = swap_entries(perm, 0, j as int);
    lemma_shuffle_keeps_prefix(next, 1, n_clusters as nat, lcg_step(seed), 0);
    assert(next[0] == perm[j as int]);
}

proof fn lemma_swap_keeps_distinct(s: Seq<usize>, n: nat, i: int, j: int)
    requires
        distinct_below(s, n),
        0 <= i < s.len(),
        0 <= j < s.len(),
    ensures
        distinct_below(swap_entries(s, i, j), n),
        swap_entries(s, i, j).len() == s.len(),
{
    let t = swap_entries(s, i, j);
    assert forall|a: int, b: int| 0 <= a < b < t.len() implies t[a] != t[b] by {
        let sa = if a == j { i } else if a == i { j } else { a };
        let sb = if b == j { i } else if b == i { j } else { b };
        assert(t[a] == s[sa]);
        assert(t[b] == s[sb]);
        assert(sa != sb);
        if sa < sb {
            assert(s[sa] != s[sb]);
        } else {
            assert(s[sb] != s[sa]);
        }
    }
    assert forall|a: int| 0 <= a < t.len() implies #[trigger] t[a] < n by {
        let sa = if a == j { i } else if a == i { j } else { a };
        assert(t[a] == s[sa]);
    }
}

proof fn lemma_shuffle_step(perm: Seq<usize>, from: nat, count: nat, state: u64)
    requires
        from < count,
        from < perm.len(),
    ensures
        partial_shuffle(perm, from, count, state) == partial_shuffle(
            swap_entries(perm, from as int, from + choice_value(state, (perm.len() - from) as usize)),
            from + 1,
            count,
            lcg_step(state),
        ),
{
}

/// Picks `n_clusters` sample indices by a partial Fisher-Yates shuffle of
/// `0..n_samples`, drawing one `choice` per picked index.
pub fn random_centroid_indices(n_samples: usize, n_clusters: usize, rng: &mut SimpleRng) -> (picked:
    Vec<usize>)
    requires
        n_clusters <= n_samples,
    ensures
        picked@ == partial_shuffle(identity_perm(n_samples as nat), 0, n_clusters as nat, old(rng)@).take(
            n_clusters as int,
        ),
        final(rng)@ == lcg_after(old(rng)@, n_clusters as nat),
        picked.len() == n_clusters,
        distinct_below(picked@, n_samples as nat),
        n_clusters > 0 ==> picked@[0] as int == (((old(rng)@ as int * 1103515245 + 12345) % 0x1_0000_0000_0000_0000) as usize) as int
            % (n_samples as int),
{
    let mut perm: Vec<usize> = Vec::new();
    let mut t: usize = 0;
    while t < n_samples
        invariant
            t <= n_samples,
            perm@ == identity_perm(t as nat),
        decreases n_samples - t,
    {
        perm.push(t);
        t = t + 1;
    }
    assert(distinct_below(perm@, n_samples as nat));
    let ghost start = old(rng)@;
    let mut i: usize = 0;
    while i < n_clusters
        invariant
            i <= n_clusters <= n_samples,
            perm.len() == n_samples,
            distinct_below(perm@, n_samples as nat),
            rng@ == lcg_after(start, i as nat),
            partial_shuffle(identity_perm(n_samples as nat), 0, n_clusters as nat, start)
                == partial_shuffle(perm@, i as nat, n_clusters as nat, rng@),
        decreases n_clusters - i,
    {
        let ghost before = perm@;
        let ghost st = rng@;
        let c = rng.choice(n_samples - i);
        let j = i + c;
        proof {
            lemma_shuffle_step(before, i as nat, n_clusters as nat, st);
            lemma_swap_keeps_distinct(before, n_samples as nat, i as int, j as int);
        }
        let a = perm[i];
        let b = perm[j];
        perm.set(i, b);
        perm.set(j, a);
        assert(perm@ == swap_entries(before, i as int, j as int));
        i = i + 1;
    }
    let mut picked: Vec<usize> = Vec::new();
    let mut m: usize = 0;
    while m < n_clusters
        invariant
            m <= n_clusters <= n_samples,
            perm.len() == n_samples,
            picked@ == perm@.take(m as int),
        decreases n_clusters - m,
    {
        picked.push(perm[m]);
        m = m + 1;
        assert(picked@ == perm@.take(m as int));
    }
    assert(partial_shuffle(perm@, n_clusters as nat, n_clusters as nat, rng@) == perm@);
    proof {
        if n_clusters > 0 {
            lemma_first_pick_follows_seed(n_samples, n_clusters, start);
            assert(picked@[0] == perm@[0]);
        }
    }
    assert forall|a: int, b: int| 0 <= a < b < picked@.len() implies picked@[a] != picked@[b] by {
        assert(picked@[a] == perm@[a]);
        assert(picked@[b] == perm@[b]);
    }
    assert forall|a: int| 0 <= a < picked@.len() implies #[trigger] picked@[a] < n_samples by {
        assert(picked@[a] == perm@[a]);
    }
    picked
}

} // verus!
