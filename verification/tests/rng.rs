use rklearn::rng::{random_centroid_indices, run_seed, SimpleRng};

#[test]
fn lcg_step_matches_glibc_constants() {
    let mut rng = SimpleRng::new(42);
    let a = rng.next_u64();
    assert_eq!(a, 42u64 * 1103515245 + 12345);
    let b = rng.next_u64();
    assert_eq!(b, a.wrapping_mul(1103515245).wrapping_add(12345));
}

#[test]
fn lcg_wraps_modulo_two_to_the_64() {
    let mut rng = SimpleRng::new(u64::MAX);
    assert_eq!(rng.next_u64(), u64::MAX.wrapping_mul(1103515245).wrapping_add(12345));
}

#[test]
fn choice_reduces_the_next_state() {
    let mut rng = SimpleRng::new(7);
    let state = 7u64 * 1103515245 + 12345;
    assert_eq!(rng.choice(10), (state as usize) % 10);
    for n in 1..50 {
        assert!(rng.choice(n) < n);
    }
}

#[test]
fn same_seed_same_sequence() {
    let mut a = SimpleRng::new(123);
    let mut b = SimpleRng::new(123);
    for _ in 0..20 {
        assert_eq!(a.next_u64(), b.next_u64());
    }
}

#[test]
fn run_seed_adds_run_number() {
    assert_eq!(run_seed(None, 3), 3);
    assert_eq!(run_seed(Some(10), 2), 12);
    assert_eq!(run_seed(Some(u64::MAX), 1), 0);
}

#[test]
fn random_centroid_indices_are_distinct_samples() {
    for seed in 0..20u64 {
        let mut rng = SimpleRng::new(seed);
        let picked = random_centroid_indices(10, 4, &mut rng);
        assert_eq!(picked.len(), 4);
        for i in 0..picked.len() {
            assert!(picked[i] < 10);
            for j in 0..i {
                assert_ne!(picked[i], picked[j]);
            }
        }
    }
}

#[test]
fn random_centroid_indices_follow_the_shuffle() {
    // replay the partial Fisher-Yates shuffle with an independent generator
    let mut rng = SimpleRng::new(5);
    let picked = random_centroid_indices(6, 3, &mut rng);
    let mut check = SimpleRng::new(5);
    let mut perm: Vec<usize> = (0..6).collect();
    for i in 0..3 {
        let j = i + check.choice(6 - i);
        perm.swap(i, j);
    }
    assert_eq!(picked, perm[..3].to_vec());
    assert_eq!(rng.next_u64(), check.next_u64());
}

#[test]
fn random_centroid_indices_all_samples() {
    let mut rng = SimpleRng::new(1);
    let mut picked = random_centroid_indices(5, 5, &mut rng);
    picked.sort();
    assert_eq!(picked, vec![0, 1, 2, 3, 4]);
}
