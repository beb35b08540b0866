use algolib::rolling_hash::{mul, RollingHash, MOD, SEED};

fn hash_of(s: &[u32]) -> RollingHash {
    let mut h = RollingHash::default();
    for &c in s {
        h = h + RollingHash::new(c);
    }
    h
}

#[test]
fn mul_reduces_modulo_the_mersenne_prime() {
    assert_eq!(mul(0, 5), 0);
    assert_eq!(mul(3, 5), 15);
    assert_eq!(mul(MOD, 1), MOD);
    assert_eq!(mul(MOD - 1, MOD - 1), 1);
    assert_eq!(mul(1 << 60, 2), 1);
    let expected = ((SEED as u128 * SEED as u128) % MOD as u128) as u64;
    assert_eq!(mul(SEED, SEED), expected);
}

#[test]
fn concatenation_is_associative() {
    let a = hash_of(&[1, 2, 3]);
    let b = hash_of(&[4, 5]);
    let c = hash_of(&[6]);
    assert_eq!((a + b) + c, a + (b + c));
    assert_eq!(hash_of(&[1, 2, 3, 4, 5, 6]), a + (b + c));
}

#[test]
fn equal_sequences_have_equal_hashes() {
    assert_eq!(hash_of(&[7, 7, 8]), hash_of(&[7, 7, 8]));
    assert_ne!(hash_of(&[7, 7, 8]), hash_of(&[7, 8, 7]));
    assert_ne!(hash_of(&[0]), hash_of(&[0, 0]));
}

#[test]
fn the_empty_hash_is_neutral_on_the_left() {
    let a = hash_of(&[9, 1]);
    assert_eq!(RollingHash::default() + a, a);
}
