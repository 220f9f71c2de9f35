use rand::Rng;
use is_prime_for_primitive_int::{improved_felmat_test, mulmod_u64, powmod_u64};

fn powmod_by_repetition(a: u64, p: u64, m: u64) -> u64 {
    let mut y: u128 = 1 % m as u128;
    for _ in 0..p {
        y = y * (a as u128 % m as u128) % m as u128;
    }
    y as u64
}

#[test]
fn mulmod_exact_values() {
    assert_eq!(mulmod_u64(7, 8, 5), 1);
    assert_eq!(mulmod_u64(0, 12345, 97), 0);
    assert_eq!(mulmod_u64(u64::MAX, u64::MAX, u64::MAX), 0);
    // (2^64 - 1)^2 mod (2^64 - 2) == 1
    assert_eq!(mulmod_u64(u64::MAX, u64::MAX, u64::MAX - 1), 1);
    assert_eq!(mulmod_u64(1 << 63, 4, 1000000007), (((1u128 << 65) % 1000000007) as u64));
    assert_eq!(mulmod_u64(5, 6, 1), 0);
}

#[test]
fn mulmod_random_against_wide_product() {
    let mut rng = rand::thread_rng();
    for _ in 0..10_000 {
        let m: u64 = rng.gen_range(1..=u64::MAX);
        let a: u64 = rng.gen_range(0..m);
        let b: u64 = rng.gen_range(0..m);
        let expected = ((a as u128) * (b as u128) % (m as u128)) as u64;
        assert_eq!(mulmod_u64(a, b, m), expected);
    }
}

#[test]
fn powmod_exact_values() {
    assert_eq!(powmod_u64(2, 10, 1000), 24);
    assert_eq!(powmod_u64(3, 0, 7), 1);
    assert_eq!(powmod_u64(0, 0, 7), 1);
    assert_eq!(powmod_u64(0, 5, 7), 0);
    assert_eq!(powmod_u64(2, 64, u64::MAX), 1);
    assert_eq!(powmod_u64(10, 3, 1), 0);
    assert_eq!(powmod_u64(5, 0, 1), 1);
}

#[test]
fn powmod_random_against_repetition() {
    let mut rng = rand::thread_rng();
    for _ in 0..2_000 {
        let m: u64 = rng.gen_range(2..=u64::MAX);
        let a: u64 = rng.gen();
        let p: u64 = rng.gen_range(0..40);
        assert_eq!(powmod_u64(a, p, m), powmod_by_repetition(a, p, m));
    }
}

#[test]
fn strong_test_cases() {
    // 2047 = 23 * 89: 2^1023 == 1 (mod 2047), so base 2 does not expose it; base 3 does.
    assert!(improved_felmat_test(2047, 2));
    assert!(!improved_felmat_test(2047, 3));
    // zero is never a witness
    assert!(improved_felmat_test(2047, 0));
    // 97 is prime: no base proves it composite
    for a in 0..97 {
        assert!(improved_felmat_test(97, a));
    }
    // 561 = 3 * 11 * 17, a Carmichael number, is exposed by base 2.
    assert!(!improved_felmat_test(561, 2));
    // n - 1 passes through the -1 branch
    assert!(improved_felmat_test(13, 12));
}
