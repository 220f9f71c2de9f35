use is_prime_for_primitive_int::{is_prime_u64, miller_rabin_primality_test, IsPrime};

fn trial_division(n: u64) -> bool {
    if n < 2 {
        return false;
    }
    if n % 2 == 0 {
        return n == 2;
    }
    let mut d: u64 = 3;
    while (d as u128) * (d as u128) <= n as u128 {
        if n % d == 0 {
            return false;
        }
        d += 2;
    }
    true
}

fn check_around(bound: u64) {
    for n in bound - 2..=bound + 2 {
        assert_eq!(is_prime_u64(n), trial_division(n), "n = {}", n);
    }
}

#[test]
fn boundary_values() {
    assert!(!is_prime_u64(0));
    assert!(!is_prime_u64(1));
    assert!(is_prime_u64(2));
    assert!(is_prime_u64(3));
    assert!(!is_prime_u64(4));
    assert!(is_prime_u64(7));
    assert!(!is_prime_u64(8));
}

#[test]
fn given_examples() {
    assert!(!is_prime_u64(57));
    assert!(!is_prime_u64(91));
    assert!(is_prime_u64(97));
}

#[test]
fn all_values_below_ten_thousand() {
    for n in 0..10_000u64 {
        assert_eq!(is_prime_u64(n), trial_division(n), "n = {}", n);
    }
}

#[test]
fn squares_of_small_primes_are_rejected() {
    assert!(!is_prime_u64(121));
    assert!(!is_prime_u64(169));
    assert!(is_prime_u64(113));
    assert!(is_prime_u64(127));
}

#[test]
fn tier_bounds_are_composite() {
    for bound in [
        341531u64,
        1050535501,
        350269456337,
        55245642489451,
        7999252175582851,
        585226005592931977,
    ] {
        assert!(!is_prime_u64(bound), "bound = {}", bound);
    }
}

#[test]
fn around_first_tier_bound() {
    check_around(341531);
}

#[test]
fn around_second_tier_bound() {
    check_around(1050535501);
}

#[test]
fn around_third_tier_bound() {
    check_around(350269456337);
}

#[test]
fn around_fourth_tier_bound() {
    check_around(55245642489451);
}

#[test]
fn around_fifth_tier_bound() {
    check_around(7999252175582851);
}

#[test]
fn strong_pseudoprimes_to_small_bases_are_rejected() {
    // 2047 = 23 * 89 passes base 2; 3215031751 = 151 * 751 * 28351 passes bases 2, 3, 5, 7.
    assert!(!is_prime_u64(2047));
    assert!(!is_prime_u64(3215031751));
    assert!(!miller_rabin_primality_test(2047));
    assert!(!miller_rabin_primality_test(3215031751));
}

#[test]
fn large_values() {
    assert!(is_prime_u64(18446744073709551557));
    assert!(!is_prime_u64(u64::MAX));
    assert!(!is_prime_u64(18446744073709551559));
    assert!(is_prime_u64(4294967291));
    assert!(!is_prime_u64(4294967295));
    // 4294967291 * 4294967279, a product of two primes just below 2^32.
    assert!(!is_prime_u64(18446743979220271189));
    assert!(is_prime_u64(1000000007));
    assert!(is_prime_u64(1000000000000000003));
}

#[test]
fn miller_rabin_on_odd_values() {
    assert!(miller_rabin_primality_test(97));
    assert!(!miller_rabin_primality_test(99));
    assert!(miller_rabin_primality_test(585226005592931979) == trial_division(585226005592931979));
}

#[test]
fn repeated_calls_agree() {
    for n in [0u64, 1, 97, 341531, 585226005592931977, 18446744073709551557] {
        let first = is_prime_u64(n);
        for _ in 0..5 {
            assert_eq!(is_prime_u64(n), first);
        }
    }
}

#[test]
fn unsigned_widths() {
    assert!(2u8.is_prime());
    assert!(251u8.is_prime());
    assert!(!255u8.is_prime());
    assert!(65521u16.is_prime());
    assert!(!65535u16.is_prime());
    assert!(4294967291u32.is_prime());
    assert!(!4294967295u32.is_prime());
    assert!(97u64.is_prime());
    assert!(!57u64.is_prime());
}

#[test]
fn signed_widths() {
    assert!(127i8.is_prime());
    assert!(!i8::MIN.is_prime());
    assert!(!(-7i8).is_prime());
    assert!(32749i16.is_prime());
    assert!(!(-2i16).is_prime());
    assert!(2147483647i32.is_prime());
    assert!(!(-97i32).is_prime());
    assert!(!i32::MIN.is_prime());
    assert!(9223372036854775783i64.is_prime());
    assert!(!(-3i64).is_prime());
    assert!(!i64::MIN.is_prime());
    assert!(!0i64.is_prime());
    assert!(!1i32.is_prime());
}
