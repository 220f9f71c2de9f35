use rand::Rng;
use is_prime_for_primitive_int::is_prime_u64;

fn is_prime_ref(n: u64) -> bool {
    if n == 2 {
        return true;
    }
    if n < 2 || n % 2 == 0 {
        return false;
    }
    let mut d = 3;
    while d * d <= n {
        if n % d == 0 {
            return false;
        }
        d += 2;
    }
    true
}

#[test]
fn is_prime_small() {
    let mut rng = rand::thread_rng();
    for _ in 0..1_000_000 {
        let n: u32 = rng.gen();
        assert_eq!(is_prime_ref(n.into()), is_prime_u64(n.into()));
    }
}

#[test]
fn is_prime_big() {
    let mut rng = rand::thread_rng();
    for _ in 0..30 {
        let n = rng.gen();
        assert_eq!(is_prime_ref(n), is_prime_u64(n));
    }
}
