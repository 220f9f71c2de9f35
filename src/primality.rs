use vstd::prelude::*;
use vstd::arithmetic::div_mod::lemma_fundamental_div_mod;
use crate::decision::{miller_rabin_primality_test, miller_rabin_verdict, witness_table};
use crate::witness::{lemma_prime_is_strong_probable_prime, strong_probable_prime};
use crate::number_theory::is_prime;

verus! {

/// The verdict on `n`: the primes below ten are accepted, numbers below
/// eleven or with a factor below ten are rejected, what is left below
/// `11 * 11` is accepted, and larger numbers go to the Miller-Rabin test.
pub open spec fn primality_verdict(n: u64) -> bool {
    if n == 2 || n == 3 || n == 5 || n == 7 {
        true
    } else if n < 11 || n % 2 == 0 || n % 3 == 0 || n % 5 == 0 || n % 7 == 0 {
        false
    } else if n < 121 {
        true
    } else {
        miller_rabin_verdict(n)
    }
}

/// A divisor between two and ten implies a divisor among two, three, five
/// and seven.
proof fn lemma_small_divisor(n: nat, e: nat)
    requires
        2 <= e <= 10,
        n % e == 0,
    ensures
        n % 2 == 0 || n % 3 == 0 || n % 5 == 0 || n % 7 == 0,
{
    if e == 4 || e == 6 || e == 8 || e == 10 {
        let k = n / e;
        assert(n == e * k);
        assert(n % 2 == 0) by (nonlinear_arith)
            requires
                n == e * k,
                e == 4 || e == 6 || e == 8 || e == 10,
        ;
    } else if e == 9 {
        let k = n / e;
        assert(n == 9 * k);
        assert(n % 3 == 0) by (nonlinear_arith)
            requires
                n == 9 * k,
        ;
    }
}

/// Below `11 * 11` the verdict is exact: trial division by two, three, five
/// and seven settles every number there.
proof fn lemma_verdict_below_121(n: u64)
    requires
        n < 121,
    ensures
        primality_verdict(n) == is_prime(n as nat),
{
    let m = n as nat;
    if primality_verdict(n) {
        assert forall|d: nat| 2 <= d < m implies #[trigger] (m % d) != 0 by {
            if m % d == 0 {
                if n == 2 || n == 3 || n == 5 || n == 7 {
                    assert(d == 2 || d == 3 || d == 4 || d == 5 || d == 6);
                } else if d <= 10 {
                    lemma_small_divisor(m, d);
                } else {
                    let q = m / d;
                    lemma_fundamental_div_mod(m as int, d as int);
                    assert(m == d * q);
                    assert(2 <= q <= 10) by (nonlinear_arith)
                        requires
                            m == d * q,
                            11 <= d < m,
                            m < 121,
                    ;
                    assert(m % q == 0) by (nonlinear_arith)
                        requires
                            m == d * q,
                            q > 0,
                    ;
                    lemma_small_divisor(m, q);
                }
            }
        }
    } else if m >= 2 {
        if m % 2 == 0 {
            assert(m % 2 == 0 && m != 2);
        } else if m % 3 == 0 {
            assert(m % 3 == 0 && m != 3);
        } else if m % 5 == 0 {
            assert(m % 5 == 0 && m != 5);
        } else if m % 7 == 0 {
            assert(m % 7 == 0 && m != 7);
        } else {
            assert(m == 9);
            assert(m % 3 == 0);
        }
    }
}

/// No false negatives: every prime is accepted.  Trial division passes a
/// prime above seven, and a prime passes the strong test to every base.
pub proof fn lemma_primes_are_accepted(n: u64)
    requires
        is_prime(n as nat),
    ensures
        primality_verdict(n),
{
    let m = n as nat;
    if n < 121 {
        lemma_verdict_below_121(n);
    } else {
        assert(m % 2 != 0 && m % 3 != 0 && m % 5 != 0 && m % 7 != 0);
        let bases = witness_table(n);
        assert forall|i: int| 0 <= i < bases.len() implies #[trigger] strong_probable_prime(
            n as nat,
            (bases[i] % n) as nat,
        ) by {
            lemma_prime_is_strong_probable_prime(m, (bases[i] % n) as nat);
        }
    }
}

/// Decides whether `n` is prime.  The verdict is `primality_verdict(n)`:
/// it accepts every prime, rejects `0` and `1`, and is exact below `11 * 11`.
/// That it also rejects every composite above rests on the witness tables.
pub fn is_prime_u64(n: u64) -> (r: bool)
    ensures
        r == primality_verdict(n),
        n < 121 ==> r == is_prime(n as nat),
        is_prime(n as nat) ==> r,
        r ==> n >= 2,
{
    proof {
        if n < 121 {
            lemma_verdict_below_121(n);
        }
        if is_prime(n as nat) {
            lemma_primes_are_accepted(n);
        }
    }
    if n == 2 || n == 3 || n == 5 || n == 7 {
        return true;
    }
    if n < 11 || n % 2 == 0 || n % 3 == 0 || n % 5 == 0 || n % 7 == 0 {
        return false;
    }
    if n < 11 * 11 {
        return true;
    }
    miller_rabin_primality_test(n)
}

/// Primality over the primitive integer types.  Each type widens its value
/// to 64 bits and defers to `is_prime_u64`; negative values are not prime.
pub trait IsPrime {
    /// The mathematical value of `self`.
    spec fn as_int(&self) -> int;

    fn is_prime(&self) -> (r: bool)
        ensures
            r == (0 <= self.as_int() <= u64::MAX && primality_verdict(self.as_int() as u64)),
    ;
}

impl IsPrime for u64 {
    open spec fn as_int(&self) -> int {
        *self as int
    }

    fn is_prime(&self) -> (r: bool) {
        is_prime_u64(*self)
    }
}

impl IsPrime for u32 {
    open spec fn as_int(&self) -> int {
        *self as int
    }

    fn is_prime(&self) -> (r: bool) {
        is_prime_u64(*self as u64)
    }
}

impl IsPrime for u16 {
    open spec fn as_int(&self) -> int {
        *self as int
    }

    fn is_prime(&self) -> (r: bool) {
        is_prime_u64(*self as u64)
    }
}

impl IsPrime for u8 {
    open spec fn as_int(&self) -> int {
        *self as int
    }

    fn is_prime(&self) -> (r: bool) {
        is_prime_u64(*self as u64)
    }
}

impl IsPrime for i64 {
    open spec fn as_int(&self) -> int {
        *self as int
    }

    fn is_prime(&self) -> (r: bool) {
        if *self < 0 {
            false
        } else {
            is_prime_u64(*self as u64)
        }
    }
}

impl IsPrime for i32 {
    open spec fn as_int(&self) -> int {
        *self as int
    }

    fn is_prime(&self) -> (r: bool) {
        if *self < 0 {
            false
        } else {
            is_prime_u64(*self as u64)
        }
    }
}

impl IsPrime for i16 {
    open spec fn as_int(&self) -> int {
        *self as int
    }

    fn is_prime(&self) -> (r: bool) {
        if *self < 0 {
            false
        } else {
            is_prime_u64(*self as u64)
        }
    }
}

impl IsPrime for i8 {
    open spec fn as_int(&self) -> int {
        *self as int
    }

    fn is_prime(&self) -> (r: bool) {
        if *self < 0 {
            false
        } else {
            is_prime_u64(*self as u64)
        }
    }
}

} // verus!
