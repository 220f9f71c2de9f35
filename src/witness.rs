use vstd::prelude::*;
use vstd::arithmetic::div_mod::lemma_mul_mod_noop;
use vstd::arithmetic::power::{
    pow, lemma_pow0, lemma_pow1, lemma_pow_adds, lemma_pow_increases, lemma_pow_multiplies,
    lemma_pow_positive,
};
use vstd::arithmetic::power2::lemma2_to64;
use crate::modular::{mulmod_u64, powmod_u64};
use crate::number_theory::{is_prime, lemma_fermat_unit, lemma_square_roots_of_one};

verus! {

/// The exponent of the largest power of two that divides `m` (`0` for `m == 0`).
pub open spec fn two_adic(m: nat) -> nat
    decreases m,
{
    if m > 0 && m % 2 == 0 {
        1 + two_adic(m / 2)
    } else {
        0
    }
}

/// `m` with every factor two removed, so that `m == odd_part(m) * 2^two_adic(m)`.
pub open spec fn odd_part(m: nat) -> nat
    decreases m,
{
    if m > 0 && m % 2 == 0 {
        odd_part(m / 2)
    } else {
        m
    }
}

/// With `n - 1 == d * 2^s` and `d` odd: the residue `a^(d * 2^r) mod n`.
pub open spec fn square_chain(n: nat, a: nat, r: nat) -> int {
    pow(a as int, odd_part((n - 1) as nat) * pow(2, r) as nat) % (n as int)
}

/// The strong probable-prime condition of `n` to the base `a`: `a` is zero,
/// or `a^d == 1 (mod n)`, or `a^(d * 2^r) == -1 (mod n)` for some `r < s`,
/// where `n - 1 == d * 2^s` with `d` odd.  A base for which it fails proves
/// `n` composite.
pub open spec fn strong_probable_prime(n: nat, a: nat) -> bool {
    a == 0 || square_chain(n, a, 0) == 1 || exists|r: nat|
        r < two_adic((n - 1) as nat) && #[trigger] square_chain(n, a, r) == n - 1
}

/// Each further term of the chain is the square of the one before, modulo `n`.
proof fn lemma_square_chain_next(n: nat, a: nat, r: nat)
    requires
        n > 0,
    ensures
        square_chain(n, a, r + 1) == (square_chain(n, a, r) * square_chain(n, a, r)) % (n as int),
{
    let d = odd_part((n - 1) as nat);
    let e: nat = (d * pow(2, r)) as nat;
    lemma_pow1(2);
    lemma_pow_adds(2, r, 1);
    assert(pow(2, r + 1) == pow(2, r) * 2);
    lemma_pow_positive(2, r);
    assert(d * pow(2, r + 1) == e * 2) by (nonlinear_arith)
        requires
            pow(2, r + 1) == pow(2, r) * 2,
            e == d * pow(2, r),
            pow(2, r) > 0,
    ;
    assert((d * pow(2, r + 1)) as nat == e * 2);
    lemma_pow_multiplies(a as int, e, 2);
    let x = pow(a as int, e);
    assert(pow(x, 2) == x * x) by {
        lemma_pow1(x);
        lemma_pow_adds(x, 1, 1);
    }
    lemma_mul_mod_noop(x, x, n as int);
}

/// The decomposition `n - 1 == d * 2^s` taken apart one factor two at a time.
proof fn lemma_halve(m: nat)
    requires
        m > 0,
        m % 2 == 0,
    ensures
        odd_part(m / 2) == odd_part(m),
        two_adic(m / 2) + 1 == two_adic(m),
{
}

/// `m == odd_part(m) * 2^two_adic(m)`.
proof fn lemma_decomposition(m: nat)
    requires
        m > 0,
    ensures
        odd_part(m) * pow(2, two_adic(m)) == m,
    decreases m,
{
    if m % 2 == 0 {
        lemma_decomposition(m / 2);
        lemma_pow1(2);
        lemma_pow_adds(2, two_adic(m / 2), 1);
        let e = pow(2, two_adic(m / 2));
        assert(odd_part(m) * pow(2, two_adic(m)) == m) by (nonlinear_arith)
            requires
                odd_part(m) == odd_part(m / 2),
                pow(2, two_adic(m)) == e * 2,
                odd_part(m / 2) * e == m / 2,
                m % 2 == 0,
        ;
    } else {
        lemma_pow0(2);
    }
}

/// If the chain never reaches `-1` before step `r` and does not start at
/// `1`, then modulo a prime it has not reached `1` by step `r` either.
proof fn lemma_chain_avoids_one(n: nat, a: nat, r: nat)
    requires
        is_prime(n),
        square_chain(n, a, 0) != 1,
        forall|j: nat| j < r ==> #[trigger] square_chain(n, a, j) != n - 1,
    ensures
        square_chain(n, a, r) != 1,
    decreases r,
{
    if r > 0 {
        let r1 = (r - 1) as nat;
        lemma_chain_avoids_one(n, a, r1);
        lemma_square_chain_next(n, a, r1);
        let x = square_chain(n, a, r1);
        assert(square_chain(n, a, r1) != n - 1);
        if square_chain(n, a, r) == 1 {
            lemma_square_roots_of_one(n, x as nat);
        }
    }
}

/// A prime passes the strong test to every base: no base proves a prime
/// composite.
pub proof fn lemma_prime_is_strong_probable_prime(n: nat, a: nat)
    requires
        is_prime(n),
        a < n,
    ensures
        strong_probable_prime(n, a),
{
    if a > 0 && !strong_probable_prime(n, a) {
        let m = (n - 1) as nat;
        let s = two_adic(m);
        lemma_decomposition(m);
        lemma_fermat_unit(a, n);
        lemma_pow_positive(2, s);
        assert(odd_part(m) * (pow(2, s) as nat) == m);
        assert(square_chain(n, a, s) == 1);
        lemma_chain_avoids_one(n, a, s);
    }
}

/// Runs the strong probable-prime test of the odd number `n > 3` to the base
/// `a < n`.  Returns `true` when `a` does not prove `n` composite.
pub fn improved_felmat_test(n: u64, a: u64) -> (r: bool)
    requires
        n > 3,
        n % 2 == 1,
        a < n,
    ensures
        r == strong_probable_prime(n as nat, a as nat),
{
    if a == 0 {
        return true;
    }
    let mut d: u64 = n - 1;
    let mut s: u32 = 0;
    proof {
        lemma_pow0(2);
    }
    while d % 2 == 0
        invariant
            d > 0,
            s <= 64,
            odd_part(d as nat) == odd_part((n - 1) as nat),
            two_adic(d as nat) + s == two_adic((n - 1) as nat),
            pow(2, s as nat) * d == n - 1,
        decreases d,
    {
        proof {
            lemma_halve(d as nat);
            lemma_pow1(2);
            lemma_pow_adds(2, s as nat, 1);
            assert(pow(2, (s + 1) as nat) * (d / 2) == pow(2, s as nat) * d) by (nonlinear_arith)
                requires
                    pow(2, (s + 1) as nat) == pow(2, s as nat) * 2,
                    d % 2 == 0,
            ;
            if s >= 64 {
                lemma_pow_increases(2, 64, s as nat);
                lemma2_to64();
                lemma_pow_positive(2, 64);
                assert(pow(2, 64) == 0x10000000000000000);
                lemma_pow_positive(2, s as nat);
                assert(pow(2, s as nat) * d >= pow(2, s as nat)) by (nonlinear_arith)
                    requires
                        d > 0,
                        pow(2, s as nat) > 0,
                ;
            }
        }
        d = d / 2;
        s = s + 1;
    }
    proof {
        assert(odd_part(d as nat) == d);
        assert(two_adic(d as nat) == 0);
    }
    let mut ap = powmod_u64(a, d, n);
    proof {
        lemma_pow0(2);
        assert(d * pow(2, 0) == d);
    }
    if ap == 1 {
        return true;
    }
    let mut i: u32 = 0;
    while i < s
        invariant
            n > 3,
            0 <= i <= s,
            s == two_adic((n - 1) as nat),
            ap as int == square_chain(n as nat, a as nat, i as nat),
            square_chain(n as nat, a as nat, 0) != 1,
            forall|j: nat| j < i ==> #[trigger] square_chain(n as nat, a as nat, j) != n - 1,
        decreases s - i,
    {
        if ap == n - 1 {
            return true;
        }
        proof {
            lemma_square_chain_next(n as nat, a as nat, i as nat);
        }
        ap = mulmod_u64(ap, ap, n);
        i = i + 1;
    }
    false
}

} // verus!
