use vstd::prelude::*;
use vstd::arithmetic::div_mod::{
    lemma_add_mod_noop, lemma_fundamental_div_mod, lemma_mod_multiples_basic,
    lemma_mod_multiples_vanish, lemma_small_mod,
};
use vstd::arithmetic::power::{pow, lemma0_pow, lemma_pow0, lemma_pow_positive};

verus! {

/// `n` is prime: at least two, and divisible by no number strictly between
/// one and itself.
pub open spec fn is_prime(n: nat) -> bool {
    n >= 2 && forall|d: nat| 2 <= d < n ==> #[trigger] (n % d) != 0
}

/// Euclid's lemma: a prime that divides `a * b`, with `0 < a < p`, divides `b`.
pub proof fn lemma_prime_divides_factor(p: nat, a: nat, b: int)
    requires
        is_prime(p),
        0 < a < p,
        (a * b) % (p as int) == 0,
    ensures
        b % (p as int) == 0,
    decreases a,
{
    if a == 1 {
        assert(a * b == b) by (nonlinear_arith)
            requires
                a == 1,
        ;
    } else {
        let q = p / a;
        let r = p % a;
        assert(p % a != 0);
        lemma_fundamental_div_mod(p as int, a as int);
        lemma_fundamental_div_mod(a * b, p as int);
        let k = (a * b) / (p as int);
        assert(a * b == p * k);
        assert(r * b == p * (b - q * k)) by (nonlinear_arith)
            requires
                p == a * q + r,
                a * b == p * k,
        ;
        lemma_mod_multiples_basic(b - q * k, p as int);
        assert((r * b) % (p as int) == 0);
        lemma_prime_divides_factor(p, r, b);
    }
}

/// Binomial coefficients by Pascal's rule.
pub open spec fn binom(n: nat, k: nat) -> nat
    decreases n,
{
    if k == 0 {
        1
    } else if n == 0 {
        0
    } else {
        binom((n - 1) as nat, (k - 1) as nat) + binom((n - 1) as nat, k)
    }
}

proof fn lemma_binom_above(n: nat, k: nat)
    requires
        k > n,
    ensures
        binom(n, k) == 0,
    decreases n,
{
    if n > 0 {
        lemma_binom_above((n - 1) as nat, (k - 1) as nat);
        lemma_binom_above((n - 1) as nat, k);
    }
}

proof fn lemma_binom_diagonal(n: nat)
    ensures
        binom(n, n) == 1,
    decreases n,
{
    if n > 0 {
        lemma_binom_diagonal((n - 1) as nat);
        lemma_binom_above((n - 1) as nat, n);
    }
}

/// The absorption identity `k * C(n, k) == n * C(n - 1, k - 1)`.
proof fn lemma_binom_absorption(n: nat, k: nat)
    requires
        n >= 1,
        k >= 1,
    ensures
        k * binom(n, k) == n * binom((n - 1) as nat, (k - 1) as nat),
    decreases n,
{
    if n == 1 {
        assert(binom(1, k) == binom(0, (k - 1) as nat) + binom(0, k));
        lemma_binom_above(0, k);
        if k > 1 {
            lemma_binom_above(0, (k - 1) as nat);
            assert(k * binom(1, k) == 0) by (nonlinear_arith)
                requires
                    binom(1, k) == 0,
            ;
        } else {
            assert(binom(0, 0) == 1);
        }
    } else {
        let n1 = (n - 1) as nat;
        let n2 = (n - 2) as nat;
        lemma_binom_absorption(n1, k);
        assert(binom(n, k) == binom(n1, (k - 1) as nat) + binom(n1, k));
        if k == 1 {
            assert(binom(n1, 0) == 1 && binom(n2, 0) == 1);
            assert(binom(n1, 1) == n1) by (nonlinear_arith)
                requires
                    1 * binom(n1, 1) == n1 * binom(n2, 0),
                    binom(n2, 0) == 1,
            ;
        } else {
            let k1 = (k - 1) as nat;
            let k2 = (k - 2) as nat;
            lemma_binom_absorption(n1, k1);
            assert(binom(n1, k1) == binom(n2, k2) + binom(n2, k1));
            assert(k * binom(n, k) == n * binom(n1, k1)) by (nonlinear_arith)
                requires
                    binom(n, k) == binom(n1, k1) + binom(n1, k),
                    binom(n1, k1) == binom(n2, k2) + binom(n2, k1),
                    k * binom(n1, k) == n1 * binom(n2, k1),
                    k1 * binom(n1, k1) == n1 * binom(n2, k2),
                    k1 == k - 1,
                    n1 == n - 1,
            ;
        }
    }
}

/// A prime `p` divides `C(p, k)` for `0 < k < p`.
proof fn lemma_prime_divides_binom(p: nat, k: nat)
    requires
        is_prime(p),
        0 < k < p,
    ensures
        binom(p, k) % p == 0,
{
    lemma_binom_absorption(p, k);
    let t = binom((p - 1) as nat, (k - 1) as nat);
    lemma_mod_multiples_basic(t as int, p as int);
    assert(k * binom(p, k) == t * p);
    lemma_prime_divides_factor(p, k, binom(p, k) as int);
}

/// `C(n, 0) + C(n, 1) x + ... + C(n, k - 1) x^(k - 1)`.
pub open spec fn binom_sum(x: int, n: nat, k: nat) -> int
    decreases k,
{
    if k == 0 {
        0
    } else {
        binom_sum(x, n, (k - 1) as nat) + binom(n, (k - 1) as nat) * pow(x, (k - 1) as nat)
    }
}

proof fn lemma_pow_succ(x: int, k: nat)
    ensures
        pow(x, k + 1) == x * pow(x, k),
{
    reveal(pow);
}

/// Pascal's rule carried over to the partial sums.
proof fn lemma_binom_sum_pascal(x: int, n: nat, k: nat)
    ensures
        binom_sum(x, n + 1, k + 1) == binom_sum(x, n, k + 1) + x * binom_sum(x, n, k),
    decreases k,
{
    lemma_pow0(x);
    if k == 0 {
        assert(binom(n + 1, 0) == 1 && binom(n, 0) == 1);
        assert(binom_sum(x, n + 1, 0) == 0 && binom_sum(x, n, 0) == 0);
        assert(binom_sum(x, n + 1, 1) == 1);
        assert(binom_sum(x, n, 1) == 1);
        assert(x * binom_sum(x, n, 0) == 0);
    } else {
        let k1 = (k - 1) as nat;
        lemma_binom_sum_pascal(x, n, k1);
        lemma_pow_succ(x, k1);
        let a = binom_sum(x, n, k);
        let b = binom_sum(x, n, k1);
        assert(binom(n + 1, k) == binom(n, k1) + binom(n, k));
        assert(binom_sum(x, n + 1, k) == a + x * b);
        assert(binom_sum(x, n, k) == b + binom(n, k1) * pow(x, k1));
        assert(binom_sum(x, n + 1, k + 1) == binom_sum(x, n, k + 1) + x * a) by (nonlinear_arith)
            requires
                binom_sum(x, n + 1, k + 1) == binom_sum(x, n + 1, k) + binom(n + 1, k) * pow(x, k),
                binom_sum(x, n, k + 1) == a + binom(n, k) * pow(x, k),
                binom_sum(x, n + 1, k) == a + x * b,
                a == b + binom(n, k1) * pow(x, k1),
                binom(n + 1, k) == binom(n, k1) + binom(n, k),
                pow(x, k) == x * pow(x, k1),
        ;
    }
}

/// The binomial theorem for `(x + 1)^n`.
proof fn lemma_binomial_theorem(x: int, n: nat)
    ensures
        pow(x + 1, n) == binom_sum(x, n, n + 1),
    decreases n,
{
    lemma_pow0(x);
    lemma_pow0(x + 1);
    if n == 0 {
        assert(binom(0, 0) == 1);
        assert(binom_sum(x, 0, 0) == 0);
        assert(binom_sum(x, 0, 1) == 1);
    } else {
        let n1 = (n - 1) as nat;
        lemma_binomial_theorem(x, n1);
        lemma_binom_sum_pascal(x, n1, n);
        lemma_binom_above(n1, n);
        lemma_pow_succ(x + 1, n1);
        let s = binom_sum(x, n1, n);
        assert(binom_sum(x, n1, n + 1) == s);
        assert(pow(x + 1, n) == s + x * s) by (nonlinear_arith)
            requires
                pow(x + 1, n) == (x + 1) * pow(x + 1, n1),
                pow(x + 1, n1) == s,
        ;
    }
}

/// For a prime `p`, every middle term of the expansion vanishes modulo `p`.
proof fn lemma_binom_sum_mod_prime(x: int, p: nat, k: nat)
    requires
        is_prime(p),
        1 <= k <= p,
    ensures
        binom_sum(x, p, k) % (p as int) == 1,
    decreases k,
{
    lemma_pow0(x);
    if k == 1 {
        assert(binom_sum(x, p, 0) == 0);
        lemma_small_mod(1, p);
    } else {
        let k1 = (k - 1) as nat;
        lemma_binom_sum_mod_prime(x, p, k1);
        lemma_prime_divides_binom(p, k1);
        let t = binom(p, k1) / p;
        lemma_fundamental_div_mod(binom(p, k1) as int, p as int);
        assert(binom(p, k1) == p * t);
        let rest = binom_sum(x, p, k1);
        assert(binom_sum(x, p, k) == p * (t * pow(x, k1)) + rest) by (nonlinear_arith)
            requires
                binom_sum(x, p, k) == rest + binom(p, k1) * pow(x, k1),
                binom(p, k1) == p * t,
        ;
        lemma_mod_multiples_vanish(t * pow(x, k1), rest, p as int);
    }
}

/// The step of Fermat's little theorem: `(x + 1)^p == x^p + 1 (mod p)`.
proof fn lemma_freshman_step(x: int, p: nat)
    requires
        is_prime(p),
    ensures
        pow(x + 1, p) % (p as int) == (pow(x, p) + 1) % (p as int),
{
    lemma_binomial_theorem(x, p);
    lemma_binom_diagonal(p);
    lemma_binom_sum_mod_prime(x, p, p);
    let s = binom_sum(x, p, p);
    lemma_fundamental_div_mod(s, p as int);
    let q = s / (p as int);
    assert(binom_sum(x, p, p + 1) == s + binom(p, p) * pow(x, p));
    assert(s == p * q + 1);
    assert(pow(x + 1, p) == p * q + (pow(x, p) + 1)) by (nonlinear_arith)
        requires
            pow(x + 1, p) == s + binom(p, p) * pow(x, p),
            binom(p, p) == 1,
            s == p * q + 1,
    ;
    lemma_mod_multiples_vanish(q, pow(x, p) + 1, p as int);
}

/// Fermat's little theorem: `a^p == a (mod p)` for a prime `p`.
pub proof fn lemma_fermat(a: nat, p: nat)
    requires
        is_prime(p),
    ensures
        pow(a as int, p) % (p as int) == (a as int) % (p as int),
    decreases a,
{
    if a == 0 {
        lemma0_pow(p);
    } else {
        let a1 = (a - 1) as nat;
        lemma_fermat(a1, p);
        lemma_freshman_step(a1 as int, p);
        lemma_add_mod_noop(pow(a1 as int, p), 1, p as int);
        lemma_add_mod_noop(a1 as int, 1, p as int);
    }
}

/// Fermat's little theorem for a base coprime to `p`: `a^(p - 1) == 1 (mod p)`.
pub proof fn lemma_fermat_unit(a: nat, p: nat)
    requires
        is_prime(p),
        0 < a < p,
    ensures
        pow(a as int, (p - 1) as nat) % (p as int) == 1,
{
    let e = (p - 1) as nat;
    lemma_fermat(a, p);
    lemma_pow_succ(a as int, e);
    lemma_small_mod(a, p);
    let y = pow(a as int, e);
    lemma_pow_positive(a as int, e);
    lemma_fundamental_div_mod(a * y, p as int);
    let k = (a * y) / (p as int);
    assert(a * (y - 1) == k * p) by (nonlinear_arith)
        requires
            a * y == p * k + a,
    ;
    lemma_mod_multiples_basic(k, p as int);
    lemma_prime_divides_factor(p, a, y - 1);
    lemma_fundamental_div_mod(y - 1, p as int);
    let t = (y - 1) / (p as int);
    assert(y == p * t + 1);
    lemma_mod_multiples_vanish(t, 1, p as int);
    lemma_small_mod(1, p);
}

/// Modulo a prime, the only square roots of one are `1` and `p - 1`.
pub proof fn lemma_square_roots_of_one(p: nat, x: nat)
    requires
        is_prime(p),
        x < p,
        ((x * x) as int) % (p as int) == 1,
    ensures
        x == 1 || x == p - 1,
{
    if x == 0 {
        assert(x * x == 0);
        lemma_small_mod(0, p);
        assert(((x * x) as int) % (p as int) == 0);
    } else if x != 1 {
        let xi = x as int;
        lemma_fundamental_div_mod(xi * xi, p as int);
        let k = (xi * xi) / (p as int);
        assert((xi - 1) * (xi + 1) == k * p) by (nonlinear_arith)
            requires
                xi * xi == p * k + 1,
        ;
        lemma_mod_multiples_basic(k, p as int);
        let a: nat = (x - 1) as nat;
        assert(a * (xi + 1) == k * p);
        assert((a * (xi + 1)) % (p as int) == 0);
        lemma_prime_divides_factor(p, a, xi + 1);
        lemma_fundamental_div_mod(xi + 1, p as int);
        let t = (xi + 1) / (p as int);
        assert(xi + 1 == p * t);
        assert(t == 1) by (nonlinear_arith)
            requires
                xi + 1 == p * t,
                2 <= xi < p,
        ;
        assert(xi + 1 == p);
    }
}

} // verus!
