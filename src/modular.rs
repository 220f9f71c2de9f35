use vstd::prelude::*;
use vstd::arithmetic::div_mod::{
    lemma_mul_mod_noop_left, lemma_mul_mod_noop_right, lemma_small_mod,
};
use vstd::arithmetic::power::{
    pow, lemma_pow0, lemma_pow1, lemma_pow_mod_noop, lemma_pow_adds, lemma_pow_multiplies,
};

verus! {

/// Returns `(a * b) % m`, computed through a 128-bit product so that no
/// intermediate value overflows.
pub fn mulmod_u64(a: u64, b: u64, m: u64) -> (r: u64)
    requires
        m >= 1,
    ensures
        r as int == (a as int * b as int) % (m as int),
{
    let aa = a as u128;
    let bb = b as u128;
    let mm = m as u128;
    assert(aa * bb <= u64::MAX as int * u64::MAX as int) by (nonlinear_arith)
        requires
            aa <= u64::MAX,
            bb <= u64::MAX,
    ;
    let rr = aa * bb % mm;
    rr as u64
}

/// One step of square-and-multiply: with `p = 2k + bit`, the product
/// `y * a^p` agrees modulo `m` with `y' * (a*a mod m)^k`, where `y'` is
/// `y * a mod m` when the bit is set and `y` otherwise.
proof fn lemma_square_and_multiply_step(y: int, a: int, p: nat, m: int)
    requires
        m > 0,
    ensures
        p % 2 == 1 ==> ((y * a) % m) * pow((a * a) % m, p / 2) % m == (y * pow(a, p)) % m,
        p % 2 == 0 ==> y * pow((a * a) % m, p / 2) % m == (y * pow(a, p)) % m,
{
    let k: nat = p / 2;
    let sq = (a * a) % m;
    lemma_pow_multiplies(a, 2, k);
    assert(pow(a, 2) == a * a) by {
        lemma_pow1(a);
        lemma_pow_adds(a, 1, 1);
    }
    assert(pow(a * a, k) == pow(a, 2 * k));
    lemma_pow_mod_noop(a * a, k, m);
    assert(pow(sq, k) % m == pow(a * a, k) % m);
    lemma_mul_mod_noop_right(y, pow(sq, k), m);
    lemma_mul_mod_noop_right(y, pow(a * a, k), m);
    assert(y * pow(sq, k) % m == y * pow(a * a, k) % m);
    if p % 2 == 1 {
        let ya = (y * a) % m;
        lemma_mul_mod_noop_right(ya, pow(sq, k), m);
        lemma_mul_mod_noop_right(ya, pow(a * a, k), m);
        lemma_mul_mod_noop_left(y * a, pow(a * a, k), m);
        assert(ya * pow(sq, k) % m == (y * a) * pow(a * a, k) % m);
        lemma_pow_adds(a, 1, 2 * k);
        lemma_pow1(a);
        assert(p == 1 + 2 * k);
        assert(pow(a, p) == a * pow(a, 2 * k));
        assert((y * a) * pow(a * a, k) == y * pow(a, p)) by (nonlinear_arith)
            requires
                pow(a, p) == a * pow(a, 2 * k),
                pow(a * a, k) == pow(a, 2 * k),
        ;
    } else {
        assert(p == 2 * k);
    }
}

/// Returns `a^p mod m` by binary (square-and-multiply) exponentiation.
/// For `p == 0` the result is the empty product `1`, which equals
/// `a^0 mod m` for every modulus above `1`.
pub fn powmod_u64(a: u64, p: u64, m: u64) -> (r: u64)
    requires
        m >= 1,
    ensures
        p == 0 ==> r == 1,
        p > 0 ==> r as int == pow(a as int, p as nat) % (m as int),
        m > 1 ==> r as int == pow(a as int, p as nat) % (m as int),
{
    let ghost a0 = a;
    let ghost p0 = p;
    let mut a = a;
    let mut p = p;
    let mut y: u64 = 1;
    proof {
        assert(pow(a as int, p as nat) == 1 * pow(a as int, p as nat));
    }
    while p > 0
        invariant
            m >= 1,
            p <= p0,
            (y as int * pow(a as int, p as nat)) % (m as int) == pow(a0 as int, p0 as nat) % (
            m as int),
            p0 == 0 ==> y == 1,
            p0 > 0 && p == 0 ==> y < m,
            y == 1 || y < m,
        decreases p,
    {
        proof {
            lemma_square_and_multiply_step(y as int, a as int, p as nat, m as int);
        }
        if p % 2 == 1 {
            y = mulmod_u64(y, a, m);
        }
        a = mulmod_u64(a, a, m);
        p /= 2;
    }
    proof {
        lemma_pow0(a as int);
        if p0 > 0 {
            lemma_small_mod(y as nat, m as nat);
        } else if m > 1 {
            lemma_small_mod(1, m as nat);
        }
    }
    y
}

} // verus!
