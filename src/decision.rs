use vstd::prelude::*;
use crate::witness::{improved_felmat_test, strong_probable_prime};

verus! {

broadcast use vstd::array::group_array_axioms;

/// The witness bases used for `n`: the table of the first tier whose bound
/// exceeds `n`.  Passing the strong test for every base of a tier's table
/// is known to imply primality for every `n` below that tier's bound.
pub open spec fn witness_table(n: u64) -> Seq<u64> {
    if n < 341531 {
        seq![9345883071009581737]
    } else if n < 1050535501 {
        seq![336781006125, 9639812373923155]
    } else if n < 350269456337 {
        seq![4230279247111683200, 14694767155120705706, 16641139526367750375]
    } else if n < 55245642489451 {
        seq![2, 141889084524735, 1199124725622454117, 11096072698276303650]
    } else if n < 7999252175582851 {
        seq![2, 4130806001517, 149795463772692060, 186635894390467037, 3967304179347715805]
    } else if n < 585226005592931977 {
        seq![
            2,
            123635709730000,
            9233062284813009,
            43835965440333360,
            761179012939631437,
            1263739024124850375,
        ]
    } else {
        seq![2, 325, 9375, 28178, 450775, 9780504, 1795265022]
    }
}

/// Every base of `bases`, reduced modulo `n`, passes the strong test.
pub open spec fn all_bases_pass(n: u64, bases: Seq<u64>) -> bool {
    forall|i: int|
        0 <= i < bases.len() ==> #[trigger] strong_probable_prime(
            n as nat,
            (bases[i] % n) as nat,
        )
}

/// The Miller-Rabin verdict on `n` with the bases of its tier.
pub open spec fn miller_rabin_verdict(n: u64) -> bool {
    all_bases_pass(n, witness_table(n))
}

/// Runs the strong test on each base of `bases` in order, stopping at the
/// first one that proves `n` composite.
fn bases_pass(n: u64, bases: &[u64]) -> (r: bool)
    requires
        n > 3,
        n % 2 == 1,
    ensures
        r == all_bases_pass(n, bases@),
{
    let mut i: usize = 0;
    while i < bases.len()
        invariant
            n > 3,
            n % 2 == 1,
            0 <= i <= bases@.len(),
            forall|j: int|
                0 <= j < i ==> #[trigger] strong_probable_prime(
                    n as nat,
                    (bases@[j] % n) as nat,
                ),
        decreases bases@.len() - i,
    {
        if !improved_felmat_test(n, bases[i] % n) {
            return false;
        }
        i = i + 1;
    }
    true
}

/// The deterministic Miller-Rabin test of the odd number `n > 3` with the
/// bases of its magnitude tier.
pub fn miller_rabin_primality_test(n: u64) -> (r: bool)
    requires
        n > 3,
        n % 2 == 1,
    ensures
        r == miller_rabin_verdict(n),
{
    if n < 341531 {
        let bases: [u64; 1] = [9345883071009581737];
        assert(bases@ =~= witness_table(n));
        bases_pass(n, bases.as_slice())
    } else if n < 1050535501 {
        let bases: [u64; 2] = [336781006125, 9639812373923155];
        assert(bases@ =~= witness_table(n));
        bases_pass(n, bases.as_slice())
    } else if n < 350269456337 {
        let bases: [u64; 3] = [4230279247111683200, 14694767155120705706, 16641139526367750375];
        assert(bases@ =~= witness_table(n));
        bases_pass(n, bases.as_slice())
    } else if n < 55245642489451 {
        let bases: [u64; 4] = [2, 141889084524735, 1199124725622454117, 11096072698276303650];
        assert(bases@ =~= witness_table(n));
        bases_pass(n, bases.as_slice())
    } else if n < 7999252175582851 {
        let bases: [u64; 5] = [
            2,
            4130806001517,
            149795463772692060,
            186635894390467037,
            3967304179347715805,
        ];
        assert(bases@ =~= witness_table(n));
        bases_pass(n, bases.as_slice())
    } else if n < 585226005592931977 {
        let bases: [u64; 6] = [
            2,
            123635709730000,
            9233062284813009,
            43835965440333360,
            761179012939631437,
            1263739024124850375,
        ];
        assert(bases@ =~= witness_table(n));
        bases_pass(n, bases.as_slice())
    } else {
        let bases: [u64; 7] = [2, 325, 9375, 28178, 450775, 9780504, 1795265022];
        assert(bases@ =~= witness_table(n));
        bases_pass(n, bases.as_slice())
    }
}

} // verus!
