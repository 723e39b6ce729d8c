//! Non-adjacent form: a signed-digit base-2 expansion with digits in
//! {-1, 0, 1} and no two adjacent nonzero digits, least significant digit
//! first. It minimizes the count of nonzero digits, and so the number of
//! add or subtract instructions a constant multiplication costs.

use vstd::arithmetic::div_mod::{
    lemma_fundamental_div_mod, lemma_fundamental_div_mod_converse, lemma_mod_bound,
    lemma_mod_multiples_vanish,
};
use vstd::arithmetic::power2::{lemma_pow2_unfold, pow2};
use vstd::prelude::*;

verus! {

/// Value of a signed-digit sequence, least significant digit first.
pub open spec fn naf_val(ds: Seq<i8>) -> int
    decreases ds.len(),
{
    if ds.len() == 0 {
        0
    } else {
        ds.first() + 2 * naf_val(ds.drop_first())
    }
}

/// All digits lie in {-1, 0, 1}.
pub open spec fn all_naf_digits(ds: Seq<i8>) -> bool {
    forall|j: int| 0 <= j < ds.len() ==> (#[trigger] ds[j] == 0 || ds[j] == 1 || ds[j] == -1)
}

/// No two adjacent digits are both nonzero.
pub open spec fn non_adjacent(ds: Seq<i8>) -> bool {
    forall|j: int| 0 <= j < ds.len() - 1 ==> (#[trigger] ds[j]) == 0 || ds[j + 1] == 0
}

/// Appending a digit adds its value at the weight of the old length.
pub proof fn lemma_naf_val_push(ds: Seq<i8>, z: i8)
    ensures
        naf_val(ds.push(z)) == naf_val(ds) + z * (pow2(ds.len()) as int),
    decreases ds.len(),
{
    reveal_with_fuel(naf_val, 3);
    if ds.len() == 0 {
        assert(ds.push(z).drop_first() =~= Seq::<i8>::empty());
        assert(pow2(0) == 1) by {
            vstd::arithmetic::power2::lemma2_to64();
        }
    } else {
        assert(ds.push(z).drop_first() =~= ds.drop_first().push(z));
        lemma_naf_val_push(ds.drop_first(), z);
        lemma_pow2_unfold(ds.len());
        let p = pow2((ds.len() - 1) as nat) as int;
        assert(2 * (naf_val(ds.drop_first()) + z * p) == 2 * naf_val(ds.drop_first()) + z * (2
            * p)) by (nonlinear_arith);
    }
}

/// The value of a digit sequence splits at any cut point.
pub proof fn lemma_naf_val_split(ds: Seq<i8>, k: int)
    requires
        0 <= k <= ds.len(),
    ensures
        naf_val(ds) == naf_val(ds.take(k)) + (pow2(k as nat) as int) * naf_val(ds.skip(k)),
    decreases k,
{
    reveal_with_fuel(naf_val, 3);
    if k == 0 {
        assert(ds.take(0) =~= Seq::<i8>::empty());
        assert(ds.skip(0) =~= ds);
        assert(pow2(0) == 1) by {
            vstd::arithmetic::power2::lemma2_to64();
        }
    } else {
        lemma_naf_val_split(ds.drop_first(), k - 1);
        assert(ds.take(k).drop_first() =~= ds.drop_first().take(k - 1));
        assert(ds.skip(k) =~= ds.drop_first().skip(k - 1));
        lemma_pow2_unfold(k as nat);
        let p = pow2((k - 1) as nat) as int;
        let tail = naf_val(ds.drop_first().skip(k - 1));
        assert(2 * (naf_val(ds.drop_first().take(k - 1)) + p * tail) == 2 * naf_val(
            ds.drop_first().take(k - 1),
        ) + (2 * p) * tail) by (nonlinear_arith);
    }
}

/// Compute the non-adjacent form of num, least significant digit first.
///
/// The digits are in {-1, 0, 1}, no two adjacent ones are both nonzero,
/// their weighted sum reconstructs num exactly, and the leading digit of a
/// nonzero number is 1.
pub fn find_naf(num: u32) -> (res: Vec<i8>)
    ensures
        naf_val(res@) == num as int,
        all_naf_digits(res@),
        non_adjacent(res@),
        res@.len() > 0 ==> res@.last() == 1,
        res@.len() == 0 <==> num == 0,
{
    let mut n: u64 = num as u64;
    let mut res: Vec<i8> = Vec::new();
    proof {
        vstd::arithmetic::power2::lemma2_to64();
        assert(res@ =~= Seq::<i8>::empty());
        assert(naf_val(res@) == 0);
    }
    while n != 0
        invariant
            n <= 0xffff_ffff,
            naf_val(res@) + (n as int) * (pow2(res@.len()) as int) == num as int,
            all_naf_digits(res@),
            non_adjacent(res@),
            res@.len() > 0 && res@.last() != 0 ==> n % 2 == 0,
            n == 0 && res@.len() > 0 ==> res@.last() == 1,
            num == 0 ==> n == 0 && res@.len() == 0,
        decreases n,
    {
        let ghost oldn = n as int;
        let ghost oldres = res@;
        let z: i8;
        if n % 2 == 1 {
            let m4 = n % 4;
            z = 2 - (m4 as i8);
            proof {
                lemma_fundamental_div_mod(oldn, 4);
                lemma_mod_bound(oldn, 4);
                lemma_mod_multiples_vanish(2 * (oldn / 4), oldn % 4, 2);
            }
            if z >= 0 {
                n = n - (z as u64);
            } else {
                n = n + ((-z) as u64);
            }
            proof {
                let q = oldn / 4;
                if z == 1 {
                    assert(n as int == 4 * q);
                    lemma_fundamental_div_mod_converse(n as int, 2, 2 * q, 0);
                    lemma_mod_multiples_vanish(2 * q, 0, 2);
                } else {
                    assert(n as int == 4 * (q + 1));
                    lemma_fundamental_div_mod_converse(n as int, 2, 2 * (q + 1), 0);
                    lemma_mod_multiples_vanish(2 * (q + 1), 0, 2);
                }
            }
        } else {
            z = 0;
            proof {
                lemma_fundamental_div_mod(oldn, 2);
            }
        }
        res.push(z);
        n = n / 2;
        proof {
            if z != 0 {
                let q = oldn / 4;
                if z == 1 {
                    lemma_mod_multiples_vanish(q, 0, 2);
                    assert(n as int == 2 * q);
                } else {
                    lemma_mod_multiples_vanish(q + 1, 0, 2);
                    assert(n as int == 2 * (q + 1));
                }
            }
        }
        proof {
            lemma_naf_val_push(oldres, z);
            lemma_pow2_unfold(oldres.len() + 1);
            let p = pow2(oldres.len()) as int;
            assert(z + 2 * (n as int) == oldn);
            assert((z as int) * p + (n as int) * (2 * p) == oldn * p) by (nonlinear_arith)
                requires
                    z + 2 * (n as int) == oldn,
            ;
            assert(naf_val(res@) + (n as int) * (pow2(res@.len()) as int) == num as int);
            assert forall|j: int| 0 <= j < res@.len() - 1 implies (#[trigger] res@[j]) == 0
                || res@[j + 1] == 0 by {
                if j < oldres.len() - 1 {
                    assert(oldres[j] == 0 || oldres[j + 1] == 0);
                }
            }
            if n as int == 0 {
                assert(oldn == z);
                assert(res@.last() == 1);
            }
        }
    }
    res
}

} // verus!
