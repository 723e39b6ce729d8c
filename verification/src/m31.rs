//! Program generators for arithmetic in the field of residues modulo the
//! Mersenne prime P = 2^31 - 1.
//!
//! A field element sits on the machine's stack in one of two encodings of
//! the same residue:
//! - canonical ("m31"): an integer in [0, P-1];
//! - twisted ("n31"): an integer in [-P, -1], the canonical value minus P.
//!
//! Every generator returns an instruction sequence; its contract says, for
//! every starting stack holding valid encodings, exactly what stack the
//! machine reaches. A precondition violation (an out-of-range operand) is
//! not detected at generation time: the contract simply says nothing about
//! such stacks, mirroring the machine's silent wrong answer.

use crate::naf::{all_naf_digits, find_naf, lemma_naf_val_push, lemma_naf_val_split, naf_val};
use crate::vm::{bool_val, cat, lemma_run_append, run, BaseInstr, Instr};
use vstd::arithmetic::div_mod::{
    lemma_add_mod_noop, lemma_div_pos_is_pos, lemma_fundamental_div_mod,
    lemma_fundamental_div_mod_converse, lemma_fundamental_div_mod_converse_mod, lemma_mod_bound,
    lemma_mod_multiples_vanish, lemma_mul_mod_noop_right, lemma_small_mod, lemma_sub_mod_noop,
};
use vstd::arithmetic::power2::{
    lemma2_to64, lemma_pow2_adds, lemma_pow2_pos, lemma_pow2_strictly_increases,
    lemma_pow2_unfold, pow2,
};
use vstd::arithmetic::div_mod::lemma_basic_div;
use vstd::prelude::*;

verus! {

/// Modulus of the M31 field.
pub const MOD: u32 = 0x7fff_ffff;

/// The modulus as an unbounded integer.
pub open spec fn p31() -> int {
    MOD as int
}

/// A canonical field element: an integer in [0, P-1].
pub open spec fn is_m31(v: i64) -> bool {
    0 <= v < p31()
}

/// A twisted field element: an integer in [-P, -1].
pub open spec fn is_n31(v: i64) -> bool {
    -p31() <= v <= -1
}

/// Push a zero M31 element.
///
/// Output: 0
pub fn push_m31_zero() -> (s: Vec<Instr>)
    ensures
        forall|st: Seq<i64>, alt: Seq<i64>| #![trigger run(s@, st, alt)]
            run(s@, st, alt) == Some((st.push(0i64), alt)),
{
    let mut s: Vec<Instr> = Vec::new();
    s.push(Instr::Op(BaseInstr::Push(0)));
    proof {
        assert forall|st: Seq<i64>, alt: Seq<i64>| run(s@, st, alt) == Some(
            (st.push(0i64), alt),
        ) by {
            reveal_with_fuel(run, 3);
        }
    }
    s
}

/// Push a one M31 element.
///
/// Output: 1
pub fn push_m31_one() -> (s: Vec<Instr>)
    ensures
        forall|st: Seq<i64>, alt: Seq<i64>| #![trigger run(s@, st, alt)]
            run(s@, st, alt) == Some((st.push(1i64), alt)),
{
    let mut s: Vec<Instr> = Vec::new();
    s.push(Instr::Op(BaseInstr::Push(1)));
    proof {
        assert forall|st: Seq<i64>, alt: Seq<i64>| run(s@, st, alt) == Some(
            (st.push(1i64), alt),
        ) by {
            reveal_with_fuel(run, 3);
        }
    }
    s
}

/// Push a zero twisted M31 element.
///
/// Output: -P
pub fn push_n31_zero() -> (s: Vec<Instr>)
    ensures
        forall|st: Seq<i64>, alt: Seq<i64>| #![trigger run(s@, st, alt)]
            run(s@, st, alt) == Some((st.push((-p31()) as i64), alt)),
{
    let mut s: Vec<Instr> = Vec::new();
    s.push(Instr::Op(BaseInstr::Push(-(MOD as i64))));
    proof {
        assert forall|st: Seq<i64>, alt: Seq<i64>| run(s@, st, alt) == Some(
            (st.push((-p31()) as i64), alt),
        ) by {
            reveal_with_fuel(run, 3);
        }
    }
    s
}

/// Push a one twisted M31 element.
///
/// Output: 1 - P
pub fn push_n31_one() -> (s: Vec<Instr>)
    ensures
        forall|st: Seq<i64>, alt: Seq<i64>| #![trigger run(s@, st, alt)]
            run(s@, st, alt) == Some((st.push((1 - p31()) as i64), alt)),
{
    let mut s: Vec<Instr> = Vec::new();
    s.push(Instr::Op(BaseInstr::Push(1 - (MOD as i64))));
    proof {
        assert forall|st: Seq<i64>, alt: Seq<i64>| run(s@, st, alt) == Some(
            (st.push((1 - p31()) as i64), alt),
        ) by {
            reveal_with_fuel(run, 3);
        }
    }
    s
}

/// Pull an M31 element from the bottom of the stack to the top.
pub fn m31_from_bottom() -> (s: Vec<Instr>)
    ensures
        forall|st: Seq<i64>, alt: Seq<i64>| #![trigger run(s@, st, alt)]
            1 <= st.len() <= i64::MAX ==> run(s@, st, alt) == Some(
                (st.drop_first().push(st.first()), alt),
            ),
{
    let mut s: Vec<Instr> = Vec::new();
    s.push(Instr::Op(BaseInstr::Depth));
    s.push(Instr::Op(BaseInstr::Push(1)));
    s.push(Instr::Op(BaseInstr::Sub));
    s.push(Instr::Op(BaseInstr::Roll));
    proof {
        assert forall|st: Seq<i64>, alt: Seq<i64>| 1 <= st.len() <= i64::MAX implies run(
            s@,
            st,
            alt,
        ) == Some((st.drop_first().push(st.first()), alt)) by {
            reveal_with_fuel(run, 6);
            let d = st.len() as i64;
            assert(st.push(d).push(1).drop_last().drop_last() =~= st);
            let st3 = st.push((d - 1) as i64);
            assert(st3.drop_last() =~= st);
            assert(st3.drop_last().remove(0) =~= st.drop_first());
        }
    }
    s
}

/// Convert an M31 element into a twisted M31 element.
pub fn m31_to_n31() -> (s: Vec<Instr>)
    ensures
        forall|st: Seq<i64>, alt: Seq<i64>| #![trigger run(s@, st, alt)]
            st.len() >= 1 && is_m31(st.last()) ==> run(s@, st, alt) == Some(
                (st.drop_last().push((st.last() - p31()) as i64), alt),
            ),
{
    let mut s: Vec<Instr> = Vec::new();
    s.push(Instr::Op(BaseInstr::Push(MOD as i64)));
    s.push(Instr::Op(BaseInstr::Sub));
    proof {
        assert forall|st: Seq<i64>, alt: Seq<i64>| st.len() >= 1 && is_m31(st.last()) implies run(
            s@,
            st,
            alt,
        ) == Some((st.drop_last().push((st.last() - p31()) as i64), alt)) by {
            reveal_with_fuel(run, 4);
            assert(st.push(MOD as i64).drop_last() =~= st);
        }
    }
    s
}

/// Convert a twisted M31 element into an M31 element.
pub fn n31_to_m31() -> (s: Vec<Instr>)
    ensures
        forall|st: Seq<i64>, alt: Seq<i64>| #![trigger run(s@, st, alt)]
            st.len() >= 1 && is_n31(st.last()) ==> run(s@, st, alt) == Some(
                (st.drop_last().push((st.last() + p31()) as i64), alt),
            ),
{
    let mut s: Vec<Instr> = Vec::new();
    s.push(Instr::Op(BaseInstr::Push(MOD as i64)));
    s.push(Instr::Op(BaseInstr::Add));
    proof {
        assert forall|st: Seq<i64>, alt: Seq<i64>| st.len() >= 1 && is_n31(st.last()) implies run(
            s@,
            st,
            alt,
        ) == Some((st.drop_last().push((st.last() + p31()) as i64), alt)) by {
            reveal_with_fuel(run, 4);
            assert(st.push(MOD as i64).drop_last() =~= st);
        }
    }
    s
}

/// Canonicalize a raw sum or difference known to lie in (-P, P): when it is
/// negative, add P.
#[verifier::rlimit(60)]
fn m31_adjust() -> (s: Vec<Instr>)
    ensures
        forall|st: Seq<i64>, alt: Seq<i64>| #![trigger run(s@, st, alt)]
            st.len() >= 1 && -p31() <= st.last() < p31() ==> run(s@, st, alt) == Some(
                (st.drop_last().push(((st.last() + p31()) % p31()) as i64), alt),
            ),
{
    let mut body: Vec<BaseInstr> = Vec::new();
    body.push(BaseInstr::Push(MOD as i64));
    body.push(BaseInstr::Add);
    let mut s: Vec<Instr> = Vec::new();
    s.push(Instr::Op(BaseInstr::Dup));
    s.push(Instr::Op(BaseInstr::Push(0)));
    s.push(Instr::Op(BaseInstr::LessThan));
    s.push(Instr::Branch(body));
    proof {
        assert forall|st: Seq<i64>, alt: Seq<i64>|
            st.len() >= 1 && -p31() <= st.last() < p31() implies run(s@, st, alt) == Some(
            (st.drop_last().push(((st.last() + p31()) % p31()) as i64), alt),
        ) by {
            reveal_with_fuel(run, 8);
            reveal_with_fuel(crate::vm::run_ops, 4);
            let r = st.last();
            assert(st.push(r).push(0).drop_last().drop_last() =~= st);
            let bv = crate::vm::bool_val(r < 0);
            assert(st.push(bv).drop_last() =~= st);
            if r < 0 {
                assert(st.push(MOD as i64).drop_last() =~= st);
                assert((r + p31()) % p31() == r + p31());
            } else {
                assert((r + p31()) % p31() == r);
                assert(st.drop_last().push(st.last()) =~= st);
            }
        }
    }
    s
}

/// Bring a raw sum or difference known to lie in (-P, P) back to the twisted
/// range: when it is nonnegative, subtract P.
#[verifier::rlimit(60)]
fn n31_adjust() -> (s: Vec<Instr>)
    ensures
        forall|st: Seq<i64>, alt: Seq<i64>| #![trigger run(s@, st, alt)]
            st.len() >= 1 && -p31() <= st.last() < p31() ==> run(s@, st, alt) == Some(
                (st.drop_last().push((((st.last() + p31()) % p31()) - p31()) as i64), alt),
            ),
{
    let mut body: Vec<BaseInstr> = Vec::new();
    body.push(BaseInstr::Push(MOD as i64));
    body.push(BaseInstr::Sub);
    let mut s: Vec<Instr> = Vec::new();
    s.push(Instr::Op(BaseInstr::Dup));
    s.push(Instr::Op(BaseInstr::Push(0)));
    s.push(Instr::Op(BaseInstr::GreaterOrEqual));
    s.push(Instr::Branch(body));
    proof {
        assert forall|st: Seq<i64>, alt: Seq<i64>|
            st.len() >= 1 && -p31() <= st.last() < p31() implies run(s@, st, alt) == Some(
            (st.drop_last().push((((st.last() + p31()) % p31()) - p31()) as i64), alt),
        ) by {
            reveal_with_fuel(run, 8);
            reveal_with_fuel(crate::vm::run_ops, 4);
            let r = st.last();
            assert(st.push(r).push(0).drop_last().drop_last() =~= st);
            let bv = crate::vm::bool_val(r >= 0);
            assert(st.push(bv).drop_last() =~= st);
            if r >= 0 {
                assert(st.push(MOD as i64).drop_last() =~= st);
                assert((r + p31()) % p31() == r);
            } else {
                assert((r + p31()) % p31() == r + p31());
                assert(st.drop_last().push(st.last()) =~= st);
            }
        }
    }
    s
}

/// Add a twisted M31 element to an M31 element, yielding an M31 element.
pub fn m31_add_n31() -> (s: Vec<Instr>)
    ensures
        forall|st: Seq<i64>, alt: Seq<i64>| #![trigger run(s@, st, alt)]
            st.len() >= 2 && is_m31(st[st.len() - 2]) && is_n31(st.last()) ==> run(s@, st, alt)
                == Some(
                (
                    st.drop_last().drop_last().push(
                        ((st[st.len() - 2] + st.last() + p31()) % p31()) as i64,
                    ),
                    alt,
                ),
            ),
{
    let mut s: Vec<Instr> = Vec::new();
    s.push(Instr::Op(BaseInstr::Add));
    let ghost v1 = s@;
    let adj = m31_adjust();
    let ghost v2 = adj@;
    let s = cat(s, adj);
    proof {
        assert forall|st: Seq<i64>, alt: Seq<i64>|
            st.len() >= 2 && is_m31(st[st.len() - 2]) && is_n31(st.last()) implies run(s@, st, alt)
            == Some(
            (
                st.drop_last().drop_last().push(
                    ((st[st.len() - 2] + st.last() + p31()) % p31()) as i64,
                ),
                alt,
            ),
        ) by {
            lemma_run_append(v1, v2, st, alt);
            reveal_with_fuel(run, 3);
            let raw = (st[st.len() - 2] + st.last()) as i64;
            let st1 = st.drop_last().drop_last().push(raw);
            assert(run(v1, st, alt) == Some((st1, alt)));
            assert(run(v2, st1, alt) == Some(
                (st1.drop_last().push(((st1.last() + p31()) % p31()) as i64), alt),
            ));
            assert(st1.drop_last() =~= st.drop_last().drop_last());
        }
    }
    s
}

/// Add an M31 element to a twisted M31 element, yielding a twisted element.
pub fn n31_add_m31() -> (s: Vec<Instr>)
    ensures
        forall|st: Seq<i64>, alt: Seq<i64>| #![trigger run(s@, st, alt)]
            st.len() >= 2 && is_n31(st[st.len() - 2]) && is_m31(st.last()) ==> run(s@, st, alt)
                == Some(
                (
                    st.drop_last().drop_last().push(
                        (((st[st.len() - 2] + st.last() + p31()) % p31()) - p31()) as i64,
                    ),
                    alt,
                ),
            ),
{
    let mut s: Vec<Instr> = Vec::new();
    s.push(Instr::Op(BaseInstr::Add));
    let ghost v1 = s@;
    let adj = n31_adjust();
    let ghost v2 = adj@;
    let s = cat(s, adj);
    proof {
        assert forall|st: Seq<i64>, alt: Seq<i64>|
            st.len() >= 2 && is_n31(st[st.len() - 2]) && is_m31(st.last()) implies run(s@, st, alt)
            == Some(
            (
                st.drop_last().drop_last().push(
                    (((st[st.len() - 2] + st.last() + p31()) % p31()) - p31()) as i64,
                ),
                alt,
            ),
        ) by {
            lemma_run_append(v1, v2, st, alt);
            reveal_with_fuel(run, 3);
            let raw = (st[st.len() - 2] + st.last()) as i64;
            let st1 = st.drop_last().drop_last().push(raw);
            assert(run(v1, st, alt) == Some((st1, alt)));
            assert(run(v2, st1, alt) == Some(
                (st1.drop_last().push((((st1.last() + p31()) % p31()) - p31()) as i64), alt),
            ));
            assert(st1.drop_last() =~= st.drop_last().drop_last());
        }
    }
    s
}

/// Add two M31 elements.
pub fn m31_add() -> (s: Vec<Instr>)
    ensures
        forall|st: Seq<i64>, alt: Seq<i64>| #![trigger run(s@, st, alt)]
            st.len() >= 2 && is_m31(st[st.len() - 2]) && is_m31(st.last()) ==> run(s@, st, alt)
                == Some(
                (
                    st.drop_last().drop_last().push(
                        ((st[st.len() - 2] + st.last()) % p31()) as i64,
                    ),
                    alt,
                ),
            ),
{
    let conv = m31_to_n31();
    let ghost v1 = conv@;
    let tail = m31_add_n31();
    let ghost v2 = tail@;
    let s = cat(conv, tail);
    proof {
        assert forall|st: Seq<i64>, alt: Seq<i64>|
            st.len() >= 2 && is_m31(st[st.len() - 2]) && is_m31(st.last()) implies run(s@, st, alt)
            == Some(
            (st.drop_last().drop_last().push(((st[st.len() - 2] + st.last()) % p31()) as i64), alt),
        ) by {
            lemma_run_append(v1, v2, st, alt);
            let st1 = st.drop_last().push((st.last() - p31()) as i64);
            assert(run(v1, st, alt) == Some((st1, alt)));
            assert(st1[st1.len() - 2] == st[st.len() - 2]);
            assert(run(v2, st1, alt) == Some(
                (
                    st1.drop_last().drop_last().push(
                        ((st1[st1.len() - 2] + st1.last() + p31()) % p31()) as i64,
                    ),
                    alt,
                ),
            ));
            assert(st1.drop_last().drop_last() =~= st.drop_last().drop_last());
            assert(st1[st1.len() - 2] + st1.last() + p31() == st[st.len() - 2] + st.last());
        }
    }
    s
}

/// Add two twisted M31 elements.
pub fn n31_add() -> (s: Vec<Instr>)
    ensures
        forall|st: Seq<i64>, alt: Seq<i64>| #![trigger run(s@, st, alt)]
            st.len() >= 2 && is_n31(st[st.len() - 2]) && is_n31(st.last()) ==> run(s@, st, alt)
                == Some(
                (
                    st.drop_last().drop_last().push(
                        (((st[st.len() - 2] + st.last() + 2 * p31()) % p31()) - p31()) as i64,
                    ),
                    alt,
                ),
            ),
{
    let conv = n31_to_m31();
    let ghost v1 = conv@;
    let tail = n31_add_m31();
    let ghost v2 = tail@;
    let s = cat(conv, tail);
    proof {
        assert forall|st: Seq<i64>, alt: Seq<i64>|
            st.len() >= 2 && is_n31(st[st.len() - 2]) && is_n31(st.last()) implies run(s@, st, alt)
            == Some(
            (
                st.drop_last().drop_last().push(
                    (((st[st.len() - 2] + st.last() + 2 * p31()) % p31()) - p31()) as i64,
                ),
                alt,
            ),
        ) by {
            lemma_run_append(v1, v2, st, alt);
            let st1 = st.drop_last().push((st.last() + p31()) as i64);
            assert(run(v1, st, alt) == Some((st1, alt)));
            assert(st1[st1.len() - 2] == st[st.len() - 2]);
            assert(run(v2, st1, alt) == Some(
                (
                    st1.drop_last().drop_last().push(
                        (((st1[st1.len() - 2] + st1.last() + p31()) % p31()) - p31()) as i64,
                    ),
                    alt,
                ),
            ));
            assert(st1.drop_last().drop_last() =~= st.drop_last().drop_last());
            assert(st1[st1.len() - 2] + st1.last() + p31() == st[st.len() - 2] + st.last() + 2
                * p31());
        }
    }
    s
}

/// Double an M31 element.
pub fn m31_double() -> (s: Vec<Instr>)
    ensures
        forall|st: Seq<i64>, alt: Seq<i64>| #![trigger run(s@, st, alt)]
            st.len() >= 1 && is_m31(st.last()) ==> run(s@, st, alt) == Some(
                (st.drop_last().push(((2 * st.last()) % p31()) as i64), alt),
            ),
{
    let mut s: Vec<Instr> = Vec::new();
    s.push(Instr::Op(BaseInstr::Dup));
    let ghost v1 = s@;
    let tail = m31_add();
    let ghost v2 = tail@;
    let s = cat(s, tail);
    proof {
        assert forall|st: Seq<i64>, alt: Seq<i64>|
            st.len() >= 1 && is_m31(st.last()) implies run(s@, st, alt) == Some(
            (st.drop_last().push(((2 * st.last()) % p31()) as i64), alt),
        ) by {
            lemma_run_append(v1, v2, st, alt);
            reveal_with_fuel(run, 3);
            let st1 = st.push(st.last());
            assert(run(v1, st, alt) == Some((st1, alt)));
            assert(st1[st1.len() - 2] == st.last());
            assert(run(v2, st1, alt) == Some(
                (
                    st1.drop_last().drop_last().push(
                        ((st1[st1.len() - 2] + st1.last()) % p31()) as i64,
                    ),
                    alt,
                ),
            ));
            assert(st1.drop_last().drop_last() =~= st.drop_last());
            assert(st1[st1.len() - 2] + st1.last() == 2 * st.last());
        }
    }
    s
}

/// Double a twisted M31 element.
pub fn n31_double() -> (s: Vec<Instr>)
    ensures
        forall|st: Seq<i64>, alt: Seq<i64>| #![trigger run(s@, st, alt)]
            st.len() >= 1 && is_n31(st.last()) ==> run(s@, st, alt) == Some(
                (st.drop_last().push((((2 * st.last() + 2 * p31()) % p31()) - p31()) as i64), alt),
            ),
{
    let mut s: Vec<Instr> = Vec::new();
    s.push(Instr::Op(BaseInstr::Dup));
    let ghost v1 = s@;
    let tail = n31_add();
    let ghost v2 = tail@;
    let s = cat(s, tail);
    proof {
        assert forall|st: Seq<i64>, alt: Seq<i64>|
            st.len() >= 1 && is_n31(st.last()) implies run(s@, st, alt) == Some(
            (st.drop_last().push((((2 * st.last() + 2 * p31()) % p31()) - p31()) as i64), alt),
        ) by {
            lemma_run_append(v1, v2, st, alt);
            reveal_with_fuel(run, 3);
            let st1 = st.push(st.last());
            assert(run(v1, st, alt) == Some((st1, alt)));
            assert(st1[st1.len() - 2] == st.last());
            assert(run(v2, st1, alt) == Some(
                (
                    st1.drop_last().drop_last().push(
                        (((st1[st1.len() - 2] + st1.last() + 2 * p31()) % p31()) - p31()) as i64,
                    ),
                    alt,
                ),
            ));
            assert(st1.drop_last().drop_last() =~= st.drop_last());
            assert(st1[st1.len() - 2] + st1.last() == 2 * st.last());
        }
    }
    s
}

/// Subtract the top M31 element from the one below it.
pub fn m31_sub() -> (s: Vec<Instr>)
    ensures
        forall|st: Seq<i64>, alt: Seq<i64>| #![trigger run(s@, st, alt)]
            st.len() >= 2 && is_m31(st[st.len() - 2]) && is_m31(st.last()) ==> run(s@, st, alt)
                == Some(
                (
                    st.drop_last().drop_last().push(
                        ((st[st.len() - 2] - st.last() + p31()) % p31()) as i64,
                    ),
                    alt,
                ),
            ),
{
    let mut s: Vec<Instr> = Vec::new();
    s.push(Instr::Op(BaseInstr::Sub));
    let ghost v1 = s@;
    let adj = m31_adjust();
    let ghost v2 = adj@;
    let s = cat(s, adj);
    proof {
        assert forall|st: Seq<i64>, alt: Seq<i64>|
            st.len() >= 2 && is_m31(st[st.len() - 2]) && is_m31(st.last()) implies run(s@, st, alt)
            == Some(
            (
                st.drop_last().drop_last().push(
                    ((st[st.len() - 2] - st.last() + p31()) % p31()) as i64,
                ),
                alt,
            ),
        ) by {
            lemma_run_append(v1, v2, st, alt);
            reveal_with_fuel(run, 3);
            let raw = (st[st.len() - 2] - st.last()) as i64;
            let st1 = st.drop_last().drop_last().push(raw);
            assert(run(v1, st, alt) == Some((st1, alt)));
            assert(run(v2, st1, alt) == Some(
                (st1.drop_last().push(((st1.last() + p31()) % p31()) as i64), alt),
            ));
            assert(st1.drop_last() =~= st.drop_last().drop_last());
        }
    }
    s
}

/// Subtract the top twisted element from the one below it.
pub fn n31_sub() -> (s: Vec<Instr>)
    ensures
        forall|st: Seq<i64>, alt: Seq<i64>| #![trigger run(s@, st, alt)]
            st.len() >= 2 && is_n31(st[st.len() - 2]) && is_n31(st.last()) ==> run(s@, st, alt)
                == Some(
                (
                    st.drop_last().drop_last().push(
                        (((st[st.len() - 2] - st.last() + p31()) % p31()) - p31()) as i64,
                    ),
                    alt,
                ),
            ),
{
    let mut s: Vec<Instr> = Vec::new();
    s.push(Instr::Op(BaseInstr::Sub));
    let ghost v1 = s@;
    let adj = n31_adjust();
    let ghost v2 = adj@;
    let s = cat(s, adj);
    proof {
        assert forall|st: Seq<i64>, alt: Seq<i64>|
            st.len() >= 2 && is_n31(st[st.len() - 2]) && is_n31(st.last()) implies run(s@, st, alt)
            == Some(
            (
                st.drop_last().drop_last().push(
                    (((st[st.len() - 2] - st.last() + p31()) % p31()) - p31()) as i64,
                ),
                alt,
            ),
        ) by {
            lemma_run_append(v1, v2, st, alt);
            reveal_with_fuel(run, 3);
            let raw = (st[st.len() - 2] - st.last()) as i64;
            let st1 = st.drop_last().drop_last().push(raw);
            assert(run(v1, st, alt) == Some((st1, alt)));
            assert(run(v2, st1, alt) == Some(
                (st1.drop_last().push((((st1.last() + p31()) % p31()) - p31()) as i64), alt),
            ));
            assert(st1.drop_last() =~= st.drop_last().drop_last());
        }
    }
    s
}

/// Negate an M31 element; the canonical zero stays 0, not P.
#[verifier::rlimit(60)]
pub fn m31_neg() -> (s: Vec<Instr>)
    ensures
        forall|st: Seq<i64>, alt: Seq<i64>| #![trigger run(s@, st, alt)]
            st.len() >= 1 && is_m31(st.last()) ==> run(s@, st, alt) == Some(
                (st.drop_last().push(((p31() - st.last()) % p31()) as i64), alt),
            ),
{
    let mut body: Vec<BaseInstr> = Vec::new();
    body.push(BaseInstr::Pop);
    body.push(BaseInstr::Push(0));
    let mut s: Vec<Instr> = Vec::new();
    s.push(Instr::Op(BaseInstr::Push(MOD as i64)));
    s.push(Instr::Op(BaseInstr::Swap));
    s.push(Instr::Op(BaseInstr::Sub));
    s.push(Instr::Op(BaseInstr::Dup));
    s.push(Instr::Op(BaseInstr::Push(MOD as i64)));
    s.push(Instr::Op(BaseInstr::Equal));
    s.push(Instr::Branch(body));
    proof {
        assert forall|st: Seq<i64>, alt: Seq<i64>|
            st.len() >= 1 && is_m31(st.last()) implies run(s@, st, alt) == Some(
            (st.drop_last().push(((p31() - st.last()) % p31()) as i64), alt),
        ) by {
            reveal_with_fuel(run, 10);
            reveal_with_fuel(crate::vm::run_ops, 4);
            let a = st.last();
            let pl = MOD as i64;
            assert(st.push(pl).drop_last().drop_last().push(pl).push(a).drop_last().drop_last()
                =~= st.drop_last());
            let r = (p31() - a) as i64;
            let st3 = st.drop_last().push(r);
            assert(st3.push(r).push(pl).drop_last().drop_last() =~= st3);
            let bv = crate::vm::bool_val(r == pl);
            assert(st3.push(bv).drop_last() =~= st3);
            if a == 0 {
                assert(st3.drop_last() =~= st.drop_last());
                assert((p31() - a) % p31() == 0);
            } else {
                assert((p31() - a) % p31() == p31() - a);
            }
        }
    }
    s
}

/// Negate a twisted M31 element; the twisted zero stays -P.
#[verifier::rlimit(60)]
pub fn n31_neg() -> (s: Vec<Instr>)
    ensures
        forall|st: Seq<i64>, alt: Seq<i64>| #![trigger run(s@, st, alt)]
            st.len() >= 1 && is_n31(st.last()) ==> run(s@, st, alt) == Some(
                (
                    st.drop_last().push(
                        (((p31() - (st.last() + p31())) % p31()) - p31()) as i64,
                    ),
                    alt,
                ),
            ),
{
    let mut body: Vec<BaseInstr> = Vec::new();
    body.push(BaseInstr::Pop);
    body.push(BaseInstr::Push(-(MOD as i64)));
    let mut s: Vec<Instr> = Vec::new();
    s.push(Instr::Op(BaseInstr::Push(-(MOD as i64))));
    s.push(Instr::Op(BaseInstr::Swap));
    s.push(Instr::Op(BaseInstr::Sub));
    s.push(Instr::Op(BaseInstr::Dup));
    s.push(Instr::Op(BaseInstr::Push(0)));
    s.push(Instr::Op(BaseInstr::Equal));
    s.push(Instr::Branch(body));
    proof {
        assert forall|st: Seq<i64>, alt: Seq<i64>|
            st.len() >= 1 && is_n31(st.last()) implies run(s@, st, alt) == Some(
            (st.drop_last().push((((p31() - (st.last() + p31())) % p31()) - p31()) as i64), alt),
        ) by {
            reveal_with_fuel(run, 10);
            reveal_with_fuel(crate::vm::run_ops, 4);
            let x = st.last();
            let npl = (-p31()) as i64;
            assert(st.push(npl).drop_last().drop_last().push(npl).push(x).drop_last().drop_last()
                =~= st.drop_last());
            let r = (-p31() - x) as i64;
            let st3 = st.drop_last().push(r);
            assert(st3.push(r).push(0i64).drop_last().drop_last() =~= st3);
            let bv = crate::vm::bool_val(r == 0);
            assert(st3.push(bv).drop_last() =~= st3);
            if x == -p31() {
                assert(st3.drop_last() =~= st.drop_last());
                assert((p31() - (x + p31())) % p31() == 0);
            } else {
                assert((p31() - (x + p31())) % p31() == -p31() - x + p31());
            }
        }
    }
    s
}

/// The bit of v at weight 2^k.
pub open spec fn bit_of(v: int, k: nat) -> i64 {
    ((v / (pow2(k) as int)) % 2) as i64
}

/// The 31 bits of a canonical element, most significant first.
pub open spec fn bits31(v: i64) -> Seq<i64> {
    Seq::new(31, |j: int| bit_of(v as int, (30 - j) as nat))
}

/// Value of a bit string read most significant first.
pub open spec fn bits_val(bs: Seq<i64>) -> int
    decreases bs.len(),
{
    if bs.len() == 0 {
        0
    } else {
        2 * bits_val(bs.drop_last()) + bs.last()
    }
}

/// Every entry is 0 or 1.
pub open spec fn all_bits(bs: Seq<i64>) -> bool {
    forall|j: int| 0 <= j < bs.len() ==> bs[j] == 0 || bs[j] == 1
}

/// Splitting a remainder below weight 2^(k+1) into the bit at weight 2^k
/// and the remainder below that weight.
proof fn lemma_bit_split(v: int, k: nat)
    requires
        0 <= v,
    ensures
        pow2(k + 1) == 2 * pow2(k),
        (v % (pow2(k + 1) as int) >= pow2(k) as int) <==> ((v / (pow2(k) as int)) % 2 == 1),
        (v / (pow2(k) as int)) % 2 == 0 || (v / (pow2(k) as int)) % 2 == 1,
        v % (pow2(k + 1) as int) - (if v % (pow2(k + 1) as int) >= pow2(k) as int {
            pow2(k) as int
        } else {
            0
        }) == v % (pow2(k) as int),
        v / (pow2(k) as int) == 2 * (v / (pow2(k + 1) as int)) + (v / (pow2(k) as int)) % 2,
{
    lemma_pow2_unfold(k + 1);
    lemma_pow2_pos(k);
    let h = pow2(k) as int;
    let m = 2 * h;
    lemma_fundamental_div_mod(v, m);
    lemma_mod_bound(v, m);
    let q = v / m;
    let r = v % m;
    let d: int = if r >= h {
        1
    } else {
        0
    };
    let r2 = r - d * h;
    assert(v == (2 * q + d) * h + r2) by (nonlinear_arith)
        requires
            v == m * q + r,
            m == 2 * h,
            r2 == r - d * h,
    ;
    lemma_fundamental_div_mod_converse(v, h, 2 * q + d, r2);
    lemma_mod_multiples_vanish(q, d, 2);
    lemma_small_mod(d as nat, 2);
}

/// Test the top of the stack against a weight w: leave the boolean outcome
/// below, and above it the top reduced by w when the test succeeded.
#[verifier::rlimit(100)]
fn bit_step(w: i64) -> (s: Vec<Instr>)
    requires
        1 <= w <= 0x4000_0000,
    ensures
        forall|st: Seq<i64>, alt: Seq<i64>| #![trigger run(s@, st, alt)]
            st.len() >= 1 && 0 <= st.last() < 2 * w ==> run(s@, st, alt) == Some(
                (
                    st.drop_last().push(bool_val(st.last() >= w)).push(
                        if st.last() >= w {
                            (st.last() - w) as i64
                        } else {
                            st.last()
                        },
                    ),
                    alt,
                ),
            ),
{
    let mut body: Vec<BaseInstr> = Vec::new();
    body.push(BaseInstr::Push(w));
    body.push(BaseInstr::Sub);
    let mut s: Vec<Instr> = Vec::new();
    s.push(Instr::Op(BaseInstr::Dup));
    s.push(Instr::Op(BaseInstr::Push(w)));
    s.push(Instr::Op(BaseInstr::GreaterOrEqual));
    s.push(Instr::Op(BaseInstr::Swap));
    s.push(Instr::Op(BaseInstr::Over));
    s.push(Instr::Branch(body));
    proof {
        assert forall|st: Seq<i64>, alt: Seq<i64>|
            st.len() >= 1 && 0 <= st.last() < 2 * w implies run(s@, st, alt) == Some(
            (
                st.drop_last().push(bool_val(st.last() >= w)).push(
                    if st.last() >= w {
                        (st.last() - w) as i64
                    } else {
                        st.last()
                    },
                ),
                alt,
            ),
        ) by {
            reveal_with_fuel(run, 9);
            reveal_with_fuel(crate::vm::run_ops, 4);
            let r = st.last();
            let ge = bool_val(r >= w);
            assert(st.push(r).push(w).drop_last().drop_last() =~= st);
            assert(st.push(ge).drop_last() =~= st);
            let sts = st.drop_last().push(ge).push(r);
            assert(st.push(ge).drop_last().drop_last().push(st.push(ge)[st.len() as int]).push(
                st.push(ge)[st.len() - 1],
            ) =~= sts);
            assert(sts.push(ge).drop_last() =~= sts);
            if r >= w {
                assert(sts.push(w).drop_last().drop_last() =~= sts.drop_last());
                assert(sts.push(w)[sts.len() - 1] == r);
                assert(sts.drop_last().push((r - w) as i64) =~= st.drop_last().push(ge).push(
                    (r - w) as i64,
                ).drop_last().push((r - w) as i64));
            }
        }
    }
    s
}

/// The machine stack after the first i steps of bit decomposition: the
/// emitted high bits, then the running remainder on top.
spec fn to_bits_state(st: Seq<i64>, i: int) -> Seq<i64> {
    st.drop_last() + bits31(st.last()).take(i) + seq![
        (((st.last() as int) % (pow2((31 - i) as nat) as int)) as i64),
    ]
}

/// Convert an M31 element into its bit representation: 31 bits, most
/// significant first (the lowest bit ends nearest the top of the stack).
pub fn m31_to_bits() -> (s: Vec<Instr>)
    ensures
        forall|st: Seq<i64>, alt: Seq<i64>| #![trigger run(s@, st, alt)]
            st.len() >= 1 && is_m31(st.last()) ==> run(s@, st, alt) == Some(
                (st.drop_last() + bits31(st.last()), alt),
            ),
{
    let mut s: Vec<Instr> = Vec::new();
    let mut w: i64 = 0x4000_0000;
    let mut i: usize = 0;
    proof {
        lemma2_to64();
        assert forall|st: Seq<i64>, alt: Seq<i64>|
            st.len() >= 1 && is_m31(st.last()) implies run(s@, st, alt) == Some(
            (to_bits_state(st, 0), alt),
        ) by {
            reveal_with_fuel(run, 2);
            lemma_mod_bound(st.last() as int, pow2(31) as int);
            lemma_small_mod(st.last() as nat, pow2(31));
            assert(to_bits_state(st, 0) =~= st);
        }
    }
    while i < 30
        invariant
            i <= 30,
            w == pow2((30 - i) as nat),
            forall|st: Seq<i64>, alt: Seq<i64>| #![trigger run(s@, st, alt)]
                st.len() >= 1 && is_m31(st.last()) ==> run(s@, st, alt) == Some(
                    (to_bits_state(st, i as int), alt),
                ),
        decreases 30 - i,
    {
        proof {
            lemma2_to64();
            lemma_pow2_unfold((30 - i) as nat);
            lemma_pow2_pos((29 - i) as nat);
            if i > 0 {
                lemma_pow2_strictly_increases((30 - i) as nat, 30nat);
            }
        }
        let frag = bit_step(w);
        let ghost vs = s@;
        let ghost vf = frag@;
        let ghost iold = i as int;
        let ghost wold = w;
        s = cat(s, frag);
        proof {
            assert forall|st: Seq<i64>, alt: Seq<i64>|
                st.len() >= 1 && is_m31(st.last()) implies run(s@, st, alt) == Some(
                (to_bits_state(st, iold + 1), alt),
            ) by {
                lemma_run_append(vs, vf, st, alt);
                let v = st.last() as int;
                lemma_bit_split(v, (30 - iold) as nat);
                lemma_pow2_pos((31 - iold) as nat);
                lemma_mod_bound(v, pow2((31 - iold) as nat) as int);
                let si = to_bits_state(st, iold);
                assert(run(vs, st, alt) == Some((si, alt)));
                let pre = st.drop_last() + bits31(st.last()).take(iold);
                let rem = ((v % (pow2((31 - iold) as nat) as int)) as i64);
                assert(si =~= pre.push(rem));
                assert(si.last() == rem);
                assert(si.drop_last() =~= pre);
                assert(si.len() >= 1);
                assert(0 <= rem < 2 * wold);
                assert(run(vf, si, alt) == Some(
                    (
                        si.drop_last().push(bool_val(si.last() >= wold)).push(
                            if si.last() >= wold {
                                (si.last() - wold) as i64
                            } else {
                                si.last()
                            },
                        ),
                        alt,
                    ),
                ));
                let bit = bool_val(rem >= wold);
                assert(bit == bits31(st.last())[iold]);
                let rem2 = if rem >= wold {
                    (rem - wold) as i64
                } else {
                    rem
                };
                assert(rem2 as int == v % (pow2((30 - iold) as nat) as int));
                assert(bits31(st.last()).take(iold + 1) =~= bits31(st.last()).take(iold).push(
                    bits31(st.last())[iold],
                ));
                assert(pre.push(bit).push(rem2) =~= to_bits_state(st, iold + 1));
            }
        }
        w = w / 2;
        i = i + 1;
        proof {
            assert(pow2((30 - iold) as nat) == 2 * pow2((30 - i) as nat));
        }
    }
    proof {
        lemma2_to64();
        assert forall|st: Seq<i64>, alt: Seq<i64>|
            st.len() >= 1 && is_m31(st.last()) implies run(s@, st, alt) == Some(
            (st.drop_last() + bits31(st.last()), alt),
        ) by {
            let v = st.last() as int;
            lemma_bit_split(v, 0);
            assert(v / (pow2(0) as int) == v);
            assert(bits31(st.last())[30] == ((v % 2) as i64));
            assert(to_bits_state(st, 30) =~= st.drop_last() + bits31(st.last()));
        }
    }
    s
}

/// The bits of a canonical element reconstruct it exactly: 31 digits, each
/// 0 or 1, whose weighted sum is the element.
pub proof fn lemma_bits31_reconstruct(v: i64)
    requires
        is_m31(v),
    ensures
        bits31(v).len() == 31,
        all_bits(bits31(v)),
        bits_val(bits31(v)) == v,
{
    assert forall|j: int| 0 <= j < 31 implies bits31(v)[j] == 0 || bits31(v)[j] == 1 by {
        lemma_pow2_pos((30 - j) as nat);
        lemma_div_pos_is_pos(v as int, pow2((30 - j) as nat) as int);
        lemma_mod_bound(v as int / (pow2((30 - j) as nat) as int), 2);
    }
    lemma_bits31_prefix(v, 31);
    lemma2_to64();
    assert(bits31(v).take(31) =~= bits31(v));
    assert(v as int / (pow2(0) as int) == v);
}

/// The first n bits, most significant first, are the quotient of v by the
/// weight of the last bit taken.
proof fn lemma_bits31_prefix(v: i64, n: nat)
    requires
        is_m31(v),
        n <= 31,
    ensures
        bits_val(bits31(v).take(n as int)) == (v as int) / (pow2((31 - n) as nat) as int),
    decreases n,
{
    lemma2_to64();
    if n == 0 {
        assert(bits31(v).take(0) =~= Seq::<i64>::empty());
        assert((v as int) / (pow2(31) as int) == 0) by {
            lemma_pow2_pos(31);
            vstd::arithmetic::div_mod::lemma_basic_div(v as int, pow2(31) as int);
        }
    } else {
        lemma_bits31_prefix(v, (n - 1) as nat);
        let pre = bits31(v).take(n as int);
        assert(pre.drop_last() =~= bits31(v).take(n - 1));
        assert(pre.last() == bit_of(v as int, (31 - n) as nat));
        lemma_bit_split(v as int, (31 - n) as nat);
        assert(bits_val(pre) == 2 * bits_val(pre.drop_last()) + pre.last());
    }
}

/// Doubling a reduced multiple of a steps its power-of-two factor.
proof fn lemma_double_mod_step(a: int, k: nat)
    ensures
        (2 * (((pow2(k) as int) * a) % p31())) % p31() == ((pow2(k + 1) as int) * a) % p31(),
{
    lemma_mul_mod_noop_right(2, (pow2(k) as int) * a, p31());
    lemma_pow2_unfold(k + 1);
    assert(2 * ((pow2(k) as int) * a) == (pow2(k + 1) as int) * a) by (nonlinear_arith)
        requires
            pow2(k + 1) == 2 * pow2(k),
    ;
}

/// The canonical complement of a reduced value is the reduced negation.
proof fn lemma_neg_mod(y: int)
    ensures
        (p31() - (y % p31())) % p31() == (0 - y) % p31(),
{
    lemma_fundamental_div_mod(y, p31());
    lemma_mod_bound(y, p31());
    let q = y / p31();
    let r = y % p31();
    if r == 0 {
        assert(0 - y == (0 - q) * p31() + 0) by (nonlinear_arith)
            requires
                y == p31() * q + r,
                r == 0,
        ;
        lemma_fundamental_div_mod_converse_mod(0 - y, p31(), 0 - q, 0);
        lemma_mod_multiples_vanish(1, 0, p31());
    } else {
        assert(0 - y == (0 - q - 1) * p31() + (p31() - r)) by (nonlinear_arith)
            requires
                y == p31() * q + r,
        ;
        lemma_fundamental_div_mod_converse_mod(0 - y, p31(), 0 - q - 1, p31() - r);
        lemma_small_mod((p31() - r) as nat, p31() as nat);
    }
}

/// A prefix of zero digits has value zero.
proof fn lemma_naf_zeros(ds: Seq<i8>, k: int)
    requires
        0 <= k <= ds.len(),
        forall|j: int| 0 <= j < k ==> (#[trigger] ds[j]) == 0,
    ensures
        crate::naf::naf_val(ds.take(k)) == 0,
    decreases k,
{
    if k == 0 {
        assert(ds.take(0) =~= Seq::<i8>::empty());
        reveal_with_fuel(crate::naf::naf_val, 2);
    } else {
        lemma_naf_zeros(ds, k - 1);
        crate::naf::lemma_naf_val_push(ds.take(k - 1), ds[k - 1]);
        assert(ds.take(k) =~= ds.take(k - 1).push(ds[k - 1]));
    }
}

/// Fold the operand on top into the accumulator below it by addition,
/// keeping the operand on top.
fn mul_const_add_step() -> (s: Vec<Instr>)
    ensures
        forall|st: Seq<i64>, alt: Seq<i64>| #![trigger run(s@, st, alt)]
            st.len() >= 2 && is_m31(st[st.len() - 2]) && is_m31(st.last()) ==> run(s@, st, alt)
                == Some(
                (
                    st.drop_last().drop_last().push(
                        ((st[st.len() - 2] + st.last()) % p31()) as i64,
                    ).push(st.last()),
                    alt,
                ),
            ),
{
    let mut f1: Vec<Instr> = Vec::new();
    f1.push(Instr::Op(BaseInstr::Swap));
    f1.push(Instr::Op(BaseInstr::Over));
    let ghost v1 = f1@;
    let add = m31_add();
    let ghost v2 = add@;
    let mut f3: Vec<Instr> = Vec::new();
    f3.push(Instr::Op(BaseInstr::Swap));
    let ghost v3 = f3@;
    let s = cat(cat(f1, add), f3);
    proof {
        assert forall|st: Seq<i64>, alt: Seq<i64>|
            st.len() >= 2 && is_m31(st[st.len() - 2]) && is_m31(st.last()) implies run(s@, st, alt)
            == Some(
            (
                st.drop_last().drop_last().push(((st[st.len() - 2] + st.last()) % p31()) as i64)
                    .push(st.last()),
                alt,
            ),
        ) by {
            reveal_with_fuel(run, 4);
            lemma_run_append(v1 + v2, v3, st, alt);
            lemma_run_append(v1, v2, st, alt);
            let x = st[st.len() - 2];
            let y = st.last();
            let base = st.drop_last().drop_last();
            let sta = base.push(y).push(x);
            assert(st.push(y).drop_last() =~= st);
            assert(st.drop_last().drop_last().push(st[st.len() - 1]).push(st[st.len() - 2]).push(
                st.drop_last().drop_last().push(st[st.len() - 1]).push(st[st.len() - 2])[st.len()
                    - 2],
            ) =~= sta.push(y));
            assert(run(v1, st, alt) == Some((sta.push(y), alt)));
            let stb = sta.push(y);
            assert(stb[stb.len() - 2] == x && stb.last() == y);
            assert(run(v2, stb, alt) == Some(
                (stb.drop_last().drop_last().push(((x + y) % p31()) as i64), alt),
            ));
            let r = ((x + y) % p31()) as i64;
            assert(stb.drop_last().drop_last().push(r) =~= base.push(y).push(r));
            let stc = base.push(y).push(r);
            assert(stc.drop_last().drop_last().push(stc[stc.len() - 1]).push(stc[stc.len() - 2])
                =~= base.push(r).push(y));
            assert(base.push(r).push(y) =~= st.drop_last().drop_last().push(r).push(st.last()));
        }
    }
    s
}

/// Fold the operand on top into the accumulator below it by subtraction,
/// keeping the operand on top.
fn mul_const_sub_step() -> (s: Vec<Instr>)
    ensures
        forall|st: Seq<i64>, alt: Seq<i64>| #![trigger run(s@, st, alt)]
            st.len() >= 2 && is_m31(st[st.len() - 2]) && is_m31(st.last()) ==> run(s@, st, alt)
                == Some(
                (
                    st.drop_last().drop_last().push(
                        ((st[st.len() - 2] - st.last() + p31()) % p31()) as i64,
                    ).push(st.last()),
                    alt,
                ),
            ),
{
    let mut f1: Vec<Instr> = Vec::new();
    f1.push(Instr::Op(BaseInstr::Swap));
    f1.push(Instr::Op(BaseInstr::Over));
    let ghost v1 = f1@;
    let sub = m31_sub();
    let ghost v2 = sub@;
    let mut f3: Vec<Instr> = Vec::new();
    f3.push(Instr::Op(BaseInstr::Swap));
    let ghost v3 = f3@;
    let s = cat(cat(f1, sub), f3);
    proof {
        assert forall|st: Seq<i64>, alt: Seq<i64>|
            st.len() >= 2 && is_m31(st[st.len() - 2]) && is_m31(st.last()) implies run(s@, st, alt)
            == Some(
            (
                st.drop_last().drop_last().push(
                    ((st[st.len() - 2] - st.last() + p31()) % p31()) as i64,
                ).push(st.last()),
                alt,
            ),
        ) by {
            reveal_with_fuel(run, 4);
            lemma_run_append(v1 + v2, v3, st, alt);
            lemma_run_append(v1, v2, st, alt);
            let x = st[st.len() - 2];
            let y = st.last();
            let base = st.drop_last().drop_last();
            let sta = base.push(y).push(x);
            assert(st.push(y).drop_last() =~= st);
            assert(st.drop_last().drop_last().push(st[st.len() - 1]).push(st[st.len() - 2]).push(
                st.drop_last().drop_last().push(st[st.len() - 1]).push(st[st.len() - 2])[st.len()
                    - 2],
            ) =~= sta.push(y));
            assert(run(v1, st, alt) == Some((sta.push(y), alt)));
            let stb = sta.push(y);
            assert(stb[stb.len() - 2] == x && stb.last() == y);
            assert(run(v2, stb, alt) == Some(
                (stb.drop_last().drop_last().push(((x - y + p31()) % p31()) as i64), alt),
            ));
            let r = ((x - y + p31()) % p31()) as i64;
            assert(stb.drop_last().drop_last().push(r) =~= base.push(y).push(r));
            let stc = base.push(y).push(r);
            assert(stc.drop_last().drop_last().push(stc[stc.len() - 1]).push(stc[stc.len() - 2])
                =~= base.push(r).push(y));
            assert(base.push(r).push(y) =~= st.drop_last().drop_last().push(r).push(st.last()));
        }
    }
    s
}

/// Start the accumulator as the negation of the operand, leaving the
/// operand itself on top.
fn mul_const_init_neg() -> (s: Vec<Instr>)
    ensures
        forall|st: Seq<i64>, alt: Seq<i64>| #![trigger run(s@, st, alt)]
            st.len() >= 1 && is_m31(st.last()) ==> run(s@, st, alt) == Some(
                (
                    st.drop_last().push(((p31() - st.last()) % p31()) as i64).push(st.last()),
                    alt,
                ),
            ),
{
    let mut f1: Vec<Instr> = Vec::new();
    f1.push(Instr::Op(BaseInstr::Dup));
    let ghost v1 = f1@;
    let neg = m31_neg();
    let ghost v2 = neg@;
    let mut f3: Vec<Instr> = Vec::new();
    f3.push(Instr::Op(BaseInstr::Swap));
    let ghost v3 = f3@;
    let s = cat(cat(f1, neg), f3);
    proof {
        assert forall|st: Seq<i64>, alt: Seq<i64>|
            st.len() >= 1 && is_m31(st.last()) implies run(s@, st, alt) == Some(
            (st.drop_last().push(((p31() - st.last()) % p31()) as i64).push(st.last()), alt),
        ) by {
            reveal_with_fuel(run, 4);
            lemma_run_append(v1 + v2, v3, st, alt);
            lemma_run_append(v1, v2, st, alt);
            let a = st.last();
            assert(run(v1, st, alt) == Some((st.push(a), alt)));
            assert(st.push(a).last() == a && st.push(a).len() >= 1);
            let r = ((p31() - a) % p31()) as i64;
            assert(run(v2, st.push(a), alt) == Some((st.push(a).drop_last().push(r), alt)));
            assert(st.push(a).drop_last().push(r) =~= st.push(r));
            lemma_mod_bound(p31() - a, p31());
            let stc = st.push(r);
            assert(stc.drop_last().drop_last().push(stc[stc.len() - 1]).push(stc[stc.len() - 2])
                =~= st.drop_last().push(r).push(a));
        }
    }
    s
}

/// Doubling the top of a two-slot accumulator state steps the operand's
/// power-of-two factor while the accumulator below stays put.
proof fn lemma_mul_const_double2(vs: Seq<Instr>, vd: Seq<Instr>, vall: Seq<Instr>, gds: Seq<i8>, cur: int, e: nat)
    requires
        vall == vs + vd,
        0 <= cur <= gds.len(),
        forall|st: Seq<i64>, alt: Seq<i64>| #![trigger run(vs, st, alt)]
            st.len() >= 1 && is_m31(st.last()) ==> run(vs, st, alt) == Some(
                (
                    st.drop_last().push(
                        ((naf_val(gds.take(cur)) * st.last()) % p31()) as i64,
                    ).push((((pow2(e) as int) * st.last()) % p31()) as i64),
                    alt,
                ),
            ),
        forall|st: Seq<i64>, alt: Seq<i64>| #![trigger run(vd, st, alt)]
            st.len() >= 1 && is_m31(st.last()) ==> run(vd, st, alt) == Some(
                (st.drop_last().push(((2 * st.last()) % p31()) as i64), alt),
            ),
    ensures
        forall|st: Seq<i64>, alt: Seq<i64>| #![trigger run(vall, st, alt)]
            st.len() >= 1 && is_m31(st.last()) ==> run(vall, st, alt) == Some(
                (
                    st.drop_last().push(
                        ((naf_val(gds.take(cur)) * st.last()) % p31()) as i64,
                    ).push((((pow2(e + 1) as int) * st.last()) % p31()) as i64),
                    alt,
                ),
            ),
{
    assert forall|st: Seq<i64>, alt: Seq<i64>|
        st.len() >= 1 && is_m31(st.last()) implies run(vall, st, alt) == Some(
        (
            st.drop_last().push(((naf_val(gds.take(cur)) * st.last()) % p31()) as i64).push(
                (((pow2(e + 1) as int) * st.last()) % p31()) as i64,
            ),
            alt,
        ),
    ) by {
        lemma_run_append(vs, vd, st, alt);
        let a = st.last();
        lemma_mod_bound(naf_val(gds.take(cur)) * a, p31());
        lemma_mod_bound((pow2(e) as int) * a, p31());
        let acc = ((naf_val(gds.take(cur)) * a) % p31()) as i64;
        let mid = st.drop_last().push(acc).push((((pow2(e) as int) * a) % p31()) as i64);
        assert(run(vs, st, alt) == Some((mid, alt)));
        assert(run(vd, mid, alt) == Some(
            (mid.drop_last().push(((2 * mid.last()) % p31()) as i64), alt),
        ));
        lemma_double_mod_step(a as int, e);
        assert(mid.drop_last() =~= st.drop_last().push(acc));
    }
}

/// One nonzero digit of the constant's expansion folds the operand into
/// the accumulator: the digit-sum bookkeeping behind the add and subtract
/// steps of the constant multiplier.
proof fn lemma_mul_const_fold(
    vs: Seq<Instr>,
    vf: Seq<Instr>,
    vall: Seq<Instr>,
    gds: Seq<i8>,
    cur: int,
    plus: bool,
)
    requires
        vall == vs + vf,
        0 <= cur < gds.len(),
        gds[cur] == (if plus { 1i8 } else { -1i8 }),
        naf_val(gds.take(cur + 1)) == naf_val(gds.take(cur)) + gds[cur] * (pow2(
            cur as nat,
        ) as int),
        forall|st: Seq<i64>, alt: Seq<i64>| #![trigger run(vs, st, alt)]
            st.len() >= 1 && is_m31(st.last()) ==> run(vs, st, alt) == Some(
                (
                    st.drop_last().push(
                        ((naf_val(gds.take(cur)) * st.last()) % p31()) as i64,
                    ).push((((pow2(cur as nat) as int) * st.last()) % p31()) as i64),
                    alt,
                ),
            ),
        forall|st: Seq<i64>, alt: Seq<i64>| #![trigger run(vf, st, alt)]
            st.len() >= 2 && is_m31(st[st.len() - 2]) && is_m31(st.last()) ==> run(vf, st, alt)
                == Some(
                (
                    st.drop_last().drop_last().push(
                        ((if plus {
                            st[st.len() - 2] + st.last()
                        } else {
                            st[st.len() - 2] - st.last() + p31()
                        }) % p31()) as i64,
                    ).push(st.last()),
                    alt,
                ),
            ),
    ensures
        forall|st: Seq<i64>, alt: Seq<i64>| #![trigger run(vall, st, alt)]
            st.len() >= 1 && is_m31(st.last()) ==> run(vall, st, alt) == Some(
                (
                    st.drop_last().push(
                        ((naf_val(gds.take(cur + 1)) * st.last()) % p31()) as i64,
                    ).push((((pow2(cur as nat) as int) * st.last()) % p31()) as i64),
                    alt,
                ),
            ),
{
    assert forall|st: Seq<i64>, alt: Seq<i64>|
        st.len() >= 1 && is_m31(st.last()) implies run(vall, st, alt) == Some(
        (
            st.drop_last().push(((naf_val(gds.take(cur + 1)) * st.last()) % p31()) as i64).push(
                (((pow2(cur as nat) as int) * st.last()) % p31()) as i64,
            ),
            alt,
        ),
    ) by {
        lemma_run_append(vs, vf, st, alt);
        let a = st.last();
        let w = naf_val(gds.take(cur));
        let p2 = pow2(cur as nat) as int;
        lemma_mod_bound(w * a, p31());
        lemma_mod_bound(p2 * a, p31());
        let acc = ((w * a) % p31()) as i64;
        let op = ((p2 * a) % p31()) as i64;
        let mid = st.drop_last().push(acc).push(op);
        assert(run(vs, st, alt) == Some((mid, alt)));
        assert(mid[mid.len() - 2] == acc && mid.last() == op);
        assert(run(vf, mid, alt) == Some(
            (
                mid.drop_last().drop_last().push(
                    ((if plus {
                        mid[mid.len() - 2] + mid.last()
                    } else {
                        mid[mid.len() - 2] - mid.last() + p31()
                    }) % p31()) as i64,
                ).push(mid.last()),
                alt,
            ),
        ));
        assert(mid.drop_last().drop_last() =~= st.drop_last());
        if plus {
            lemma_add_mod_noop(w * a, p2 * a, p31());
            assert((acc + op) % p31() == (w * a + p2 * a) % p31());
            assert(naf_val(gds.take(cur + 1)) * a == w * a + p2 * a) by (nonlinear_arith)
                requires
                    naf_val(gds.take(cur + 1)) == w + gds[cur] * p2,
                    gds[cur] == 1i8,
            ;
        } else {
            lemma_sub_mod_noop(w * a, p2 * a, p31());
            lemma_mod_multiples_vanish(1, (acc as int) - (op as int), p31());
            assert((acc - op + p31()) % p31() == (w * a - p2 * a) % p31());
            assert(naf_val(gds.take(cur + 1)) * a == w * a - p2 * a) by (nonlinear_arith)
                requires
                    naf_val(gds.take(cur + 1)) == w + gds[cur] * p2,
                    gds[cur] == -1i8,
            ;
        }
    }
}

/// Multiply the M31 element on top of the stack by a compile-time constant.
///
/// The program is a pure function of the constant. It walks the constant's
/// non-adjacent form from its least significant digit: zero digits cost only
/// a doubling, nonzero digits one add or subtract; a leading (-1, 0) tail of
/// the digit sequence is rewritten to (1, 1), dropping one instruction
/// without changing the value; the zero constant discards the operand and
/// pushes a literal 0.
#[verifier::rlimit(100)]
pub fn m31_mul_by_constant(constant: u32) -> (s: Vec<Instr>)
    requires
        constant < MOD,
    ensures
        forall|st: Seq<i64>, alt: Seq<i64>| #![trigger run(s@, st, alt)]
            st.len() >= 1 && is_m31(st.last()) ==> run(s@, st, alt) == Some(
                (st.drop_last().push(((st.last() * constant) % p31()) as i64), alt),
            ),
{
    let mut ds = find_naf(constant);
    if ds.len() > 3 {
        let len = ds.len();
        if ds[len - 2] == 0 && ds[len - 3] == -1 {
            let ghost dpre = ds@;
            ds[len - 3] = 1;
            ds[len - 2] = 1;
            let _ = ds.pop();
            proof {
                lemma_naf_val_split(dpre, len - 3);
                lemma_naf_val_split(ds@, len - 3);
                assert(ds@.take(len - 3) =~= dpre.take(len - 3));
                assert(dpre.skip(len - 3) =~= seq![-1i8, 0i8, 1i8]);
                assert(ds@.skip(len - 3) =~= seq![1i8, 1i8]);
                reveal_with_fuel(naf_val, 5);
                assert(seq![-1i8, 0i8, 1i8].drop_first() =~= seq![0i8, 1i8]);
                assert(seq![0i8, 1i8].drop_first() =~= seq![1i8]);
                assert(seq![1i8, 1i8].drop_first() =~= seq![1i8]);
                assert(seq![1i8].drop_first() =~= Seq::<i8>::empty());
                assert(naf_val(seq![-1i8, 0i8, 1i8]) == 3);
                assert(naf_val(seq![1i8, 1i8]) == 3);
                assert(naf_val(ds@) == naf_val(dpre));
                assert forall|j: int| 0 <= j < ds@.len() implies (#[trigger] ds@[j] == 0
                    || ds@[j] == 1 || ds@[j] == -1) by {
                    assert(dpre[j] == 0 || dpre[j] == 1 || dpre[j] == -1);
                }
                assert(ds@.last() == 1);
            }
        }
    }
    let ghost gds = ds@;
    proof {
        lemma2_to64();
        assert(naf_val(gds) == constant as int);
        assert(all_naf_digits(gds));
        assert(gds.len() > 0 ==> gds.last() == 1);
        assert(gds.len() == 0 <==> constant == 0);
    }
    let mut s: Vec<Instr> = Vec::new();
    let mut cur: usize = 0;
    proof {
        assert forall|st: Seq<i64>, alt: Seq<i64>|
            st.len() >= 1 && is_m31(st.last()) implies run(s@, st, alt) == Some(
            (st.drop_last().push((((pow2(0) as int) * st.last()) % p31()) as i64), alt),
        ) by {
            reveal_with_fuel(run, 2);
            lemma_small_mod(st.last() as nat, p31() as nat);
            assert((pow2(0) as int) * st.last() == st.last());
            assert(st.drop_last().push(st.last()) =~= st);
        }
    }
    while cur < ds.len() && ds[cur] == 0
        invariant
            ds@ == gds,
            cur <= gds.len(),
            forall|j: int| 0 <= j < cur ==> (#[trigger] gds[j]) == 0,
            forall|st: Seq<i64>, alt: Seq<i64>| #![trigger run(s@, st, alt)]
                st.len() >= 1 && is_m31(st.last()) ==> run(s@, st, alt) == Some(
                    (
                        st.drop_last().push(
                            (((pow2(cur as nat) as int) * st.last()) % p31()) as i64,
                        ),
                        alt,
                    ),
                ),
        decreases ds.len() - cur,
    {
        let dbl = m31_double();
        let ghost vs = s@;
        let ghost vd = dbl@;
        let ghost curold = cur as nat;
        s = cat(s, dbl);
        proof {
            lemma_mul_const_lead_double(vs, vd, s@, curold);
        }
        cur += 1;
    }
    if cur == ds.len() {
        proof {
            lemma_naf_zeros(gds, cur as int);
            assert(gds.take(cur as int) =~= gds);
        }
        let mut tail: Vec<Instr> = Vec::new();
        tail.push(Instr::Op(BaseInstr::Pop));
        tail.push(Instr::Op(BaseInstr::Push(0)));
        let ghost vs = s@;
        let ghost vt = tail@;
        let s2 = cat(s, tail);
        proof {
            lemma_mul_const_zero_tail(vs, vt, s2@, cur as nat, constant);
        }
        return s2;
    }
    let ghost k0 = cur as int;
    let d0 = ds[cur];
    proof {
        assert(gds[k0] == 0 || gds[k0] == 1 || gds[k0] == -1);
        lemma_naf_zeros(gds, k0);
        lemma_naf_val_push(gds.take(k0), gds[k0]);
        assert(gds.take(k0).len() == k0);
        assert(gds.take(k0 + 1) =~= gds.take(k0).push(gds[k0]));
    }
    if d0 == 1 {
        let mut f: Vec<Instr> = Vec::new();
        f.push(Instr::Op(BaseInstr::Dup));
        let ghost vs = s@;
        let ghost vf = f@;
        s = cat(s, f);
        proof {
            lemma_mul_const_init_pos(vs, vf, s@, gds, k0);
        }
    } else {
        let ini = mul_const_init_neg();
        let ghost vs = s@;
        let ghost vf = ini@;
        s = cat(s, ini);
        proof {
            lemma_mul_const_init_negd(vs, vf, s@, gds, k0);
        }
    }
    cur += 1;
    if cur < ds.len() {
        let dbl = m31_double();
        let ghost vs = s@;
        let ghost vd = dbl@;
        s = cat(s, dbl);
        proof {
            lemma_mul_const_double2(vs, vd, s@, gds, k0 + 1, k0 as nat);
        }
    }
    while cur < ds.len()
        invariant
            ds@ == gds,
            1 <= cur <= gds.len(),
            naf_val(gds) == constant as int,
            all_naf_digits(gds),
            gds.len() > 0 && gds.last() == 1,
            forall|st: Seq<i64>, alt: Seq<i64>| #![trigger run(s@, st, alt)]
                st.len() >= 1 && is_m31(st.last()) ==> run(s@, st, alt) == Some(
                    (
                        st.drop_last().push(
                            ((naf_val(gds.take(cur as int)) * st.last()) % p31()) as i64,
                        ).push(
                            (((pow2(
                                (if (cur as int) < gds.len() {
                                    cur as int
                                } else {
                                    cur - 1
                                }) as nat,
                            ) as int) * st.last()) % p31()) as i64,
                        ),
                        alt,
                    ),
                ),
        decreases ds.len() - cur,
    {
        let ghost curold = cur as int;
        let d = ds[cur];
        proof {
            assert(gds[curold] == 0 || gds[curold] == 1 || gds[curold] == -1);
            lemma_naf_val_push(gds.take(curold), gds[curold]);
            assert(gds.take(curold + 1) =~= gds.take(curold).push(gds[curold]));
            assert(gds.take(curold).len() == curold);
        }
        if d == 1 {
            let stp = mul_const_add_step();
            let ghost vs = s@;
            let ghost vf = stp@;
            s = cat(s, stp);
            proof {
                lemma_mul_const_fold(vs, vf, s@, gds, curold, true);
            }
        } else if d == -1 {
            let stp = mul_const_sub_step();
            let ghost vs = s@;
            let ghost vf = stp@;
            s = cat(s, stp);
            proof {
                lemma_mul_const_fold(vs, vf, s@, gds, curold, false);
            }
        } else {
            proof {
                assert(naf_val(gds.take(curold + 1)) == naf_val(gds.take(curold)) + gds[curold]
                    * (pow2(curold as nat) as int));
                assert(gds[curold] * (pow2(curold as nat) as int) == 0) by (nonlinear_arith)
                    requires
                        gds[curold] == 0i8,
                ;
            }
        }
        if cur != ds.len() - 1 {
            let dbl = m31_double();
            let ghost vs = s@;
            let ghost vd = dbl@;
            s = cat(s, dbl);
            proof {
                lemma_mul_const_double2(vs, vd, s@, gds, curold + 1, curold as nat);
            }
        } else {
            proof {
                assert(gds[curold] != 0);
            }
        }
        cur += 1;
    }
    let mut tail: Vec<Instr> = Vec::new();
    tail.push(Instr::Op(BaseInstr::Pop));
    let ghost vs = s@;
    let ghost vt = tail@;
    let s2 = cat(s, tail);
    proof {
        lemma_mul_const_finish(vs, vt, s2@, gds, (cur - 1) as nat, constant);
    }
    s2
}

/// Doubling the lone operand during the leading zero digits steps its
/// power-of-two factor.
proof fn lemma_mul_const_lead_double(vs: Seq<Instr>, vd: Seq<Instr>, vall: Seq<Instr>, k: nat)
    requires
        vall == vs + vd,
        forall|st: Seq<i64>, alt: Seq<i64>| #![trigger run(vs, st, alt)]
            st.len() >= 1 && is_m31(st.last()) ==> run(vs, st, alt) == Some(
                (
                    st.drop_last().push((((pow2(k) as int) * st.last()) % p31()) as i64),
                    alt,
                ),
            ),
        forall|st: Seq<i64>, alt: Seq<i64>| #![trigger run(vd, st, alt)]
            st.len() >= 1 && is_m31(st.last()) ==> run(vd, st, alt) == Some(
                (st.drop_last().push(((2 * st.last()) % p31()) as i64), alt),
            ),
    ensures
        forall|st: Seq<i64>, alt: Seq<i64>| #![trigger run(vall, st, alt)]
            st.len() >= 1 && is_m31(st.last()) ==> run(vall, st, alt) == Some(
                (
                    st.drop_last().push((((pow2(k + 1) as int) * st.last()) % p31()) as i64),
                    alt,
                ),
            ),
{
    assert forall|st: Seq<i64>, alt: Seq<i64>|
        st.len() >= 1 && is_m31(st.last()) implies run(vall, st, alt) == Some(
        (st.drop_last().push((((pow2(k + 1) as int) * st.last()) % p31()) as i64), alt),
    ) by {
        lemma_run_append(vs, vd, st, alt);
        let a = st.last();
        lemma_mod_bound((pow2(k) as int) * a, p31());
        let mid = st.drop_last().push((((pow2(k) as int) * a) % p31()) as i64);
        assert(run(vs, st, alt) == Some((mid, alt)));
        assert(run(vd, mid, alt) == Some(
            (mid.drop_last().push(((2 * mid.last()) % p31()) as i64), alt),
        ));
        lemma_double_mod_step(a as int, k);
        assert(mid.drop_last() =~= st.drop_last());
    }
}

/// Discarding the operand and pushing a literal 0 realizes multiplication
/// by the zero constant.
proof fn lemma_mul_const_zero_tail(
    vs: Seq<Instr>,
    vt: Seq<Instr>,
    vall: Seq<Instr>,
    k: nat,
    constant: u32,
)
    requires
        vall == vs + vt,
        vt =~= seq![
            Instr::Op(BaseInstr::Pop),
            Instr::Op(BaseInstr::Push(0)),
        ],
        constant == 0,
        forall|st: Seq<i64>, alt: Seq<i64>| #![trigger run(vs, st, alt)]
            st.len() >= 1 && is_m31(st.last()) ==> run(vs, st, alt) == Some(
                (
                    st.drop_last().push((((pow2(k) as int) * st.last()) % p31()) as i64),
                    alt,
                ),
            ),
    ensures
        forall|st: Seq<i64>, alt: Seq<i64>| #![trigger run(vall, st, alt)]
            st.len() >= 1 && is_m31(st.last()) ==> run(vall, st, alt) == Some(
                (st.drop_last().push(((st.last() * constant) % p31()) as i64), alt),
            ),
{
    assert forall|st: Seq<i64>, alt: Seq<i64>|
        st.len() >= 1 && is_m31(st.last()) implies run(vall, st, alt) == Some(
        (st.drop_last().push(((st.last() * constant) % p31()) as i64), alt),
    ) by {
        lemma_run_append(vs, vt, st, alt);
        reveal_with_fuel(run, 4);
        let a = st.last();
        let mid = st.drop_last().push((((pow2(k) as int) * a) % p31()) as i64);
        assert(run(vs, st, alt) == Some((mid, alt)));
        assert(mid.drop_last() =~= st.drop_last());
        assert((st.last() as int) * (constant as int) == 0) by (nonlinear_arith)
            requires
                constant == 0,
        ;
    }
}

/// A duplicate of the operand starts the accumulator at the value of the
/// first nonzero digit when that digit is 1.
proof fn lemma_mul_const_init_pos(
    vs: Seq<Instr>,
    vf: Seq<Instr>,
    vall: Seq<Instr>,
    gds: Seq<i8>,
    k0: int,
)
    requires
        vall == vs + vf,
        vf =~= seq![Instr::Op(BaseInstr::Dup)],
        0 <= k0 < gds.len(),
        gds[k0] == 1i8,
        naf_val(gds.take(k0 + 1)) == 0 + gds[k0] * (pow2(k0 as nat) as int),
        forall|st: Seq<i64>, alt: Seq<i64>| #![trigger run(vs, st, alt)]
            st.len() >= 1 && is_m31(st.last()) ==> run(vs, st, alt) == Some(
                (
                    st.drop_last().push(
                        (((pow2(k0 as nat) as int) * st.last()) % p31()) as i64,
                    ),
                    alt,
                ),
            ),
    ensures
        forall|st: Seq<i64>, alt: Seq<i64>| #![trigger run(vall, st, alt)]
            st.len() >= 1 && is_m31(st.last()) ==> run(vall, st, alt) == Some(
                (
                    st.drop_last().push(
                        ((naf_val(gds.take(k0 + 1)) * st.last()) % p31()) as i64,
                    ).push((((pow2(k0 as nat) as int) * st.last()) % p31()) as i64),
                    alt,
                ),
            ),
{
    assert forall|st: Seq<i64>, alt: Seq<i64>|
        st.len() >= 1 && is_m31(st.last()) implies run(vall, st, alt) == Some(
        (
            st.drop_last().push(((naf_val(gds.take(k0 + 1)) * st.last()) % p31()) as i64).push(
                (((pow2(k0 as nat) as int) * st.last()) % p31()) as i64,
            ),
            alt,
        ),
    ) by {
        lemma_run_append(vs, vf, st, alt);
        reveal_with_fuel(run, 3);
        let a = st.last();
        let v = (((pow2(k0 as nat) as int) * a) % p31()) as i64;
        let mid = st.drop_last().push(v);
        assert(run(vs, st, alt) == Some((mid, alt)));
        assert(mid.push(mid.last()) =~= st.drop_last().push(v).push(v));
        assert(naf_val(gds.take(k0 + 1)) * a == (pow2(k0 as nat) as int) * a) by (nonlinear_arith)
            requires
                naf_val(gds.take(k0 + 1)) == 0 + gds[k0] * (pow2(k0 as nat) as int),
                gds[k0] == 1i8,
        ;
    }
}

/// A negated duplicate of the operand starts the accumulator at the value
/// of the first nonzero digit when that digit is -1.
proof fn lemma_mul_const_init_negd(
    vs: Seq<Instr>,
    vf: Seq<Instr>,
    vall: Seq<Instr>,
    gds: Seq<i8>,
    k0: int,
)
    requires
        vall == vs + vf,
        0 <= k0 < gds.len(),
        gds[k0] == -1i8,
        naf_val(gds.take(k0 + 1)) == 0 + gds[k0] * (pow2(k0 as nat) as int),
        forall|st: Seq<i64>, alt: Seq<i64>| #![trigger run(vs, st, alt)]
            st.len() >= 1 && is_m31(st.last()) ==> run(vs, st, alt) == Some(
                (
                    st.drop_last().push(
                        (((pow2(k0 as nat) as int) * st.last()) % p31()) as i64,
                    ),
                    alt,
                ),
            ),
        forall|st: Seq<i64>, alt: Seq<i64>| #![trigger run(vf, st, alt)]
            st.len() >= 1 && is_m31(st.last()) ==> run(vf, st, alt) == Some(
                (
                    st.drop_last().push(((p31() - st.last()) % p31()) as i64).push(st.last()),
                    alt,
                ),
            ),
    ensures
        forall|st: Seq<i64>, alt: Seq<i64>| #![trigger run(vall, st, alt)]
            st.len() >= 1 && is_m31(st.last()) ==> run(vall, st, alt) == Some(
                (
                    st.drop_last().push(
                        ((naf_val(gds.take(k0 + 1)) * st.last()) % p31()) as i64,
                    ).push((((pow2(k0 as nat) as int) * st.last()) % p31()) as i64),
                    alt,
                ),
            ),
{
    assert forall|st: Seq<i64>, alt: Seq<i64>|
        st.len() >= 1 && is_m31(st.last()) implies run(vall, st, alt) == Some(
        (
            st.drop_last().push(((naf_val(gds.take(k0 + 1)) * st.last()) % p31()) as i64).push(
                (((pow2(k0 as nat) as int) * st.last()) % p31()) as i64,
            ),
            alt,
        ),
    ) by {
        lemma_run_append(vs, vf, st, alt);
        let a = st.last();
        lemma_mod_bound((pow2(k0 as nat) as int) * a, p31());
        let v = (((pow2(k0 as nat) as int) * a) % p31()) as i64;
        let mid = st.drop_last().push(v);
        assert(run(vs, st, alt) == Some((mid, alt)));
        assert(run(vf, mid, alt) == Some(
            (mid.drop_last().push(((p31() - v) % p31()) as i64).push(v), alt),
        ));
        assert(mid.drop_last() =~= st.drop_last());
        lemma_neg_mod((pow2(k0 as nat) as int) * a);
        assert(naf_val(gds.take(k0 + 1)) * a == 0 - (pow2(k0 as nat) as int) * (
        a as int)) by (nonlinear_arith)
            requires
                naf_val(gds.take(k0 + 1)) == 0 + gds[k0] * (pow2(k0 as nat) as int),
                gds[k0] == -1i8,
        ;
    }
}

/// Dropping the exhausted operand leaves the finished accumulator: the
/// multiple of the full digit sequence.
proof fn lemma_mul_const_finish(
    vs: Seq<Instr>,
    vt: Seq<Instr>,
    vall: Seq<Instr>,
    gds: Seq<i8>,
    e: nat,
    constant: u32,
)
    requires
        vall == vs + vt,
        vt =~= seq![Instr::Op(BaseInstr::Pop)],
        naf_val(gds) == constant as int,
        forall|st: Seq<i64>, alt: Seq<i64>| #![trigger run(vs, st, alt)]
            st.len() >= 1 && is_m31(st.last()) ==> run(vs, st, alt) == Some(
                (
                    st.drop_last().push(
                        ((naf_val(gds.take(gds.len() as int)) * st.last()) % p31()) as i64,
                    ).push((((pow2(e) as int) * st.last()) % p31()) as i64),
                    alt,
                ),
            ),
    ensures
        forall|st: Seq<i64>, alt: Seq<i64>| #![trigger run(vall, st, alt)]
            st.len() >= 1 && is_m31(st.last()) ==> run(vall, st, alt) == Some(
                (st.drop_last().push(((st.last() * constant) % p31()) as i64), alt),
            ),
{
    assert forall|st: Seq<i64>, alt: Seq<i64>|
        st.len() >= 1 && is_m31(st.last()) implies run(vall, st, alt) == Some(
        (st.drop_last().push(((st.last() * constant) % p31()) as i64), alt),
    ) by {
        lemma_run_append(vs, vt, st, alt);
        reveal_with_fuel(run, 3);
        let a = st.last();
        assert(gds.take(gds.len() as int) =~= gds);
        let acc = ((naf_val(gds) * a) % p31()) as i64;
        let mid = st.drop_last().push(acc).push((((pow2(e) as int) * a) % p31()) as i64);
        assert(run(vs, st, alt) == Some((mid, alt)));
        assert(mid.drop_last() =~= st.drop_last().push(acc));
    }
}

/// A twisted multiple of a: the k-fold of a, reduced and shifted down by P.
pub open spec fn twm(k: int, a: i64) -> i64 {
    (((k * a) % p31()) - p31()) as i64
}

/// The table entry the multiplier looks up for a window digit: the empty
/// entry 0 for digit 0, else the twisted multiple.
pub open spec fn mul_entry(d: int, a: i64) -> i64 {
    if d == 0 {
        0
    } else {
        twm(d, a)
    }
}

/// The multiplier's working stack: below the two consumed operands' slots
/// sit the parked modulus, the table of twisted multiples of the deeper
/// operand in index order with the empty entry on top, then the remainder
/// slot and the accumulator slot.
pub open spec fn mul_table_state(st: Seq<i64>, rem: i64, acc: i64) -> Seq<i64> {
    st.drop_last().drop_last() + seq![
        MOD as i64,
        twm(3, st[st.len() - 2]),
        twm(2, st[st.len() - 2]),
        twm(1, st[st.len() - 2]),
        0i64,
        rem,
        acc,
    ]
}

/// Splitting two bits off a remainder: how the remainder below weight 2^s
/// decomposes into a two-bit digit and the remainder below weight 2^(s-2).
proof fn lemma_rem_split(b: int, s: nat)
    requires
        2 <= s,
        0 <= b,
    ensures
        (b % (pow2(s) as int)) % (pow2((s - 2) as nat) as int) == b % (pow2(
            (s - 2) as nat,
        ) as int),
        (b % (pow2(s) as int)) / (pow2((s - 2) as nat) as int) == b / (pow2(
            (s - 2) as nat,
        ) as int) - 4 * (b / (pow2(s) as int)),
        b / (pow2((s - 2) as nat) as int) == 4 * (b / (pow2(s) as int)) + (b % (pow2(
            s,
        ) as int)) / (pow2((s - 2) as nat) as int),
        0 <= (b % (pow2(s) as int)) / (pow2((s - 2) as nat) as int) < 4,
{
    let h = pow2((s - 2) as nat) as int;
    let m = pow2(s) as int;
    lemma_pow2_pos((s - 2) as nat);
    lemma_pow2_pos(s);
    assert(m == 4 * h) by {
        lemma_pow2_adds((s - 2) as nat, 2);
        lemma2_to64();
    }
    lemma_fundamental_div_mod(b, m);
    lemma_mod_bound(b, m);
    let q = b / m;
    let r = b % m;
    lemma_fundamental_div_mod(r, h);
    lemma_mod_bound(r, h);
    let d = r / h;
    let r2 = r % h;
    lemma_div_pos_is_pos(r, h);
    assert(d < 4) by (nonlinear_arith)
        requires
            r == h * d + r2,
            0 <= r2,
            r < 4 * h,
            h > 0,
            d >= 0,
    ;
    assert(b == (4 * q + d) * h + r2) by (nonlinear_arith)
        requires
            b == m * q + r,
            r == h * d + r2,
            m == 4 * h,
    ;
    lemma_fundamental_div_mod_converse(b, h, 4 * q + d, r2);
}

/// Test the value on top against a weight w: leave the reduced value below
/// and the boolean outcome of the test on top.
#[verifier::rlimit(100)]
fn win_bit(w: i64) -> (s: Vec<Instr>)
    requires
        1 <= w <= 0x4000_0000,
    ensures
        forall|st: Seq<i64>, alt: Seq<i64>| #![trigger run(s@, st, alt)]
            st.len() >= 1 && 0 <= st.last() < 2 * w ==> run(s@, st, alt) == Some(
                (
                    st.drop_last().push(
                        if st.last() >= w {
                            (st.last() - w) as i64
                        } else {
                            st.last()
                        },
                    ).push(bool_val(st.last() >= w)),
                    alt,
                ),
            ),
{
    let mut body: Vec<BaseInstr> = Vec::new();
    body.push(BaseInstr::Sub);
    body.push(BaseInstr::Push(0));
    let mut s: Vec<Instr> = Vec::new();
    s.push(Instr::Op(BaseInstr::Push(w)));
    s.push(Instr::Op(BaseInstr::Dup2));
    s.push(Instr::Op(BaseInstr::GreaterOrEqual));
    s.push(Instr::Branch(body));
    s.push(Instr::Op(BaseInstr::Not));
    proof {
        assert forall|st: Seq<i64>, alt: Seq<i64>|
            st.len() >= 1 && 0 <= st.last() < 2 * w implies run(s@, st, alt) == Some(
            (
                st.drop_last().push(
                    if st.last() >= w {
                        (st.last() - w) as i64
                    } else {
                        st.last()
                    },
                ).push(bool_val(st.last() >= w)),
                alt,
            ),
        ) by {
            reveal_with_fuel(run, 8);
            reveal_with_fuel(crate::vm::run_ops, 4);
            let r = st.last();
            let st1 = st.push(w);
            assert(st1.push(st1[st1.len() - 2]).push(st1[st1.len() - 1]) =~= st1.push(r).push(w));
            assert(st1.push(r).push(w).drop_last().drop_last() =~= st1);
            let ge = bool_val(r >= w);
            assert(st1.push(ge).drop_last() =~= st1);
            if r >= w {
                assert(st1.drop_last().drop_last().push((r - w) as i64) =~= st.drop_last().push(
                    (r - w) as i64,
                ));
            } else {
                assert(st1.drop_last() =~= st);
                assert(st.drop_last().push(st.last()) =~= st);
            }
        }
    }
    s
}

/// Arithmetic of extracting two bits greedily from a remainder below 2^(lo+2).
proof fn lemma_two_bits(rr: int, lo: nat)
    requires
        lo <= 28,
        0 <= rr < pow2((lo + 2) as nat),
    ensures
        pow2((lo + 2) as nat) == 2 * pow2((lo + 1) as nat),
        pow2((lo + 1) as nat) == 2 * pow2(lo),
        (rr >= pow2((lo + 1) as nat)) <==> rr / (pow2((lo + 1) as nat) as int) == 1,
        rr / (pow2((lo + 1) as nat) as int) == 0 || rr / (pow2((lo + 1) as nat) as int) == 1,
        rr - (if rr >= pow2((lo + 1) as nat) {
            pow2((lo + 1) as nat) as int
        } else {
            0
        }) == rr % (pow2((lo + 1) as nat) as int),
        (rr % (pow2((lo + 1) as nat) as int) >= pow2(lo)) <==> (rr / (pow2(lo) as int)) % 2 == 1,
        (rr / (pow2(lo) as int)) % 2 == 0 || (rr / (pow2(lo) as int)) % 2 == 1,
        rr % (pow2((lo + 1) as nat) as int) - (if rr % (pow2((lo + 1) as nat) as int) >= pow2(lo) {
            pow2(lo) as int
        } else {
            0
        }) == rr % (pow2(lo) as int),
        rr / (pow2(lo) as int) == 2 * (rr / (pow2((lo + 1) as nat) as int)) + (rr / (pow2(
            lo,
        ) as int)) % 2,
{
    lemma_pow2_unfold((lo + 2) as nat);
    lemma_pow2_unfold((lo + 1) as nat);
    lemma_pow2_pos(lo);
    lemma_small_mod(rr as nat, pow2((lo + 2) as nat));
    lemma_bit_split(rr, (lo + 1) as nat);
    lemma_bit_split(rr, lo);
    lemma_basic_div(rr, pow2((lo + 2) as nat) as int);
}

/// Folding a tested bit into the forming window digit: rotate the higher
/// bit up, double it and add the lower bit, leaving the remainder below.
proof fn lemma_win_fold(v5: Seq<Instr>)
    requires
        v5 =~= seq![
            Instr::Op(BaseInstr::Rot),
            Instr::Op(BaseInstr::Dup),
            Instr::Op(BaseInstr::Add),
            Instr::Op(BaseInstr::Add),
        ],
    ensures
        forall|st: Seq<i64>, alt: Seq<i64>| #![trigger run(v5, st, alt)]
            st.len() >= 3 && 0 <= st[st.len() - 3] <= 1 && 0 <= st.last() <= 1 ==> run(
                v5,
                st,
                alt,
            ) == Some(
                (
                    st.drop_last().drop_last().drop_last().push(st[st.len() - 2]).push(
                        (st.last() + 2 * st[st.len() - 3]) as i64,
                    ),
                    alt,
                ),
            ),
{
    assert forall|st: Seq<i64>, alt: Seq<i64>|
        st.len() >= 3 && 0 <= st[st.len() - 3] <= 1 && 0 <= st.last() <= 1 implies run(
        v5,
        st,
        alt,
    ) == Some(
        (
            st.drop_last().drop_last().drop_last().push(st[st.len() - 2]).push(
                (st.last() + 2 * st[st.len() - 3]) as i64,
            ),
            alt,
        ),
    ) by {
        reveal_with_fuel(run, 6);
        let g1 = st[st.len() - 3];
        let r2 = st[st.len() - 2];
        let g0 = st.last();
        let x5 = st.drop_last().drop_last().drop_last().push(r2).push(g0).push(g1);
        assert(st.drop_last().drop_last().drop_last().push(st[st.len() - 2]).push(
            st[st.len() - 1],
        ).push(st[st.len() - 3]) =~= x5);
        assert(x5.push(g1).drop_last().drop_last().push((g1 + g1) as i64).drop_last().drop_last()
            .push((g0 + (g1 + g1)) as i64) =~= st.drop_last().drop_last().drop_last().push(
            r2,
        ).push((g0 + 2 * g1) as i64));
    }
}

/// The two-bit window extractor leaves the reduced remainder and the window
/// digit in place of the remainder and the value above it.
#[verifier::rlimit(100)]
proof fn lemma_get_window_wide(
    v1: Seq<Instr>,
    v2: Seq<Instr>,
    v3: Seq<Instr>,
    v4: Seq<Instr>,
    v5: Seq<Instr>,
    vall: Seq<Instr>,
    w0: i64,
    w1: i64,
    lo: nat,
)
    requires
        vall == v1 + v2 + v3 + v4 + v5,
        v1 =~= seq![Instr::Op(BaseInstr::Swap)],
        v3 =~= seq![Instr::Op(BaseInstr::Swap)],
        v5 =~= seq![
            Instr::Op(BaseInstr::Rot),
            Instr::Op(BaseInstr::Dup),
            Instr::Op(BaseInstr::Add),
            Instr::Op(BaseInstr::Add),
        ],
        lo <= 28,
        w0 == pow2(lo),
        w1 == pow2((lo + 1) as nat),
        forall|st: Seq<i64>, alt: Seq<i64>| #![trigger run(v2, st, alt)]
            st.len() >= 1 && 0 <= st.last() < 2 * w1 ==> run(v2, st, alt) == Some(
                (
                    st.drop_last().push(
                        if st.last() >= w1 {
                            (st.last() - w1) as i64
                        } else {
                            st.last()
                        },
                    ).push(bool_val(st.last() >= w1)),
                    alt,
                ),
            ),
        forall|st: Seq<i64>, alt: Seq<i64>| #![trigger run(v4, st, alt)]
            st.len() >= 1 && 0 <= st.last() < 2 * w0 ==> run(v4, st, alt) == Some(
                (
                    st.drop_last().push(
                        if st.last() >= w0 {
                            (st.last() - w0) as i64
                        } else {
                            st.last()
                        },
                    ).push(bool_val(st.last() >= w0)),
                    alt,
                ),
            ),
    ensures
        forall|st: Seq<i64>, alt: Seq<i64>| #![trigger run(vall, st, alt)]
            st.len() >= 2 && 0 <= st[st.len() - 2] < pow2((lo + 2) as nat) ==> run(vall, st, alt)
                == Some(
                (
                    st.drop_last().drop_last().push(st.last()).push(
                        ((st[st.len() - 2] as int) % (pow2(lo) as int)) as i64,
                    ).push(((st[st.len() - 2] as int) / (pow2(lo) as int)) as i64),
                    alt,
                ),
            ),
{
    lemma_win_fold(v5);
    assert forall|st: Seq<i64>, alt: Seq<i64>|
        st.len() >= 2 && 0 <= st[st.len() - 2] < pow2((lo + 2) as nat) implies run(vall, st, alt)
        == Some(
        (
            st.drop_last().drop_last().push(st.last()).push(
                ((st[st.len() - 2] as int) % (pow2(lo) as int)) as i64,
            ).push(((st[st.len() - 2] as int) / (pow2(lo) as int)) as i64),
            alt,
        ),
    ) by {
        reveal_with_fuel(run, 3);
        lemma_run_append(v1 + v2 + v3 + v4, v5, st, alt);
        lemma_run_append(v1 + v2 + v3, v4, st, alt);
        lemma_run_append(v1 + v2, v3, st, alt);
        lemma_run_append(v1, v2, st, alt);
        let rr = st[st.len() - 2] as int;
        let bigr = st[st.len() - 2];
        let av = st.last();
        let base = st.drop_last().drop_last();
        lemma_two_bits(rr, lo);
        let x1 = base.push(av).push(bigr);
        assert(st.drop_last().drop_last().push(st[st.len() - 1]).push(st[st.len() - 2]) =~= x1);
        assert(run(v1, st, alt) == Some((x1, alt)));
        let ge1 = bool_val(bigr >= w1);
        let r1: i64 = if bigr >= w1 {
            (bigr - w1) as i64
        } else {
            bigr
        };
        assert(r1 as int == rr % (pow2((lo + 1) as nat) as int));
        assert(ge1 as int == rr / (pow2((lo + 1) as nat) as int));
        assert(run(v2, x1, alt) == Some((x1.drop_last().push(r1).push(ge1), alt)));
        let x2 = base.push(av).push(r1).push(ge1);
        assert(x1.drop_last().push(r1).push(ge1) =~= x2);
        let x3 = base.push(av).push(ge1).push(r1);
        assert(x2.drop_last().drop_last().push(x2[x2.len() - 1]).push(x2[x2.len() - 2]) =~= x3);
        assert(run(v3, x2, alt) == Some((x3, alt)));
        let ge0 = bool_val(r1 >= w0);
        let r2: i64 = if r1 >= w0 {
            (r1 - w0) as i64
        } else {
            r1
        };
        assert(r2 as int == rr % (pow2(lo) as int));
        assert(ge0 as int == (rr / (pow2(lo) as int)) % 2);
        assert(run(v4, x3, alt) == Some((x3.drop_last().push(r2).push(ge0), alt)));
        let x4 = base.push(av).push(ge1).push(r2).push(ge0);
        assert(x3.drop_last().push(r2).push(ge0) =~= x4);
        assert(x4[x4.len() - 3] == ge1 && x4[x4.len() - 2] == r2 && x4.last() == ge0);
        assert(run(v5, x4, alt) == Some(
            (
                x4.drop_last().drop_last().drop_last().push(r2).push((ge0 + 2 * ge1) as i64),
                alt,
            ),
        ));
        assert(x4.drop_last().drop_last().drop_last().push(r2).push((ge0 + 2 * ge1) as i64)
            =~= base.push(av).push(r2).push((ge0 + 2 * ge1) as i64));
        assert((ge0 + 2 * ge1) as int == rr / (pow2(lo) as int));
    }
}

/// Extract one window of the multiplier's still-unprocessed high bits: test
/// against successively smaller powers of two, subtract on success, and
/// fold each tested bit into the window digit while the remainder shrinks.
/// The first window is narrower, a single bit, since the bit-length is odd.
fn get_window(index: u32) -> (s: Vec<Instr>)
    requires
        index < crate::windowed::N_WINDOW,
    ensures
        index == 0 ==> forall|st: Seq<i64>, alt: Seq<i64>| #![trigger run(s@, st, alt)]
            st.len() >= 1 && 0 <= st.last() < pow2(31) ==> run(s@, st, alt) == Some(
                (
                    st.drop_last().push(((st.last() as int) % (pow2(30) as int)) as i64).push(
                        ((st.last() as int) / (pow2(30) as int)) as i64,
                    ),
                    alt,
                ),
            ),
        index >= 1 ==> forall|st: Seq<i64>, alt: Seq<i64>| #![trigger run(s@, st, alt)]
            st.len() >= 2 && 0 <= st[st.len() - 2] < pow2((32 - 2 * index) as nat) ==> run(
                s@,
                st,
                alt,
            ) == Some(
                (
                    st.drop_last().drop_last().push(st.last()).push(
                        ((st[st.len() - 2] as int) % (pow2((30 - 2 * index) as nat) as int)) as i64,
                    ).push(
                        ((st[st.len() - 2] as int) / (pow2((30 - 2 * index) as nat) as int)) as i64,
                    ),
                    alt,
                ),
            ),
{
    if index == 0 {
        let s = win_bit(0x4000_0000);
        proof {
            lemma2_to64();
            assert forall|st: Seq<i64>, alt: Seq<i64>|
                st.len() >= 1 && 0 <= st.last() < pow2(31) implies run(s@, st, alt) == Some(
                (
                    st.drop_last().push(((st.last() as int) % (pow2(30) as int)) as i64).push(
                        ((st.last() as int) / (pow2(30) as int)) as i64,
                    ),
                    alt,
                ),
            ) by {
                let v = st.last() as int;
                lemma_small_mod(v as nat, pow2(31));
                lemma_bit_split(v, 30);
                lemma_basic_div(v, pow2(31) as int);
            }
        }
        s
    } else {
        let lo: u32 = 2 * (crate::windowed::N_WINDOW - 1 - index);
        let mut w0: i64 = 1;
        let mut j: u32 = 0;
        proof {
            lemma2_to64();
        }
        while j < lo
            invariant
                j <= lo,
                lo <= 28,
                w0 == pow2(j as nat),
            decreases lo - j,
        {
            proof {
                if j as nat + 1 < 29 {
                    lemma_pow2_strictly_increases((j + 1) as nat, 29nat);
                }
                lemma_pow2_unfold((j + 1) as nat);
                lemma2_to64();
            }
            w0 = w0 * 2;
            j = j + 1;
        }
        let w1: i64 = w0 * 2;
        proof {
            if (lo as nat) < 29 {
                lemma_pow2_strictly_increases(lo as nat, 29nat);
            }
            lemma_pow2_unfold((lo + 1) as nat);
            lemma2_to64();
        }
        let mut f1: Vec<Instr> = Vec::new();
        f1.push(Instr::Op(BaseInstr::Swap));
        let ghost v1 = f1@;
        let b1 = win_bit(w1);
        let ghost v2 = b1@;
        let mut f3: Vec<Instr> = Vec::new();
        f3.push(Instr::Op(BaseInstr::Swap));
        let ghost v3 = f3@;
        let b0 = win_bit(w0);
        let ghost v4 = b0@;
        let mut f5: Vec<Instr> = Vec::new();
        f5.push(Instr::Op(BaseInstr::Rot));
        f5.push(Instr::Op(BaseInstr::Dup));
        f5.push(Instr::Op(BaseInstr::Add));
        f5.push(Instr::Op(BaseInstr::Add));
        let ghost v5 = f5@;
        let s = cat(cat(cat(cat(f1, b1), f3), b0), f5);
        proof {
            lemma_get_window_wide(v1, v2, v3, v4, v5, s@, w0, w1, lo as nat);
            assert((lo + 2) as nat == (32 - 2 * index) as nat);
            assert(lo as nat == (30 - 2 * index) as nat);
        }
        s
    }
}

/// The multiplier bits not yet consumed when window i is about to run.
pub open spec fn wshift(i: int) -> nat {
    (32 - 2 * i) as nat
}

/// The still-unprocessed low part of the multiplier entering window i.
pub open spec fn wrem(b: i64, i: int) -> i64 {
    ((b as int) % (pow2(wshift(i)) as int)) as i64
}

/// The already-consumed high part of the multiplier entering window i.
pub open spec fn wmult(b: i64, i: int) -> int {
    (b as int) / (pow2(wshift(i)) as int)
}

/// The accumulator entering window i: the consumed high part times the
/// multiplicand, already shifted left by the window width except before
/// the very last exit.
pub open spec fn wacci(st: Seq<i64>, i: int) -> i64 {
    (((if i < 16 {
        4 * wmult(st.last(), i)
    } else {
        wmult(st.last(), i)
    }) * (st[st.len() - 2] as int)) % p31()) as i64
}

/// The table lookup: use the digit on top as an index into the four entries
/// below the two working slots, then rotate the accumulator up.
proof fn lemma_mul_lookup(vlk: Seq<Instr>)
    requires
        vlk =~= seq![
            Instr::Op(BaseInstr::Push(2)),
            Instr::Op(BaseInstr::Add),
            Instr::Op(BaseInstr::Pick),
            Instr::Op(BaseInstr::Rot),
        ],
    ensures
        forall|st: Seq<i64>, alt: Seq<i64>| #![trigger run(vlk, st, alt)]
            st.len() >= 7 && 0 <= st.last() <= 3 ==> run(vlk, st, alt) == Some(
                (
                    st.drop_last().drop_last().drop_last().push(st[st.len() - 2]).push(
                        st[st.len() - 4 - st.last()],
                    ).push(st[st.len() - 3]),
                    alt,
                ),
            ),
{
    assert forall|st: Seq<i64>, alt: Seq<i64>|
        st.len() >= 7 && 0 <= st.last() <= 3 implies run(vlk, st, alt) == Some(
        (
            st.drop_last().drop_last().drop_last().push(st[st.len() - 2]).push(
                st[st.len() - 4 - st.last()],
            ).push(st[st.len() - 3]),
            alt,
        ),
    ) by {
        reveal_with_fuel(run, 6);
        let d = st.last();
        assert(st.push(2).drop_last().drop_last() =~= st.drop_last());
        let x1 = st.drop_last().push((d + 2) as i64);
        assert(x1.drop_last() =~= st.drop_last());
        assert(x1[x1.len() - 2 - (d + 2)] == st[st.len() - 4 - d]);
        let x2 = st.drop_last().push(st[st.len() - 4 - d]);
        let x3 = st.drop_last().drop_last().drop_last().push(st[st.len() - 2]).push(
            st[st.len() - 4 - d],
        ).push(st[st.len() - 3]);
        assert(x2.drop_last().drop_last().drop_last().push(x2[x2.len() - 2]).push(
            x2[x2.len() - 1],
        ).push(x2[x2.len() - 3]) =~= x3);
    }
}

/// Folding a looked-up table entry into the accumulator adds the digit to
/// the running multiple.
proof fn lemma_mul_acc_fold(a: i64, m: int, d: int)
    requires
        is_m31(a),
        0 <= m,
        0 <= d <= 3,
    ensures
        ((mul_entry(d, a) + ((m * a) % p31()) + p31()) % p31()) == ((m + d) * a) % p31(),
{
    lemma_mod_bound(d * a, p31());
    lemma_mod_bound(m * a, p31());
    if d == 0 {
        lemma_mod_multiples_vanish(1, (m * a) % p31(), p31());
        lemma_small_mod(((m * a) % p31()) as nat, p31() as nat);
    } else {
        lemma_add_mod_noop(d * a, m * a, p31());
        assert((m + d) * a == m * a + d * a) by (nonlinear_arith);
        assert(mul_entry(d, a) + ((m * a) % p31()) + p31() == ((d * a) % p31()) + ((m * a)
            % p31()));
    }
}

/// Doubling a reduced multiple doubles the factor.
proof fn lemma_double_mult(a: i64, k: int)
    ensures
        (2 * ((k * a) % p31())) % p31() == ((2 * k) * a) % p31(),
{
    lemma_mul_mod_noop_right(2, k * a, p31());
    assert(2 * (k * a) == (2 * k) * a) by (nonlinear_arith);
}

/// Building the table, first half: park the modulus, twist the deeper
/// operand, and form its twisted double.
#[verifier::rlimit(100)]
proof fn lemma_mul_setup_a(
    v1: Seq<Instr>,
    v2: Seq<Instr>,
    v3: Seq<Instr>,
    v4: Seq<Instr>,
    vall: Seq<Instr>,
)
    requires
        vall == v1 + v2 + v3 + v4,
        v1 =~= seq![Instr::Op(BaseInstr::Push(MOD as i64)), Instr::Op(BaseInstr::Rot)],
        forall|st: Seq<i64>, alt: Seq<i64>| #![trigger run(v2, st, alt)]
            st.len() >= 1 && is_m31(st.last()) && crate::windowed::mod_at(st, 1) ==> run(
                v2,
                st,
                alt,
            ) == Some((st.drop_last().push((st.last() - p31()) as i64), alt)),
        forall|st: Seq<i64>, alt: Seq<i64>| #![trigger run(v3, st, alt)]
            st.len() >= 1 ==> run(v3, st, alt) == Some((st.push(st[st.len() - 1]), alt)),
        forall|st: Seq<i64>, alt: Seq<i64>| #![trigger run(v4, st, alt)]
            st.len() >= 1 && is_n31(st.last()) && crate::windowed::mod_at(st, 2) ==> run(
                v4,
                st,
                alt,
            ) == Some(
                (st.drop_last().push((((2 * st.last() + 2 * p31()) % p31()) - p31()) as i64), alt),
            ),
    ensures
        forall|st: Seq<i64>, alt: Seq<i64>| #![trigger run(vall, st, alt)]
            st.len() >= 2 && is_m31(st[st.len() - 2]) && is_m31(st.last()) ==> run(vall, st, alt)
                == Some(
                (
                    st.drop_last().drop_last() + seq![
                        st.last(),
                        MOD as i64,
                        twm(1, st[st.len() - 2]),
                        twm(2, st[st.len() - 2]),
                    ],
                    alt,
                ),
            ),
{
    assert forall|st: Seq<i64>, alt: Seq<i64>|
        st.len() >= 2 && is_m31(st[st.len() - 2]) && is_m31(st.last()) implies run(vall, st, alt)
        == Some(
        (
            st.drop_last().drop_last() + seq![
                st.last(),
                MOD as i64,
                twm(1, st[st.len() - 2]),
                twm(2, st[st.len() - 2]),
            ],
            alt,
        ),
    ) by {
        reveal_with_fuel(run, 4);
        lemma_run_append(v1 + v2 + v3, v4, st, alt);
        lemma_run_append(v1 + v2, v3, st, alt);
        lemma_run_append(v1, v2, st, alt);
        let a = st[st.len() - 2];
        let b = st.last();
        let base = st.drop_last().drop_last();
        let pl = MOD as i64;
        lemma_small_mod(a as nat, p31() as nat);
        lemma_mod_bound(2 * a, p31());
        let t1 = twm(1, a);
        let t2 = twm(2, a);
        assert(t1 as int == a - p31());
        let sp = st.push(pl);
        let x1 = base.push(b).push(pl).push(a);
        assert(sp.drop_last().drop_last().drop_last().push(sp[sp.len() - 2]).push(
            sp[sp.len() - 1],
        ).push(sp[sp.len() - 3]) =~= x1);
        assert(run(v1, st, alt) == Some((x1, alt)));
        assert(x1[x1.len() - 2] == pl);
        assert(run(v2, x1, alt) == Some((x1.drop_last().push((a - p31()) as i64), alt)));
        let x2 = base.push(b).push(pl).push(t1);
        assert(x1.drop_last().push((a - p31()) as i64) =~= x2);
        assert(run(v3, x2, alt) == Some((x2.push(t1), alt)));
        let x3 = x2.push(t1);
        assert(x3[x3.len() - 3] == pl);
        assert(run(v4, x3, alt) == Some(
            (x3.drop_last().push((((2 * t1 + 2 * p31()) % p31()) - p31()) as i64), alt),
        ));
        assert(2 * (t1 as int) + 2 * p31() == 2 * a);
        assert(x3.drop_last().push((((2 * t1 + 2 * p31()) % p31()) - p31()) as i64) =~= base
            + seq![b, pl, t1, t2]);
    }
}

/// Building the table, second half: form the twisted triple from the single
/// and the double.
#[verifier::rlimit(100)]
proof fn lemma_mul_setup_b(
    va: Seq<Instr>,
    v5: Seq<Instr>,
    v6: Seq<Instr>,
    v7: Seq<Instr>,
    vall: Seq<Instr>,
)
    requires
        vall == va + v5 + v6 + v7,
        v5 =~= seq![Instr::Op(BaseInstr::Dup)],
        forall|st: Seq<i64>, alt: Seq<i64>| #![trigger run(va, st, alt)]
            st.len() >= 2 && is_m31(st[st.len() - 2]) && is_m31(st.last()) ==> run(va, st, alt)
                == Some(
                (
                    st.drop_last().drop_last() + seq![
                        st.last(),
                        MOD as i64,
                        twm(1, st[st.len() - 2]),
                        twm(2, st[st.len() - 2]),
                    ],
                    alt,
                ),
            ),
        forall|st: Seq<i64>, alt: Seq<i64>| #![trigger run(v6, st, alt)]
            st.len() >= 3 ==> run(v6, st, alt) == Some((st.push(st[st.len() - 3]), alt)),
        forall|st: Seq<i64>, alt: Seq<i64>| #![trigger run(v7, st, alt)]
            st.len() >= 2 && is_n31(st[st.len() - 2]) && is_n31(st.last())
                && crate::windowed::mod_at(st, 4) ==> run(v7, st, alt) == Some(
                (
                    st.drop_last().drop_last().push(
                        (((st[st.len() - 2] + st.last() + 2 * p31()) % p31()) - p31()) as i64,
                    ),
                    alt,
                ),
            ),
    ensures
        forall|st: Seq<i64>, alt: Seq<i64>| #![trigger run(vall, st, alt)]
            st.len() >= 2 && is_m31(st[st.len() - 2]) && is_m31(st.last()) ==> run(vall, st, alt)
                == Some(
                (
                    st.drop_last().drop_last() + seq![
                        st.last(),
                        MOD as i64,
                        twm(1, st[st.len() - 2]),
                        twm(2, st[st.len() - 2]),
                        twm(3, st[st.len() - 2]),
                    ],
                    alt,
                ),
            ),
{
    assert forall|st: Seq<i64>, alt: Seq<i64>|
        st.len() >= 2 && is_m31(st[st.len() - 2]) && is_m31(st.last()) implies run(vall, st, alt)
        == Some(
        (
            st.drop_last().drop_last() + seq![
                st.last(),
                MOD as i64,
                twm(1, st[st.len() - 2]),
                twm(2, st[st.len() - 2]),
                twm(3, st[st.len() - 2]),
            ],
            alt,
        ),
    ) by {
        reveal_with_fuel(run, 3);
        lemma_run_append(va + v5 + v6, v7, st, alt);
        lemma_run_append(va + v5, v6, st, alt);
        lemma_run_append(va, v5, st, alt);
        let a = st[st.len() - 2];
        let b = st.last();
        let base = st.drop_last().drop_last();
        let pl = MOD as i64;
        lemma_small_mod(a as nat, p31() as nat);
        lemma_mod_bound(2 * a, p31());
        lemma_mod_bound(3 * a, p31());
        let t1 = twm(1, a);
        let t2 = twm(2, a);
        let t3 = twm(3, a);
        let x4 = base + seq![b, pl, t1, t2];
        assert(run(va, st, alt) == Some((x4, alt)));
        assert(run(v5, x4, alt) == Some((x4.push(t2), alt)));
        let x5 = x4.push(t2);
        assert(x5[x5.len() - 3] == t1);
        assert(run(v6, x5, alt) == Some((x5.push(t1), alt)));
        let x6 = x5.push(t1);
        assert(x6[x6.len() - 2] == t2 && x6.last() == t1);
        assert(x6[x6.len() - 5] == pl);
        assert(run(v7, x6, alt) == Some(
            (x6.drop_last().drop_last().push((((t2 + t1 + 2 * p31()) % p31()) - p31()) as i64), alt),
        ));
        assert((t2 as int) + (t1 as int) + 2 * p31() == ((2 * a) % p31()) + a);
        lemma_add_mod_noop(2 * a, a as int, p31());
        assert((((2 * a) % p31()) + a) % p31() == (3 * a) % p31());
        assert(x6.drop_last().drop_last().push(t3) =~= base + seq![b, pl, t1, t2, t3]);
    }
}

/// Reordering the fresh table into index order.
#[verifier::rlimit(100)]
proof fn lemma_mul_shuffle_a(vs: Seq<Instr>, vt: Seq<Instr>, vall: Seq<Instr>)
    requires
        vall == vs + vt,
        vt =~= seq![
            Instr::Op(BaseInstr::Push(1)),
            Instr::Op(BaseInstr::Roll),
            Instr::Op(BaseInstr::Push(2)),
            Instr::Op(BaseInstr::Roll),
        ],
        forall|st: Seq<i64>, alt: Seq<i64>| #![trigger run(vs, st, alt)]
            st.len() >= 2 && is_m31(st[st.len() - 2]) && is_m31(st.last()) ==> run(vs, st, alt)
                == Some(
                (
                    st.drop_last().drop_last() + seq![
                        st.last(),
                        MOD as i64,
                        twm(1, st[st.len() - 2]),
                        twm(2, st[st.len() - 2]),
                        twm(3, st[st.len() - 2]),
                    ],
                    alt,
                ),
            ),
    ensures
        forall|st: Seq<i64>, alt: Seq<i64>| #![trigger run(vall, st, alt)]
            st.len() >= 2 && is_m31(st[st.len() - 2]) && is_m31(st.last()) ==> run(vall, st, alt)
                == Some(
                (
                    st.drop_last().drop_last() + seq![
                        st.last(),
                        MOD as i64,
                        twm(3, st[st.len() - 2]),
                        twm(2, st[st.len() - 2]),
                        twm(1, st[st.len() - 2]),
                    ],
                    alt,
                ),
            ),
{
    assert forall|st: Seq<i64>, alt: Seq<i64>|
        st.len() >= 2 && is_m31(st[st.len() - 2]) && is_m31(st.last()) implies run(vall, st, alt)
        == Some(
        (
            st.drop_last().drop_last() + seq![
                st.last(),
                MOD as i64,
                twm(3, st[st.len() - 2]),
                twm(2, st[st.len() - 2]),
                twm(1, st[st.len() - 2]),
            ],
            alt,
        ),
    ) by {
        reveal_with_fuel(run, 6);
        lemma_run_append(vs, vt, st, alt);
        let a = st[st.len() - 2];
        let b = st.last();
        let base = st.drop_last().drop_last();
        let pl = MOD as i64;
        let t1 = twm(1, a);
        let t2 = twm(2, a);
        let t3 = twm(3, a);
        let x0 = base + seq![b, pl, t1, t2, t3];
        assert(run(vs, st, alt) == Some((x0, alt)));
        let y0 = x0.push(1);
        assert(y0.drop_last() =~= x0);
        assert(y0[y0.len() - 3] == t2);
        let x1 = base + seq![b, pl, t1, t3, t2];
        assert(x0.remove(x0.len() - 2).push(t2) =~= x1);
        let y1 = x1.push(2);
        assert(y1.drop_last() =~= x1);
        assert(y1[y1.len() - 4] == t1);
        let x2 = base + seq![b, pl, t3, t2, t1];
        assert(x1.remove(x1.len() - 3).push(t1) =~= x2);
    }
}

/// Pushing the empty table entry and the zero accumulator, then pulling the
/// multiplier up from under the table.
#[verifier::rlimit(100)]
proof fn lemma_mul_shuffle_b(vs: Seq<Instr>, vt: Seq<Instr>, vall: Seq<Instr>)
    requires
        vall == vs + vt,
        vt =~= seq![
            Instr::Op(BaseInstr::Push(0)),
            Instr::Op(BaseInstr::Push(0)),
            Instr::Op(BaseInstr::Push(6)),
            Instr::Op(BaseInstr::Roll),
        ],
        forall|st: Seq<i64>, alt: Seq<i64>| #![trigger run(vs, st, alt)]
            st.len() >= 2 && is_m31(st[st.len() - 2]) && is_m31(st.last()) ==> run(vs, st, alt)
                == Some(
                (
                    st.drop_last().drop_last() + seq![
                        st.last(),
                        MOD as i64,
                        twm(3, st[st.len() - 2]),
                        twm(2, st[st.len() - 2]),
                        twm(1, st[st.len() - 2]),
                    ],
                    alt,
                ),
            ),
    ensures
        forall|st: Seq<i64>, alt: Seq<i64>| #![trigger run(vall, st, alt)]
            st.len() >= 2 && is_m31(st[st.len() - 2]) && is_m31(st.last()) ==> run(vall, st, alt)
                == Some((mul_table_state(st, 0, st.last()), alt)),
{
    assert forall|st: Seq<i64>, alt: Seq<i64>|
        st.len() >= 2 && is_m31(st[st.len() - 2]) && is_m31(st.last()) implies run(vall, st, alt)
        == Some((mul_table_state(st, 0, st.last()), alt)) by {
        reveal_with_fuel(run, 6);
        lemma_run_append(vs, vt, st, alt);
        let a = st[st.len() - 2];
        let b = st.last();
        let base = st.drop_last().drop_last();
        let pl = MOD as i64;
        let t1 = twm(1, a);
        let t2 = twm(2, a);
        let t3 = twm(3, a);
        let x2 = base + seq![b, pl, t3, t2, t1];
        assert(run(vs, st, alt) == Some((x2, alt)));
        let x3 = x2.push(0).push(0);
        let y3 = x3.push(6);
        assert(y3.drop_last() =~= x3);
        assert(y3[y3.len() - 8] == b);
        let x4 = base + seq![pl, t3, t2, t1, 0i64, 0i64, b];
        assert(x3.remove(x3.len() - 7).push(b) =~= x4);
        assert(x4 =~= mul_table_state(st, 0, b));
    }
}

/// The leading one-bit window: extract the top bit of the multiplier, look
/// it up, and start the accumulator.
#[verifier::rlimit(100)]
proof fn lemma_mul_window0(
    vs: Seq<Instr>,
    vgw: Seq<Instr>,
    vlk: Seq<Instr>,
    vadd: Seq<Instr>,
    vall: Seq<Instr>,
)
    requires
        vall == vs + vgw + vlk + vadd,
        vlk =~= seq![
            Instr::Op(BaseInstr::Push(2)),
            Instr::Op(BaseInstr::Add),
            Instr::Op(BaseInstr::Pick),
            Instr::Op(BaseInstr::Rot),
        ],
        forall|st: Seq<i64>, alt: Seq<i64>| #![trigger run(vs, st, alt)]
            st.len() >= 2 && is_m31(st[st.len() - 2]) && is_m31(st.last()) ==> run(vs, st, alt)
                == Some((mul_table_state(st, 0, st.last()), alt)),
        forall|st: Seq<i64>, alt: Seq<i64>| #![trigger run(vgw, st, alt)]
            st.len() >= 1 && 0 <= st.last() < pow2(31) ==> run(vgw, st, alt) == Some(
                (
                    st.drop_last().push(((st.last() as int) % (pow2(30) as int)) as i64).push(
                        ((st.last() as int) / (pow2(30) as int)) as i64,
                    ),
                    alt,
                ),
            ),
        forall|st: Seq<i64>, alt: Seq<i64>| #![trigger run(vadd, st, alt)]
            st.len() >= 2 && ((is_m31(st[st.len() - 2]) && -p31() <= st.last() <= 0) || (-p31()
                <= st[st.len() - 2] <= 0 && is_m31(st.last()))) && crate::windowed::mod_at(st, 7)
                ==> run(vadd, st, alt) == Some(
                (
                    st.drop_last().drop_last().push(
                        ((st[st.len() - 2] + st.last() + p31()) % p31()) as i64,
                    ),
                    alt,
                ),
            ),
    ensures
        forall|st: Seq<i64>, alt: Seq<i64>| #![trigger run(vall, st, alt)]
            st.len() >= 2 && is_m31(st[st.len() - 2]) && is_m31(st.last()) ==> run(vall, st, alt)
                == Some(
                (
                    mul_table_state(
                        st,
                        wrem(st.last(), 1),
                        ((wmult(st.last(), 1) * (st[st.len() - 2] as int)) % p31()) as i64,
                    ),
                    alt,
                ),
            ),
{
    lemma_mul_lookup(vlk);
    assert forall|st: Seq<i64>, alt: Seq<i64>|
        st.len() >= 2 && is_m31(st[st.len() - 2]) && is_m31(st.last()) implies run(vall, st, alt)
        == Some(
        (
            mul_table_state(
                st,
                wrem(st.last(), 1),
                ((wmult(st.last(), 1) * (st[st.len() - 2] as int)) % p31()) as i64,
            ),
            alt,
        ),
    ) by {
        lemma_run_append(vs + vgw + vlk, vadd, st, alt);
        lemma_run_append(vs + vgw, vlk, st, alt);
        lemma_run_append(vs, vgw, st, alt);
        let a = st[st.len() - 2];
        let b = st.last();
        let base = st.drop_last().drop_last();
        let pl = MOD as i64;
        let t1 = twm(1, a);
        let t2 = twm(2, a);
        let t3 = twm(3, a);
        lemma2_to64();
        lemma_small_mod(b as nat, pow2(31));
        lemma_bit_split(b as int, 30);
        lemma_basic_div(b as int, pow2(31) as int);
        let x0 = mul_table_state(st, 0, b);
        assert(run(vs, st, alt) == Some((x0, alt)));
        assert(x0.last() == b && x0.len() == base.len() + 7);
        let rem1 = ((b as int) % (pow2(30) as int)) as i64;
        let d = ((b as int) / (pow2(30) as int)) as i64;
        assert(0 <= d <= 1);
        assert(run(vgw, x0, alt) == Some((x0.drop_last().push(rem1).push(d), alt)));
        let x1 = base + seq![pl, t3, t2, t1, 0i64, 0i64, rem1, d];
        assert(x0.drop_last().push(rem1).push(d) =~= x1);
        assert(x1.len() >= 7 && x1.last() == d);
        assert(run(vlk, x1, alt) == Some(
            (
                x1.drop_last().drop_last().drop_last().push(x1[x1.len() - 2]).push(
                    x1[x1.len() - 4 - d],
                ).push(x1[x1.len() - 3]),
                alt,
            ),
        ));
        let e = mul_entry(d as int, a);
        assert(x1[x1.len() - 4 - d] == e);
        let x2 = base + seq![pl, t3, t2, t1, 0i64, rem1, e, 0i64];
        assert(x1.drop_last().drop_last().drop_last().push(x1[x1.len() - 2]).push(
            x1[x1.len() - 4 - d],
        ).push(x1[x1.len() - 3]) =~= x2);
        lemma_mod_bound((d as int) * (a as int), p31());
        assert(-p31() <= x2[x2.len() - 2] <= 0);
        assert(x2[x2.len() - 8] == pl);
        assert(run(vadd, x2, alt) == Some(
            (x2.drop_last().drop_last().push(((e + 0 + p31()) % p31()) as i64), alt),
        ));
        lemma_mul_acc_fold(a, 0, d as int);
        assert(0 * (a as int) == 0);
        lemma_small_mod(0nat, p31() as nat);
        assert(((e + 0 + p31()) % p31()) == ((0 + d) * a) % p31());
        assert((0 + d as int) * a == wmult(b, 1) * a);
        assert(x2.drop_last().drop_last().push((((wmult(b, 1) * (a as int)) % p31()) as i64))
            =~= mul_table_state(
            st,
            wrem(b, 1),
            ((wmult(b, 1) * (a as int)) % p31()) as i64,
        ));
    }
}

/// One full two-bit window: extract the digit, look it up, and fold it into
/// the accumulator.
#[verifier::rlimit(100)]
proof fn lemma_mul_window(
    vs: Seq<Instr>,
    vgw: Seq<Instr>,
    vlk: Seq<Instr>,
    vadd: Seq<Instr>,
    vall: Seq<Instr>,
    i: int,
)
    requires
        vall == vs + vgw + vlk + vadd,
        1 <= i <= 15,
        vlk =~= seq![
            Instr::Op(BaseInstr::Push(2)),
            Instr::Op(BaseInstr::Add),
            Instr::Op(BaseInstr::Pick),
            Instr::Op(BaseInstr::Rot),
        ],
        forall|st: Seq<i64>, alt: Seq<i64>| #![trigger run(vs, st, alt)]
            st.len() >= 2 && is_m31(st[st.len() - 2]) && is_m31(st.last()) ==> run(vs, st, alt)
                == Some(
                (
                    mul_table_state(
                        st,
                        wrem(st.last(), i),
                        (((4 * wmult(st.last(), i)) * (st[st.len() - 2] as int)) % p31()) as i64,
                    ),
                    alt,
                ),
            ),
        forall|st: Seq<i64>, alt: Seq<i64>| #![trigger run(vgw, st, alt)]
            st.len() >= 2 && 0 <= st[st.len() - 2] < pow2((32 - 2 * i) as nat) ==> run(
                vgw,
                st,
                alt,
            ) == Some(
                (
                    st.drop_last().drop_last().push(st.last()).push(
                        ((st[st.len() - 2] as int) % (pow2((30 - 2 * i) as nat) as int)) as i64,
                    ).push(
                        ((st[st.len() - 2] as int) / (pow2((30 - 2 * i) as nat) as int)) as i64,
                    ),
                    alt,
                ),
            ),
        forall|st: Seq<i64>, alt: Seq<i64>| #![trigger run(vadd, st, alt)]
            st.len() >= 2 && ((is_m31(st[st.len() - 2]) && -p31() <= st.last() <= 0) || (-p31()
                <= st[st.len() - 2] <= 0 && is_m31(st.last()))) && crate::windowed::mod_at(st, 7)
                ==> run(vadd, st, alt) == Some(
                (
                    st.drop_last().drop_last().push(
                        ((st[st.len() - 2] + st.last() + p31()) % p31()) as i64,
                    ),
                    alt,
                ),
            ),
    ensures
        forall|st: Seq<i64>, alt: Seq<i64>| #![trigger run(vall, st, alt)]
            st.len() >= 2 && is_m31(st[st.len() - 2]) && is_m31(st.last()) ==> run(vall, st, alt)
                == Some(
                (
                    mul_table_state(
                        st,
                        wrem(st.last(), i + 1),
                        ((wmult(st.last(), i + 1) * (st[st.len() - 2] as int)) % p31()) as i64,
                    ),
                    alt,
                ),
            ),
{
    lemma_mul_lookup(vlk);
    assert forall|st: Seq<i64>, alt: Seq<i64>|
        st.len() >= 2 && is_m31(st[st.len() - 2]) && is_m31(st.last()) implies run(vall, st, alt)
        == Some(
        (
            mul_table_state(
                st,
                wrem(st.last(), i + 1),
                ((wmult(st.last(), i + 1) * (st[st.len() - 2] as int)) % p31()) as i64,
            ),
            alt,
        ),
    ) by {
        lemma_run_append(vs + vgw + vlk, vadd, st, alt);
        lemma_run_append(vs + vgw, vlk, st, alt);
        lemma_run_append(vs, vgw, st, alt);
        let a = st[st.len() - 2];
        let b = st.last();
        let base = st.drop_last().drop_last();
        let pl = MOD as i64;
        let t1 = twm(1, a);
        let t2 = twm(2, a);
        let t3 = twm(3, a);
        lemma_pow2_pos(wshift(i));
        lemma_pow2_pos(wshift(i + 1));
        if wshift(i) < 30 {
            lemma_pow2_strictly_increases(wshift(i), 30nat);
        }
        lemma2_to64();
        lemma_mod_bound(b as int, pow2(wshift(i)) as int);
        lemma_mod_bound(b as int, pow2(wshift(i + 1)) as int);
        lemma_rem_split(b as int, wshift(i));
        assert(wrem(b, i) as int == (b as int) % (pow2(wshift(i)) as int));
        assert(wrem(b, i + 1) as int == (b as int) % (pow2(wshift(i + 1)) as int));
        lemma_mod_bound((4 * wmult(b, i)) * (a as int), p31());
        let acc = (((4 * wmult(b, i)) * (a as int)) % p31()) as i64;
        let x0 = mul_table_state(st, wrem(b, i), acc);
        assert(run(vs, st, alt) == Some((x0, alt)));
        assert(x0[x0.len() - 2] == wrem(b, i) && x0.last() == acc);
        assert(wshift(i + 1) == (30 - 2 * i) as nat && wshift(i) == (32 - 2 * i) as nat);
        assert(run(vgw, x0, alt) == Some(
            (
                x0.drop_last().drop_last().push(acc).push(
                    ((wrem(b, i) as int) % (pow2((30 - 2 * i) as nat) as int)) as i64,
                ).push(((wrem(b, i) as int) / (pow2((30 - 2 * i) as nat) as int)) as i64),
                alt,
            ),
        ));
        let rem2 = wrem(b, i + 1);
        let d = ((wrem(b, i) as int) / (pow2(wshift(i + 1)) as int)) as i64;
        assert(((wrem(b, i) as int) % (pow2((30 - 2 * i) as nat) as int)) as i64 == rem2);
        assert(0 <= d <= 3);
        assert(d as int == wmult(b, i + 1) - 4 * wmult(b, i));
        let x1 = base + seq![pl, t3, t2, t1, 0i64, acc, rem2, d];
        assert(x0.drop_last().drop_last().push(acc).push(rem2).push(d) =~= x1);
        assert(x1.len() >= 7 && x1.last() == d);
        assert(run(vlk, x1, alt) == Some(
            (
                x1.drop_last().drop_last().drop_last().push(x1[x1.len() - 2]).push(
                    x1[x1.len() - 4 - d],
                ).push(x1[x1.len() - 3]),
                alt,
            ),
        ));
        let e = mul_entry(d as int, a);
        assert(x1[x1.len() - 4 - d] == e);
        let x2 = base + seq![pl, t3, t2, t1, 0i64, rem2, e, acc];
        assert(x1.drop_last().drop_last().drop_last().push(x1[x1.len() - 2]).push(
            x1[x1.len() - 4 - d],
        ).push(x1[x1.len() - 3]) =~= x2);
        lemma_mod_bound((d as int) * (a as int), p31());
        assert(-p31() <= x2[x2.len() - 2] <= 0 && is_m31(x2.last()));
        assert(x2[x2.len() - 8] == pl);
        assert(run(vadd, x2, alt) == Some(
            (x2.drop_last().drop_last().push(((e + acc + p31()) % p31()) as i64), alt),
        ));
        lemma_mul_acc_fold(a, 4 * wmult(b, i), d as int);
        assert((4 * wmult(b, i) + d) * (a as int) == wmult(b, i + 1) * (a as int));
        assert(x2.drop_last().drop_last().push((((wmult(b, i + 1) * (a as int)) % p31()) as i64))
            =~= mul_table_state(
            st,
            rem2,
            ((wmult(b, i + 1) * (a as int)) % p31()) as i64,
        ));
    }
}

/// One shift of the accumulator between windows: doubling it doubles the
/// consumed multiple it holds.
#[verifier::rlimit(100)]
proof fn lemma_mul_win_double(
    vs: Seq<Instr>,
    vd: Seq<Instr>,
    vall: Seq<Instr>,
    j: int,
    c: int,
)
    requires
        vall == vs + vd,
        1 <= j <= 16,
        1 <= c,
        forall|st: Seq<i64>, alt: Seq<i64>| #![trigger run(vs, st, alt)]
            st.len() >= 2 && is_m31(st[st.len() - 2]) && is_m31(st.last()) ==> run(vs, st, alt)
                == Some(
                (
                    mul_table_state(
                        st,
                        wrem(st.last(), j),
                        (((c * wmult(st.last(), j)) * (st[st.len() - 2] as int)) % p31()) as i64,
                    ),
                    alt,
                ),
            ),
        forall|st: Seq<i64>, alt: Seq<i64>| #![trigger run(vd, st, alt)]
            st.len() >= 1 && is_m31(st.last()) && crate::windowed::mod_at(st, 6) ==> run(
                vd,
                st,
                alt,
            ) == Some((st.drop_last().push(((2 * st.last()) % p31()) as i64), alt)),
    ensures
        forall|st: Seq<i64>, alt: Seq<i64>| #![trigger run(vall, st, alt)]
            st.len() >= 2 && is_m31(st[st.len() - 2]) && is_m31(st.last()) ==> run(vall, st, alt)
                == Some(
                (
                    mul_table_state(
                        st,
                        wrem(st.last(), j),
                        ((((2 * c) * wmult(st.last(), j)) * (st[st.len() - 2] as int))
                            % p31()) as i64,
                    ),
                    alt,
                ),
            ),
{
    assert forall|st: Seq<i64>, alt: Seq<i64>|
        st.len() >= 2 && is_m31(st[st.len() - 2]) && is_m31(st.last()) implies run(vall, st, alt)
        == Some(
        (
            mul_table_state(
                st,
                wrem(st.last(), j),
                ((((2 * c) * wmult(st.last(), j)) * (st[st.len() - 2] as int)) % p31()) as i64,
            ),
            alt,
        ),
    ) by {
        lemma_run_append(vs, vd, st, alt);
        let a = st[st.len() - 2];
        let b = st.last();
        let k = c * wmult(b, j);
        lemma_mod_bound(k * (a as int), p31());
        let x0 = mul_table_state(st, wrem(b, j), ((k * (a as int)) % p31()) as i64);
        assert(run(vs, st, alt) == Some((x0, alt)));
        assert(is_m31(x0.last()) && x0[x0.len() - 7] == MOD as i64);
        assert(run(vd, x0, alt) == Some(
            (x0.drop_last().push(((2 * x0.last()) % p31()) as i64), alt),
        ));
        lemma_double_mult(a, k);
        assert((2 * k) * (a as int) == ((2 * c) * wmult(b, j)) * (a as int)) by (nonlinear_arith)
            requires
                k == c * wmult(b, j),
        ;
        assert(x0.drop_last().push(((((2 * c) * wmult(b, j)) * (a as int)) % p31()) as i64)
            =~= mul_table_state(
            st,
            wrem(b, j),
            ((((2 * c) * wmult(b, j)) * (a as int)) % p31()) as i64,
        ));
    }
}

/// The cleanup, first step: park the product on the auxiliary stack.
#[verifier::rlimit(100)]
proof fn lemma_mul_cleanup_a(vs: Seq<Instr>, vt: Seq<Instr>, vall: Seq<Instr>)
    requires
        vall == vs + vt,
        vt =~= seq![Instr::Op(BaseInstr::ToAlt)],
        forall|st: Seq<i64>, alt: Seq<i64>| #![trigger run(vs, st, alt)]
            st.len() >= 2 && is_m31(st[st.len() - 2]) && is_m31(st.last()) ==> run(vs, st, alt)
                == Some(
                (
                    mul_table_state(
                        st,
                        wrem(st.last(), 16),
                        ((wmult(st.last(), 16) * (st[st.len() - 2] as int)) % p31()) as i64,
                    ),
                    alt,
                ),
            ),
    ensures
        forall|st: Seq<i64>, alt: Seq<i64>| #![trigger run(vall, st, alt)]
            st.len() >= 2 && is_m31(st[st.len() - 2]) && is_m31(st.last()) ==> run(vall, st, alt)
                == Some(
                (
                    st.drop_last().drop_last() + seq![
                        MOD as i64,
                        twm(3, st[st.len() - 2]),
                        twm(2, st[st.len() - 2]),
                        twm(1, st[st.len() - 2]),
                        0i64,
                        wrem(st.last(), 16),
                    ],
                    alt.push(((wmult(st.last(), 16) * (st[st.len() - 2] as int)) % p31()) as i64),
                ),
            ),
{
    assert forall|st: Seq<i64>, alt: Seq<i64>|
        st.len() >= 2 && is_m31(st[st.len() - 2]) && is_m31(st.last()) implies run(vall, st, alt)
        == Some(
        (
            st.drop_last().drop_last() + seq![
                MOD as i64,
                twm(3, st[st.len() - 2]),
                twm(2, st[st.len() - 2]),
                twm(1, st[st.len() - 2]),
                0i64,
                wrem(st.last(), 16),
            ],
            alt.push(((wmult(st.last(), 16) * (st[st.len() - 2] as int)) % p31()) as i64),
        ),
    ) by {
        reveal_with_fuel(run, 3);
        lemma_run_append(vs, vt, st, alt);
        let a = st[st.len() - 2];
        let b = st.last();
        let acc = ((wmult(b, 16) * (a as int)) % p31()) as i64;
        let x0 = mul_table_state(st, wrem(b, 16), acc);
        assert(run(vs, st, alt) == Some((x0, alt)));
        assert(x0.last() == acc);
        assert(x0.drop_last() =~= st.drop_last().drop_last() + seq![
            MOD as i64,
            twm(3, a),
            twm(2, a),
            twm(1, a),
            0i64,
            wrem(b, 16),
        ]);
    }
}

/// The cleanup, second step: drop the spent remainder, the empty entry,
/// and the two low table entries.
#[verifier::rlimit(100)]
proof fn lemma_mul_cleanup_b(vs: Seq<Instr>, vt: Seq<Instr>, vall: Seq<Instr>)
    requires
        vall == vs + vt,
        vt =~= seq![Instr::Op(BaseInstr::Pop2), Instr::Op(BaseInstr::Pop2)],
        forall|st: Seq<i64>, alt: Seq<i64>| #![trigger run(vs, st, alt)]
            st.len() >= 2 && is_m31(st[st.len() - 2]) && is_m31(st.last()) ==> run(vs, st, alt)
                == Some(
                (
                    st.drop_last().drop_last() + seq![
                        MOD as i64,
                        twm(3, st[st.len() - 2]),
                        twm(2, st[st.len() - 2]),
                        twm(1, st[st.len() - 2]),
                        0i64,
                        wrem(st.last(), 16),
                    ],
                    alt.push(((wmult(st.last(), 16) * (st[st.len() - 2] as int)) % p31()) as i64),
                ),
            ),
    ensures
        forall|st: Seq<i64>, alt: Seq<i64>| #![trigger run(vall, st, alt)]
            st.len() >= 2 && is_m31(st[st.len() - 2]) && is_m31(st.last()) ==> run(vall, st, alt)
                == Some(
                (
                    st.drop_last().drop_last() + seq![
                        MOD as i64,
                        twm(3, st[st.len() - 2]),
                    ],
                    alt.push(((wmult(st.last(), 16) * (st[st.len() - 2] as int)) % p31()) as i64),
                ),
            ),
{
    assert forall|st: Seq<i64>, alt: Seq<i64>|
        st.len() >= 2 && is_m31(st[st.len() - 2]) && is_m31(st.last()) implies run(vall, st, alt)
        == Some(
        (
            st.drop_last().drop_last() + seq![MOD as i64, twm(3, st[st.len() - 2])],
            alt.push(((wmult(st.last(), 16) * (st[st.len() - 2] as int)) % p31()) as i64),
        ),
    ) by {
        reveal_with_fuel(run, 4);
        lemma_run_append(vs, vt, st, alt);
        let a = st[st.len() - 2];
        let b = st.last();
        let base = st.drop_last().drop_last();
        let x0 = base + seq![MOD as i64, twm(3, a), twm(2, a), twm(1, a), 0i64, wrem(b, 16)];
        let a1 = alt.push(((wmult(b, 16) * (a as int)) % p31()) as i64);
        assert(run(vs, st, alt) == Some((x0, a1)));
        let x1 = base + seq![MOD as i64, twm(3, a), twm(2, a), twm(1, a)];
        assert(x0.drop_last().drop_last() =~= x1);
        assert(x1.drop_last().drop_last() =~= base + seq![MOD as i64, twm(3, a)]);
    }
}

/// The cleanup, last step: drop the remaining table entry and the parked
/// modulus, then bring the product back.
#[verifier::rlimit(100)]
proof fn lemma_mul_cleanup_c(vs: Seq<Instr>, vt: Seq<Instr>, vall: Seq<Instr>)
    requires
        vall == vs + vt,
        vt =~= seq![Instr::Op(BaseInstr::Pop2), Instr::Op(BaseInstr::FromAlt)],
        forall|st: Seq<i64>, alt: Seq<i64>| #![trigger run(vs, st, alt)]
            st.len() >= 2 && is_m31(st[st.len() - 2]) && is_m31(st.last()) ==> run(vs, st, alt)
                == Some(
                (
                    st.drop_last().drop_last() + seq![
                        MOD as i64,
                        twm(3, st[st.len() - 2]),
                    ],
                    alt.push(((wmult(st.last(), 16) * (st[st.len() - 2] as int)) % p31()) as i64),
                ),
            ),
    ensures
        forall|st: Seq<i64>, alt: Seq<i64>| #![trigger run(vall, st, alt)]
            st.len() >= 2 && is_m31(st[st.len() - 2]) && is_m31(st.last()) ==> run(vall, st, alt)
                == Some(
                (
                    st.drop_last().drop_last().push(
                        ((st[st.len() - 2] * st.last()) % p31()) as i64,
                    ),
                    alt,
                ),
            ),
{
    assert forall|st: Seq<i64>, alt: Seq<i64>|
        st.len() >= 2 && is_m31(st[st.len() - 2]) && is_m31(st.last()) implies run(vall, st, alt)
        == Some(
        (st.drop_last().drop_last().push(((st[st.len() - 2] * st.last()) % p31()) as i64), alt),
    ) by {
        reveal_with_fuel(run, 4);
        lemma_run_append(vs, vt, st, alt);
        let a = st[st.len() - 2];
        let b = st.last();
        let base = st.drop_last().drop_last();
        lemma2_to64();
        lemma_fundamental_div_mod(b as int, 1);
        lemma_mod_bound(b as int, 1);
        assert(wmult(b, 16) == b as int);
        assert(wmult(b, 16) * (a as int) == (a as int) * (b as int)) by (nonlinear_arith)
            requires
                wmult(b, 16) == b as int,
        ;
        let acc = ((wmult(b, 16) * (a as int)) % p31()) as i64;
        let x0 = base + seq![MOD as i64, twm(3, a)];
        let a1 = alt.push(acc);
        assert(run(vs, st, alt) == Some((x0, a1)));
        assert(x0.drop_last().drop_last() =~= base);
        assert(a1.last() == acc);
        assert(a1.drop_last() =~= alt);
        assert(base.push(acc) =~= st.drop_last().drop_last().push(
            ((st[st.len() - 2] * st.last()) % p31()) as i64,
        ));
    }
}

/// Multiply the two M31 elements on top of the stack by windowed
/// double-and-add: park the modulus, build the table of small twisted
/// multiples of the deeper operand, then walk the other operand's bits a
/// window at a time, looking the window digit up in the table and folding
/// it into a running accumulator that is shifted left between windows.
#[verifier::rlimit(100)]
pub fn m31_mul() -> (s: Vec<Instr>)
    ensures
        forall|st: Seq<i64>, alt: Seq<i64>| #![trigger run(s@, st, alt)]
            st.len() >= 2 && is_m31(st[st.len() - 2]) && is_m31(st.last()) ==> run(s@, st, alt)
                == Some(
                (
                    st.drop_last().drop_last().push(
                        ((st[st.len() - 2] * st.last()) % p31()) as i64,
                    ),
                    alt,
                ),
            ),
{
    let mut f1: Vec<Instr> = Vec::new();
    f1.push(Instr::Op(BaseInstr::Push(MOD as i64)));
    f1.push(Instr::Op(BaseInstr::Rot));
    let ghost v1 = f1@;
    let c1 = crate::windowed::m31_to_n31(1);
    let ghost v2 = c1@;
    let p0 = crate::windowed::pick(0);
    let ghost v3 = p0@;
    let d2 = crate::windowed::n31_double(2);
    let ghost v4 = d2@;
    let mut f5: Vec<Instr> = Vec::new();
    f5.push(Instr::Op(BaseInstr::Dup));
    let ghost v5 = f5@;
    let p2 = crate::windowed::pick(2);
    let ghost v6 = p2@;
    let a4 = crate::windowed::n31_add(4);
    let ghost v7 = a4@;
    let mut s = cat(cat(cat(cat(cat(cat(f1, c1), p0), d2), f5), p2), a4);
    proof {
        lemma_mul_setup_a(v1, v2, v3, v4, v1 + v2 + v3 + v4);
        assert(s@ =~= (v1 + v2 + v3 + v4) + v5 + v6 + v7);
        lemma_mul_setup_b(v1 + v2 + v3 + v4, v5, v6, v7, s@);
    }
    let mut sh: Vec<Instr> = Vec::new();
    sh.push(Instr::Op(BaseInstr::Push(1)));
    sh.push(Instr::Op(BaseInstr::Roll));
    sh.push(Instr::Op(BaseInstr::Push(2)));
    sh.push(Instr::Op(BaseInstr::Roll));
    sh.push(Instr::Op(BaseInstr::Push(0)));
    sh.push(Instr::Op(BaseInstr::Push(0)));
    sh.push(Instr::Op(BaseInstr::Push(6)));
    sh.push(Instr::Op(BaseInstr::Roll));
    let ghost vsh = sh@;
    let ghost vsetup = s@;
    s = cat(s, sh);
    proof {
        let ghost sha = vsh.take(4);
        let ghost shb = vsh.skip(4);
        assert(sha =~= seq![
            Instr::Op(BaseInstr::Push(1)),
            Instr::Op(BaseInstr::Roll),
            Instr::Op(BaseInstr::Push(2)),
            Instr::Op(BaseInstr::Roll),
        ]);
        assert(shb =~= seq![
            Instr::Op(BaseInstr::Push(0)),
            Instr::Op(BaseInstr::Push(0)),
            Instr::Op(BaseInstr::Push(6)),
            Instr::Op(BaseInstr::Roll),
        ]);
        lemma_mul_shuffle_a(vsetup, sha, vsetup + sha);
        assert(s@ =~= (vsetup + sha) + shb);
        lemma_mul_shuffle_b(vsetup + sha, shb, s@);
    }
    let gw0 = get_window(0);
    let ghost vg0 = gw0@;
    let mut lk0: Vec<Instr> = Vec::new();
    lk0.push(Instr::Op(BaseInstr::Push(2)));
    lk0.push(Instr::Op(BaseInstr::Add));
    lk0.push(Instr::Op(BaseInstr::Pick));
    lk0.push(Instr::Op(BaseInstr::Rot));
    let ghost vl0 = lk0@;
    let ad0 = crate::windowed::m31_add_n31(7);
    let ghost va0 = ad0@;
    let ghost vbefore0 = s@;
    s = cat(cat(cat(s, gw0), lk0), ad0);
    proof {
        assert(s@ =~= vbefore0 + vg0 + vl0 + va0);
        lemma_mul_window0(vbefore0, vg0, vl0, va0, s@);
    }
    let db1 = crate::windowed::m31_double(6);
    let ghost vd1 = db1@;
    let ghost vmid1 = s@;
    s = cat(s, db1);
    proof {
        lemma_mul_win_double(vmid1, vd1, s@, 1, 1);
    }
    let db2 = crate::windowed::m31_double(6);
    let ghost vd2 = db2@;
    let ghost vmid2 = s@;
    s = cat(s, db2);
    proof {
        lemma_mul_win_double(vmid2, vd2, s@, 1, 2);
    }
    let mut i: u32 = 1;
    while i < 16
        invariant
            1 <= i <= 16,
            forall|st: Seq<i64>, alt: Seq<i64>| #![trigger run(s@, st, alt)]
                st.len() >= 2 && is_m31(st[st.len() - 2]) && is_m31(st.last()) ==> run(
                    s@,
                    st,
                    alt,
                ) == Some(
                    (mul_table_state(st, wrem(st.last(), i as int), wacci(st, i as int)), alt),
                ),
        decreases 16 - i,
    {
        let ghost iold = i as int;
        let gw = get_window(i);
        let ghost vg = gw@;
        let mut lk: Vec<Instr> = Vec::new();
        lk.push(Instr::Op(BaseInstr::Push(2)));
        lk.push(Instr::Op(BaseInstr::Add));
        lk.push(Instr::Op(BaseInstr::Pick));
        lk.push(Instr::Op(BaseInstr::Rot));
        let ghost vl = lk@;
        let ad = crate::windowed::m31_add_n31(7);
        let ghost va = ad@;
        let ghost vbefore = s@;
        s = cat(cat(cat(s, gw), lk), ad);
        proof {
            assert(s@ =~= vbefore + vg + vl + va);
            lemma_mul_window(vbefore, vg, vl, va, s@, iold);
        }
        if i < 15 {
            let dba = crate::windowed::m31_double(6);
            let ghost vda = dba@;
            let ghost vma = s@;
            s = cat(s, dba);
            proof {
                lemma_mul_win_double(vma, vda, s@, iold + 1, 1);
            }
            let dbb = crate::windowed::m31_double(6);
            let ghost vdb = dbb@;
            let ghost vmb = s@;
            s = cat(s, dbb);
            proof {
                lemma_mul_win_double(vmb, vdb, s@, iold + 1, 2);
            }
        }
        i = i + 1;
    }
    let mut cl: Vec<Instr> = Vec::new();
    cl.push(Instr::Op(BaseInstr::ToAlt));
    cl.push(Instr::Op(BaseInstr::Pop2));
    cl.push(Instr::Op(BaseInstr::Pop2));
    cl.push(Instr::Op(BaseInstr::Pop2));
    cl.push(Instr::Op(BaseInstr::FromAlt));
    let ghost vcl = cl@;
    let ghost vfin = s@;
    s = cat(s, cl);
    proof {
        let ghost cla = vcl.take(1);
        let ghost clb = vcl.subrange(1, 3);
        let ghost clc = vcl.skip(3);
        assert(cla =~= seq![Instr::Op(BaseInstr::ToAlt)]);
        assert(clb =~= seq![Instr::Op(BaseInstr::Pop2), Instr::Op(BaseInstr::Pop2)]);
        assert(clc =~= seq![Instr::Op(BaseInstr::Pop2), Instr::Op(BaseInstr::FromAlt)]);
        lemma_mul_cleanup_a(vfin, cla, vfin + cla);
        lemma_mul_cleanup_b(vfin + cla, clb, vfin + cla + clb);
        assert(s@ =~= (vfin + cla + clb) + clc);
        lemma_mul_cleanup_c(vfin + cla + clb, clc, s@);
    }
    s
}

/// Square the M31 element on top of the stack: multiplication applied to a
/// duplicated operand.
pub fn m31_square() -> (s: Vec<Instr>)
    ensures
        forall|st: Seq<i64>, alt: Seq<i64>| #![trigger run(s@, st, alt)]
            st.len() >= 1 && is_m31(st.last()) ==> run(s@, st, alt) == Some(
                (st.drop_last().push(((st.last() * st.last()) % p31()) as i64), alt),
            ),
{
    let mut f: Vec<Instr> = Vec::new();
    f.push(Instr::Op(BaseInstr::Dup));
    let ghost v1 = f@;
    let tail = m31_mul();
    let ghost v2 = tail@;
    let s = cat(f, tail);
    proof {
        assert forall|st: Seq<i64>, alt: Seq<i64>|
            st.len() >= 1 && is_m31(st.last()) implies run(s@, st, alt) == Some(
            (st.drop_last().push(((st.last() * st.last()) % p31()) as i64), alt),
        ) by {
            lemma_run_append(v1, v2, st, alt);
            reveal_with_fuel(run, 3);
            let a = st.last();
            let st1 = st.push(a);
            assert(run(v1, st, alt) == Some((st1, alt)));
            assert(st1[st1.len() - 2] == a && st1.last() == a);
            assert(run(v2, st1, alt) == Some(
                (
                    st1.drop_last().drop_last().push(
                        ((st1[st1.len() - 2] * st1.last()) % p31()) as i64,
                    ),
                    alt,
                ),
            ));
            assert(st1.drop_last().drop_last() =~= st.drop_last());
        }
    }
    s
}

} // verus!
