//! Depth-parameterized variants of the basic operators, for use inside the
//! windowed multiplier. There the modulus is parked once on the stack and
//! every reduction fetches it by position instead of pushing the wide
//! literal again: each helper takes the depth at which the modulus sits
//! when the helper's first instruction runs (depth 0 names the top), and a
//! depth of zero means "push the literal instead".

use crate::m31::{is_m31, is_n31, p31, MOD};
use crate::vm::{cat, lemma_run_append, run, BaseInstr, Instr};
use vstd::prelude::*;

verus! {

/// Width of one window of multiplier bits.
pub const W_WIDTH: u32 = 2;

/// Bit-length of the modulus.
pub const N_BITS: u32 = 31;

/// Number of windows covering the multiplier.
pub const N_WINDOW: u32 = (N_BITS + W_WIDTH - 1) / W_WIDTH;

/// The modulus sits at the given depth from the top of the stack.
pub open spec fn mod_at(st: Seq<i64>, d: int) -> bool {
    0 <= d < st.len() && st[st.len() - 1 - d] == MOD as i64
}

/// Copy the item at the given depth to the top.
pub fn pick(depth: u32) -> (s: Vec<Instr>)
    ensures
        forall|st: Seq<i64>, alt: Seq<i64>| #![trigger run(s@, st, alt)]
            st.len() >= depth + 1 ==> run(s@, st, alt) == Some(
                (st.push(st[st.len() - 1 - depth]), alt),
            ),
{
    let mut s: Vec<Instr> = Vec::new();
    if depth == 0 {
        s.push(Instr::Op(BaseInstr::Dup));
    } else if depth == 1 {
        s.push(Instr::Op(BaseInstr::Over));
    } else {
        s.push(Instr::Op(BaseInstr::Push(depth as i64)));
        s.push(Instr::Op(BaseInstr::Pick));
    }
    proof {
        assert forall|st: Seq<i64>, alt: Seq<i64>| st.len() >= depth + 1 implies run(s@, st, alt)
            == Some((st.push(st[st.len() - 1 - depth]), alt)) by {
            reveal_with_fuel(run, 4);
            if depth >= 2 {
                assert(st.push(depth as i64).drop_last() =~= st);
            }
        }
    }
    s
}

/// Convert the M31 element on top into a twisted element, fetching the
/// modulus from the given depth (or pushing it when the depth is zero).
pub fn m31_to_n31(mod_depth: u32) -> (s: Vec<Instr>)
    ensures
        forall|st: Seq<i64>, alt: Seq<i64>| #![trigger run(s@, st, alt)]
            st.len() >= 1 && is_m31(st.last()) && (mod_depth > 0 ==> mod_at(
                st,
                mod_depth as int,
            )) ==> run(s@, st, alt) == Some(
                (st.drop_last().push((st.last() - p31()) as i64), alt),
            ),
{
    let mut s: Vec<Instr>;
    let ghost vp: Seq<Instr>;
    if mod_depth > 0 {
        s = pick(mod_depth);
    } else {
        s = Vec::new();
        s.push(Instr::Op(BaseInstr::Push(MOD as i64)));
    }
    proof {
        vp = s@;
    }
    let mut tail: Vec<Instr> = Vec::new();
    tail.push(Instr::Op(BaseInstr::Sub));
    let ghost vt = tail@;
    s = cat(s, tail);
    proof {
        assert forall|st: Seq<i64>, alt: Seq<i64>|
            st.len() >= 1 && is_m31(st.last()) && (mod_depth > 0 ==> mod_at(
                st,
                mod_depth as int,
            )) implies run(s@, st, alt) == Some(
            (st.drop_last().push((st.last() - p31()) as i64), alt),
        ) by {
            lemma_run_append(vp, vt, st, alt);
            reveal_with_fuel(run, 3);
            if mod_depth > 0 {
                assert(run(vp, st, alt) == Some((st.push(st[st.len() - 1 - mod_depth]), alt)));
            }
            let mid = st.push(MOD as i64);
            assert(run(vp, st, alt) == Some((mid, alt)));
            assert(mid.drop_last() =~= st);
        }
    }
    s
}

/// Convert the twisted element on top into an M31 element, fetching the
/// modulus from the given depth (or pushing it when the depth is zero).
fn n31_to_m31(mod_depth: u32) -> (s: Vec<Instr>)
    ensures
        forall|st: Seq<i64>, alt: Seq<i64>| #![trigger run(s@, st, alt)]
            st.len() >= 1 && is_n31(st.last()) && (mod_depth > 0 ==> mod_at(
                st,
                mod_depth as int,
            )) ==> run(s@, st, alt) == Some(
                (st.drop_last().push((st.last() + p31()) as i64), alt),
            ),
{
    let mut s: Vec<Instr>;
    let ghost vp: Seq<Instr>;
    if mod_depth > 0 {
        s = pick(mod_depth);
    } else {
        s = Vec::new();
        s.push(Instr::Op(BaseInstr::Push(MOD as i64)));
    }
    proof {
        vp = s@;
    }
    let mut tail: Vec<Instr> = Vec::new();
    tail.push(Instr::Op(BaseInstr::Add));
    let ghost vt = tail@;
    s = cat(s, tail);
    proof {
        assert forall|st: Seq<i64>, alt: Seq<i64>|
            st.len() >= 1 && is_n31(st.last()) && (mod_depth > 0 ==> mod_at(
                st,
                mod_depth as int,
            )) implies run(s@, st, alt) == Some(
            (st.drop_last().push((st.last() + p31()) as i64), alt),
        ) by {
            lemma_run_append(vp, vt, st, alt);
            reveal_with_fuel(run, 3);
            if mod_depth > 0 {
                assert(run(vp, st, alt) == Some((st.push(st[st.len() - 1 - mod_depth]), alt)));
            }
            let mid = st.push(MOD as i64);
            assert(run(vp, st, alt) == Some((mid, alt)));
            assert(mid.drop_last() =~= st);
        }
    }
    s
}

/// Canonicalize the raw value on top, in [-P, P), fetching the modulus from
/// the given depth when the test fires.
#[verifier::rlimit(100)]
fn m31_adjust(mod_depth: u32) -> (s: Vec<Instr>)
    ensures
        forall|st: Seq<i64>, alt: Seq<i64>| #![trigger run(s@, st, alt)]
            st.len() >= 1 && -p31() <= st.last() < p31() && (mod_depth > 0 ==> mod_depth >= 1
                && mod_at(st, mod_depth as int)) ==> run(s@, st, alt) == Some(
                (st.drop_last().push(((st.last() + p31()) % p31()) as i64), alt),
            ),
{
    let mut body: Vec<BaseInstr> = Vec::new();
    if mod_depth > 0 {
        body.push(BaseInstr::Push(mod_depth as i64));
        body.push(BaseInstr::Pick);
    } else {
        body.push(BaseInstr::Push(MOD as i64));
    }
    body.push(BaseInstr::Add);
    let mut s: Vec<Instr> = Vec::new();
    s.push(Instr::Op(BaseInstr::Dup));
    s.push(Instr::Op(BaseInstr::Push(0)));
    s.push(Instr::Op(BaseInstr::LessThan));
    s.push(Instr::Branch(body));
    proof {
        assert forall|st: Seq<i64>, alt: Seq<i64>|
            st.len() >= 1 && -p31() <= st.last() < p31() && (mod_depth > 0 ==> mod_depth >= 1
                && mod_at(st, mod_depth as int)) implies run(s@, st, alt) == Some(
            (st.drop_last().push(((st.last() + p31()) % p31()) as i64), alt),
        ) by {
            reveal_with_fuel(run, 8);
            reveal_with_fuel(crate::vm::run_ops, 5);
            let r = st.last();
            assert(st.push(r).push(0).drop_last().drop_last() =~= st);
            let bv = crate::vm::bool_val(r < 0);
            assert(st.push(bv).drop_last() =~= st);
            if r < 0 {
                if mod_depth > 0 {
                    assert(st.push(mod_depth as i64).drop_last() =~= st);
                    assert(st.push(st[st.len() - 1 - mod_depth]).drop_last() =~= st);
                } else {
                    assert(st.push(MOD as i64).drop_last() =~= st);
                }
                assert((r + p31()) % p31() == r + p31());
            } else {
                assert((r + p31()) % p31() == r);
                assert(st.drop_last().push(st.last()) =~= st);
            }
        }
    }
    s
}

/// Bring the raw value on top, in [-P, P), back to the twisted range,
/// fetching the modulus from the given depth when the test fires.
#[verifier::rlimit(100)]
fn n31_adjust(mod_depth: u32) -> (s: Vec<Instr>)
    ensures
        forall|st: Seq<i64>, alt: Seq<i64>| #![trigger run(s@, st, alt)]
            st.len() >= 1 && -p31() <= st.last() < p31() && (mod_depth > 0 ==> mod_depth >= 1
                && mod_at(st, mod_depth as int)) ==> run(s@, st, alt) == Some(
                (st.drop_last().push((((st.last() + p31()) % p31()) - p31()) as i64), alt),
            ),
{
    let mut body: Vec<BaseInstr> = Vec::new();
    if mod_depth > 0 {
        body.push(BaseInstr::Push(mod_depth as i64));
        body.push(BaseInstr::Pick);
    } else {
        body.push(BaseInstr::Push(MOD as i64));
    }
    body.push(BaseInstr::Sub);
    let mut s: Vec<Instr> = Vec::new();
    s.push(Instr::Op(BaseInstr::Dup));
    s.push(Instr::Op(BaseInstr::Push(0)));
    s.push(Instr::Op(BaseInstr::GreaterOrEqual));
    s.push(Instr::Branch(body));
    proof {
        assert forall|st: Seq<i64>, alt: Seq<i64>|
            st.len() >= 1 && -p31() <= st.last() < p31() && (mod_depth > 0 ==> mod_depth >= 1
                && mod_at(st, mod_depth as int)) implies run(s@, st, alt) == Some(
            (st.drop_last().push((((st.last() + p31()) % p31()) - p31()) as i64), alt),
        ) by {
            reveal_with_fuel(run, 8);
            reveal_with_fuel(crate::vm::run_ops, 5);
            let r = st.last();
            assert(st.push(r).push(0).drop_last().drop_last() =~= st);
            let bv = crate::vm::bool_val(r >= 0);
            assert(st.push(bv).drop_last() =~= st);
            if r >= 0 {
                if mod_depth > 0 {
                    assert(st.push(mod_depth as i64).drop_last() =~= st);
                    assert(st.push(st[st.len() - 1 - mod_depth]).drop_last() =~= st);
                } else {
                    assert(st.push(MOD as i64).drop_last() =~= st);
                }
                assert((r + p31()) % p31() == r);
            } else {
                assert((r + p31()) % p31() == r + p31());
                assert(st.drop_last().push(st.last()) =~= st);
            }
        }
    }
    s
}

/// Add a twisted-or-zero element and an M31 element, in either order on
/// the stack, yielding an M31 element. The modulus depth names its position
/// before the two operands are consumed; a zero operand is the empty table
/// entry of the multiplier and acts as the additive identity.
pub fn m31_add_n31(mod_depth: u32) -> (s: Vec<Instr>)
    ensures
        forall|st: Seq<i64>, alt: Seq<i64>| #![trigger run(s@, st, alt)]
            st.len() >= 2 && ((is_m31(st[st.len() - 2]) && -p31() <= st.last() <= 0) || (-p31()
                <= st[st.len() - 2] <= 0 && is_m31(st.last()))) && (mod_depth > 0 ==> mod_depth
                >= 2 && mod_at(st, mod_depth as int)) ==> run(s@, st, alt)
                == Some(
                (
                    st.drop_last().drop_last().push(
                        ((st[st.len() - 2] + st.last() + p31()) % p31()) as i64,
                    ),
                    alt,
                ),
            ),
{
    let mut s: Vec<Instr> = Vec::new();
    s.push(Instr::Op(BaseInstr::Add));
    let ghost v1 = s@;
    let adj = m31_adjust(if mod_depth > 0 {
        mod_depth - 1
    } else {
        0
    });
    let ghost v2 = adj@;
    let s = cat(s, adj);
    proof {
        assert forall|st: Seq<i64>, alt: Seq<i64>|
            st.len() >= 2 && ((is_m31(st[st.len() - 2]) && -p31() <= st.last() <= 0) || (-p31()
                <= st[st.len() - 2] <= 0 && is_m31(st.last()))) && (mod_depth > 0 ==> mod_depth
                >= 2 && mod_at(st, mod_depth as int)) implies run(s@, st, alt)
            == Some(
            (
                st.drop_last().drop_last().push(
                    ((st[st.len() - 2] + st.last() + p31()) % p31()) as i64,
                ),
                alt,
            ),
        ) by {
            lemma_run_append(v1, v2, st, alt);
            reveal_with_fuel(run, 3);
            let raw = (st[st.len() - 2] + st.last()) as i64;
            let st1 = st.drop_last().drop_last().push(raw);
            assert(run(v1, st, alt) == Some((st1, alt)));
            if mod_depth > 0 {
                assert(st1[st1.len() - 1 - (mod_depth - 1)] == st[st.len() - 1 - mod_depth]);
            }
            assert(run(v2, st1, alt) == Some(
                (st1.drop_last().push(((st1.last() + p31()) % p31()) as i64), alt),
            ));
            assert(st1.drop_last() =~= st.drop_last().drop_last());
        }
    }
    s
}

/// Add the M31 element on top into the twisted element below it, yielding a
/// twisted element. The modulus depth names its position before the two
/// operands are consumed.
fn n31_add_m31(mod_depth: u32) -> (s: Vec<Instr>)
    ensures
        forall|st: Seq<i64>, alt: Seq<i64>| #![trigger run(s@, st, alt)]
            st.len() >= 2 && is_n31(st[st.len() - 2]) && is_m31(st.last()) && (mod_depth > 0
                ==> mod_depth >= 2 && mod_at(st, mod_depth as int)) ==> run(s@, st, alt) == Some(
                (
                    st.drop_last().drop_last().push(
                        (((st[st.len() - 2] + st.last() + p31()) % p31()) - p31()) as i64,
                    ),
                    alt,
                ),
            ),
{
    let mut s: Vec<Instr> = Vec::new();
    s.push(Instr::Op(BaseInstr::Add));
    let ghost v1 = s@;
    let adj = n31_adjust(if mod_depth > 0 {
        mod_depth - 1
    } else {
        0
    });
    let ghost v2 = adj@;
    let s = cat(s, adj);
    proof {
        assert forall|st: Seq<i64>, alt: Seq<i64>|
            st.len() >= 2 && is_n31(st[st.len() - 2]) && is_m31(st.last()) && (mod_depth > 0
                ==> mod_depth >= 2 && mod_at(st, mod_depth as int)) implies run(s@, st, alt)
            == Some(
            (
                st.drop_last().drop_last().push(
                    (((st[st.len() - 2] + st.last() + p31()) % p31()) - p31()) as i64,
                ),
                alt,
            ),
        ) by {
            lemma_run_append(v1, v2, st, alt);
            reveal_with_fuel(run, 3);
            let raw = (st[st.len() - 2] + st.last()) as i64;
            let st1 = st.drop_last().drop_last().push(raw);
            assert(run(v1, st, alt) == Some((st1, alt)));
            if mod_depth > 0 {
                assert(st1[st1.len() - 1 - (mod_depth - 1)] == st[st.len() - 1 - mod_depth]);
            }
            assert(run(v2, st1, alt) == Some(
                (st1.drop_last().push((((st1.last() + p31()) % p31()) - p31()) as i64), alt),
            ));
            assert(st1.drop_last() =~= st.drop_last().drop_last());
        }
    }
    s
}

/// Add the two twisted elements on top, yielding a twisted element. The
/// modulus depth names its position below both operands.
pub fn n31_add(mod_depth: u32) -> (s: Vec<Instr>)
    ensures
        forall|st: Seq<i64>, alt: Seq<i64>| #![trigger run(s@, st, alt)]
            st.len() >= 2 && is_n31(st[st.len() - 2]) && is_n31(st.last()) && (mod_depth > 0
                ==> mod_depth >= 2 && mod_at(st, mod_depth as int)) ==> run(s@, st, alt) == Some(
                (
                    st.drop_last().drop_last().push(
                        (((st[st.len() - 2] + st.last() + 2 * p31()) % p31()) - p31()) as i64,
                    ),
                    alt,
                ),
            ),
{
    let conv = n31_to_m31(mod_depth);
    let ghost v1 = conv@;
    let tail = n31_add_m31(mod_depth);
    let ghost v2 = tail@;
    let s = cat(conv, tail);
    proof {
        assert forall|st: Seq<i64>, alt: Seq<i64>|
            st.len() >= 2 && is_n31(st[st.len() - 2]) && is_n31(st.last()) && (mod_depth > 0
                ==> mod_depth >= 2 && mod_at(st, mod_depth as int)) implies run(s@, st, alt)
            == Some(
            (
                st.drop_last().drop_last().push(
                    (((st[st.len() - 2] + st.last() + 2 * p31()) % p31()) - p31()) as i64,
                ),
                alt,
            ),
        ) by {
            lemma_run_append(v1, v2, st, alt);
            let st1 = st.drop_last().push((st.last() + p31()) as i64);
            assert(run(v1, st, alt) == Some((st1, alt)));
            assert(st1[st1.len() - 2] == st[st.len() - 2]);
            if mod_depth > 0 {
                assert(st1[st1.len() - 1 - mod_depth] == st[st.len() - 1 - mod_depth]);
            }
            assert(run(v2, st1, alt) == Some(
                (
                    st1.drop_last().drop_last().push(
                        (((st1[st1.len() - 2] + st1.last() + p31()) % p31()) - p31()) as i64,
                    ),
                    alt,
                ),
            ));
            assert(st1.drop_last().drop_last() =~= st.drop_last().drop_last());
            assert(st1[st1.len() - 2] + st1.last() + p31() == st[st.len() - 2] + st.last() + 2
                * p31());
        }
    }
    s
}

/// Double the twisted element on top. The modulus depth names its position
/// before the duplicate is made.
pub fn n31_double(mod_depth: u32) -> (s: Vec<Instr>)
    requires
        mod_depth < 0xffff_ffff,
    ensures
        forall|st: Seq<i64>, alt: Seq<i64>| #![trigger run(s@, st, alt)]
            st.len() >= 1 && is_n31(st.last()) && (mod_depth > 0 ==> mod_at(
                st,
                mod_depth as int,
            )) ==> run(s@, st, alt) == Some(
                (st.drop_last().push((((2 * st.last() + 2 * p31()) % p31()) - p31()) as i64), alt),
            ),
{
    let mut s: Vec<Instr> = Vec::new();
    s.push(Instr::Op(BaseInstr::Dup));
    let ghost v1 = s@;
    let tail = n31_add(
        if mod_depth == 0 {
            0
        } else {
            mod_depth + 1
        },
    );
    let ghost v2 = tail@;
    let s = cat(s, tail);
    proof {
        assert forall|st: Seq<i64>, alt: Seq<i64>|
            st.len() >= 1 && is_n31(st.last()) && (mod_depth > 0 ==> mod_at(
                st,
                mod_depth as int,
            )) implies run(s@, st, alt) == Some(
            (st.drop_last().push((((2 * st.last() + 2 * p31()) % p31()) - p31()) as i64), alt),
        ) by {
            lemma_run_append(v1, v2, st, alt);
            reveal_with_fuel(run, 3);
            let st1 = st.push(st.last());
            assert(run(v1, st, alt) == Some((st1, alt)));
            assert(st1[st1.len() - 2] == st.last());
            if mod_depth > 0 {
                assert(st1[st1.len() - 1 - (mod_depth + 1)] == st[st.len() - 1 - mod_depth]);
            }
            assert(run(v2, st1, alt) == Some(
                (
                    st1.drop_last().drop_last().push(
                        (((st1[st1.len() - 2] + st1.last() + 2 * p31()) % p31()) - p31()) as i64,
                    ),
                    alt,
                ),
            ));
            assert(st1.drop_last().drop_last() =~= st.drop_last());
            assert(st1[st1.len() - 2] + st1.last() == 2 * st.last());
        }
    }
    s
}

/// Add the two M31 elements on top. The modulus depth names its position
/// below both operands.
fn m31_add(mod_depth: u32) -> (s: Vec<Instr>)
    ensures
        forall|st: Seq<i64>, alt: Seq<i64>| #![trigger run(s@, st, alt)]
            st.len() >= 2 && is_m31(st[st.len() - 2]) && is_m31(st.last()) && (mod_depth > 0
                ==> mod_depth >= 2 && mod_at(st, mod_depth as int)) ==> run(s@, st, alt) == Some(
                (
                    st.drop_last().drop_last().push(
                        ((st[st.len() - 2] + st.last()) % p31()) as i64,
                    ),
                    alt,
                ),
            ),
{
    let conv = m31_to_n31(mod_depth);
    let ghost v1 = conv@;
    let tail = m31_add_n31(mod_depth);
    let ghost v2 = tail@;
    let s = cat(conv, tail);
    proof {
        assert forall|st: Seq<i64>, alt: Seq<i64>|
            st.len() >= 2 && is_m31(st[st.len() - 2]) && is_m31(st.last()) && (mod_depth > 0
                ==> mod_depth >= 2 && mod_at(st, mod_depth as int)) implies run(s@, st, alt)
            == Some(
            (st.drop_last().drop_last().push(((st[st.len() - 2] + st.last()) % p31()) as i64), alt),
        ) by {
            lemma_run_append(v1, v2, st, alt);
            let st1 = st.drop_last().push((st.last() - p31()) as i64);
            assert(run(v1, st, alt) == Some((st1, alt)));
            assert(st1[st1.len() - 2] == st[st.len() - 2]);
            if mod_depth > 0 {
                assert(st1[st1.len() - 1 - mod_depth] == st[st.len() - 1 - mod_depth]);
            }
            assert(run(v2, st1, alt) == Some(
                (
                    st1.drop_last().drop_last().push(
                        ((st1[st1.len() - 2] + st1.last() + p31()) % p31()) as i64,
                    ),
                    alt,
                ),
            ));
            assert(st1.drop_last().drop_last() =~= st.drop_last().drop_last());
            assert(st1[st1.len() - 2] + st1.last() + p31() == st[st.len() - 2] + st.last());
        }
    }
    s
}

/// Double the M31 element on top. The modulus depth names its position
/// before the duplicate is made.
pub fn m31_double(mod_depth: u32) -> (s: Vec<Instr>)
    requires
        mod_depth < 0xffff_ffff,
    ensures
        forall|st: Seq<i64>, alt: Seq<i64>| #![trigger run(s@, st, alt)]
            st.len() >= 1 && is_m31(st.last()) && (mod_depth > 0 ==> mod_at(
                st,
                mod_depth as int,
            )) ==> run(s@, st, alt) == Some(
                (st.drop_last().push(((2 * st.last()) % p31()) as i64), alt),
            ),
{
    let mut s: Vec<Instr> = Vec::new();
    s.push(Instr::Op(BaseInstr::Dup));
    let ghost v1 = s@;
    let tail = m31_add(
        if mod_depth == 0 {
            0
        } else {
            mod_depth + 1
        },
    );
    let ghost v2 = tail@;
    let s = cat(s, tail);
    proof {
        assert forall|st: Seq<i64>, alt: Seq<i64>|
            st.len() >= 1 && is_m31(st.last()) && (mod_depth > 0 ==> mod_at(
                st,
                mod_depth as int,
            )) implies run(s@, st, alt) == Some(
            (st.drop_last().push(((2 * st.last()) % p31()) as i64), alt),
        ) by {
            lemma_run_append(v1, v2, st, alt);
            reveal_with_fuel(run, 3);
            let st1 = st.push(st.last());
            assert(run(v1, st, alt) == Some((st1, alt)));
            assert(st1[st1.len() - 2] == st.last());
            if mod_depth > 0 {
                assert(st1[st1.len() - 1 - (mod_depth + 1)] == st[st.len() - 1 - mod_depth]);
            }
            assert(run(v2, st1, alt) == Some(
                (
                    st1.drop_last().drop_last().push(
                        ((st1[st1.len() - 2] + st1.last()) % p31()) as i64,
                    ),
                    alt,
                ),
            ));
            assert(st1.drop_last().drop_last() =~= st.drop_last());
            assert(st1[st1.len() - 2] + st1.last() == 2 * st.last());
        }
    }
    s
}

} // verus!
