//! The target stack machine: its instruction set and its semantics.
//!
//! A program is an ordered sequence of instructions; composition is
//! concatenation. The machine holds a main stack and an auxiliary stack of
//! signed integers. `run` gives the meaning of a program as a partial
//! function on machine states: `None` means the machine faults (stack
//! underflow, an out-of-range positional access, or signed overflow).

use vstd::prelude::*;

verus! {

/// One straight-line instruction of the target machine.
#[derive(Clone, Debug)]
pub enum BaseInstr {
    /// Push a literal.
    Push(i64),
    /// Duplicate the top item.
    Dup,
    /// Copy the second item from the top to the top.
    Over,
    /// Duplicate the top two items, keeping their order.
    Dup2,
    /// Pop a depth n, then copy the item n back in the stack to the top.
    Pick,
    /// Pop a depth n, then move the item n back in the stack to the top.
    Roll,
    /// Push the current depth of the stack.
    Depth,
    /// Swap the top two items.
    Swap,
    /// Rotate the top three items: the third from the top moves to the top.
    Rot,
    /// Pop b, then a; push the signed sum a + b.
    Add,
    /// Pop b, then a; push the signed difference a - b.
    Sub,
    /// Pop a value; push 1 if it was zero, else 0.
    Not,
    /// Pop b, then a; push 1 if a == b, else 0.
    Equal,
    /// Pop b, then a; push 1 if a < b, else 0.
    LessThan,
    /// Pop b, then a; push 1 if a >= b, else 0.
    GreaterOrEqual,
    /// Discard the top item.
    Pop,
    /// Discard the top two items.
    Pop2,
    /// Move the top item to the auxiliary stack.
    ToAlt,
    /// Move the top of the auxiliary stack back to the main stack.
    FromAlt,
}

/// One instruction of the target machine.
#[derive(Clone, Debug)]
pub enum Instr {
    /// A straight-line instruction.
    Op(BaseInstr),
    /// Pop a boolean; when it is nonzero, execute the enclosed body.
    Branch(Vec<BaseInstr>),
}

/// The integer the machine pushes for a boolean.
pub open spec fn bool_val(b: bool) -> i64 {
    if b {
        1
    } else {
        0
    }
}

/// Whether an unbounded integer fits the machine's signed word.
pub open spec fn fits(v: int) -> bool {
    i64::MIN <= v <= i64::MAX
}

/// Effect of one straight-line instruction on the machine state.
pub open spec fn step_op(op: BaseInstr, st: Seq<i64>, alt: Seq<i64>) -> Option<
    (Seq<i64>, Seq<i64>),
> {
    match op {
        BaseInstr::Push(v) => Some((st.push(v), alt)),
        BaseInstr::Dup => if st.len() >= 1 {
            Some((st.push(st.last()), alt))
        } else {
            None
        },
        BaseInstr::Over => if st.len() >= 2 {
            Some((st.push(st[st.len() - 2]), alt))
        } else {
            None
        },
        BaseInstr::Dup2 => if st.len() >= 2 {
            Some((st.push(st[st.len() - 2]).push(st[st.len() - 1]), alt))
        } else {
            None
        },
        BaseInstr::Pick => if st.len() >= 1 && 0 <= st.last() < st.len() - 1 {
            Some((st.drop_last().push(st[st.len() - 2 - st.last()]), alt))
        } else {
            None
        },
        BaseInstr::Roll => if st.len() >= 1 && 0 <= st.last() < st.len() - 1 {
            Some(
                (
                    st.drop_last().remove(st.len() - 2 - st.last()).push(
                        st[st.len() - 2 - st.last()],
                    ),
                    alt,
                ),
            )
        } else {
            None
        },
        BaseInstr::Depth => if st.len() <= i64::MAX {
            Some((st.push(st.len() as i64), alt))
        } else {
            None
        },
        BaseInstr::Swap => if st.len() >= 2 {
            Some((st.drop_last().drop_last().push(st[st.len() - 1]).push(st[st.len() - 2]), alt))
        } else {
            None
        },
        BaseInstr::Rot => if st.len() >= 3 {
            Some(
                (
                    st.drop_last().drop_last().drop_last().push(st[st.len() - 2]).push(
                        st[st.len() - 1],
                    ).push(st[st.len() - 3]),
                    alt,
                ),
            )
        } else {
            None
        },
        BaseInstr::Add => if st.len() >= 2 && fits(st[st.len() - 2] + st[st.len() - 1]) {
            Some(
                (
                    st.drop_last().drop_last().push((st[st.len() - 2] + st[st.len() - 1]) as i64),
                    alt,
                ),
            )
        } else {
            None
        },
        BaseInstr::Sub => if st.len() >= 2 && fits(st[st.len() - 2] - st[st.len() - 1]) {
            Some(
                (
                    st.drop_last().drop_last().push((st[st.len() - 2] - st[st.len() - 1]) as i64),
                    alt,
                ),
            )
        } else {
            None
        },
        BaseInstr::Not => if st.len() >= 1 {
            Some((st.drop_last().push(bool_val(st.last() == 0)), alt))
        } else {
            None
        },
        BaseInstr::Equal => if st.len() >= 2 {
            Some(
                (
                    st.drop_last().drop_last().push(bool_val(st[st.len() - 2] == st[st.len() - 1])),
                    alt,
                ),
            )
        } else {
            None
        },
        BaseInstr::LessThan => if st.len() >= 2 {
            Some(
                (
                    st.drop_last().drop_last().push(bool_val(st[st.len() - 2] < st[st.len() - 1])),
                    alt,
                ),
            )
        } else {
            None
        },
        BaseInstr::GreaterOrEqual => if st.len() >= 2 {
            Some(
                (
                    st.drop_last().drop_last().push(bool_val(st[st.len() - 2] >= st[st.len() - 1])),
                    alt,
                ),
            )
        } else {
            None
        },
        BaseInstr::Pop => if st.len() >= 1 {
            Some((st.drop_last(), alt))
        } else {
            None
        },
        BaseInstr::Pop2 => if st.len() >= 2 {
            Some((st.drop_last().drop_last(), alt))
        } else {
            None
        },
        BaseInstr::ToAlt => if st.len() >= 1 {
            Some((st.drop_last(), alt.push(st.last())))
        } else {
            None
        },
        BaseInstr::FromAlt => if alt.len() >= 1 {
            Some((st.push(alt.last()), alt.drop_last()))
        } else {
            None
        },
    }
}

/// Run a sequence of straight-line instructions.
pub open spec fn run_ops(code: Seq<BaseInstr>, st: Seq<i64>, alt: Seq<i64>) -> Option<
    (Seq<i64>, Seq<i64>),
>
    decreases code.len(),
{
    if code.len() == 0 {
        Some((st, alt))
    } else {
        match step_op(code[0], st, alt) {
            Some((s, a)) => run_ops(code.drop_first(), s, a),
            None => None,
        }
    }
}

/// Effect of one instruction on the machine state.
pub open spec fn step(i: Instr, st: Seq<i64>, alt: Seq<i64>) -> Option<(Seq<i64>, Seq<i64>)> {
    match i {
        Instr::Op(op) => step_op(op, st, alt),
        Instr::Branch(body) => if st.len() >= 1 {
            if st.last() != 0 {
                run_ops(body@, st.drop_last(), alt)
            } else {
                Some((st.drop_last(), alt))
            }
        } else {
            None
        },
    }
}

/// Run a program: the meaning of an instruction sequence.
pub open spec fn run(code: Seq<Instr>, st: Seq<i64>, alt: Seq<i64>) -> Option<
    (Seq<i64>, Seq<i64>),
>
    decreases code.len(),
{
    if code.len() == 0 {
        Some((st, alt))
    } else {
        match step(code[0], st, alt) {
            Some((s, a)) => run(code.drop_first(), s, a),
            None => None,
        }
    }
}

/// Running a concatenation runs the two parts in order.
pub proof fn lemma_run_append(c1: Seq<Instr>, c2: Seq<Instr>, st: Seq<i64>, alt: Seq<i64>)
    ensures
        run(c1 + c2, st, alt) == (match run(c1, st, alt) {
            Some((s, a)) => run(c2, s, a),
            None => None::<(Seq<i64>, Seq<i64>)>,
        }),
    decreases c1.len(),
{
    if c1.len() == 0 {
        assert(c1 + c2 =~= c2);
    } else {
        assert((c1 + c2)[0] == c1[0]);
        assert((c1 + c2).drop_first() =~= c1.drop_first() + c2);
        match step(c1[0], st, alt) {
            Some((s, a)) => {
                lemma_run_append(c1.drop_first(), c2, s, a);
            },
            None => {
            },
        }
    }
}

#[verifier::rlimit(60)]
fn step_exec(op: &BaseInstr, stack: &mut Vec<i64>, alt: &mut Vec<i64>) -> (ok: bool)
    ensures
        match step_op(*op, old(stack)@, old(alt)@) {
            Some((s, a)) => ok && final(stack)@ == s && final(alt)@ == a,
            None => !ok && final(stack)@ == old(stack)@ && final(alt)@ == old(alt)@,
        },
{
    match op {
        BaseInstr::Push(v) => {
            stack.push(*v);
            true
        },
        BaseInstr::Dup => {
            if stack.len() < 1 {
                return false;
            }
            let v = stack[stack.len() - 1];
            stack.push(v);
            true
        },
        BaseInstr::Over => {
            if stack.len() < 2 {
                return false;
            }
            let v = stack[stack.len() - 2];
            stack.push(v);
            true
        },
        BaseInstr::Dup2 => {
            if stack.len() < 2 {
                return false;
            }
            let v = stack[stack.len() - 2];
            let w = stack[stack.len() - 1];
            stack.push(v);
            stack.push(w);
            true
        },
        BaseInstr::Pick => {
            if stack.len() < 1 {
                return false;
            }
            let n = stack.pop().unwrap();
            if n < 0 || n as u64 >= stack.len() as u64 {
                proof {
                    assert(stack@.push(n) =~= old(stack)@);
                }
                stack.push(n);
                return false;
            }
            let v = stack[stack.len() - 1 - n as usize];
            stack.push(v);
            true
        },
        BaseInstr::Roll => {
            if stack.len() < 1 {
                return false;
            }
            let n = stack.pop().unwrap();
            if n < 0 || n as u64 >= stack.len() as u64 {
                proof {
                    assert(stack@.push(n) =~= old(stack)@);
                }
                stack.push(n);
                return false;
            }
            let v = stack.remove(stack.len() - 1 - n as usize);
            stack.push(v);
            true
        },
        BaseInstr::Depth => {
            if stack.len() as u64 > i64::MAX as u64 {
                return false;
            }
            let d = stack.len() as i64;
            stack.push(d);
            true
        },
        BaseInstr::Swap => {
            if stack.len() < 2 {
                return false;
            }
            let b = stack.pop().unwrap();
            let a = stack.pop().unwrap();
            stack.push(b);
            stack.push(a);
            true
        },
        BaseInstr::Rot => {
            if stack.len() < 3 {
                return false;
            }
            let c = stack.pop().unwrap();
            let b = stack.pop().unwrap();
            let a = stack.pop().unwrap();
            stack.push(b);
            stack.push(c);
            stack.push(a);
            true
        },
        BaseInstr::Add => {
            if stack.len() < 2 {
                return false;
            }
            let b = stack[stack.len() - 1];
            let a = stack[stack.len() - 2];
            let r = a as i128 + b as i128;
            if r < i64::MIN as i128 || r > i64::MAX as i128 {
                return false;
            }
            let _ = stack.pop();
            let _ = stack.pop();
            stack.push(r as i64);
            true
        },
        BaseInstr::Sub => {
            if stack.len() < 2 {
                return false;
            }
            let b = stack[stack.len() - 1];
            let a = stack[stack.len() - 2];
            let r = a as i128 - b as i128;
            if r < i64::MIN as i128 || r > i64::MAX as i128 {
                return false;
            }
            let _ = stack.pop();
            let _ = stack.pop();
            stack.push(r as i64);
            true
        },
        BaseInstr::Not => {
            if stack.len() < 1 {
                return false;
            }
            let v = stack.pop().unwrap();
            stack.push(if v == 0 {
                1
            } else {
                0
            });
            true
        },
        BaseInstr::Equal => {
            if stack.len() < 2 {
                return false;
            }
            let b = stack.pop().unwrap();
            let a = stack.pop().unwrap();
            stack.push(if a == b {
                1
            } else {
                0
            });
            true
        },
        BaseInstr::LessThan => {
            if stack.len() < 2 {
                return false;
            }
            let b = stack.pop().unwrap();
            let a = stack.pop().unwrap();
            stack.push(if a < b {
                1
            } else {
                0
            });
            true
        },
        BaseInstr::GreaterOrEqual => {
            if stack.len() < 2 {
                return false;
            }
            let b = stack.pop().unwrap();
            let a = stack.pop().unwrap();
            stack.push(if a >= b {
                1
            } else {
                0
            });
            true
        },
        BaseInstr::Pop => {
            if stack.len() < 1 {
                return false;
            }
            let _ = stack.pop();
            true
        },
        BaseInstr::Pop2 => {
            if stack.len() < 2 {
                return false;
            }
            let _ = stack.pop();
            let _ = stack.pop();
            true
        },
        BaseInstr::ToAlt => {
            if stack.len() < 1 {
                return false;
            }
            let v = stack.pop().unwrap();
            alt.push(v);
            true
        },
        BaseInstr::FromAlt => {
            if alt.len() < 1 {
                return false;
            }
            let v = alt.pop().unwrap();
            stack.push(v);
            true
        },
    }
}

fn run_ops_exec(code: &Vec<BaseInstr>, stack: &mut Vec<i64>, alt: &mut Vec<i64>) -> (ok: bool)
    ensures
        match run_ops(code@, old(stack)@, old(alt)@) {
            Some((s, a)) => ok && final(stack)@ == s && final(alt)@ == a,
            None => !ok,
        },
{
    let mut i: usize = 0;
    proof {
        assert(code@.skip(0) =~= code@);
    }
    while i < code.len()
        invariant
            i <= code.len(),
            run_ops(code@, old(stack)@, old(alt)@) == run_ops(
                code@.skip(i as int),
                stack@,
                alt@,
            ),
        decreases code.len() - i,
    {
        proof {
            assert(code@.skip(i as int)[0] == code@[i as int]);
            assert(code@.skip(i as int).drop_first() =~= code@.skip(i as int + 1));
        }
        let ok = step_exec(&code[i], stack, alt);
        if !ok {
            return false;
        }
        i += 1;
    }
    proof {
        assert(code@.skip(code@.len() as int) =~= Seq::<BaseInstr>::empty());
    }
    true
}

fn step_instr_exec(i: &Instr, stack: &mut Vec<i64>, alt: &mut Vec<i64>) -> (ok: bool)
    ensures
        match step(*i, old(stack)@, old(alt)@) {
            Some((s, a)) => ok && final(stack)@ == s && final(alt)@ == a,
            None => !ok,
        },
{
    match i {
        Instr::Op(op) => step_exec(op, stack, alt),
        Instr::Branch(body) => {
            if stack.len() < 1 {
                return false;
            }
            let c = stack.pop().unwrap();
            if c != 0 {
                run_ops_exec(body, stack, alt)
            } else {
                true
            }
        },
    }
}

/// Execute a program on a starting stack, with an empty auxiliary stack.
///
/// Returns the final main stack, or `None` when the machine faults. This is
/// the test interface: it lets a generated program be run on concrete
/// inputs and its output compared against an expected value.
pub fn execute(code: &Vec<Instr>, input: Vec<i64>) -> (r: Option<Vec<i64>>)
    ensures
        match r {
            Some(v) => run(code@, input@, Seq::empty()) matches Some((s, _)) && v@ == s,
            None => run(code@, input@, Seq::empty()) is None,
        },
{
    let mut stack = input;
    let mut alt: Vec<i64> = Vec::new();
    let ghost st0 = stack@;
    let mut i: usize = 0;
    proof {
        assert(code@.skip(0) =~= code@);
    }
    while i < code.len()
        invariant
            i <= code.len(),
            st0 == input@,
            run(code@, st0, Seq::empty()) == run(code@.skip(i as int), stack@, alt@),
        decreases code.len() - i,
    {
        proof {
            assert(code@.skip(i as int)[0] == code@[i as int]);
            assert(code@.skip(i as int).drop_first() =~= code@.skip(i as int + 1));
        }
        let ghost pre_st = stack@;
        let ghost pre_alt = alt@;
        let ok = step_instr_exec(&code[i], &mut stack, &mut alt);
        if !ok {
            proof {
                assert(step(code@[i as int], pre_st, pre_alt) is None);
                assert(run(code@.skip(i as int), pre_st, pre_alt) is None);
                assert(run(code@, st0, Seq::empty()) is None);
                assert(st0 == input@);
                assert(run(code@, input@, Seq::empty()) is None);
            }
            return None;
        }
        i += 1;
    }
    proof {
        assert(code@.skip(code@.len() as int) =~= Seq::<Instr>::empty());
    }
    Some(stack)
}

/// Concatenate two program fragments.
pub fn cat(a: Vec<Instr>, b: Vec<Instr>) -> (r: Vec<Instr>)
    ensures
        r@ == a@ + b@,
{
    let mut r = a;
    let mut tail = b;
    r.append(&mut tail);
    r
}

} // verus!
