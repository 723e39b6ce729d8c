use m31_codegen::m31::{n31_neg, n31_add, n31_double, n31_sub, m31_add_n31, n31_add_m31, MOD};
use m31_codegen::naf::find_naf;
use m31_codegen::vm::{execute, BaseInstr, Instr};
use m31_codegen::windowed;

fn push(v: i64) -> Instr {
    Instr::Op(BaseInstr::Push(v))
}

fn run_on(mut prog: Vec<Instr>, tail: Vec<Instr>) -> Option<Vec<i64>> {
    prog.extend(tail);
    execute(&prog, Vec::new())
}

const P: i64 = MOD as i64;

#[test]
fn find_naf_exact() {
    // 7 = -1 + 8
    assert_eq!(find_naf(7), vec![-1, 0, 0, 1]);
    // 3 = -1 + 4
    assert_eq!(find_naf(3), vec![-1, 0, 1]);
    assert_eq!(find_naf(0), Vec::<i8>::new());
    assert_eq!(find_naf(1), vec![1]);
    assert_eq!(find_naf(2), vec![0, 1]);
    assert_eq!(find_naf(5), vec![1, 0, 1]);
}

#[test]
fn find_naf_round_trip() {
    for n in (0u32..2000).chain([u32::MAX, u32::MAX - 1, 1 << 31, MOD]) {
        let ds = find_naf(n);
        let mut sum: i64 = 0;
        for (i, d) in ds.iter().enumerate() {
            assert!(*d == -1 || *d == 0 || *d == 1);
            sum += (*d as i64) << i;
        }
        assert_eq!(sum, n as i64);
        for w in ds.windows(2) {
            assert!(w[0] == 0 || w[1] == 0);
        }
    }
}

#[test]
fn twisted_operators() {
    // twisted encodings are the canonical value minus P
    let x = 10i64 - P;
    let y = 20i64 - P;
    let out = run_on(vec![push(x), push(y)], n31_add());
    assert!(out == Some(vec![30 - P]));
    let out = run_on(vec![push(x), push(y)], n31_sub());
    assert!(out == Some(vec![P - 10 - P]));
    let out = run_on(vec![push(x)], n31_double());
    assert!(out == Some(vec![20 - P]));
    let out = run_on(vec![push(x)], n31_neg());
    assert!(out == Some(vec![-10]));
    // the twisted zero stays the twisted zero under negation
    let out = run_on(vec![push(-P)], n31_neg());
    assert!(out == Some(vec![-P]));
    // mixed additions
    let out = run_on(vec![push(7), push(y)], m31_add_n31());
    assert!(out == Some(vec![27]));
    let out = run_on(vec![push(x), push(20)], n31_add_m31());
    assert!(out == Some(vec![30 - P]));
}

#[test]
fn windowed_helpers_fetch_the_parked_modulus() {
    // a stack with the modulus parked below the operands
    let out = run_on(vec![push(P), push(9)], windowed::m31_to_n31(1));
    assert!(out == Some(vec![P, 9 - P]));
    let out = run_on(vec![push(P), push(99), push(4 - P)], windowed::n31_double(2));
    assert!(out == Some(vec![P, 99, 8 - P]));
    let out = run_on(
        vec![push(P), push(99), push(3 - P), push(4 - P)],
        windowed::n31_add(3),
    );
    assert!(out == Some(vec![P, 99, 7 - P]));
    let out = run_on(
        vec![push(P), push(99), push(42), push(5 - P)],
        windowed::m31_add_n31(3),
    );
    assert!(out == Some(vec![P, 99, 47]));
    let out = run_on(vec![push(P), push(99), push(21)], windowed::m31_double(2));
    assert!(out == Some(vec![P, 99, 42]));
    // pick copies without disturbing what is below
    let out = run_on(vec![push(4), push(5), push(6)], windowed::pick(2));
    assert!(out == Some(vec![4, 5, 6, 4]));
    let out = run_on(vec![push(4), push(5)], windowed::pick(0));
    assert!(out == Some(vec![4, 5, 5]));
}

#[test]
fn doubling_wraps_at_the_modulus() {
    let big = (MOD - 1) as i64;
    let out = run_on(vec![push(big)], m31_codegen::m31::m31_double());
    assert!(out == Some(vec![big - 1]));
    let out = run_on(vec![push(-1)], m31_codegen::m31::n31_double());
    assert!(out == Some(vec![-2]));
}
