use m31_codegen::m31::{
    m31_add, m31_from_bottom, m31_mul, m31_mul_by_constant, m31_neg, m31_sub, m31_square,
    m31_to_bits, m31_to_n31, n31_to_m31, push_m31_one, push_m31_zero, push_n31_one, push_n31_zero,
    MOD,
};
use m31_codegen::vm::{execute, BaseInstr, Instr};
use rand::{Rng, SeedableRng};
use rand_chacha::ChaCha20Rng;

fn push(v: i64) -> Instr {
    Instr::Op(BaseInstr::Push(v))
}

fn run_on(mut prog: Vec<Instr>, tail: Vec<Instr>) -> Option<Vec<i64>> {
    prog.extend(tail);
    execute(&prog, Vec::new())
}

#[test]
fn test_m31_add() {
    let mut prng = ChaCha20Rng::seed_from_u64(0u64);
    for _ in 0..100 {
        let a: u32 = prng.random();
        let b: u32 = prng.random();

        let a_m31 = a % MOD;
        let b_m31 = b % MOD;
        let sum_m31 = (a_m31 + b_m31) % MOD;

        let out = run_on(vec![push(a_m31 as i64), push(b_m31 as i64)], m31_add());
        assert!(out == Some(vec![sum_m31 as i64]));
    }
}

#[test]
fn test_m31_sub() {
    let mut prng = ChaCha20Rng::seed_from_u64(0u64);
    for _ in 0..100 {
        let a: u32 = prng.random();
        let b: u32 = prng.random();

        let a_m31 = a % MOD;
        let b_m31 = b % MOD;
        let diff_m31 = (MOD + a_m31 - b_m31) % MOD;

        let out = run_on(vec![push(a_m31 as i64), push(b_m31 as i64)], m31_sub());
        assert!(out == Some(vec![diff_m31 as i64]));
    }
}

#[test]
fn test_m31_to_bits() {
    let mut prng = ChaCha20Rng::seed_from_u64(0u64);
    for _ in 0..100 {
        let a: u32 = prng.random();
        let m31 = a % MOD;

        let mut bits = vec![];
        let mut cur = m31;
        for _ in 0..31 {
            bits.push(cur % 2);
            cur >>= 1;
        }
        assert_eq!(cur, 0);

        let out = run_on(vec![push(m31 as i64)], m31_to_bits());
        let expected: Vec<i64> = (0..31).rev().map(|i| bits[i as usize] as i64).collect();
        assert!(out == Some(expected));
    }
}

#[test]
fn test_m31_square() {
    let mut prng = ChaCha20Rng::seed_from_u64(6u64);
    for _ in 0..100 {
        let a: u32 = prng.random();

        let a_m31 = a % MOD;
        let prod_m31 = ((((a_m31 as u64) * (a_m31 as u64)) % (MOD as u64)) & 0xffffffff) as u32;

        let out = run_on(vec![push(a_m31 as i64)], m31_square());
        assert!(out == Some(vec![prod_m31 as i64]));
    }
}

#[test]
fn test_m31_mul() {
    let mut prng = ChaCha20Rng::seed_from_u64(6u64);
    for _ in 0..100 {
        let a: u32 = prng.random();
        let b: u32 = prng.random();

        let a_m31 = a % MOD;
        let b_m31 = b % MOD;
        let prod_m31 = ((((a_m31 as u64) * (b_m31 as u64)) % (MOD as u64)) & 0xffffffff) as u32;

        let out = run_on(vec![push(a_m31 as i64), push(b_m31 as i64)], m31_mul());
        assert!(out == Some(vec![prod_m31 as i64]));
    }
}

#[test]
fn test_m31_mul_by_constant() {
    let mut prng = ChaCha20Rng::seed_from_u64(6u64);
    for _ in 0..100 {
        let a: u32 = prng.random();
        let b: u32 = prng.random();

        let a_m31 = a % MOD;
        let b_m31 = b % MOD;

        let mul_script = m31_mul_by_constant(b_m31);

        let prod_m31 = ((((a_m31 as u64) * (b_m31 as u64)) % (MOD as u64)) & 0xffffffff) as u32;

        let out = run_on(vec![push(a_m31 as i64)], mul_script);
        assert!(out == Some(vec![prod_m31 as i64]));
    }
}

#[test]
fn test_m31_neg() {
    let mut prng = ChaCha20Rng::seed_from_u64(6u64);
    for _ in 0..100 {
        let a: u32 = prng.random();

        let a_m31 = a % MOD;
        let b_m31 = MOD - a_m31;

        let out = run_on(vec![push(a_m31 as i64)], m31_neg());
        assert!(out == Some(vec![b_m31 as i64]));
    }

    let out = run_on(vec![push(0)], m31_neg());
    assert!(out == Some(vec![0]));
}

#[test]
fn boundary_cases() {
    // add at the wrap-around boundary
    let out = run_on(vec![push(2147483646), push(2)], m31_add());
    assert!(out == Some(vec![1]));
    // subtraction borrowing through zero
    let out = run_on(vec![push(0), push(1)], m31_sub());
    assert!(out == Some(vec![2147483646]));
    // negation of one and of the largest element
    let out = run_on(vec![push(1)], m31_neg());
    assert!(out == Some(vec![2147483646]));
    let out = run_on(vec![push(2147483646)], m31_neg());
    assert!(out == Some(vec![1]));
    // small products
    let out = run_on(vec![push(2), push(3)], m31_mul());
    assert!(out == Some(vec![6]));
    let out = run_on(vec![push(2)], m31_mul_by_constant(5));
    assert!(out == Some(vec![10]));
    let out = run_on(vec![push(123456)], m31_mul_by_constant(0));
    assert!(out == Some(vec![0]));
    let out = run_on(vec![push(77)], m31_mul_by_constant(1));
    assert!(out == Some(vec![77]));
}

#[test]
fn pushes_and_conversions() {
    assert!(execute(&push_m31_zero(), Vec::new()) == Some(vec![0]));
    assert!(execute(&push_m31_one(), Vec::new()) == Some(vec![1]));
    assert!(execute(&push_n31_zero(), Vec::new()) == Some(vec![-2147483647]));
    assert!(execute(&push_n31_one(), Vec::new()) == Some(vec![1 - 2147483647]));
    let out = run_on(vec![push(5)], m31_to_n31());
    assert!(out == Some(vec![5 - 2147483647]));
    let out = run_on(vec![push(5 - 2147483647)], n31_to_m31());
    assert!(out == Some(vec![5]));
    let out = run_on(vec![push(10), push(20), push(30)], m31_from_bottom());
    assert!(out == Some(vec![20, 30, 10]));
}

#[test]
fn to_bits_exact() {
    // 0b101 gives 28 leading zero bits, then 1, 0, 1 with the low bit on top
    let out = run_on(vec![push(5)], m31_to_bits());
    let mut expected = vec![0i64; 28];
    expected.extend(vec![1i64, 0i64, 1i64]);
    assert!(out == Some(expected));
    let out = run_on(vec![push(0)], m31_to_bits());
    assert!(out == Some(vec![0i64; 31]));
    // the largest element is all ones
    let out = run_on(vec![push((MOD - 1) as i64)], m31_to_bits());
    let mut expected = vec![1i64; 30];
    expected.push(0);
    assert!(out == Some(expected));
}
