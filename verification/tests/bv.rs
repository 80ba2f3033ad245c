use std::collections::HashMap;

use paradox::literal::Literal;
use paradox::theory::bv::{BitVec, BvSolver, BvTerm};
use paradox::theory::{TheoryResult, TheorySolver};

#[test]
fn test_bitvec_new() {
    let bv = BitVec::new(255, 8);
    assert_eq!(bv.value, 255);
    assert_eq!(bv.width, 8);
}

#[test]
fn test_bitvec_overflow() {
    let bv = BitVec::new(256, 8);
    assert_eq!(bv.value, 0);
}

#[test]
fn test_bitvec_not() {
    let bv = BitVec::new(0x0F, 8);
    let result = !bv;
    assert_eq!(result.value, 0xF0);
}

#[test]
fn test_bitvec_and() {
    let a = BitVec::new(0xFF, 8);
    let b = BitVec::new(0x0F, 8);
    assert_eq!((a & b).value, 0x0F);
}

#[test]
fn test_bitvec_or() {
    let a = BitVec::new(0xF0, 8);
    let b = BitVec::new(0x0F, 8);
    assert_eq!((a | b).value, 0xFF);
}

#[test]
fn test_bitvec_xor() {
    let a = BitVec::new(0xFF, 8);
    let b = BitVec::new(0x0F, 8);
    assert_eq!((a ^ b).value, 0xF0);
}

#[test]
fn test_bitvec_add() {
    let a = BitVec::new(100, 8);
    let b = BitVec::new(50, 8);
    assert_eq!((a + b).value, 150);
}

#[test]
fn test_bitvec_add_overflow() {
    let a = BitVec::new(200, 8);
    let b = BitVec::new(100, 8);
    assert_eq!((a + b).value, 44);
}

#[test]
fn test_bitvec_sub() {
    let a = BitVec::new(100, 8);
    let b = BitVec::new(50, 8);
    assert_eq!((a - b).value, 50);
}

#[test]
fn test_bitvec_mul() {
    let a = BitVec::new(10, 8);
    let b = BitVec::new(5, 8);
    assert_eq!((a * b).value, 50);
}

#[test]
fn test_bitvec_ult() {
    let a = BitVec::new(5, 8);
    let b = BitVec::new(10, 8);
    assert!(a.ult(&b));
    assert!(!b.ult(&a));
}

#[test]
fn test_bitvec_slt() {
    let a = BitVec::new(0xFF, 8);
    let b = BitVec::new(0, 8);
    assert!(a.slt(&b));
}

#[test]
fn test_bitvec_concat() {
    let a = BitVec::new(0xAB, 8);
    let b = BitVec::new(0xCD, 8);
    let result = a.concat(&b);
    assert_eq!(result.value, 0xABCD);
    assert_eq!(result.width, 16);
}

#[test]
fn test_bitvec_extract() {
    let bv = BitVec::new(0xABCD, 16);
    let high = bv.extract(15, 8);
    let low = bv.extract(7, 0);
    assert_eq!(high.value, 0xAB);
    assert_eq!(low.value, 0xCD);
}

#[test]
fn test_bitvec_zero_extend() {
    let bv = BitVec::new(0xFF, 8);
    let extended = bv.zero_extend(8);
    assert_eq!(extended.value, 0xFF);
    assert_eq!(extended.width, 16);
}

#[test]
fn test_bitvec_sign_extend() {
    let bv = BitVec::new(0xFF, 8);
    let extended = bv.sign_extend(8);
    assert_eq!(extended.value, 0xFFFF);
    assert_eq!(extended.width, 16);
}

#[test]
fn test_bv_term_evaluate() {
    let term = BvTerm::Add(
        Box::new(BvTerm::Const(BitVec::new(10, 8))),
        Box::new(BvTerm::Const(BitVec::new(5, 8))),
    );
    let result = term.evaluate(&HashMap::new()).unwrap();
    assert_eq!(result.value, 15);
}

#[test]
fn test_bv_solver_consistent() {
    let mut solver = BvSolver::new();
    solver
        .assert_equality(BvTerm::Var(0, 8), BvTerm::Const(BitVec::new(5, 8)), Literal::from_dimacs(1), 1)
        .unwrap();
    assert!(matches!(solver.check(), TheoryResult::Consistent));
}

#[test]
fn test_bv_solver_backtrack() {
    let mut solver = BvSolver::new();
    solver
        .assert_equality(BvTerm::Var(0, 8), BvTerm::Const(BitVec::new(5, 8)), Literal::from_dimacs(1), 1)
        .unwrap();
    solver
        .assert_equality(BvTerm::Var(0, 8), BvTerm::Const(BitVec::new(10, 8)), Literal::from_dimacs(2), 2)
        .unwrap();
    solver.backtrack(1);
    assert_eq!(solver.num_constraints(), 1);
}

#[test]
fn bitvec_signed_division_and_shifts() {
    let minus_seven = BitVec::new(0xF9, 8);
    let two = BitVec::new(2, 8);
    assert_eq!(minus_seven.sdiv(&two).value, 0xFD);
    assert_eq!(minus_seven.srem(&two).value, 0xFF);
    assert_eq!(BitVec::new(7, 8).udiv(&BitVec::zero(8)).value, 0xFF);
    assert_eq!(BitVec::new(7, 8).urem(&BitVec::zero(8)).value, 7);
    assert_eq!(BitVec::new(0x81, 8).ashr(&BitVec::new(1, 8)).value, 0xC0);
    assert_eq!(BitVec::new(0x81, 8).lshr(&BitVec::new(1, 8)).value, 0x40);
    assert_eq!(BitVec::new(0x81, 8).shl_bv(&BitVec::new(1, 8)).value, 0x02);
    assert_eq!((BitVec::new(0x81, 8) << 1).value, 0x02);
    assert_eq!((BitVec::new(0x81, 8) >> 7).value, 0x01);
    assert_eq!(BitVec::ones(4).value, 0xF);
    assert!(BitVec::new(3, 8).ule(&BitVec::new(3, 8)));
    assert!(BitVec::new(0x80, 8).sle(&BitVec::new(0x7F, 8)));
    assert!(BitVec::new(9, 8).ugt(&BitVec::new(3, 8)));
    assert!(BitVec::new(1, 8).sgt(&BitVec::new(0xFF, 8)));
    assert!(BitVec::new(4, 8).uge(&BitVec::new(4, 8)));
    assert!(BitVec::new(4, 8).sge(&BitVec::new(0x80, 8)));
}

#[test]
fn bv_term_evaluate_reads_variables() {
    let term = BvTerm::Mul(Box::new(BvTerm::Var(7, 8)), Box::new(BvTerm::Const(BitVec::new(3, 8))));
    let mut env = HashMap::new();
    // An unbound variable reads as zero.
    assert_eq!(term.evaluate(&env).unwrap().value, 0);
    env.insert(7u32, BitVec::new(100, 8));
    assert_eq!(term.evaluate(&env).unwrap().value, 44);
    assert_eq!(term.width(), 8);
}

#[test]
fn bv_solver_detects_conflicting_constants() {
    let mut solver = BvSolver::new();
    let r = solver.assert_disequality(
        BvTerm::Const(BitVec::new(5, 8)),
        BvTerm::Const(BitVec::new(5, 8)),
        Literal::from_dimacs(3),
        1,
    );
    assert!(r.is_ok());
    match solver.check() {
        TheoryResult::Conflict(c) => assert_eq!(c.literals, vec![Literal::from_dimacs(3)]),
        TheoryResult::Consistent => panic!("expected a conflict"),
    }
}

#[test]
fn sixty_four_bit_extract_and_shifts() {
    let x = BitVec::new(0x8000_0000_0000_0001, 64);
    assert_eq!(x.extract(63, 0).value, 0x8000_0000_0000_0001);
    assert_eq!(x.extract(63, 0).width, 64);
    let big = BitVec::new(64, 64);
    assert_eq!(x.shl_bv(&big).value, 0);
    assert_eq!(x.lshr(&big).value, 0);
    assert_eq!(x.ashr(&big).value, u64::MAX);
    let y = BitVec::new(5, 64);
    assert_eq!(y.ashr(&big).value, 0);
}
