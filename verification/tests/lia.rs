use std::collections::HashMap;

use paradox::literal::Literal;
use paradox::theory::lia::{Bound, ConstraintKind, LiaSolver, LinearExpr, VarBounds};
use paradox::theory::{TheoryResult, TheorySolver};

#[test]
fn test_linear_expr_add() {
    let x = LinearExpr::var(0);
    let y = LinearExpr::var(1);
    let sum = x.add(&y);
    assert_eq!(sum.coeffs.len(), 2);
    assert_eq!(sum.coeffs[&0], 1);
    assert_eq!(sum.coeffs[&1], 1);
}

#[test]
fn test_linear_expr_scale() {
    let x = LinearExpr::var(0);
    let scaled = x.scale(3);
    assert_eq!(scaled.coeffs[&0], 3);
}

#[test]
fn test_linear_expr_evaluate() {
    let mut expr = LinearExpr::var(0);
    expr = expr.add(&LinearExpr::var(1).scale(2));
    expr.constant = 5;
    let mut values = HashMap::new();
    values.insert(0, 3);
    values.insert(1, 4);
    assert_eq!(expr.evaluate(&values), 16);
}

#[test]
fn test_bound_propagation() {
    let mut solver = LiaSolver::new();
    let x = solver.new_var();
    let expr1 = LinearExpr::var(x).sub(&LinearExpr::constant(5));
    solver.assert_constraint(expr1, ConstraintKind::Ge, Literal::from_dimacs(1), 1).unwrap();
    let expr2 = LinearExpr::var(x).sub(&LinearExpr::constant(10));
    solver.assert_constraint(expr2, ConstraintKind::Le, Literal::from_dimacs(2), 1).unwrap();
    assert!(matches!(solver.check(), TheoryResult::Consistent));
}

#[test]
fn test_bound_conflict() {
    let mut solver = LiaSolver::new();
    let x = solver.new_var();
    let expr1 = LinearExpr::var(x).sub(&LinearExpr::constant(10));
    solver.assert_constraint(expr1, ConstraintKind::Ge, Literal::from_dimacs(1), 1).unwrap();
    let expr2 = LinearExpr::var(x).sub(&LinearExpr::constant(5));
    let result = solver.assert_constraint(expr2, ConstraintKind::Le, Literal::from_dimacs(2), 1);
    assert!(result.is_err());
}

#[test]
fn test_constant_constraint_sat() {
    let mut solver = LiaSolver::new();
    let expr = LinearExpr::constant(5);
    solver.assert_constraint(expr, ConstraintKind::Gt, Literal::from_dimacs(1), 1).unwrap();
    assert!(matches!(solver.check(), TheoryResult::Consistent));
}

#[test]
fn test_constant_constraint_unsat() {
    let mut solver = LiaSolver::new();
    let expr = LinearExpr::constant(5);
    let result = solver.assert_constraint(expr, ConstraintKind::Lt, Literal::from_dimacs(1), 1);
    assert!(result.is_err());
}

#[test]
fn test_equality_constraint() {
    let mut solver = LiaSolver::new();
    let x = solver.new_var();
    let expr = LinearExpr::var(x).sub(&LinearExpr::constant(5));
    solver.assert_constraint(expr, ConstraintKind::Eq, Literal::from_dimacs(1), 1).unwrap();
    let bounds = solver.get_bounds(x).unwrap();
    assert_eq!(bounds.lower.as_ref().unwrap().value, 5);
    assert_eq!(bounds.upper.as_ref().unwrap().value, 5);
}

#[test]
fn lia_test_backtrack() {
    let mut solver = LiaSolver::new();
    let x = solver.new_var();
    let expr1 = LinearExpr::var(x).sub(&LinearExpr::constant(5));
    solver.assert_constraint(expr1, ConstraintKind::Ge, Literal::from_dimacs(1), 1).unwrap();
    let expr2 = LinearExpr::var(x).sub(&LinearExpr::constant(3));
    let _ = solver.assert_constraint(expr2, ConstraintKind::Le, Literal::from_dimacs(2), 2);
    solver.backtrack(1);
    assert!(matches!(solver.check(), TheoryResult::Consistent));
}

#[test]
fn lia_test_reset() {
    let mut solver = LiaSolver::new();
    let x = solver.new_var();
    let expr = LinearExpr::var(x).sub(&LinearExpr::constant(5));
    solver.assert_constraint(expr, ConstraintKind::Ge, Literal::from_dimacs(1), 1).unwrap();
    solver.reset();
    assert_eq!(solver.num_constraints(), 0);
    assert_eq!(solver.num_bounded_vars(), 0);
}

#[test]
fn lia_conflict_names_both_bounds() {
    let mut solver = LiaSolver::new();
    let x = solver.new_var();
    solver
        .assert_constraint(LinearExpr::var(x).sub(&LinearExpr::constant(10)), ConstraintKind::Gt, Literal::from_dimacs(4), 1)
        .unwrap();
    let result = solver.assert_constraint(
        LinearExpr::var(x).sub(&LinearExpr::constant(11)),
        ConstraintKind::Lt,
        Literal::from_dimacs(-6),
        1,
    );
    match result {
        Err(c) => {
            assert!(c.literals.contains(&Literal::from_dimacs(4)));
            assert!(c.literals.contains(&Literal::from_dimacs(-6)));
        }
        Ok(()) => panic!("expected a conflict"),
    }
}

#[test]
fn linear_expr_helpers() {
    let e = LinearExpr::var(2).scale(-3).add(&LinearExpr::constant(7));
    assert_eq!(e.get_single_var(), Some((2, -3)));
    assert!(!e.is_constant());
    let n = e.negate();
    assert_eq!(n.coeffs[&2], 3);
    assert_eq!(n.constant, -7);
    assert!(LinearExpr::zero().is_constant());
    assert_eq!(ConstraintKind::Le.negate(), ConstraintKind::Gt);
    assert_eq!(ConstraintKind::Eq.negate(), ConstraintKind::Ne);
}

#[test]
fn bounds_round_toward_the_integers() {
    let mut solver = LiaSolver::new();
    let x = solver.new_var();
    // x - 3 >= 0 and 2x - 7 < 0: x = 3 satisfies both.
    let e1 = LinearExpr::var(x).sub(&LinearExpr::constant(3));
    solver.assert_constraint(e1, ConstraintKind::Ge, Literal::from_dimacs(1), 1).unwrap();
    let e2 = LinearExpr::var(x).scale(2).sub(&LinearExpr::constant(7));
    assert!(solver.assert_constraint(e2, ConstraintKind::Lt, Literal::from_dimacs(2), 1).is_ok());
    let b = solver.get_bounds(x).unwrap();
    assert_eq!(b.lower.as_ref().unwrap().value, 3);
    assert_eq!(b.upper.as_ref().unwrap().value, 3);
    // -2x + 7 >= 0 means x <= 3.5, so x <= 3; -3x - 7 <= 0 means x >= -7/3, so x >= -2.
    let mut s2 = LiaSolver::new();
    let y = s2.new_var();
    let e3 = LinearExpr::var(y).scale(-2).add(&LinearExpr::constant(7));
    s2.assert_constraint(e3, ConstraintKind::Ge, Literal::from_dimacs(3), 1).unwrap();
    let e4 = LinearExpr::var(y).scale(-3).sub(&LinearExpr::constant(7));
    s2.assert_constraint(e4, ConstraintKind::Le, Literal::from_dimacs(4), 1).unwrap();
    let b2 = s2.get_bounds(y).unwrap();
    assert_eq!(b2.upper.as_ref().unwrap().value, 3);
    assert_eq!(b2.lower.as_ref().unwrap().value, -2);
}

#[test]
fn an_equality_with_no_integer_solution_conflicts() {
    let mut solver = LiaSolver::new();
    let x = solver.new_var();
    // 2x - 7 = 0 has no integer solution.
    let e = LinearExpr::var(x).scale(2).sub(&LinearExpr::constant(7));
    let r = solver.assert_constraint(e, ConstraintKind::Eq, Literal::from_dimacs(5), 1);
    match r {
        Err(c) => assert_eq!(c.literals, vec![Literal::from_dimacs(5)]),
        Ok(()) => panic!("expected a conflict"),
    }
}

#[test]
fn strict_bounds_count_toward_contradiction() {
    let lit = Literal::from_dimacs(1);
    let lower = Some(Bound { value: 1, strict: true, literal: lit, level: 0 });
    let upper = Some(Bound { value: 2, strict: true, literal: lit, level: 0 });
    assert!(VarBounds { lower, upper }.is_contradictory());
    let upper3 = Some(Bound { value: 3, strict: true, literal: lit, level: 0 });
    assert!(!VarBounds { lower, upper: upper3 }.is_contradictory());
}
