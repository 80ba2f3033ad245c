use paradox::literal::Literal;
use paradox::theory::array::{ArraySolver, ArrayTerm};
use paradox::theory::{TheoryResult, TheorySolver};

#[test]
fn test_array_solver_new() {
    let solver = ArraySolver::new();
    assert_eq!(solver.num_selects(), 0);
}

#[test]
fn array_test_equality() {
    let mut solver = ArraySolver::new();
    solver.assert_equality(1, 2, Literal::from_dimacs(1), 1);
    assert!(solver.are_equal(1, 2));
}

#[test]
fn array_test_transitivity() {
    let mut solver = ArraySolver::new();
    solver.assert_equality(1, 2, Literal::from_dimacs(1), 1);
    solver.assert_equality(2, 3, Literal::from_dimacs(2), 1);
    assert!(solver.are_equal(1, 3));
}

#[test]
fn array_test_conflict_detection() {
    let mut solver = ArraySolver::new();
    solver.assert_equality(1, 2, Literal::from_dimacs(1), 1);
    solver.assert_disequality(1, 2, Literal::from_dimacs(2), 1);
    match solver.check() {
        TheoryResult::Conflict(c) => assert!(!c.literals.is_empty()),
        TheoryResult::Consistent => panic!("Expected conflict"),
    }
}

#[test]
fn array_test_no_conflict() {
    let mut solver = ArraySolver::new();
    solver.assert_equality(1, 2, Literal::from_dimacs(1), 1);
    solver.assert_disequality(1, 3, Literal::from_dimacs(2), 1);
    assert!(matches!(solver.check(), TheoryResult::Consistent));
}

#[test]
fn test_add_select() {
    let mut solver = ArraySolver::new();
    let arr = ArrayTerm::Var(0);
    solver.add_select(arr, 1, 2, 1);
    assert_eq!(solver.num_selects(), 1);
}

#[test]
fn test_select_from_store() {
    let mut solver = ArraySolver::new();
    let base = ArrayTerm::Var(0);
    let stored = ArrayTerm::Store(Box::new(base), 1, 10);
    solver.add_select(stored, 1, 20, 1);
    assert!(solver.pending_axiom_count() > 0);
}

#[test]
fn array_test_backtrack() {
    let mut solver = ArraySolver::new();
    solver.assert_equality(1, 2, Literal::from_dimacs(1), 1);
    assert!(solver.are_equal(1, 2));
    solver.backtrack(0);
    assert!(!solver.are_equal(1, 2));
}

#[test]
fn array_test_reset() {
    let mut solver = ArraySolver::new();
    solver.assert_equality(1, 2, Literal::from_dimacs(1), 1);
    let arr = ArrayTerm::Var(0);
    solver.add_select(arr, 1, 2, 1);
    solver.reset();
    assert_eq!(solver.num_assertions(), 0);
    assert_eq!(solver.num_selects(), 0);
}

#[test]
fn test_explain_equality() {
    let mut solver = ArraySolver::new();
    solver.assert_equality(1, 2, Literal::from_dimacs(1), 1);
    solver.assert_equality(2, 3, Literal::from_dimacs(2), 1);
    let explanation = solver.explain_equality(1, 3);
    assert!(!explanation.is_empty());
}

#[test]
fn array_backtrack_keeps_lower_levels() {
    let mut solver = ArraySolver::new();
    solver.assert_equality(1, 2, Literal::from_dimacs(1), 1);
    solver.assert_equality(2, 3, Literal::from_dimacs(2), 2);
    assert!(solver.are_equal(1, 3));
    solver.backtrack(1);
    assert!(solver.are_equal(1, 2));
    assert!(!solver.are_equal(1, 3));
    assert_eq!(solver.find_const(4), 4);
}

#[test]
fn array_read_over_write_axiom_is_generated_once() {
    let mut solver = ArraySolver::new();
    let stored = ArrayTerm::Store(Box::new(ArrayTerm::Var(3)), 1, 10);
    assert_eq!(stored.base_array(), 3);
    solver.add_select(stored, 1, 20, 1);
    assert_eq!(solver.pending_axiom_count(), 1);
    // Propagation hands out pending propagations, not axioms.
    assert!(solver.propagate().is_empty());
    assert_eq!(solver.pending_axiom_count(), 1);
    // The same select adds no second axiom.
    solver.add_select(ArrayTerm::Store(Box::new(ArrayTerm::Var(3)), 1, 10), 1, 20, 1);
    assert_eq!(solver.pending_axiom_count(), 1);
    assert_eq!(solver.name(), "Array");
}

#[test]
fn read_over_write_conflicts_with_a_disequality() {
    let mut s = ArraySolver::new();
    s.assert_disequality(20, 10, Literal::from_dimacs(1), 1);
    s.add_select(ArrayTerm::Store(Box::new(ArrayTerm::Var(0)), 1, 10), 1, 20, 1);
    match s.check() {
        TheoryResult::Conflict(c) => assert!(c.literals.contains(&Literal::from_dimacs(1))),
        TheoryResult::Consistent => panic!("select(store(a, 1, 10), 1) must be 10"),
    }
    // Reading at another index says nothing about the stored value.
    let mut t = ArraySolver::new();
    t.assert_disequality(20, 10, Literal::from_dimacs(1), 1);
    t.add_select(ArrayTerm::Store(Box::new(ArrayTerm::Var(0)), 1, 10), 2, 20, 1);
    assert!(matches!(t.check(), TheoryResult::Consistent));
}

#[test]
fn array_backtrack_retracts_disequalities_above_the_level() {
    let mut s = ArraySolver::new();
    s.assert_equality(1, 2, Literal::from_dimacs(1), 1);
    s.assert_disequality(1, 2, Literal::from_dimacs(2), 2);
    assert!(matches!(s.check(), TheoryResult::Conflict(_)));
    s.backtrack(1);
    assert!(matches!(s.check(), TheoryResult::Consistent));
}
