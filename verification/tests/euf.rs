use paradox::literal::Literal;
use paradox::theory::euf::{EufSolver, EufTerm};
use paradox::theory::{TheoryResult, TheorySolver};

#[test]
fn test_intern_term() {
    let mut solver = EufSolver::new();
    let t1 = solver.intern_term(EufTerm::Var("x".to_string()));
    let t2 = solver.intern_term(EufTerm::Var("y".to_string()));
    let t3 = solver.intern_term(EufTerm::Var("x".to_string()));
    assert_eq!(t1, t3);
    assert_ne!(t1, t2);
}

#[test]
fn euf_test_equality() {
    let mut solver = EufSolver::new();
    let x = solver.intern_term(EufTerm::Var("x".to_string()));
    let y = solver.intern_term(EufTerm::Var("y".to_string()));
    assert!(!solver.are_equal(x, y));
    solver.assert_equality(x, y, Literal::from_dimacs(1), 1);
    assert!(solver.are_equal(x, y));
}

#[test]
fn euf_test_transitivity() {
    let mut solver = EufSolver::new();
    let x = solver.intern_term(EufTerm::Var("x".to_string()));
    let y = solver.intern_term(EufTerm::Var("y".to_string()));
    let z = solver.intern_term(EufTerm::Var("z".to_string()));
    solver.assert_equality(x, y, Literal::from_dimacs(1), 1);
    solver.assert_equality(y, z, Literal::from_dimacs(2), 1);
    assert!(solver.are_equal(x, z));
}

#[test]
fn euf_test_conflict_detection() {
    let mut solver = EufSolver::new();
    let x = solver.intern_term(EufTerm::Var("x".to_string()));
    let y = solver.intern_term(EufTerm::Var("y".to_string()));
    solver.assert_equality(x, y, Literal::from_dimacs(1), 1);
    solver.assert_disequality(x, y, Literal::from_dimacs(2), 1);
    match solver.check() {
        TheoryResult::Conflict(c) => assert!(!c.literals.is_empty()),
        TheoryResult::Consistent => panic!("Expected conflict"),
    }
}

#[test]
fn euf_test_no_conflict() {
    let mut solver = EufSolver::new();
    let x = solver.intern_term(EufTerm::Var("x".to_string()));
    let y = solver.intern_term(EufTerm::Var("y".to_string()));
    let z = solver.intern_term(EufTerm::Var("z".to_string()));
    solver.assert_equality(x, y, Literal::from_dimacs(1), 1);
    solver.assert_disequality(x, z, Literal::from_dimacs(2), 1);
    assert!(matches!(solver.check(), TheoryResult::Consistent));
}

#[test]
fn test_function_application() {
    let mut solver = EufSolver::new();
    let x = solver.intern_term(EufTerm::Var("x".to_string()));
    let y = solver.intern_term(EufTerm::Var("y".to_string()));
    let fx = solver.intern_term(EufTerm::App("f".to_string(), vec![x]));
    let fy = solver.intern_term(EufTerm::App("f".to_string(), vec![y]));
    assert!(!solver.are_equal(fx, fy));
    solver.assert_equality(x, y, Literal::from_dimacs(1), 1);
}

#[test]
fn euf_test_backtrack() {
    let mut solver = EufSolver::new();
    let x = solver.intern_term(EufTerm::Var("x".to_string()));
    let y = solver.intern_term(EufTerm::Var("y".to_string()));
    solver.assert_equality(x, y, Literal::from_dimacs(1), 1);
    assert!(solver.are_equal(x, y));
    solver.backtrack(0);
    assert!(!solver.are_equal(x, y));
}

#[test]
fn euf_test_reset() {
    let mut solver = EufSolver::new();
    let x = solver.intern_term(EufTerm::Var("x".to_string()));
    let y = solver.intern_term(EufTerm::Var("y".to_string()));
    solver.assert_equality(x, y, Literal::from_dimacs(1), 1);
    solver.reset();
    assert_eq!(solver.num_terms(), 0);
}

#[test]
fn euf_conflict_names_the_disequality_and_the_merges() {
    let mut solver = EufSolver::new();
    let x = solver.intern_term(EufTerm::Var("x".to_string()));
    let y = solver.intern_term(EufTerm::Var("y".to_string()));
    let z = solver.intern_term(EufTerm::Var("z".to_string()));
    solver.assert_disequality(x, z, Literal::from_dimacs(-3), 1);
    solver.assert_equality(x, y, Literal::from_dimacs(1), 1);
    solver.assert_equality(y, z, Literal::from_dimacs(2), 2);
    let explanation = solver.explain_equality(x, z);
    assert!(!explanation.is_empty());
    assert!(explanation.iter().all(|l| *l == Literal::from_dimacs(1) || *l == Literal::from_dimacs(2)));
    match solver.check() {
        TheoryResult::Conflict(c) => assert!(c.literals.contains(&Literal::from_dimacs(-3))),
        TheoryResult::Consistent => panic!("Expected conflict"),
    }
    solver.backtrack(1);
    assert!(matches!(solver.check(), TheoryResult::Consistent));
    assert_eq!(solver.find_const(x), solver.find_const(y));
}

#[test]
fn backtrack_retracts_disequalities_above_the_level() {
    let mut s = EufSolver::new();
    let x = s.intern_term(EufTerm::Var("x".into()));
    let y = s.intern_term(EufTerm::Var("y".into()));
    s.assert_equality(x, y, Literal::from_dimacs(1), 1);
    s.assert_disequality(x, y, Literal::from_dimacs(2), 2);
    assert!(matches!(s.check(), TheoryResult::Conflict(_)));
    s.backtrack(1);
    assert!(matches!(s.check(), TheoryResult::Consistent));
    assert!(s.are_equal(x, y));
}

#[test]
fn equal_arguments_make_applications_equal() {
    let mut s = EufSolver::new();
    let x = s.intern_term(EufTerm::Var("x".into()));
    let y = s.intern_term(EufTerm::Var("y".into()));
    let fx = s.intern_term(EufTerm::App("f".into(), vec![x]));
    let fy = s.intern_term(EufTerm::App("f".into(), vec![y]));
    let gx = s.intern_term(EufTerm::App("g".into(), vec![x]));
    assert!(!s.are_equal(fx, fy));
    s.assert_equality(x, y, Literal::from_dimacs(1), 1);
    assert!(s.are_equal(x, y));
    assert!(s.are_equal(fx, fy));
    assert!(!s.are_equal(fx, gx));
    // f(x) != f(y) now contradicts x = y through congruence.
    s.assert_disequality(fx, fy, Literal::from_dimacs(2), 1);
    match s.check() {
        TheoryResult::Conflict(c) => {
            assert!(c.literals.contains(&Literal::from_dimacs(1)));
            assert!(c.literals.contains(&Literal::from_dimacs(2)));
        }
        TheoryResult::Consistent => panic!("congruence should give a conflict"),
    }
}
