use paradox::clause::Clause;
use paradox::formula::Formula;
use paradox::literal::Literal;

#[test]
fn test_formula_creation() {
    let formula = Formula::new();
    assert_eq!(formula.num_vars(), 0);
    assert_eq!(formula.num_clauses(), 0);
    assert!(formula.is_empty());
}

#[test]
fn test_formula_with_num_vars() {
    let formula = Formula::with_num_vars(10);
    assert_eq!(formula.num_vars(), 10);
    assert_eq!(formula.num_clauses(), 0);
}

#[test]
fn formula_test_add_clause() {
    let mut formula = Formula::new();
    let clause = Clause::new(vec![Literal::from_dimacs(1), Literal::from_dimacs(-2), Literal::from_dimacs(3)]);
    let idx = formula.add_clause(clause);
    assert_eq!(idx, 0);
    assert_eq!(formula.num_clauses(), 1);
    assert_eq!(formula.num_vars(), 3);
}

#[test]
fn test_num_vars_updates() {
    let mut formula = Formula::new();
    formula.add_clause(Clause::new(vec![Literal::from_dimacs(1), Literal::from_dimacs(2)]));
    assert_eq!(formula.num_vars(), 2);
    formula.add_clause(Clause::new(vec![Literal::from_dimacs(5), Literal::from_dimacs(-3)]));
    assert_eq!(formula.num_vars(), 5);
}

#[test]
fn test_clause_access() {
    let mut formula = Formula::new();
    formula.add_clause(Clause::new(vec![Literal::from_dimacs(1)]));
    formula.add_clause(Clause::new(vec![Literal::from_dimacs(2)]));
    assert_eq!(formula.clause(0).len(), 1);
    assert_eq!(formula.clause(1).len(), 1);
}

#[test]
fn formula_test_has_empty_clause() {
    let mut formula = Formula::new();
    formula.add_clause(Clause::new(vec![Literal::from_dimacs(1)]));
    assert!(!formula.has_empty_clause());
    formula.add_clause(Clause::new(vec![]));
    assert!(formula.has_empty_clause());
}

#[test]
fn formula_test_unit_clauses() {
    let mut formula = Formula::new();
    formula.add_clause(Clause::new(vec![Literal::from_dimacs(1)]));
    formula.add_clause(Clause::new(vec![Literal::from_dimacs(2), Literal::from_dimacs(3)]));
    formula.add_clause(Clause::new(vec![Literal::from_dimacs(-4)]));
    let units = formula.unit_clauses();
    assert_eq!(units.len(), 2);
    assert_eq!(units[0].0, 0);
    assert_eq!(units[1].0, 2);
}

#[test]
fn test_clause_refs() {
    let mut formula = Formula::new();
    formula.add_clause(Clause::new(vec![Literal::from_dimacs(1)]));
    formula.add_clause(Clause::new(vec![Literal::from_dimacs(2)]));
    formula.add_clause(Clause::new(vec![Literal::from_dimacs(3)]));
    let refs: Vec<_> = formula.clause_refs().collect();
    assert_eq!(refs, vec![0, 1, 2]);
}

#[test]
fn replace_clauses_and_original_count() {
    let mut formula = Formula::new();
    formula.add_clause(Clause::new(vec![Literal::from_dimacs(1), Literal::from_dimacs(2)]));
    formula.mark_original_end();
    formula.add_clause(Clause::learned(vec![Literal::from_dimacs(-1)]));
    assert_eq!(formula.num_original_clauses(), 1);
    formula.replace_clauses(vec![Clause::new(vec![Literal::from_dimacs(3)])]);
    assert_eq!(formula.num_clauses(), 1);
    assert_eq!(formula.clause(0).literals(), &[Literal::from_dimacs(3)][..]);
    formula.set_num_vars(9);
    assert_eq!(formula.num_vars(), 9);
    formula.clause_mut(0).set_lbd(4);
    assert_eq!(formula.clause(0).lbd(), 4);
}
