use paradox::assignment::Assignments;
use paradox::clause::Clause;
use paradox::formula::Formula;
use paradox::literal::Literal;
use paradox::solver::conflict::{analyze_conflict, compute_lbd, minimize_clause};
use paradox::trail::Trail;

fn lit(v: i32) -> Literal {
    Literal::from_dimacs(v)
}

fn clause(lits: &[i32]) -> Clause {
    Clause::new(lits.iter().map(|&v| lit(v)).collect())
}

#[test]
fn test_simple_conflict() {
    let mut f = Formula::new();
    f.add_clause(clause(&[1, 2]));
    let mut assignments = Assignments::new(2);
    let mut trail = Trail::new();
    trail.new_level();
    assignments.assign(lit(1).variable(), false, 1, None);
    trail.push_propagation(lit(-1));
    assignments.assign(lit(2).variable(), false, 1, Some(0));
    trail.push_propagation(lit(-2));
    let result = analyze_conflict(0, &f, &assignments, &trail, 1);
    assert!(!result.learned_clause.is_empty());
    assert!(result.backtrack_level < 1);
}

#[test]
fn test_conflict_with_antecedent() {
    let mut f = Formula::new();
    f.add_clause(clause(&[1]));
    f.add_clause(clause(&[-1, 2]));
    f.add_clause(clause(&[-2, -3]));
    let mut assignments = Assignments::new(3);
    let mut trail = Trail::new();
    assignments.assign(lit(1).variable(), true, 0, Some(0));
    trail.push_propagation(lit(1));
    assignments.assign(lit(2).variable(), true, 0, Some(1));
    trail.push_propagation(lit(2));
    trail.new_level();
    assignments.assign(lit(3).variable(), true, 1, None);
    trail.push_propagation(lit(3));
    let result = analyze_conflict(2, &f, &assignments, &trail, 1);
    assert_eq!(result.backtrack_level, 0);
}

#[test]
fn test_lbd_computation() {
    let mut assignments = Assignments::new(5);
    assignments.assign(lit(1).variable(), true, 1, None);
    assignments.assign(lit(2).variable(), true, 1, None);
    assignments.assign(lit(3).variable(), true, 2, None);
    assignments.assign(lit(4).variable(), true, 3, None);
    let clause = vec![lit(1), lit(2), lit(3), lit(4)];
    let lbd = compute_lbd(&clause, &assignments);
    assert_eq!(lbd, 3);
}

#[test]
fn test_involved_vars() {
    let mut f = Formula::new();
    f.add_clause(clause(&[1, 2, 3]));
    let mut assignments = Assignments::new(3);
    let mut trail = Trail::new();
    trail.new_level();
    assignments.assign(lit(1).variable(), false, 1, None);
    trail.push_propagation(lit(-1));
    assignments.assign(lit(2).variable(), false, 1, None);
    trail.push_propagation(lit(-2));
    assignments.assign(lit(3).variable(), false, 1, Some(0));
    trail.push_propagation(lit(-3));
    let result = analyze_conflict(0, &f, &assignments, &trail, 1);
    assert_eq!(result.involved_vars.len(), 3);
}

#[test]
fn test_unit_learned_clause() {
    let mut f = Formula::new();
    f.add_clause(clause(&[1]));
    let mut assignments = Assignments::new(1);
    let mut trail = Trail::new();
    trail.new_level();
    assignments.assign(lit(1).variable(), false, 1, None);
    trail.push_propagation(lit(-1));
    let result = analyze_conflict(0, &f, &assignments, &trail, 1);
    assert!(result.learned_clause.contains(&lit(1)) || result.learned_clause.contains(&lit(-1)));
    assert_eq!(result.backtrack_level, 0);
}

#[test]
fn first_uip_clause_across_two_levels() {
    // Level 1: decide 1; level 2: decide 2, then (-1 v -2 v 3) gives 3,
    // and (-3 v -1) conflicts.
    let mut f = Formula::new();
    f.add_clause(clause(&[-1, -2, 3]));
    f.add_clause(clause(&[-3, -1]));
    let mut assignments = Assignments::new(3);
    let mut trail = Trail::new();
    trail.push_decision(lit(1));
    assignments.decide(lit(1).variable(), true, 1);
    trail.push_decision(lit(2));
    assignments.decide(lit(2).variable(), true, 2);
    trail.push_propagation(lit(3));
    assignments.propagate(lit(3).variable(), true, 2, 0);
    let result = analyze_conflict(1, &f, &assignments, &trail, 2);
    assert_eq!(result.learned_clause, vec![lit(-3), lit(-1)]);
    assert_eq!(result.backtrack_level, 1);
    assert_eq!(result.lbd, 2);
    assert_eq!(compute_lbd(&result.learned_clause, &assignments), 2);
}

#[test]
fn minimize_keeps_the_asserting_literal() {
    let mut f = Formula::new();
    f.add_clause(clause(&[-1, 2]));
    let mut assignments = Assignments::new(3);
    assignments.decide(lit(1).variable(), true, 1);
    assignments.propagate(lit(2).variable(), true, 1, 0);
    assignments.decide(lit(3).variable(), true, 2);
    let mut learned = vec![lit(-3), lit(-2), lit(-1)];
    minimize_clause(&mut learned, &f, &assignments);
    assert_eq!(learned, vec![lit(-3), lit(-1)]);
}
