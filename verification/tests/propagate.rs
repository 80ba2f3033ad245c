use paradox::assignment::{Assignments, Value};
use paradox::clause::Clause;
use paradox::formula::Formula;
use paradox::literal::{Literal, Variable};
use paradox::solver::propagate::propagate;
use paradox::trail::Trail;
use paradox::watch::{init_watches, WatchLists};

fn make_clause(lits: &[(u32, bool)]) -> Clause {
    let literals: Vec<Literal> = lits
        .iter()
        .map(|&(var, pol)| {
            let v = Variable::new(var);
            if pol { Literal::positive(v) } else { Literal::negative(v) }
        })
        .collect();
    Clause::new(literals)
}

fn lit(var: u32, pol: bool) -> Literal {
    let v = Variable::new(var);
    if pol { Literal::positive(v) } else { Literal::negative(v) }
}

#[test]
fn test_propagate_no_propagation() {
    let mut formula = Formula::with_num_vars(3);
    formula.add_clause(make_clause(&[(1, true), (2, true), (3, true)]));
    let mut watches = WatchLists::new(3);
    init_watches(&mut watches, formula.clauses());
    let mut assignments = Assignments::new(3);
    let mut trail = Trail::new();
    let mut count = 0;
    let result = propagate(&formula, &mut assignments, &mut trail, &mut watches, &mut count);
    assert!(result.is_none());
    assert_eq!(count, 0);
}

#[test]
fn test_propagate_unit_clause() {
    let mut formula = Formula::with_num_vars(3);
    formula.add_clause(make_clause(&[(1, true), (2, true), (3, true)]));
    formula.add_clause(make_clause(&[(1, false)]));
    formula.add_clause(make_clause(&[(2, false)]));
    let mut watches = WatchLists::new(3);
    init_watches(&mut watches, formula.clauses());
    let mut assignments = Assignments::new(3);
    let mut trail = Trail::new();
    let mut count = 0;
    assignments.assign(Variable::new(1), false, 0, Some(1));
    trail.push(lit(1, false));
    let result = propagate(&formula, &mut assignments, &mut trail, &mut watches, &mut count);
    assert!(result.is_none());
}

#[test]
fn test_propagate_chain() {
    let mut formula = Formula::with_num_vars(3);
    formula.add_clause(make_clause(&[(1, false), (2, true)]));
    formula.add_clause(make_clause(&[(2, false), (3, true)]));
    let mut watches = WatchLists::new(3);
    init_watches(&mut watches, formula.clauses());
    let mut assignments = Assignments::new(3);
    let mut trail = Trail::new();
    let mut count = 0;
    trail.new_level();
    assignments.assign(Variable::new(1), true, 1, None);
    trail.push(lit(1, true));
    let result = propagate(&formula, &mut assignments, &mut trail, &mut watches, &mut count);
    assert!(result.is_none());
    assert_eq!(assignments.value(Variable::new(2)), Value::True);
    assert_eq!(assignments.value(Variable::new(3)), Value::True);
    assert_eq!(count, 2);
}

#[test]
fn test_propagate_conflict() {
    let mut formula = Formula::with_num_vars(3);
    formula.add_clause(make_clause(&[(1, false), (2, true)]));
    formula.add_clause(make_clause(&[(1, false), (2, false)]));
    let mut watches = WatchLists::new(3);
    init_watches(&mut watches, formula.clauses());
    let mut assignments = Assignments::new(3);
    let mut trail = Trail::new();
    let mut count = 0;
    trail.new_level();
    assignments.assign(Variable::new(1), true, 1, None);
    trail.push(lit(1, true));
    let result = propagate(&formula, &mut assignments, &mut trail, &mut watches, &mut count);
    assert!(result.is_some(), "Expected conflict but got None");
}

#[test]
fn test_propagate_multiple_watches() {
    let mut formula = Formula::with_num_vars(4);
    formula.add_clause(make_clause(&[(1, false), (2, true), (3, true), (4, true)]));
    let mut watches = WatchLists::new(4);
    init_watches(&mut watches, formula.clauses());
    let mut assignments = Assignments::new(4);
    let mut trail = Trail::new();
    let mut count = 0;
    trail.new_level();
    assignments.assign(Variable::new(1), true, 1, None);
    trail.push(lit(1, true));
    let result = propagate(&formula, &mut assignments, &mut trail, &mut watches, &mut count);
    assert!(result.is_none());
    assert_eq!(count, 0);
}

#[test]
fn test_propagate_blocker_optimization() {
    let mut formula = Formula::with_num_vars(3);
    formula.add_clause(make_clause(&[(1, true), (2, true), (3, true)]));
    let mut watches = WatchLists::new(3);
    init_watches(&mut watches, formula.clauses());
    let mut assignments = Assignments::new(3);
    let mut trail = Trail::new();
    let mut count = 0;
    trail.new_level();
    assignments.assign(Variable::new(3), true, 1, None);
    trail.push(lit(3, true));
    let result = propagate(&formula, &mut assignments, &mut trail, &mut watches, &mut count);
    assert!(result.is_none());
    assignments.assign(Variable::new(1), false, 1, None);
    trail.push(lit(1, false));
    let result = propagate(&formula, &mut assignments, &mut trail, &mut watches, &mut count);
    assert!(result.is_none());
}

#[test]
fn propagated_literals_record_their_reason() {
    let mut formula = Formula::with_num_vars(2);
    formula.add_clause(make_clause(&[(1, false), (2, false)]));
    let mut watches = WatchLists::new(2);
    init_watches(&mut watches, formula.clauses());
    let mut assignments = Assignments::new(2);
    let mut trail = Trail::new();
    let mut count = 0;
    trail.new_level();
    assignments.assign(Variable::new(1), true, 1, None);
    trail.push(lit(1, true));
    assert!(propagate(&formula, &mut assignments, &mut trail, &mut watches, &mut count).is_none());
    assert_eq!(assignments.value(Variable::new(2)), Value::False);
    assert_eq!(assignments.antecedent(Variable::new(2)), Some(0));
    assert_eq!(assignments.level(Variable::new(2)), 1);
    assert_eq!(trail.len(), 2);
}
