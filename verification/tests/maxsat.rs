use paradox::assignment::Value;
use paradox::clause::Clause;
use paradox::formula::Formula;
use paradox::literal::{Literal, Variable};
use paradox::solver::maxsat::{
    add_atmost_constraint, combinations, parse_wcnf, MaxSatFormula, MaxSatResult, MaxSatSolver, MaxSatStats,
    SoftClause,
};
use paradox::solver::search::{SearchState, SolveResult, Step};

fn lit(v: i32) -> Literal {
    Literal::from_dimacs(v)
}

fn clause(lits: &[i32]) -> Clause {
    Clause::new(lits.iter().map(|&v| lit(v)).collect())
}

/// The verified search with the lowest unassigned variable as decision.
fn sat_solve(formula: Formula) -> SolveResult {
    let mut state = SearchState::new(formula);
    if let Some(result) = state.start() {
        return result;
    }
    loop {
        match state.step() {
            Step::Finished(result) => return result,
            Step::Learned(_) => {}
            Step::Decide => {
                let n = state.assignments.num_vars();
                let v = (0..n)
                    .map(Variable::from_index)
                    .find(|v| state.assignments.value(*v) == Value::Unassigned)
                    .unwrap();
                let phase = state.phases[v.to_index()];
                state.decide(Literal::new(v, phase));
            }
        }
    }
}

/// Linear search for an optimum, with the verified steps of the MaxSAT solver.
fn maxsat_solve(solver: &mut MaxSatSolver) -> MaxSatResult {
    solver.note_sat_call();
    if !matches!(sat_solve(solver.hard_formula()), SolveResult::Sat(_)) {
        return MaxSatResult::Unsatisfiable;
    }
    if solver.formula().soft_clauses.is_empty() {
        solver.note_sat_call();
        return match sat_solve(solver.hard_formula()) {
            SolveResult::Sat(model) => MaxSatResult::Optimum { model, cost: 0, satisfied: vec![] },
            SolveResult::Unsat => MaxSatResult::Unsatisfiable,
            SolveResult::Unknown => MaxSatResult::Unknown,
        };
    }
    solver.initialize_relaxation_vars();
    solver.note_sat_call();
    match sat_solve(solver.build_sat_formula()) {
        SolveResult::Sat(model) => {
            solver.record_initial(model);
            while solver.can_improve() {
                let f = solver.improvement_formula();
                solver.note_sat_call();
                match sat_solve(f) {
                    SolveResult::Sat(model) => {
                        if !solver.record_improvement(model) {
                            break;
                        }
                    }
                    _ => break,
                }
            }
            solver.build_result()
        }
        SolveResult::Unsat => MaxSatResult::Unsatisfiable,
        SolveResult::Unknown => MaxSatResult::Unknown,
    }
}

#[test]
fn test_maxsat_formula_creation() {
    let mut f = MaxSatFormula::new(3);
    f.add_hard(clause(&[1, 2]));
    f.add_soft(clause(&[-1]), 5);
    f.add_soft(clause(&[-2]), 3);
    assert_eq!(f.num_vars, 3);
    assert_eq!(f.num_hard(), 1);
    assert_eq!(f.num_soft(), 2);
    assert_eq!(f.total_weight(), 8);
}

#[test]
fn test_maxsat_all_hard_satisfiable() {
    let mut f = MaxSatFormula::new(2);
    f.add_hard(clause(&[1, 2]));
    f.add_soft_unit(clause(&[-1]));
    f.add_soft_unit(clause(&[-2]));
    let mut solver = MaxSatSolver::new(f);
    match maxsat_solve(&mut solver) {
        MaxSatResult::Optimum { cost, .. } => assert!(cost <= 2, "Cost should be at most 2"),
        _ => panic!("Expected Optimum result"),
    }
}

#[test]
fn test_maxsat_hard_unsat() {
    let mut f = MaxSatFormula::new(1);
    f.add_hard(clause(&[1]));
    f.add_hard(clause(&[-1]));
    let mut solver = MaxSatSolver::new(f);
    assert!(matches!(maxsat_solve(&mut solver), MaxSatResult::Unsatisfiable));
}

#[test]
fn test_maxsat_no_soft_clauses() {
    let mut f = MaxSatFormula::new(2);
    f.add_hard(clause(&[1, 2]));
    let mut solver = MaxSatSolver::new(f);
    match maxsat_solve(&mut solver) {
        MaxSatResult::Optimum { cost, .. } => assert_eq!(cost, 0),
        _ => panic!("Expected Optimum result"),
    }
}

#[test]
fn test_maxsat_weighted() {
    let mut f = MaxSatFormula::new(2);
    f.add_hard(clause(&[1, 2]));
    f.add_soft(clause(&[-1]), 10);
    f.add_soft(clause(&[-2]), 1);
    let mut solver = MaxSatSolver::new(f);
    match maxsat_solve(&mut solver) {
        MaxSatResult::Optimum { cost, model, .. } => {
            assert!(cost <= 11, "Cost {} exceeds total weight 11", cost);
            let hard_sat = model.get(0).copied().unwrap_or(false) || model.get(1).copied().unwrap_or(false);
            assert!(hard_sat, "Hard clause must be satisfied");
        }
        _ => panic!("Expected Optimum result"),
    }
}

#[test]
fn test_parse_wcnf() {
    let input = r#"
c This is a comment
p wcnf 3 4 10
10 1 2 0
10 -1 3 0
1 -1 0
2 -2 0
        "#;
    let f = parse_wcnf(input).unwrap();
    assert_eq!(f.num_vars, 3);
    assert_eq!(f.num_hard(), 2);
    assert_eq!(f.num_soft(), 2);
    assert_eq!(f.total_weight(), 3);
}

#[test]
fn test_parse_wcnf_no_top() {
    let input = r#"
p wcnf 2 2
1000000 1 0
5 -1 0
        "#;
    let f = parse_wcnf(input).unwrap();
    assert_eq!(f.num_vars, 2);
    assert_eq!(f.num_soft(), 2);
}

#[test]
fn test_soft_clause_weight() {
    let s = SoftClause::new(clause(&[1, 2]), 5);
    assert_eq!(s.weight, 5);
    assert!(s.relax_var.is_none());
}

#[test]
fn test_soft_clause_unit() {
    let s = SoftClause::unit(clause(&[1]));
    assert_eq!(s.weight, 1);
}

#[test]
fn test_maxsat_stats() {
    let f = MaxSatFormula::new(1);
    let solver = MaxSatSolver::new(f);
    assert_eq!(solver.stats().sat_calls, 0);
    assert_eq!(solver.stats().cores_extracted, 0);
}

#[test]
fn test_compute_satisfied() {
    let mut f = MaxSatFormula::new(2);
    f.add_soft_unit(clause(&[1]));
    f.add_soft_unit(clause(&[-1]));
    f.add_soft_unit(clause(&[2]));
    let model = vec![true, false, false, false, false];
    let solver = MaxSatSolver::new(f);
    let satisfied = solver.compute_satisfied(&model);
    assert!(satisfied.contains(&0));
    assert!(!satisfied.contains(&1));
    assert!(!satisfied.contains(&2));
}

#[test]
fn unit_weight_search_reaches_the_optimum() {
    let mut f = MaxSatFormula::new(2);
    f.add_hard(clause(&[1, 2]));
    f.add_soft_unit(clause(&[-1]));
    f.add_soft_unit(clause(&[-2]));
    let mut solver = MaxSatSolver::new(f);
    match maxsat_solve(&mut solver) {
        MaxSatResult::Optimum { cost, model, satisfied } => {
            assert_eq!(cost, 1);
            assert!(model[0] || model[1]);
            assert_eq!(satisfied.len(), 1);
        }
        _ => panic!("Expected Optimum result"),
    }
}

#[test]
fn cost_counts_relaxed_soft_weights() {
    let mut f = MaxSatFormula::new(2);
    f.add_soft(clause(&[1]), 4);
    f.add_soft(clause(&[2, -1]), 7);
    let mut solver = MaxSatSolver::new(f);
    // Without relaxation variables nothing counts.
    assert_eq!(solver.compute_cost(&[false, false]), 0);
    solver.initialize_relaxation_vars();
    assert_eq!(solver.formula().soft_clauses[0].relax_var, Some(3));
    assert_eq!(solver.formula().soft_clauses[1].relax_var, Some(4));
    // The cost is the weight of the soft clauses whose relaxation variable is true.
    assert_eq!(solver.compute_cost(&[false, false, true, false]), 4);
    assert_eq!(solver.compute_cost(&[false, false, true, true]), 11);
    assert_eq!(solver.compute_cost(&[true, true, false, true]), 7);
    assert_eq!(solver.compute_cost(&[]), 0);
    assert!(matches!(solver.build_result(), MaxSatResult::Unknown));
}

#[test]
fn combinations_in_order() {
    let c = combinations(&[4, 5, 6], 2);
    assert_eq!(c, vec![vec![4, 5], vec![4, 6], vec![5, 6]]);
    assert_eq!(combinations(&[1, 2], 0), vec![Vec::<u32>::new()]);
    assert!(combinations(&[1], 2).is_empty());
}

#[test]
fn atmost_constraint_clauses() {
    let mut f = Formula::new();
    add_atmost_constraint(&mut f, &[1, 2, 3], 1);
    assert_eq!(f.num_clauses(), 3);
    assert_eq!(f.clause(0).literals(), &[lit(-1), lit(-2)][..]);
    let mut g = Formula::new();
    add_atmost_constraint(&mut g, &[1, 2], 0);
    assert_eq!(g.num_clauses(), 2);
    let mut h = Formula::new();
    add_atmost_constraint(&mut h, &[1, 2], 2);
    assert_eq!(h.num_clauses(), 0);
}

#[test]
fn wcnf_errors() {
    assert!(parse_wcnf("1 1 0\n").is_err());
    assert!(parse_wcnf("p wcnf 1 1\nx 1 0\n").is_err());
    let stats = MaxSatStats::default();
    assert_eq!(stats.relax_vars, 0);
}
