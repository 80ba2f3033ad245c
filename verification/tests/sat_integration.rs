use paradox::assignment::Value;
use paradox::formula::Formula;
use paradox::literal::{Literal, Variable};
use paradox::parser::dimacs::parse_dimacs;
use paradox::solver::search::{SearchState, SolveResult, Step};

/// Drive the verified search with a simple decision rule: the lowest unassigned
/// variable, with its saved phase.
fn solve_formula(formula: Formula) -> SolveResult {
    let mut state = SearchState::new(formula);
    if let Some(result) = state.start() {
        return result;
    }
    loop {
        match state.step() {
            Step::Finished(result) => return result,
            Step::Learned(_) => {}
            Step::Decide => {
                let n = state.assignments.num_vars();
                let mut chosen = None;
                for i in 0..n {
                    let v = Variable::from_index(i);
                    if state.assignments.value(v) == Value::Unassigned {
                        chosen = Some(Literal::new(v, state.phases[i]));
                        break;
                    }
                }
                state.decide(chosen.expect("a decision is asked only when a variable is unassigned"));
            }
        }
    }
}

fn solve_dimacs(input: &str) -> SolveResult {
    let formula = parse_dimacs(input).expect("Failed to parse DIMACS");
    solve_formula(formula)
}

#[test]
fn sat_integration_test_simple_sat() {
    let input = r#"
        p cnf 3 2
        1 2 0
        -1 3 0
    "#;
    assert!(matches!(solve_dimacs(input), SolveResult::Sat(_)));
}

#[test]
fn test_simple_unsat() {
    let input = r#"
        p cnf 1 2
        1 0
        -1 0
    "#;
    assert!(matches!(solve_dimacs(input), SolveResult::Unsat));
}

#[test]
fn test_empty_formula() {
    assert!(matches!(solve_dimacs("p cnf 0 0\n"), SolveResult::Sat(_)));
}

#[test]
fn test_single_unit_clause() {
    let input = r#"
        p cnf 1 1
        1 0
    "#;
    match solve_dimacs(input) {
        SolveResult::Sat(model) => {
            assert!(model.len() >= 1);
            assert!(model[0]);
        }
        _ => panic!("Expected SAT"),
    }
}

#[test]
fn test_two_unit_clauses_sat() {
    let input = r#"
        p cnf 2 2
        1 0
        2 0
    "#;
    match solve_dimacs(input) {
        SolveResult::Sat(model) => {
            assert!(model.len() >= 2);
            assert!(model[0]);
            assert!(model[1]);
        }
        _ => panic!("Expected SAT"),
    }
}

#[test]
fn test_pigeonhole_2_1() {
    let input = r#"
        p cnf 2 3
        1 0
        2 0
        -1 -2 0
    "#;
    assert!(matches!(solve_dimacs(input), SolveResult::Unsat));
}

#[test]
fn test_pigeonhole_3_2() {
    let input = r#"
        p cnf 6 9
        1 2 0
        3 4 0
        5 6 0
        -1 -3 0
        -1 -5 0
        -3 -5 0
        -2 -4 0
        -2 -6 0
        -4 -6 0
    "#;
    assert!(matches!(solve_dimacs(input), SolveResult::Unsat));
}

#[test]
fn test_3sat_satisfiable() {
    let input = r#"
        p cnf 5 5
        1 2 3 0
        -1 2 4 0
        1 -2 5 0
        -3 4 5 0
        1 3 -4 0
    "#;
    assert!(matches!(solve_dimacs(input), SolveResult::Sat(_)));
}

#[test]
fn test_model_verification() {
    let input = r#"
        p cnf 3 3
        1 2 0
        -1 3 0
        2 3 0
    "#;
    match solve_dimacs(input) {
        SolveResult::Sat(model) => {
            assert!(model.get(0).copied().unwrap_or(false) || model.get(1).copied().unwrap_or(false));
            assert!(!model.get(0).copied().unwrap_or(true) || model.get(2).copied().unwrap_or(false));
            assert!(model.get(1).copied().unwrap_or(false) || model.get(2).copied().unwrap_or(false));
        }
        _ => panic!("Expected SAT"),
    }
}

#[test]
fn test_large_clause() {
    let input = r#"
        p cnf 10 1
        1 2 3 4 5 6 7 8 9 10 0
    "#;
    assert!(matches!(solve_dimacs(input), SolveResult::Sat(_)));
}

#[test]
fn test_all_negative_clause() {
    let input = r#"
        p cnf 3 1
        -1 -2 -3 0
    "#;
    assert!(matches!(solve_dimacs(input), SolveResult::Sat(_)));
}

#[test]
fn test_chain_implications() {
    let input = r#"
        p cnf 4 5
        -1 2 0
        -2 3 0
        -3 4 0
        1 0
        -4 0
    "#;
    assert!(matches!(solve_dimacs(input), SolveResult::Unsat));
}

#[test]
fn start_assigns_units_and_detects_contradictions() {
    let mut state = SearchState::new(parse_dimacs("p cnf 3 3\n1 0\n-2 0\n1 3 0\n").unwrap());
    assert!(state.start().is_none());
    assert_eq!(state.assignments.value(Variable::new(1)), Value::True);
    assert_eq!(state.assignments.value(Variable::new(2)), Value::False);
    assert_eq!(state.assignments.value(Variable::new(3)), Value::Unassigned);
    assert_eq!(state.trail.current_level(), 0);

    let mut clash = SearchState::new(parse_dimacs("p cnf 2 3\n2 1 0\n1 0\n-1 0\n").unwrap());
    assert!(matches!(clash.start(), Some(SolveResult::Unsat)));

    let mut empty = SearchState::new(parse_dimacs("p cnf 2 2\n1 0\n0\n").unwrap());
    assert!(matches!(empty.start(), Some(SolveResult::Unsat)));
}

#[test]
fn learned_clauses_are_kept_and_restart_returns_to_root() {
    let input = r#"
        p cnf 6 9
        1 2 0
        3 4 0
        5 6 0
        -1 -3 0
        -1 -5 0
        -3 -5 0
        -2 -4 0
        -2 -6 0
        -4 -6 0
    "#;
    let mut state = SearchState::new(parse_dimacs(input).unwrap());
    assert!(state.start().is_none());
    let mut learned = 0;
    loop {
        match state.step() {
            Step::Finished(result) => {
                assert!(matches!(result, SolveResult::Unsat));
                break;
            }
            Step::Learned(c) => {
                learned += 1;
                assert!(!c.learned_clause.is_empty());
                assert_eq!(state.trail.current_level(), c.backtrack_level);
                state.restart();
                assert_eq!(state.trail.current_level(), 0);
            }
            Step::Decide => {
                let n = state.assignments.num_vars();
                let v = (0..n).map(Variable::from_index).find(|v| state.assignments.value(*v) == Value::Unassigned).unwrap();
                state.decide(Literal::positive(v));
            }
        }
    }
    assert!(learned > 0);
    assert_eq!(state.formula.num_clauses(), 9 + learned);
    assert_eq!(state.stats.restarts as usize, learned);
}
