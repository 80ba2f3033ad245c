use paradox::assignment::Value;
use paradox::dpll_t::DpllT;
use paradox::formula::Formula;
use paradox::literal::{Literal, Variable};
use paradox::parser::smtlib::{parse_smtlib, Logic, SmtProblem};
use paradox::solver::search::{SearchState, SolveResult, Step};

/// The verified search with the lowest unassigned variable as decision.
fn sat_solve(formula: Formula) -> SolveResult {
    let mut state = SearchState::new(formula);
    if let Some(result) = state.start() {
        return result;
    }
    loop {
        match state.step() {
            Step::Finished(result) => return result,
            Step::Learned(_) => {}
            Step::Decide => {
                let n = state.assignments.num_vars();
                let v = (0..n)
                    .map(Variable::from_index)
                    .find(|v| state.assignments.value(*v) == Value::Unassigned)
                    .unwrap();
                let phase = state.phases[v.to_index()];
                state.decide(Literal::new(v, phase));
            }
        }
    }
}

/// Encode, solve the Boolean abstraction, and let the theories check its model.
fn dpll_t_solve(solver: &mut DpllT) -> SolveResult {
    let formula = solver.build_formula();
    match sat_solve(formula) {
        SolveResult::Sat(model) => solver.check_model(model),
        other => other,
    }
}

fn solve_smt(input: &str) -> SolveResult {
    let problem = parse_smtlib(input).expect("Failed to parse SMT-LIB");
    let mut solver = DpllT::new(problem);
    dpll_t_solve(&mut solver)
}

#[test]
fn test_dpll_t_new() {
    let problem = SmtProblem::new();
    let mut solver = DpllT::new(problem);
    assert!(!solver.theories().is_empty());
}

#[test]
fn test_dpll_t_simple_sat() {
    let input = r#"
        (set-logic QF_UF)
        (declare-const p Bool)
        (assert p)
        (check-sat)
    "#;
    let problem = parse_smtlib(input).unwrap();
    let mut solver = DpllT::new(problem);
    assert!(matches!(dpll_t_solve(&mut solver), SolveResult::Sat(_)));
}

#[test]
fn test_dpll_t_simple_unsat() {
    let input = r#"
        (set-logic QF_UF)
        (declare-const p Bool)
        (assert p)
        (assert (not p))
        (check-sat)
    "#;
    let problem = parse_smtlib(input).unwrap();
    let mut solver = DpllT::new(problem);
    assert!(matches!(dpll_t_solve(&mut solver), SolveResult::Unsat));
}

#[test]
fn test_dpll_t_conjunction() {
    let input = r#"
        (set-logic QF_UF)
        (declare-const p Bool)
        (declare-const q Bool)
        (assert (and p q))
        (check-sat)
    "#;
    let problem = parse_smtlib(input).unwrap();
    let mut solver = DpllT::new(problem);
    assert!(matches!(dpll_t_solve(&mut solver), SolveResult::Sat(_)));
}

#[test]
fn test_dpll_t_disjunction() {
    let input = r#"
        (set-logic QF_UF)
        (declare-const p Bool)
        (declare-const q Bool)
        (assert (or p q))
        (assert (not p))
        (check-sat)
    "#;
    let problem = parse_smtlib(input).unwrap();
    let mut solver = DpllT::new(problem);
    assert!(matches!(dpll_t_solve(&mut solver), SolveResult::Sat(_)));
}

#[test]
fn test_dpll_t_implication() {
    let input = r#"
        (set-logic QF_UF)
        (declare-const p Bool)
        (declare-const q Bool)
        (assert (=> p q))
        (assert p)
        (assert (not q))
        (check-sat)
    "#;
    let problem = parse_smtlib(input).unwrap();
    let mut solver = DpllT::new(problem);
    assert!(matches!(dpll_t_solve(&mut solver), SolveResult::Unsat));
}

#[test]
fn test_dpll_t_lia_logic() {
    let input = r#"
        (set-logic QF_LIA)
        (declare-const x Int)
        (assert (> x 0))
        (check-sat)
    "#;
    let problem = parse_smtlib(input).unwrap();
    let solver = DpllT::new(problem);
    assert_eq!(solver.logic(), Some(&Logic::QfLia));
    assert_eq!(solver.num_assertions(), 1);
    assert_eq!(solver.num_declarations(), 1);
}

#[test]
fn encoding_true_adds_nothing_and_false_adds_the_empty_clause() {
    let mut t = DpllT::new(parse_smtlib("(assert true)").unwrap());
    assert_eq!(t.build_formula().num_clauses(), 0);
    let mut f = DpllT::new(parse_smtlib("(assert false)").unwrap());
    assert!(f.build_formula().has_empty_clause());
}

#[test]
fn check_model_accepts_a_boolean_model() {
    let mut solver = DpllT::new(parse_smtlib("(set-logic QF_UF) (declare-const p Bool) (assert p)").unwrap());
    match solver.check_model(vec![true]) {
        SolveResult::Sat(m) => assert_eq!(m, vec![true]),
        other => panic!("unexpected {:?}", other),
    }
}

#[test]
fn encoding_adds_defining_clauses_and_a_unit_per_assertion() {
    let decls = "(declare-const p Bool) (declare-const q Bool) (declare-const r Bool)";
    let count = |body: &str| {
        let mut s = DpllT::new(parse_smtlib(&format!("{} {}", decls, body)).unwrap());
        s.build_formula().num_clauses()
    };
    assert_eq!(count("(assert p)"), 1);
    assert_eq!(count("(assert (or p q))"), 4);
    assert_eq!(count("(assert (and p q r))"), 5);
    assert_eq!(count("(assert (=> p q))"), 4);
    assert_eq!(count("(assert (xor p q))"), 5);
    assert_eq!(count("(assert (ite p q r))"), 5);
    assert_eq!(count("(assert (or true false))"), 1);
    assert_eq!(count("(assert p) (assert (not q))"), 2);
}
