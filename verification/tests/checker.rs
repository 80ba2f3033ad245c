use paradox::clause::Clause;
use paradox::formula::Formula;
use paradox::literal::{Literal, Variable};
use paradox::verify::checker::{DratVerifier, VerifyResult};

fn make_clause(lits: &[(u32, bool)]) -> Clause {
    let literals: Vec<Literal> = lits.iter().map(|&(var, pol)| Literal::new(Variable::new(var), pol)).collect();
    Clause::new(literals)
}

fn make_formula(clauses: Vec<Vec<(u32, bool)>>) -> Formula {
    let max_var = clauses.iter().flat_map(|c| c.iter().map(|(v, _)| *v)).max().unwrap_or(0);
    let mut formula = Formula::with_num_vars(max_var);
    for clause_lits in clauses {
        formula.add_clause(make_clause(&clause_lits));
    }
    formula
}

#[test]
fn test_verifier_creation() {
    let formula = make_formula(vec![vec![(1, true), (2, true)], vec![(1, false), (3, true)]]);
    let verifier = DratVerifier::new(&formula);
    assert_eq!(verifier.clauses().len(), 2);
}

#[test]
fn test_rup_empty_clause() {
    let formula = make_formula(vec![vec![(1, true)], vec![(1, false)]]);
    let mut verifier = DratVerifier::new(&formula);
    assert!(verifier.check_rup(&[]));
}

#[test]
fn test_rup_unit_propagation() {
    let formula = make_formula(vec![vec![(1, true)], vec![(1, false), (2, true)], vec![(2, false), (3, true)]]);
    let mut verifier = DratVerifier::new(&formula);
    let lit3 = Literal::new(Variable::new(3), true);
    assert!(verifier.check_rup(&[lit3]));
}

#[test]
fn test_deletion() {
    let formula = make_formula(vec![vec![(1, true), (2, true)], vec![(1, false), (2, false)]]);
    let mut verifier = DratVerifier::new(&formula);
    let lit1 = Literal::new(Variable::new(1), true);
    let lit2 = Literal::new(Variable::new(2), true);
    verifier.process_deletion(&[lit1, lit2]);
    assert!(verifier.clauses()[0].is_none());
    assert!(verifier.clauses()[1].is_some());
}

#[test]
fn checker_test_has_empty_clause() {
    let formula = make_formula(vec![vec![(1, true)]]);
    let mut verifier = DratVerifier::new(&formula);
    assert!(!verifier.has_empty_clause());
    verifier.add_clause(vec![]);
    assert!(verifier.has_empty_clause());
}

#[test]
fn test_simple_proof() {
    let formula = make_formula(vec![vec![(1, true)], vec![(1, false)]]);
    let mut verifier = DratVerifier::new(&formula);
    assert!(verifier.check_rup(&[]));
    verifier.add_clause(vec![]);
    assert!(verifier.has_empty_clause());
}

#[test]
fn rup_is_refused_when_not_implied() {
    // (1 v 2) does not imply (1) by unit propagation.
    let formula = make_formula(vec![vec![(1, true), (2, true)]]);
    let mut verifier = DratVerifier::new(&formula);
    assert!(!verifier.check_rup(&[Literal::new(Variable::new(1), true)]));
    // The empty clause is RUP only when propagation on the clauses alone conflicts.
    assert!(!verifier.check_rup(&[]));
    assert_eq!(verifier.stats().rup_checks, 2);
}

#[test]
fn deletion_matches_clauses_as_sets() {
    let formula = make_formula(vec![vec![(1, true), (2, false)], vec![(3, true)]]);
    let mut verifier = DratVerifier::new(&formula);
    verifier.process_deletion(&[Literal::new(Variable::new(2), false), Literal::new(Variable::new(1), true)]);
    assert!(verifier.clauses()[0].is_none());
    // A clause that is not in the database is ignored.
    verifier.process_deletion(&[Literal::new(Variable::new(3), false)]);
    assert!(verifier.clauses()[1].is_some());
}

#[test]
fn rup_through_a_chain_after_deletion_fails() {
    let formula = make_formula(vec![vec![(1, true)], vec![(1, false), (2, true)], vec![(2, false), (3, true)]]);
    let mut verifier = DratVerifier::new(&formula);
    verifier.process_deletion(&[Literal::new(Variable::new(1), false), Literal::new(Variable::new(2), true)]);
    assert!(!verifier.check_rup(&[Literal::new(Variable::new(3), true)]));
}

#[test]
fn proof_text_is_checked_line_by_line() {
    let cnf = "c pigeons\np cnf 2 4\n1 2 0\n-1 2 0\n1 -2 0\n-1 -2 0\n";
    let mut verifier = DratVerifier::from_cnf_text(cnf);
    assert_eq!(verifier.clauses().len(), 4);
    let result = verifier.verify_proof_text("2 0\nd 1 2 0\n\n0\n");
    assert_eq!(result, VerifyResult::Valid);
    assert_eq!(verifier.stats().clauses_checked, 2);
    assert_eq!(verifier.stats().deletions_processed, 1);
    assert_eq!(verifier.stats().rup_checks, 2);
    assert!(verifier.clauses()[0].is_none());
}

#[test]
fn proof_text_reports_the_first_clause_that_is_not_rup() {
    let mut verifier = DratVerifier::from_cnf_text("p cnf 3 1\n1 2 3 0\n");
    match verifier.verify_proof_text("1 2 3 0\n-1 0\n0\n") {
        VerifyResult::Invalid { line, reason } => {
            assert_eq!(line, 2);
            assert_eq!(reason, "Clause [-1] is not RUP");
        }
        VerifyResult::Valid => panic!("expected an invalid proof"),
    }
}

#[test]
fn proof_text_without_empty_clause_is_invalid() {
    let mut verifier = DratVerifier::from_cnf_text("p cnf 2 1\n1 2 0\n");
    assert_eq!(
        verifier.verify_proof_text("1 2 0\n"),
        VerifyResult::Invalid { line: 0, reason: "Proof does not derive empty clause".to_string() }
    );
}

#[test]
fn an_empty_clause_on_a_satisfiable_formula_is_refused() {
    let mut verifier = DratVerifier::from_cnf_text("p cnf 2 1\n1 2 0\n");
    match verifier.verify_proof_text("0\n") {
        VerifyResult::Invalid { line, reason } => {
            assert_eq!(line, 1);
            assert_eq!(reason, "Clause [] is not RUP");
        }
        VerifyResult::Valid => panic!("a satisfiable formula has no refutation"),
    }
}

#[test]
fn checker_reports_declared_variables() {
    let verifier = DratVerifier::from_cnf_text("p cnf 7 1\n1 -2 0\n");
    assert_eq!(verifier.num_vars(), 7);
}
