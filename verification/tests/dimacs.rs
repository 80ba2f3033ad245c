use paradox::parser::dimacs::{parse_dimacs, DimacsError};

#[test]
fn test_simple_dimacs() {
    let input = r#"
c Comment
p cnf 3 2
1 -2 3 0
-1 2 0
"#;
    let formula = parse_dimacs(input).unwrap();
    assert_eq!(formula.num_vars(), 3);
    assert_eq!(formula.num_clauses(), 2);
    assert_eq!(formula.clause(0).len(), 3);
    assert_eq!(formula.clause(0).at(0).to_dimacs(), 1);
    assert_eq!(formula.clause(0).at(1).to_dimacs(), -2);
    assert_eq!(formula.clause(0).at(2).to_dimacs(), 3);
    assert_eq!(formula.clause(1).len(), 2);
    assert_eq!(formula.clause(1).at(0).to_dimacs(), -1);
    assert_eq!(formula.clause(1).at(1).to_dimacs(), 2);
}

#[test]
fn test_multiple_clauses_per_line() {
    let input = r#"
p cnf 2 3
1 2 0 -1 -2 0 1 0
"#;
    let formula = parse_dimacs(input).unwrap();
    assert_eq!(formula.num_clauses(), 3);
}

#[test]
fn test_clause_across_lines() {
    let input = r#"
p cnf 3 1
1
2
3 0
"#;
    let formula = parse_dimacs(input).unwrap();
    assert_eq!(formula.num_clauses(), 1);
    assert_eq!(formula.clause(0).len(), 3);
}

#[test]
fn dimacs_test_empty_clause() {
    let input = r#"
p cnf 1 1
0
"#;
    let formula = parse_dimacs(input).unwrap();
    assert_eq!(formula.num_clauses(), 1);
    assert!(formula.clause(0).is_empty());
}

#[test]
fn dimacs_test_unit_clauses() {
    let input = r#"
p cnf 3 3
1 0
-2 0
3 0
"#;
    let formula = parse_dimacs(input).unwrap();
    assert_eq!(formula.num_clauses(), 3);
    assert!(formula.clause(0).is_unit());
    assert!(formula.clause(1).is_unit());
    assert!(formula.clause(2).is_unit());
}

#[test]
fn test_multiple_comments() {
    let input = r#"
c First comment
c Second comment
p cnf 2 1
c Comment between
1 2 0
c Final comment
"#;
    let formula = parse_dimacs(input).unwrap();
    assert_eq!(formula.num_clauses(), 1);
}

#[test]
fn test_missing_problem_line() {
    let result = parse_dimacs("1 2 0");
    assert!(matches!(result, Err(DimacsError::MissingProblemLine)));
}

#[test]
fn test_invalid_problem_line() {
    let result = parse_dimacs("p sat 3 2");
    assert!(matches!(result, Err(DimacsError::InvalidProblemLine(_))));
}

#[test]
fn test_invalid_literal() {
    let input = r#"
p cnf 2 1
1 abc 0
"#;
    let result = parse_dimacs(input);
    assert!(matches!(result, Err(DimacsError::InvalidLiteral(_, _))));
}

#[test]
fn test_variable_out_of_range() {
    let input = r#"
p cnf 2 1
1 5 0
"#;
    let result = parse_dimacs(input);
    assert!(matches!(result, Err(DimacsError::VariableOutOfRange(5, 2))));
}

#[test]
fn test_unterminated_clause() {
    let input = r#"
p cnf 2 1
1 2
"#;
    let formula = parse_dimacs(input).unwrap();
    assert_eq!(formula.num_clauses(), 1);
    assert_eq!(formula.clause(0).len(), 2);
}

#[test]
fn test_whitespace_handling() {
    let input = "  p   cnf   2   1  \n  1    2   0  ";
    let formula = parse_dimacs(input).unwrap();
    assert_eq!(formula.num_vars(), 2);
    assert_eq!(formula.num_clauses(), 1);
}

#[test]
fn test_negative_literals() {
    let input = r#"
p cnf 3 1
-1 -2 -3 0
"#;
    let formula = parse_dimacs(input).unwrap();
    assert_eq!(formula.clause(0).at(0).to_dimacs(), -1);
    assert_eq!(formula.clause(0).at(1).to_dimacs(), -2);
    assert_eq!(formula.clause(0).at(2).to_dimacs(), -3);
}

#[test]
fn test_real_world_format() {
    let input = r#"
c This is a comment
c Generated by some tool
c
p cnf 5 3
1 -5 4 0
-1 5 3 4 0
-3 -4 0
"#;
    let formula = parse_dimacs(input).unwrap();
    assert_eq!(formula.num_vars(), 5);
    assert_eq!(formula.num_clauses(), 3);
}

#[test]
fn dimacs_error_details() {
    match parse_dimacs("p cnf 2 1\n1 abc 0\n") {
        Err(DimacsError::InvalidLiteral(token, line)) => {
            assert_eq!(token, "abc");
            assert_eq!(line, 2);
        }
        other => panic!("unexpected {:?}", other),
    }
    match parse_dimacs("  p sat 3 2  ") {
        Err(DimacsError::InvalidProblemLine(line)) => assert_eq!(line, "p sat 3 2"),
        other => panic!("unexpected {:?}", other),
    }
    match parse_dimacs("p cnf 2 1\n-3 0\n") {
        Err(DimacsError::VariableOutOfRange(v, m)) => assert_eq!((v, m), (3, 2)),
        other => panic!("unexpected {:?}", other),
    }
}

#[test]
fn dimacs_declared_variables_count_even_when_unused() {
    let formula = parse_dimacs("p cnf 7 1\n1 0\n").unwrap();
    assert_eq!(formula.num_vars(), 7);
}
